use fetch_sac::version::{version, ABOUT, AUTHORS, NAME, VERSION};

#[test]
fn version_test_version() {
    let v = version();

    assert!(v.starts_with(&format!("{NAME}/{VERSION}")));
}

#[test]
fn version_is_the_whole_banner() {
    assert_eq!(format!("{}/{} by {}\n{}", NAME, VERSION, AUTHORS, ABOUT), version());
    assert_eq!("fetch-sac", NAME);
}
