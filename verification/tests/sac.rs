use fetch_sac::area::Area;
use fetch_sac::sac::SAC;

#[test]
fn test_sac_new() {
    let sac = SAC::new();
    assert_eq!(SAC::Empty, sac);
}

#[test]
fn sac_test_area_new() {
    let a = Area::new("foo");
    assert_eq!("foo", a.name());
    assert_eq!(Vec::<(&SAC, &String)>::new(), a.iter());
}

#[test]
fn sac_test_area_add() {
    let mut a = Area::new("foo");

    a.add("666", "Hell");
    assert_eq!("foo", a.name());
    assert!(a.label_of(&SAC::from("666")).is_some());
    assert_eq!("Hell", a.label_of(&SAC::from("666")).unwrap());
}

#[test]
fn test_sac_default_is_empty() {
    assert_eq!(SAC::Empty, SAC::default());
}

#[test]
fn test_sac_from_str_hex() {
    assert_eq!(SAC::Hex("A4".to_owned()), SAC::from("A4"));
}

#[test]
fn test_sac_from_str_zero() {
    assert_eq!(SAC::Hex("00".to_owned()), SAC::from("00"));
}

#[test]
fn test_sac_from_str_range() {
    assert_eq!(SAC::Range("A0...C3".to_owned()), SAC::from("A0...C3"));
}

#[test]
fn test_sac_from_str_keeps_what_is_no_hex() {
    assert_eq!(SAC::Hex("SAC(Hexa)".to_owned()), SAC::from("SAC(Hexa)"));
    assert_eq!(SAC::Hex("".to_owned()), SAC::from(""));
    assert_eq!(SAC::Hex("A0..C3".to_owned()), SAC::from("A0..C3"));
    assert_eq!(SAC::Range("...".to_owned()), SAC::from("..."));
    assert_eq!(SAC::Range("x....".to_owned()), SAC::from("x...."));
}

#[test]
fn test_sac_from_usize_hex() {
    assert_eq!(SAC::Hex("A4".to_owned()), SAC::from(164usize));
}

#[test]
fn test_sac_from_usize_zero() {
    assert_eq!(SAC::Hex("00".to_owned()), SAC::from(0usize));
}

#[test]
fn test_sac_from_usize_pads_to_two_digits_only() {
    assert_eq!(SAC::Hex("0F".to_owned()), SAC::from(15usize));
    assert_eq!(SAC::Hex("10".to_owned()), SAC::from(16usize));
    assert_eq!(SAC::Hex("FF".to_owned()), SAC::from(255usize));
    assert_eq!(SAC::Hex("100".to_owned()), SAC::from(256usize));
    assert_eq!(SAC::Hex("BEEF".to_owned()), SAC::from(0xBEEFusize));
    assert_eq!(SAC::Hex(format!("{:02X}", usize::MAX)), SAC::from(usize::MAX));
}

#[test]
fn test_sac_to_string_gives_the_text_back() {
    assert_eq!("A4", SAC::from("A4").to_string());
    assert_eq!("A0...C3", SAC::from("A0...C3").to_string());
    assert_eq!("A0...C3", SAC::Range("A0...C3".to_owned()).to_string());
    assert_eq!("", SAC::Empty.to_string());
}

#[test]
fn test_sac_text_reads_back() {
    for text in ["A4", "00", "A0...C3", "not hex", ""] {
        let code = SAC::from(text);
        assert_eq!(code, SAC::from(code.to_string().as_str()));
    }
}

#[test]
fn test_sac_eq_tells_kinds_and_texts_apart() {
    assert_eq!(SAC::Hex("A4".to_owned()), SAC::Hex("A4".to_owned()));
    assert_ne!(SAC::Hex("A4".to_owned()), SAC::Hex("A5".to_owned()));
    assert_ne!(SAC::Hex("A4".to_owned()), SAC::Range("A4".to_owned()));
    assert_ne!(SAC::Hex("".to_owned()), SAC::Empty);
    assert_eq!(SAC::from("A4").clone(), SAC::from("A4"));
}

#[test]
fn test_sac_precedes_orders_by_kind_then_text() {
    let hex = |s: &str| SAC::Hex(s.to_owned());
    let range = |s: &str| SAC::Range(s.to_owned());
    assert!(hex("0A").precedes(&hex("0B")));
    assert!(!hex("0B").precedes(&hex("0A")));
    assert!(!hex("0A").precedes(&hex("0A")));
    assert!(hex("0").precedes(&hex("00")));
    assert!(hex("").precedes(&hex("0")));
    assert!(hex("A").precedes(&hex("a")));
    assert!(hex("Z").precedes(&hex("\u{e9}")));
    assert!(hex("FF").precedes(&range("00...01")));
    assert!(!range("00...01").precedes(&hex("FF")));
    assert!(range("00...01").precedes(&range("00...02")));
    assert!(range("FF...FF").precedes(&SAC::Empty));
    assert!(hex("FF").precedes(&SAC::Empty));
    assert!(!SAC::Empty.precedes(&SAC::Empty));
    assert!(!SAC::Empty.precedes(&hex("")));
}

#[test]
fn test_sac_operators_follow_the_order_of_codes() {
    let hex = |s: &str| SAC::Hex(s.to_owned());
    let range = |s: &str| SAC::Range(s.to_owned());
    assert!(hex("0A") < hex("0B"));
    assert!(hex("0B") > hex("0A"));
    assert!(hex("0A") <= hex("0A"));
    assert!(hex("0A") >= hex("0A"));
    assert!(hex("FF") < range("00...01"));
    assert!(range("00...01") < SAC::Empty);
    assert_eq!(Some(std::cmp::Ordering::Equal), SAC::Empty.partial_cmp(&SAC::Empty));
    let mut codes = vec![SAC::Empty, range("A...B"), hex("10"), hex("0F"), hex("\u{e9}"), hex("z")];
    codes.sort();
    assert_eq!(
        vec![hex("0F"), hex("10"), hex("z"), hex("\u{e9}"), range("A...B"), SAC::Empty],
        codes
    );
    for a in &codes {
        for b in &codes {
            assert_eq!(a.partial_cmp(b), Some(a.cmp(b)));
            assert_eq!(a.precedes(b), a < b);
        }
    }
}
