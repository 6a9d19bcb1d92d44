use fetch_sac::range::parse_hex;
use fetch_sac::text::find_first;
use fetch_sac::sac::SAC;

fn chars(s: &str) -> Vec<char> {
    s.chars().collect()
}

#[test]
fn bounds_of_a_range_are_its_two_ends() {
    assert_eq!(Some((0xA0, 0xC3)), SAC::from("A0...C3").bounds());
    assert_eq!(Some((0xA0, 0xC3)), SAC::Range("a0...c3".to_owned()).bounds());
    assert_eq!(Some((0, 255)), SAC::from("00...FF").bounds());
    assert_eq!(Some((1, 0x100)), SAC::from("1...100").bounds());
    assert_eq!(Some((3, 2)), SAC::from("3...2").bounds());
}

#[test]
fn bounds_of_a_range_written_from_its_ends() {
    for (low, high) in [(0usize, 0usize), (0xA0, 0xC3), (15, 16), (255, 4096), (7, usize::MAX)] {
        let text = format!("{}...{}", SAC::from(low).to_string(), SAC::from(high).to_string());
        assert_eq!(format!("{:02X}...{:02X}", low, high), text);
        let range = SAC::from(text.as_str());
        assert_eq!(Some((low, high)), range.bounds());
        assert_eq!(text, range.to_string());
    }
}

#[test]
fn bounds_are_none_for_what_is_no_range_of_numbers() {
    assert_eq!(None, SAC::from("A4").bounds());
    assert_eq!(None, SAC::Hex("A0...C3".to_owned()).bounds());
    assert_eq!(None, SAC::Empty.bounds());
    assert_eq!(None, SAC::from("...").bounds());
    assert_eq!(None, SAC::from("A0...").bounds());
    assert_eq!(None, SAC::from("...C3").bounds());
    assert_eq!(None, SAC::from("A0....C3").bounds());
    assert_eq!(None, SAC::from("A0...C3...D0").bounds());
    assert_eq!(None, SAC::from("G0...C3").bounds());
    assert_eq!(None, SAC::from("A0 ...C3").bounds());
    assert_eq!(None, SAC::Range("A0..C3".to_owned()).bounds());
    assert_eq!(None, SAC::from("0...10000000000000000000000000000000000").bounds());
}

#[test]
fn parse_hex_reads_digits_in_either_case() {
    assert_eq!(Some(0), parse_hex(&chars("0")));
    assert_eq!(Some(0xBEEF), parse_hex(&chars("bEeF")));
    assert_eq!(Some(10), parse_hex(&chars("000A")));
    assert_eq!(Some(usize::MAX), parse_hex(&chars(&format!("{:X}", usize::MAX))));
    assert_eq!(None, parse_hex(&chars(&format!("{:X}0", usize::MAX))));
    assert_eq!(None, parse_hex(&chars(&format!("1{:X}", usize::MAX))));
    assert_eq!(None, parse_hex(&chars("")));
    assert_eq!(None, parse_hex(&chars("0x10")));
    assert_eq!(None, parse_hex(&chars("-1")));
    assert_eq!(None, parse_hex(&chars("\u{ff11}")));
}

#[test]
fn find_first_gives_the_leftmost_place() {
    assert_eq!(Some(2), find_first(&chars("ab...cd...ef"), &chars("...")));
    assert_eq!(Some(0), find_first(&chars("...."), &chars("...")));
    assert_eq!(None, find_first(&chars("a..b.c"), &chars("...")));
    assert_eq!(None, find_first(&chars(".."), &chars("...")));
    assert_eq!(Some(0), find_first(&chars("abc"), &chars("")));
    assert_eq!(Some(0), find_first(&chars(""), &chars("")));
}
