use fetch_sac::text::{chars_lt, chars_of, contains_chars, fold_char, starts_at, str_contains, str_lt};

fn chars(s: &str) -> Vec<char> {
    s.chars().collect()
}

#[test]
fn chars_of_gives_the_characters_in_order() {
    assert_eq!(vec!['a', '\u{e9}', '\u{1f600}', '<'], chars_of("a\u{e9}\u{1f600}<"));
    assert_eq!(Vec::<char>::new(), chars_of(""));
}

#[test]
fn fold_char_lowers_capitals_of_ascii_only() {
    assert_eq!('a', fold_char('A'));
    assert_eq!('z', fold_char('Z'));
    assert_eq!('m', fold_char('m'));
    assert_eq!('<', fold_char('<'));
    assert_eq!('@', fold_char('@'));
    assert_eq!('[', fold_char('['));
    assert_eq!('\u{c9}', fold_char('\u{c9}'));
    assert_eq!('\u{212a}', fold_char('\u{212a}'));
    for c in ['A', 'Q', 'Z', 'a', '0', '/', '\u{130}'] {
        assert_eq!(c.to_ascii_lowercase(), fold_char(c));
    }
}

#[test]
fn starts_at_looks_at_one_place() {
    assert!(starts_at(&chars("abcabc"), 3, &chars("abc")));
    assert!(!starts_at(&chars("abcabc"), 2, &chars("abc")));
    assert!(!starts_at(&chars("abcabc"), 4, &chars("abc")));
    assert!(starts_at(&chars("abc"), 3, &chars("")));
    assert!(!starts_at(&chars("abc"), 4, &chars("")));
    assert!(!starts_at(&chars("abc"), usize::MAX, &chars("a")));
}

#[test]
fn contains_agrees_with_the_search_of_strings() {
    let texts = ["", "a", "SAC", "ISAC(Hexa)", "sac", "S AC", "class=\"x\"", "A0...C3", "..", "\u{e9}..."];
    let patterns = ["", "SAC", "class", "...", "a", "\u{e9}"];
    for text in texts {
        for pattern in patterns {
            assert_eq!(text.contains(pattern), str_contains(text, pattern));
            assert_eq!(text.contains(pattern), contains_chars(&chars(text), &chars(pattern)));
        }
    }
}

#[test]
fn order_agrees_with_the_order_of_strings() {
    let texts = ["", "0", "00", "0A", "A", "a", "B0", "\u{e9}", "z", "\u{1f600}", "\u{ffff}", "zz"];
    for a in texts {
        for b in texts {
            assert_eq!(a < b, str_lt(a, b));
            assert_eq!(a < b, chars_lt(&chars(a), &chars(b)));
        }
    }
}
