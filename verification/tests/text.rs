use porkbun_webhook::number::{decimal_text, parse_flag, parse_number, parse_u32, NumberError};
use porkbun_webhook::text;

#[test]
fn white_space_is_that_of_unicode() {
    for c in '\0'..=char::MAX {
        assert_eq!(text::is_white(c), c.is_whitespace(), "{:x}", c as u32);
    }
}

#[test]
fn texts_are_trimmed_and_made_small() {
    for s in ["", " ", "\u{3000}a b\u{a0}", "A\u{c4}z.", "\t\n", "x ", " x"] {
        assert_eq!(text::trim(s), s.trim());
        assert_eq!(text::to_lower(s), s.to_ascii_lowercase());
    }
}

#[test]
fn parts_are_found() {
    for (s, part) in [
        ("", ""),
        ("abc", ""),
        ("abc", "abc"),
        ("abc", "bc"),
        ("abc", "abcd"),
        ("aab", "ab"),
        ("aac", "ab"),
        ("\u{e9}t\u{e9}", "t\u{e9}"),
    ] {
        assert_eq!(text::contains(s, part), s.contains(part), "{s} {part}");
        assert_eq!(text::ends_with(s, part), s.ends_with(part), "{s} {part}");
    }
}

#[test]
fn texts_are_ordered_as_strings() {
    let texts = ["", "a", "aa", "ab", "b", "\u{e9}", "\u{10000}", "B"];
    for a in texts {
        for b in texts {
            assert_eq!(text::is_before(a, b), a < b, "{a} {b}");
            assert_eq!(text::same_text(a, b), a == b, "{a} {b}");
        }
    }
}

#[test]
fn texts_are_split() {
    for s in ["", ",", "a,b", ",a,,b,", "abc"] {
        let pieces: Vec<String> = s.split(',').map(|p| p.to_string()).collect();
        assert_eq!(text::split(s, ','), pieces);
    }
}

#[test]
fn one_dot_is_stripped() {
    assert_eq!(text::strip_dot("a."), "a");
    assert_eq!(text::strip_dot("a.."), "a.");
    assert_eq!(text::strip_dot("a"), "a");
    assert_eq!(text::strip_dot(""), "");
}

#[test]
fn canonical_names_ignore_case_and_dot() {
    let name = text::normalize(" Www.Example.COM. ");
    assert_eq!(name, "www.example.com");
    assert_eq!(text::normalize(&name), name);
    assert_eq!(text::normalize("WWW.EXAMPLE.COM"), name);
    // Only one dot is taken off.
    assert_eq!(text::normalize("a.."), "a.");
}

#[test]
fn names_lie_under_zones() {
    assert!(text::is_under("example.com", "example.com"));
    assert!(text::is_under("a.example.com", "example.com"));
    assert!(!text::is_under("aexample.com", "example.com"));
    assert!(!text::is_under("com", "example.com"));
}

#[test]
fn numbers_are_read_as_integers() {
    for s in ["0", "7", "+7", "007", "4294967295", "4294967296", "", "+", "-1", "1 ", "x", "99999999999999999999"] {
        assert_eq!(parse_u32(s), s.parse::<u32>().ok(), "{s}");
    }
    assert_eq!(parse_number("65535", 65535), Ok(65535));
    assert_eq!(parse_number("65536", 65535), Err(NumberError::TooLarge));
    assert_eq!(parse_number("", 65535), Err(NumberError::Empty));
    assert_eq!(parse_number("+", 65535), Err(NumberError::InvalidDigit));
    assert_eq!(
        parse_number("18446744073709551615", u64::MAX),
        Ok(18446744073709551615)
    );
    assert_eq!(
        parse_number("18446744073709551616", u64::MAX),
        Err(NumberError::TooLarge)
    );
}

#[test]
fn written_numbers_are_read_back() {
    for n in [0u64, 1, 9, 10, 600, 4294967295, u64::MAX] {
        assert_eq!(decimal_text(n), n.to_string());
        assert_eq!(parse_number(&decimal_text(n), u64::MAX), Ok(n));
    }
}

#[test]
fn flags_are_true_or_false() {
    assert_eq!(parse_flag("true"), Some(true));
    assert_eq!(parse_flag("false"), Some(false));
    assert_eq!(parse_flag("True"), None);
    assert_eq!(parse_flag(""), None);
}
