use cpumon::numeric::{format_i32, format_u32, parse_i32, parse_u32};
use cpumon::text::{chars_of, is_whitespace_char, split_string, trim_string};
use cpumon::version::version;

#[test]
fn format_u32_writes_decimal() {
    assert_eq!(format_u32(0), "0");
    assert_eq!(format_u32(7), "7");
    assert_eq!(format_u32(1200000), "1200000");
    assert_eq!(format_u32(u32::MAX), "4294967295");
}

#[test]
fn format_i32_writes_sign() {
    assert_eq!(format_i32(0), "0");
    assert_eq!(format_i32(-1), "-1");
    assert_eq!(format_i32(i32::MIN), "-2147483648");
    assert_eq!(format_i32(i32::MAX), "2147483647");
}

#[test]
fn parse_u32_accepts_what_std_accepts() {
    assert_eq!(parse_u32("42"), Some(42));
    assert_eq!(parse_u32("+42"), Some(42));
    assert_eq!(parse_u32("007"), Some(7));
    assert_eq!(parse_u32("4294967295"), Some(u32::MAX));
    assert_eq!(parse_u32("00000000000000000000004294967295"), Some(u32::MAX));
}

#[test]
fn parse_u32_rejects_what_std_rejects() {
    assert_eq!(parse_u32(""), None);
    assert_eq!(parse_u32("+"), None);
    assert_eq!(parse_u32("-1"), None);
    assert_eq!(parse_u32("4294967296"), None);
    assert_eq!(parse_u32("12a"), None);
    assert_eq!(parse_u32(" 1"), None);
    assert_eq!(parse_u32("99999999999999999999x"), None);
}

#[test]
fn parse_i32_cases() {
    assert_eq!(parse_i32("-2147483648"), Some(i32::MIN));
    assert_eq!(parse_i32("2147483647"), Some(i32::MAX));
    assert_eq!(parse_i32("2147483648"), None);
    assert_eq!(parse_i32("-2147483649"), None);
    assert_eq!(parse_i32("-"), None);
    assert_eq!(parse_i32("+-1"), None);
    assert_eq!(parse_i32("-+1"), None);
    assert_eq!(parse_i32("+17"), Some(17));
    assert_eq!(parse_i32("-0"), Some(0));
}

#[test]
fn parsing_agrees_with_std() {
    let samples = [
        "", "0", "+0", "-0", "1", "+1", "-1", "65535", "2147483647", "2147483648", "-2147483648",
        "-2147483649", "4294967295", "4294967296", "00012", "1 2", "abc", "+", "-", "++1", "\u{663}",
    ];
    for s in samples {
        assert_eq!(parse_u32(s), s.parse::<u32>().ok(), "u32 {:?}", s);
        assert_eq!(parse_i32(s), s.parse::<i32>().ok(), "i32 {:?}", s);
    }
}

#[test]
fn numbers_round_trip() {
    for n in [0u32, 1, 9, 10, 99, 100, 123456, u32::MAX] {
        assert_eq!(parse_u32(&format_u32(n)), Some(n));
    }
    for n in [0i32, -1, 1, -10, 10, i32::MIN, i32::MAX] {
        assert_eq!(parse_i32(&format_i32(n)), Some(n));
    }
}

#[test]
fn trim_removes_unicode_whitespace() {
    assert_eq!(trim_string("  performance \n"), "performance");
    assert_eq!(trim_string("\u{3000}x y\u{a0}\t"), "x y");
    assert_eq!(trim_string(" \n\t "), "");
    assert_eq!(trim_string(""), "");
    for s in ["a", " a", "a ", "\u{2028}a\u{85}", "\u{200b}a"] {
        assert_eq!(trim_string(s), s.trim());
    }
}

#[test]
fn whitespace_matches_std() {
    for c in ['\t', '\n', '\u{b}', '\u{c}', '\r', ' ', '\u{85}', '\u{a0}', '\u{1680}', '\u{2000}', '\u{200a}', '\u{200b}', '\u{2028}', '\u{2029}', '\u{202f}', '\u{205f}', '\u{3000}', 'a', '\u{1c}', '\u{feff}'] {
        assert_eq!(is_whitespace_char(c), c.is_whitespace(), "{:?}", c);
    }
}

#[test]
fn split_keeps_empty_pieces() {
    assert_eq!(split_string("performance powersave", ' '), vec!["performance", "powersave"]);
    assert_eq!(split_string("a  b", ' '), vec!["a", "", "b"]);
    assert_eq!(split_string("", ' '), vec![""]);
    assert_eq!(split_string(" ", ' '), vec!["", ""]);
}

#[test]
fn split_then_join_gives_text_back() {
    for s in ["a b c", " lead", "trail ", "", "  ", "one"] {
        let pieces = split_string(s, ' ');
        assert_eq!(pieces.join(" "), s);
        assert!(pieces.iter().all(|p| !p.contains(' ')));
    }
}

#[test]
fn chars_of_keeps_order() {
    assert_eq!(chars_of("a\u{e9}b"), vec!['a', '\u{e9}', 'b']);
}

#[test]
fn version_line() {
    assert_eq!(version("cpumon", "0.1.0", Some("abc1234"), Some("2024-05-01")), "cpumon 0.1.0 (abc1234 2024-05-01)");
    assert_eq!(version("cpumon", "0.1.0", None, None), "cpumon 0.1.0 (unknown unknown)");
}

#[test]
fn trim_twice_is_trim_once() {
    for s in ["  a  ", "\u{3000}\u{3000}", "x", "", "\n a b \t"] {
        let once = trim_string(s);
        assert_eq!(trim_string(&once), once);
    }
}
