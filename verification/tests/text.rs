use dsh_desktop::text::{
    chars_of, decimal_of, ends_with, is_blank, is_white_space, parse_u32, replace, same_chars,
    split_fields, split_lines, string_of,
};
use dsh_desktop::wide::to_wide;

#[test]
fn white_space_is_that_of_unicode() {
    for c in '\0'..=char::MAX {
        assert_eq!(is_white_space(c), c.is_whitespace(), "{:?}", c);
    }
}

#[test]
fn blank_text_trims_to_nothing() {
    for s in ["", " ", "\t\r\n", "\u{a0}\u{3000}", "a", " a ", "\u{200b}"] {
        assert_eq!(is_blank(s), s.trim().is_empty(), "{:?}", s);
    }
}

#[test]
fn strings_and_characters() {
    let s = "服务 ok 🐳";
    assert_eq!(chars_of(s), s.chars().collect::<Vec<char>>());
    assert_eq!(string_of(&chars_of(s)), s);
    assert!(same_chars(&chars_of("ab"), &chars_of("ab")));
    assert!(!same_chars(&chars_of("ab"), &chars_of("ac")));
    assert!(!same_chars(&chars_of("ab"), &chars_of("abc")));
}

#[test]
fn fields_are_split_at_white_space() {
    for s in ["", "  ", "a", " a b\tc ", "TCP\u{3000}x\r", "服务 ok"] {
        let fields: Vec<String> = split_fields(&chars_of(s)).iter().map(string_of).collect();
        let expected: Vec<&str> = s.split_whitespace().collect();
        assert_eq!(fields, expected);
    }
}

#[test]
fn lines_are_split_at_line_feeds() {
    let lines = |s: &[u8]| split_lines(&s.to_vec());
    assert_eq!(lines(b""), vec![b"".to_vec()]);
    assert_eq!(lines(b"a"), vec![b"a".to_vec()]);
    assert_eq!(
        lines(b"a\r\nb\n\n\xff"),
        vec![b"a\r".to_vec(), b"b".to_vec(), b"".to_vec(), b"\xff".to_vec()]
    );
    assert_eq!(lines(b"a\n"), vec![b"a".to_vec(), b"".to_vec()]);
}

#[test]
fn text_is_decoded_line_by_line() {
    let s = "服务\n🐳 ok\r\n\n\u{85}x";
    let lines: Vec<String> = split_lines(&s.as_bytes().to_vec())
        .into_iter()
        .map(|line| String::from_utf8(line).unwrap())
        .collect();
    assert_eq!(lines, s.split('\n').collect::<Vec<&str>>());
}

#[test]
fn suffixes() {
    for (s, suffix) in [("0.0.0.0:3080", ":3080"), ("13080", ":3080"), (":3080", ":3080"), ("", ""), ("80", ":3080")] {
        assert_eq!(ends_with(&chars_of(s), &chars_of(suffix)), s.ends_with(suffix));
    }
}

#[test]
fn numerals() {
    for n in [0, 1, 9, 10, 99, 100, 3080, 65535, 4294967295] {
        assert_eq!(string_of(&decimal_of(n)), n.to_string());
        assert_eq!(parse_u32(&decimal_of(n)), Some(n));
    }
    for s in ["", "+", "-", "+1", "++1", "-1", "-0", " 1", "1 ", "1a", "٣", "007", "4294967295", "4294967296", "99999999999999999999999"] {
        assert_eq!(parse_u32(&chars_of(s)), s.parse::<u32>().ok(), "{:?}", s);
    }
}

#[test]
fn replacing_goes_from_left_to_right() {
    for (s, pattern, with) in [
        ("", "a", "b"),
        ("aaa", "aa", "b"),
        ("aaaa", "aa", "aaa"),
        ("x__STATUS__y__STATUS__", "__STATUS__", "ok"),
        ("____STATUS____", "__STATUS__", ""),
        ("a&b", "&", "&amp;"),
        ("abc", "abcd", "x"),
    ] {
        let replaced = replace(&chars_of(s), &chars_of(pattern), &chars_of(with));
        assert_eq!(string_of(&replaced), s.replace(pattern, with));
    }
}

#[test]
fn wide_text_is_utf16_with_a_nul() {
    for s in ["", "a", "DeepSeek Harness", "错误详情", "🐳", "\u{ffff}\u{10000}\u{10ffff}"] {
        let mut expected: Vec<u16> = s.encode_utf16().collect();
        expected.push(0);
        assert_eq!(to_wide(s), expected);
    }
    assert_eq!(to_wide("🐳"), vec![0xd83d, 0xdc33, 0]);
    let wide = to_wide("鲸 🐳");
    assert_eq!(String::from_utf16(&wide[..wide.len() - 1]).unwrap(), "鲸 🐳");
    assert!(wide[..wide.len() - 1].iter().all(|unit| *unit != 0));
}
