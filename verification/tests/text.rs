use ugg::names::NameMap;
use ugg::text::{
    blank, comes_before, contains_text, decimal_text, ends_with, is_control, is_whitespace, join,
    lines, parse_number, replace_all, signed_decimal_text, signed_decimal_wide, starts_with, trim,
    trim_front,
};

#[test]
fn characters_are_classed_like_the_standard_library_does() {
    for n in 0..=0x10FFFFu32 {
        if let Some(c) = char::from_u32(n) {
            assert_eq!(is_whitespace(c), c.is_whitespace(), "{n:x}");
            assert_eq!(is_control(c), c.is_control(), "{n:x}");
        }
    }
}

const SAMPLES: [&str; 12] = [
    "",
    " ",
    "\u{3000}あ い\u{a0}",
    "a\r\nb\nc",
    "a\r\r\n\n\nb\r",
    "\n",
    "x\n",
    "'",
    "aaa",
    "a'a''a",
    "\u{85}z\u{2028}",
    "+0012",
];

#[test]
fn texts_are_handled_like_the_standard_library_does() {
    for s in SAMPLES {
        assert_eq!(trim(s), s.trim(), "{s:?}");
        assert_eq!(trim_front(s), s.trim_start(), "{s:?}");
        assert_eq!(blank(s), s.trim().is_empty(), "{s:?}");
        assert_eq!(lines(s), s.lines().collect::<Vec<_>>(), "{s:?}");
        for p in SAMPLES {
            assert_eq!(starts_with(s, p), s.starts_with(p), "{s:?} {p:?}");
            assert_eq!(ends_with(s, p), s.ends_with(p), "{s:?} {p:?}");
            assert_eq!(contains_text(s, p), s.contains(p), "{s:?} {p:?}");
            assert_eq!(comes_before(s, p), s < p, "{s:?} {p:?}");
            if !p.is_empty() {
                assert_eq!(replace_all(s, p, "<>"), s.replace(p, "<>"), "{s:?} {p:?}");
            }
        }
    }
}

#[test]
fn numbers_are_read_like_the_standard_library_does() {
    for s in [
        "", "+", "-", "0", "007", "+7", "-0", " 7", "7 ", "1a", "18446744073709551615",
        "18446744073709551616", "99999999999999999999999", "４",
    ] {
        assert_eq!(parse_number(s, u64::MAX), s.parse::<u64>().ok(), "{s:?}");
        assert_eq!(
            parse_number(s, u64::from(u32::MAX)),
            s.parse::<u32>().ok().map(u64::from),
            "{s:?}"
        );
    }
    assert_eq!(parse_number("4294967296", u64::from(u32::MAX)), None);
}

#[test]
fn numbers_are_written_like_the_standard_library_does() {
    for n in [0u64, 9, 10, 12345678901234567890, u64::MAX] {
        assert_eq!(decimal_text(n), n.to_string());
        assert_eq!(parse_number(&decimal_text(n), u64::MAX), Some(n));
    }
    for n in [i32::MIN, -10, 0, 7, i32::MAX] {
        assert_eq!(signed_decimal_text(n), n.to_string());
    }
    for n in [i64::MIN, -1, 0, i64::MAX] {
        assert_eq!(signed_decimal_wide(n), n.to_string());
    }
}

#[test]
fn texts_are_joined() {
    let v: Vec<String> = ["a", "", "b"].iter().map(|s| s.to_string()).collect();
    assert_eq!(join(&v, ", "), "a, , b");
    assert_eq!(join(&vec![], ", "), "");
}

#[test]
fn a_table_keeps_its_names_in_order() {
    let mut m = NameMap::new();
    for (k, v) in [("b", "1"), ("a", "2"), ("あ", "3"), ("b", "4")] {
        m.insert(k, v);
    }
    assert_eq!(m.names(), vec!["a", "b", "あ"]);
    assert_eq!(m.get("b").map(String::as_str), Some("4"));
    assert_eq!(m.len(), 3);
    let mut other = NameMap::new();
    other.insert("a", "9");
    other.insert("c", "8");
    m.extend(&other);
    assert_eq!(m.get("a").map(String::as_str), Some("9"));
    assert!(m.contains_key("c"));
    assert!(m.same_as(&m.copy()));
}
