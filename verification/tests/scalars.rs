use serde_txtrecord::decimal::{parse_i64, parse_u64, render_i64, render_u64, render_usize};
use serde_txtrecord::scalar::{
    is_valid, name_of, parse_bool, parse_char, parse_i16_text, parse_i32_text, parse_i64_text,
    parse_i8_text, parse_u16_text, parse_u32_text, parse_u64_text, parse_u8_text,
};
use serde_txtrecord::text::{
    find, has_prefix, has_suffix, head_to, matches_at, same_text, tail_from, to_chars,
};
use serde_txtrecord::ScalarKind;

fn chars(s: &str) -> Vec<char> {
    s.chars().collect()
}

const SAMPLES: &[&str] = &[
    "", "0", "1", "9", "10", "007", "+0", "-0", "+", "-", "+5", "-5", "++5", "--5", "+-5", "5+",
    " 5", "5 ", "1_000", "1e3", "0x10", "١٢٣", "127", "128", "-128", "-129", "255", "256",
    "32767", "32768", "-32768", "-32769", "65535", "65536", "2147483647", "2147483648",
    "-2147483648", "-2147483649", "4294967295", "4294967296", "9223372036854775807",
    "9223372036854775808", "-9223372036854775808", "-9223372036854775809",
    "18446744073709551615", "18446744073709551616", "000000000000000000000000000000255",
    "99999999999999999999999999999999999999", "-99999999999999999999999999999999999999",
    "true", "a", "12a", "a12",
];

#[test]
fn render_matches_the_standard_text() {
    for n in [0u64, 1, 9, 10, 11, 99, 100, 255, 1000, 1234567890, u64::MAX - 1, u64::MAX] {
        assert_eq!(render_u64(n), n.to_string());
    }
    for n in [0usize, 7, 10, 256, usize::MAX] {
        assert_eq!(render_usize(n), n.to_string());
    }
    for n in [0i64, 1, -1, 9, -9, 10, -10, 1234567890, -1000, i64::MAX, i64::MIN, i64::MIN + 1] {
        assert_eq!(render_i64(n), n.to_string());
    }
    assert_eq!(render_u64(1234567890), "1234567890");
    assert_eq!(render_i64(-1000), "-1000");
}

#[test]
fn render_every_small_number() {
    for n in 0u64..2000 {
        assert_eq!(render_u64(n), n.to_string());
    }
    for n in -2000i64..2000 {
        assert_eq!(render_i64(n), n.to_string());
    }
}

#[test]
fn unsigned_parsing_agrees_with_the_standard_parser() {
    for sample in SAMPLES {
        assert_eq!(parse_u8_text(sample), sample.parse::<u8>().ok(), "u8 {:?}", sample);
        assert_eq!(parse_u16_text(sample), sample.parse::<u16>().ok(), "u16 {:?}", sample);
        assert_eq!(parse_u32_text(sample), sample.parse::<u32>().ok(), "u32 {:?}", sample);
        assert_eq!(parse_u64_text(sample), sample.parse::<u64>().ok(), "u64 {:?}", sample);
    }
}

#[test]
fn signed_parsing_agrees_with_the_standard_parser() {
    for sample in SAMPLES {
        assert_eq!(parse_i8_text(sample), sample.parse::<i8>().ok(), "i8 {:?}", sample);
        assert_eq!(parse_i16_text(sample), sample.parse::<i16>().ok(), "i16 {:?}", sample);
        assert_eq!(parse_i32_text(sample), sample.parse::<i32>().ok(), "i32 {:?}", sample);
        assert_eq!(parse_i64_text(sample), sample.parse::<i64>().ok(), "i64 {:?}", sample);
    }
}

#[test]
fn parsing_gives_back_what_was_rendered() {
    for n in (0u64..3000).chain([u64::MAX, u64::MAX / 10, u64::MAX / 10 + 1]) {
        assert_eq!(parse_u64_text(&render_u64(n)), Some(n));
    }
    for n in (-3000i64..3000).chain([i64::MAX, i64::MIN]) {
        assert_eq!(parse_i64_text(&render_i64(n)), Some(n));
    }
}

#[test]
fn parsing_with_a_bound() {
    assert_eq!(parse_u64(&chars("10"), 10), Some(10));
    assert_eq!(parse_u64(&chars("11"), 10), None);
    assert_eq!(parse_u64(&chars("0"), 0), Some(0));
    assert_eq!(parse_u64(&chars("1"), 0), None);
    assert_eq!(parse_u64(&chars("+0010"), 10), Some(10));
    assert_eq!(parse_i64(&chars("-11"), 10), Some(-11));
    assert_eq!(parse_i64(&chars("-12"), 10), None);
    assert_eq!(parse_i64(&chars("10"), 10), Some(10));
    assert_eq!(parse_i64(&chars("11"), 10), None);
    assert_eq!(parse_i64(&chars("-0"), 0), Some(0));
    assert_eq!(parse_i64(&chars("-1"), 0), Some(-1));
    assert_eq!(parse_i64(&chars("0"), -1), None);
    assert_eq!(parse_i64(&chars("-1"), -5), None);
}

#[test]
fn booleans_and_characters() {
    assert_eq!(parse_bool("true"), Some(true));
    assert_eq!(parse_bool("false"), Some(false));
    for sample in ["", "True", "TRUE", "1", "0", "yes", "true ", " false", "t", "truefalse"] {
        assert_eq!(parse_bool(sample), sample.parse::<bool>().ok(), "{:?}", sample);
        assert_eq!(parse_bool(sample), None);
    }
    assert_eq!(parse_char("x"), Some('x'));
    assert_eq!(parse_char("☃"), Some('☃'));
    assert_eq!(parse_char(""), None);
    assert_eq!(parse_char("xy"), None);
}

#[test]
fn validity_by_kind() {
    assert!(is_valid(ScalarKind::Text, ""));
    assert!(is_valid(ScalarKind::Text, "anything"));
    assert!(is_valid(ScalarKind::Bool, "true"));
    assert!(!is_valid(ScalarKind::Bool, "maybe"));
    assert!(is_valid(ScalarKind::I8, "-128"));
    assert!(!is_valid(ScalarKind::I8, "128"));
    assert!(is_valid(ScalarKind::I16, "-32768"));
    assert!(!is_valid(ScalarKind::I16, "32768"));
    assert!(is_valid(ScalarKind::I32, "2147483647"));
    assert!(!is_valid(ScalarKind::I32, "2147483648"));
    assert!(is_valid(ScalarKind::I64, "-9223372036854775808"));
    assert!(!is_valid(ScalarKind::I64, "9223372036854775808"));
    assert!(is_valid(ScalarKind::U8, "255"));
    assert!(!is_valid(ScalarKind::U8, "256"));
    assert!(is_valid(ScalarKind::U16, "65535"));
    assert!(!is_valid(ScalarKind::U16, "-1"));
    assert!(is_valid(ScalarKind::U32, "4294967295"));
    assert!(!is_valid(ScalarKind::U32, "4294967296"));
    assert!(is_valid(ScalarKind::U64, "18446744073709551615"));
    assert!(!is_valid(ScalarKind::U64, "18446744073709551616"));
    assert!(is_valid(ScalarKind::Char, "c"));
    assert!(!is_valid(ScalarKind::Char, "cc"));
}

#[test]
fn kind_names() {
    assert_eq!(name_of(ScalarKind::Text), "str");
    assert_eq!(name_of(ScalarKind::Bool), "bool");
    assert_eq!(name_of(ScalarKind::I8), "i8");
    assert_eq!(name_of(ScalarKind::I16), "i16");
    assert_eq!(name_of(ScalarKind::I32), "i32");
    assert_eq!(name_of(ScalarKind::I64), "i64");
    assert_eq!(name_of(ScalarKind::U8), "u8");
    assert_eq!(name_of(ScalarKind::U16), "u16");
    assert_eq!(name_of(ScalarKind::U32), "u32");
    assert_eq!(name_of(ScalarKind::U64), "u64");
    assert_eq!(name_of(ScalarKind::Char), "char");
}

#[test]
fn text_search_agrees_with_the_standard_search() {
    let texts = ["", "a", "ab", "abc", "aaa", "abab", "a.b.c", "items_len", "_len", "x_len_len", "é.é", ".", ".."];
    let needles = ["", "a", "b", "ab", "ba", ".", "_", "_len", "é", "abc", "abcd", ".."];
    for text in texts {
        for needle in needles {
            let t = chars(text);
            let n = chars(needle);
            let expected = text.find(needle).map(|p| text[..p].chars().count());
            assert_eq!(find(&t, &n), expected, "find {:?} in {:?}", needle, text);
            assert_eq!(find(&t, &n).is_some(), text.contains(needle));
            assert_eq!(has_prefix(&t, &n), text.starts_with(needle));
            assert_eq!(has_suffix(&t, &n), text.ends_with(needle));
            assert_eq!(same_text(&t, &n), text == needle);
        }
    }
}

#[test]
fn text_pieces() {
    assert_eq!(to_chars("héllo"), chars("héllo"));
    assert_eq!(to_chars(""), chars(""));
    assert!(matches_at(&chars("abcabc"), &chars("bc"), 1));
    assert!(matches_at(&chars("abcabc"), &chars("bc"), 4));
    assert!(!matches_at(&chars("abcabc"), &chars("bc"), 0));
    assert!(!matches_at(&chars("abcabc"), &chars("bc"), 5));
    assert!(!matches_at(&chars("abcabc"), &chars("bc"), usize::MAX));
    assert!(matches_at(&chars("abc"), &chars(""), 3));
    assert!(!matches_at(&chars("abc"), &chars(""), 4));
    assert_eq!(tail_from(&chars("abcdef"), 2), chars("cdef"));
    assert_eq!(tail_from(&chars("abc"), 3), chars(""));
    assert_eq!(tail_from(&chars("abc"), 0), chars("abc"));
    assert_eq!(head_to(&chars("abcdef"), 2), chars("ab"));
    assert_eq!(head_to(&chars("abc"), 3), chars("abc"));
    assert_eq!(head_to(&chars("abc"), 0), chars(""));
}
