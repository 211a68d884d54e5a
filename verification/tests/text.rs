use bwg_usage::text::{
    char_is_alphanumeric, char_is_control, char_is_digit, char_is_whitespace, chars_of,
    comes_before, decimal_text, lines_of, parse_i64, parse_u16, parse_u64, split_at_set, text_of,
    to_ascii_lower, trimmed, utf8_len, words_of, CharSet,
};
use bwg_usage::text_map::TextMap;

fn strings(v: Vec<Vec<char>>) -> Vec<String> {
    v.into_iter().map(|p| p.into_iter().collect()).collect()
}

#[test]
fn classes_of_characters_are_those_of_the_standard_library() {
    for n in 0..=0x10ffffu32 {
        if let Some(c) = char::from_u32(n) {
            assert_eq!(char_is_whitespace(c), c.is_whitespace(), "{:x}", n);
            assert_eq!(char_is_control(c), c.is_control(), "{:x}", n);
            assert_eq!(char_is_digit(c), c.is_ascii_digit(), "{:x}", n);
            assert_eq!(char_is_alphanumeric(c), c.is_ascii_alphanumeric(), "{:x}", n);
        }
    }
}

#[test]
fn texts_are_split_as_in_the_standard_library() {
    for s in ["", "a", " a  b\u{3000}c ", "\t", "a\nb\r\nc", "\r\n", "\n\n", "a\r", "x\r\r\ny"] {
        let v = chars_of(s);
        assert_eq!(text_of(&v), s);
        assert_eq!(strings(words_of(&v)), s.split_whitespace().collect::<Vec<_>>());
        assert_eq!(strings(lines_of(&v)), s.lines().collect::<Vec<_>>());
        assert_eq!(
            strings(split_at_set(&v, CharSet::One('a'))),
            s.split('a').collect::<Vec<_>>()
        );
        assert_eq!(text_of(trimmed(&v)), s.trim());
        assert_eq!(utf8_len(s), s.len());
    }
    let lower: String = to_ascii_lower(&chars_of("aZÄ")).into_iter().collect();
    assert_eq!(lower, "azÄ");
}

#[test]
fn numbers_are_read_as_in_the_standard_library() {
    let cases = [
        "", "+", "-", "0", "-0", "+7", "007", "9223372036854775807", "9223372036854775808",
        "-9223372036854775808", "-9223372036854775809", "18446744073709551615",
        "18446744073709551616", "65535", "65536", "1 ", "1_0", "٣", "--1", "+-1",
    ];
    for c in cases {
        let v = chars_of(c);
        assert_eq!(parse_i64(&v), c.parse::<i64>().ok(), "{}", c);
        assert_eq!(parse_u64(&v), c.parse::<u64>().ok(), "{}", c);
        assert_eq!(parse_u16(&v), c.parse::<u16>().ok(), "{}", c);
    }
    assert_eq!(decimal_text(0), "0");
    assert_eq!(decimal_text(u128::MAX), u128::MAX.to_string());
}

#[test]
fn the_order_of_texts_is_that_of_strings() {
    let list = ["", "a", "ab", "b", "é", "\u{ffff}", "\u{10000}", "Z"];
    for a in list {
        for b in list {
            assert_eq!(comes_before(a, b), a < b);
        }
    }
}

#[test]
fn maps_keep_one_entry_for_each_key() {
    let mut m: TextMap<i64> = TextMap::new();
    m.insert("b".to_string(), 1);
    m.insert("a".to_string(), 2);
    m.insert("b".to_string(), 3);
    m.add_count("c", 4);
    m.add_count("a", 5);
    assert_eq!(m.len(), 3);
    assert_eq!((m.count("a"), m.count("b"), m.count("c"), m.count("d")), (7, 3, 4, 0));
    assert_eq!((m.key_at(0).as_str(), *m.value_at(1)), ("b", 7));
    assert_eq!(m.checked_total(), Some(14));
    let copy = m.duplicate();
    m.clear();
    assert!(m.is_empty());
    assert_eq!(copy.len(), 3);
}
