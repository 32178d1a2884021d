//! Text primitives.

use temporal::text::{
    decimal_of, distinct, join, parse_number, sort, split_lines, split_words, str_less, trim,
    trim_end, unique,
};

fn owned(items: &[&str]) -> Vec<String> {
    items.iter().map(|s| s.to_string()).collect()
}

#[test]
fn whitespace_is_unicode() {
    assert_eq!(trim("\u{2003} a b\t\n"), "a b");
    assert_eq!(trim(" \n"), "");
    assert_eq!(trim_end("  a \u{a0}"), "  a");
    assert_eq!(split_words(" a\u{2003}b\n c "), vec!["a", "b", "c"]);
}

#[test]
fn lines_follow_std() {
    for s in ["", "\n", "a", "a\n", "a\nb", "a\r\nb\r", "\r\n\r\n", "a\rb\n"] {
        let expected: Vec<&str> = s.lines().collect();
        assert_eq!(split_lines(s), expected, "{s:?}");
    }
}

#[test]
fn numbers_follow_std() {
    for s in ["0", "42", "+7", "-1", "", "+", "4294967295", "4294967296", "007", "1 ", "１"] {
        assert_eq!(parse_number(s), s.parse::<u32>().ok(), "{s:?}");
    }
}

#[test]
fn decimals_follow_std() {
    for n in [0u128, 7, 10, 99, 100, 1234567890, u64::MAX as u128, u128::MAX] {
        assert_eq!(decimal_of(n), n.to_string());
    }
}

#[test]
fn order_follows_std() {
    let words = ["", "a", "ab", "b", "B", "é", "日", "a\u{10000}", "a\u{ffff}"];
    for a in words {
        for b in words {
            assert_eq!(str_less(a, b), a < b, "{a:?} {b:?}");
        }
    }
    let mut expected = owned(&words);
    expected.sort();
    assert_eq!(sort(&owned(&words)), expected);
}

#[test]
fn repeats_are_removed_in_order() {
    assert_eq!(distinct(owned(&["b", "", "a", "b"])), vec!["b", "a"]);
    assert_eq!(unique(&owned(&["b", "", "a", "b", ""])), vec!["b", "", "a"]);
}

#[test]
fn parts_are_joined() {
    assert_eq!(join(&owned(&["a", "b", "c"]), ", "), "a, b, c");
    assert_eq!(join(&vec![], ", "), "");
}

#[test]
fn decimals_read_back() {
    for n in [0u32, 9, 10, 65535, u32::MAX] {
        assert_eq!(parse_number(&decimal_of(n as u128)), Some(n));
    }
}
