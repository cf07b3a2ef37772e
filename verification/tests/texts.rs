use waronmap::sorting::sort_texts;
use waronmap::text::{
    ascii_lower, chars_of, comes_first, contains_text, decimal, join, parse_i64, same_text,
    signed_decimal, split, starts_with, trim,
};

#[test]
fn trim_takes_away_what_std_calls_white_space() {
    for n in 0..=0x10ffffu32 {
        if let Some(c) = char::from_u32(n) {
            let text = format!("{c}a{c}b{c}");
            assert_eq!(trim(&text), text.trim(), "character {n:x}");
        }
    }
    assert_eq!(trim(""), "");
    assert_eq!(trim(" \t\n "), "");
    assert_eq!(trim("\u{a0}Ada \u{3000}"), "Ada");
}

#[test]
fn ascii_letters_become_small() {
    assert_eq!(ascii_lower("AbÄ9-Z"), "abÄ9-z");
    for n in 0..=0x7fu32 {
        let c = char::from_u32(n).unwrap();
        assert_eq!(ascii_lower(&c.to_string()), c.to_ascii_lowercase().to_string());
    }
}

#[test]
fn integers_are_read_as_std_reads_them() {
    for text in [
        "", "-", "+", "0", "-0", "+7", "007", "9223372036854775807", "9223372036854775808",
        "-9223372036854775808", "-9223372036854775809", "12a", " 1", "1 ", "--1", "1_000",
        "99999999999999999999999999",
    ] {
        assert_eq!(parse_i64(text), text.parse::<i64>().ok(), "{text}");
    }
}

#[test]
fn integers_are_written_as_std_writes_them() {
    for n in [0u128, 7, 10, 99, 1_000_000, u64::MAX as u128, u128::MAX] {
        assert_eq!(decimal(n), n.to_string());
    }
    for n in [0i64, -1, 42, i64::MAX, i64::MIN] {
        assert_eq!(signed_decimal(n), n.to_string());
    }
}

#[test]
fn texts_are_split_and_joined() {
    assert_eq!(split("a,b,,c", ','), vec!["a", "b", "", "c"]);
    assert_eq!(split("", ','), vec![""]);
    let parts: Vec<String> = vec!["x".to_string(), "y".to_string(), "z".to_string()];
    assert_eq!(join(&parts, "|"), "x|y|z");
    assert_eq!(join(&Vec::new(), "|"), "");
    assert_eq!(split(&join(&parts, ","), ','), parts);
}

#[test]
fn texts_are_looked_for() {
    assert!(starts_with("session_1", "session"));
    assert!(!starts_with("ses", "session"));
    assert!(starts_with("x", ""));
    assert!(contains_text("loginprobe7", "probe"));
    assert!(contains_text("abc", ""));
    assert!(!contains_text("pro be", "probe"));
    assert!(same_text("größe", "größe"));
    assert!(!same_text("a", "b"));
    assert_eq!(chars_of("añ").len(), 2);
}

#[test]
fn texts_are_ordered_as_std_orders_them() {
    let words = ["", "a", "aa", "ab", "b", "B", "ä", "z", "\u{10000}", "\u{ffff}", "10", "9"];
    for a in words {
        for b in words {
            assert_eq!(comes_first(a, b), a <= b, "{a} {b}");
        }
    }
    let mut want: Vec<String> = words.iter().map(|w| w.to_string()).collect();
    let sorted = sort_texts(&want);
    want.sort();
    assert_eq!(sorted, want);
}
