use mielofon::text::{ascii_lower_text, decimal_text, join_text, lines_text, replace_text, split_text, text_contains, text_less, trim_end_char_text, trim_text, words_text};

#[test]
fn text_helpers() {
    assert_eq!(decimal_text(0), "0");
    assert_eq!(decimal_text(825), "825");
    assert_eq!(decimal_text(u64::MAX), u64::MAX.to_string());
    assert_eq!(join_text(&vec!["a".to_string(), "b".to_string(), "c".to_string()], ","), "a,b,c");
    assert_eq!(join_text(&vec![], ","), "");
    assert_eq!(replace_text("aaa", "aa", "b"), "ba");
    assert_eq!(trim_text("\u{3000} x y \t"), "x y");
    assert_eq!(ascii_lower_text("ÄbC-Z"), "Äbc-z");
    assert!(text_less("hub-a", "hub-b"));
    assert!(text_less("hub", "hub-a"));
    assert!(!text_less("b", "a"));
    assert!(!text_less("a", "a"));
}

#[test]
fn lines_words_and_fields() {
    assert_eq!(lines_text("a\r\nb\n\nc\r"), vec!["a", "b", "", "c\r"]);
    assert_eq!(lines_text("x\n"), vec!["x"]);
    assert!(lines_text("").is_empty());
    assert_eq!(split_text("a,,b,", ','), vec!["a", "", "b", ""]);
    assert_eq!(split_text("", ','), vec![""]);
    assert_eq!(words_text("  one\ttwo  three \n"), vec!["one", "two", "three"]);
    assert!(words_text(" \t ").is_empty());
    assert!(text_contains("rtt min", "rtt "));
    assert!(!text_contains("rt", "rtt "));
    assert!(text_contains("", ""));
    assert_eq!(trim_end_char_text("5%%%", '%'), "5");
    assert_eq!(trim_end_char_text("%a", '%'), "%a");
}
