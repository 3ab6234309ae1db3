use anza_xtask::utils::ordmap::SortedMap;
use anza_xtask::utils::text::{
    contains_text, decimal_string, first_word_of, join_strings, lines_of, parse_u64, parse_usize,
    split_once, split_text, str_lt, strip_prefix, trim_str,
};

#[test]
fn text_helpers_match_std() {
    assert_eq!(trim_str("\u{a0} a b \t\n"), "a b");
    assert_eq!(split_once("alpha.1.2", '.'), Some(("alpha".to_string(), "1.2".to_string())));
    assert_eq!(split_once("alpha", '.'), None);
    assert_eq!(strip_prefix("MemTotal: 5", "MemTotal:"), Some(" 5".to_string()));
    assert_eq!(strip_prefix("Mem", "MemTotal:"), None);
    assert_eq!(first_word_of("  32 kB"), Some("32".to_string()));
    assert_eq!(first_word_of(" \t "), None);
    assert_eq!(lines_of("a\r\nb\n\nc\r"), vec!["a", "b", "", "c\r"]);
    assert_eq!(lines_of("a\n"), vec!["a"]);
    assert_eq!(split_text("a..b", '.'), vec!["a", "", "b"]);
    assert_eq!(join_strings(&vec!["x".to_string(), "y".to_string()], ", "), "x, y");
    assert_eq!(decimal_string(1234567890), "1234567890");
    assert_eq!(parse_u64("+42"), Some(42));
    assert_eq!(parse_u64("-1"), None);
    assert_eq!(parse_usize(""), None);
    assert!(str_lt("a", "b") && str_lt("a", "ab") && !str_lt("b", "ab"));
    assert!(contains_text(&vec!["a".to_string()], "a") && !contains_text(&vec![], "a"));
}

#[test]
fn sorted_map_keeps_keys_in_order() {
    let mut m: SortedMap<String, String> = SortedMap::new();
    m.insert("b".to_string(), "2".to_string());
    m.insert("a".to_string(), "1".to_string());
    m.insert("b".to_string(), "3".to_string());
    assert_eq!(m.len(), 2);
    assert_eq!(m.entry(0).0, "a");
    assert_eq!(m.get(&"b".to_string()), Some(&"3".to_string()));
    assert!(m.contains_key(&"a".to_string()) && !m.contains_key(&"c".to_string()));
}
