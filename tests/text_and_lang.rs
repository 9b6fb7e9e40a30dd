use keyzen::lang::{
    add_language, fallback_words, get_embedded_language_content, same_text, string_items,
    words_from_json, words_or_fallback,
};
use keyzen::text::{center_column, center_text, chars_of, decimal_string, format_time};

#[test]
fn clock_face() {
    assert_eq!(format_time(0), "0");
    assert_eq!(format_time(45), "45");
    assert_eq!(format_time(59), "59");
    assert_eq!(format_time(60), "1:00");
    assert_eq!(format_time(65), "1:05");
    assert_eq!(format_time(600), "10:00");
    assert_eq!(format_time(3599), "59:59");
    assert_eq!(format_time(3600), "60:00");
}

#[test]
fn decimal_digits() {
    assert_eq!(decimal_string(0), "0");
    assert_eq!(decimal_string(7), "7");
    assert_eq!(decimal_string(1234567890), "1234567890");
    assert_eq!(decimal_string(u64::MAX), u64::MAX.to_string());
}

#[test]
fn centring() {
    assert_eq!(center_text("abcd", 10), 3);
    assert_eq!(center_text("abc", 10), 3);
    assert_eq!(center_text("abcdefghij", 10), 0);
    assert_eq!(center_text("abcdefghijk", 10), 0);
    assert_eq!(center_text("│ é", 7), 2);
    assert_eq!(center_column(0, 9), 4);
}

#[test]
fn characters_of_text() {
    assert_eq!(chars_of("a é│"), vec!['a', ' ', 'é', '│']);
    assert!(chars_of("").is_empty());
}

#[test]
fn fallback_list() {
    assert_eq!(
        fallback_words(),
        vec!["hello", "world", "test", "example", "quick", "brown", "fox"]
    );
}

#[test]
fn loaded_words_or_fallback() {
    let ws = vec!["a".to_string()];
    assert_eq!(words_or_fallback(Some(ws.clone())), ws);
    assert_eq!(words_or_fallback(None), fallback_words());
}

#[test]
fn empty_loaded_list_falls_back() {
    assert_eq!(words_or_fallback(Some(Vec::new())), fallback_words());
    let loaded = words_from_json(r#"{"words": []}"#);
    assert_eq!(words_or_fallback(loaded), fallback_words());
    let only_numbers = words_from_json(r#"{"words": [1, 2]}"#);
    assert_eq!(words_or_fallback(only_numbers), fallback_words());
}

#[test]
fn loaded_repeats_are_dropped() {
    let loaded = words_from_json(r#"{"words": ["fn", "let", "fn", "mut", "let"]}"#);
    assert_eq!(
        words_or_fallback(loaded),
        vec!["fn".to_string(), "let".to_string(), "mut".to_string()]
    );
}

#[test]
fn json_words_are_read() {
    let r = words_from_json(r#"{"name": "x", "words": ["if", "else", 3, null, "for"]}"#);
    assert_eq!(r, Some(vec!["if".to_string(), "else".to_string(), "for".to_string()]));
}

#[test]
fn json_without_words_array_gives_none() {
    assert_eq!(words_from_json(r#"{"name": "x"}"#), None);
    assert_eq!(words_from_json(r#"{"words": "if"}"#), None);
    assert_eq!(words_from_json(r#"["if"]"#), None);
    assert_eq!(words_from_json("not json"), None);
    assert_eq!(words_from_json(""), None);
}

#[test]
fn json_empty_words_array() {
    assert_eq!(words_from_json(r#"{"words": []}"#), Some(Vec::new()));
}

#[test]
fn string_items_keep_strings_in_order() {
    let items = vec![None, Some("b".to_string()), Some("a".to_string()), None];
    assert_eq!(string_items(items), vec!["b".to_string(), "a".to_string()]);
}

#[test]
fn embedded_lookup_takes_first_match() {
    let files = [("go", "G1"), ("rust", "R1"), ("go", "G2")];
    assert_eq!(get_embedded_language_content(&files, "go"), Some("G1"));
    assert_eq!(get_embedded_language_content(&files, "rust"), Some("R1"));
    assert_eq!(get_embedded_language_content(&files, "ru"), None);
    assert_eq!(get_embedded_language_content(&[], "go"), None);
}

#[test]
fn text_equality() {
    assert!(same_text("abc", "abc"));
    assert!(!same_text("abc", "abd"));
    assert!(!same_text("abc", "ab"));
    assert!(same_text("", ""));
}

#[test]
fn languages_are_added_once() {
    let mut langs = vec!["go".to_string()];
    add_language(&mut langs, "rust".to_string());
    add_language(&mut langs, "go".to_string());
    add_language(&mut langs, "rust".to_string());
    assert_eq!(langs, vec!["go".to_string(), "rust".to_string()]);
}
