use fresh_editor::dabbrev::{extract_words, DabbrevProvider};
use fresh_editor::provider::{CompletionContext, CompletionProvider, ProviderResult};

#[test]
fn extract_words_basic() {
    let words = extract_words("hello world_foo bar");
    let labels: Vec<&str> = words.iter().map(|(_, w)| w.as_str()).collect();
    assert_eq!(labels, vec!["hello", "world_foo", "bar"]);
}

#[test]
fn extract_words_unicode() {
    let words = extract_words("café naïve über_cool");
    let labels: Vec<&str> = words.iter().map(|(_, w)| w.as_str()).collect();
    assert_eq!(labels, vec!["café", "naïve", "über_cool"]);
}

#[test]
fn extract_words_cjk_and_emoji() {
    // CJK characters are alphanumeric and form their own "words"
    let words = extract_words("foo 変数 bar");
    let labels: Vec<&str> = words.iter().map(|(_, w)| w.as_str()).collect();
    assert_eq!(labels, vec!["foo", "変数", "bar"]);
}

#[test]
fn dabbrev_proximity_ordering() {
    let provider = DabbrevProvider::new();
    let text = b"apple_pie banana apple_sauce cherry apple_tree";
    // Cursor is right after "banana " at byte 22
    let ctx = CompletionContext {
        prefix: "apple".into(),
        cursor_byte: 22,
        word_start_byte: 17,
        buffer_len: text.len(),
        is_large_file: false,
        scan_range: 0..text.len(),
        viewport_top_byte: 0,
        viewport_bottom_byte: text.len(),
        language_id: None,
    };
    let result = provider.provide(&ctx, text);
    match result {
        ProviderResult::Ready(candidates) => {
            let labels: Vec<&str> = candidates.iter().map(|c| c.label.as_str()).collect();
            // apple_sauce (nearest after cursor) should come before apple_pie
            // and apple_tree
            assert_eq!(labels[0], "apple_sauce");
            assert!(labels.contains(&"apple_pie"));
            assert!(labels.contains(&"apple_tree"));
        }
        _ => panic!("expected Ready"),
    }
}

#[test]
fn dabbrev_skips_exact_prefix() {
    let provider = DabbrevProvider::new();
    let text = b"hello hello_world";
    let ctx = CompletionContext {
        prefix: "hello".into(),
        cursor_byte: 5,
        word_start_byte: 0,
        buffer_len: text.len(),
        is_large_file: false,
        scan_range: 0..text.len(),
        viewport_top_byte: 0,
        viewport_bottom_byte: text.len(),
        language_id: None,
    };
    let result = provider.provide(&ctx, text);
    match result {
        ProviderResult::Ready(candidates) => {
            // "hello" alone should not appear—only "hello_world"
            assert_eq!(candidates.len(), 1);
            assert_eq!(candidates[0].label, "hello_world");
        }
        _ => panic!("expected Ready"),
    }
}

#[test]
fn dabbrev_case_insensitive_match() {
    let provider = DabbrevProvider::new();
    let text = b"MyVariable myVar myfunction";
    let ctx = CompletionContext {
        prefix: "my".into(),
        cursor_byte: 0,
        word_start_byte: 0,
        buffer_len: text.len(),
        is_large_file: false,
        scan_range: 0..text.len(),
        viewport_top_byte: 0,
        viewport_bottom_byte: text.len(),
        language_id: None,
    };
    let result = provider.provide(&ctx, text);
    match result {
        ProviderResult::Ready(candidates) => {
            assert_eq!(candidates.len(), 3);
            // All three match case-insensitively
            let labels: Vec<&str> = candidates.iter().map(|c| c.label.as_str()).collect();
            assert!(labels.contains(&"MyVariable"));
            assert!(labels.contains(&"myVar"));
            assert!(labels.contains(&"myfunction"));
        }
        _ => panic!("expected Ready"),
    }
}
