use fresh_editor::buffer_words::BufferWordProvider;
use fresh_editor::provider::{CompletionContext, CompletionProvider, ProviderResult};

fn make_ctx(prefix: &str, cursor: usize, buf_len: usize) -> CompletionContext {
    CompletionContext {
        prefix: prefix.into(),
        cursor_byte: cursor,
        word_start_byte: cursor.saturating_sub(prefix.len()),
        buffer_len: buf_len,
        is_large_file: false,
        scan_range: 0..buf_len,
        viewport_top_byte: 0,
        viewport_bottom_byte: buf_len,
        language_id: None,
    }
}

#[test]
fn proximity_beats_frequency() {
    let text = b"far_match far_match far_match close_match";
    // cursor at 38 (just before close_match)
    let provider = BufferWordProvider::new();
    let ctx = CompletionContext {
        prefix: "far".into(),
        cursor_byte: 38,
        word_start_byte: 35,
        buffer_len: text.len(),
        is_large_file: false,
        scan_range: 0..text.len(),
        viewport_top_byte: 0,
        viewport_bottom_byte: text.len(),
        language_id: None,
    };
    // far_match appears 3 times but the nearest is at offset 20
    let result = provider.provide(&ctx, text);
    match result {
        ProviderResult::Ready(candidates) => {
            assert!(!candidates.is_empty());
            assert_eq!(candidates[0].label, "far_match");
        }
        _ => panic!("expected Ready"),
    }
}

#[test]
fn viewport_boost() {
    // Two words at same distance but one is "in viewport"
    let text = b"alpha_one xxxxxxxxx alpha_two";
    let provider = BufferWordProvider::new();
    let ctx = CompletionContext {
        prefix: "alpha".into(),
        cursor_byte: 15,
        word_start_byte: 10,
        buffer_len: text.len(),
        is_large_file: false,
        scan_range: 0..text.len(),
        // Viewport covers only the second half
        viewport_top_byte: 20,
        viewport_bottom_byte: text.len(),
        language_id: None,
    };
    let result = provider.provide(&ctx, text);
    match result {
        ProviderResult::Ready(candidates) => {
            assert_eq!(candidates.len(), 2);
            // alpha_two gets viewport boost
            assert_eq!(candidates[0].label, "alpha_two");
        }
        _ => panic!("expected Ready"),
    }
}

#[test]
fn min_length_filter() {
    let text = b"a b cc dd hello";
    let provider = BufferWordProvider::new();
    let ctx = make_ctx("h", 15, text.len());
    let result = provider.provide(&ctx, text);
    match result {
        ProviderResult::Ready(candidates) => {
            // Only "hello" matches prefix "h" and has >= 2 graphemes
            assert_eq!(candidates.len(), 1);
            assert_eq!(candidates[0].label, "hello");
        }
        _ => panic!("expected Ready"),
    }
}

#[test]
fn unicode_words() {
    let text = "naïve_var naïve_fn naïf".as_bytes();
    let provider = BufferWordProvider::new();
    let ctx = make_ctx("naïve", 0, text.len());
    let result = provider.provide(&ctx, text);
    match result {
        ProviderResult::Ready(candidates) => {
            let labels: Vec<&str> = candidates.iter().map(|c| c.label.as_str()).collect();
            assert!(labels.contains(&"naïve_var"));
            assert!(labels.contains(&"naïve_fn"));
            // "naïf" doesn't match prefix "naïve"
            assert!(!labels.contains(&"naïf"));
        }
        _ => panic!("expected Ready"),
    }
}
