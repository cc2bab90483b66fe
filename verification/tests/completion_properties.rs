use fresh_editor::buffer_words::{collect_word_stats, BufferWordProvider};
use fresh_editor::dabbrev::{extract_words, lowercase_words, DabbrevProvider};
use fresh_editor::provider::{
    CompletionCandidate, CompletionContext, CompletionProvider, CompletionSourceId,
    ProviderResult,
};
use fresh_editor::rank::{abs_diff, saturating_sub_i64, sort_by_rank};

fn ctx_for(prefix: &str, cursor: usize, len: usize) -> CompletionContext {
    CompletionContext {
        prefix: prefix.into(),
        cursor_byte: cursor,
        word_start_byte: cursor.saturating_sub(prefix.len()),
        buffer_len: len,
        is_large_file: false,
        scan_range: 0..len,
        viewport_top_byte: 0,
        viewport_bottom_byte: len,
        language_id: None,
    }
}

fn ready(result: ProviderResult) -> Vec<CompletionCandidate> {
    match result {
        ProviderResult::Ready(c) => c,
        _ => panic!("expected Ready"),
    }
}

fn labels_scores(cs: &[CompletionCandidate]) -> Vec<(String, i64)> {
    cs.iter().map(|c| (c.label.clone(), c.score)).collect()
}

#[test]
fn extract_words_offsets_locate_each_word() {
    let text = "  foo, bar_baz;qux1  ";
    let words = extract_words(text);
    assert_eq!(
        words,
        vec![(2, "foo".to_string()), (7, "bar_baz".to_string()), (15, "qux1".to_string())]
    );
    for (off, w) in &words {
        assert_eq!(&text[*off..*off + w.len()], w.as_str());
    }
    for pair in words.windows(2) {
        assert!(pair[0].0 < pair[1].0);
    }
}

#[test]
fn extract_words_offsets_count_bytes_not_chars() {
    let words = extract_words("héllo wörld");
    assert_eq!(words, vec![(0, "héllo".to_string()), (7, "wörld".to_string())]);
}

#[test]
fn extract_words_keeps_combining_marks_inside_words() {
    // "cafe" followed by a combining acute accent: one grapheme cluster "e\u{301}",
    // so the accent stays in the word.
    let words = extract_words("cafe\u{301} x");
    assert_eq!(words, vec![(0, "cafe\u{301}".to_string()), (7, "x".to_string())]);
}

#[test]
fn extract_words_of_empty_and_punctuation_is_empty() {
    assert!(extract_words("").is_empty());
    assert!(extract_words(" ,.;-- ").is_empty());
}

#[test]
fn lowercase_words_maps_each_word() {
    let words = vec![(0, "FooBAR".to_string()), (7, "ÄBC".to_string())];
    assert_eq!(lowercase_words(&words), vec!["foobar".to_string(), "äbc".to_string()]);
}

#[test]
fn dabbrev_offers_each_lowercase_word_once_by_nearest_occurrence() {
    let text = b"Foo_bar foo_bar FOO_BAR ";
    let ctx = ctx_for("foo", text.len(), text.len());
    let cs = ready(DabbrevProvider::new().provide(&ctx, text));
    // Occurrences at 0, 8 and 16; the cursor at 24 is nearest to "FOO_BAR".
    assert_eq!(labels_scores(&cs), vec![("FOO_BAR".to_string(), 1_000_000 - 8)]);
}

#[test]
fn dabbrev_scores_descend_nearest_first() {
    let text = b"alpha_one xx alpha_two yy alpha_three";
    // Cursor right before "alpha_two".
    let ctx = ctx_for("alpha", 13, text.len());
    let cs = ready(DabbrevProvider::new().provide(&ctx, text));
    assert_eq!(
        labels_scores(&cs),
        vec![
            ("alpha_two".to_string(), 1_000_000),
            ("alpha_one".to_string(), 1_000_000 - 13),
            ("alpha_three".to_string(), 1_000_000 - 13),
        ]
    );
    for pair in cs.windows(2) {
        assert!(pair[0].score >= pair[1].score);
    }
}

#[test]
fn dabbrev_reads_invalid_utf8_lossily() {
    let text = b"foo_bar \xff foo_baz";
    let ctx = ctx_for("foo", 0, text.len());
    let cs = ready(DabbrevProvider::new().provide(&ctx, text));
    // The invalid byte decodes to U+FFFD (three bytes), so "foo_baz" sits at 12.
    assert_eq!(
        labels_scores(&cs),
        vec![("foo_bar".to_string(), 1_000_000), ("foo_baz".to_string(), 1_000_000 - 12)]
    );
}

#[test]
fn dabbrev_returns_at_most_thirty_candidates() {
    let mut text = String::new();
    for i in 0..40 {
        text.push_str(&format!("word{} ", i));
    }
    let ctx = ctx_for("word", 0, text.len());
    let cs = ready(DabbrevProvider::new().provide(&ctx, text.as_bytes()));
    assert_eq!(cs.len(), 30);
    assert_eq!(cs[0].label, "word0");
    assert_eq!(cs[29].label, "word29");
}

#[test]
fn dabbrev_with_no_matching_word_offers_nothing() {
    let text = b"alpha beta gamma";
    let ctx = ctx_for("zeta", 0, text.len());
    let cs = ready(DabbrevProvider::new().provide(&ctx, text));
    assert!(cs.is_empty());
}

#[test]
fn buffer_words_scores_follow_the_formula() {
    let text = b"alpha_x alpha_y";
    let ctx = ctx_for("alp", 0, text.len());
    let cs = ready(BufferWordProvider::new().provide(&ctx, text));
    // Proximity 500k minus distance, +100k in the viewport, no frequency bonus.
    assert_eq!(
        labels_scores(&cs),
        vec![("alpha_x".to_string(), 600_000), ("alpha_y".to_string(), 600_000 - 8)]
    );
}

#[test]
fn buffer_words_viewport_boost_is_one_hundred_thousand() {
    let text = b"beta_far beta_vis";
    let mut ctx = ctx_for("beta", 8, text.len());
    // Only the second word is on screen.
    ctx.viewport_top_byte = 9;
    ctx.viewport_bottom_byte = text.len();
    let cs = ready(BufferWordProvider::new().provide(&ctx, text));
    assert_eq!(
        labels_scores(&cs),
        vec![("beta_vis".to_string(), 500_000 - 1 + 100_000), ("beta_far".to_string(), 500_000 - 8)]
    );
}

#[test]
fn buffer_words_frequency_bonus_is_capped_at_ten() {
    let mut text = String::new();
    for _ in 0..12 {
        text.push_str("gamma_many ");
    }
    let ctx = ctx_for("gam", 0, text.len());
    let cs = ready(BufferWordProvider::new().provide(&ctx, text.as_bytes()));
    assert_eq!(labels_scores(&cs), vec![("gamma_many".to_string(), 600_000 + 9 * 5_000)]);
}

#[test]
fn buffer_words_returns_at_most_forty_candidates() {
    let mut text = String::new();
    for i in 0..50 {
        text.push_str(&format!("item{:02} ", i));
    }
    let ctx = ctx_for("item", 0, text.len());
    let cs = ready(BufferWordProvider::new().provide(&ctx, text.as_bytes()));
    assert_eq!(cs.len(), 40);
    assert_eq!(cs[0].label, "item00");
    assert_eq!(cs[39].label, "item39");
}

#[test]
fn buffer_words_skips_the_prefix_itself_in_any_case() {
    let text = b"Delta delta_two";
    let ctx = ctx_for("delta", 0, text.len());
    let cs = ready(BufferWordProvider::new().provide(&ctx, text));
    let labels: Vec<&str> = cs.iter().map(|c| c.label.as_str()).collect();
    assert_eq!(labels, vec!["delta_two"]);
}

#[test]
fn collect_word_stats_merges_case_variants() {
    let stats = collect_word_stats("Foo foo bar", 5, 0, 11);
    assert_eq!(stats.len(), 2);
    assert_eq!(stats[0].text, "Foo");
    assert_eq!(stats[0].key, "foo");
    assert_eq!(stats[0].count, 2);
    assert_eq!(stats[0].nearest_byte, 4);
    assert!(stats[0].in_viewport);
    assert_eq!(stats[0].grapheme_len, 3);
    assert_eq!(stats[1].text, "bar");
    assert_eq!(stats[1].count, 1);
    assert_eq!(stats[1].nearest_byte, 8);
}

#[test]
fn collect_word_stats_outside_viewport() {
    let stats = collect_word_stats("one two", 0, 100, 200);
    assert_eq!(stats.len(), 2);
    assert!(!stats[0].in_viewport);
    assert!(!stats[1].in_viewport);
}

#[test]
fn scan_range_for_normal_and_large_files() {
    assert_eq!(CompletionContext::compute_scan_range(100, 1000, false), 0..1000);
    assert_eq!(
        CompletionContext::compute_scan_range(1_000_000, 2_000_000, false),
        475_712..1_524_288
    );
    assert_eq!(CompletionContext::compute_scan_range(100_000, 200_000, true), 67_232..132_768);
    assert_eq!(CompletionContext::compute_scan_range(0, 0, true), 0..0);
}

#[test]
fn provider_identities() {
    let d = DabbrevProvider::new();
    let b = BufferWordProvider::new();
    assert_eq!(d.id(), CompletionSourceId("dabbrev".to_string()));
    assert_eq!(b.id(), CompletionSourceId("buffer_words".to_string()));
    assert_eq!(d.display_name(), "Dynamic Abbreviation");
    assert_eq!(b.display_name(), "Buffer Words");
    assert_eq!(d.priority(), 30);
    assert_eq!(b.priority(), 20);
    assert_eq!(CompletionSourceId("lsp".to_string()).to_string(), "lsp");
}

#[test]
fn providers_are_enabled_only_for_a_prefix() {
    let ctx = ctx_for("ab", 2, 10);
    let empty = ctx_for("", 2, 10);
    assert!(DabbrevProvider::new().is_enabled(&ctx));
    assert!(!DabbrevProvider::new().is_enabled(&empty));
    assert!(BufferWordProvider::new().is_enabled(&ctx));
    assert!(!BufferWordProvider::new().is_enabled(&empty));
}

#[test]
fn word_candidate_fields() {
    let c = CompletionCandidate::word("thing".to_string(), 7);
    assert_eq!(c.label, "thing");
    assert_eq!(c.score, 7);
    assert!(c.insert_text.is_none());
    assert!(c.detail.is_none());
    assert!(c.source.is_none());
    assert!(!c.is_snippet);
    assert!(c.provider_data.is_none());
}

#[test]
fn rank_helpers() {
    assert_eq!(saturating_sub_i64(5, 3), 2);
    assert_eq!(saturating_sub_i64(i64::MIN, 1), i64::MIN);
    assert_eq!(saturating_sub_i64(i64::MAX, -1), i64::MAX);
    assert_eq!(abs_diff(3, 10), 7);
    assert_eq!(abs_diff(10, 3), 7);
    let sorted = sort_by_rank(&vec![(5, 0), (3, 1), (5, 2), (-1, 3)]);
    assert_eq!(sorted, vec![(-1, 3), (3, 1), (5, 0), (5, 2)]);
}

#[test]
fn collect_word_stats_keeps_earliest_of_equally_near_occurrences() {
    // Occurrences at 0 and 8 are both 4 bytes from the cursor at 4.
    let stats = collect_word_stats("qq_w 12 qq_w", 4, 0, 12);
    assert_eq!(stats[0].text, "qq_w");
    assert_eq!(stats[0].count, 2);
    assert_eq!(stats[0].nearest_byte, 0);
}

#[test]
fn collect_word_stats_moves_to_a_strictly_nearer_occurrence() {
    let stats = collect_word_stats("qq_w 12 qq_w", 7, 0, 12);
    assert_eq!(stats[0].nearest_byte, 8);
}
