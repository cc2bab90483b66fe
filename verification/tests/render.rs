use fresh_editor::render::{render_button, render_hint_bar, render_spec, render_text_input, render_toggle};
use fresh_editor::widgets::{
    ButtonKind, HintEntry, HitPayload, InstanceStates, TextPropertyEntry, WidgetInstanceState,
    WidgetSpec,
};

fn payload_index(p: &HitPayload) -> i64 {
    match p {
        HitPayload::Select { index, .. } => *index,
        _ => panic!("expected a select payload"),
    }
}

fn payload_key(p: &HitPayload) -> String {
    match p {
        HitPayload::Select { key, .. } => key.clone(),
        _ => panic!("expected a select payload"),
    }
}

fn list_scroll(state: &InstanceStates, key: &str) -> u32 {
    match state.get(key).unwrap() {
        WidgetInstanceState::List { scroll_offset } => *scroll_offset,
    }
}

#[test]
fn hint_bar_renders_entries_with_key_overlays() {
    let entries = vec![
        HintEntry { keys: "Tab".into(), label: "next".into() },
        HintEntry { keys: "Esc".into(), label: "close".into() },
    ];
    let entry = render_hint_bar(&entries);
    assert_eq!(entry.text, "Tab next  Esc close");
    assert_eq!(entry.inline_overlays.len(), 2);
    // First overlay covers "Tab" (bytes 0..3).
    assert_eq!(entry.inline_overlays[0].start, 0);
    assert_eq!(entry.inline_overlays[0].end, 3);
    // Second overlay covers "Esc" (bytes 10..13).
    assert_eq!(entry.inline_overlays[1].start, 10);
    assert_eq!(entry.inline_overlays[1].end, 13);
}

#[test]
fn hint_bar_omits_label_when_empty() {
    let entries = vec![HintEntry { keys: "?".into(), label: "".into() }];
    let entry = render_hint_bar(&entries);
    assert_eq!(entry.text, "?");
}

#[test]
fn col_stacks_children_top_to_bottom() {
    let spec = WidgetSpec::Col {
        children: vec![
            WidgetSpec::HintBar {
                entries: vec![HintEntry { keys: "A".into(), label: "alpha".into() }],
                key: None,
            },
            WidgetSpec::HintBar {
                entries: vec![HintEntry { keys: "B".into(), label: "beta".into() }],
                key: None,
            },
        ],
        key: None,
    };
    let (out, hits, _state) = render_spec(&spec, &InstanceStates::new());
    assert_eq!(out.len(), 2);
    assert_eq!(out[0].text, "A alpha");
    assert_eq!(out[1].text, "B beta");
    assert!(hits.is_empty(), "HintBar emits no hit areas");
}

#[test]
fn raw_passes_through_unchanged() {
    let spec = WidgetSpec::Raw { entries: vec![TextPropertyEntry::text("hello")], key: None };
    let (out, hits, _state) = render_spec(&spec, &InstanceStates::new());
    assert_eq!(out.len(), 1);
    assert_eq!(out[0].text, "hello");
    assert!(hits.is_empty());
}

#[test]
fn toggle_checked_emits_glyph_overlay() {
    let entry = render_toggle(true, "Case", false);
    assert_eq!(entry.text, "[v] Case");
    // One overlay for the glyph, no focused overlay.
    assert_eq!(entry.inline_overlays.len(), 1);
    assert_eq!(entry.inline_overlays[0].start, 0);
    assert_eq!(entry.inline_overlays[0].end, 3);
}

#[test]
fn toggle_unchecked_no_glyph_overlay() {
    let entry = render_toggle(false, "Case", false);
    assert_eq!(entry.text, "[ ] Case");
    assert_eq!(entry.inline_overlays.len(), 0);
}

#[test]
fn toggle_focused_adds_full_entry_overlay() {
    let entry = render_toggle(true, "Case", true);
    // Glyph overlay + focused overlay.
    assert_eq!(entry.inline_overlays.len(), 2);
    // Focused overlay spans the full entry.
    assert_eq!(entry.inline_overlays[1].start, 0);
    assert_eq!(entry.inline_overlays[1].end, entry.text.len());
    assert!(entry.inline_overlays[1].style.bold);
}

#[test]
fn button_normal_unfocused_has_no_overlay() {
    let entry = render_button("Replace All", false, ButtonKind::Normal);
    assert_eq!(entry.text, "[ Replace All ]");
    assert!(entry.inline_overlays.is_empty());
}

#[test]
fn button_primary_is_bold() {
    let entry = render_button("Submit", false, ButtonKind::Primary);
    assert_eq!(entry.inline_overlays.len(), 1);
    assert!(entry.inline_overlays[0].style.bold);
}

#[test]
fn button_danger_uses_error_theme_key() {
    let entry = render_button("Delete", false, ButtonKind::Danger);
    assert_eq!(entry.inline_overlays.len(), 1);
    let fg = entry.inline_overlays[0].style.fg.as_ref().unwrap();
    assert_eq!(fg.as_theme_key(), Some("ui.status_error_indicator_fg"));
}

#[test]
fn button_focused_overrides_with_menu_active_keys() {
    let entry = render_button("OK", true, ButtonKind::Normal);
    let style = &entry.inline_overlays[0].style;
    assert_eq!(style.fg.as_ref().and_then(|c| c.as_theme_key()), Some("ui.menu_active_fg"));
    assert_eq!(style.bg.as_ref().and_then(|c| c.as_theme_key()), Some("ui.menu_active_bg"));
    assert!(style.bold);
}

#[test]
fn spacer_in_row_pads_with_spaces() {
    let spec = WidgetSpec::Row {
        children: vec![
            WidgetSpec::Toggle { checked: false, label: "A".into(), focused: false, key: None },
            WidgetSpec::Spacer { cols: 4, key: None },
            WidgetSpec::Button {
                label: "Go".into(),
                focused: false,
                intent: ButtonKind::Normal,
                key: None,
            },
        ],
        key: None,
    };
    let (out, _hits, _state) = render_spec(&spec, &InstanceStates::new());
    assert_eq!(out.len(), 1);
    assert_eq!(out[0].text, "[ ] A    [ Go ]");
}

#[test]
fn row_collapses_inline_children_with_shifted_overlays() {
    let spec = WidgetSpec::Row {
        children: vec![
            WidgetSpec::HintBar {
                entries: vec![HintEntry { keys: "Tab".into(), label: "x".into() }],
                key: None,
            },
            WidgetSpec::HintBar {
                entries: vec![HintEntry { keys: "Esc".into(), label: "y".into() }],
                key: None,
            },
        ],
        key: None,
    };
    let (out, _hits, _state) = render_spec(&spec, &InstanceStates::new());
    assert_eq!(out.len(), 1);
    // Two adjacent HintBars are concatenated; the second's overlay shifts.
    assert_eq!(out[0].text, "Tab xEsc y");
    assert_eq!(out[0].inline_overlays.len(), 2);
    assert_eq!(out[0].inline_overlays[1].start, 5);
    assert_eq!(out[0].inline_overlays[1].end, 8);
}

#[test]
fn toggle_emits_hit_area_with_toggle_payload() {
    let spec = WidgetSpec::Toggle {
        checked: false,
        label: "Case".into(),
        focused: false,
        key: Some("case".into()),
    };
    let (_entries, hits, _state) = render_spec(&spec, &InstanceStates::new());
    assert_eq!(hits.len(), 1);
    let h = &hits[0];
    assert_eq!(h.widget_key, "case");
    assert_eq!(h.widget_kind, "toggle");
    assert_eq!(h.event_type, "toggle");
    assert_eq!(h.buffer_row, 0);
    assert_eq!(h.byte_start, 0);
    assert_eq!(h.byte_end, "[ ] Case".len());
    assert_eq!(h.payload, HitPayload::Toggle { checked: true });
}

#[test]
fn button_emits_hit_area_with_activate_payload() {
    let spec = WidgetSpec::Button {
        label: "Replace All".into(),
        focused: false,
        intent: ButtonKind::Primary,
        key: Some("replace".into()),
    };
    let (_entries, hits, _state) = render_spec(&spec, &InstanceStates::new());
    assert_eq!(hits.len(), 1);
    let h = &hits[0];
    assert_eq!(h.widget_key, "replace");
    assert_eq!(h.widget_kind, "button");
    assert_eq!(h.event_type, "activate");
    assert_eq!(h.byte_end, "[ Replace All ]".len());
    assert_eq!(h.payload, HitPayload::Activate);
}

#[test]
fn row_inline_collapse_shifts_hit_byte_offsets() {
    let spec = WidgetSpec::Row {
        children: vec![
            WidgetSpec::Toggle {
                checked: true,
                label: "A".into(),
                focused: false,
                key: Some("a".into()),
            },
            WidgetSpec::Spacer { cols: 2, key: None },
            WidgetSpec::Toggle {
                checked: false,
                label: "B".into(),
                focused: false,
                key: Some("b".into()),
            },
        ],
        key: None,
    };
    let (entries, hits, _state) = render_spec(&spec, &InstanceStates::new());
    // One merged row with text "[v] A  [ ] B"
    assert_eq!(entries.len(), 1);
    assert_eq!(entries[0].text, "[v] A  [ ] B");
    assert_eq!(hits.len(), 2);
    assert_eq!(hits[0].widget_key, "a");
    assert_eq!(hits[0].buffer_row, 0);
    assert_eq!(hits[0].byte_start, 0);
    assert_eq!(hits[0].byte_end, 5); // "[v] A".len()
    // Second toggle shifts past first toggle ("[v] A".len() = 5)
    // + spacer ("  ".len() = 2) = 7.
    assert_eq!(hits[1].widget_key, "b");
    assert_eq!(hits[1].buffer_row, 0);
    assert_eq!(hits[1].byte_start, 7);
    assert_eq!(hits[1].byte_end, 12);
}

#[test]
fn col_stacks_hit_rows() {
    let spec = WidgetSpec::Col {
        children: vec![
            WidgetSpec::Toggle {
                checked: false,
                label: "row0".into(),
                focused: false,
                key: Some("k0".into()),
            },
            WidgetSpec::Toggle {
                checked: true,
                label: "row1".into(),
                focused: false,
                key: Some("k1".into()),
            },
        ],
        key: None,
    };
    let (_entries, hits, _state) = render_spec(&spec, &InstanceStates::new());
    assert_eq!(hits.len(), 2);
    assert_eq!(hits[0].buffer_row, 0);
    assert_eq!(hits[1].buffer_row, 1);
}

#[test]
fn list_emits_one_entry_and_one_hit_per_item() {
    let spec = WidgetSpec::List {
        items: vec![
            TextPropertyEntry::text("alpha"),
            TextPropertyEntry::text("beta"),
            TextPropertyEntry::text("gamma"),
        ],
        item_keys: vec!["a".into(), "b".into(), "c".into()],
        selected_index: -1,
        visible_rows: 10,
        key: None,
    };
    let (entries, hits, _state) = render_spec(&spec, &InstanceStates::new());
    assert_eq!(entries.len(), 3);
    assert_eq!(hits.len(), 3);
    for (i, h) in hits.iter().enumerate() {
        assert_eq!(h.buffer_row, i as u32);
        assert_eq!(h.widget_kind, "list");
        assert_eq!(h.event_type, "select");
        assert_eq!(payload_index(&h.payload), i as i64);
    }
    assert_eq!(hits[0].widget_key, "a");
    assert_eq!(hits[2].widget_key, "c");
}

#[test]
fn list_applies_selection_bg_to_selected_row() {
    let spec = WidgetSpec::List {
        items: vec![TextPropertyEntry::text("first"), TextPropertyEntry::text("second")],
        item_keys: vec!["x".into(), "y".into()],
        selected_index: 1,
        visible_rows: 10,
        key: None,
    };
    let (entries, _hits, _state) = render_spec(&spec, &InstanceStates::new());
    assert!(entries[0].style.is_none(), "unselected row keeps no style");
    let style = entries[1].style.as_ref().expect("selected row gets style");
    assert_eq!(style.bg.as_ref().and_then(|c| c.as_theme_key()), Some("ui.menu_active_bg"));
    assert!(style.extend_to_line_end);
}

#[test]
fn list_inside_col_offsets_hit_rows_by_preceding_lines() {
    let spec = WidgetSpec::Col {
        children: vec![
            WidgetSpec::HintBar {
                entries: vec![HintEntry { keys: "h".into(), label: "header".into() }],
                key: None,
            },
            WidgetSpec::List {
                items: vec![TextPropertyEntry::text("row0"), TextPropertyEntry::text("row1")],
                item_keys: vec!["a".into(), "b".into()],
                selected_index: -1,
                visible_rows: 10,
                key: None,
            },
        ],
        key: None,
    };
    let (entries, hits, _state) = render_spec(&spec, &InstanceStates::new());
    assert_eq!(entries.len(), 3);
    assert_eq!(hits.len(), 2);
    // List rows land at buffer_row 1 and 2 (after the HintBar).
    assert_eq!(hits[0].buffer_row, 1);
    assert_eq!(hits[1].buffer_row, 2);
}

#[test]
fn list_payload_includes_absolute_index_and_key() {
    let spec = WidgetSpec::List {
        items: vec![TextPropertyEntry::text("only")],
        item_keys: vec!["match:42".into()],
        selected_index: 0,
        visible_rows: 10,
        key: None,
    };
    let (_entries, hits, _state) = render_spec(&spec, &InstanceStates::new());
    assert_eq!(payload_index(&hits[0].payload), 0);
    assert_eq!(payload_key(&hits[0].payload), "match:42");
}

#[test]
fn list_with_missing_key_emits_empty_widget_key() {
    let spec = WidgetSpec::List {
        items: vec![TextPropertyEntry::text("a"), TextPropertyEntry::text("b")],
        // Only one key for two items — second hit gets an empty key.
        item_keys: vec!["only".into()],
        selected_index: -1,
        visible_rows: 10,
        key: None,
    };
    let (_, hits, _state) = render_spec(&spec, &InstanceStates::new());
    assert_eq!(hits[0].widget_key, "only");
    assert_eq!(hits[1].widget_key, "");
}

fn make_list(selected: i32, visible: u32, total: usize, key: Option<&str>) -> WidgetSpec {
    let items = (0..total).map(|i| TextPropertyEntry::text(&format!("row{}", i))).collect();
    let item_keys = (0..total).map(|i| format!("k{}", i)).collect();
    WidgetSpec::List {
        items,
        item_keys,
        selected_index: selected,
        visible_rows: visible,
        key: key.map(|s| s.to_string()),
    }
}

#[test]
fn list_renders_only_visible_window() {
    let spec = make_list(-1, 3, 10, Some("L"));
    let (entries, hits, _state) = render_spec(&spec, &InstanceStates::new());
    assert_eq!(entries.len(), 3);
    assert_eq!(hits.len(), 3);
    // First three items, absolute indices 0..2.
    assert_eq!(payload_index(&hits[0].payload), 0);
    assert_eq!(payload_index(&hits[2].payload), 2);
}

#[test]
fn list_scrolls_to_keep_selected_below_window_in_view() {
    // 10 items, visible=3, select index 5: scroll should be 3
    // (so selected lands at the bottom of the window).
    let spec = make_list(5, 3, 10, Some("L"));
    let (_entries, hits, state) = render_spec(&spec, &InstanceStates::new());
    // Visible window is items 3..6 → hits index 3, 4, 5.
    assert_eq!(hits.len(), 3);
    assert_eq!(payload_index(&hits[0].payload), 3);
    assert_eq!(payload_index(&hits[2].payload), 5);
    assert_eq!(list_scroll(&state, "L"), 3);
}

#[test]
fn list_scrolls_to_keep_selected_above_window_in_view() {
    // Previous render scrolled to 5; new selection is 1; widget
    // should scroll back up to 1.
    let mut prev = InstanceStates::new();
    prev.insert("L".into(), WidgetInstanceState::List { scroll_offset: 5 });
    let spec = make_list(1, 3, 10, Some("L"));
    let (_entries, hits, state) = render_spec(&spec, &prev);
    assert_eq!(payload_index(&hits[0].payload), 1);
    assert_eq!(list_scroll(&state, "L"), 1);
}

#[test]
fn list_scroll_preserved_when_selection_remains_in_view() {
    // Previous render scrolled to 4; new selection 5 (still in
    // window 4..6); scroll stays at 4.
    let mut prev = InstanceStates::new();
    prev.insert("L".into(), WidgetInstanceState::List { scroll_offset: 4 });
    let spec = make_list(5, 3, 10, Some("L"));
    let (_entries, hits, state) = render_spec(&spec, &prev);
    assert_eq!(payload_index(&hits[0].payload), 4);
    assert_eq!(list_scroll(&state, "L"), 4);
}

#[test]
fn list_clamps_scroll_to_max_when_dataset_is_smaller_than_old_offset() {
    // Previous scroll past the end of a now-shorter dataset
    // clamps to max_scroll = total - visible.
    let mut prev = InstanceStates::new();
    prev.insert("L".into(), WidgetInstanceState::List { scroll_offset: 8 });
    let spec = make_list(-1, 3, 5, Some("L"));
    let (entries, _hits, state) = render_spec(&spec, &prev);
    assert_eq!(entries.len(), 3);
    // total=5, visible=3 → max=2.
    assert_eq!(list_scroll(&state, "L"), 2);
}

#[test]
fn list_does_not_scroll_when_total_smaller_than_visible() {
    let spec = make_list(-1, 10, 3, Some("L"));
    let (entries, _hits, state) = render_spec(&spec, &InstanceStates::new());
    assert_eq!(entries.len(), 3, "all items fit");
    assert_eq!(list_scroll(&state, "L"), 0);
}

#[test]
fn list_without_key_does_not_persist_state() {
    let spec = make_list(5, 3, 10, None);
    let (_entries, _hits, state) = render_spec(&spec, &InstanceStates::new());
    assert!(state.is_empty(), "Lists without a `key` opt out of state preservation");
}

#[test]
fn text_input_renders_value_in_brackets() {
    let entry = render_text_input("hello", -1, false, "", None, 0);
    assert_eq!(entry.text, "[hello]");
    assert!(entry.inline_overlays.is_empty());
}

#[test]
fn text_input_with_label_prefixes_with_label_space() {
    let entry = render_text_input("foo", -1, false, "Search:", None, 0);
    assert_eq!(entry.text, "Search: [foo]");
}

#[test]
fn text_input_focused_adds_input_bg_overlay() {
    let entry = render_text_input("x", -1, true, "", None, 0);
    // Focused → input-bg overlay (no cursor since cursor_byte < 0).
    assert_eq!(entry.inline_overlays.len(), 1);
    let bg = entry.inline_overlays[0].style.bg.as_ref().unwrap();
    assert_eq!(bg.as_theme_key(), Some("ui.prompt_bg"));
}

#[test]
fn text_input_cursor_at_value_position_highlights_char() {
    let entry = render_text_input("abc", 1, true, "", None, 0);
    // Two overlays: input-bg (focused) + cursor on 'b'.
    assert_eq!(entry.inline_overlays.len(), 2);
    let cursor = entry
        .inline_overlays
        .iter()
        .find(|o| {
            o.style
                .bg
                .as_ref()
                .map(|c| c.as_theme_key() == Some("editor.cursor"))
                .unwrap_or(false)
        })
        .expect("cursor overlay present");
    // 'a' is at byte 1 (after '['), 'b' at byte 2, 'c' at byte 3
    // when label="" (text = "[abc]").
    assert_eq!(cursor.start, 2);
    assert_eq!(cursor.end, 3);
}

#[test]
fn text_input_cursor_at_end_highlights_closing_bracket() {
    let entry = render_text_input("ab", 2, true, "", None, 0);
    let cursor = entry
        .inline_overlays
        .iter()
        .find(|o| {
            o.style
                .bg
                .as_ref()
                .map(|c| c.as_theme_key() == Some("editor.cursor"))
                .unwrap_or(false)
        })
        .unwrap();
    // text = "[ab]" → closing bracket at byte 3..4
    assert_eq!(cursor.start, 3);
    assert_eq!(cursor.end, 4);
}

#[test]
fn text_input_unfocused_empty_shows_placeholder_in_muted() {
    let entry = render_text_input("", -1, false, "", Some("type here"), 0);
    assert_eq!(entry.text, "[type here]");
    // One overlay for the placeholder muted color.
    assert_eq!(entry.inline_overlays.len(), 1);
    let fg = entry.inline_overlays[0].style.fg.as_ref().unwrap();
    assert_eq!(fg.as_theme_key(), Some("ui.menu_disabled_fg"));
}

#[test]
fn text_input_focused_empty_does_not_show_placeholder() {
    let entry = render_text_input("", -1, true, "", Some("type here"), 0);
    // No placeholder when focused — would obstruct the cursor.
    assert_eq!(entry.text, "[]");
}

#[test]
fn text_input_truncates_long_value_keeping_tail_visible() {
    let value: String = "0123456789abcdefghij".to_string();
    let entry = render_text_input(&value, -1, false, "", None, 6);
    // Tail-truncated to "…fghij" (max=6, take=5 chars).
    assert_eq!(entry.text, "[…fghij]");
}

#[test]
fn raw_inside_col_offsets_following_hits() {
    let spec = WidgetSpec::Col {
        children: vec![
            WidgetSpec::Raw {
                entries: vec![
                    TextPropertyEntry::text("line0"),
                    TextPropertyEntry::text("line1"),
                    TextPropertyEntry::text("line2"),
                ],
                key: None,
            },
            WidgetSpec::Toggle {
                checked: false,
                label: "after raw".into(),
                focused: false,
                key: Some("post".into()),
            },
        ],
        key: None,
    };
    let (entries, hits, _state) = render_spec(&spec, &InstanceStates::new());
    assert_eq!(entries.len(), 4);
    assert_eq!(hits.len(), 1);
    assert_eq!(hits[0].buffer_row, 3);
}
