use fresh_editor::render::{
    merge_inline, render_button, render_hint_bar, render_spec, render_text_input,
};
use fresh_editor::widgets::{
    ButtonKind, HintEntry, HitPayload, InlineOverlay, InstanceStates, OverlayColorSpec, OverlayOptions,
    TextPropertyEntry, WidgetInstanceState, WidgetSpec,
};

fn toggle(label: &str, key: &str) -> WidgetSpec {
    WidgetSpec::Toggle {
        checked: false,
        label: label.into(),
        focused: false,
        key: Some(key.into()),
    }
}

fn button(label: &str) -> WidgetSpec {
    WidgetSpec::Button {
        label: label.into(),
        focused: false,
        intent: ButtonKind::Normal,
        key: None,
    }
}

fn raw(lines: &[&str]) -> WidgetSpec {
    WidgetSpec::Raw {
        entries: lines.iter().map(|l| TextPropertyEntry::text(l)).collect(),
        key: None,
    }
}

fn list(selected: i32, visible: u32, total: usize, key: &str) -> WidgetSpec {
    WidgetSpec::List {
        items: (0..total).map(|i| TextPropertyEntry::text(&format!("item{}", i))).collect(),
        item_keys: (0..total).map(|i| format!("k{}", i)).collect(),
        selected_index: selected,
        visible_rows: visible,
        key: Some(key.into()),
    }
}

fn scroll_of(state: &InstanceStates, key: &str) -> Option<u32> {
    state.get(key).map(|s| match s {
        WidgetInstanceState::List { scroll_offset } => *scroll_offset,
    })
}

#[test]
fn every_hit_lies_on_a_rendered_line() {
    let spec = WidgetSpec::Col {
        children: vec![
            WidgetSpec::Row { children: vec![raw(&["a", "b"]), toggle("t", "T")], key: None },
            list(4, 2, 6, "L"),
            button("ok"),
        ],
        key: None,
    };
    let (entries, hits, _state) = render_spec(&spec, &InstanceStates::new());
    // Row: two raw lines then the toggle line; list: two lines; button: one line.
    assert_eq!(entries.len(), 6);
    assert_eq!(hits.len(), 4);
    for h in &hits {
        assert!((h.buffer_row as usize) < entries.len());
    }
    // The toggle's hit sits on the row's merged line, below the two raw lines.
    assert_eq!(hits[0].buffer_row, 2);
    // The list's hits sit below the row's three lines.
    assert_eq!(hits[1].buffer_row, 3);
    assert_eq!(hits[2].buffer_row, 4);
    assert_eq!(hits[3].buffer_row, 5);
}

#[test]
fn empty_containers_render_nothing() {
    let spec = WidgetSpec::Col {
        children: vec![WidgetSpec::Row { children: vec![], key: None }, raw(&[])],
        key: None,
    };
    let (entries, hits, state) = render_spec(&spec, &InstanceStates::new());
    assert!(entries.is_empty());
    assert!(hits.is_empty());
    assert!(state.is_empty());
}

#[test]
fn row_of_inline_children_is_one_joined_line() {
    let spec = WidgetSpec::Row {
        children: vec![
            toggle("a", "T"),
            WidgetSpec::Spacer { cols: 2, key: None },
            button("b"),
        ],
        key: None,
    };
    let (entries, hits, _state) = render_spec(&spec, &InstanceStates::new());
    assert_eq!(entries.len(), 1);
    assert_eq!(entries[0].text, "[ ] a  [ b ]");
    // The button's hit area is shifted past the toggle and the spacer.
    assert_eq!(hits.len(), 2);
    assert_eq!((hits[1].byte_start, hits[1].byte_end), (7, 12));
    assert_eq!(hits[1].payload, HitPayload::Activate);
}

#[test]
fn list_rerendered_with_its_state_keeps_its_window() {
    let spec = list(7, 3, 10, "L");
    let (entries1, hits1, state1) = render_spec(&spec, &InstanceStates::new());
    assert_eq!(scroll_of(&state1, "L"), Some(5));
    let (entries2, hits2, state2) = render_spec(&spec, &state1);
    assert_eq!(scroll_of(&state2, "L"), Some(5));
    let texts1: Vec<&str> = entries1.iter().map(|e| e.text.as_str()).collect();
    let texts2: Vec<&str> = entries2.iter().map(|e| e.text.as_str()).collect();
    assert_eq!(texts1, vec!["item5", "item6", "item7"]);
    assert_eq!(texts1, texts2);
    assert_eq!(hits1.len(), hits2.len());
    for (a, b) in hits1.iter().zip(hits2.iter()) {
        assert_eq!(a.payload, b.payload);
        assert_eq!(a.buffer_row, b.buffer_row);
    }
}

#[test]
fn list_without_selection_keeps_previous_scroll() {
    let mut prev = InstanceStates::new();
    prev.insert("L".into(), WidgetInstanceState::List { scroll_offset: 2 });
    let (entries, _hits, state) = render_spec(&list(-1, 3, 10, "L"), &prev);
    assert_eq!(entries[0].text, "item2");
    assert_eq!(scroll_of(&state, "L"), Some(2));
    // No row carries the selection background.
    assert!(entries.iter().all(|e| e.style.is_none()));
}

#[test]
fn list_with_zero_visible_rows_shows_one_row() {
    let (entries, hits, _state) = render_spec(&list(0, 0, 5, "L"), &InstanceStates::new());
    assert_eq!(entries.len(), 1);
    assert_eq!(hits.len(), 1);
}

#[test]
fn spacer_is_capped_at_4096_columns() {
    let spec = WidgetSpec::Spacer { cols: 10_000, key: None };
    let (entries, hits, _state) = render_spec(&spec, &InstanceStates::new());
    assert_eq!(entries.len(), 1);
    assert_eq!(entries[0].text.len(), 4096);
    assert!(entries[0].text.chars().all(|c| c == ' '));
    assert!(hits.is_empty());
}

#[test]
fn merge_inline_joins_text_and_shifts_overlays() {
    let mut merged = TextPropertyEntry::text("ab");
    merged.inline_overlays.push(InlineOverlay {
        start: 0,
        end: 1,
        style: OverlayOptions::default(),
        properties: vec![],
    });
    let mut next = TextPropertyEntry::text("cde");
    next.inline_overlays.push(InlineOverlay {
        start: 1,
        end: 3,
        style: OverlayOptions::default(),
        properties: vec![("k".to_string(), "v".to_string())],
    });
    merge_inline(&mut merged, &mut next);
    assert_eq!(merged.text, "abcde");
    assert_eq!(merged.inline_overlays.len(), 2);
    assert_eq!((merged.inline_overlays[0].start, merged.inline_overlays[0].end), (0, 1));
    assert_eq!((merged.inline_overlays[1].start, merged.inline_overlays[1].end), (3, 5));
    assert_eq!(merged.inline_overlays[1].properties, vec![("k".to_string(), "v".to_string())]);
    assert!(next.inline_overlays.is_empty());
    assert_eq!(next.text, "cde");
}

#[test]
fn instance_states_read_back_what_was_written() {
    let mut states = InstanceStates::new();
    assert!(states.is_empty());
    assert!(states.get("a").is_none());
    states.insert("a".into(), WidgetInstanceState::List { scroll_offset: 3 });
    states.insert("b".into(), WidgetInstanceState::List { scroll_offset: 4 });
    states.insert("a".into(), WidgetInstanceState::List { scroll_offset: 9 });
    assert!(!states.is_empty());
    assert_eq!(scroll_of(&states, "a"), Some(9));
    assert_eq!(scroll_of(&states, "b"), Some(4));
    assert!(states.get("c").is_none());
}

#[test]
fn theme_key_colors_round_trip() {
    let c = OverlayColorSpec::theme_key("ui.menu_active_bg");
    assert_eq!(c.as_theme_key(), Some("ui.menu_active_bg"));
    let rgb = OverlayColorSpec::Rgb(1, 2, 3);
    assert_eq!(rgb.as_theme_key(), None);
}

#[test]
fn text_entry_constructor_is_plain() {
    let e = TextPropertyEntry::text("hello");
    assert_eq!(e.text, "hello");
    assert!(e.properties.is_empty());
    assert!(e.style.is_none());
    assert!(e.inline_overlays.is_empty());
}

#[test]
fn tree_rerendered_with_its_state_is_unchanged() {
    let spec = WidgetSpec::Col {
        children: vec![
            list(8, 3, 12, "A"),
            WidgetSpec::Row { children: vec![toggle("t", "T"), button("b")], key: None },
            list(1, 2, 5, "B"),
        ],
        key: None,
    };
    let mut prev = InstanceStates::new();
    prev.insert("B".into(), WidgetInstanceState::List { scroll_offset: 3 });
    let (entries1, hits1, state1) = render_spec(&spec, &prev);
    let (entries2, hits2, state2) = render_spec(&spec, &state1);
    let texts1: Vec<&str> = entries1.iter().map(|e| e.text.as_str()).collect();
    let texts2: Vec<&str> = entries2.iter().map(|e| e.text.as_str()).collect();
    assert_eq!(texts1, vec!["item6", "item7", "item8", "[ ] t[ b ]", "item1", "item2"]);
    assert_eq!(texts1, texts2);
    assert_eq!(hits1.len(), hits2.len());
    for (a, b) in hits1.iter().zip(hits2.iter()) {
        assert_eq!(a.payload, b.payload);
        assert_eq!((a.buffer_row, a.byte_start, a.byte_end), (b.buffer_row, b.byte_start, b.byte_end));
    }
    assert_eq!(scroll_of(&state1, "A"), Some(6));
    assert_eq!(scroll_of(&state1, "B"), Some(1));
    assert_eq!(scroll_of(&state2, "A"), Some(6));
    assert_eq!(scroll_of(&state2, "B"), Some(1));
}

#[test]
fn lists_sharing_a_key_share_one_offset() {
    // Two lists under one key: the later list's offset is what is kept, so
    // the first list scrolls differently on the next render.
    let spec = WidgetSpec::Col {
        children: vec![list(5, 3, 10, "L"), list(0, 3, 10, "L")],
        key: None,
    };
    let mut prev = InstanceStates::new();
    prev.insert("L".into(), WidgetInstanceState::List { scroll_offset: 4 });
    let (entries1, _hits1, state1) = render_spec(&spec, &prev);
    assert_eq!(entries1[0].text, "item4");
    assert_eq!(scroll_of(&state1, "L"), Some(0));
    let (entries2, _hits2, _state2) = render_spec(&spec, &state1);
    assert_eq!(entries2[0].text, "item3");
}

#[test]
fn focused_input_background_covers_the_value_only() {
    let entry = render_text_input("x", -1, true, "", None, 0);
    assert_eq!(entry.text, "[x]");
    assert_eq!(entry.inline_overlays.len(), 1);
    let o = &entry.inline_overlays[0];
    assert_eq!(o.style.bg.as_ref().and_then(|c| c.as_theme_key()), Some("ui.prompt_bg"));
    assert_eq!((o.start, o.end), (1, 2));
}

#[test]
fn focused_input_with_label_background_skips_label_and_brackets() {
    let entry = render_text_input("ab", -1, true, "Find", None, 0);
    assert_eq!(entry.text, "Find [ab]");
    assert_eq!((entry.inline_overlays[0].start, entry.inline_overlays[0].end), (6, 8));
}

#[test]
fn focused_danger_button_stays_red_and_turns_bold() {
    let entry = render_button("Delete", true, ButtonKind::Danger);
    assert_eq!(entry.text, "[ Delete ]");
    assert_eq!(entry.inline_overlays.len(), 1);
    let style = &entry.inline_overlays[0].style;
    assert_eq!(
        style.fg.as_ref().and_then(|c| c.as_theme_key()),
        Some("ui.status_error_indicator_fg")
    );
    assert!(style.bg.is_none());
    assert!(style.bold);
}

#[test]
fn focused_primary_button_takes_the_focused_look() {
    let entry = render_button("Go", true, ButtonKind::Primary);
    let style = &entry.inline_overlays[0].style;
    assert_eq!(style.fg.as_ref().and_then(|c| c.as_theme_key()), Some("ui.menu_active_fg"));
    assert_eq!(style.bg.as_ref().and_then(|c| c.as_theme_key()), Some("ui.menu_active_bg"));
    assert!(style.bold);
}

#[test]
fn inline_hit_after_block_child_lands_on_the_merged_row() {
    let spec = WidgetSpec::Row {
        children: vec![
            raw(&["l0", "l1"]),
            WidgetSpec::Toggle { checked: false, label: "A".into(), focused: false, key: Some("a".into()) },
        ],
        key: None,
    };
    let (entries, hits, _state) = render_spec(&spec, &InstanceStates::new());
    assert_eq!(entries.len(), 3);
    assert_eq!(entries[2].text, "[ ] A");
    assert_eq!(hits.len(), 1);
    assert_eq!(hits[0].widget_key, "a");
    assert_eq!(hits[0].buffer_row, 2);
    assert_eq!((hits[0].byte_start, hits[0].byte_end), (0, 5));
}

#[test]
fn hint_bar_key_overlays_span_each_hints_keys() {
    let hints = vec![
        HintEntry { keys: "Ctrl+S".into(), label: "save".into() },
        HintEntry { keys: "".into(), label: "plain".into() },
        HintEntry { keys: "Esc".into(), label: "".into() },
    ];
    let entry = render_hint_bar(&hints);
    assert_eq!(entry.text, "Ctrl+S save   plain  Esc");
    assert_eq!(entry.inline_overlays.len(), 2);
    let o0 = &entry.inline_overlays[0];
    let o1 = &entry.inline_overlays[1];
    assert_eq!(&entry.text[o0.start..o0.end], "Ctrl+S");
    assert_eq!(&entry.text[o1.start..o1.end], "Esc");
}
