//! Render a `WidgetSpec` tree into styled text entries.
//!
//! The output is a list of `TextPropertyEntry` lines, the click-routing
//! `HitArea`s on them, and the state each keyed widget keeps for the next
//! render. Dispatch covers rows (children laid out left-to-right within one
//! line), columns (children stacked vertically), hint bars, toggles,
//! buttons, spacers, lists, text inputs, and raw pass-through entries.

use vstd::prelude::*;
use vstd::string::*;
use crate::text::{byte_len, utf8_len};
use crate::words::occurs_at;
use crate::widgets::{
    ButtonKind, ColorModel, EntryModel, HintEntry, HitArea, HitModel, HitPayload, InlineOverlay,
    InstanceStates, OverlayColorSpec, OverlayModel, OverlayOptions, PayloadModel, StyleModel,
    TextPropertyEntry, WidgetInstanceState, WidgetSpec, entries_model, hits_model, overlays_model,
    plain_style, properties_model,
};

verus! {

// Theme keys used by the widget renderers.
pub const KEY_HELP_KEY_FG: &'static str = "ui.help_key_fg";

pub const KEY_TOGGLE_ON_FG: &'static str = "ui.tab_active_fg";

pub const KEY_FOCUSED_FG: &'static str = "ui.menu_active_fg";

pub const KEY_FOCUSED_BG: &'static str = "ui.menu_active_bg";

pub const KEY_DANGER_FG: &'static str = "ui.status_error_indicator_fg";

pub const KEY_INPUT_BG: &'static str = "ui.prompt_bg";

pub const KEY_PLACEHOLDER_FG: &'static str = "ui.menu_disabled_fg";

pub const KEY_CURSOR_BG: &'static str = "editor.cursor";

/// A style that only sets the foreground to a theme key.
pub open spec fn fg_style(key: Seq<char>) -> StyleModel {
    StyleModel { fg: Some(ColorModel::ThemeKey(key)), ..plain_style() }
}

/// A style that only sets the background to a theme key.
pub open spec fn bg_style(key: Seq<char>) -> StyleModel {
    StyleModel { bg: Some(ColorModel::ThemeKey(key)), ..plain_style() }
}

/// A bold style with the foreground set to a theme key.
pub open spec fn bold_fg_style(key: Seq<char>) -> StyleModel {
    StyleModel { fg: Some(ColorModel::ThemeKey(key)), bold: true, ..plain_style() }
}

/// The focused look: focused foreground and background, bold.
pub open spec fn focused_style() -> StyleModel {
    StyleModel {
        fg: Some(ColorModel::ThemeKey(KEY_FOCUSED_FG@)),
        bg: Some(ColorModel::ThemeKey(KEY_FOCUSED_BG@)),
        bold: true,
        ..plain_style()
    }
}

/// An overlay over `[start, end)` with the given style and no properties.
pub open spec fn overlay(start: int, end: int, style: StyleModel) -> OverlayModel {
    OverlayModel { start: start as usize, end: end as usize, style, properties: seq![] }
}

/// An entry with the given text and overlays, and no properties or style.
pub open spec fn styled_entry(text: Seq<char>, overlays: Seq<OverlayModel>) -> EntryModel {
    EntryModel { text, properties: seq![], style: None, overlays }
}

/// A style with the given colors and boldness, and no other attribute.
fn style_of(fg: Option<OverlayColorSpec>, bg: Option<OverlayColorSpec>, bold: bool) -> (res:
    OverlayOptions)
    ensures
        res.fg == fg,
        res.bg == bg,
        res.bold == bold,
        !res.italic,
        !res.underline,
        !res.strikethrough,
        !res.extend_to_line_end,
{
    OverlayOptions {
        fg,
        bg,
        bold,
        italic: false,
        underline: false,
        strikethrough: false,
        extend_to_line_end: false,
    }
}

/// An overlay over `[start, end)` with the given style and no properties.
fn make_overlay(start: usize, end: usize, style: OverlayOptions) -> (res: InlineOverlay)
    ensures
        res@ == overlay(start as int, end as int, style@),
{
    let res = InlineOverlay { start, end, style, properties: Vec::new() };
    assert(res@.properties =~= seq![]);
    res
}

/// An entry with the given text and overlays, and no properties or style.
fn make_entry(text: String, overlays: Vec<InlineOverlay>) -> (res: TextPropertyEntry)
    ensures
        res@ == styled_entry(text@, overlays_model(overlays@)),
{
    let res = TextPropertyEntry { text, properties: Vec::new(), style: None, inline_overlays: overlays };
    assert(res@.properties =~= seq![]);
    res
}

// ---------------------------------------------------------------------------
// HintBar
// ---------------------------------------------------------------------------

/// The separator between hints.
pub open spec fn hint_separator(n: int) -> Seq<char> {
    if n > 0 {
        seq![' ', ' ']
    } else {
        seq![]
    }
}

/// The label part of a hint: a space and the label, when there is one.
pub open spec fn hint_label(label: Seq<char>) -> Seq<char> {
    if label.len() > 0 {
        seq![' '] + label
    } else {
        seq![]
    }
}

/// The text of a hint bar: `<keys> <label>  <keys> <label>  …`.
pub open spec fn hint_text(es: Seq<HintEntry>) -> Seq<char>
    decreases es.len(),
{
    if es.len() == 0 {
        seq![]
    } else {
        let e = es.last();
        hint_text(es.drop_last()) + hint_separator(es.len() - 1) + e.keys@ + hint_label(e.label@)
    }
}

/// The overlays of a hint bar: the keys of each hint, bold, in the
/// help-key color (hints without keys get none).
pub open spec fn hint_overlays(es: Seq<HintEntry>) -> Seq<OverlayModel>
    decreases es.len(),
{
    if es.len() == 0 {
        seq![]
    } else {
        let e = es.last();
        let start = utf8_len(hint_text(es.drop_last()) + hint_separator(es.len() - 1));
        let end = start + utf8_len(e.keys@);
        hint_overlays(es.drop_last()) + if end > start {
            seq![overlay(start as int, end as int, bold_fg_style(KEY_HELP_KEY_FG@))]
        } else {
            seq![]
        }
    }
}

/// The rendered hint bar.
pub open spec fn hint_bar_model(es: Seq<HintEntry>) -> EntryModel {
    styled_entry(hint_text(es), hint_overlays(es))
}

/// The text of a prefix of a hint bar is no longer than the whole.
proof fn lemma_hint_text_prefix(es: Seq<HintEntry>, i: int)
    requires
        0 <= i <= es.len(),
    ensures
        utf8_len(hint_text(es.take(i))) <= utf8_len(hint_text(es)),
    decreases es.len() - i,
{
    if i < es.len() {
        lemma_hint_text_prefix(es, i + 1);
        let t = es.take(i + 1);
        assert(t.drop_last() =~= es.take(i));
        let e = t.last();
        crate::text::lemma_utf8_len_concat(
            hint_text(t.drop_last()),
            hint_separator(t.len() - 1),
        );
        crate::text::lemma_utf8_len_concat(
            hint_text(t.drop_last()) + hint_separator(t.len() - 1),
            e.keys@,
        );
        crate::text::lemma_utf8_len_concat(
            hint_text(t.drop_last()) + hint_separator(t.len() - 1) + e.keys@,
            hint_label(e.label@),
        );
    } else {
        assert(es.take(i) =~= es);
    }
}

/// The byte offset at which the keys of hint `i` start in the hint bar.
pub open spec fn key_start(es: Seq<HintEntry>, i: int) -> int {
    utf8_len(hint_text(es.take(i)) + hint_separator(i)) as int
}

/// Overlay `o` marks the keys of hint `i`: it spans exactly the bytes where
/// those (non-empty) keys are written in the bar's text, bold in the
/// help-key color.
pub open spec fn marks_keys(es: Seq<HintEntry>, o: OverlayModel, i: int) -> bool {
    &&& 0 <= i < es.len()
    &&& es[i].keys@.len() > 0
    &&& o == overlay(
        key_start(es, i),
        key_start(es, i) + utf8_len(es[i].keys@),
        bold_fg_style(KEY_HELP_KEY_FG@),
    )
    &&& occurs_at(hint_text(es), es[i].keys@, key_start(es, i))
}

/// Overlay `o` marks the keys of some hint.
pub open spec fn marks_some_keys(es: Seq<HintEntry>, o: OverlayModel) -> bool {
    exists|i: int| #[trigger] marks_keys(es, o, i)
}

/// Some overlay of `os` marks the keys of hint `i`.
pub open spec fn keys_marked(es: Seq<HintEntry>, os: Seq<OverlayModel>, i: int) -> bool {
    exists|k: int| 0 <= k < os.len() && #[trigger] marks_keys(es, os[k], i)
}

/// A text found in `t` at an offset is found there in any extension of `t`.
proof fn lemma_occurs_extend(t: Seq<char>, u: Seq<char>, w: Seq<char>, off: int)
    requires
        occurs_at(t, w, off),
    ensures
        occurs_at(t + u, w, off),
{
    let c = choose|c: int|
        0 <= c <= t.len() && off == utf8_len(#[trigger] t.take(c)) && w.is_prefix_of(t.skip(c));
    assert((t + u).take(c) =~= t.take(c));
    assert((t + u).skip(c) =~= t.skip(c) + u);
    assert(w.is_prefix_of((t + u).skip(c)));
}

/// Marks of the keys of earlier hints stay right when a hint is added.
proof fn lemma_marks_kept(es: Seq<HintEntry>, o: OverlayModel, i: int)
    requires
        es.len() > 0,
        marks_keys(es.drop_last(), o, i),
    ensures
        marks_keys(es, o, i),
{
    let es0 = es.drop_last();
    let n = es.len() - 1;
    let e = es.last();
    assert(es.take(i) =~= es0.take(i));
    assert(es[i] == es0[i]);
    let rest = hint_separator(n) + e.keys@ + hint_label(e.label@);
    assert(hint_text(es) =~= hint_text(es0) + rest);
    lemma_occurs_extend(hint_text(es0), rest, es[i].keys@, key_start(es, i));
}

/// The last hint adds an overlay marking its keys when it has keys, and
/// none when it has not.
proof fn lemma_last_hint_overlay(es: Seq<HintEntry>)
    requires
        es.len() > 0,
    ensures
        es.last().keys@.len() > 0 ==> hint_overlays(es).len() == hint_overlays(es.drop_last()).len() + 1
            && marks_keys(es, hint_overlays(es).last(), es.len() - 1),
        es.last().keys@.len() == 0 ==> hint_overlays(es) == hint_overlays(es.drop_last()),
        forall|k: int|
            0 <= k < hint_overlays(es.drop_last()).len() ==> #[trigger] hint_overlays(es)[k]
                == hint_overlays(es.drop_last())[k],
{
    let es0 = es.drop_last();
    let n = es.len() - 1;
    let e = es.last();
    let head = hint_text(es0) + hint_separator(n);
    let tail = e.keys@ + hint_label(e.label@);
    assert(hint_text(es) =~= head + tail);
    assert(es.take(n) =~= es0);
    assert(key_start(es, n) == utf8_len(head));
    crate::text::lemma_utf8_len_ge_len(e.keys@);
    if e.keys@.len() > 0 {
        let c = head.len() as int;
        assert(hint_text(es).take(c) =~= head);
        assert(hint_text(es).skip(c) =~= tail);
        assert(occurs_at(hint_text(es), e.keys@, key_start(es, n)));
    } else {
        assert(e.keys@ =~= seq![]);
        assert(utf8_len(e.keys@) == 0);
        assert(hint_overlays(es) =~= hint_overlays(es0));
    }
}

/// Each overlay of a hint bar marks the keys of one hint, and the keys of
/// every hint that has keys are marked.
pub proof fn lemma_hint_overlays_mark_keys(es: Seq<HintEntry>)
    ensures
        forall|k: int|
            0 <= k < hint_overlays(es).len() ==> marks_some_keys(es, #[trigger] hint_overlays(es)[k]),
        forall|i: int|
            0 <= i < es.len() && (#[trigger] es[i]).keys@.len() > 0 ==> keys_marked(
                es,
                hint_overlays(es),
                i,
            ),
    decreases es.len(),
{
    if es.len() > 0 {
        let es0 = es.drop_last();
        let n = es.len() - 1;
        lemma_hint_overlays_mark_keys(es0);
        lemma_last_hint_overlay(es);
        let ov = hint_overlays(es);
        let ov0 = hint_overlays(es0);
        assert forall|k: int| 0 <= k < ov.len() implies marks_some_keys(es, #[trigger] ov[k]) by {
            if k < ov0.len() {
                assert(ov[k] == ov0[k]);
                assert(marks_some_keys(es0, ov0[k]));
                let i = choose|i: int| #[trigger] marks_keys(es0, ov0[k], i);
                lemma_marks_kept(es, ov0[k], i);
            } else {
                assert(ov[k] == ov.last());
                assert(marks_keys(es, ov[k], n));
            }
        }
        assert forall|i: int| 0 <= i < es.len() && (#[trigger] es[i]).keys@.len() > 0 implies keys_marked(
            es,
            ov,
            i,
        ) by {
            if i < n {
                assert(es0[i] == es[i]);
                assert(keys_marked(es0, ov0, i));
                let k = choose|k: int| 0 <= k < ov0.len() && #[trigger] marks_keys(es0, ov0[k], i);
                assert(ov[k] == ov0[k]);
                lemma_marks_kept(es, ov0[k], i);
            } else {
                assert(marks_keys(es, ov[ov.len() - 1], n));
            }
        }
    }
}

/// The indices of the hints that have keys, in order.
pub open spec fn keyed_hints(es: Seq<HintEntry>) -> Seq<int>
    decreases es.len(),
{
    if es.len() == 0 {
        seq![]
    } else if es.last().keys@.len() > 0 {
        keyed_hints(es.drop_last()).push(es.len() - 1)
    } else {
        keyed_hints(es.drop_last())
    }
}

/// A hint bar has exactly one overlay per hint with keys, in the order of
/// the hints: overlay `k` marks the keys of the `k`-th hint that has keys.
pub proof fn lemma_hint_overlays_in_order(es: Seq<HintEntry>)
    ensures
        hint_overlays(es).len() == keyed_hints(es).len(),
        forall|k: int|
            0 <= k < hint_overlays(es).len() ==> marks_keys(
                es,
                #[trigger] hint_overlays(es)[k],
                keyed_hints(es)[k],
            ),
        forall|k: int, l: int|
            0 <= k < l < keyed_hints(es).len() ==> (#[trigger] keyed_hints(es)[k]) < (
            #[trigger] keyed_hints(es)[l]),
        forall|k: int| 0 <= k < keyed_hints(es).len() ==> 0 <= #[trigger] keyed_hints(es)[k] < es.len(),
        forall|i: int| 0 <= i < es.len() && (#[trigger] es[i]).keys@.len() > 0 ==> keyed_hints(es).contains(i),
    decreases es.len(),
{
    if es.len() > 0 {
        let es0 = es.drop_last();
        let n = es.len() - 1;
        lemma_hint_overlays_in_order(es0);
        lemma_last_hint_overlay(es);
        let ov = hint_overlays(es);
        let ov0 = hint_overlays(es0);
        let ki = keyed_hints(es);
        let ki0 = keyed_hints(es0);
        assert forall|k: int| 0 <= k < ki0.len() implies #[trigger] ki[k] == ki0[k] by {}
        assert forall|k: int| 0 <= k < ov.len() implies marks_keys(es, #[trigger] ov[k], ki[k]) by {
            if k < ov0.len() {
                assert(ov[k] == ov0[k]);
                assert(ki[k] == ki0[k]);
                lemma_marks_kept(es, ov0[k], ki0[k]);
            } else {
                assert(ov[k] == ov.last());
                assert(ki[k] == n);
            }
        }
        assert forall|i: int| 0 <= i < es.len() && (#[trigger] es[i]).keys@.len() > 0 implies ki.contains(
            i,
        ) by {
            if i < n {
                assert(es0[i] == es[i]);
                assert(ki0.contains(i));
                let k = choose|k: int| 0 <= k < ki0.len() && ki0[k] == i;
                assert(ki[k] == i);
            } else {
                assert(ki[ki.len() - 1] == n);
            }
        }
    }
}

/// Render a HintBar into a single entry.
///
/// Layout: `<keys> <label>  <keys> <label>  …`. The key portion of each
/// hint is highlighted bold with the `ui.help_key_fg` theme key; labels use
/// the default foreground.
pub fn render_hint_bar(entries: &[HintEntry]) -> (res: TextPropertyEntry)
    requires
        utf8_len(hint_text(entries@)) <= isize::MAX,
    ensures
        res@ == hint_bar_model(entries@),
{
    let mut text = String::new();
    let mut overlays: Vec<InlineOverlay> = Vec::new();
    let mut i: usize = 0;
    proof {
        reveal_strlit("  ");
        reveal_strlit(" ");
    }
    while i < entries.len()
        invariant
            i <= entries.len(),
            utf8_len(hint_text(entries@)) <= isize::MAX,
            text@ == hint_text(entries@.take(i as int)),
            overlays_model(overlays@) == hint_overlays(entries@.take(i as int)),
            "  "@ == seq![' ', ' '],
            " "@ == seq![' '],
        decreases entries.len() - i,
    {
        let ghost es = entries@.take(i + 1);
        proof {
            assert(es.drop_last() =~= entries@.take(i as int));
            lemma_hint_text_prefix(entries@, i + 1);
            let e = es.last();
            crate::text::lemma_utf8_len_concat(
                hint_text(es.drop_last()),
                hint_separator(es.len() - 1),
            );
            crate::text::lemma_utf8_len_concat(
                hint_text(es.drop_last()) + hint_separator(es.len() - 1),
                e.keys@,
            );
            crate::text::lemma_utf8_len_concat(
                hint_text(es.drop_last()) + hint_separator(es.len() - 1) + e.keys@,
                hint_label(e.label@),
            );
        }
        if i > 0 {
            text.append("  ");
        }
        assert(text@ == hint_text(entries@.take(i as int)) + hint_separator(i as int));
        let key_start = text.as_str().len();
        text.append(entries[i].keys.as_str());
        let key_end = text.as_str().len();
        let ghost overlays_before = overlays@;
        if key_end > key_start {
            let style = style_of(Some(OverlayColorSpec::theme_key(KEY_HELP_KEY_FG)), None, true);
            overlays.push(make_overlay(key_start, key_end, style));
        }
        if !entries[i].label.as_str().is_empty() {
            text.append(" ");
            text.append(entries[i].label.as_str());
        }
        proof {
            assert(text@ =~= hint_text(es));
            assert(overlays_model(overlays@) =~= hint_overlays(es));
        }
        i += 1;
    }
    assert(entries@.take(entries.len() as int) =~= entries@);
    make_entry(text, overlays)
}

// ---------------------------------------------------------------------------
// Toggle
// ---------------------------------------------------------------------------

/// The check glyph: `[v]` when checked, `[ ]` when not.
pub open spec fn toggle_glyph(checked: bool) -> Seq<char> {
    if checked {
        seq!['[', 'v', ']']
    } else {
        seq!['[', ' ', ']']
    }
}

/// The text of a toggle: glyph, space, label.
pub open spec fn toggle_text(checked: bool, label: Seq<char>) -> Seq<char> {
    toggle_glyph(checked) + seq![' '] + label
}

/// The rendered toggle: the glyph is bold in the toggle-on color when
/// checked; a focused toggle is wholly in the focused look.
pub open spec fn toggle_model(checked: bool, label: Seq<char>, focused: bool) -> EntryModel {
    let text = toggle_text(checked, label);
    styled_entry(
        text,
        (if checked {
            seq![overlay(0, 3, bold_fg_style(KEY_TOGGLE_ON_FG@))]
        } else {
            seq![]
        }) + (if focused {
            seq![overlay(0, utf8_len(text) as int, focused_style())]
        } else {
            seq![]
        }),
    )
}

/// The glyph takes three bytes and the space one.
proof fn lemma_toggle_text_len(checked: bool, label: Seq<char>)
    ensures
        utf8_len(toggle_text(checked, label)) == 4 + utf8_len(label),
{
    crate::text::lemma_utf8_len_concat(toggle_glyph(checked) + seq![' '], label);
    let g = toggle_glyph(checked) + seq![' '];
    assert(g.drop_first().drop_first().drop_first().drop_first() =~= seq![]);
    assert(g[0] == '[');
    assert(g[1] == ' ' || g[1] == 'v');
    assert(g[2] == ']');
    assert(g[3] == ' ');
    assert(utf8_len(g.drop_first().drop_first().drop_first()) == 1) by {
        assert(g.drop_first().drop_first().drop_first() =~= seq![' ']);
        reveal_with_fuel(vstd::utf8::encode_utf8, 2);
    }
    assert(utf8_len(g) == 4) by {
        reveal_with_fuel(vstd::utf8::encode_utf8, 5);
    }
}

/// Render a `Toggle` to a single entry.
///
/// Layout: `[v] label` when checked, `[ ] label` when not. The check glyph
/// is bold in `ui.tab_active_fg` when checked (no override when unchecked).
/// When focused, the entire entry is given the focused fg/bg pair
/// (`ui.menu_active_fg`/`ui.menu_active_bg`) plus bold.
pub fn render_toggle(checked: bool, label: &str, focused: bool) -> (res: TextPropertyEntry)
    requires
        utf8_len(label@) + 4 <= isize::MAX,
    ensures
        res@ == toggle_model(checked, label@, focused),
{
    proof {
        reveal_strlit("[v]");
        reveal_strlit("[ ]");
        reveal_strlit(" ");
        lemma_toggle_text_len(checked, label@);
    }
    let glyph = if checked {
        "[v]"
    } else {
        "[ ]"
    };
    let mut text = String::new();
    text.append(glyph);
    text.append(" ");
    text.append(label);
    assert(text@ =~= toggle_text(checked, label@));
    let mut overlays: Vec<InlineOverlay> = Vec::new();
    if checked {
        let style = style_of(Some(OverlayColorSpec::theme_key(KEY_TOGGLE_ON_FG)), None, true);
        overlays.push(make_overlay(0, 3, style));
    }
    if focused {
        let style = style_of(
            Some(OverlayColorSpec::theme_key(KEY_FOCUSED_FG)),
            Some(OverlayColorSpec::theme_key(KEY_FOCUSED_BG)),
            true,
        );
        let end = text.as_str().len();
        overlays.push(make_overlay(0, end, style));
    }
    let res = make_entry(text, overlays);
    assert(res@.overlays =~= toggle_model(checked, label@, focused).overlays);
    res
}

// ---------------------------------------------------------------------------
// Button
// ---------------------------------------------------------------------------

/// The text of a button: `[ label ]`.
pub open spec fn button_text(label: Seq<char>) -> Seq<char> {
    seq!['[', ' '] + label + seq![' ', ']']
}

/// The style of a button: `Normal` is plain, `Primary` bold, `Danger` in
/// the error color. Focused, `Normal` and `Primary` take the focused look
/// (focused fg/bg, bold) and `Danger` keeps its color and turns bold.
pub open spec fn button_style(focused: bool, kind: ButtonKind) -> StyleModel {
    match kind {
        ButtonKind::Danger => if focused {
            bold_fg_style(KEY_DANGER_FG@)
        } else {
            fg_style(KEY_DANGER_FG@)
        },
        _ => if focused {
            focused_style()
        } else if kind == ButtonKind::Primary {
            StyleModel { bold: true, ..plain_style() }
        } else {
            plain_style()
        },
    }
}

/// The rendered button: one overlay over the whole text, unless the style
/// is plain.
pub open spec fn button_model(label: Seq<char>, focused: bool, kind: ButtonKind) -> EntryModel {
    let text = button_text(label);
    let style = button_style(focused, kind);
    styled_entry(
        text,
        if style == plain_style() {
            seq![]
        } else {
            seq![overlay(0, utf8_len(text) as int, style)]
        },
    )
}

/// The brackets and spaces take four bytes.
proof fn lemma_button_text_len(label: Seq<char>)
    ensures
        utf8_len(button_text(label)) == 4 + utf8_len(label),
{
    let open = seq!['[', ' '];
    let close = seq![' ', ']'];
    crate::text::lemma_utf8_len_concat(open + label, close);
    crate::text::lemma_utf8_len_concat(open, label);
    assert(utf8_len(open) == 2) by {
        reveal_with_fuel(vstd::utf8::encode_utf8, 3);
    }
    assert(utf8_len(close) == 2) by {
        reveal_with_fuel(vstd::utf8::encode_utf8, 3);
    }
}

/// Render a `Button` to a single entry.
///
/// Layout: `[ Label ]`. Styling depends on `kind` and `focused`:
/// `Normal` is plain, `Primary` bold, `Danger` in
/// `ui.status_error_indicator_fg`. Focused, `Normal` and `Primary` buttons
/// take the focused fg/bg pair plus bold, and a `Danger` button keeps its
/// red and turns bold. A plain style emits no overlay.
pub fn render_button(label: &str, focused: bool, kind: ButtonKind) -> (res: TextPropertyEntry)
    requires
        utf8_len(label@) + 4 <= isize::MAX,
    ensures
        res@ == button_model(label@, focused, kind),
{
    proof {
        reveal_strlit("[ ");
        reveal_strlit(" ]");
        lemma_button_text_len(label@);
    }
    let mut text = String::new();
    text.append("[ ");
    text.append(label);
    text.append(" ]");
    assert(text@ =~= button_text(label@));
    let base_style = match kind {
        ButtonKind::Normal => style_of(None, None, false),
        ButtonKind::Primary => style_of(None, None, true),
        ButtonKind::Danger => style_of(Some(OverlayColorSpec::theme_key(KEY_DANGER_FG)), None, false),
    };
    let style = if !focused {
        base_style
    } else {
        match kind {
            ButtonKind::Danger => OverlayOptions { bold: true, ..base_style },
            _ => OverlayOptions {
                fg: Some(OverlayColorSpec::theme_key(KEY_FOCUSED_FG)),
                bg: Some(OverlayColorSpec::theme_key(KEY_FOCUSED_BG)),
                bold: true,
                ..base_style
            },
        }
    };
    assert(style@ == button_style(focused, kind));
    let mut overlays: Vec<InlineOverlay> = Vec::new();
    // Only emit an overlay if the style is non-default.
    if style.fg.is_some() || style.bg.is_some() || style.bold || style.italic || style.underline
        || style.strikethrough {
        let end = text.as_str().len();
        overlays.push(make_overlay(0, end, style));
    }
    let res = make_entry(text, overlays);
    assert(res@.overlays =~= button_model(label@, focused, kind).overlays);
    res
}

// ---------------------------------------------------------------------------
// Inline merging
// ---------------------------------------------------------------------------

/// `o` moved `shift` bytes to the right.
pub open spec fn shift_overlay(o: OverlayModel, shift: int) -> OverlayModel {
    OverlayModel {
        start: (o.start + shift) as usize,
        end: (o.end + shift) as usize,
        style: o.style,
        properties: o.properties,
    }
}

/// Shifting every overlay by `shift` bytes stays within `usize`.
pub open spec fn overlays_fit(os: Seq<OverlayModel>, shift: int) -> bool {
    forall|k: int| 0 <= k < os.len() ==> (#[trigger] os[k]).end + shift <= usize::MAX && os[k].start + shift <= usize::MAX
}

/// The entry `m` with `n` appended inline: the texts are joined, `n`'s
/// overlays follow `m`'s, shifted past `m`'s text; `n`'s style and
/// properties are dropped.
pub open spec fn merge_model(m: EntryModel, n: EntryModel) -> EntryModel {
    let shift = byte_len(m.text) as int;
    EntryModel {
        text: m.text + n.text,
        properties: m.properties,
        style: m.style,
        overlays: m.overlays + n.overlays.map_values(|o: OverlayModel| shift_overlay(o, shift)),
    }
}

/// Merge `next` into `merged` for the inline-row collapse path: `next`'s
/// overlays are moved over, byte-shifted by the merged text length so far.
/// `next` is left without overlays.
pub fn merge_inline(merged: &mut TextPropertyEntry, next: &mut TextPropertyEntry)
    requires
        utf8_len(old(merged).text@) + utf8_len(old(next).text@) <= isize::MAX,
        overlays_fit(old(next)@.overlays, utf8_len(old(merged).text@) as int),
    ensures
        final(merged)@ == merge_model(old(merged)@, old(next)@),
        final(next)@ == (EntryModel { overlays: seq![], ..old(next)@ }),
{
    let shift = merged.text.as_str().len();
    merged.text.append(next.text.as_str());
    let mut drained: Vec<InlineOverlay> = Vec::new();
    std::mem::swap(&mut drained, &mut next.inline_overlays);
    let ghost shifted = old(next)@.overlays.map_values(|o: OverlayModel| shift_overlay(o, shift as int));
    let ghost base = old(merged)@.overlays;
    assert(forall|k: int| 0 <= k < drained.len() ==> (#[trigger] drained@[k])@ == old(next)@.overlays[k]);
    let mut i: usize = 0;
    while i < drained.len()
        invariant
            i <= drained.len(),
            drained@.len() == old(next)@.overlays.len(),
            overlays_fit(old(next)@.overlays, shift as int),
            shifted == old(next)@.overlays.map_values(|o: OverlayModel| shift_overlay(o, shift as int)),
            merged.text@ == old(merged).text@ + old(next).text@,
            merged.properties@ == old(merged).properties@,
            merged.style == old(merged).style,
            overlays_model(merged.inline_overlays@) == base + shifted.take(i as int),
            forall|k: int| i <= k < drained.len() ==> (#[trigger] drained@[k])@ == old(next)@.overlays[k],
        decreases drained.len() - i,
    {
        let mut o = InlineOverlay { start: 0, end: 0, style: style_of(None, None, false), properties: Vec::new() };
        drained.set_and_swap(i, &mut o);
        assert(o@ == old(next)@.overlays[i as int]);
        let moved = InlineOverlay {
            start: o.start + shift,
            end: o.end + shift,
            style: o.style,
            properties: o.properties,
        };
        let ghost before = merged.inline_overlays@;
        merged.inline_overlays.push(moved);
        proof {
            assert(shifted.take(i + 1) =~= shifted.take(i as int).push(shifted[i as int]));
            assert(overlays_model(merged.inline_overlays@) =~= overlays_model(before).push(moved@));
        }
        i += 1;
    }
    assert(shifted.take(drained.len() as int) =~= shifted);
    assert(overlays_model(next.inline_overlays@) =~= seq![]);
}

// ---------------------------------------------------------------------------
// TextInput
// ---------------------------------------------------------------------------

/// An unfocused, empty input shows its placeholder, when it has one.
pub open spec fn shows_placeholder(value: Seq<char>, focused: bool, placeholder: Option<Seq<char>>) -> bool {
    !focused && value.len() == 0 && placeholder is Some
}

/// What stands between the brackets: the placeholder when it is shown; a
/// value longer than `max_visible_chars` (when that is positive) cut to
/// `…` and its last `max_visible_chars - 1` characters; else the value.
pub open spec fn input_inner(
    value: Seq<char>,
    focused: bool,
    placeholder: Option<Seq<char>>,
    max_visible_chars: u32,
) -> Seq<char> {
    if shows_placeholder(value, focused, placeholder) {
        placeholder.unwrap()
    } else if max_visible_chars > 0 && value.len() > max_visible_chars {
        seq!['…'] + value.subrange(value.len() - (max_visible_chars - 1), value.len() as int)
    } else {
        value
    }
}

/// The label part of an input: the label and a space, when there is one.
pub open spec fn input_label(label: Seq<char>) -> Seq<char> {
    if label.len() > 0 {
        label + seq![' ']
    } else {
        seq![]
    }
}

/// The text of an input: `Label [inner]`, or `[inner]` without a label.
pub open spec fn input_text(label: Seq<char>, inner: Seq<char>) -> Seq<char> {
    input_label(label) + seq!['['] + inner + seq![']']
}

/// The first character boundary of `bytes` at or after `n` (or the end).
pub open spec fn next_char_boundary(bytes: Seq<u8>, n: int) -> int
    decreases bytes.len() - n,
{
    if n >= bytes.len() || vstd::utf8::is_char_boundary(bytes, n) {
        n
    } else {
        next_char_boundary(bytes, n + 1)
    }
}

/// The byte range the cursor highlights: the character at `cursor` within
/// the inner text, or the closing bracket when the cursor is at or past the
/// end of it.
pub open spec fn input_cursor_range(label: Seq<char>, inner: Seq<char>, cursor: int) -> (int, int) {
    let inner_start = utf8_len(input_label(label)) + 1;
    let inner_len = utf8_len(inner) as int;
    if cursor >= inner_len {
        (inner_start + inner_len, inner_start + inner_len + 1)
    } else {
        (
            inner_start + cursor,
            inner_start + next_char_boundary(vstd::utf8::encode_utf8(inner), cursor + 1),
        )
    }
}

/// The rendered input: the placeholder in the muted color; when focused,
/// the input background over what the brackets hold (not the brackets); a cursor
/// cell when `cursor_byte >= 0` and no placeholder is shown.
pub open spec fn text_input_model(
    value: Seq<char>,
    cursor_byte: i32,
    focused: bool,
    label: Seq<char>,
    placeholder: Option<Seq<char>>,
    max_visible_chars: u32,
) -> EntryModel {
    let show = shows_placeholder(value, focused, placeholder);
    let inner = input_inner(value, focused, placeholder, max_visible_chars);
    let open = utf8_len(input_label(label)) as int;
    let inner_start = open + 1;
    let inner_end = inner_start + utf8_len(inner);
    let cursor = input_cursor_range(label, inner, cursor_byte as int);
    styled_entry(
        input_text(label, inner),
        (if show {
            seq![overlay(inner_start, inner_end, fg_style(KEY_PLACEHOLDER_FG@))]
        } else {
            seq![]
        }) + (if focused {
            seq![overlay(inner_start, inner_end, bg_style(KEY_INPUT_BG@))]
        } else {
            seq![]
        }) + (if cursor_byte >= 0 && !show {
            seq![overlay(cursor.0, cursor.1, bg_style(KEY_CURSOR_BG@))]
        } else {
            seq![]
        }),
    )
}

/// The bytes of an input's text are those of its parts.
proof fn lemma_input_text_len(label: Seq<char>, inner: Seq<char>)
    ensures
        utf8_len(input_text(label, inner)) == utf8_len(input_label(label)) + utf8_len(inner) + 2,
{
    let l = input_label(label);
    crate::text::lemma_utf8_len_concat(l + seq!['['] + inner, seq![']']);
    crate::text::lemma_utf8_len_concat(l + seq!['['], inner);
    crate::text::lemma_utf8_len_concat(l, seq!['[']);
    assert(utf8_len(seq!['[']) == 1) by {
        reveal_with_fuel(vstd::utf8::encode_utf8, 2);
    }
    assert(utf8_len(seq![']']) == 1) by {
        reveal_with_fuel(vstd::utf8::encode_utf8, 2);
    }
}

/// The next character boundary lies between `n` and the end.
proof fn lemma_next_char_boundary_range(bytes: Seq<u8>, n: int)
    requires
        0 <= n <= bytes.len(),
    ensures
        n <= next_char_boundary(bytes, n) <= bytes.len(),
    decreases bytes.len() - n,
{
    if n < bytes.len() && !vstd::utf8::is_char_boundary(bytes, n) {
        lemma_next_char_boundary_range(bytes, n + 1);
    }
}

/// The cursor cell of a rendered input: an overlay in the cursor color is
/// there exactly when `cursor_byte >= 0` and no placeholder is shown. It
/// covers the character that starts at byte `cursor_byte` of the value
/// shown between the brackets, or the closing bracket (the last byte of the
/// text) when the cursor is at or past the end of that value.
pub proof fn lemma_text_input_cursor_cell(
    value: Seq<char>,
    cursor_byte: i32,
    focused: bool,
    label: Seq<char>,
    placeholder: Option<Seq<char>>,
    max_visible_chars: u32,
)
    requires
        utf8_len(input_text(label, input_inner(value, focused, placeholder, max_visible_chars)))
            <= usize::MAX,
    ensures
        ({
            let m = text_input_model(value, cursor_byte, focused, label, placeholder, max_visible_chars);
            let shown = input_inner(value, focused, placeholder, max_visible_chars);
            let n = utf8_len(m.text) as int;
            let len = utf8_len(shown) as int;
            &&& (exists|k: int|
                0 <= k < m.overlays.len() && (#[trigger] m.overlays[k]).style == bg_style(
                    KEY_CURSOR_BG@,
                )) <==> (cursor_byte >= 0 && !shows_placeholder(value, focused, placeholder))
            &&& forall|k: int|
                0 <= k < m.overlays.len() && (#[trigger] m.overlays[k]).style == bg_style(
                    KEY_CURSOR_BG@,
                ) ==> if cursor_byte >= len {
                    m.overlays[k].start == n - 1 && m.overlays[k].end == n
                } else {
                    &&& m.overlays[k].start == n - 1 - len + cursor_byte
                    &&& m.overlays[k].start < m.overlays[k].end <= n - 1
                }
        }),
{
    let m = text_input_model(value, cursor_byte, focused, label, placeholder, max_visible_chars);
    let inner = input_inner(value, focused, placeholder, max_visible_chars);
    let show = shows_placeholder(value, focused, placeholder);
    lemma_input_text_len(label, inner);
    reveal_strlit("editor.cursor");
    reveal_strlit("ui.prompt_bg");
    reveal_strlit("ui.menu_disabled_fg");
    assert(KEY_CURSOR_BG@ != KEY_INPUT_BG@) by {
        assert(KEY_CURSOR_BG@.len() != KEY_INPUT_BG@.len());
    }
    assert(bg_style(KEY_CURSOR_BG@) != bg_style(KEY_INPUT_BG@));
    assert(bg_style(KEY_CURSOR_BG@) != fg_style(KEY_PLACEHOLDER_FG@));
    if cursor_byte >= 0 && (cursor_byte as int) < utf8_len(inner) {
        lemma_next_char_boundary_range(vstd::utf8::encode_utf8(inner), cursor_byte + 1);
    }
    let a: Seq<OverlayModel> = if show {
        seq![overlay(
            (utf8_len(input_label(label)) as int) + 1,
            (utf8_len(input_label(label)) as int) + 1 + utf8_len(inner),
            fg_style(KEY_PLACEHOLDER_FG@),
        )]
    } else {
        seq![]
    };
    let b: Seq<OverlayModel> = if focused {
        seq![overlay(
            (utf8_len(input_label(label)) as int) + 1,
            (utf8_len(input_label(label)) as int) + 1 + utf8_len(inner),
            bg_style(KEY_INPUT_BG@),
        )]
    } else {
        seq![]
    };
    assert forall|k: int| 0 <= k < (a + b).len() implies (#[trigger] (a + b)[k]).style != bg_style(
        KEY_CURSOR_BG@,
    ) by {
        if k < a.len() {
            assert((a + b)[k] == a[k]);
        } else {
            assert((a + b)[k] == b[k - a.len()]);
        }
    }
    if cursor_byte >= 0 && !show {
        let c = (a + b).len() as int;
        assert(m.overlays[c].style == bg_style(KEY_CURSOR_BG@));
    }
    assert forall|k: int|
        0 <= k < m.overlays.len() && (#[trigger] m.overlays[k]).style == bg_style(KEY_CURSOR_BG@) implies k
        == (a + b).len() && cursor_byte >= 0 && !show by {
        if k < (a + b).len() {
            assert(m.overlays[k] == (a + b)[k]);
        }
    }
}

/// Every overlay of a rendered input covers a byte range within its text.
pub proof fn lemma_text_input_overlays_within(
    value: Seq<char>,
    cursor_byte: i32,
    focused: bool,
    label: Seq<char>,
    placeholder: Option<Seq<char>>,
    max_visible_chars: u32,
)
    requires
        utf8_len(input_text(label, input_inner(value, focused, placeholder, max_visible_chars)))
            <= usize::MAX,
    ensures
        ({
            let m = text_input_model(value, cursor_byte, focused, label, placeholder, max_visible_chars);
            forall|k: int|
                0 <= k < m.overlays.len() ==> (#[trigger] m.overlays[k]).start <= m.overlays[k].end
                    <= utf8_len(m.text)
        }),
{
    let inner = input_inner(value, focused, placeholder, max_visible_chars);
    lemma_input_text_len(label, inner);
    if cursor_byte >= 0 && (cursor_byte as int) < utf8_len(inner) {
        lemma_next_char_boundary_range(vstd::utf8::encode_utf8(inner), cursor_byte + 1);
    }
}

/// Render a `TextInput` to a single entry.
///
/// Layout: `Label [<value>]`, or just `[<value>]` when `label` is empty.
/// When `value` is empty and the input is unfocused, the `placeholder` (if
/// provided) is shown in `ui.menu_disabled_fg`. When `cursor_byte >= 0`, a
/// one-cell overlay in `editor.cursor` marks the character at that byte
/// offset of the shown value, or the closing bracket when the cursor sits
/// past its last character. Focused inputs get the `ui.prompt_bg` background
/// over the shown value, brackets excluded. When `max_visible_chars > 0` and the value is
/// longer, the shown text is `…` and the value's tail.
pub fn render_text_input(
    value: &str,
    cursor_byte: i32,
    focused: bool,
    label: &str,
    placeholder: Option<&str>,
    max_visible_chars: u32,
) -> (res: TextPropertyEntry)
    requires
        utf8_len(
            input_text(
                label@,
                input_inner(
                    value@,
                    focused,
                    match placeholder {
                        Some(p) => Some(p@),
                        None => None,
                    },
                    max_visible_chars,
                ),
            ),
        ) <= isize::MAX,
    ensures
        res@ == text_input_model(
            value@,
            cursor_byte,
            focused,
            label@,
            match placeholder {
                Some(p) => Some(p@),
                None => None,
            },
            max_visible_chars,
        ),
{
    let ghost ph = match placeholder {
        Some(p) => Some(p@),
        None => None::<Seq<char>>,
    };
    proof {
        reveal_strlit("…");
        reveal_strlit(" ");
        reveal_strlit("[");
        reveal_strlit("]");
    }
    let show_placeholder = !focused && value.is_empty() && placeholder.is_some();
    let mut inner = String::new();
    if show_placeholder {
        match placeholder {
            Some(p) => inner.append(p),
            None => {},
        }
    } else if max_visible_chars > 0 && value.unicode_len() > max_visible_chars as usize {
        // Tail-truncate so the cursor (typically at the end while typing)
        // stays visible.
        let n = value.unicode_len();
        let take = max_visible_chars as usize - 1;
        let tail = value.substring_char(n - take, n);
        inner.append("…");
        inner.append(tail);
    } else {
        inner.append(value);
    }
    assert(inner@ =~= input_inner(value@, focused, ph, max_visible_chars));
    proof {
        lemma_input_text_len(label@, inner@);
        crate::text::lemma_utf8_len_concat(input_label(label@), seq!['[']);
    }
    let mut text = String::new();
    if !label.is_empty() {
        text.append(label);
        text.append(" ");
    }
    assert(text@ =~= input_label(label@));
    text.append("[");
    assert(text@ == input_label(label@) + seq!['[']);
    let inner_byte_start = text.as_str().len();
    proof {
        assert(utf8_len(text@) == utf8_len(input_label(label@)) + 1) by {
            assert(utf8_len(seq!['[']) == 1) by {
                reveal_with_fuel(vstd::utf8::encode_utf8, 2);
            }
        }
        assert(inner_byte_start == utf8_len(input_label(label@)) + 1);
        assert(utf8_len(seq!['[']) == 1) by {
            reveal_with_fuel(vstd::utf8::encode_utf8, 2);
        }
        crate::text::lemma_utf8_len_concat(input_label(label@) + seq!['['], inner@);
    }
    text.append(inner.as_str());
    assert(text@ == input_label(label@) + seq!['['] + inner@);
    let inner_byte_end = text.as_str().len();
    proof {
        assert(utf8_len(seq![']']) == 1) by {
            reveal_with_fuel(vstd::utf8::encode_utf8, 2);
        }
        crate::text::lemma_utf8_len_concat(input_label(label@) + seq!['['] + inner@, seq![']']);
        assert(utf8_len(text@) == inner_byte_start + utf8_len(inner@));
        assert(utf8_len(text@) + 1 <= isize::MAX);
    }
    text.append("]");
    let bracket_close_byte = text.as_str().len();
    assert(text@ =~= input_text(label@, inner@));
    let mut overlays: Vec<InlineOverlay> = Vec::new();
    // Placeholder text: muted theme key, no other styling.
    if show_placeholder {
        let style = style_of(Some(OverlayColorSpec::theme_key(KEY_PLACEHOLDER_FG)), None, false);
        overlays.push(make_overlay(inner_byte_start, inner_byte_end, style));
    }
    // Focused: input background across the bracketed region, excluding the
    // brackets themselves, so the field reads as its own surface.
    if focused {
        let style = style_of(None, Some(OverlayColorSpec::theme_key(KEY_INPUT_BG)), false);
        overlays.push(make_overlay(inner_byte_start, inner_byte_end, style));
    }
    // Cursor: a one-character span at the cursor byte position inside the
    // shown value; at or past its end, the closing bracket.
    if cursor_byte >= 0 && !show_placeholder {
        let cb = cursor_byte as usize;
        let inner_len = inner.as_str().len();
        assert(inner_byte_start + inner_len == inner_byte_end);
        assert(inner_byte_end < bracket_close_byte);
        let (start_byte, end_byte) = if cb >= inner_len {
            (bracket_close_byte - 1, bracket_close_byte)
        } else {
            let mut next = cb + 1;
            while next < inner_len && !inner.as_str().is_char_boundary(next)
                invariant
                    cb < next <= inner_len,
                    inner_len == utf8_len(inner@),
                    next_char_boundary(vstd::utf8::encode_utf8(inner@), cb + 1)
                        == next_char_boundary(vstd::utf8::encode_utf8(inner@), next as int),
                decreases inner_len - next,
            {
                next += 1;
            }
            (inner_byte_start + cb, inner_byte_start + next)
        };
        let style = style_of(None, Some(OverlayColorSpec::theme_key(KEY_CURSOR_BG)), false);
        overlays.push(make_overlay(start_byte, end_byte, style));
    }
    let res = make_entry(text, overlays);
    assert(res@.overlays =~= text_input_model(
        value@,
        cursor_byte,
        focused,
        label@,
        ph,
        max_visible_chars,
    ).overlays);
    res
}

// ---------------------------------------------------------------------------
// The widget tree
// ---------------------------------------------------------------------------

/// What rendering a widget produces: its lines, the hit areas on them (as if
/// the widget were rendered at row 0), the state writes of its keyed widgets
/// in order, and whether rendering stays within the machine's limits (no
/// row or byte offset overflows, no line grows past `isize::MAX` bytes).
pub struct Rendered {
    pub entries: Seq<EntryModel>,
    pub hits: Seq<HitModel>,
    pub writes: Seq<(Seq<char>, WidgetInstanceState)>,
    pub ok: bool,
}

/// Nothing rendered.
pub open spec fn nothing_rendered() -> Rendered {
    Rendered { entries: seq![], hits: seq![], writes: seq![], ok: true }
}

/// The key of a widget, or the empty key.
pub open spec fn key_or_empty(key: Option<String>) -> Seq<char> {
    match key {
        Some(k) => k@,
        None => seq![],
    }
}

/// A hit area over the first `end` bytes of row `row`.
pub open spec fn widget_hit(
    key: Seq<char>,
    kind: Seq<char>,
    row: u32,
    end: usize,
    payload: PayloadModel,
    event: Seq<char>,
) -> HitModel {
    HitModel {
        widget_key: key,
        widget_kind: kind,
        buffer_row: row,
        byte_start: 0,
        byte_end: end,
        payload,
        event_type: event,
    }
}

/// `h` moved `shift` bytes to the right.
pub open spec fn shift_hit_bytes(h: HitModel, shift: int) -> HitModel {
    HitModel {
        byte_start: (h.byte_start + shift) as usize,
        byte_end: (h.byte_end + shift) as usize,
        ..h
    }
}

/// `h` moved `rows` rows down.
pub open spec fn shift_hit_row(h: HitModel, rows: u32) -> HitModel {
    HitModel { buffer_row: (h.buffer_row + rows) as u32, ..h }
}

/// Moving the hits `shift` bytes to the right stays within `usize`.
pub open spec fn hit_bytes_fit(hs: Seq<HitModel>, shift: int) -> bool {
    forall|k: int|
        0 <= k < hs.len() ==> (#[trigger] hs[k]).byte_start + shift <= usize::MAX && hs[k].byte_end
            + shift <= usize::MAX
}

/// Moving the hits `rows` rows down stays within `u32`.
pub open spec fn hit_rows_fit(hs: Seq<HitModel>, rows: u32) -> bool {
    forall|k: int| 0 <= k < hs.len() ==> (#[trigger] hs[k]).buffer_row + rows <= u32::MAX
}

/// A row of `n` spaces.
pub open spec fn spaces(n: nat) -> Seq<char> {
    Seq::new(n, |i: int| ' ')
}

/// The rendered spacer: `min(cols, 4096)` spaces.
pub open spec fn spacer_model(cols: u32) -> EntryModel {
    crate::widgets::plain_entry(spaces(if cols < 4096 { cols as nat } else { 4096 }))
}

/// The scroll offset a list had at the previous render (0 without a key or
/// a previous state).
pub open spec fn previous_scroll(key: Option<String>, prev: Map<Seq<char>, WidgetInstanceState>) -> u32 {
    match key {
        Some(k) => if prev.contains_key(k@) {
            match prev[k@] {
                WidgetInstanceState::List { scroll_offset } => scroll_offset,
            }
        } else {
            0
        },
        None => 0,
    }
}

/// The number of rows a list shows: `visible_rows`, but at least one.
pub open spec fn list_visible(visible_rows: u32) -> u32 {
    if visible_rows > 1 {
        visible_rows
    } else {
        1
    }
}

/// The scroll offset after moving a selected item into view (before the
/// offset is clamped to the dataset).
pub open spec fn scroll_to_selection(prev_scroll: u32, selected: i32, visible: u32) -> u32 {
    if selected >= 0 {
        let sel = selected as u32;
        let s1 = if sel < prev_scroll {
            sel
        } else {
            prev_scroll
        };
        if sel >= s1 + visible {
            (sel + 1 - visible) as u32
        } else {
            s1
        }
    } else {
        prev_scroll
    }
}

/// Moving the selection into view stays within `u32`.
pub open spec fn scroll_fits(prev_scroll: u32, selected: i32, visible: u32) -> bool {
    selected >= 0 ==> (if (selected as u32) < prev_scroll {
        selected as u32
    } else {
        prev_scroll
    }) + visible <= u32::MAX
}

/// The scroll offset of a list of `n_items` items (counted in `u32`): the
/// selection is moved into view, then the offset is clamped so that the
/// window does not extend past the items (when there are more items than
/// rows) and never goes below zero.
pub open spec fn list_scroll(n_items: nat, prev_scroll: u32, selected: i32, visible_rows: u32) -> u32 {
    let total = n_items as u32;
    let visible = list_visible(visible_rows);
    let s = scroll_to_selection(prev_scroll, selected, visible);
    let max_scroll = if total > visible {
        (total - visible) as u32
    } else {
        0
    };
    if s > max_scroll {
        max_scroll
    } else {
        s
    }
}

/// Item `i` of a list as it is shown: the selected item gets the focused
/// background, extended to the end of the line.
pub open spec fn list_item_model(item: EntryModel, selected: bool) -> EntryModel {
    if selected {
        let base = match item.style {
            Some(s) => s,
            None => plain_style(),
        };
        EntryModel {
            style: Some(
                StyleModel {
                    bg: Some(ColorModel::ThemeKey(KEY_FOCUSED_BG@)),
                    extend_to_line_end: true,
                    ..base
                },
            ),
            ..item
        }
    } else {
        item
    }
}

/// The key of item `i`, or the empty key when there are fewer keys.
pub open spec fn item_key(item_keys: Seq<Seq<char>>, i: int) -> Seq<char> {
    if i < item_keys.len() {
        item_keys[i]
    } else {
        seq![]
    }
}

/// The rendered list: the items of the visible window, one line and one hit
/// area each (reporting the item's absolute index and key), and the scroll
/// offset written back under the list's key.
pub open spec fn list_model(
    items: Seq<EntryModel>,
    item_keys: Seq<Seq<char>>,
    selected: i32,
    visible_rows: u32,
    key: Option<String>,
    prev: Map<Seq<char>, WidgetInstanceState>,
) -> Rendered {
    let prev_scroll = previous_scroll(key, prev);
    let scroll = list_scroll(items.len(), prev_scroll, selected, visible_rows);
    let start = scroll as int;
    let reach = scroll + list_visible(visible_rows);
    let end = if reach < items.len() {
        reach
    } else {
        items.len() as int
    };
    let n = if end > start {
        (end - start) as nat
    } else {
        0
    };
    Rendered {
        entries: Seq::new(
            n,
            |j: int| list_item_model(items[start + j], (start + j) as i32 == selected),
        ),
        hits: Seq::new(
            n,
            |j: int|
                widget_hit(
                    item_key(item_keys, start + j),
                    "list"@,
                    j as u32,
                    byte_len(items[start + j].text),
                    PayloadModel::Select {
                        index: (start + j) as i64,
                        key: item_key(item_keys, start + j),
                    },
                    "select"@,
                ),
        ),
        writes: match key {
            Some(k) => seq![(k@, WidgetInstanceState::List { scroll_offset: scroll })],
            None => seq![],
        },
        ok: scroll_fits(prev_scroll, selected, list_visible(visible_rows)),
    }
}

/// A row being laid out: what is already emitted, and the line that inline
/// children are being merged into.
pub struct RowState {
    pub out: Rendered,
    pub acc: Option<EntryModel>,
}

/// Lay out one more child of a row. A child without lines changes nothing
/// (but its state writes). A one-line child is merged into the current
/// line, its hit areas moved past the text merged so far and onto the row
/// where that line lands (below the lines emitted so far). A multi-line
/// child ends the current line and is emitted as a block, its hit areas
/// moved down by the lines emitted before it.
pub open spec fn row_step(st: RowState, r: Rendered) -> RowState {
    let writes = st.out.writes + r.writes;
    if r.entries.len() == 0 {
        RowState {
            out: Rendered {
                entries: st.out.entries,
                hits: st.out.hits,
                writes,
                ok: st.out.ok && r.ok,
            },
            acc: st.acc,
        }
    } else if r.entries.len() == 1 {
        let child = r.entries[0];
        let shift: int = match st.acc {
            Some(e) => byte_len(e.text) as int,
            None => 0,
        };
        let rows = st.out.entries.len() as u32;
        let fits = hit_bytes_fit(r.hits, shift) && hit_rows_fit(r.hits, rows) && match st.acc {
            Some(e) => utf8_len(e.text) + utf8_len(child.text) <= isize::MAX && overlays_fit(
                child.overlays,
                shift,
            ),
            None => true,
        };
        RowState {
            out: Rendered {
                entries: st.out.entries,
                hits: st.out.hits + r.hits.map_values(
                    |h: HitModel| shift_hit_row(shift_hit_bytes(h, shift), rows),
                ),
                writes,
                ok: st.out.ok && r.ok && fits,
            },
            acc: Some(
                match st.acc {
                    Some(e) => merge_model(e, child),
                    None => child,
                },
            ),
        }
    } else {
        let flushed = match st.acc {
            Some(e) => st.out.entries.push(e),
            None => st.out.entries,
        };
        let rows = flushed.len() as u32;
        RowState {
            out: Rendered {
                entries: flushed + r.entries,
                hits: st.out.hits + r.hits.map_values(|h: HitModel| shift_hit_row(h, rows)),
                writes,
                ok: st.out.ok && r.ok && hit_rows_fit(r.hits, rows),
            },
            acc: None,
        }
    }
}

/// Lay out the children `cs` of a row, in order.
pub open spec fn row_fold(cs: Seq<WidgetSpec>, prev: Map<Seq<char>, WidgetInstanceState>) -> RowState
    decreases cs,
{
    if cs.len() == 0 {
        RowState { out: nothing_rendered(), acc: None }
    } else {
        row_step(row_fold(cs.drop_last(), prev), render(cs.last(), prev))
    }
}

/// The finished row: the current line, if any, is emitted last.
pub open spec fn row_finish(st: RowState) -> Rendered {
    Rendered {
        entries: match st.acc {
            Some(e) => st.out.entries.push(e),
            None => st.out.entries,
        },
        ..st.out
    }
}

/// Stack one more child under a column: its lines follow, its hit areas
/// moved down by the lines before it.
pub open spec fn col_step(out: Rendered, r: Rendered) -> Rendered {
    let rows = out.entries.len() as u32;
    Rendered {
        entries: out.entries + r.entries,
        hits: out.hits + r.hits.map_values(|h: HitModel| shift_hit_row(h, rows)),
        writes: out.writes + r.writes,
        ok: out.ok && r.ok && hit_rows_fit(r.hits, rows),
    }
}

/// Stack the children `cs` of a column, in order.
pub open spec fn col_fold(cs: Seq<WidgetSpec>, prev: Map<Seq<char>, WidgetInstanceState>) -> Rendered
    decreases cs,
{
    if cs.len() == 0 {
        nothing_rendered()
    } else {
        col_step(col_fold(cs.drop_last(), prev), render(cs.last(), prev))
    }
}

/// One line and its hit areas.
pub open spec fn one_line(e: EntryModel, hits: Seq<HitModel>, ok: bool) -> Rendered {
    Rendered { entries: seq![e], hits, writes: seq![], ok }
}

/// The model of an optional string.
pub open spec fn opt_str(s: Option<String>) -> Option<Seq<char>> {
    match s {
        Some(s) => Some(s@),
        None => None,
    }
}

/// What rendering the widget `w` produces, given the previous render's
/// state `prev`.
pub open spec fn render(w: WidgetSpec, prev: Map<Seq<char>, WidgetInstanceState>) -> Rendered
    decreases w,
{
    match w {
        WidgetSpec::Row { children, .. } => row_finish(row_fold(children@, prev)),
        WidgetSpec::Col { children, .. } => col_fold(children@, prev),
        WidgetSpec::HintBar { entries, .. } => one_line(
            hint_bar_model(entries@),
            seq![],
            utf8_len(hint_text(entries@)) <= isize::MAX,
        ),
        WidgetSpec::Toggle { checked, label, focused, key } => {
            let e = toggle_model(checked, label@, focused);
            one_line(
                e,
                seq![
                    widget_hit(
                        key_or_empty(key),
                        "toggle"@,
                        0,
                        byte_len(e.text),
                        PayloadModel::Toggle { checked: !checked },
                        "toggle"@,
                    ),
                ],
                utf8_len(label@) + 4 <= isize::MAX,
            )
        },
        WidgetSpec::Button { label, focused, intent, key } => {
            let e = button_model(label@, focused, intent);
            one_line(
                e,
                seq![
                    widget_hit(
                        key_or_empty(key),
                        "button"@,
                        0,
                        byte_len(e.text),
                        PayloadModel::Activate,
                        "activate"@,
                    ),
                ],
                utf8_len(label@) + 4 <= isize::MAX,
            )
        },
        WidgetSpec::Spacer { cols, .. } => one_line(spacer_model(cols), seq![], true),
        WidgetSpec::List { items, item_keys, selected_index, visible_rows, key } => list_model(
            entries_model(items@),
            crate::text::string_views(item_keys@),
            selected_index,
            visible_rows,
            key,
            prev,
        ),
        WidgetSpec::TextInput {
            value,
            cursor_byte,
            focused,
            label,
            placeholder,
            max_visible_chars,
            ..
        } => one_line(
            text_input_model(
                value@,
                cursor_byte,
                focused,
                label@,
                opt_str(placeholder),
                max_visible_chars,
            ),
            seq![],
            utf8_len(
                input_text(
                    label@,
                    input_inner(value@, focused, opt_str(placeholder), max_visible_chars),
                ),
            ) <= isize::MAX,
        ),
        WidgetSpec::Raw { entries, .. } => Rendered {
            entries: entries_model(entries@),
            hits: seq![],
            writes: seq![],
            ok: true,
        },
    }
}

/// The state left behind by applying the writes `ws` to `m`, in order.
pub open spec fn apply_writes(
    m: Map<Seq<char>, WidgetInstanceState>,
    ws: Seq<(Seq<char>, WidgetInstanceState)>,
) -> Map<Seq<char>, WidgetInstanceState>
    decreases ws.len(),
{
    if ws.len() == 0 {
        m
    } else {
        apply_writes(m, ws.drop_last()).insert(ws.last().0, ws.last().1)
    }
}

/// Applying two runs of writes is applying them one after the other.
pub proof fn lemma_apply_writes_concat(
    m: Map<Seq<char>, WidgetInstanceState>,
    a: Seq<(Seq<char>, WidgetInstanceState)>,
    b: Seq<(Seq<char>, WidgetInstanceState)>,
)
    ensures
        apply_writes(m, a + b) == apply_writes(apply_writes(m, a), b),
    decreases b.len(),
{
    if b.len() == 0 {
        assert(a + b =~= a);
    } else {
        assert((a + b).drop_last() =~= a + b.drop_last());
        lemma_apply_writes_concat(m, a, b.drop_last());
    }
}

/// A hit area that is about to be overwritten: empty key, kind and event,
/// an empty byte range at row 0, and the activation payload.
fn placeholder_hit() -> (res: HitArea)
    ensures
        res@ == (HitModel {
            widget_key: seq![],
            widget_kind: ""@,
            buffer_row: 0,
            byte_start: 0,
            byte_end: 0,
            payload: PayloadModel::Activate,
            event_type: ""@,
        }),
{
    HitArea {
        widget_key: String::new(),
        widget_kind: "",
        buffer_row: 0,
        byte_start: 0,
        byte_end: 0,
        payload: HitPayload::Activate,
        event_type: "",
    }
}

/// Move every hit area `shift` bytes to the right.
fn shift_hits_bytes(hits: Vec<HitArea>, shift: usize) -> (res: Vec<HitArea>)
    requires
        hit_bytes_fit(hits_model(hits@), shift as int),
    ensures
        hits_model(res@) == hits_model(hits@).map_values(
            |h: HitModel| shift_hit_bytes(h, shift as int),
        ),
{
    let ghost orig = hits_model(hits@);
    let mut v = hits;
    let mut i: usize = 0;
    while i < v.len()
        invariant
            i <= v.len(),
            v.len() == orig.len(),
            hit_bytes_fit(orig, shift as int),
            forall|k: int| 0 <= k < i ==> (#[trigger] v@[k])@ == shift_hit_bytes(orig[k], shift as int),
            forall|k: int| i <= k < v.len() ==> (#[trigger] v@[k])@ == orig[k],
        decreases v.len() - i,
    {
        let mut h = placeholder_hit();
        v.set_and_swap(i, &mut h);
        assert(h@ == orig[i as int]);
        h.byte_start = h.byte_start + shift;
        h.byte_end = h.byte_end + shift;
        v.set(i, h);
        i += 1;
    }
    assert(hits_model(v@) =~= orig.map_values(|h: HitModel| shift_hit_bytes(h, shift as int)));
    v
}

/// Move every hit area `rows` rows down.
fn shift_hits_rows(hits: Vec<HitArea>, rows: u32) -> (res: Vec<HitArea>)
    requires
        hit_rows_fit(hits_model(hits@), rows),
    ensures
        hits_model(res@) == hits_model(hits@).map_values(|h: HitModel| shift_hit_row(h, rows)),
{
    let ghost orig = hits_model(hits@);
    let mut v = hits;
    let mut i: usize = 0;
    while i < v.len()
        invariant
            i <= v.len(),
            v.len() == orig.len(),
            hit_rows_fit(orig, rows),
            forall|k: int| 0 <= k < i ==> (#[trigger] v@[k])@ == shift_hit_row(orig[k], rows),
            forall|k: int| i <= k < v.len() ==> (#[trigger] v@[k])@ == orig[k],
        decreases v.len() - i,
    {
        let mut h = placeholder_hit();
        v.set_and_swap(i, &mut h);
        assert(h@ == orig[i as int]);
        h.buffer_row = h.buffer_row + rows;
        v.set(i, h);
        i += 1;
    }
    assert(hits_model(v@) =~= orig.map_values(|h: HitModel| shift_hit_row(h, rows)));
    v
}

/// Render a spacer: `min(cols, 4096)` spaces.
fn render_spacer(cols: u32) -> (res: TextPropertyEntry)
    ensures
        res@ == spacer_model(cols),
{
    let n: usize = if cols < 4096 {
        cols as usize
    } else {
        4096
    };
    let mut text = String::new();
    let mut i: usize = 0;
    proof {
        reveal_strlit(" ");
    }
    while i < n
        invariant
            i <= n,
            text@ == spaces(i as nat),
            " "@ == seq![' '],
        decreases n - i,
    {
        text.append(" ");
        assert(text@ =~= spaces((i + 1) as nat));
        i += 1;
    }
    let res = TextPropertyEntry { text, properties: Vec::new(), style: None, inline_overlays: Vec::new() };
    assert(res@.properties =~= seq![]);
    assert(res@.overlays =~= seq![]);
    res
}

/// Render the visible window of a list, persisting its scroll offset under
/// its key.
///
/// The scroll offset comes from the previous state (or 0), then is clamped
/// so that the selected item is in view, the window does not extend past
/// the items when there are more of them than rows, and it never goes
/// negative. Each visible item gets one line and one hit area whose payload
/// holds the item's absolute index and key.
fn render_list(
    items: &Vec<TextPropertyEntry>,
    item_keys: &Vec<String>,
    selected_index: i32,
    visible_rows: u32,
    list_key: &Option<String>,
    prev: &InstanceStates,
    next_state: &mut InstanceStates,
) -> (res: (Vec<TextPropertyEntry>, Vec<HitArea>))
    requires
        list_model(
            entries_model(items@),
            crate::text::string_views(item_keys@),
            selected_index,
            visible_rows,
            *list_key,
            prev@,
        ).ok,
    ensures
        ({
            let r = list_model(
                entries_model(items@),
                crate::text::string_views(item_keys@),
                selected_index,
                visible_rows,
                *list_key,
                prev@,
            );
            &&& entries_model(res.0@) == r.entries
            &&& hits_model(res.1@) == r.hits
            &&& final(next_state)@ == apply_writes(old(next_state)@, r.writes)
        }),
{
    let ghost r = list_model(
        entries_model(items@),
        crate::text::string_views(item_keys@),
        selected_index,
        visible_rows,
        *list_key,
        prev@,
    );
    let total = items.len() as u32;
    let visible = if visible_rows > 1 {
        visible_rows
    } else {
        1
    };
    let prev_scroll = match list_key {
        Some(k) => match prev.get(k.as_str()) {
            Some(WidgetInstanceState::List { scroll_offset }) => *scroll_offset,
            None => 0,
        },
        None => 0,
    };
    assert(prev_scroll == previous_scroll(*list_key, prev@));
    let mut scroll = prev_scroll;
    if selected_index >= 0 {
        let sel = selected_index as u32;
        if sel < scroll {
            scroll = sel;
        }
        if sel >= scroll + visible {
            scroll = sel + 1 - visible;
        }
    }
    let max_scroll = total.saturating_sub(visible);
    if scroll > max_scroll {
        scroll = max_scroll;
    }
    assert(scroll == list_scroll(items@.len(), prev_scroll, selected_index, visible_rows));
    match list_key {
        Some(k) => next_state.insert(k.clone(), WidgetInstanceState::List { scroll_offset: scroll }),
        None => {},
    }
    proof {
        let ws = r.writes;
        let lk = *list_key;
        match lk {
            Some(k) => {
                assert(ws == seq![(k@, WidgetInstanceState::List { scroll_offset: scroll })]);
                assert(ws.drop_last() =~= seq![]);
                assert(apply_writes(old(next_state)@, ws.drop_last()) == old(next_state)@);
                assert(ws.last() == (k@, WidgetInstanceState::List { scroll_offset: scroll }));
                assert(apply_writes(old(next_state)@, ws) == old(next_state)@.insert(
                    k@,
                    WidgetInstanceState::List { scroll_offset: scroll },
                ));
            },
            None => {
                assert(ws =~= seq![]);
            },
        }
    }
    let ghost ns = next_state@;
    assert(ns == apply_writes(old(next_state)@, r.writes));
    let start = scroll as usize;
    let reach = (scroll + visible) as usize;
    let end = if reach < items.len() {
        reach
    } else {
        items.len()
    };
    let mut entries: Vec<TextPropertyEntry> = Vec::new();
    let mut hits: Vec<HitArea> = Vec::new();
    let mut i = start;
    while i < end
        invariant
            start <= i <= end || end < start,
            end <= items.len(),
            start == scroll as usize,
            r == list_model(
                entries_model(items@),
                crate::text::string_views(item_keys@),
                selected_index,
                visible_rows,
                *list_key,
                prev@,
            ),
            start as int == scroll as int,
            end as int == (if (scroll + list_visible(visible_rows)) < items@.len() {
                scroll + list_visible(visible_rows)
            } else {
                items@.len() as int
            }),
            scroll == list_scroll(items@.len(), previous_scroll(*list_key, prev@), selected_index, visible_rows),
            entries@.len() == i - start,
            hits@.len() == i - start,
            next_state@ == ns,
            forall|j: int| 0 <= j < i - start ==> (#[trigger] entries@[j])@ == r.entries[j],
            forall|j: int| 0 <= j < i - start ==> (#[trigger] hits@[j])@ == r.hits[j],
        decreases end - i,
    {
        let mut entry = items[i].clone();
        let is_selected = #[verifier::truncate] (i as i32) == selected_index;
        if is_selected {
            let mut style = match &entry.style {
                Some(st) => st.clone(),
                None => OverlayOptions::default(),
            };
            style.bg = Some(OverlayColorSpec::theme_key(KEY_FOCUSED_BG));
            style.extend_to_line_end = true;
            entry.style = Some(style);
        }
        let byte_end = entry.text.as_str().len();
        entries.push(entry);
        let item_key = if i < item_keys.len() {
            item_keys[i].clone()
        } else {
            String::new()
        };
        let hit_row = (entries.len() - 1) as u32;
        let widget_key = item_key.clone();
        hits.push(
            HitArea {
                widget_key,
                widget_kind: "list",
                buffer_row: hit_row,
                byte_start: 0,
                byte_end,
                payload: HitPayload::Select { index: i as i64, key: item_key },
                event_type: "select",
            },
        );
        proof {
            let j = i - start;
            assert(entries@[j as int]@ == r.entries[j as int]);
            assert(hits@[j as int]@ == r.hits[j as int]);
        }
        i += 1;
    }
    proof {
        assert(entries_model(entries@) =~= r.entries);
        assert(hits_model(hits@) =~= r.hits);
    }
    (entries, hits)
}

/// A row that renders within limits also did so after fewer children.
proof fn lemma_row_fold_ok(cs: Seq<WidgetSpec>, prev: Map<Seq<char>, WidgetInstanceState>, i: int)
    requires
        0 <= i <= cs.len(),
        row_fold(cs, prev).out.ok,
    ensures
        row_fold(cs.take(i), prev).out.ok,
    decreases cs.len() - i,
{
    if i < cs.len() {
        lemma_row_fold_ok(cs, prev, i + 1);
        assert(cs.take(i + 1).drop_last() =~= cs.take(i));
    } else {
        assert(cs.take(i) =~= cs);
    }
}

/// A column that renders within limits also did so after fewer children.
proof fn lemma_col_fold_ok(cs: Seq<WidgetSpec>, prev: Map<Seq<char>, WidgetInstanceState>, i: int)
    requires
        0 <= i <= cs.len(),
        col_fold(cs, prev).ok,
    ensures
        col_fold(cs.take(i), prev).ok,
    decreases cs.len() - i,
{
    if i < cs.len() {
        lemma_col_fold_ok(cs, prev, i + 1);
        assert(cs.take(i + 1).drop_last() =~= cs.take(i));
    } else {
        assert(cs.take(i) =~= cs);
    }
}

/// The model of the line a row is merging into.
pub open spec fn acc_model(acc: Option<TextPropertyEntry>) -> Option<EntryModel> {
    match acc {
        Some(e) => Some(e@),
        None => None,
    }
}

/// Lay out the children of a row left to right. Consecutive one-line
/// children collapse into a single line; children of several lines end the
/// current line and pass through as a block.
fn render_row(children: &Vec<WidgetSpec>, prev: &InstanceStates, next_state: &mut InstanceStates) -> (res: (
    Vec<TextPropertyEntry>,
    Vec<HitArea>,
))
    requires
        row_fold(children@, prev@).out.ok,
    ensures
        entries_model(res.0@) == row_finish(row_fold(children@, prev@)).entries,
        hits_model(res.1@) == row_fold(children@, prev@).out.hits,
        final(next_state)@ == apply_writes(old(next_state)@, row_fold(children@, prev@).out.writes),
    decreases children@,
{
    let mut entries: Vec<TextPropertyEntry> = Vec::new();
    let mut hits: Vec<HitArea> = Vec::new();
    let mut acc: Option<TextPropertyEntry> = None;
    let ghost ns0 = next_state@;
    let mut i: usize = 0;
    while i < children.len()
        invariant
            i <= children.len(),
            row_fold(children@, prev@).out.ok,
            entries_model(entries@) == row_fold(children@.take(i as int), prev@).out.entries,
            hits_model(hits@) == row_fold(children@.take(i as int), prev@).out.hits,
            acc_model(acc) == row_fold(children@.take(i as int), prev@).acc,
            next_state@ == apply_writes(ns0, row_fold(children@.take(i as int), prev@).out.writes),
        decreases children.len() - i,
    {
        let ghost st = row_fold(children@.take(i as int), prev@);
        let ghost r = render(children@[i as int], prev@);
        proof {
            lemma_row_fold_ok(children@, prev@, i + 1);
            assert(children@.take(i + 1).drop_last() =~= children@.take(i as int));
            assert(row_fold(children@.take(i + 1), prev@) == row_step(st, r));
            lemma_apply_writes_concat(ns0, st.out.writes, r.writes);
            assert(decreases_to!(children@ => children@[i as int]));
        }
        let (child_entries, child_hits) = render_collected(&children[i], prev, next_state);
        if child_entries.len() == 0 {
            // A child without lines has no hit areas either.
        } else if child_entries.len() == 1 {
            let mut ce = child_entries;
            let mut child_entry = ce.pop().unwrap();
            let shift = match &acc {
                Some(e) => e.text.as_str().len(),
                None => 0,
            };
            // The child's line joins the line being merged, which lands
            // below the lines emitted so far.
            let row_offset = entries.len() as u32;
            let ghost child_model = hits_model(child_hits@);
            let moved = shift_hits_bytes(child_hits, shift);
            proof {
                assert forall|k: int| 0 <= k < hits_model(moved@).len() implies (#[trigger] hits_model(
                    moved@,
                )[k]).buffer_row + row_offset <= u32::MAX by {
                    assert(hits_model(moved@)[k].buffer_row == child_model[k].buffer_row);
                }
            }
            let mut shifted = shift_hits_rows(moved, row_offset);
            proof {
                assert(hits_model(shifted@) =~= child_model.map_values(
                    |h: HitModel| shift_hit_row(shift_hit_bytes(h, shift as int), row_offset),
                ));
            }
            hits.append(&mut shifted);
            acc = match acc {
                Some(mut merged) => {
                    merge_inline(&mut merged, &mut child_entry);
                    Some(merged)
                },
                None => Some(child_entry),
            };
            proof {
                assert(hits_model(hits@) =~= row_step(st, r).out.hits);
            }
        } else {
            match acc {
                Some(merged) => entries.push(merged),
                None => {},
            }
            acc = None;
            let row_offset = entries.len() as u32;
            let mut shifted = shift_hits_rows(child_hits, row_offset);
            hits.append(&mut shifted);
            let mut ce = child_entries;
            entries.append(&mut ce);
            proof {
                assert(hits_model(hits@) =~= row_step(st, r).out.hits);
                assert(entries_model(entries@) =~= row_step(st, r).out.entries);
            }
        }
        i += 1;
    }
    assert(children@.take(children.len() as int) =~= children@);
    match acc {
        Some(merged) => entries.push(merged),
        None => {},
    }
    assert(entries_model(entries@) =~= row_finish(row_fold(children@, prev@)).entries);
    (entries, hits)
}

/// Stack the children of a column top to bottom.
fn render_col(children: &Vec<WidgetSpec>, prev: &InstanceStates, next_state: &mut InstanceStates) -> (res: (
    Vec<TextPropertyEntry>,
    Vec<HitArea>,
))
    requires
        col_fold(children@, prev@).ok,
    ensures
        entries_model(res.0@) == col_fold(children@, prev@).entries,
        hits_model(res.1@) == col_fold(children@, prev@).hits,
        final(next_state)@ == apply_writes(old(next_state)@, col_fold(children@, prev@).writes),
    decreases children@,
{
    let mut entries: Vec<TextPropertyEntry> = Vec::new();
    let mut hits: Vec<HitArea> = Vec::new();
    let ghost ns0 = next_state@;
    let mut i: usize = 0;
    while i < children.len()
        invariant
            i <= children.len(),
            col_fold(children@, prev@).ok,
            entries_model(entries@) == col_fold(children@.take(i as int), prev@).entries,
            hits_model(hits@) == col_fold(children@.take(i as int), prev@).hits,
            next_state@ == apply_writes(ns0, col_fold(children@.take(i as int), prev@).writes),
        decreases children.len() - i,
    {
        let ghost out = col_fold(children@.take(i as int), prev@);
        let ghost r = render(children@[i as int], prev@);
        proof {
            lemma_col_fold_ok(children@, prev@, i + 1);
            assert(children@.take(i + 1).drop_last() =~= children@.take(i as int));
            assert(col_fold(children@.take(i + 1), prev@) == col_step(out, r));
            lemma_apply_writes_concat(ns0, out.writes, r.writes);
            assert(decreases_to!(children@ => children@[i as int]));
        }
        let (child_entries, child_hits) = render_collected(&children[i], prev, next_state);
        let row_offset = entries.len() as u32;
        let mut shifted = shift_hits_rows(child_hits, row_offset);
        hits.append(&mut shifted);
        let mut ce = child_entries;
        entries.append(&mut ce);
        proof {
            assert(hits_model(hits@) =~= col_step(out, r).hits);
            assert(entries_model(entries@) =~= col_step(out, r).entries);
        }
        i += 1;
    }
    assert(children@.take(children.len() as int) =~= children@);
    (entries, hits)
}

/// Render a widget as if at row 0: its lines and hit areas; the state of
/// its keyed widgets is written to `next_state`, with `prev` as the
/// previous render's state.
fn render_collected(spec: &WidgetSpec, prev: &InstanceStates, next_state: &mut InstanceStates) -> (res: (
    Vec<TextPropertyEntry>,
    Vec<HitArea>,
))
    requires
        render(*spec, prev@).ok,
    ensures
        entries_model(res.0@) == render(*spec, prev@).entries,
        hits_model(res.1@) == render(*spec, prev@).hits,
        final(next_state)@ == apply_writes(old(next_state)@, render(*spec, prev@).writes),
    decreases spec,
{
    proof {
        assert(apply_writes(old(next_state)@, seq![]) == old(next_state)@);
    }
    match spec {
        WidgetSpec::Row { children, .. } => {
            proof {
                assert(decreases_to!(*spec => children@));
            }
            render_row(children, prev, next_state)
        },
        WidgetSpec::Col { children, .. } => {
            proof {
                assert(decreases_to!(*spec => children@));
            }
            render_col(children, prev, next_state)
        },
        WidgetSpec::HintBar { entries: hint_entries, .. } => {
            let mut entries = Vec::new();
            entries.push(render_hint_bar(hint_entries.as_slice()));
            // No hit areas: the hint bar is read-only.
            (entries, Vec::new())
        },
        WidgetSpec::Toggle { checked, label, focused, key } => {
            let entry = render_toggle(*checked, label.as_str(), *focused);
            let byte_end = entry.text.as_str().len();
            let widget_key = match key {
                Some(k) => k.clone(),
                None => String::new(),
            };
            let mut hits = Vec::new();
            hits.push(
                HitArea {
                    widget_key,
                    widget_kind: "toggle",
                    buffer_row: 0,
                    byte_start: 0,
                    byte_end,
                    payload: HitPayload::Toggle { checked: !*checked },
                    event_type: "toggle",
                },
            );
            let mut entries = Vec::new();
            entries.push(entry);
            (entries, hits)
        },
        WidgetSpec::Button { label, focused, intent, key } => {
            let entry = render_button(label.as_str(), *focused, *intent);
            let byte_end = entry.text.as_str().len();
            let widget_key = match key {
                Some(k) => k.clone(),
                None => String::new(),
            };
            let mut hits = Vec::new();
            hits.push(
                HitArea {
                    widget_key,
                    widget_kind: "button",
                    buffer_row: 0,
                    byte_start: 0,
                    byte_end,
                    payload: HitPayload::Activate,
                    event_type: "activate",
                },
            );
            let mut entries = Vec::new();
            entries.push(entry);
            (entries, hits)
        },
        WidgetSpec::Spacer { cols, .. } => {
            // One entry of spaces; no hit areas.
            let mut entries = Vec::new();
            entries.push(render_spacer(*cols));
            (entries, Vec::new())
        },
        WidgetSpec::List { items, item_keys, selected_index, visible_rows, key: list_key } => {
            render_list(items, item_keys, *selected_index, *visible_rows, list_key, prev, next_state)
        },
        WidgetSpec::TextInput {
            value,
            cursor_byte,
            focused,
            label,
            placeholder,
            max_visible_chars,
            ..
        } => {
            let ph = match placeholder {
                Some(p) => Some(p.as_str()),
                None => None,
            };
            let mut entries = Vec::new();
            entries.push(
                render_text_input(
                    value.as_str(),
                    *cursor_byte,
                    *focused,
                    label.as_str(),
                    ph,
                    *max_visible_chars,
                ),
            );
            // No hit area: placing the cursor on click needs key routing.
            (entries, Vec::new())
        },
        WidgetSpec::Raw { entries: raw_entries, .. } => {
            // The plugin's own entries flow through unchanged, without hit
            // areas.
            let mut entries = Vec::new();
            let mut i: usize = 0;
            while i < raw_entries.len()
                invariant
                    i <= raw_entries.len(),
                    entries_model(entries@) == entries_model(raw_entries@.take(i as int)),
                decreases raw_entries.len() - i,
            {
                let e = raw_entries[i].clone();
                let ghost before = entries@;
                entries.push(e);
                assert(raw_entries@.take(i + 1) =~= raw_entries@.take(i as int).push(raw_entries@[i as int]));
                assert(entries_model(entries@) =~= entries_model(before).push(e@));
                i += 1;
            }
            assert(raw_entries@.take(raw_entries.len() as int) =~= raw_entries@);
            (entries, Vec::new())
        },
    }
}

/// Render a widget tree to its lines, the click-routing hit areas on them,
/// and the state its keyed widgets keep for the next render.
///
/// `prev` is the previous render's state (or empty on first mount); list
/// scroll offsets are read from it and clamped against the current tree.
pub fn render_spec(spec: &WidgetSpec, prev: &InstanceStates) -> (res: (
    Vec<TextPropertyEntry>,
    Vec<HitArea>,
    InstanceStates,
))
    requires
        render(*spec, prev@).ok,
    ensures
        entries_model(res.0@) == render(*spec, prev@).entries,
        hits_model(res.1@) == render(*spec, prev@).hits,
        res.2@ == apply_writes(Map::empty(), render(*spec, prev@).writes),
{
    let mut next_state = InstanceStates::new();
    let (entries, hits) = render_collected(spec, prev, &mut next_state);
    (entries, hits, next_state)
}

/// A list shows as many rows as it can: `visible_rows` (at least one), or
/// all items when there are fewer — the window never extends past the
/// items and never leaves rows empty while items remain.
pub proof fn lemma_list_row_count(
    items: Seq<EntryModel>,
    item_keys: Seq<Seq<char>>,
    selected: i32,
    visible_rows: u32,
    key: Option<String>,
    prev: Map<Seq<char>, WidgetInstanceState>,
)
    requires
        items.len() <= u32::MAX,
    ensures
        list_model(items, item_keys, selected, visible_rows, key, prev).entries.len() == if items.len()
            < list_visible(visible_rows) {
            items.len() as int
        } else {
            list_visible(visible_rows) as int
        },
{
}

/// A selected item is always in view: the list's window holds it, and it
/// is shown with the selection style.
pub proof fn lemma_list_selection_visible(
    items: Seq<EntryModel>,
    item_keys: Seq<Seq<char>>,
    selected: i32,
    visible_rows: u32,
    key: Option<String>,
    prev: Map<Seq<char>, WidgetInstanceState>,
)
    requires
        0 <= selected < items.len(),
        items.len() <= u32::MAX,
        list_model(items, item_keys, selected, visible_rows, key, prev).ok,
    ensures
        ({
            let r = list_model(items, item_keys, selected, visible_rows, key, prev);
            let scroll = list_scroll(items.len(), previous_scroll(key, prev), selected, visible_rows);
            &&& scroll <= selected < scroll + r.entries.len()
            &&& r.entries[selected - scroll] == list_item_model(items[selected as int], true)
        }),
{
}

/// The number of lines a row has once its current line is emitted.
pub open spec fn row_lines(st: RowState) -> int {
    st.out.entries.len() + if st.acc is Some {
        1int
    } else {
        0int
    }
}

/// Every hit area of a rendered widget lies on one of its lines: no hit
/// points below the last line, and a widget without lines has no hits.
pub proof fn lemma_hits_on_lines(w: WidgetSpec, prev: Map<Seq<char>, WidgetInstanceState>)
    requires
        render(w, prev).ok,
        render(w, prev).entries.len() <= u32::MAX,
    ensures
        forall|k: int|
            0 <= k < render(w, prev).hits.len() ==> (#[trigger] render(w, prev).hits[k]).buffer_row
                < render(w, prev).entries.len(),
    decreases w,
{
    match w {
        WidgetSpec::Row { children, .. } => {
            lemma_row_hits(children@, prev);
        },
        WidgetSpec::Col { children, .. } => {
            lemma_col_hits(children@, prev);
        },
        _ => {},
    }
}

/// In a row being laid out, every hit area lies on an emitted line or on
/// the current one.
proof fn lemma_row_hits(cs: Seq<WidgetSpec>, prev: Map<Seq<char>, WidgetInstanceState>)
    requires
        row_fold(cs, prev).out.ok,
        row_lines(row_fold(cs, prev)) <= u32::MAX,
    ensures
        forall|k: int|
            0 <= k < row_fold(cs, prev).out.hits.len() ==> (#[trigger] row_fold(
                cs,
                prev,
            ).out.hits[k]).buffer_row < row_lines(row_fold(cs, prev)),
    decreases cs,
{
    if cs.len() > 0 {
        let st0 = row_fold(cs.drop_last(), prev);
        let r = render(cs.last(), prev);
        let st = row_fold(cs, prev);
        lemma_row_fold_ok(cs, prev, cs.len() - 1);
        assert(cs.take(cs.len() - 1) =~= cs.drop_last());
        lemma_row_hits(cs.drop_last(), prev);
        lemma_hits_on_lines(cs.last(), prev);
        let n0 = st0.out.hits.len();
        assert forall|k: int| 0 <= k < st.out.hits.len() implies (#[trigger] st.out.hits[k]).buffer_row
            < row_lines(st) by {
            if k < n0 {
                assert(st.out.hits[k] == st0.out.hits[k]);
            } else {
                if r.entries.len() == 1 {
                    let shift: int = match st0.acc {
                        Some(e) => byte_len(e.text) as int,
                        None => 0,
                    };
                    assert(st.out.hits[k] == shift_hit_row(
                        shift_hit_bytes(r.hits[k - n0], shift),
                        st0.out.entries.len() as u32,
                    ));
                } else {
                    assert(st.out.hits[k] == shift_hit_row(r.hits[k - n0], row_lines(st0) as u32));
                }
            }
        }
    }
}

/// In a column being stacked, every hit area lies on one of its lines.
proof fn lemma_col_hits(cs: Seq<WidgetSpec>, prev: Map<Seq<char>, WidgetInstanceState>)
    requires
        col_fold(cs, prev).ok,
        col_fold(cs, prev).entries.len() <= u32::MAX,
    ensures
        forall|k: int|
            0 <= k < col_fold(cs, prev).hits.len() ==> (#[trigger] col_fold(cs, prev).hits[k]).buffer_row
                < col_fold(cs, prev).entries.len(),
    decreases cs,
{
    if cs.len() > 0 {
        let out0 = col_fold(cs.drop_last(), prev);
        let r = render(cs.last(), prev);
        let out = col_fold(cs, prev);
        lemma_col_fold_ok(cs, prev, cs.len() - 1);
        assert(cs.take(cs.len() - 1) =~= cs.drop_last());
        lemma_col_hits(cs.drop_last(), prev);
        lemma_hits_on_lines(cs.last(), prev);
        let n0 = out0.hits.len();
        assert forall|k: int| 0 <= k < out.hits.len() implies (#[trigger] out.hits[k]).buffer_row
            < out.entries.len() by {
            if k < n0 {
                assert(out.hits[k] == out0.hits[k]);
            } else {
                assert(out.hits[k] == shift_hit_row(r.hits[k - n0], out0.entries.len() as u32));
            }
        }
    }
}

/// Scrolling is settled after one render: moving the selection into view
/// and clamping again, from the offset a render chose, keeps that offset.
pub proof fn lemma_list_scroll_settled(n: nat, prev_scroll: u32, selected: i32, visible_rows: u32)
    requires
        n <= u32::MAX,
        scroll_fits(prev_scroll, selected, list_visible(visible_rows)),
    ensures
        scroll_fits(
            list_scroll(n, prev_scroll, selected, visible_rows),
            selected,
            list_visible(visible_rows),
        ),
        list_scroll(n, list_scroll(n, prev_scroll, selected, visible_rows), selected, visible_rows)
            == list_scroll(n, prev_scroll, selected, visible_rows),
{
}

/// A keyed list rendered again with the scroll offset it wrote back shows
/// the same window: the same lines, hit areas and state write.
pub proof fn lemma_list_rerender_stable(
    items: Seq<EntryModel>,
    item_keys: Seq<Seq<char>>,
    selected: i32,
    visible_rows: u32,
    key: String,
    prev: Map<Seq<char>, WidgetInstanceState>,
    other: Map<Seq<char>, WidgetInstanceState>,
)
    requires
        items.len() <= u32::MAX,
        list_model(items, item_keys, selected, visible_rows, Some(key), prev).ok,
    ensures
        ({
            let r = list_model(items, item_keys, selected, visible_rows, Some(key), prev);
            list_model(items, item_keys, selected, visible_rows, Some(key), apply_writes(other, r.writes))
                == r
        }),
{
    let r = list_model(items, item_keys, selected, visible_rows, Some(key), prev);
    let p = previous_scroll(Some(key), prev);
    let scroll = list_scroll(items.len(), p, selected, visible_rows);
    lemma_list_scroll_settled(items.len(), p, selected, visible_rows);
    let next = apply_writes(other, r.writes);
    assert(r.writes.drop_last() =~= seq![]);
    assert(apply_writes(other, r.writes.drop_last()) == other);
    assert(r.writes.last() == (key@, WidgetInstanceState::List { scroll_offset: scroll }));
    assert(next == other.insert(key@, WidgetInstanceState::List { scroll_offset: scroll }));
    assert(previous_scroll(Some(key), next) == scroll);
}

/// The texts of the one-line renderings of `cs`, joined in order.
pub open spec fn joined_text(cs: Seq<WidgetSpec>, prev: Map<Seq<char>, WidgetInstanceState>) -> Seq<char>
    decreases cs.len(),
{
    if cs.len() == 0 {
        seq![]
    } else {
        joined_text(cs.drop_last(), prev) + render(cs.last(), prev).entries[0].text
    }
}

/// Laying out children that render to one line each emits nothing yet and
/// merges them all into the current line.
proof fn lemma_row_fold_inline(cs: Seq<WidgetSpec>, prev: Map<Seq<char>, WidgetInstanceState>)
    requires
        forall|i: int| 0 <= i < cs.len() ==> (#[trigger] render(cs[i], prev)).entries.len() == 1,
    ensures
        row_fold(cs, prev).out.entries.len() == 0,
        cs.len() > 0 ==> row_fold(cs, prev).acc is Some && row_fold(cs, prev).acc->0.text
            == joined_text(cs, prev),
    decreases cs.len(),
{
    if cs.len() > 0 {
        assert forall|i: int| 0 <= i < cs.drop_last().len() implies (#[trigger] render(
            cs.drop_last()[i],
            prev,
        )).entries.len() == 1 by {
            assert(cs.drop_last()[i] == cs[i]);
        }
        lemma_row_fold_inline(cs.drop_last(), prev);
        assert(render(cs[cs.len() - 1], prev).entries.len() == 1);
        if cs.len() == 1 {
            assert(joined_text(cs.drop_last(), prev) =~= seq![]);
            assert(joined_text(cs, prev) =~= render(cs.last(), prev).entries[0].text);
        }
    }
}

/// A row whose children each render to one line is itself one line: the
/// children's texts joined left to right.
pub proof fn lemma_row_one_line(
    children: Vec<WidgetSpec>,
    key: Option<String>,
    prev: Map<Seq<char>, WidgetInstanceState>,
)
    requires
        children@.len() > 0,
        forall|i: int|
            0 <= i < children@.len() ==> (#[trigger] render(children@[i], prev)).entries.len() == 1,
    ensures
        render(WidgetSpec::Row { children, key }, prev).entries.len() == 1,
        render(WidgetSpec::Row { children, key }, prev).entries[0].text == joined_text(children@, prev),
{
    lemma_row_fold_inline(children@, prev);
}

/// The state `next` holds every write of `ws`.
pub open spec fn holds_writes(
    next: Map<Seq<char>, WidgetInstanceState>,
    ws: Seq<(Seq<char>, WidgetInstanceState)>,
) -> bool {
    forall|i: int|
        0 <= i < ws.len() ==> next.contains_key((#[trigger] ws[i]).0) && next[ws[i].0] == ws[i].1
}

/// Holding the writes of two runs is holding the writes of each.
proof fn lemma_holds_split(
    next: Map<Seq<char>, WidgetInstanceState>,
    a: Seq<(Seq<char>, WidgetInstanceState)>,
    b: Seq<(Seq<char>, WidgetInstanceState)>,
)
    requires
        holds_writes(next, a + b),
    ensures
        holds_writes(next, a),
        holds_writes(next, b),
{
    assert forall|i: int| 0 <= i < a.len() implies next.contains_key((#[trigger] a[i]).0) && next[a[i].0]
        == a[i].1 by {
        assert((a + b)[i] == a[i]);
    }
    assert forall|i: int| 0 <= i < b.len() implies next.contains_key((#[trigger] b[i]).0) && next[b[i].0]
        == b[i].1 by {
        assert((a + b)[a.len() + i] == b[i]);
    }
}

/// A widget renders the same from any state that holds the writes its
/// render made: each keyed list finds the scroll offset it settled on.
pub proof fn lemma_render_from_writes(
    w: WidgetSpec,
    prev: Map<Seq<char>, WidgetInstanceState>,
    next: Map<Seq<char>, WidgetInstanceState>,
)
    requires
        render(w, prev).ok,
        holds_writes(next, render(w, prev).writes),
    ensures
        render(w, next) == render(w, prev),
    decreases w,
{
    match w {
        WidgetSpec::Row { children, .. } => {
            lemma_row_from_writes(children@, prev, next);
        },
        WidgetSpec::Col { children, .. } => {
            lemma_col_from_writes(children@, prev, next);
        },
        WidgetSpec::List { items, item_keys, selected_index, visible_rows, key } => {
            let n = entries_model(items@).len();
            let p = previous_scroll(key, prev);
            let scroll = list_scroll(n, p, selected_index, visible_rows);
            if n <= u32::MAX {
                lemma_list_scroll_settled(n, p, selected_index, visible_rows);
            }
            match key {
                Some(k) => {
                    let r = render(w, prev);
                    assert(r.writes[0] == (k@, WidgetInstanceState::List { scroll_offset: scroll }));
                    assert(previous_scroll(key, next) == scroll);
                },
                None => {},
            }
        },
        _ => {},
    }
}

/// A row lays out the same from any state that holds its writes.
proof fn lemma_row_from_writes(
    cs: Seq<WidgetSpec>,
    prev: Map<Seq<char>, WidgetInstanceState>,
    next: Map<Seq<char>, WidgetInstanceState>,
)
    requires
        row_fold(cs, prev).out.ok,
        holds_writes(next, row_fold(cs, prev).out.writes),
    ensures
        row_fold(cs, next) == row_fold(cs, prev),
    decreases cs,
{
    if cs.len() > 0 {
        let st0 = row_fold(cs.drop_last(), prev);
        let r = render(cs.last(), prev);
        lemma_row_fold_ok(cs, prev, cs.len() - 1);
        assert(cs.take(cs.len() - 1) =~= cs.drop_last());
        lemma_holds_split(next, st0.out.writes, r.writes);
        lemma_row_from_writes(cs.drop_last(), prev, next);
        lemma_render_from_writes(cs.last(), prev, next);
    }
}

/// A column stacks the same from any state that holds its writes.
proof fn lemma_col_from_writes(
    cs: Seq<WidgetSpec>,
    prev: Map<Seq<char>, WidgetInstanceState>,
    next: Map<Seq<char>, WidgetInstanceState>,
)
    requires
        col_fold(cs, prev).ok,
        holds_writes(next, col_fold(cs, prev).writes),
    ensures
        col_fold(cs, next) == col_fold(cs, prev),
    decreases cs,
{
    if cs.len() > 0 {
        let out0 = col_fold(cs.drop_last(), prev);
        let r = render(cs.last(), prev);
        lemma_col_fold_ok(cs, prev, cs.len() - 1);
        assert(cs.take(cs.len() - 1) =~= cs.drop_last());
        lemma_holds_split(next, out0.writes, r.writes);
        lemma_col_from_writes(cs.drop_last(), prev, next);
        lemma_render_from_writes(cs.last(), prev, next);
    }
}

/// No two writes are to the same key.
pub open spec fn writes_distinct(ws: Seq<(Seq<char>, WidgetInstanceState)>) -> bool {
    forall|i: int, j: int| 0 <= i < j < ws.len() ==> (#[trigger] ws[i]).0 != (#[trigger] ws[j]).0
}

/// Writes to distinct keys are all held after they are applied.
proof fn lemma_apply_distinct_writes(
    m: Map<Seq<char>, WidgetInstanceState>,
    ws: Seq<(Seq<char>, WidgetInstanceState)>,
)
    requires
        writes_distinct(ws),
    ensures
        holds_writes(apply_writes(m, ws), ws),
    decreases ws.len(),
{
    if ws.len() > 0 {
        let init = ws.drop_last();
        assert forall|i: int, j: int| 0 <= i < j < init.len() implies (#[trigger] init[i]).0 != (
        #[trigger] init[j]).0 by {
            assert(init[i] == ws[i] && init[j] == ws[j]);
        }
        lemma_apply_distinct_writes(m, init);
        let last = ws.len() - 1;
        assert forall|i: int| 0 <= i < ws.len() implies apply_writes(m, ws).contains_key(
            (#[trigger] ws[i]).0,
        ) && apply_writes(m, ws)[ws[i].0] == ws[i].1 by {
            if i < last {
                assert(init[i] == ws[i]);
                assert(ws[i].0 != ws[last].0);
            }
        }
    }
}

/// Rendering again with the state a render left behind gives the same
/// lines, hit areas and state, when the keyed widgets of the tree have
/// distinct keys: every list finds the scroll offset it settled on.
pub proof fn lemma_rerender_stable(
    w: WidgetSpec,
    prev: Map<Seq<char>, WidgetInstanceState>,
    other: Map<Seq<char>, WidgetInstanceState>,
)
    requires
        render(w, prev).ok,
        writes_distinct(render(w, prev).writes),
    ensures
        render(w, apply_writes(other, render(w, prev).writes)) == render(w, prev),
{
    lemma_apply_distinct_writes(other, render(w, prev).writes);
    lemma_render_from_writes(w, prev, apply_writes(other, render(w, prev).writes));
}

/// The scroll offset a list settles on is the least move from the previous
/// offset that keeps the selected item (when there is one, among the items)
/// in view and the window within the items: the previous offset clamped
/// between `selected + 1 - visible` and `min(selected, items - visible)`
/// (both at least zero), or, without a selection, cut to `items - visible`.
pub proof fn lemma_list_scroll_least_move(n: nat, prev_scroll: u32, selected: i32, visible_rows: u32)
    requires
        n <= u32::MAX,
        selected < n,
        scroll_fits(prev_scroll, selected, list_visible(visible_rows)),
    ensures
        ({
            let v = list_visible(visible_rows) as int;
            let top = if n > v {
                n - v
            } else {
                0
            };
            list_scroll(n, prev_scroll, selected, visible_rows) == if selected >= 0 {
                let lo = if selected + 1 > v {
                    selected + 1 - v
                } else {
                    0
                };
                let hi = if selected < top {
                    selected as int
                } else {
                    top
                };
                if prev_scroll < lo {
                    lo
                } else if prev_scroll > hi {
                    hi
                } else {
                    prev_scroll as int
                }
            } else if prev_scroll > top {
                top
            } else {
                prev_scroll as int
            }
        }),
{
}

/// A list without a key keeps no state: its render writes nothing.
pub proof fn lemma_unkeyed_list_keeps_no_state(
    items: Vec<TextPropertyEntry>,
    item_keys: Vec<String>,
    selected_index: i32,
    visible_rows: u32,
    prev: Map<Seq<char>, WidgetInstanceState>,
)
    ensures
        render(
            WidgetSpec::List { items, item_keys, selected_index, visible_rows, key: None },
            prev,
        ).writes.len() == 0,
{
}

/// The lines of the widgets `cs`, one after the other.
pub open spec fn stacked_lines(cs: Seq<WidgetSpec>, prev: Map<Seq<char>, WidgetInstanceState>) -> Seq<
    EntryModel,
> {
    cs.map_values(|w: WidgetSpec| render(w, prev).entries).flatten()
}

/// The state writes of the widgets `cs`, one after the other.
pub open spec fn stacked_writes(cs: Seq<WidgetSpec>, prev: Map<Seq<char>, WidgetInstanceState>) -> Seq<
    (Seq<char>, WidgetInstanceState),
> {
    cs.map_values(|w: WidgetSpec| render(w, prev).writes).flatten()
}

/// The hit areas of the widgets `cs`, one after the other, each moved down
/// by the lines of the widgets before its own.
pub open spec fn stacked_hits(cs: Seq<WidgetSpec>, prev: Map<Seq<char>, WidgetInstanceState>) -> Seq<
    HitModel,
> {
    Seq::new(
        cs.len(),
        |c: int|
            render(cs[c], prev).hits.map_values(
                |h: HitModel| shift_hit_row(h, stacked_lines(cs.take(c), prev).len() as u32),
            ),
    ).flatten()
}

/// A column of widgets is their renderings stacked.
proof fn lemma_col_fold_stacks(cs: Seq<WidgetSpec>, prev: Map<Seq<char>, WidgetInstanceState>)
    ensures
        col_fold(cs, prev).entries == stacked_lines(cs, prev),
        col_fold(cs, prev).hits == stacked_hits(cs, prev),
        col_fold(cs, prev).writes == stacked_writes(cs, prev),
    decreases cs.len(),
{
    let fe = |w: WidgetSpec| render(w, prev).entries;
    let fw = |w: WidgetSpec| render(w, prev).writes;
    if cs.len() == 0 {
        assert(cs.map_values(fe) =~= seq![]);
        assert(cs.map_values(fw) =~= seq![]);
        assert(stacked_hits(cs, prev) =~= seq![]);
    } else {
        let cs0 = cs.drop_last();
        let x = cs.last();
        lemma_col_fold_stacks(cs0, prev);
        assert(cs.map_values(fe) =~= cs0.map_values(fe).push(fe(x)));
        cs0.map_values(fe).lemma_flatten_push(fe(x));
        assert(cs.map_values(fw) =~= cs0.map_values(fw).push(fw(x)));
        cs0.map_values(fw).lemma_flatten_push(fw(x));
        let fh = |c: int|
            render(cs[c], prev).hits.map_values(
                |h: HitModel| shift_hit_row(h, stacked_lines(cs.take(c), prev).len() as u32),
            );
        let fh0 = |c: int|
            render(cs0[c], prev).hits.map_values(
                |h: HitModel| shift_hit_row(h, stacked_lines(cs0.take(c), prev).len() as u32),
            );
        assert forall|c: int| 0 <= c < cs0.len() implies #[trigger] fh(c) == fh0(c) by {
            assert(cs.take(c) =~= cs0.take(c));
            assert(cs[c] == cs0[c]);
        }
        assert(cs.take(cs0.len() as int) =~= cs0);
        assert(Seq::new(cs.len(), fh) =~= Seq::new(cs0.len(), fh0).push(fh(cs0.len() as int)));
        Seq::new(cs0.len(), fh0).lemma_flatten_push(fh(cs0.len() as int));
    }
}

/// A column stacks its children: its lines are theirs one after the other,
/// each child's hit areas are moved down by the lines above it, and its
/// state writes are theirs in order.
pub proof fn lemma_col_stacks(
    children: Vec<WidgetSpec>,
    key: Option<String>,
    prev: Map<Seq<char>, WidgetInstanceState>,
)
    ensures
        render(WidgetSpec::Col { children, key }, prev).entries == stacked_lines(children@, prev),
        render(WidgetSpec::Col { children, key }, prev).hits == stacked_hits(children@, prev),
        render(WidgetSpec::Col { children, key }, prev).writes == stacked_writes(children@, prev),
{
    lemma_col_fold_stacks(children@, prev);
}

/// A list has one click target per shown row: hit area `k` is on row `k`
/// and spans that row's whole text, and it reports the absolute index of
/// the item shown there.
pub proof fn lemma_list_hits_span_rows(
    items: Vec<TextPropertyEntry>,
    item_keys: Vec<String>,
    selected_index: i32,
    visible_rows: u32,
    key: Option<String>,
    prev: Map<Seq<char>, WidgetInstanceState>,
)
    ensures
        ({
            let r = render(
                WidgetSpec::List { items, item_keys, selected_index, visible_rows, key },
                prev,
            );
            let scroll = list_scroll(
                items@.len(),
                previous_scroll(key, prev),
                selected_index,
                visible_rows,
            );
            &&& r.hits.len() == r.entries.len()
            &&& forall|k: int|
                0 <= k < r.hits.len() ==> {
                    &&& (#[trigger] r.hits[k]).buffer_row == k
                    &&& r.hits[k].byte_start == 0
                    &&& r.hits[k].byte_end == byte_len(r.entries[k].text)
                    &&& r.entries[k].text == items@[scroll + k].text@
                    &&& r.hits[k].payload matches PayloadModel::Select { index, .. } && index
                        == scroll + k
                }
        }),
{
}

/// What a row of the children `cs` renders to.
pub open spec fn row_render(cs: Seq<WidgetSpec>, prev: Map<Seq<char>, WidgetInstanceState>) -> Rendered {
    row_finish(row_fold(cs, prev))
}

/// A row renders as its children do.
pub proof fn lemma_row_render(
    children: Vec<WidgetSpec>,
    key: Option<String>,
    prev: Map<Seq<char>, WidgetInstanceState>,
)
    ensures
        render(WidgetSpec::Row { children, key }, prev) == row_render(children@, prev),
{
}

/// A child of two or more lines is laid out below everything before it in
/// the row: the row's lines are those of the row without that child (the
/// line merged so far from one-line children emitted first), then the
/// child's lines; the child's hit areas move down by the lines above it,
/// and its state writes follow the others.
pub proof fn lemma_row_block_child(cs: Seq<WidgetSpec>, prev: Map<Seq<char>, WidgetInstanceState>)
    requires
        cs.len() > 0,
        render(cs.last(), prev).entries.len() >= 2,
    ensures
        ({
            let before = row_render(cs.drop_last(), prev);
            let child = render(cs.last(), prev);
            &&& row_render(cs, prev).entries == before.entries + child.entries
            &&& row_render(cs, prev).hits == before.hits + child.hits.map_values(
                |h: HitModel| shift_hit_row(h, before.entries.len() as u32),
            )
            &&& row_render(cs, prev).writes == before.writes + child.writes
        }),
{
}

/// Hit area `h` lies on one of the lines `lines`, within that line's text.
pub open spec fn hit_on_line(h: HitModel, lines: Seq<EntryModel>) -> bool {
    &&& h.buffer_row < lines.len()
    &&& h.byte_start <= h.byte_end
    &&& h.byte_end <= byte_len(lines[h.buffer_row as int].text)
}

/// Hit area `h` lies on a line a row being laid out has emitted, or on the
/// line it is merging into, within that line's text.
pub open spec fn hit_on_row_line(h: HitModel, st: RowState) -> bool {
    &&& h.byte_start <= h.byte_end
    &&& if h.buffer_row < st.out.entries.len() {
        h.byte_end <= byte_len(st.out.entries[h.buffer_row as int].text)
    } else {
        &&& h.buffer_row == st.out.entries.len()
        &&& st.acc is Some
        &&& h.byte_end <= byte_len(st.acc->0.text)
    }
}

/// Every hit area of a rendered widget lies on one of its lines, within
/// the text of that line: a click target never points past the end of the
/// line it is on.
pub proof fn lemma_hits_within_lines(w: WidgetSpec, prev: Map<Seq<char>, WidgetInstanceState>)
    requires
        render(w, prev).ok,
        render(w, prev).entries.len() <= u32::MAX,
    ensures
        forall|k: int|
            0 <= k < render(w, prev).hits.len() ==> hit_on_line(
                #[trigger] render(w, prev).hits[k],
                render(w, prev).entries,
            ),
    decreases w,
{
    match w {
        WidgetSpec::Row { children, .. } => {
            lemma_row_hits_within(children@, prev);
            let st = row_fold(children@, prev);
            let r = render(w, prev);
            assert forall|k: int| 0 <= k < r.hits.len() implies hit_on_line(#[trigger] r.hits[k], r.entries) by {
                assert(hit_on_row_line(st.out.hits[k], st));
                if r.hits[k].buffer_row == st.out.entries.len() {
                    assert(r.entries[st.out.entries.len() as int] == st.acc->0);
                } else {
                    assert(r.entries[r.hits[k].buffer_row as int] == st.out.entries[r.hits[k].buffer_row as int]);
                }
            }
        },
        WidgetSpec::Col { children, .. } => {
            lemma_col_hits_within(children@, prev);
        },
        _ => {},
    }
}

/// In a row being laid out, every hit area lies within the text of an
/// emitted line or of the line being merged.
proof fn lemma_row_hits_within(cs: Seq<WidgetSpec>, prev: Map<Seq<char>, WidgetInstanceState>)
    requires
        row_fold(cs, prev).out.ok,
        row_lines(row_fold(cs, prev)) <= u32::MAX,
    ensures
        forall|k: int|
            0 <= k < row_fold(cs, prev).out.hits.len() ==> hit_on_row_line(
                #[trigger] row_fold(cs, prev).out.hits[k],
                row_fold(cs, prev),
            ),
    decreases cs,
{
    if cs.len() > 0 {
        let st0 = row_fold(cs.drop_last(), prev);
        let r = render(cs.last(), prev);
        let st = row_fold(cs, prev);
        lemma_row_fold_ok(cs, prev, cs.len() - 1);
        assert(cs.take(cs.len() - 1) =~= cs.drop_last());
        lemma_row_hits_within(cs.drop_last(), prev);
        lemma_hits_within_lines(cs.last(), prev);
        let n0 = st0.out.hits.len();
        if r.entries.len() == 1 {
            let child = r.entries[0];
            match st0.acc {
                Some(e) => {
                    crate::text::lemma_utf8_len_concat(e.text, child.text);
                    assert(st.acc->0.text == e.text + child.text);
                },
                None => {},
            }
        }
        assert forall|k: int| 0 <= k < st.out.hits.len() implies hit_on_row_line(
            #[trigger] st.out.hits[k],
            st,
        ) by {
            if k < n0 {
                assert(st.out.hits[k] == st0.out.hits[k]);
                assert(hit_on_row_line(st0.out.hits[k], st0));
                if r.entries.len() >= 2 {
                    let h = st0.out.hits[k];
                    if h.buffer_row < st0.out.entries.len() {
                        assert(st.out.entries[h.buffer_row as int] == st0.out.entries[h.buffer_row as int]);
                    } else {
                        assert(st.out.entries[h.buffer_row as int] == st0.acc->0);
                    }
                }
            } else {
                assert(hit_on_line(r.hits[k - n0], r.entries));
                if r.entries.len() == 1 {
                    let shift: int = match st0.acc {
                        Some(e) => byte_len(e.text) as int,
                        None => 0,
                    };
                    assert(st.out.hits[k] == shift_hit_row(
                        shift_hit_bytes(r.hits[k - n0], shift),
                        st0.out.entries.len() as u32,
                    ));
                } else {
                    let flushed = match st0.acc {
                        Some(e) => st0.out.entries.push(e),
                        None => st0.out.entries,
                    };
                    assert(st.out.hits[k] == shift_hit_row(r.hits[k - n0], flushed.len() as u32));
                    let h = r.hits[k - n0];
                    assert(st.out.entries[flushed.len() + h.buffer_row] == r.entries[h.buffer_row as int]);
                }
            }
        }
    }
}

/// In a column being stacked, every hit area lies within the text of one of
/// its lines.
proof fn lemma_col_hits_within(cs: Seq<WidgetSpec>, prev: Map<Seq<char>, WidgetInstanceState>)
    requires
        col_fold(cs, prev).ok,
        col_fold(cs, prev).entries.len() <= u32::MAX,
    ensures
        forall|k: int|
            0 <= k < col_fold(cs, prev).hits.len() ==> hit_on_line(
                #[trigger] col_fold(cs, prev).hits[k],
                col_fold(cs, prev).entries,
            ),
    decreases cs,
{
    if cs.len() > 0 {
        let out0 = col_fold(cs.drop_last(), prev);
        let r = render(cs.last(), prev);
        let out = col_fold(cs, prev);
        lemma_col_fold_ok(cs, prev, cs.len() - 1);
        assert(cs.take(cs.len() - 1) =~= cs.drop_last());
        lemma_col_hits_within(cs.drop_last(), prev);
        lemma_hits_within_lines(cs.last(), prev);
        let n0 = out0.hits.len();
        assert forall|k: int| 0 <= k < out.hits.len() implies hit_on_line(#[trigger] out.hits[k], out.entries) by {
            if k < n0 {
                assert(out.hits[k] == out0.hits[k]);
                assert(hit_on_line(out0.hits[k], out0.entries));
                assert(out.entries[out0.hits[k].buffer_row as int] == out0.entries[out0.hits[k].buffer_row as int]);
            } else {
                let h = r.hits[k - n0];
                assert(hit_on_line(h, r.entries));
                assert(out.hits[k] == shift_hit_row(h, out0.entries.len() as u32));
                assert(out.entries[out0.entries.len() + h.buffer_row] == r.entries[h.buffer_row as int]);
            }
        }
    }
}

} // verus!
