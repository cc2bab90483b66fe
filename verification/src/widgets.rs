//! The data of declarative widgets: the widget tree a plugin describes, the
//! styled text entries it renders to, the click-routing hit areas, and the
//! per-widget state kept between renders.

use vstd::prelude::*;
use vstd::string::*;
use crate::text::starts_with;

verus! {

/// A color of an overlay: an RGB triple, or a key into the theme.
pub enum OverlayColorSpec {
    Rgb(u8, u8, u8),
    ThemeKey(String),
}

/// The model of an overlay color.
pub enum ColorModel {
    Rgb(u8, u8, u8),
    ThemeKey(Seq<char>),
}

impl View for OverlayColorSpec {
    type V = ColorModel;

    open spec fn view(&self) -> ColorModel {
        match self {
            OverlayColorSpec::Rgb(r, g, b) => ColorModel::Rgb(*r, *g, *b),
            OverlayColorSpec::ThemeKey(k) => ColorModel::ThemeKey(k@),
        }
    }
}

impl OverlayColorSpec {
    /// A color taken from the theme under `key`.
    pub fn theme_key(key: &str) -> (res: Self)
        ensures
            res@ == ColorModel::ThemeKey(key@),
    {
        OverlayColorSpec::ThemeKey(key.to_owned())
    }

    /// The theme key of this color, if it is one.
    pub fn as_theme_key(&self) -> (res: Option<&str>)
        ensures
            match self@ {
                ColorModel::ThemeKey(k) => res.is_some() && res.unwrap()@ == k,
                ColorModel::Rgb(..) => res.is_none(),
            },
    {
        match self {
            OverlayColorSpec::ThemeKey(k) => Some(k.as_str()),
            OverlayColorSpec::Rgb(..) => None,
        }
    }
}

impl Clone for OverlayColorSpec {
    fn clone(&self) -> (res: Self)
        ensures
            res@ == self@,
    {
        match self {
            OverlayColorSpec::Rgb(r, g, b) => OverlayColorSpec::Rgb(*r, *g, *b),
            OverlayColorSpec::ThemeKey(k) => OverlayColorSpec::ThemeKey(k.clone()),
        }
    }
}

/// The model of an optional color.
pub open spec fn color_model(c: Option<OverlayColorSpec>) -> Option<ColorModel> {
    match c {
        Some(c) => Some(c@),
        None => None,
    }
}

fn clone_color(c: &Option<OverlayColorSpec>) -> (res: Option<OverlayColorSpec>)
    ensures
        color_model(res) == color_model(*c),
{
    match c {
        Some(c) => Some(c.clone()),
        None => None,
    }
}

/// The style of an overlay or of a whole entry.
pub struct OverlayOptions {
    pub fg: Option<OverlayColorSpec>,
    pub bg: Option<OverlayColorSpec>,
    pub bold: bool,
    pub italic: bool,
    pub underline: bool,
    pub strikethrough: bool,
    /// Extend the background to the end of the line.
    pub extend_to_line_end: bool,
}

/// The model of a style.
pub struct StyleModel {
    pub fg: Option<ColorModel>,
    pub bg: Option<ColorModel>,
    pub bold: bool,
    pub italic: bool,
    pub underline: bool,
    pub strikethrough: bool,
    pub extend_to_line_end: bool,
}

impl View for OverlayOptions {
    type V = StyleModel;

    open spec fn view(&self) -> StyleModel {
        StyleModel {
            fg: color_model(self.fg),
            bg: color_model(self.bg),
            bold: self.bold,
            italic: self.italic,
            underline: self.underline,
            strikethrough: self.strikethrough,
            extend_to_line_end: self.extend_to_line_end,
        }
    }
}

/// The plain style: no colors, no attributes.
pub open spec fn plain_style() -> StyleModel {
    StyleModel {
        fg: None,
        bg: None,
        bold: false,
        italic: false,
        underline: false,
        strikethrough: false,
        extend_to_line_end: false,
    }
}

impl Default for OverlayOptions {
    fn default() -> (res: Self)
        ensures
            res@ == plain_style(),
    {
        OverlayOptions {
            fg: None,
            bg: None,
            bold: false,
            italic: false,
            underline: false,
            strikethrough: false,
            extend_to_line_end: false,
        }
    }
}

impl Clone for OverlayOptions {
    fn clone(&self) -> (res: Self)
        ensures
            res@ == self@,
    {
        OverlayOptions {
            fg: clone_color(&self.fg),
            bg: clone_color(&self.bg),
            bold: self.bold,
            italic: self.italic,
            underline: self.underline,
            strikethrough: self.strikethrough,
            extend_to_line_end: self.extend_to_line_end,
        }
    }
}

/// Named properties attached to text, as `(name, JSON value)` pairs.
pub type Properties = Vec<(String, String)>;

/// The model of a property list.
pub open spec fn properties_model(p: Seq<(String, String)>) -> Seq<(Seq<char>, Seq<char>)> {
    p.map_values(|e: (String, String)| (e.0@, e.1@))
}

/// A copy of a property list.
pub fn clone_properties(p: &Properties) -> (res: Properties)
    ensures
        properties_model(res@) == properties_model(p@),
{
    let mut out: Properties = Vec::new();
    let mut i: usize = 0;
    while i < p.len()
        invariant
            i <= p.len(),
            properties_model(out@) == properties_model(p@.take(i as int)),
        decreases p.len() - i,
    {
        let name = p[i].0.clone();
        let value = p[i].1.clone();
        let ghost before = out@;
        out.push((name, value));
        assert(p@.take(i + 1) =~= p@.take(i as int).push(p@[i as int]));
        assert(properties_model(out@) =~= properties_model(before).push((name@, value@)));
        assert(properties_model(out@) =~= properties_model(p@.take(i + 1)));
        i += 1;
    }
    assert(p@.take(p.len() as int) =~= p@);
    out
}

/// A styled byte range `[start, end)` within an entry's text.
pub struct InlineOverlay {
    pub start: usize,
    pub end: usize,
    pub style: OverlayOptions,
    pub properties: Properties,
}

/// The model of an overlay.
pub struct OverlayModel {
    pub start: usize,
    pub end: usize,
    pub style: StyleModel,
    pub properties: Seq<(Seq<char>, Seq<char>)>,
}

impl View for InlineOverlay {
    type V = OverlayModel;

    open spec fn view(&self) -> OverlayModel {
        OverlayModel {
            start: self.start,
            end: self.end,
            style: self.style@,
            properties: properties_model(self.properties@),
        }
    }
}

impl Clone for InlineOverlay {
    fn clone(&self) -> (res: Self)
        ensures
            res@ == self@,
    {
        InlineOverlay {
            start: self.start,
            end: self.end,
            style: self.style.clone(),
            properties: clone_properties(&self.properties),
        }
    }
}

/// The models of a list of overlays.
pub open spec fn overlays_model(v: Seq<InlineOverlay>) -> Seq<OverlayModel> {
    v.map_values(|o: InlineOverlay| o@)
}

/// One line of styled text.
pub struct TextPropertyEntry {
    pub text: String,
    pub properties: Properties,
    pub style: Option<OverlayOptions>,
    pub inline_overlays: Vec<InlineOverlay>,
}

/// The model of an entry.
pub struct EntryModel {
    pub text: Seq<char>,
    pub properties: Seq<(Seq<char>, Seq<char>)>,
    pub style: Option<StyleModel>,
    pub overlays: Seq<OverlayModel>,
}

/// The model of an optional style.
pub open spec fn style_model(s: Option<OverlayOptions>) -> Option<StyleModel> {
    match s {
        Some(s) => Some(s@),
        None => None,
    }
}

impl View for TextPropertyEntry {
    type V = EntryModel;

    open spec fn view(&self) -> EntryModel {
        EntryModel {
            text: self.text@,
            properties: properties_model(self.properties@),
            style: style_model(self.style),
            overlays: overlays_model(self.inline_overlays@),
        }
    }
}

/// An entry with the given text and nothing else.
pub open spec fn plain_entry(text: Seq<char>) -> EntryModel {
    EntryModel { text, properties: seq![], style: None, overlays: seq![] }
}

/// A copy of a list of overlays.
pub fn clone_overlays(v: &Vec<InlineOverlay>) -> (res: Vec<InlineOverlay>)
    ensures
        overlays_model(res@) == overlays_model(v@),
{
    let mut out: Vec<InlineOverlay> = Vec::new();
    let mut i: usize = 0;
    while i < v.len()
        invariant
            i <= v.len(),
            overlays_model(out@) == overlays_model(v@.take(i as int)),
        decreases v.len() - i,
    {
        let o = v[i].clone();
        let ghost before = out@;
        out.push(o);
        assert(v@.take(i + 1) =~= v@.take(i as int).push(v@[i as int]));
        assert(overlays_model(out@) =~= overlays_model(before).push(o@));
        assert(overlays_model(out@) =~= overlays_model(v@.take(i + 1)));
        i += 1;
    }
    assert(v@.take(v.len() as int) =~= v@);
    out
}

impl TextPropertyEntry {
    /// An entry holding `text`, with no properties, style or overlays.
    pub fn text(text: &str) -> (res: Self)
        ensures
            res@ == plain_entry(text@),
    {
        let res = TextPropertyEntry {
            text: text.to_owned(),
            properties: Vec::new(),
            style: None,
            inline_overlays: Vec::new(),
        };
        assert(res@.properties =~= seq![]);
        assert(res@.overlays =~= seq![]);
        res
    }
}

impl Clone for TextPropertyEntry {
    fn clone(&self) -> (res: Self)
        ensures
            res@ == self@,
    {
        let style = match &self.style {
            Some(s) => Some(s.clone()),
            None => None,
        };
        TextPropertyEntry {
            text: self.text.clone(),
            properties: clone_properties(&self.properties),
            style,
            inline_overlays: clone_overlays(&self.inline_overlays),
        }
    }
}

/// The models of a list of entries.
pub open spec fn entries_model(v: Seq<TextPropertyEntry>) -> Seq<EntryModel> {
    v.map_values(|e: TextPropertyEntry| e@)
}

/// One key hint of a hint bar: the keys to press and what they do.
pub struct HintEntry {
    pub keys: String,
    pub label: String,
}

/// The look of a button.
#[derive(Clone, Copy, Debug, PartialEq, Eq, Structural)]
pub enum ButtonKind {
    Normal,
    Primary,
    Danger,
}

/// A declarative widget tree.
pub enum WidgetSpec {
    /// Children laid out left-to-right within a single line.
    Row { children: Vec<WidgetSpec>, key: Option<String> },
    /// Children stacked vertically.
    Col { children: Vec<WidgetSpec>, key: Option<String> },
    /// Keyboard-hint footer.
    HintBar { entries: Vec<HintEntry>, key: Option<String> },
    /// A checkbox with a label.
    Toggle { checked: bool, label: String, focused: bool, key: Option<String> },
    /// A push button.
    Button { label: String, focused: bool, intent: ButtonKind, key: Option<String> },
    /// Blank space, `cols` columns wide.
    Spacer { cols: u32, key: Option<String> },
    /// A scrolling list of items, one line each.
    List {
        items: Vec<TextPropertyEntry>,
        item_keys: Vec<String>,
        selected_index: i32,
        visible_rows: u32,
        key: Option<String>,
    },
    /// A one-line text field.
    TextInput {
        value: String,
        cursor_byte: i32,
        focused: bool,
        label: String,
        placeholder: Option<String>,
        max_visible_chars: u32,
        key: Option<String>,
    },
    /// Entries that pass through unchanged.
    Raw { entries: Vec<TextPropertyEntry>, key: Option<String> },
}

/// What a click on a hit area reports.
#[derive(Debug, PartialEq)]
pub enum HitPayload {
    /// A toggle was clicked; `checked` is its new state.
    Toggle { checked: bool },
    /// A button was clicked.
    Activate,
    /// A list item was clicked: its absolute index and its key.
    Select { index: i64, key: String },
}

/// The model of a payload.
pub enum PayloadModel {
    Toggle { checked: bool },
    Activate,
    Select { index: i64, key: Seq<char> },
}

impl View for HitPayload {
    type V = PayloadModel;

    open spec fn view(&self) -> PayloadModel {
        match self {
            HitPayload::Toggle { checked } => PayloadModel::Toggle { checked: *checked },
            HitPayload::Activate => PayloadModel::Activate,
            HitPayload::Select { index, key } => PayloadModel::Select { index: *index, key: key@ },
        }
    }
}

/// A clickable region of the rendered text.
pub struct HitArea {
    pub widget_key: String,
    pub widget_kind: &'static str,
    /// The rendered line the region is on.
    pub buffer_row: u32,
    /// Byte range `[byte_start, byte_end)` of the region within its line.
    pub byte_start: usize,
    pub byte_end: usize,
    pub payload: HitPayload,
    pub event_type: &'static str,
}

/// The model of a hit area.
pub struct HitModel {
    pub widget_key: Seq<char>,
    pub widget_kind: Seq<char>,
    pub buffer_row: u32,
    pub byte_start: usize,
    pub byte_end: usize,
    pub payload: PayloadModel,
    pub event_type: Seq<char>,
}

impl View for HitArea {
    type V = HitModel;

    open spec fn view(&self) -> HitModel {
        HitModel {
            widget_key: self.widget_key@,
            widget_kind: self.widget_kind@,
            buffer_row: self.buffer_row,
            byte_start: self.byte_start,
            byte_end: self.byte_end,
            payload: self.payload@,
            event_type: self.event_type@,
        }
    }
}

/// The models of a list of hit areas.
pub open spec fn hits_model(v: Seq<HitArea>) -> Seq<HitModel> {
    v.map_values(|h: HitArea| h@)
}

/// State a widget keeps from one render to the next.
#[derive(Clone, Copy, Debug, PartialEq, Eq, Structural)]
pub enum WidgetInstanceState {
    /// A list's scroll offset (the index of its first visible item).
    List { scroll_offset: u32 },
}

/// The map that a list of `(key, state)` writes leaves behind: later
/// writes to a key replace earlier ones.
pub open spec fn states_map(s: Seq<(String, WidgetInstanceState)>) -> Map<
    Seq<char>,
    WidgetInstanceState,
>
    decreases s.len(),
{
    if s.len() == 0 {
        Map::empty()
    } else {
        states_map(s.drop_last()).insert(s.last().0@, s.last().1)
    }
}

/// The state of each keyed widget of a rendered tree.
pub struct InstanceStates {
    entries: Vec<(String, WidgetInstanceState)>,
}

impl View for InstanceStates {
    type V = Map<Seq<char>, WidgetInstanceState>;

    closed spec fn view(&self) -> Map<Seq<char>, WidgetInstanceState> {
        states_map(self.entries@)
    }
}

/// The last write to `key` is at index `i`.
proof fn lemma_states_map_last(s: Seq<(String, WidgetInstanceState)>, key: Seq<char>, i: int)
    requires
        0 <= i < s.len(),
        s[i].0@ == key,
        forall|j: int| i < j < s.len() ==> (#[trigger] s[j]).0@ != key,
    ensures
        states_map(s).contains_key(key),
        states_map(s)[key] == s[i].1,
    decreases s.len(),
{
    if i < s.len() - 1 {
        lemma_states_map_last(s.drop_last(), key, i);
    }
}

/// A key never written is absent.
proof fn lemma_states_map_absent(s: Seq<(String, WidgetInstanceState)>, key: Seq<char>)
    requires
        forall|j: int| 0 <= j < s.len() ==> (#[trigger] s[j]).0@ != key,
    ensures
        !states_map(s).contains_key(key),
    decreases s.len(),
{
    if s.len() > 0 {
        lemma_states_map_absent(s.drop_last(), key);
    }
}

/// Overwriting the last write to a key is writing the key anew.
proof fn lemma_states_map_update(
    s: Seq<(String, WidgetInstanceState)>,
    i: int,
    key: String,
    value: WidgetInstanceState,
)
    requires
        0 <= i < s.len(),
        s[i].0@ == key@,
        forall|j: int| i < j < s.len() ==> (#[trigger] s[j]).0@ != key@,
    ensures
        states_map(s.update(i, (key, value))) == states_map(s).insert(key@, value),
    decreases s.len(),
{
    let t = s.update(i, (key, value));
    if i == s.len() - 1 {
        assert(t.drop_last() =~= s.drop_last());
        assert(states_map(t) =~= states_map(s).insert(key@, value));
    } else {
        assert(t.drop_last() =~= s.drop_last().update(i, (key, value)));
        lemma_states_map_update(s.drop_last(), i, key, value);
        assert(states_map(t) =~= states_map(s).insert(key@, value));
    }
}

impl InstanceStates {
    /// No widget has state yet.
    pub fn new() -> (res: Self)
        ensures
            res@ == Map::<Seq<char>, WidgetInstanceState>::empty(),
    {
        InstanceStates { entries: Vec::new() }
    }

    /// Whether no widget has state.
    pub fn is_empty(&self) -> (res: bool)
        ensures
            res == (self@.dom() == Set::<Seq<char>>::empty()),
    {
        if self.entries.len() == 0 {
            assert(self@ =~= Map::empty());
            true
        } else {
            assert(self@.contains_key(self.entries@.last().0@));
            false
        }
    }

    /// The index of the last write to `key`, if any.
    fn find(&self, key: &str) -> (res: Option<usize>)
        ensures
            match res {
                Some(i) => i < self.entries@.len() && self.entries@[i as int].0@ == key@ && forall|
                    j: int,
                | i < j < self.entries@.len() ==> (#[trigger] self.entries@[j]).0@ != key@,
                None => forall|j: int|
                    0 <= j < self.entries@.len() ==> (#[trigger] self.entries@[j]).0@ != key@,
            },
    {
        let mut i = self.entries.len();
        while i > 0
            invariant
                i <= self.entries.len(),
                forall|j: int| i <= j < self.entries@.len() ==> (#[trigger] self.entries@[j]).0@ != key@,
            decreases i,
        {
            if starts_with(self.entries[i - 1].0.as_str(), key) && starts_with(
                key,
                self.entries[i - 1].0.as_str(),
            ) {
                assert(self.entries@[i - 1].0@ =~= key@);
                return Some(i - 1);
            }
            i -= 1;
        }
        None
    }

    /// The state of the widget with the given key.
    pub fn get(&self, key: &str) -> (res: Option<&WidgetInstanceState>)
        ensures
            match res {
                Some(v) => self@.contains_key(key@) && *v == self@[key@],
                None => !self@.contains_key(key@),
            },
    {
        match self.find(key) {
            Some(i) => {
                proof {
                    lemma_states_map_last(self.entries@, key@, i as int);
                }
                Some(&self.entries[i].1)
            },
            None => {
                proof {
                    lemma_states_map_absent(self.entries@, key@);
                }
                None
            },
        }
    }

    /// The stored `(key, state)` pairs; writing them in order into an
    /// empty map gives this state.
    pub fn entries(&self) -> (res: &Vec<(String, WidgetInstanceState)>)
        ensures
            states_map(res@) == self@,
    {
        &self.entries
    }

    /// Set the state of the widget with the given key.
    pub fn insert(&mut self, key: String, value: WidgetInstanceState)
        ensures
            final(self)@ == old(self)@.insert(key@, value),
    {
        match self.find(key.as_str()) {
            Some(i) => {
                proof {
                    lemma_states_map_update(self.entries@, i as int, key, value);
                }
                self.entries.set(i, (key, value));
            },
            None => {
                self.entries.push((key, value));
                proof {
                    assert(self.entries@.drop_last() =~= old(self).entries@);
                }
            },
        }
    }
}

} // verus!
