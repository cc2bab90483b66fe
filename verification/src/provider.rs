//! Completion provider trait and shared types.
//!
//! This module defines the core abstraction for pluggable completion sources
//! and the plain data that flows between the completion service and its
//! providers.

use vstd::prelude::*;

verus! {

/// A single completion candidate produced by a provider.
#[derive(Debug, Clone)]
pub struct CompletionCandidate {
    /// The text to display in the completion popup.
    pub label: String,
    /// The text to insert when the completion is accepted.
    /// If `None`, `label` is used as the insert text.
    pub insert_text: Option<String>,
    /// Optional detail shown alongside the label (e.g., type info).
    pub detail: Option<String>,
    /// Icon hint for the popup (e.g., "v" for variable, "λ" for function).
    pub icon: Option<String>,
    /// Provider-assigned relevance score. Higher is better.
    pub score: i64,
    /// Which provider produced this candidate. Set by the service;
    /// providers leave this as `None`.
    pub source: Option<CompletionSourceId>,
    /// If `true`, the insert text contains LSP-style snippet syntax.
    pub is_snippet: bool,
    /// Opaque provider-specific data carried through to acceptance.
    pub provider_data: Option<String>,
}

/// `c` is a plain word candidate: it shows `label`, carries `score`, and
/// every other field is left empty.
pub open spec fn is_word_candidate(c: CompletionCandidate, label: Seq<char>, score: i64) -> bool {
    &&& c.label@ == label
    &&& c.score == score
    &&& c.insert_text is None
    &&& c.detail is None
    &&& c.icon is None
    &&& c.source is None
    &&& !c.is_snippet
    &&& c.provider_data is None
}

impl CompletionCandidate {
    /// Create a simple word candidate (no snippet, no extra data).
    pub fn word(label: String, score: i64) -> (res: Self)
        ensures
            is_word_candidate(res, label@, score),
    {
        CompletionCandidate {
            label,
            insert_text: None,
            detail: None,
            icon: None,
            score,
            source: None,
            is_snippet: false,
            provider_data: None,
        }
    }
}

/// Identifies a registered completion provider.
#[derive(Debug, Clone, PartialEq, Eq, Hash)]
pub struct CompletionSourceId(pub String);

impl CompletionSourceId {
    /// The identifier as it is displayed: the wrapped string itself.
    pub fn to_string(&self) -> (res: String)
        ensures
            res@ == self.0@,
    {
        self.0.clone()
    }
}

/// Context passed to every provider when completion is requested.
///
/// All byte ranges are clamped to valid buffer positions by the service
/// before being handed to providers.
#[derive(Debug)]
pub struct CompletionContext {
    /// The prefix the user has already typed (from word start to cursor).
    pub prefix: String,
    /// Byte offset of the cursor in the buffer.
    pub cursor_byte: usize,
    /// Byte offset where the current word starts (for replacement range).
    pub word_start_byte: usize,
    /// Total buffer size in bytes.
    pub buffer_len: usize,
    /// Whether this buffer is lazily loaded (multi-gigabyte).
    pub is_large_file: bool,
    /// The safe scan window: providers must not read outside this range.
    pub scan_range: std::ops::Range<usize>,
    /// Byte position of the first visible line in the viewport.
    pub viewport_top_byte: usize,
    /// Approximate byte position of the last visible line.
    pub viewport_bottom_byte: usize,
    /// The file extension or language id, if known.
    pub language_id: Option<String>,
}

impl Clone for CompletionContext {
    fn clone(&self) -> (res: Self)
        ensures
            res.prefix@ == self.prefix@,
            res.cursor_byte == self.cursor_byte,
            res.word_start_byte == self.word_start_byte,
            res.buffer_len == self.buffer_len,
            res.is_large_file == self.is_large_file,
            res.scan_range == self.scan_range,
            res.viewport_top_byte == self.viewport_top_byte,
            res.viewport_bottom_byte == self.viewport_bottom_byte,
            res.language_id is Some == self.language_id is Some,
            res.language_id is Some ==> res.language_id->0@ == self.language_id->0@,
    {
        let language_id = match &self.language_id {
            Some(id) => Some(id.clone()),
            None => None,
        };
        CompletionContext {
            prefix: self.prefix.clone(),
            cursor_byte: self.cursor_byte,
            word_start_byte: self.word_start_byte,
            buffer_len: self.buffer_len,
            is_large_file: self.is_large_file,
            scan_range: self.scan_range.start..self.scan_range.end,
            viewport_top_byte: self.viewport_top_byte,
            viewport_bottom_byte: self.viewport_bottom_byte,
            language_id,
        }
    }
}

/// The offset of buffer position `pos` within a window starting at
/// `start` (zero for positions before the window).
pub open spec fn window_offset(pos: usize, start: usize) -> usize {
    if pos >= start {
        (pos - start) as usize
    } else {
        0
    }
}

/// The cursor's offset within the scan window.
pub open spec fn cursor_in_window(ctx: CompletionContext) -> usize {
    window_offset(ctx.cursor_byte, ctx.scan_range.start)
}

/// Maximum scan radius (in bytes) around the cursor for normal files.
pub const NORMAL_SCAN_RADIUS: usize = 512 * 1024;

/// Maximum scan radius for large/huge files—keeps completion instant.
pub const LARGE_FILE_SCAN_RADIUS: usize = 32 * 1024;

/// The scan radius used for a buffer of the given kind.
pub open spec fn scan_radius(is_large_file: bool) -> int {
    if is_large_file {
        LARGE_FILE_SCAN_RADIUS as int
    } else {
        NORMAL_SCAN_RADIUS as int
    }
}

/// The scan window around `cursor_byte`: the scan radius on each side,
/// cut at the start and the end of the buffer.
pub open spec fn scan_window(cursor_byte: usize, buffer_len: usize, is_large_file: bool) -> (int, int) {
    let radius = scan_radius(is_large_file);
    (
        if cursor_byte >= radius {
            cursor_byte - radius
        } else {
            0
        },
        if cursor_byte + radius <= buffer_len {
            cursor_byte + radius
        } else {
            buffer_len as int
        },
    )
}

impl CompletionContext {
    /// Compute the scan range for a given cursor position and buffer size.
    pub fn compute_scan_range(cursor_byte: usize, buffer_len: usize, is_large_file: bool) -> (res:
        std::ops::Range<usize>)
        requires
            cursor_byte + scan_radius(is_large_file) <= usize::MAX,
        ensures
            res.start == scan_window(cursor_byte, buffer_len, is_large_file).0,
            res.end == scan_window(cursor_byte, buffer_len, is_large_file).1,
    {
        let radius = if is_large_file {
            LARGE_FILE_SCAN_RADIUS
        } else {
            NORMAL_SCAN_RADIUS
        };
        let start = cursor_byte.saturating_sub(radius);
        let reach = cursor_byte + radius;
        let end = if reach <= buffer_len {
            reach
        } else {
            buffer_len
        };
        start..end
    }
}

/// For a cursor inside the buffer, the scan window holds the cursor, lies
/// within the buffer, and spans at most twice the scan radius: 1 MiB around
/// the cursor for normal files, 64 KiB for large ones.
pub proof fn lemma_scan_window_bounds(cursor_byte: usize, buffer_len: usize, is_large_file: bool)
    requires
        cursor_byte <= buffer_len,
    ensures
        ({
            let (start, end) = scan_window(cursor_byte, buffer_len, is_large_file);
            &&& 0 <= start <= cursor_byte <= end <= buffer_len
            &&& end - start <= 2 * scan_radius(is_large_file)
        }),
{
}

/// Result returned by a provider's `provide` method.
pub enum ProviderResult {
    /// Synchronous results, available immediately.
    Ready(Vec<CompletionCandidate>),
    /// The provider will deliver results asynchronously (e.g., LSP).
    /// The `u64` is a request id that is matched later when results arrive.
    Pending(u64),
}

/// Trait that all completion providers implement.
///
/// # Huge-file contract
///
/// Providers only read the `buffer_window` they are handed, which
/// corresponds exactly to `ctx.scan_range`; they never see the buffer itself.
pub trait CompletionProvider: Send {
    /// Unique, stable identifier for this provider (e.g., `"lsp"`, `"dabbrev"`).
    fn id(&self) -> CompletionSourceId;

    /// Human-readable name shown in UI (e.g., "Dynamic Abbreviation").
    fn display_name(&self) -> &str;

    /// Whether this provider should be active for the given context.
    fn is_enabled(&self, ctx: &CompletionContext) -> bool;

    /// Produce completion candidates from the bytes of the scan window.
    ///
    /// The cursor is a byte position of a buffer, so it fits a signed 64-bit
    /// file offset, and the window is at most `u32::MAX` bytes long (the
    /// service hands over at most a few hundred kilobytes).
    fn provide(&self, ctx: &CompletionContext, buffer_window: &[u8]) -> ProviderResult
        requires
            ctx.cursor_byte <= i64::MAX,
            buffer_window@.len() <= u32::MAX,
    ;

    /// Priority tier for this provider. Lower numbers run first and their
    /// results are shown higher in the list when scores are equal.
    /// Convention: 0 = LSP, 10 = ctags/index, 20 = buffer words, 30 = dabbrev.
    fn priority(&self) -> (res: u32)
        default_ensures
            res == 20,
    {
        20
    }
}

} // verus!
