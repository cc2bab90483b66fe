//! Buffer-word completion provider with proximity scoring.
//!
//! Collects unique words from the buffer scan window and ranks them by:
//! 1. **Proximity** to the cursor (byte distance of the nearest occurrence).
//! 2. **Viewport bias** — words visible on screen are boosted.
//! 3. **Frequency** — words that appear more often get a small bonus.
//!
//! Word boundaries follow Unicode grapheme clusters, and only the pre-sliced
//! scan window is read.

use vstd::prelude::*;
use vstd::string::*;
use crate::provider::{
    CompletionCandidate, CompletionContext, CompletionProvider, CompletionSourceId,
    ProviderResult, cursor_in_window, is_word_candidate, window_offset,
};
use crate::rank::{
    abs_diff, increasing_indices, is_top, lemma_top_count, lemma_top_unique, offered_set,
    offset_distance, rank_before,
    saturate_i64, saturating_sub_i64, sort_by_rank, strict_total, strictly_ranked,
};
use crate::text::{
    byte_len, grapheme_clusters, spec_graphemes, spec_to_lowercase, spec_utf8_lossy, starts_with,
    str_views, to_lowercase, utf8_len, utf8_lossy,
};
use crate::words::{
    WordSpan, WordToken, lemma_clusters_len, lemma_word_spans_len, spans_of, word_spans,
    word_tokens,
};

verus! {

/// Maximum number of candidates returned.
pub const MAX_CANDIDATES: usize = 40;

/// Minimum word length (in grapheme clusters) to be considered a candidate.
/// Very short tokens (single-letter variables) generate too much noise.
pub const MIN_WORD_LEN_GRAPHEMES: usize = 2;

pub struct BufferWordProvider;

impl BufferWordProvider {
    pub fn new() -> Self {
        BufferWordProvider
    }
}

impl Default for BufferWordProvider {
    fn default() -> (res: Self)
        ensures
            res == BufferWordProvider,
    {
        Self::new()
    }
}

/// Entry tracking a word's occurrences within the scan window.
pub struct WordStats {
    /// The word text (original casing of the first occurrence).
    pub text: String,
    /// The lowercase form of the word, under which occurrences are merged.
    pub key: String,
    /// Number of occurrences.
    pub count: u32,
    /// Byte offset of the occurrence closest to the cursor.
    pub nearest_byte: usize,
    /// Whether at least one occurrence falls within the viewport.
    pub in_viewport: bool,
    /// Length in grapheme clusters (for min-length filtering).
    pub grapheme_len: usize,
}

/// The model of a `WordStats` entry.
pub struct StatView {
    pub text: Seq<char>,
    pub key: Seq<char>,
    pub count: nat,
    pub nearest: usize,
    pub in_viewport: bool,
    pub clusters: nat,
}

impl View for WordStats {
    type V = StatView;

    open spec fn view(&self) -> StatView {
        StatView {
            text: self.text@,
            key: self.key@,
            count: self.count as nat,
            nearest: self.nearest_byte,
            in_viewport: self.in_viewport,
            clusters: self.grapheme_len as nat,
        }
    }
}

/// The models of a list of entries.
pub open spec fn stat_views(v: Seq<WordStats>) -> Seq<StatView> {
    v.map_values(|s: WordStats| s@)
}

/// Where the occurrences of a word are measured from: the cursor's offset
/// and the viewport's byte range `[vp_start, vp_end)`, all within the window.
pub struct Vantage {
    pub cursor: usize,
    pub vp_start: usize,
    pub vp_end: usize,
}

/// The last entry of `stats` with the given key, or -1 when there is none.
pub open spec fn key_index(stats: Seq<StatView>, key: Seq<char>) -> int
    decreases stats.len(),
{
    if stats.len() == 0 {
        -1
    } else if stats.last().key == key {
        stats.len() - 1
    } else {
        key_index(stats.drop_last(), key)
    }
}

/// The entries after one more occurrence of `text` (with key `key`, spanning
/// `clusters` clusters) at byte `offset` is recorded: a known key counts one
/// more occurrence, keeps the occurrence nearer the cursor (the earlier one
/// on a tie) and notes whether this one is in the viewport; a new key gets an
/// entry of its own at the end.
pub open spec fn record(
    stats: Seq<StatView>,
    text: Seq<char>,
    key: Seq<char>,
    clusters: nat,
    offset: usize,
    at: Vantage,
) -> Seq<StatView> {
    let in_vp = at.vp_start <= offset && offset < at.vp_end;
    let i = key_index(stats, key);
    if i >= 0 {
        let s = stats[i];
        stats.update(
            i,
            StatView {
                text: s.text,
                key: s.key,
                count: s.count + 1,
                nearest: if offset_distance(offset, at.cursor) < offset_distance(
                    s.nearest,
                    at.cursor,
                ) {
                    offset
                } else {
                    s.nearest
                },
                in_viewport: s.in_viewport || in_vp,
                clusters: s.clusters,
            },
        )
    } else {
        stats.push(
            StatView { text, key, count: 1, nearest: offset, in_viewport: in_vp, clusters },
        )
    }
}

/// The entries after recording the words `spans`, whose keys are `keys`, in
/// order.
pub open spec fn stats_of(spans: Seq<WordSpan>, keys: Seq<Seq<char>>, at: Vantage) -> Seq<
    StatView,
>
    decreases spans.len(),
{
    if spans.len() == 0 {
        seq![]
    } else {
        let w = spans.last();
        record(
            stats_of(spans.drop_last(), keys.drop_last(), at),
            w.text,
            keys[spans.len() - 1],
            w.clusters,
            w.start as usize,
            at,
        )
    }
}

/// The words of `text`.
pub open spec fn window_spans(text: Seq<char>) -> Seq<WordSpan> {
    word_spans(spec_graphemes(text))
}

/// The lowercase key of each word of `text`.
pub open spec fn window_keys(text: Seq<char>) -> Seq<Seq<char>> {
    window_spans(text).map_values(|w: WordSpan| spec_to_lowercase(w.text))
}

/// The entries for the words of `text`, keyed by their lowercase forms.
pub open spec fn window_stats(text: Seq<char>, at: Vantage) -> Seq<StatView> {
    stats_of(window_spans(text), window_keys(text), at)
}

/// `key_index` is -1 or the index of an entry with the key.
proof fn lemma_key_index_range(stats: Seq<StatView>, key: Seq<char>)
    ensures
        -1 <= key_index(stats, key) < stats.len(),
        key_index(stats, key) >= 0 ==> stats[key_index(stats, key)].key == key,
        key_index(stats, key) < 0 ==> forall|j: int|
            0 <= j < stats.len() ==> (#[trigger] stats[j]).key != key,
    decreases stats.len(),
{
    if stats.len() > 0 {
        lemma_key_index_range(stats.drop_last(), key);
        if stats.last().key != key {
            assert forall|j: int| 0 <= j < stats.len() - 1 implies stats[j] == stats.drop_last()[j] by {}
        }
    }
}

/// `key_index` finds the last entry with the key.
proof fn lemma_key_index(stats: Seq<StatView>, key: Seq<char>, i: int)
    requires
        -1 <= i < stats.len(),
        i >= 0 ==> stats[i].key == key,
        forall|j: int| i < j < stats.len() ==> (#[trigger] stats[j]).key != key,
    ensures
        key_index(stats, key) == i,
    decreases stats.len(),
{
    if stats.len() > 0 && i < stats.len() - 1 {
        assert(stats.last() == stats[stats.len() - 1]);
        lemma_key_index(stats.drop_last(), key, i);
    }
}

/// Record one occurrence of `word` (whose lowercase form is `key`) at byte
/// `byte_offset` of the window.
pub fn record_word(
    stats: &mut Vec<WordStats>,
    word: String,
    key: String,
    grapheme_len: usize,
    byte_offset: usize,
    cursor: usize,
    viewport_start: usize,
    viewport_end: usize,
)
    requires
        forall|j: int|
            0 <= j < old(stats)@.len() && (#[trigger] old(stats)@[j]).key@ == key@ ==> old(
                stats,
            )@[j].count < u32::MAX,
    ensures
        stat_views(final(stats)@) == record(
            stat_views(old(stats)@),
            word@,
            key@,
            grapheme_len as nat,
            byte_offset,
            Vantage { cursor, vp_start: viewport_start, vp_end: viewport_end },
        ),
{
    let ghost at = Vantage { cursor, vp_start: viewport_start, vp_end: viewport_end };
    let dist = abs_diff(byte_offset, cursor);
    let in_vp = byte_offset >= viewport_start && byte_offset < viewport_end;
    let mut i = stats.len();
    while i > 0
        invariant
            i <= stats.len(),
            stats@ == old(stats)@,
            forall|j: int| i <= j < stats.len() ==> (#[trigger] stats@[j]).key@ != key@,
        ensures
            i == 0 || stats@[i - 1].key@ == key@,
        decreases i,
    {
        if stats[i - 1].key == key {
            break;
        }
        i -= 1;
    }
    let ghost views = stat_views(stats@);
    if i > 0 {
        let idx = i - 1;
        proof {
            lemma_key_index(views, key@, idx as int);
        }
        let mut entry = WordStats {
            text: String::new(),
            key: String::new(),
            count: 0,
            nearest_byte: 0,
            in_viewport: false,
            grapheme_len: 0,
        };
        stats.set_and_swap(idx, &mut entry);
        entry.count = entry.count + 1;
        if dist < abs_diff(entry.nearest_byte, cursor) {
            entry.nearest_byte = byte_offset;
        }
        entry.in_viewport = entry.in_viewport || in_vp;
        let ghost swapped = stats@;
        stats.set(idx, entry);
        proof {
            assert(stats@ == swapped.update(idx as int, entry));
            assert(stat_views(stats@) =~= record(views, word@, key@, grapheme_len as nat, byte_offset, at));
        }
    } else {
        proof {
            lemma_key_index(views, key@, -1);
        }
        stats.push(
            WordStats {
                text: word,
                key,
                count: 1,
                nearest_byte: byte_offset,
                in_viewport: in_vp,
                grapheme_len,
            },
        );
        proof {
            assert(stat_views(stats@) =~= record(views, word@, key@, grapheme_len as nat, byte_offset, at));
        }
    }
}

/// Collect word statistics from the text of the scan window: one entry per
/// distinct lowercase word, in order of first appearance.
pub fn collect_word_stats(
    text: &str,
    cursor_in_window: usize,
    viewport_start_in_window: usize,
    viewport_end_in_window: usize,
) -> (res: Vec<WordStats>)
    requires
        utf8_len(text@) <= usize::MAX,
        text@.len() <= u32::MAX,
    ensures
        stat_views(res@) == window_stats(
            text@,
            Vantage {
                cursor: cursor_in_window,
                vp_start: viewport_start_in_window,
                vp_end: viewport_end_in_window,
            },
        ),
        forall|j: int| 0 <= j < res@.len() ==> (#[trigger] res@[j]).nearest_byte <= utf8_len(text@),
        summarizes(
            stat_views(res@),
            window_spans(text@),
            window_keys(text@),
            Vantage {
                cursor: cursor_in_window,
                vp_start: viewport_start_in_window,
                vp_end: viewport_end_in_window,
            },
        ),
{
    let ghost at = Vantage {
        cursor: cursor_in_window,
        vp_start: viewport_start_in_window,
        vp_end: viewport_end_in_window,
    };
    let clusters = grapheme_clusters(text);
    let tokens = word_tokens(&clusters);
    let ghost spans = word_spans(spec_graphemes(text@));
    let ghost keys = spans.map_values(|w: WordSpan| spec_to_lowercase(w.text));
    proof {
        lemma_word_spans_len(str_views(clusters@));
        lemma_clusters_len(str_views(clusters@));
        assert(tokens@.len() == spans.len());
    }
    let mut stats: Vec<WordStats> = Vec::new();
    let mut i: usize = 0;
    while i < tokens.len()
        invariant
            i <= tokens.len(),
            tokens.len() <= u32::MAX,
            at == (Vantage {
                cursor: cursor_in_window,
                vp_start: viewport_start_in_window,
                vp_end: viewport_end_in_window,
            }),
            spans_of(tokens@) == spans,
            spans == word_spans(spec_graphemes(text@)),
            keys == spans.map_values(|w: WordSpan| spec_to_lowercase(w.text)),
            str_views(clusters@).flatten() == text@,
            forall|k: int| 0 <= k < tokens@.len() ==> (#[trigger] tokens@[k]).start <= utf8_len(text@),
            stat_views(stats@) == stats_of(spans.take(i as int), keys.take(i as int), at),
            forall|j: int| 0 <= j < stats@.len() ==> (#[trigger] stats@[j]).count <= i,
            forall|j: int| 0 <= j < stats@.len() ==> (#[trigger] stats@[j]).nearest_byte <= utf8_len(text@),
        decreases tokens.len() - i,
    {
        let key = to_lowercase(tokens[i].text.as_str());
        let ghost before = stat_views(stats@);
        let ghost old_stats = stats@;
        assert(tokens@[i as int]@ == spans[i as int]);
        let word = tokens[i].text.clone();
        assert(word@ == spans[i as int].text);
        assert(key@ == keys[i as int]);
        assert(keys.take(i + 1)[i as int] == keys[i as int]);
        assert(spans.take(i + 1).last() == spans[i as int]);
        record_word(
            &mut stats,
            word,
            key,
            tokens[i].clusters,
            tokens[i].start,
            cursor_in_window,
            viewport_start_in_window,
            viewport_end_in_window,
        );
        proof {
            assert(spans.take(i + 1).drop_last() =~= spans.take(i as int));
            assert(keys.take(i + 1).drop_last() =~= keys.take(i as int));
            let w = spans.take(i + 1).last();
            assert(w.start as usize == tokens@[i as int].start);
            assert(w.clusters == tokens@[i as int].clusters as nat);
            assert(stats_of(spans.take(i + 1), keys.take(i + 1), at) == record(
                stats_of(spans.take(i as int), keys.take(i as int), at),
                w.text,
                keys.take(i + 1)[i as int],
                w.clusters,
                w.start as usize,
                at,
            ));
            assert(before == stats_of(spans.take(i as int), keys.take(i as int), at));
            assert(stat_views(stats@) == stats_of(spans.take(i + 1), keys.take(i + 1), at));
            assert forall|j: int| 0 <= j < stats@.len() implies (#[trigger] stats@[j]).count <= i + 1
                && stats@[j].nearest_byte <= utf8_len(text@) by {
                assert(stat_views(stats@)[j] == stats@[j]@);
                let ki = key_index(before, key@);
                lemma_key_index_range(before, key@);
                if j < before.len() {
                    assert(before[j] == old_stats[j]@);
                }
                if ki >= 0 && j == ki {
                    assert(before[ki] == old_stats[ki]@);
                }
            }
        }
        i += 1;
    }
    assert(spans.take(tokens.len() as int) =~= spans);
    assert(keys.take(tokens.len() as int) =~= keys);
    proof {
        assert forall|w: int| 0 <= w < spans.len() implies 0 <= (#[trigger] spans[w]).start
            <= usize::MAX by {
            assert(tokens@[w]@ == spans[w]);
        }
        lemma_window_summary(spans, keys, at);
    }
    stats
}

/// Proximity part of a word's score: closer words score higher.
pub open spec fn proximity_score(s: StatView, cursor: usize) -> int {
    saturate_i64(500_000 - (offset_distance(s.nearest, cursor) as i64)) as int
}

/// Viewport boost: +100k if any occurrence is visible.
pub open spec fn viewport_boost(s: StatView) -> int {
    if s.in_viewport {
        100_000
    } else {
        0
    }
}

/// Frequency bonus: +5k per extra occurrence, counting at most ten.
pub open spec fn frequency_bonus(s: StatView) -> int {
    ((if s.count < 10 {
        s.count as int
    } else {
        10
    }) - 1) * 5_000
}

/// The relevance score of a word.
pub open spec fn word_score(s: StatView, cursor: usize) -> int {
    proximity_score(s, cursor) + viewport_boost(s) + frequency_bonus(s)
}

/// The score of a word can be summed up in an `i64` (the proximity part
/// plus the viewport boost, then the frequency bonus).
pub open spec fn score_fits(s: StatView, cursor: usize) -> bool {
    &&& proximity_score(s, cursor) + viewport_boost(s) <= i64::MAX
    &&& word_score(s, cursor) <= i64::MAX
}

/// How the score ranks two words of the window (for occurrences within
/// `i64::MAX` bytes of the cursor): with all else equal, the nearer word
/// scores higher, a visible word scores exactly 100k more, and a more
/// frequent word scores higher until both occur ten times or more.
pub proof fn lemma_score_orders(s: StatView, t: StatView, cursor: usize)
    requires
        offset_distance(s.nearest, cursor) <= i64::MAX,
        offset_distance(t.nearest, cursor) <= i64::MAX,
    ensures
        s.count == t.count && s.in_viewport == t.in_viewport && offset_distance(s.nearest, cursor)
            < offset_distance(t.nearest, cursor) ==> word_score(s, cursor) > word_score(t, cursor),
        s.count == t.count && offset_distance(s.nearest, cursor) == offset_distance(t.nearest, cursor)
            && s.in_viewport && !t.in_viewport ==> word_score(s, cursor) == word_score(t, cursor)
            + 100_000,
        s.in_viewport == t.in_viewport && offset_distance(s.nearest, cursor) == offset_distance(
            t.nearest,
            cursor,
        ) && t.count < s.count && t.count < 10 ==> word_score(s, cursor) > word_score(t, cursor),
        s.in_viewport == t.in_viewport && offset_distance(s.nearest, cursor) == offset_distance(
            t.nearest,
            cursor,
        ) && s.count >= 10 && t.count >= 10 ==> word_score(s, cursor) == word_score(t, cursor),
{
}

/// Compute the relevance score of a word.
fn score_word(s: &WordStats, cursor: usize) -> (res: i64)
    requires
        score_fits(s@, cursor),
    ensures
        res == word_score(s@, cursor),
{
    let dist = abs_diff(s.nearest_byte, cursor);
    let mut score: i64 = saturating_sub_i64(500_000, dist as i64);
    if s.in_viewport {
        score = score + 100_000;
    }
    let capped = if s.count < 10 {
        s.count
    } else {
        10
    };
    score = score + (capped as i64 - 1) * 5_000;
    score
}

/// What the buffer-word ranking is computed from: the word entries, the
/// lowercase key of the typed prefix and the cursor's offset in the window.
pub struct RankQuery {
    pub stats: Seq<StatView>,
    pub prefix_key: Seq<char>,
    pub cursor: usize,
}

impl RankQuery {
    /// Entry `i` is offered: it spans at least `MIN_WORD_LEN_GRAPHEMES`
    /// clusters and its key extends the prefix's key without equalling it.
    pub open spec fn offered(self, i: int) -> bool {
        &&& 0 <= i < self.stats.len()
        &&& self.stats[i].clusters >= MIN_WORD_LEN_GRAPHEMES
        &&& self.prefix_key.is_prefix_of(self.stats[i].key)
        &&& self.stats[i].key != self.prefix_key
    }

    pub open spec fn score(self, i: int) -> int {
        word_score(self.stats[i], self.cursor)
    }

    /// Entry `i` ranks above entry `j`: a higher score, or an equal score
    /// and an earlier first appearance.
    pub open spec fn better(self, i: int, j: int) -> bool {
        self.score(i) > self.score(j) || (self.score(i) == self.score(j) && i < j)
    }

    /// `sel` lists the offered entries, best first, cut after
    /// `MAX_CANDIDATES` of them.
    pub open spec fn is_selection(self, sel: Seq<int>) -> bool {
        &&& sel.len() <= MAX_CANDIDATES
        &&& forall|k: int| 0 <= k < sel.len() ==> self.offered(#[trigger] sel[k])
        &&& forall|k: int, l: int|
            0 <= k < l < sel.len() ==> self.better(#[trigger] sel[k], #[trigger] sel[l])
        &&& forall|i: int|
            #[trigger] self.offered(i) ==> sel.contains(i) || (sel.len() == MAX_CANDIDATES
                && self.better(sel.last(), i))
    }

    /// The candidate list `cs` shows the entries `sel` with their scores.
    pub open spec fn lists(self, cs: Seq<CompletionCandidate>, sel: Seq<int>) -> bool {
        &&& cs.len() == sel.len()
        &&& forall|k: int|
            0 <= k < sel.len() ==> is_word_candidate(
                #[trigger] cs[k],
                self.stats[sel[k]].text,
                self.score(sel[k]) as i64,
            )
    }

    /// The ranking entry of entry `i`: its negated score and its index.
    pub open spec fn entry(self, i: int) -> (i128, usize) {
        ((-self.score(i)) as i128, i as usize)
    }
}

/// The query that `rank_word_stats` answers for its arguments.
pub open spec fn rank_query(stats: Seq<WordStats>, prefix_key: Seq<char>, cursor: usize) -> RankQuery {
    RankQuery { stats: stat_views(stats), prefix_key, cursor }
}

/// Rank the word entries that complete a prefix by their score, best
/// first, and keep the first `MAX_CANDIDATES`.
pub fn rank_word_stats(stats: &Vec<WordStats>, prefix_key: &String, cursor: usize) -> (res: Vec<
    CompletionCandidate,
>)
    requires
        forall|i: int|
            #![trigger stats@[i]]
            rank_query(stats@, prefix_key@, cursor).offered(i) ==> score_fits(stats@[i]@, cursor),
    ensures
        exists|sel: Seq<int>|
            #[trigger] rank_query(stats@, prefix_key@, cursor).is_selection(sel) && rank_query(
                stats@,
                prefix_key@,
                cursor,
            ).lists(res@, sel),
{
    let ghost q = rank_query(stats@, prefix_key@, cursor);
    let mut entries: Vec<(i128, usize)> = Vec::new();
    let mut i: usize = 0;
    while i < stats.len()
        invariant
            i <= stats.len(),
            q == rank_query(stats@, prefix_key@, cursor),
            forall|i: int| #![trigger stats@[i]] q.offered(i) ==> score_fits(stats@[i]@, cursor),
            increasing_indices(entries@),
            forall|a: int| 0 <= a < entries.len() ==> (#[trigger] entries@[a]).1 < i,
            forall|x: (i128, usize)|
                #[trigger] entries@.contains(x) <==> (x.1 < i && q.offered(x.1 as int) && x
                    == q.entry(x.1 as int)),
        decreases stats.len() - i,
    {
        assert(q.stats[i as int] == stats@[i as int]@);
        if stats[i].grapheme_len >= MIN_WORD_LEN_GRAPHEMES && starts_with(
            stats[i].key.as_str(),
            prefix_key.as_str(),
        ) && !(stats[i].key == *prefix_key) {
            let score = score_word(&stats[i], cursor);
            let ghost old_entries = entries@;
            entries.push((-(score as i128), i));
            proof {
                assert forall|x: (i128, usize)| #[trigger]
                    entries@.contains(x) <==> (x.1 < i + 1 && q.offered(x.1 as int) && x
                        == q.entry(x.1 as int)) by {
                    if x == q.entry(i as int) {
                        assert(entries@[old_entries.len() as int] == x);
                    }
                    if entries@.contains(x) && x != q.entry(i as int) {
                        let a = choose|a: int| 0 <= a < entries@.len() && entries@[a] == x;
                        assert(old_entries[a] == x);
                    }
                    if old_entries.contains(x) {
                        let a = choose|a: int| 0 <= a < old_entries.len() && old_entries[a] == x;
                        assert(entries@[a] == x);
                    }
                }
            }
        } else {
            proof {
                assert forall|x: (i128, usize)| #[trigger]
                    entries@.contains(x) <==> (x.1 < i + 1 && q.offered(x.1 as int) && x
                        == q.entry(x.1 as int)) by {
                    if x.1 == i {
                        assert(!q.offered(i as int));
                    }
                }
            }
        }
        i += 1;
    }
    let sorted = sort_by_rank(&entries);
    let ghost lst = sorted@;
    let take = if sorted.len() < MAX_CANDIDATES {
        sorted.len()
    } else {
        MAX_CANDIDATES
    };
    let mut out: Vec<CompletionCandidate> = Vec::new();
    let mut j: usize = 0;
    while j < take
        invariant
            j <= take,
            take <= sorted.len(),
            lst == sorted@,
            q == rank_query(stats@, prefix_key@, cursor),
            forall|i: int| #![trigger stats@[i]] q.offered(i) ==> score_fits(stats@[i]@, cursor),
            forall|x: (i128, usize)|
                #[trigger] lst.contains(x) <==> (q.offered(x.1 as int) && x == q.entry(x.1 as int)),
            out.len() == j,
            forall|k: int|
                0 <= k < j ==> is_word_candidate(
                    #[trigger] out@[k],
                    q.stats[lst[k].1 as int].text,
                    q.score(lst[k].1 as int) as i64,
                ),
        decreases take - j,
    {
        let wi = sorted[j].1;
        proof {
            assert(lst.contains(lst[j as int]));
            assert(q.stats[wi as int] == stats@[wi as int]@);
        }
        let score = score_word(&stats[wi], cursor);
        out.push(CompletionCandidate::word(stats[wi].text.clone(), score));
        j += 1;
    }
    proof {
        let sel = lst.take(take as int).map_values(|x: (i128, usize)| x.1 as int);
        assert forall|k: int| 0 <= k < sel.len() implies q.offered(#[trigger] sel[k]) && lst[k]
            == q.entry(sel[k]) by {
            assert(lst.contains(lst[k]));
        }
        assert forall|k: int, l: int| 0 <= k < l < sel.len() implies q.better(
            #[trigger] sel[k],
            #[trigger] sel[l],
        ) by {
            assert(lst.contains(lst[k]));
            assert(lst.contains(lst[l]));
            assert(rank_before(lst[k], lst[l]));
        }
        assert forall|i: int| #[trigger]
            q.offered(i) implies sel.contains(i) || (sel.len() == MAX_CANDIDATES && q.better(
                sel.last(),
                i,
            )) by {
            assert(lst.contains(q.entry(i)));
            let p = choose|p: int| 0 <= p < lst.len() && lst[p] == q.entry(i);
            if p < take {
                assert(sel[p] == i);
            } else {
                assert(lst.contains(lst[take - 1]));
                assert(rank_before(lst[take - 1], lst[p]));
            }
        }
        assert(q.lists(out@, sel));
        assert(q.is_selection(sel));
    }
    out
}

/// The buffer-word ranking is determined: only one list of entries
/// satisfies it.
pub proof fn lemma_ranking_unique(q: RankQuery, s1: Seq<int>, s2: Seq<int>)
    requires
        q.is_selection(s1),
        q.is_selection(s2),
    ensures
        s1 == s2,
{
    let offered = |i: int| q.offered(i);
    let better = |i: int, j: int| q.better(i, j);
    assert(strict_total(better));
    assert(is_top(offered, better, MAX_CANDIDATES as nat, s1));
    assert(is_top(offered, better, MAX_CANDIDATES as nat, s2));
    lemma_top_unique(offered, better, MAX_CANDIDATES as nat, s1, s2);
}

/// A buffer-word result lists every offered entry, up to
/// `MAX_CANDIDATES`: its length is the number of offered entries, or
/// `MAX_CANDIDATES` when there are more.
pub proof fn lemma_ranking_count(q: RankQuery, sel: Seq<int>)
    requires
        q.is_selection(sel),
    ensures
        offered_set(|i: int| q.offered(i)).finite(),
        sel.len() == if offered_set(|i: int| q.offered(i)).len() < MAX_CANDIDATES {
            offered_set(|i: int| q.offered(i)).len()
        } else {
            MAX_CANDIDATES as nat
        },
{
    let offered = |i: int| q.offered(i);
    let better = |i: int, j: int| q.better(i, j);
    assert(strict_total(better));
    assert(is_top(offered, better, MAX_CANDIDATES as nat, sel));
    lemma_top_count(offered, better, MAX_CANDIDATES as nat, sel, q.stats.len() as int);
}

/// When the entries have distinct keys, a buffer-word result offers each
/// lowercase word at most once.
pub proof fn lemma_ranking_keys_distinct(q: RankQuery, sel: Seq<int>)
    requires
        q.is_selection(sel),
        keys_distinct(q.stats),
    ensures
        forall|k: int, l: int|
            0 <= k < sel.len() && 0 <= l < sel.len() && k != l ==> q.stats[#[trigger] sel[k]].key
                != q.stats[#[trigger] sel[l]].key,
{
    assert forall|k: int, l: int|
        0 <= k < sel.len() && 0 <= l < sel.len() && k != l implies q.stats[#[trigger] sel[k]].key
        != q.stats[#[trigger] sel[l]].key by {
        let (a, b) = if k < l {
            (k, l)
        } else {
            (l, k)
        };
        assert(q.better(sel[a], sel[b]));
        assert(q.offered(sel[a]) && q.offered(sel[b]));
        if sel[a] < sel[b] {
            assert(q.stats[sel[a]].key != q.stats[sel[b]].key);
        } else {
            assert(q.stats[sel[b]].key != q.stats[sel[a]].key);
        }
    }
}

/// Where the occurrences of words in the window are measured from: the
/// cursor, and the viewport cut to the window.
pub open spec fn window_vantage(ctx: CompletionContext, window_len: nat) -> Vantage {
    let vp_bottom = window_offset(ctx.viewport_bottom_byte, ctx.scan_range.start);
    Vantage {
        cursor: cursor_in_window(ctx),
        vp_start: window_offset(ctx.viewport_top_byte, ctx.scan_range.start),
        vp_end: if vp_bottom < window_len {
            vp_bottom
        } else {
            window_len as usize
        },
    }
}

/// The query the buffer-word provider answers for a context and window:
/// the word entries of the window's text, and the typed prefix in
/// lowercase.
pub open spec fn buffer_words_query(ctx: CompletionContext, window: Seq<u8>) -> RankQuery {
    RankQuery {
        stats: window_stats(spec_utf8_lossy(window), window_vantage(ctx, window.len())),
        prefix_key: spec_to_lowercase(ctx.prefix@),
        cursor: cursor_in_window(ctx),
    }
}

impl CompletionProvider for BufferWordProvider {
    fn id(&self) -> (res: CompletionSourceId)
        ensures
            res.0@ == "buffer_words"@,
    {
        CompletionSourceId("buffer_words".to_owned())
    }

    fn display_name(&self) -> (res: &str)
        ensures
            res@ == "Buffer Words"@,
    {
        "Buffer Words"
    }

    fn is_enabled(&self, ctx: &CompletionContext) -> (res: bool)
        ensures
            res == (ctx.prefix@.len() > 0),
    {
        !ctx.prefix.as_str().is_empty()
    }

    /// Offer the distinct words of the window that extend the typed prefix
    /// (case-insensitively), best score first.
    fn provide(&self, ctx: &CompletionContext, buffer_window: &[u8]) -> (res: ProviderResult)
        ensures
            res matches ProviderResult::Ready(cs) && exists|sel: Seq<int>|
                #[trigger] buffer_words_query(*ctx, buffer_window@).is_selection(sel)
                    && buffer_words_query(*ctx, buffer_window@).lists(cs@, sel),
            // The entries ranked are those of the window's words: distinct
            // lowercase words, each shown by its first occurrence and summing
            // up its occurrences.
            summarizes(
                buffer_words_query(*ctx, buffer_window@).stats,
                window_spans(spec_utf8_lossy(buffer_window@)),
                window_keys(spec_utf8_lossy(buffer_window@)),
                window_vantage(*ctx, buffer_window@.len()),
            ),
    {
        let text = utf8_lossy(buffer_window);
        let prefix_lower = to_lowercase(ctx.prefix.as_str());
        let cursor = ctx.cursor_byte.saturating_sub(ctx.scan_range.start);
        let vp_start = ctx.viewport_top_byte.saturating_sub(ctx.scan_range.start);
        let vp_bottom = ctx.viewport_bottom_byte.saturating_sub(ctx.scan_range.start);
        let vp_end = if vp_bottom < buffer_window.len() {
            vp_bottom
        } else {
            buffer_window.len()
        };
        let stats = collect_word_stats(text.as_str(), cursor, vp_start, vp_end);
        proof {
            assert forall|i: int|
                #![trigger stats@[i]]
                rank_query(stats@, prefix_lower@, cursor).offered(i) implies score_fits(
                stats@[i]@,
                cursor,
            ) by {
                assert(stats@[i].nearest_byte <= utf8_len(text@));
                assert(offset_distance(stats@[i].nearest_byte, cursor) <= i64::MAX);
            }
        }
        let candidates = rank_word_stats(&stats, &prefix_lower, cursor);
        assert(rank_query(stats@, prefix_lower@, cursor) == buffer_words_query(
            *ctx,
            buffer_window@,
        ));
        ProviderResult::Ready(candidates)
    }

    fn priority(&self) -> (res: u32)
        ensures
            res == 20,
    {
        20
    }
}

/// The number of words whose key is `key`.
pub open spec fn key_count(keys: Seq<Seq<char>>, key: Seq<char>) -> nat
    decreases keys.len(),
{
    if keys.len() == 0 {
        0
    } else {
        key_count(keys.drop_last(), key) + if keys.last() == key {
            1nat
        } else {
            0nat
        }
    }
}

/// A key that no word has is counted zero times.
proof fn lemma_key_count_absent(keys: Seq<Seq<char>>, key: Seq<char>)
    requires
        forall|w: int| 0 <= w < keys.len() ==> keys[w] != key,
    ensures
        key_count(keys, key) == 0,
    decreases keys.len(),
{
    if keys.len() > 0 {
        lemma_key_count_absent(keys.drop_last(), key);
    }
}

/// Word `w` is an occurrence of `key`.
pub open spec fn occurs(keys: Seq<Seq<char>>, key: Seq<char>, w: int) -> bool {
    0 <= w < keys.len() && keys[w] == key
}

/// No two entries share a key.
pub open spec fn keys_distinct(st: Seq<StatView>) -> bool {
    forall|i: int, j: int| 0 <= i < j < st.len() ==> (#[trigger] st[i]).key != (#[trigger] st[j]).key
}

/// Every word's key has an entry.
pub open spec fn keys_covered(st: Seq<StatView>, keys: Seq<Seq<char>>) -> bool {
    forall|w: int|
        0 <= w < keys.len() ==> exists|j: int|
            0 <= j < st.len() && (#[trigger] st[j]).key == #[trigger] keys[w]
}

/// Every entry belongs to some word.
pub open spec fn keys_occur(st: Seq<StatView>, keys: Seq<Seq<char>>) -> bool {
    forall|j: int| 0 <= j < st.len() ==> has_occurrence(keys, (#[trigger] st[j]).key)
}

/// Some word has the key `key`.
pub open spec fn has_occurrence(keys: Seq<Seq<char>>, key: Seq<char>) -> bool {
    exists|w: int| occurs(keys, key, w)
}

/// Entry `s` shows the text and cluster count of its key's first occurrence.
pub open spec fn shows_first(s: StatView, spans: Seq<WordSpan>, keys: Seq<Seq<char>>) -> bool {
    exists|w: int|
        #[trigger] occurs(keys, s.key, w) && s.text == spans[w].text && s.clusters
            == spans[w].clusters && forall|v: int| 0 <= v < w ==> keys[v] != s.key
}

/// Entry `s` notes whether an occurrence of its key starts in the viewport.
pub open spec fn notes_viewport(s: StatView, spans: Seq<WordSpan>, keys: Seq<Seq<char>>, at: Vantage) -> bool {
    s.in_viewport == exists|w: int|
        #[trigger] occurs(keys, s.key, w) && at.vp_start <= spans[w].start < at.vp_end
}

/// Entry `s` records the occurrence of its key nearest the cursor, the
/// earliest one when several are equally near: no occurrence is nearer,
/// and every earlier occurrence is farther.
pub open spec fn records_nearest(s: StatView, spans: Seq<WordSpan>, keys: Seq<Seq<char>>, at: Vantage) -> bool {
    &&& exists|w: int| #[trigger] earliest_nearest(s, spans, keys, at, w)
    &&& forall|v: int|
        #[trigger] occurs(keys, s.key, v) ==> offset_distance(s.nearest, at.cursor) <= offset_distance(
            spans[v].start as usize,
            at.cursor,
        )
}

/// Occurrence `w` is the one entry `s` records: it starts at `s.nearest`,
/// and every earlier occurrence of the key is strictly farther from the
/// cursor.
pub open spec fn earliest_nearest(
    s: StatView,
    spans: Seq<WordSpan>,
    keys: Seq<Seq<char>>,
    at: Vantage,
    w: int,
) -> bool {
    &&& occurs(keys, s.key, w)
    &&& s.nearest == spans[w].start
    &&& forall|v: int|
        #[trigger] occurs(keys, s.key, v) && v < w ==> offset_distance(s.nearest, at.cursor)
            < offset_distance(spans[v].start as usize, at.cursor)
}

/// Recording a word keeps the entries of other keys and updates (or adds)
/// the entry of its own key.
proof fn lemma_record_shape(
    st: Seq<StatView>,
    text: Seq<char>,
    key: Seq<char>,
    clusters: nat,
    offset: usize,
    at: Vantage,
)
    ensures
        -1 <= key_index(st, key) < st.len(),
        key_index(st, key) >= 0 ==> ({
            let r = record(st, text, key, clusters, offset, at);
            let i = key_index(st, key);
            &&& r.len() == st.len()
            &&& st[i].key == key
            &&& r[i] == StatView {
                count: st[i].count + 1,
                nearest: if offset_distance(offset, at.cursor) < offset_distance(
                    st[i].nearest,
                    at.cursor,
                ) {
                    offset
                } else {
                    st[i].nearest
                },
                in_viewport: st[i].in_viewport || (at.vp_start <= offset && offset < at.vp_end),
                ..st[i]
            }
            &&& forall|j: int| 0 <= j < st.len() && j != i ==> #[trigger] r[j] == st[j]
        }),
        key_index(st, key) < 0 ==> ({
            let r = record(st, text, key, clusters, offset, at);
            &&& r.len() == st.len() + 1
            &&& r[st.len() as int] == StatView {
                text,
                key,
                count: 1,
                nearest: offset,
                in_viewport: at.vp_start <= offset && offset < at.vp_end,
                clusters,
            }
            &&& forall|j: int| 0 <= j < st.len() ==> #[trigger] r[j] == st[j]
            &&& forall|j: int| 0 <= j < st.len() ==> (#[trigger] st[j]).key != key
        }),
{
    lemma_key_index_range(st, key);
}

/// The entries after one more word are those before it, recorded with it.
proof fn lemma_stats_step(spans: Seq<WordSpan>, keys: Seq<Seq<char>>, at: Vantage)
    requires
        spans.len() == keys.len(),
        spans.len() > 0,
    ensures
        stats_of(spans, keys, at) == record(
            stats_of(spans.drop_last(), keys.drop_last(), at),
            spans.last().text,
            keys.last(),
            spans.last().clusters,
            spans.last().start as usize,
            at,
        ),
        spans == spans.drop_last().push(spans.last()),
        keys == keys.drop_last().push(keys.last()),
{
    assert(spans =~= spans.drop_last().push(spans.last()));
    assert(keys =~= keys.drop_last().push(keys.last()));
}

/// Recording one more word keeps the keys distinct, covered and occurring.
#[verifier::rlimit(100)]
proof fn lemma_record_keys(
    old_st: Seq<StatView>,
    pk: Seq<Seq<char>>,
    w: WordSpan,
    key: Seq<char>,
    at: Vantage,
)
    requires
        keys_distinct(old_st),
        keys_covered(old_st, pk),
        keys_occur(old_st, pk),
    ensures
        keys_distinct(record(old_st, w.text, key, w.clusters, w.start as usize, at)),
        keys_covered(record(old_st, w.text, key, w.clusters, w.start as usize, at), pk.push(key)),
        keys_occur(record(old_st, w.text, key, w.clusters, w.start as usize, at), pk.push(key)),
{
    let st = record(old_st, w.text, key, w.clusters, w.start as usize, at);
    let keys = pk.push(key);
    let n = pk.len() as int;
    lemma_record_shape(old_st, w.text, key, w.clusters, w.start as usize, at);
    let i = key_index(old_st, key);
    assert forall|a: int, b: int| 0 <= a < b < st.len() implies (#[trigger] st[a]).key != (
    #[trigger] st[b]).key by {
        if i >= 0 {
            if a != i {
                assert(st[a] == old_st[a]);
            }
            if b != i {
                assert(st[b] == old_st[b]);
            }
        } else {
            assert(st[a] == old_st[a]);
            if b < old_st.len() {
                assert(st[b] == old_st[b]);
            }
        }
    }
    assert forall|v: int| 0 <= v < keys.len() implies exists|j: int|
        0 <= j < st.len() && (#[trigger] st[j]).key == #[trigger] keys[v] by {
        if v < n {
            assert(pk[v] == keys[v]);
            let j = choose|j: int| 0 <= j < old_st.len() && (#[trigger] old_st[j]).key == #[trigger] pk[v];
            if i >= 0 && j == i {
                assert(st[j].key == keys[v]);
            } else {
                assert(st[j] == old_st[j]);
            }
        } else if i >= 0 {
            assert(st[i].key == keys[v]);
        } else {
            assert(st[old_st.len() as int].key == keys[v]);
        }
    }
    assert forall|j: int| 0 <= j < st.len() implies has_occurrence(keys, (#[trigger] st[j]).key) by {
        if i >= 0 && j == i {
            assert(occurs(keys, st[j].key, n));
            assert(exists|v: int| occurs(keys, st[j].key, v));
        } else if i < 0 && j == old_st.len() {
            assert(occurs(keys, st[j].key, n));
            assert(exists|v: int| occurs(keys, st[j].key, v));
        } else {
            assert(st[j] == old_st[j]);
            assert(has_occurrence(pk, old_st[j].key));
            let v = choose|v: int| occurs(pk, old_st[j].key, v);
            assert(occurs(pk, old_st[j].key, v));
            assert(occurs(keys, st[j].key, v));
            assert(exists|v: int| occurs(keys, st[j].key, v));
        }
    }
    assert(keys_occur(st, keys));
}

/// The word entries have distinct keys, every word's key has one, and
/// every entry's key is some word's.
pub proof fn lemma_stats_keys(spans: Seq<WordSpan>, keys: Seq<Seq<char>>, at: Vantage)
    requires
        spans.len() == keys.len(),
    ensures
        keys_distinct(stats_of(spans, keys, at)),
        keys_covered(stats_of(spans, keys, at), keys),
        keys_occur(stats_of(spans, keys, at), keys),
    decreases spans.len(),
{
    if spans.len() > 0 {
        lemma_stats_keys(spans.drop_last(), keys.drop_last(), at);
        lemma_stats_step(spans, keys, at);
        lemma_record_keys(
            stats_of(spans.drop_last(), keys.drop_last(), at),
            keys.drop_last(),
            spans.last(),
            keys.last(),
            at,
        );
    }
}

/// A key without an entry is no word's key.
proof fn lemma_new_key_fresh(old_st: Seq<StatView>, pk: Seq<Seq<char>>, key: Seq<char>)
    requires
        keys_covered(old_st, pk),
        forall|j: int| 0 <= j < old_st.len() ==> (#[trigger] old_st[j]).key != key,
    ensures
        forall|v: int| 0 <= v < pk.len() ==> pk[v] != key,
{
    assert forall|v: int| 0 <= v < pk.len() implies pk[v] != key by {
        if pk[v] == key {
            let k = choose|k: int| 0 <= k < old_st.len() && (#[trigger] old_st[k]).key == #[trigger] pk[v];
            assert(old_st[k].key == key);
        }
    }
}

/// Entry `s` counts the occurrences of its key.
pub open spec fn counts_key(s: StatView, keys: Seq<Seq<char>>) -> bool {
    s.count == key_count(keys, s.key)
}

/// An entry sums up the occurrences of its key among the words `spans`
/// (with keys `keys`): it counts them, shows the first, notes whether one
/// is in the viewport and records the one nearest the cursor.
#[verifier::opaque]
pub open spec fn sums_up(s: StatView, spans: Seq<WordSpan>, keys: Seq<Seq<char>>, at: Vantage) -> bool {
    &&& counts_key(s, keys)
    &&& shows_first(s, spans, keys)
    &&& notes_viewport(s, spans, keys, at)
    &&& records_nearest(s, spans, keys, at)
}

/// The entry a new key gets sums up its one occurrence.
proof fn lemma_record_new_entry(
    old_st: Seq<StatView>,
    ps: Seq<WordSpan>,
    pk: Seq<Seq<char>>,
    w: WordSpan,
    key: Seq<char>,
    at: Vantage,
)
    requires
        ps.len() == pk.len(),
        0 <= w.start <= usize::MAX,
        forall|v: int| 0 <= v < pk.len() ==> pk[v] != key,
        key_index(old_st, key) < 0,
    ensures
        sums_up(
            record(old_st, w.text, key, w.clusters, w.start as usize, at)[old_st.len() as int],
            ps.push(w),
            pk.push(key),
            at,
        ),
{
    reveal(sums_up);
    let st = record(old_st, w.text, key, w.clusters, w.start as usize, at);
    let keys = pk.push(key);
    let spans = ps.push(w);
    let n = pk.len() as int;
    lemma_record_shape(old_st, w.text, key, w.clusters, w.start as usize, at);
    lemma_key_count_absent(pk, key);
    assert(keys.drop_last() =~= pk);
    let s = st[old_st.len() as int];
    assert(s.key == key);
    assert(occurs(keys, key, n));
    assert forall|v: int| #[trigger] occurs(keys, key, v) implies v == n by {
        if v < n {
            assert(keys[v] == pk[v]);
        }
    }
    assert(shows_first(s, spans, keys));
    if s.in_viewport {
        assert(occurs(keys, s.key, n));
    }
    assert(notes_viewport(s, spans, keys, at));
    assert(earliest_nearest(s, spans, keys, at, n));
    assert(records_nearest(s, spans, keys, at));
}

/// An entry that was there before still sums up its key's occurrences
/// after one more word is recorded; `updated` tells whether the word has
/// the entry's key.
proof fn lemma_record_old_entry(
    old_st: Seq<StatView>,
    ps: Seq<WordSpan>,
    pk: Seq<Seq<char>>,
    w: WordSpan,
    key: Seq<char>,
    at: Vantage,
    j: int,
)
    requires
        ps.len() == pk.len(),
        0 <= w.start <= usize::MAX,
        0 <= j < old_st.len(),
        sums_up(old_st[j], ps, pk, at),
        (j == key_index(old_st, key)) == (old_st[j].key == key),
    ensures
        sums_up(
            record(old_st, w.text, key, w.clusters, w.start as usize, at)[j],
            ps.push(w),
            pk.push(key),
            at,
        ),
{
    reveal(sums_up);
    let st = record(old_st, w.text, key, w.clusters, w.start as usize, at);
    let keys = pk.push(key);
    let spans = ps.push(w);
    let n = pk.len() as int;
    let off = w.start as usize;
    lemma_record_shape(old_st, w.text, key, w.clusters, off, at);
    let i = key_index(old_st, key);
    assert(keys.drop_last() =~= pk);
    let s = st[j];
    let o = old_st[j];
    assert(s.key == o.key && s.text == o.text && s.clusters == o.clusters);
    assert(forall|v: int| 0 <= v < n ==> keys[v] == pk[v] && spans[v] == ps[v]);
    assert(counts_key(s, keys));
    // first occurrence
    let u = choose|u: int|
        #[trigger] occurs(pk, o.key, u) && o.text == ps[u].text && o.clusters == ps[u].clusters
            && forall|v: int| 0 <= v < u ==> pk[v] != o.key;
    assert(occurs(keys, o.key, u));
    assert(shows_first(s, spans, keys));
    // viewport
    if o.in_viewport {
        let u2 = choose|u2: int|
            #[trigger] occurs(pk, o.key, u2) && at.vp_start <= ps[u2].start < at.vp_end;
        assert(occurs(keys, o.key, u2));
    }
    if j == i && at.vp_start <= off && off < at.vp_end {
        assert(occurs(keys, o.key, n));
    }
    if exists|u2: int| #[trigger] occurs(keys, s.key, u2) && at.vp_start <= spans[u2].start < at.vp_end {
        let u2 = choose|u2: int|
            #[trigger] occurs(keys, s.key, u2) && at.vp_start <= spans[u2].start < at.vp_end;
        if u2 < n {
            assert(occurs(pk, o.key, u2));
        }
    }
    assert(notes_viewport(s, spans, keys, at));
    // nearest
    let m = choose|m: int| #[trigger] earliest_nearest(o, ps, pk, at, m);
    assert(occurs(keys, o.key, m));
    if j == i {
        assert(occurs(keys, o.key, n));
    }
    if j == i && offset_distance(off, at.cursor) < offset_distance(o.nearest, at.cursor) {
        assert forall|v: int| #[trigger] occurs(keys, s.key, v) && v < n implies offset_distance(
            s.nearest,
            at.cursor,
        ) < offset_distance(spans[v].start as usize, at.cursor) by {
            assert(occurs(pk, o.key, v));
        }
        assert(earliest_nearest(s, spans, keys, at, n));
    } else {
        assert(s.nearest == o.nearest);
        assert forall|v: int| #[trigger] occurs(keys, s.key, v) && v < m implies offset_distance(
            s.nearest,
            at.cursor,
        ) < offset_distance(spans[v].start as usize, at.cursor) by {
            assert(occurs(pk, o.key, v));
        }
        assert(earliest_nearest(s, spans, keys, at, m));
    }
    assert forall|v: int| #[trigger] occurs(keys, s.key, v) implies offset_distance(
        s.nearest,
        at.cursor,
    ) <= offset_distance(spans[v].start as usize, at.cursor) by {
        if v < n {
            assert(occurs(pk, o.key, v));
        }
    }
    assert(records_nearest(s, spans, keys, at));
}

/// Recording one more word keeps every entry's summary right.
proof fn lemma_record_summaries(
    old_st: Seq<StatView>,
    ps: Seq<WordSpan>,
    pk: Seq<Seq<char>>,
    w: WordSpan,
    key: Seq<char>,
    at: Vantage,
)
    requires
        ps.len() == pk.len(),
        0 <= w.start <= usize::MAX,
        keys_distinct(old_st),
        keys_covered(old_st, pk),
        forall|j: int| 0 <= j < old_st.len() ==> sums_up(#[trigger] old_st[j], ps, pk, at),
    ensures
        ({
            let st = record(old_st, w.text, key, w.clusters, w.start as usize, at);
            forall|j: int| 0 <= j < st.len() ==> sums_up(#[trigger] st[j], ps.push(w), pk.push(key), at)
        }),
{
    let st = record(old_st, w.text, key, w.clusters, w.start as usize, at);
    lemma_record_shape(old_st, w.text, key, w.clusters, w.start as usize, at);
    let i = key_index(old_st, key);
    if i < 0 {
        lemma_new_key_fresh(old_st, pk, key);
        lemma_record_new_entry(old_st, ps, pk, w, key, at);
    }
    assert forall|j: int| 0 <= j < st.len() implies sums_up(#[trigger] st[j], ps.push(w), pk.push(key), at) by {
        if j < old_st.len() {
            if i >= 0 && j != i {
                assert(old_st[i].key == key);
                if j < i {
                    assert(old_st[j].key != old_st[i].key);
                } else {
                    assert(old_st[i].key != old_st[j].key);
                }
            }
            lemma_record_old_entry(old_st, ps, pk, w, key, at, j);
        }
    }
}

/// Each entry counts its key's occurrences, shows its first occurrence,
/// notes the viewport and records the occurrence nearest the cursor.
pub proof fn lemma_stats_summaries(spans: Seq<WordSpan>, keys: Seq<Seq<char>>, at: Vantage)
    requires
        spans.len() == keys.len(),
        forall|w: int| 0 <= w < spans.len() ==> 0 <= (#[trigger] spans[w]).start <= usize::MAX,
    ensures
        forall|j: int|
            0 <= j < stats_of(spans, keys, at).len() ==> sums_up(
                #[trigger] stats_of(spans, keys, at)[j],
                spans,
                keys,
                at,
            ),
    decreases spans.len(),
{
    if spans.len() > 0 {
        let ps = spans.drop_last();
        assert forall|w: int| 0 <= w < ps.len() implies 0 <= (#[trigger] ps[w]).start <= usize::MAX by {
            assert(ps[w] == spans[w]);
        }
        lemma_stats_summaries(ps, keys.drop_last(), at);
        lemma_stats_keys(ps, keys.drop_last(), at);
        lemma_stats_step(spans, keys, at);
        assert(0 <= spans.last().start <= usize::MAX);
        lemma_record_summaries(
            stats_of(ps, keys.drop_last(), at),
            ps,
            keys.drop_last(),
            spans.last(),
            keys.last(),
            at,
        );
    }
}

/// The entries sum up the words `spans` (with lowercase keys `keys`): one
/// entry per distinct key (and every word's key has one), each keyed by the
/// lowercase form of its text, counting its key's occurrences, showing the
/// first, noting whether one starts in the viewport and recording the one
/// nearest the cursor.
#[verifier::opaque]
pub open spec fn summarizes(st: Seq<StatView>, spans: Seq<WordSpan>, keys: Seq<Seq<char>>, at: Vantage) -> bool {
    &&& keys_distinct(st)
    &&& keys_covered(st, keys)
    &&& forall|j: int|
        0 <= j < st.len() ==> (#[trigger] st[j]).key == spec_to_lowercase(st[j].text) && sums_up(
            st[j],
            spans,
            keys,
            at,
        )
}

/// The entries recorded from a text's words sum them up.
proof fn lemma_window_summary(spans: Seq<WordSpan>, keys: Seq<Seq<char>>, at: Vantage)
    requires
        keys == spans.map_values(|w: WordSpan| spec_to_lowercase(w.text)),
        forall|w: int| 0 <= w < spans.len() ==> 0 <= (#[trigger] spans[w]).start <= usize::MAX,
    ensures
        summarizes(stats_of(spans, keys, at), spans, keys, at),
{
    reveal(summarizes);
    reveal(sums_up);
    lemma_stats_keys(spans, keys, at);
    lemma_stats_summaries(spans, keys, at);
    let st = stats_of(spans, keys, at);
    assert forall|j: int| 0 <= j < st.len() implies (#[trigger] st[j]).key == spec_to_lowercase(
        st[j].text,
    ) by {
        assert(sums_up(st[j], spans, keys, at));
        let w = choose|w: int|
            #[trigger] occurs(keys, st[j].key, w) && st[j].text == spans[w].text && st[j].clusters
                == spans[w].clusters && forall|v: int| 0 <= v < w ==> keys[v] != st[j].key;
    }
}

/// Matching is case-insensitive in the typed prefix too: two contexts that
/// differ only in their prefixes, where the prefixes have the same lowercase
/// form, ask the same question of a window, so `provide` offers the same
/// candidates for both.
pub proof fn lemma_prefix_case_insensitive(c1: CompletionContext, c2: CompletionContext, window: Seq<u8>)
    requires
        spec_to_lowercase(c1.prefix@) == spec_to_lowercase(c2.prefix@),
        c1.cursor_byte == c2.cursor_byte,
        c1.scan_range == c2.scan_range,
        c1.viewport_top_byte == c2.viewport_top_byte,
        c1.viewport_bottom_byte == c2.viewport_bottom_byte,
    ensures
        buffer_words_query(c1, window) == buffer_words_query(c2, window),
        forall|s1: Seq<int>, s2: Seq<int>|
            buffer_words_query(c1, window).is_selection(s1) && buffer_words_query(
                c2,
                window,
            ).is_selection(s2) ==> s1 == s2,
{
    assert forall|s1: Seq<int>, s2: Seq<int>|
        buffer_words_query(c1, window).is_selection(s1) && buffer_words_query(
            c2,
            window,
        ).is_selection(s2) implies s1 == s2 by {
        lemma_ranking_unique(buffer_words_query(c1, window), s1, s2);
    }
}

} // verus!
