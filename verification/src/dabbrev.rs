//! Dynamic Abbreviation (dabbrev) completion provider.
//!
//! Scans buffer text near the cursor for words that share the typed prefix,
//! ordered by proximity to the cursor (nearest first). This mirrors the
//! behaviour of Emacs `dabbrev-expand` / `hippie-expand`.
//!
//! Only the byte window supplied by the completion service is read. Word
//! boundaries follow Unicode grapheme clusters, so identifiers containing
//! accented characters, CJK, or emoji are handled correctly.

use vstd::prelude::*;
use vstd::string::*;
use crate::provider::{
    CompletionCandidate, CompletionContext, CompletionProvider, CompletionSourceId,
    ProviderResult, cursor_in_window, is_word_candidate,
};
use crate::rank::{
    abs_diff, increasing_indices, is_top, lemma_top_count, lemma_top_unique, offered_set,
    offset_distance, rank_before,
    saturate_i64, saturating_sub_i64, sort_by_rank, strict_total, strictly_ranked,
};
use crate::text::{
    byte_len, contains_string, grapheme_clusters, spec_graphemes, spec_to_lowercase,
    spec_utf8_lossy, starts_with, str_views, string_views, to_lowercase, utf8_len, utf8_lossy,
};
use crate::words::{
    WordSpan, lemma_word_occurs, lemma_word_spans_runs, lemma_word_spans_start_bound, occurs_at,
    word_spans, word_tokens,
};

verus! {

/// Maximum number of candidates the dabbrev provider returns.
pub const MAX_CANDIDATES: usize = 30;

pub struct DabbrevProvider;

impl DabbrevProvider {
    pub fn new() -> Self {
        DabbrevProvider
    }
}

impl Default for DabbrevProvider {
    fn default() -> (res: Self)
        ensures
            res == DabbrevProvider,
    {
        Self::new()
    }
}

/// The words of `text` with their byte offsets, in order of appearance.
pub open spec fn text_words(text: Seq<char>) -> Seq<(usize, Seq<char>)> {
    word_spans(spec_graphemes(text)).map_values(|w: WordSpan| (w.start as usize, w.text))
}

/// The model of a list of `(byte_offset, word)` pairs.
pub open spec fn word_pairs(words: Seq<(usize, String)>) -> Seq<(usize, Seq<char>)> {
    words.map_values(|w: (usize, String)| (w.0, w.1@))
}

/// Extract all word tokens from `text`, returning `(byte_offset, word)` pairs.
///
/// A "word" is a maximal sequence of consecutive word-class grapheme
/// clusters. The byte offsets are relative to the start of `text`: each
/// word is found in `text` at its offset, and the offsets increase.
pub fn extract_words(text: &str) -> (res: Vec<(usize, String)>)
    requires
        utf8_len(text@) <= usize::MAX,
    ensures
        word_pairs(res@) == text_words(text@),
        forall|k: int|
            0 <= k < res@.len() ==> (#[trigger] res@[k]).1@.len() > 0 && occurs_at(
                text@,
                res@[k].1@,
                res@[k].0 as int,
            ),
        forall|k: int, l: int| 0 <= k < l < res@.len() ==> (#[trigger] res@[k]).0 < (#[trigger] res@[l]).0,
{
    let clusters = grapheme_clusters(text);
    let tokens = word_tokens(&clusters);
    let ghost spans = word_spans(str_views(clusters@));
    let mut words: Vec<(usize, String)> = Vec::new();
    let mut i: usize = 0;
    while i < tokens.len()
        invariant
            i <= tokens.len(),
            tokens@.map_values(|t: crate::words::WordToken| t@) == spans,
            spans == word_spans(spec_graphemes(text@)),
            word_pairs(words@) == spans.take(i as int).map_values(
                |w: WordSpan| (w.start as usize, w.text),
            ),
        decreases tokens.len() - i,
    {
        assert(tokens@[i as int]@ == spans[i as int]);
        let ghost before = words@;
        let text = tokens[i].text.clone();
        words.push((tokens[i].start, text));
        assert(words@ == before.push((tokens@[i as int].start, text)));
        assert(word_pairs(words@) =~= word_pairs(before).push((tokens@[i as int].start, text@)));
        assert(spans.take(i + 1) =~= spans.take(i as int).push(spans[i as int]));
        assert(word_pairs(words@) =~= spans.take(i + 1).map_values(
            |w: WordSpan| (w.start as usize, w.text),
        ));
        i += 1;
    }
    assert(spans.take(tokens.len() as int) =~= spans);
    proof {
        let gs = spec_graphemes(text@);
        lemma_word_spans_runs(gs);
        lemma_word_spans_start_bound(gs);
        assert forall|k: int| 0 <= k < words@.len() implies (#[trigger] words@[k]).1@.len() > 0
            && occurs_at(text@, words@[k].1@, words@[k].0 as int) by {
            assert(word_pairs(words@)[k] == (spans[k].start as usize, spans[k].text));
            lemma_word_occurs(gs, spans[k]);
        }
        assert forall|k: int, l: int| 0 <= k < l < words@.len() implies (#[trigger] words@[k]).0
            < (#[trigger] words@[l]).0 by {
            assert(word_pairs(words@)[k] == (spans[k].start as usize, spans[k].text));
            assert(word_pairs(words@)[l] == (spans[l].start as usize, spans[l].text));
        }
    }
    words
}

/// What the dabbrev ranking is computed from: the words of the window with
/// their byte offsets, the lowercase key of each word, the lowercase key and
/// byte length of the typed prefix, and the cursor's offset in the window.
pub struct NearestQuery {
    pub words: Seq<(usize, Seq<char>)>,
    pub keys: Seq<Seq<char>>,
    pub prefix_key: Seq<char>,
    pub prefix_len: usize,
    pub cursor: usize,
}

impl NearestQuery {
    /// Word `i` completes the prefix: it is longer than the prefix (in
    /// bytes) and its key starts with the prefix's key.
    pub open spec fn completes(self, i: int) -> bool {
        &&& 0 <= i < self.words.len()
        &&& byte_len(self.words[i].1) > self.prefix_len
        &&& self.prefix_key.is_prefix_of(self.keys[i])
    }

    /// Byte distance from word `i` to the cursor.
    pub open spec fn distance(self, i: int) -> usize {
        offset_distance(self.words[i].0, self.cursor)
    }

    /// Word `i` is nearer the cursor than word `j`; equal distances go to
    /// the earlier word.
    pub open spec fn nearer(self, i: int, j: int) -> bool {
        self.distance(i) < self.distance(j) || (self.distance(i) == self.distance(j) && i < j)
    }

    /// Word `i` is the nearest completing occurrence of its key, and its key
    /// is not the prefix's own key.
    pub open spec fn is_nearest_of_key(self, i: int) -> bool {
        &&& self.completes(i)
        &&& self.keys[i] != self.prefix_key
        &&& forall|j: int|
            #![trigger self.completes(j), self.keys[j]]
            j != i && self.completes(j) && self.keys[j] == self.keys[i] ==> self.nearer(i, j)
    }

    /// `sel` lists the nearest occurrence of each key, nearest first, cut
    /// after `MAX_CANDIDATES` words.
    pub open spec fn is_selection(self, sel: Seq<int>) -> bool {
        &&& sel.len() <= MAX_CANDIDATES
        &&& forall|k: int| 0 <= k < sel.len() ==> self.is_nearest_of_key(#[trigger] sel[k])
        &&& forall|k: int, l: int|
            0 <= k < l < sel.len() ==> self.nearer(#[trigger] sel[k], #[trigger] sel[l])
        &&& forall|i: int|
            #[trigger] self.is_nearest_of_key(i) ==> sel.contains(i) || (sel.len()
                == MAX_CANDIDATES && self.nearer(sel.last(), i))
    }

    /// The candidate list `cs` shows the words `sel`, each scored by its
    /// distance to the cursor.
    pub open spec fn lists(self, cs: Seq<CompletionCandidate>, sel: Seq<int>) -> bool {
        &&& cs.len() == sel.len()
        &&& forall|k: int|
            0 <= k < sel.len() ==> is_word_candidate(
                #[trigger] cs[k],
                self.words[sel[k]].1,
                nearness_score(self.distance(sel[k])),
            )
    }

    /// The ranking entry of word `i`: its distance and its index.
    pub open spec fn entry(self, i: int) -> (i128, usize) {
        (self.distance(i) as i128, i as usize)
    }
}

/// The query that `nearest_candidates` answers for its arguments.
pub open spec fn nearest_query(
    words: Seq<(usize, String)>,
    keys: Seq<String>,
    prefix_key: Seq<char>,
    prefix_len: usize,
    cursor: usize,
) -> NearestQuery {
    NearestQuery {
        words: word_pairs(words),
        keys: string_views(keys),
        prefix_key,
        prefix_len,
        cursor,
    }
}

/// Score of a word `distance` bytes from the cursor: higher for closer
/// words, on a large base so that dabbrev scores are comparable with those
/// of other providers.
pub open spec fn nearness_score(distance: usize) -> i64 {
    saturate_i64(1_000_000 - (distance as i64))
}

/// Rank the words that complete a prefix by their distance to the cursor.
///
/// `words` are the `(byte_offset, word)` pairs of the window, `keys[i]` is
/// the lowercase form of `words[i]`, `prefix_key` the lowercase form of the
/// typed prefix and `prefix_len` its length in bytes. Each key is offered
/// once, by its nearest occurrence; the prefix's own key is never offered.
pub fn nearest_candidates(
    words: &Vec<(usize, String)>,
    keys: &Vec<String>,
    prefix_key: &String,
    prefix_len: usize,
    cursor: usize,
) -> (res: Vec<CompletionCandidate>)
    requires
        keys.len() == words.len(),
    ensures
        exists|sel: Seq<int>|
            #[trigger] nearest_query(words@, keys@, prefix_key@, prefix_len, cursor).is_selection(sel)
                && nearest_query(words@, keys@, prefix_key@, prefix_len, cursor).lists(res@, sel),
{
    let ghost q = nearest_query(words@, keys@, prefix_key@, prefix_len, cursor);
    // Gather the completing words with their distances, in index order.
    let mut entries: Vec<(i128, usize)> = Vec::new();
    let mut i: usize = 0;
    while i < words.len()
        invariant
            i <= words.len(),
            keys.len() == words.len(),
            q == nearest_query(words@, keys@, prefix_key@, prefix_len, cursor),
            increasing_indices(entries@),
            forall|a: int| 0 <= a < entries.len() ==> (#[trigger] entries@[a]).1 < i,
            forall|x: (i128, usize)|
                #[trigger] entries@.contains(x) <==> (x.1 < i && q.completes(x.1 as int) && x
                    == q.entry(x.1 as int)),
        decreases words.len() - i,
    {
        assert(q.words[i as int] == (words@[i as int].0, words@[i as int].1@));
        assert(q.keys[i as int] == keys@[i as int]@);
        if words[i].1.as_str().len() > prefix_len && starts_with(
            keys[i].as_str(),
            prefix_key.as_str(),
        ) {
            let d = abs_diff(words[i].0, cursor);
            let ghost old_entries = entries@;
            entries.push((d as i128, i));
            proof {
                assert forall|x: (i128, usize)| #[trigger]
                    entries@.contains(x) <==> (x.1 < i + 1 && q.completes(x.1 as int) && x
                        == q.entry(x.1 as int)) by {
                    if x == q.entry(i as int) {
                        assert(entries@[old_entries.len() as int] == x);
                    }
                    if entries@.contains(x) && x != q.entry(i as int) {
                        let a = choose|a: int| 0 <= a < entries@.len() && entries@[a] == x;
                        assert(old_entries[a] == x);
                    }
                    if old_entries.contains(x) {
                        let a = choose|a: int| 0 <= a < old_entries.len() && old_entries[a] == x;
                        assert(entries@[a] == x);
                    }
                }
            }
        } else {
            proof {
                assert forall|x: (i128, usize)| #[trigger]
                    entries@.contains(x) <==> (x.1 < i + 1 && q.completes(x.1 as int) && x
                        == q.entry(x.1 as int)) by {
                    if x.1 == i {
                        assert(!q.completes(i as int));
                    }
                }
            }
        }
        i += 1;
    }
    let sorted = sort_by_rank(&entries);
    // Offer each key once, by its nearest occurrence.
    let mut seen: Vec<String> = Vec::new();
    seen.push(prefix_key.clone());
    let mut out: Vec<CompletionCandidate> = Vec::new();
    let ghost mut sel: Seq<int> = seq![];
    let ghost mut sel_pos: Seq<int> = seq![];
    let ghost lst = sorted@;
    let mut j: usize = 0;
    while j < sorted.len()
        invariant
            j <= sorted.len(),
            lst == sorted@,
            keys.len() == words.len(),
            q == nearest_query(words@, keys@, prefix_key@, prefix_len, cursor),
            strictly_ranked(lst),
            forall|x: (i128, usize)|
                #[trigger] lst.contains(x) <==> (q.completes(x.1 as int) && x == q.entry(
                    x.1 as int,
                )),
            out.len() == sel.len(),
            sel_pos.len() == sel.len(),
            sel.len() < MAX_CANDIDATES,
            forall|k: int|
                0 <= k < sel.len() ==> 0 <= #[trigger] sel_pos[k] < j && lst[sel_pos[k]].1
                    == sel[k],
            forall|k: int| 0 <= k < sel.len() ==> q.is_nearest_of_key(#[trigger] sel[k]),
            forall|k: int, l: int|
                0 <= k < l < sel.len() ==> q.nearer(#[trigger] sel[k], #[trigger] sel[l]),
            q.lists(out@, sel),
            string_views(seen@) == seq![q.prefix_key] + sel.map_values(|i: int| q.keys[i]),
            forall|p: int|
                0 <= p < j ==> q.keys[(#[trigger] lst[p]).1 as int] == q.prefix_key || exists|
                    k: int,
                | 0 <= k < sel.len() && q.keys[#[trigger] sel[k]] == q.keys[lst[p].1 as int],
            forall|p: int|
                0 <= p < j && q.is_nearest_of_key((#[trigger] lst[p]).1 as int) ==> sel.contains(
                    lst[p].1 as int,
                ),
        decreases sorted.len() - j,
    {
        let wi = sorted[j].1;
        proof {
            assert(lst.contains(lst[j as int]));
        }
        if !contains_string(&seen, &keys[wi]) {
            let ghost seen_before = seen@;
            let key_copy = keys[wi].clone();
            seen.push(key_copy);
            let d = abs_diff(words[wi].0, cursor);
            let score = saturating_sub_i64(1_000_000, d as i64);
            out.push(CompletionCandidate::word(words[wi].1.clone(), score));
            proof {
                let w = wi as int;
                let key = q.keys[w];
                let old_seen = seq![q.prefix_key] + sel.map_values(|i: int| q.keys[i]);
                assert(!old_seen.contains(key));
                assert(old_seen[0] == q.prefix_key);
                assert forall|k: int| 0 <= k < sel.len() implies q.keys[#[trigger] sel[k]]
                    != key by {
                    assert(old_seen[k + 1] == q.keys[sel[k]]);
                }
                assert(lst[j as int] == q.entry(w));
                assert forall|e: int|
                    #![trigger q.completes(e), q.keys[e]]
                    e != w && q.completes(e) && q.keys[e] == key implies q.nearer(w, e) by {
                    if !q.nearer(w, e) {
                        assert(lst.contains(q.entry(e)));
                        let pe = choose|pe: int| 0 <= pe < lst.len() && lst[pe] == q.entry(e);
                        if pe > j {
                            assert(rank_before(lst[j as int], lst[pe]));
                        } else {
                            assert(pe < j);
                            assert(q.keys[(lst[pe]).1 as int] != q.prefix_key);
                            let k = choose|k: int|
                                0 <= k < sel.len() && q.keys[#[trigger] sel[k]] == q.keys[lst[
                                    pe
                                ].1 as int];
                            assert(false);
                        }
                    }
                }
                assert(q.is_nearest_of_key(w));
                assert forall|k: int| 0 <= k < sel.len() implies q.nearer(#[trigger] sel[k], w) by {
                    let pk = sel_pos[k];
                    assert(lst.contains(lst[pk]));
                    assert(rank_before(lst[pk], lst[j as int]));
                }
                assert(q.distance(w) == d);
                let old_sel = sel;
                sel = sel.push(w);
                sel_pos = sel_pos.push(j as int);
                assert(seen@ == seen_before.push(key_copy));
                assert(string_views(seen@) =~= string_views(seen_before).push(key));
                assert(sel.map_values(|i: int| q.keys[i]) =~= old_sel.map_values(|i: int| q.keys[i]).push(key));
                assert(string_views(seen@) =~= seq![q.prefix_key] + sel.map_values(
                    |i: int| q.keys[i],
                ));
                assert forall|p: int|
                    0 <= p < j + 1 implies q.keys[(#[trigger] lst[p]).1 as int] == q.prefix_key
                    || exists|k: int|
                    0 <= k < sel.len() && q.keys[#[trigger] sel[k]] == q.keys[lst[p].1 as int] by {
                    if p == j {
                        assert(sel[old_sel.len() as int] == w);
                    } else if q.keys[lst[p].1 as int] != q.prefix_key {
                        let k = choose|k: int|
                            0 <= k < old_sel.len() && q.keys[#[trigger] old_sel[k]] == q.keys[lst[
                                p
                            ].1 as int];
                        assert(sel[k] == old_sel[k]);
                    }
                }
                assert forall|p: int|
                    0 <= p < j + 1 && q.is_nearest_of_key(
                        (#[trigger] lst[p]).1 as int,
                    ) implies sel.contains(lst[p].1 as int) by {
                    if p == j {
                        assert(sel[old_sel.len() as int] == w);
                    } else {
                        let k = choose|k: int| 0 <= k < old_sel.len() && old_sel[k] == lst[p].1 as int;
                        assert(sel[k] == old_sel[k]);
                    }
                }
            }
            if out.len() >= MAX_CANDIDATES {
                proof {
                    assert forall|i: int| #[trigger]
                        q.is_nearest_of_key(i) implies sel.contains(i) || (sel.len()
                        == MAX_CANDIDATES && q.nearer(sel.last(), i)) by {
                        assert(lst.contains(q.entry(i)));
                        let p = choose|p: int| 0 <= p < lst.len() && lst[p] == q.entry(i);
                        if p > j {
                            assert(rank_before(lst[j as int], lst[p]));
                        } else {
                            assert(q.is_nearest_of_key(lst[p].1 as int));
                        }
                    }
                    assert(q.is_selection(sel));
                }
                return out;
            }
        } else {
            proof {
                let w = wi as int;
                let key = q.keys[w];
                let old_seen = seq![q.prefix_key] + sel.map_values(|i: int| q.keys[i]);
                assert(old_seen.contains(key));
                let t = choose|t: int| 0 <= t < old_seen.len() && old_seen[t] == key;
                if t > 0 {
                    assert(q.keys[sel[t - 1]] == key);
                    if q.is_nearest_of_key(w) && sel[t - 1] != w {
                        assert(q.is_nearest_of_key(sel[t - 1]));
                        assert(q.completes(sel[t - 1]));
                        assert(q.nearer(w, sel[t - 1]));
                        assert(q.nearer(sel[t - 1], w));
                    }
                }
                assert(lst[j as int].1 as int == w);
            }
        }
        j += 1;
    }
    proof {
        assert forall|i: int| #[trigger]
            q.is_nearest_of_key(i) implies sel.contains(i) || (sel.len() == MAX_CANDIDATES
            && q.nearer(sel.last(), i)) by {
            assert(lst.contains(q.entry(i)));
            let p = choose|p: int| 0 <= p < lst.len() && lst[p] == q.entry(i);
            assert(q.is_nearest_of_key(lst[p].1 as int));
        }
        assert(q.is_selection(sel));
    }
    out
}

/// The lowercase key of each word.
pub open spec fn word_keys(words: Seq<(usize, Seq<char>)>) -> Seq<Seq<char>> {
    words.map_values(|w: (usize, Seq<char>)| spec_to_lowercase(w.1))
}

/// Lowercase every word of `words`.
pub fn lowercase_words(words: &Vec<(usize, String)>) -> (res: Vec<String>)
    ensures
        res.len() == words.len(),
        string_views(res@) == word_keys(word_pairs(words@)),
{
    let mut keys: Vec<String> = Vec::new();
    let mut i: usize = 0;
    while i < words.len()
        invariant
            i <= words.len(),
            keys.len() == i,
            forall|k: int| 0 <= k < i ==> (#[trigger] keys@[k])@ == spec_to_lowercase(words@[k].1@),
        decreases words.len() - i,
    {
        keys.push(to_lowercase(words[i].1.as_str()));
        i += 1;
    }
    assert(string_views(keys@) =~= word_keys(word_pairs(words@)));
    keys
}

/// The query the dabbrev provider answers for a context and window: the
/// words of the window's text, and the typed prefix, both compared in
/// lowercase.
pub open spec fn dabbrev_query(ctx: CompletionContext, window: Seq<u8>) -> NearestQuery {
    let words = text_words(spec_utf8_lossy(window));
    NearestQuery {
        words,
        keys: word_keys(words),
        prefix_key: spec_to_lowercase(ctx.prefix@),
        prefix_len: byte_len(ctx.prefix@),
        cursor: cursor_in_window(ctx),
    }
}

impl CompletionProvider for DabbrevProvider {
    fn id(&self) -> (res: CompletionSourceId)
        ensures
            res.0@ == "dabbrev"@,
    {
        CompletionSourceId("dabbrev".to_owned())
    }

    fn display_name(&self) -> (res: &str)
        ensures
            res@ == "Dynamic Abbreviation"@,
    {
        "Dynamic Abbreviation"
    }

    /// Dabbrev works for any language and any file size (the scan window
    /// already constrains the work); it only skips an empty prefix.
    fn is_enabled(&self, ctx: &CompletionContext) -> (res: bool)
        ensures
            res == (ctx.prefix@.len() > 0),
    {
        !ctx.prefix.as_str().is_empty()
    }

    /// Offer the words of the window that extend the typed prefix
    /// (case-insensitively), each once, nearest to the cursor first.
    fn provide(&self, ctx: &CompletionContext, buffer_window: &[u8]) -> (res: ProviderResult)
        ensures
            res matches ProviderResult::Ready(cs) && exists|sel: Seq<int>|
                #[trigger] dabbrev_query(*ctx, buffer_window@).is_selection(sel) && dabbrev_query(
                    *ctx,
                    buffer_window@,
                ).lists(cs@, sel),
    {
        let text = utf8_lossy(buffer_window);
        let prefix_lower = to_lowercase(ctx.prefix.as_str());
        let cursor = ctx.cursor_byte.saturating_sub(ctx.scan_range.start);
        let words = extract_words(text.as_str());
        let keys = lowercase_words(&words);
        let prefix_len = ctx.prefix.as_str().len();
        let candidates = nearest_candidates(&words, &keys, &prefix_lower, prefix_len, cursor);
        assert(nearest_query(words@, keys@, prefix_lower@, prefix_len, cursor) == dabbrev_query(
            *ctx,
            buffer_window@,
        ));
        ProviderResult::Ready(candidates)
    }

    fn priority(&self) -> (res: u32)
        ensures
            res == 30,
    {
        30
    }
}

/// No lowercase word is offered twice: the words of a dabbrev selection
/// have pairwise distinct keys.
pub proof fn lemma_selection_keys_distinct(q: NearestQuery, sel: Seq<int>)
    requires
        q.is_selection(sel),
    ensures
        forall|k: int, l: int|
            0 <= k < sel.len() && 0 <= l < sel.len() && k != l ==> q.keys[#[trigger] sel[k]]
                != q.keys[#[trigger] sel[l]],
{
    assert forall|k: int, l: int|
        0 <= k < sel.len() && 0 <= l < sel.len() && k != l implies q.keys[#[trigger] sel[k]]
        != q.keys[#[trigger] sel[l]] by {
        let (a, b) = if k < l {
            (k, l)
        } else {
            (l, k)
        };
        assert(q.nearer(sel[a], sel[b]));
        if q.keys[sel[a]] == q.keys[sel[b]] {
            assert(q.is_nearest_of_key(sel[b]));
            assert(q.completes(sel[a]));
            assert(q.nearer(sel[b], sel[a]));
        }
    }
}

/// Nearest first means best score first: along a dabbrev selection the
/// scores never increase (for words within `i64::MAX` bytes of the cursor,
/// as every word is when the cursor is a valid buffer position).
pub proof fn lemma_selection_scores_descend(q: NearestQuery, sel: Seq<int>)
    requires
        q.is_selection(sel),
        forall|k: int| 0 <= k < sel.len() ==> q.distance(#[trigger] sel[k]) <= i64::MAX,
    ensures
        forall|k: int, l: int|
            0 <= k < l < sel.len() ==> nearness_score(q.distance(#[trigger] sel[k]))
                >= nearness_score(q.distance(#[trigger] sel[l])),
{
    assert forall|k: int, l: int| 0 <= k < l < sel.len() implies nearness_score(
        q.distance(#[trigger] sel[k]),
    ) >= nearness_score(q.distance(#[trigger] sel[l])) by {
        assert(q.nearer(sel[k], sel[l]));
        assert(q.distance(sel[k]) <= i64::MAX);
        assert(q.distance(sel[l]) <= i64::MAX);
    }
}

/// The dabbrev ranking is determined: only one list of words satisfies it.
pub proof fn lemma_selection_unique(q: NearestQuery, s1: Seq<int>, s2: Seq<int>)
    requires
        q.is_selection(s1),
        q.is_selection(s2),
    ensures
        s1 == s2,
{
    let offered = |i: int| q.is_nearest_of_key(i);
    let better = |i: int, j: int| q.nearer(i, j);
    assert(strict_total(better));
    assert(is_top(offered, better, MAX_CANDIDATES as nat, s1));
    assert(is_top(offered, better, MAX_CANDIDATES as nat, s2));
    lemma_top_unique(offered, better, MAX_CANDIDATES as nat, s1, s2);
}

/// A dabbrev result lists every key that completes the prefix (each by its
/// nearest occurrence), up to `MAX_CANDIDATES`: its length is the number of
/// such keys, or `MAX_CANDIDATES` when there are more.
pub proof fn lemma_selection_count(q: NearestQuery, sel: Seq<int>)
    requires
        q.is_selection(sel),
    ensures
        offered_set(|i: int| q.is_nearest_of_key(i)).finite(),
        sel.len() == if offered_set(|i: int| q.is_nearest_of_key(i)).len() < MAX_CANDIDATES {
            offered_set(|i: int| q.is_nearest_of_key(i)).len()
        } else {
            MAX_CANDIDATES as nat
        },
{
    let offered = |i: int| q.is_nearest_of_key(i);
    let better = |i: int, j: int| q.nearer(i, j);
    assert(strict_total(better));
    assert(is_top(offered, better, MAX_CANDIDATES as nat, sel));
    lemma_top_count(offered, better, MAX_CANDIDATES as nat, sel, q.words.len() as int);
}

/// Along a dabbrev result the distances to the cursor never decrease, and
/// words at the same distance come in the order they appear in the text.
pub proof fn lemma_selection_nearest_first(q: NearestQuery, sel: Seq<int>)
    requires
        q.is_selection(sel),
    ensures
        forall|k: int, l: int|
            0 <= k < l < sel.len() ==> q.distance(#[trigger] sel[k]) <= q.distance(#[trigger] sel[l])
                && (q.distance(sel[k]) == q.distance(sel[l]) ==> sel[k] < sel[l]),
{
    assert forall|k: int, l: int| 0 <= k < l < sel.len() implies q.distance(#[trigger] sel[k])
        <= q.distance(#[trigger] sel[l]) && (q.distance(sel[k]) == q.distance(sel[l]) ==> sel[k]
        < sel[l]) by {
        assert(q.nearer(sel[k], sel[l]));
    }
}

/// Matching is case-insensitive in the typed prefix too: two contexts that
/// differ only in their prefixes, where the prefixes have the same lowercase
/// form (and the same length in bytes, against which the words' lengths
/// are measured), ask the same question of a window, so `provide` offers the
/// same candidates for both.
pub proof fn lemma_prefix_case_insensitive(c1: CompletionContext, c2: CompletionContext, window: Seq<u8>)
    requires
        spec_to_lowercase(c1.prefix@) == spec_to_lowercase(c2.prefix@),
        byte_len(c1.prefix@) == byte_len(c2.prefix@),
        c1.cursor_byte == c2.cursor_byte,
        c1.scan_range == c2.scan_range,
    ensures
        dabbrev_query(c1, window) == dabbrev_query(c2, window),
        forall|s1: Seq<int>, s2: Seq<int>|
            dabbrev_query(c1, window).is_selection(s1) && dabbrev_query(c2, window).is_selection(s2)
                ==> s1 == s2,
{
    assert forall|s1: Seq<int>, s2: Seq<int>|
        dabbrev_query(c1, window).is_selection(s1) && dabbrev_query(c2, window).is_selection(
            s2,
        ) implies s1 == s2 by {
        lemma_selection_unique(dabbrev_query(c1, window), s1, s2);
    }
}

} // verus!
