//! Word tokenization shared by the completion providers.
//!
//! A "word" is a maximal run of consecutive word-class grapheme clusters
//! (see `is_word_grapheme`). Each word carries the byte offset at which it
//! starts and the number of clusters it spans.

use vstd::prelude::*;
use vstd::string::*;
use vstd::seq_lib::lemma_flatten_concat;
use crate::text::{
    is_word_cluster, is_word_grapheme, lemma_utf8_len_concat, lemma_utf8_len_ge_len, str_views,
    utf8_len,
};

verus! {

/// A word as the model sees it.
pub struct WordSpan {
    /// Byte offset of the word's first cluster in the scanned text.
    pub start: int,
    /// The word's characters.
    pub text: Seq<char>,
    /// Number of grapheme clusters in the word.
    pub clusters: nat,
}

/// A word found in a text.
pub struct WordToken {
    /// Byte offset of the word's first cluster in the scanned text.
    pub start: usize,
    /// The word itself.
    pub text: String,
    /// Number of grapheme clusters in the word.
    pub clusters: usize,
}

impl View for WordToken {
    type V = WordSpan;

    open spec fn view(&self) -> WordSpan {
        WordSpan { start: self.start as int, text: self.text@, clusters: self.clusters as nat }
    }
}

/// The models of a sequence of tokens.
pub open spec fn spans_of(tokens: Seq<WordToken>) -> Seq<WordSpan> {
    tokens.map_values(|t: WordToken| t@)
}

/// Where a left-to-right scan over grapheme clusters stands: the words
/// completed so far, the word being built (empty when between words), where
/// it started and how many clusters it has, and the byte position reached.
pub struct ScanState {
    pub done: Seq<WordSpan>,
    pub current: Seq<char>,
    pub start: int,
    pub count: nat,
    pub pos: int,
}

/// The scan state after reading the clusters `gs` from left to right.
pub open spec fn scan(gs: Seq<Seq<char>>) -> ScanState
    decreases gs.len(),
{
    if gs.len() == 0 {
        ScanState { done: seq![], current: seq![], start: 0, count: 0, pos: 0 }
    } else {
        let s = scan(gs.drop_last());
        let g = gs.last();
        let pos = s.pos + utf8_len(g);
        if is_word_cluster(g) {
            if s.current.len() == 0 {
                ScanState { done: s.done, current: g, start: s.pos, count: 1, pos }
            } else {
                ScanState { done: s.done, current: s.current + g, start: s.start, count: s.count + 1, pos }
            }
        } else if s.current.len() > 0 {
            ScanState {
                done: s.done.push(WordSpan { start: s.start, text: s.current, clusters: s.count }),
                current: seq![],
                start: s.start,
                count: 0,
                pos,
            }
        } else {
            ScanState { done: s.done, current: s.current, start: s.start, count: s.count, pos }
        }
    }
}

/// The words of the cluster sequence `gs`, in order of appearance.
pub open spec fn word_spans(gs: Seq<Seq<char>>) -> Seq<WordSpan> {
    let s = scan(gs);
    if s.current.len() > 0 {
        s.done.push(WordSpan { start: s.start, text: s.current, clusters: s.count })
    } else {
        s.done
    }
}

/// The scan has advanced by the byte length of everything it read.
pub proof fn lemma_scan_pos(gs: Seq<Seq<char>>)
    ensures
        scan(gs).pos == utf8_len(gs.flatten()),
    decreases gs.len(),
{
    if gs.len() > 0 {
        lemma_scan_pos(gs.drop_last());
        assert(gs.drop_last().push(gs.last()) =~= gs);
        gs.drop_last().lemma_flatten_push(gs.last());
        lemma_utf8_len_concat(gs.drop_last().flatten(), gs.last());
    }
}

/// Reading a prefix of the clusters never passes the end of the text.
proof fn lemma_prefix_bytes(gs: Seq<Seq<char>>, i: int)
    requires
        0 <= i <= gs.len(),
    ensures
        utf8_len(gs.take(i).flatten()) <= utf8_len(gs.flatten()),
{
    assert(gs =~= gs.take(i) + gs.skip(i));
    lemma_flatten_concat(gs.take(i), gs.skip(i));
    lemma_utf8_len_concat(gs.take(i).flatten(), gs.skip(i).flatten());
}

/// Collect the words of a text already split into grapheme clusters.
pub fn word_tokens(clusters: &Vec<&str>) -> (res: Vec<WordToken>)
    requires
        utf8_len(str_views(clusters@).flatten()) <= usize::MAX,
    ensures
        spans_of(res@) == word_spans(str_views(clusters@)),
        forall|k: int|
            0 <= k < res@.len() ==> (#[trigger] res@[k]).start <= utf8_len(
                str_views(clusters@).flatten(),
            ),
{
    let ghost gs = str_views(clusters@);
    let mut tokens: Vec<WordToken> = Vec::new();
    let mut current = String::new();
    let mut start: usize = 0;
    let mut count: usize = 0;
    let mut pos: usize = 0;
    let mut i: usize = 0;
    while i < clusters.len()
        invariant
            i <= clusters.len(),
            gs == str_views(clusters@),
            utf8_len(gs.flatten()) <= usize::MAX,
            spans_of(tokens@) == scan(gs.take(i as int)).done,
            current@ == scan(gs.take(i as int)).current,
            start == scan(gs.take(i as int)).start,
            count == scan(gs.take(i as int)).count,
            pos == scan(gs.take(i as int)).pos,
            count <= i,
            start <= utf8_len(gs.flatten()),
            forall|k: int|
                0 <= k < tokens@.len() ==> (#[trigger] tokens@[k]).start <= utf8_len(gs.flatten()),
        decreases clusters.len() - i,
    {
        let g = clusters[i];
        proof {
            assert(gs.take(i + 1).drop_last() =~= gs.take(i as int));
            assert(gs.take(i + 1).last() == g@);
            lemma_scan_pos(gs.take(i + 1));
            lemma_prefix_bytes(gs, i + 1);
        }
        let glen = g.len();
        if is_word_grapheme(g) {
            if current.as_str().is_empty() {
                start = pos;
                count = 0;
            }
            current.append(g);
            count += 1;
        } else if !current.as_str().is_empty() {
            let word = current;
            current = String::new();
            tokens.push(WordToken { start, text: word, clusters: count });
            count = 0;
            proof {
                assert(spans_of(tokens@) =~= scan(gs.take(i + 1)).done);
            }
        }
        pos += glen;
        i += 1;
    }
    assert(gs.take(clusters.len() as int) =~= gs);
    if !current.as_str().is_empty() {
        let word = current;
        tokens.push(WordToken { start, text: word, clusters: count });
        assert(spans_of(tokens@) =~= word_spans(gs));
    }
    tokens
}

/// A scan completes at most one word per cluster it reads.
pub proof fn lemma_scan_len(gs: Seq<Seq<char>>)
    ensures
        scan(gs).done.len() + (if scan(gs).current.len() > 0 {
            1int
        } else {
            0int
        }) <= gs.len(),
        scan(gs).count <= gs.len(),
    decreases gs.len(),
{
    if gs.len() > 0 {
        lemma_scan_len(gs.drop_last());
    }
}

/// There are no more words than clusters.
pub proof fn lemma_word_spans_len(gs: Seq<Seq<char>>)
    ensures
        word_spans(gs).len() <= gs.len(),
{
    lemma_scan_len(gs);
}

/// Non-empty clusters are no more numerous than the characters they hold.
pub proof fn lemma_clusters_len(gs: Seq<Seq<char>>)
    requires
        forall|i: int| 0 <= i < gs.len() ==> (#[trigger] gs[i]).len() > 0,
    ensures
        gs.len() <= gs.flatten().len(),
    decreases gs.len(),
{
    if gs.len() > 0 {
        lemma_clusters_len(gs.drop_first());
    }
}

/// The scan's word starts never pass its position.
proof fn lemma_scan_starts(gs: Seq<Seq<char>>)
    ensures
        0 <= scan(gs).start <= scan(gs).pos,
        scan(gs).pos >= 0,
        forall|k: int| 0 <= k < scan(gs).done.len() ==> 0 <= (#[trigger] scan(gs).done[k]).start <= scan(gs).pos,
    decreases gs.len(),
{
    if gs.len() > 0 {
        lemma_scan_starts(gs.drop_last());
    }
}

/// Every word starts within the text.
pub proof fn lemma_word_spans_start_bound(gs: Seq<Seq<char>>)
    ensures
        forall|k: int|
            0 <= k < word_spans(gs).len() ==> 0 <= (#[trigger] word_spans(gs)[k]).start <= utf8_len(gs.flatten()),
{
    lemma_scan_starts(gs);
    lemma_scan_pos(gs);
}


/// Clusters `a..b` of `gs` are a maximal run of word clusters: all of them
/// are word clusters, and the run extends neither to the left nor to the
/// right.
pub open spec fn is_run(gs: Seq<Seq<char>>, a: int, b: int) -> bool {
    &&& 0 <= a < b <= gs.len()
    &&& forall|i: int| a <= i < b ==> is_word_cluster(#[trigger] gs[i])
    &&& (a == 0 || !is_word_cluster(gs[a - 1]))
    &&& (b == gs.len() || !is_word_cluster(gs[b]))
}

/// Some word of `ws` is the one spelled by the run `a..b` of `gs`.
pub open spec fn run_listed(gs: Seq<Seq<char>>, ws: Seq<WordSpan>, a: int, b: int) -> bool {
    exists|k: int| 0 <= k < ws.len() && #[trigger] spells_run(gs, ws[k], a, b)
}

/// Two maximal runs that end at the same cluster start at the same cluster.
proof fn lemma_run_same_end(gs: Seq<Seq<char>>, a1: int, a2: int, b: int)
    requires
        is_run(gs, a1, b),
        is_run(gs, a2, b),
    ensures
        a1 == a2,
{
    if a1 < a2 {
        assert(is_word_cluster(gs[a2 - 1]));
    } else if a2 < a1 {
        assert(is_word_cluster(gs[a1 - 1]));
    }
}

/// The word being built is closed by a cluster that is not a word cluster.
proof fn lemma_run_closed(gs: Seq<Seq<char>>, w: WordSpan, a: int)
    requires
        gs.len() > 0,
        spells_run(gs.drop_last(), w, a, gs.len() - 1),
        !is_word_cluster(gs.last()),
    ensures
        spells_run(gs, w, a, gs.len() - 1),
{
    let gs0 = gs.drop_last();
    let b = gs.len() - 1;
    assert(gs.subrange(a, b) =~= gs0.subrange(a, b));
    assert(gs.take(a) =~= gs0.take(a));
    assert forall|i: int| a <= i < b implies is_word_cluster(#[trigger] gs[i]) by {
        assert(gs[i] == gs0[i]);
    }
    if a > 0 {
        assert(gs[a - 1] == gs0[a - 1]);
    }
}

/// Clusters `a..b` of `gs` are a run of word clusters that extends neither
/// to the left nor to the right, and `w` is the word they spell: its
/// characters, its cluster count, and the byte offset of cluster `a`.
pub open spec fn spells_run(gs: Seq<Seq<char>>, w: WordSpan, a: int, b: int) -> bool {
    &&& is_run(gs, a, b)
    &&& w.text == gs.subrange(a, b).flatten()
    &&& w.start == utf8_len(gs.take(a).flatten())
    &&& w.clusters == b - a
}

/// `w` is a word of `gs`: some maximal run of word clusters spells it.
pub open spec fn is_word_of(gs: Seq<Seq<char>>, w: WordSpan) -> bool {
    exists|a: int, b: int| #[trigger] spells_run(gs, w, a, b)
}

/// `w` is a word of `gs` that ends before the last cluster.
spec fn is_closed_word_of(gs: Seq<Seq<char>>, w: WordSpan) -> bool {
    exists|a: int, b: int| #[trigger] spells_run(gs, w, a, b) && b < gs.len()
}

/// A run closed before the last cluster stays a run when that cluster is
/// read.
proof fn lemma_run_kept(gs: Seq<Seq<char>>, w: WordSpan, a: int, b: int)
    requires
        gs.len() > 0,
        spells_run(gs.drop_last(), w, a, b),
        b < gs.len() - 1,
    ensures
        spells_run(gs, w, a, b),
{
    let gs0 = gs.drop_last();
    assert(gs.subrange(a, b) =~= gs0.subrange(a, b));
    assert(gs.take(a) =~= gs0.take(a));
    assert forall|i: int| a <= i < b implies is_word_cluster(#[trigger] gs[i]) by {
        assert(gs[i] == gs0[i]);
    }
    if a > 0 {
        assert(gs[a - 1] == gs0[a - 1]);
    }
    assert(gs[b] == gs0[b]);
}

/// The word being built grows by one word cluster.
proof fn lemma_run_grown(gs: Seq<Seq<char>>, w: WordSpan, a: int)
    requires
        gs.len() > 0,
        spells_run(gs.drop_last(), w, a, gs.len() - 1),
        is_word_cluster(gs.last()),
    ensures
        spells_run(
            gs,
            WordSpan { start: w.start, text: w.text + gs.last(), clusters: w.clusters + 1 },
            a,
            gs.len() as int,
        ),
{
    let gs0 = gs.drop_last();
    assert(gs.subrange(a, gs.len() as int) =~= gs0.subrange(a, gs0.len() as int).push(gs.last()));
    gs0.subrange(a, gs0.len() as int).lemma_flatten_push(gs.last());
    assert(gs.take(a) =~= gs0.take(a));
    assert forall|i: int| a <= i < gs.len() implies is_word_cluster(#[trigger] gs[i]) by {
        if i < gs0.len() {
            assert(gs[i] == gs0[i]);
        }
    }
    if a > 0 {
        assert(gs[a - 1] == gs0[a - 1]);
    }
}

/// What the scan keeps true: each completed word is a closed run of the
/// clusters read, the word being built is the run ending at the last
/// cluster, and the words start at strictly increasing byte offsets.
proof fn lemma_scan_runs(gs: Seq<Seq<char>>)
    ensures
        ({
            let s = scan(gs);
            &&& forall|k: int| 0 <= k < s.done.len() ==> is_closed_word_of(gs, #[trigger] s.done[k])
            &&& (s.current.len() > 0 <==> s.count > 0)
            &&& s.count > 0 ==> spells_run(
                gs,
                WordSpan { start: s.start, text: s.current, clusters: s.count },
                gs.len() - s.count,
                gs.len() as int,
            )
            &&& s.count == 0 ==> (gs.len() == 0 || !is_word_cluster(gs.last()))
            &&& forall|k: int, l: int|
                0 <= k < l < s.done.len() ==> (#[trigger] s.done[k]).start < (#[trigger] s.done[l]).start
            &&& forall|k: int| 0 <= k < s.done.len() ==> (#[trigger] s.done[k]).start < s.pos
            &&& s.count > 0 ==> s.start < s.pos
            &&& s.count > 0 ==> forall|k: int| 0 <= k < s.done.len() ==> (#[trigger] s.done[k]).start < s.start
        }),
    decreases gs.len(),
{
    if gs.len() > 0 {
        let gs0 = gs.drop_last();
        let g = gs.last();
        lemma_scan_runs(gs0);
        lemma_scan_pos(gs0);
        lemma_scan_starts(gs0);
        let s0 = scan(gs0);
        let s = scan(gs);
        if is_word_cluster(g) {
            lemma_utf8_len_ge_len(g);
        }
        assert forall|k: int| 0 <= k < s0.done.len() implies is_closed_word_of(gs, #[trigger] s0.done[k]) by {
            let (a, b) = choose|a: int, b: int|
                #[trigger] spells_run(gs0, s0.done[k], a, b) && b < gs0.len();
            lemma_run_kept(gs, s0.done[k], a, b);
        }
        if is_word_cluster(g) {
            if s0.current.len() == 0 {
                let w = WordSpan { start: s.start, text: s.current, clusters: s.count };
                let a = gs.len() - 1;
                assert(gs.subrange(a, gs.len() as int) =~= seq![g]);
                seq![g].lemma_flatten_one_element();
                assert(gs.take(a) =~= gs0);
                assert(spells_run(gs, w, a, gs.len() as int));
            } else {
                lemma_run_grown(gs, WordSpan { start: s0.start, text: s0.current, clusters: s0.count }, gs0.len() - s0.count);
            }
        } else if s0.current.len() > 0 {
            let w = WordSpan { start: s0.start, text: s0.current, clusters: s0.count };
            let a = gs0.len() - s0.count;
            let b = gs0.len() as int;
            assert(gs.subrange(a, b) =~= gs0.subrange(a, b));
            assert(gs.take(a) =~= gs0.take(a));
            assert forall|i: int| a <= i < b implies is_word_cluster(#[trigger] gs[i]) by {
                assert(gs[i] == gs0[i]);
            }
            if a > 0 {
                assert(gs[a - 1] == gs0[a - 1]);
            }
            assert(spells_run(gs, w, a, b));
            assert(s.done.last() == w);
        }
        assert forall|k: int| 0 <= k < s.done.len() implies is_closed_word_of(gs, #[trigger] s.done[k]) by {
            if k < s0.done.len() {
                assert(s.done[k] == s0.done[k]);
                let (a, b) = choose|a: int, b: int| #[trigger] spells_run(gs, s0.done[k], a, b) && b < gs.len();
                assert(spells_run(gs, s.done[k], a, b));
            } else {
                let w = WordSpan { start: s0.start, text: s0.current, clusters: s0.count };
                assert(s.done[k] == w);
                assert(spells_run(gs, w, gs0.len() - s0.count, gs0.len() as int));
            }
        }
    }
}

/// Every maximal run of word clusters closed before the last cluster read
/// is one of the scan's completed words.
proof fn lemma_scan_covers(gs: Seq<Seq<char>>)
    ensures
        forall|a: int, b: int|
            #[trigger] is_run(gs, a, b) && b < gs.len() ==> run_listed(gs, scan(gs).done, a, b),
    decreases gs.len(),
{
    if gs.len() > 0 {
        let gs0 = gs.drop_last();
        let g = gs.last();
        lemma_scan_covers(gs0);
        lemma_scan_runs(gs0);
        let s0 = scan(gs0);
        let s = scan(gs);
        assert forall|k: int| 0 <= k < s0.done.len() implies #[trigger] s.done[k] == s0.done[k] by {}
        assert forall|a: int, b: int| #[trigger] is_run(gs, a, b) && b < gs.len() implies run_listed(
            gs,
            s.done,
            a,
            b,
        ) by {
            assert forall|i: int| a <= i < b implies is_word_cluster(#[trigger] gs0[i]) by {
                assert(gs[i] == gs0[i]);
            }
            if a > 0 {
                assert(gs[a - 1] == gs0[a - 1]);
            }
            if b < gs0.len() {
                assert(gs[b] == gs0[b]);
                assert(is_run(gs0, a, b));
                let k = choose|k: int| 0 <= k < s0.done.len() && #[trigger] spells_run(gs0, s0.done[k], a, b);
                lemma_run_kept(gs, s0.done[k], a, b);
                assert(s.done[k] == s0.done[k]);
            } else {
                assert(is_run(gs0, a, b));
                assert(is_word_cluster(gs0.last()));
                assert(gs0[b - 1] == gs0.last());
                let cur = WordSpan { start: s0.start, text: s0.current, clusters: s0.count };
                let a0 = gs0.len() - s0.count;
                lemma_run_same_end(gs0, a, a0, b);
                lemma_run_closed(gs, cur, a);
                assert(s.done == s0.done.push(cur));
                assert(s.done[s0.done.len() as int] == cur);
            }
        }
    }
}

/// The words of `gs` are exactly its maximal runs of word clusters: each
/// word is spelled by such a run, with the byte offset where it starts, and
/// each such run spells one of the words. They come in order of appearance,
/// at strictly increasing offsets.
pub proof fn lemma_word_spans_runs(gs: Seq<Seq<char>>)
    ensures
        forall|k: int| 0 <= k < word_spans(gs).len() ==> is_word_of(gs, #[trigger] word_spans(gs)[k]),
        forall|k: int, l: int|
            0 <= k < l < word_spans(gs).len() ==> (#[trigger] word_spans(gs)[k]).start
                < (#[trigger] word_spans(gs)[l]).start,
        forall|a: int, b: int| #[trigger] is_run(gs, a, b) ==> run_listed(gs, word_spans(gs), a, b),
{
    lemma_scan_runs(gs);
    lemma_scan_covers(gs);
    let sc = scan(gs);
    assert forall|a: int, b: int| #[trigger] is_run(gs, a, b) implies run_listed(
        gs,
        word_spans(gs),
        a,
        b,
    ) by {
        assert forall|k: int| 0 <= k < sc.done.len() implies #[trigger] word_spans(gs)[k] == sc.done[k] by {}
        if b < gs.len() {
            let k = choose|k: int| 0 <= k < sc.done.len() && #[trigger] spells_run(gs, sc.done[k], a, b);
            assert(word_spans(gs)[k] == sc.done[k]);
        } else {
            assert(is_word_cluster(gs[b - 1]));
            assert(gs[b - 1] == gs.last());
            let cur = WordSpan { start: sc.start, text: sc.current, clusters: sc.count };
            lemma_run_same_end(gs, a, gs.len() - sc.count, b);
            assert(word_spans(gs)[sc.done.len() as int] == cur);
        }
    }
    let s = scan(gs);
    if s.current.len() > 0 {
        let w = WordSpan { start: s.start, text: s.current, clusters: s.count };
        assert forall|k: int| 0 <= k < word_spans(gs).len() implies is_word_of(gs, #[trigger] word_spans(gs)[k]) by {
            if k < s.done.len() {
                assert(word_spans(gs)[k] == s.done[k]);
                let (a, b) = choose|a: int, b: int| #[trigger] spells_run(gs, s.done[k], a, b) && b < gs.len();
                assert(spells_run(gs, word_spans(gs)[k], a, b));
            } else {
                assert(spells_run(gs, word_spans(gs)[k], gs.len() - s.count, gs.len() as int));
            }
        }
        assert forall|k: int, l: int|
            0 <= k < l < word_spans(gs).len() implies (#[trigger] word_spans(gs)[k]).start
                < (#[trigger] word_spans(gs)[l]).start by {
            assert(word_spans(gs)[k] == s.done[k]);
            if l < s.done.len() {
                assert(word_spans(gs)[l] == s.done[l]);
            }
        }
    } else {
        assert forall|k: int| 0 <= k < word_spans(gs).len() implies is_word_of(gs, #[trigger] word_spans(gs)[k]) by {
            assert(word_spans(gs)[k] == s.done[k]);
            let (a, b) = choose|a: int, b: int| #[trigger] spells_run(gs, s.done[k], a, b) && b < gs.len();
            assert(spells_run(gs, word_spans(gs)[k], a, b));
        }
    }
}

/// `word` appears in `text` right after the characters that take up the
/// first `offset` bytes.
pub open spec fn occurs_at(text: Seq<char>, word: Seq<char>, offset: int) -> bool {
    exists|c: int|
        0 <= c <= text.len() && offset == utf8_len(#[trigger] text.take(c)) && word.is_prefix_of(
            text.skip(c),
        )
}

/// A word of `gs` is non-empty and appears in the text `gs` spells, at the
/// word's byte offset.
pub proof fn lemma_word_occurs(gs: Seq<Seq<char>>, w: WordSpan)
    requires
        is_word_of(gs, w),
    ensures
        w.text.len() > 0,
        occurs_at(gs.flatten(), w.text, w.start),
{
    let (a, b) = choose|a: int, b: int| #[trigger] spells_run(gs, w, a, b);
    let before = gs.take(a);
    let run = gs.subrange(a, b);
    let after = gs.skip(b);
    assert(gs =~= before + run + after);
    lemma_flatten_concat(before + run, after);
    lemma_flatten_concat(before, run);
    let text = gs.flatten();
    let c = before.flatten().len() as int;
    assert(text =~= before.flatten() + run.flatten() + after.flatten());
    assert(text.take(c) =~= before.flatten());
    assert(text.skip(c) =~= run.flatten() + after.flatten());
    assert(is_word_cluster(gs[a]));
    assert(run.flatten() == run.first() + run.drop_first().flatten());
    assert(run.first() == gs[a]);
    assert(occurs_at(text, w.text, w.start));
}

} // verus!
