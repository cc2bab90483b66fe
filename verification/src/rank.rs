//! Ranking helpers shared by the completion providers: a stable sort of
//! `(key, index)` pairs and saturating score arithmetic.

use vstd::prelude::*;

verus! {

/// `a` ranks before `b`: smaller key first, ties broken by the smaller index.
pub open spec fn rank_before(a: (i128, usize), b: (i128, usize)) -> bool {
    a.0 < b.0 || (a.0 == b.0 && a.1 < b.1)
}

/// Every pair ranks strictly before all pairs that follow it.
pub open spec fn strictly_ranked(s: Seq<(i128, usize)>) -> bool {
    forall|i: int, j: int| 0 <= i < j < s.len() ==> rank_before(#[trigger] s[i], #[trigger] s[j])
}

/// The indices (second components) strictly increase along `s`.
pub open spec fn increasing_indices(s: Seq<(i128, usize)>) -> bool {
    forall|i: int, j: int| 0 <= i < j < s.len() ==> (#[trigger] s[i]).1 < (#[trigger] s[j]).1
}

/// Sort `(key, index)` pairs by key, keeping pairs with equal keys in their
/// original order (the indices are given in increasing order).
pub fn sort_by_rank(items: &Vec<(i128, usize)>) -> (res: Vec<(i128, usize)>)
    requires
        increasing_indices(items@),
    ensures
        strictly_ranked(res@),
        res.len() == items.len(),
        forall|x: (i128, usize)| res@.contains(x) <==> items@.contains(x),
{
    let mut res: Vec<(i128, usize)> = Vec::new();
    let mut k: usize = 0;
    while k < items.len()
        invariant
            k <= items.len(),
            increasing_indices(items@),
            strictly_ranked(res@),
            res.len() == k,
            forall|x: (i128, usize)| res@.contains(x) <==> items@.take(k as int).contains(x),
            forall|q: int| 0 <= q < res.len() ==> exists|a: int| 0 <= a < k && (#[trigger] res@[q]) == items@[a],
        decreases items.len() - k,
    {
        let x = items[k];
        let mut p: usize = 0;
        while p < res.len() && (res[p].0 < x.0 || (res[p].0 == x.0 && res[p].1 < x.1))
            invariant
                p <= res.len(),
                forall|q: int| 0 <= q < p ==> rank_before(#[trigger] res@[q], x),
            decreases res.len() - p,
        {
            p += 1;
        }
        proof {
            assert forall|q: int| p <= q < res.len() implies rank_before(x, #[trigger] res@[q]) by {
                let a = choose|a: int| 0 <= a < k && res@[p as int] == items@[a];
                assert(items@[a].1 < items@[k as int].1);
                assert(rank_before(x, res@[p as int]));
                if q > p {
                    assert(rank_before(res@[p as int], res@[q]));
                }
            }
        }
        let ghost old_res = res@;
        res.insert(p, x);
        proof {
            assert(res@ == old_res.insert(p as int, x));
            assert(res@.len() == old_res.len() + 1);
            assert(forall|q: int| 0 <= q < p ==> res@[q] == old_res[q]);
            assert(res@[p as int] == x);
            assert(forall|q: int| p < q < res@.len() ==> res@[q] == old_res[q - 1]);
            assert forall|i: int, j: int| 0 <= i < j < res@.len() implies rank_before(
                #[trigger] res@[i],
                #[trigger] res@[j],
            ) by {
                if j < p {
                    assert(rank_before(old_res[i], old_res[j]));
                } else if j == p {
                } else if i < p {
                    assert(rank_before(old_res[i], x));
                    assert(rank_before(x, old_res[j - 1]));
                } else if i == p {
                    assert(rank_before(x, old_res[j - 1]));
                } else {
                    assert(rank_before(old_res[i - 1], old_res[j - 1]));
                }
            }
            assert(items@.take(k + 1) =~= items@.take(k as int).push(x));
            assert forall|y: (i128, usize)| res@.contains(y) <==> items@.take(k + 1).contains(y) by {
                if res@.contains(y) {
                    let q = choose|q: int| 0 <= q < res@.len() && res@[q] == y;
                    if q == p {
                        assert(items@.take(k + 1)[k as int] == y);
                    } else {
                        if q < p {
                            assert(old_res[q] == y);
                        } else {
                            assert(old_res[q - 1] == y);
                        }
                        assert(old_res.contains(y));
                        assert(items@.take(k as int).contains(y));
                        let a = choose|a: int| 0 <= a < k && items@.take(k as int)[a] == y;
                        assert(items@.take(k + 1)[a] == y);
                    }
                }
                if items@.take(k + 1).contains(y) {
                    if y == x {
                        assert(res@[p as int] == y);
                    } else {
                        assert(items@.take(k as int).contains(y));
                        assert(old_res.contains(y));
                        let q = choose|q: int| 0 <= q < old_res.len() && old_res[q] == y;
                        assert(0 <= q < old_res.len());
                        if q < p {
                            assert(res@[q] == old_res[q]);
                            assert(res@[q] == y);
                        } else {
                            assert(res@[q + 1] == y);
                        }
                    }
                }
            }
            assert forall|q: int| 0 <= q < res.len() implies exists|a: int|
                0 <= a < k + 1 && (#[trigger] res@[q]) == items@[a] by {
                if q < p {
                    assert(res@[q] == old_res[q]);
                } else if q == p {
                    assert(res@[q] == items@[k as int]);
                } else {
                    assert(res@[q] == old_res[q - 1]);
                }
            }
        }
        k += 1;
    }
    assert(items@.take(items.len() as int) =~= items@);
    res
}

/// `v` clamped into the range of `i64`.
pub open spec fn saturate_i64(v: int) -> i64 {
    if v > i64::MAX {
        i64::MAX
    } else if v < i64::MIN {
        i64::MIN
    } else {
        v as i64
    }
}

/// `i64::saturating_sub`: `a - b`, clamped into the range of `i64`.
pub fn saturating_sub_i64(a: i64, b: i64) -> (res: i64)
    ensures
        res == saturate_i64(a - b),
{
    match a.checked_sub(b) {
        Some(v) => v,
        None => {
            if b < 0 {
                i64::MAX
            } else {
                i64::MIN
            }
        },
    }
}

/// `|a - b|` for byte offsets.
pub open spec fn offset_distance(a: usize, b: usize) -> usize {
    if a < b {
        (b - a) as usize
    } else {
        (a - b) as usize
    }
}

/// `a.abs_diff(b)` for byte offsets.
pub fn abs_diff(a: usize, b: usize) -> (res: usize)
    ensures
        res == offset_distance(a, b),
{
    if a < b {
        b - a
    } else {
        a - b
    }
}

/// `better` strictly orders all indices: never both ways, transitively, and
/// one way or the other for any two distinct indices.
pub open spec fn strict_total(better: spec_fn(int, int) -> bool) -> bool {
    &&& forall|i: int, j: int| #[trigger] better(i, j) ==> !better(j, i)
    &&& forall|i: int, j: int, k: int|
        #[trigger] better(i, j) && #[trigger] better(j, k) ==> better(i, k)
    &&& forall|i: int, j: int| i != j ==> #[trigger] better(i, j) || better(j, i)
}

/// `sel` lists offered indices from best to worst, cut after `cap` of them,
/// leaving out no offered index that beats the last one listed.
pub open spec fn is_top(
    offered: spec_fn(int) -> bool,
    better: spec_fn(int, int) -> bool,
    cap: nat,
    sel: Seq<int>,
) -> bool {
    &&& sel.len() <= cap
    &&& forall|k: int| 0 <= k < sel.len() ==> offered(#[trigger] sel[k])
    &&& forall|k: int, l: int| 0 <= k < l < sel.len() ==> better(#[trigger] sel[k], #[trigger] sel[l])
    &&& forall|i: int|
        #[trigger] offered(i) ==> sel.contains(i) || (sel.len() == cap && better(sel.last(), i))
}

/// Under a strict total order there is only one such list.
pub proof fn lemma_top_unique(
    offered: spec_fn(int) -> bool,
    better: spec_fn(int, int) -> bool,
    cap: nat,
    s1: Seq<int>,
    s2: Seq<int>,
)
    requires
        strict_total(better),
        is_top(offered, better, cap, s1),
        is_top(offered, better, cap, s2),
    ensures
        s1 == s2,
{
    lemma_top_prefix(offered, better, cap, s1, s2);
    lemma_top_prefix(offered, better, cap, s2, s1);
    lemma_top_len(offered, better, cap, s1, s2);
    lemma_top_len(offered, better, cap, s2, s1);
    assert(s1 =~= s2);
}

/// Two such lists agree wherever both have an entry.
proof fn lemma_top_prefix(
    offered: spec_fn(int) -> bool,
    better: spec_fn(int, int) -> bool,
    cap: nat,
    s1: Seq<int>,
    s2: Seq<int>,
)
    requires
        strict_total(better),
        is_top(offered, better, cap, s1),
        is_top(offered, better, cap, s2),
    ensures
        forall|k: int| 0 <= k < s1.len() && k < s2.len() ==> #[trigger] s1[k] == s2[k],
{
    assert forall|k: int| 0 <= k < s1.len() && k < s2.len() implies #[trigger] s1[k] == s2[k] by {
        lemma_top_entry(offered, better, cap, s1, s2, k);
    }
}

/// Entry `k` of two such lists is the same.
proof fn lemma_top_entry(
    offered: spec_fn(int) -> bool,
    better: spec_fn(int, int) -> bool,
    cap: nat,
    s1: Seq<int>,
    s2: Seq<int>,
    k: int,
)
    requires
        strict_total(better),
        is_top(offered, better, cap, s1),
        is_top(offered, better, cap, s2),
        0 <= k < s1.len(),
        k < s2.len(),
    ensures
        s1[k] == s2[k],
    decreases k,
{
    assert forall|m: int| 0 <= m < k implies #[trigger] s1[m] == s2[m] by {
        lemma_top_entry(offered, better, cap, s1, s2, m);
    }
    let a = s1[k];
    let b = s2[k];
    if a != b {
        if better(a, b) {
            lemma_top_not_later(offered, better, cap, s1, s2, k);
        } else {
            assert(better(b, a));
            lemma_top_not_later(offered, better, cap, s2, s1, k);
        }
    }
}

/// Where the entries before `k` agree, entry `k` of `s1` does not beat
/// entry `k` of `s2`.
proof fn lemma_top_not_later(
    offered: spec_fn(int) -> bool,
    better: spec_fn(int, int) -> bool,
    cap: nat,
    s1: Seq<int>,
    s2: Seq<int>,
    k: int,
)
    requires
        strict_total(better),
        is_top(offered, better, cap, s1),
        is_top(offered, better, cap, s2),
        0 <= k < s1.len(),
        k < s2.len(),
        forall|m: int| 0 <= m < k ==> #[trigger] s1[m] == s2[m],
    ensures
        !better(s1[k], s2[k]),
{
    let a = s1[k];
    let b = s2[k];
    assert(offered(a));
    if !better(a, b) {
    } else if s2.contains(a) {
        let m = choose|m: int| 0 <= m < s2.len() && s2[m] == a;
        if m < k {
            assert(s1[m] == a);
            assert(better(s1[m], s1[k]));
        } else if m == k {
            assert(better(a, a));
        } else {
            assert(better(s2[k], s2[m]));
        }
    } else {
        assert(s2.len() == cap && better(s2.last(), a));
        let last = s2.len() - 1;
        if last > k {
            assert(better(s2[k], s2[last]));
        }
    }
}

/// Where two such lists agree, the first is not the shorter.
proof fn lemma_top_len(
    offered: spec_fn(int) -> bool,
    better: spec_fn(int, int) -> bool,
    cap: nat,
    s1: Seq<int>,
    s2: Seq<int>,
)
    requires
        strict_total(better),
        is_top(offered, better, cap, s1),
        is_top(offered, better, cap, s2),
        forall|k: int| 0 <= k < s1.len() && k < s2.len() ==> #[trigger] s1[k] == s2[k],
    ensures
        s1.len() >= s2.len(),
{
    if s1.len() < s2.len() {
        let n = s1.len() as int;
        let x = s2[n];
        assert(offered(x));
        if s1.contains(x) {
            let m = choose|m: int| 0 <= m < s1.len() && s1[m] == x;
            assert(s2[m] == x);
            assert(better(s2[m], s2[n]));
        }
    }
}

/// The indices that are offered.
pub open spec fn offered_set(offered: spec_fn(int) -> bool) -> Set<int> {
    Set::new(|i: int| offered(i))
}

/// A best-first list holds every offered index up to the cap: its length
/// is the number of offered indices, or the cap when there are more.
pub proof fn lemma_top_count(
    offered: spec_fn(int) -> bool,
    better: spec_fn(int, int) -> bool,
    cap: nat,
    sel: Seq<int>,
    n: int,
)
    requires
        strict_total(better),
        is_top(offered, better, cap, sel),
        0 <= n,
        forall|i: int| #[trigger] offered(i) ==> 0 <= i < n,
    ensures
        offered_set(offered).finite(),
        sel.len() == if offered_set(offered).len() < cap {
            offered_set(offered).len()
        } else {
            cap
        },
{
    let all = offered_set(offered);
    vstd::set_lib::lemma_int_range(0, n);
    assert(all.subset_of(vstd::set_lib::set_int_range(0, n)));
    vstd::set_lib::lemma_len_subset(all, vstd::set_lib::set_int_range(0, n));
    assert forall|k: int, l: int| 0 <= k < sel.len() && 0 <= l < sel.len() && k != l implies sel[k]
        != sel[l] by {
        if k < l {
            assert(better(sel[k], sel[l]));
        } else {
            assert(better(sel[l], sel[k]));
        }
    }
    assert(sel.no_duplicates());
    sel.unique_seq_to_set();
    assert(sel.to_set().subset_of(all)) by {
        assert forall|x: int| sel.to_set().contains(x) implies all.contains(x) by {
            let k = choose|k: int| 0 <= k < sel.len() && sel[k] == x;
            assert(offered(sel[k]));
        }
    }
    vstd::set_lib::lemma_len_subset(sel.to_set(), all);
    if sel.len() < cap {
        assert(all.subset_of(sel.to_set())) by {
            assert forall|x: int| all.contains(x) implies sel.to_set().contains(x) by {
                assert(offered(x));
            }
        }
        vstd::set_lib::lemma_len_subset(all, sel.to_set());
    }
}

} // verus!
