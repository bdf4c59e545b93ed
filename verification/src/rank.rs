use vstd::prelude::*;
use crate::dist::Dist;

verus! {

/// The bit patterns of a sequence of distances, index by index.
pub open spec fn keys_of(dists: Seq<Dist>) -> Seq<u64> {
    dists.map_values(|d: Dist| d.bits())
}

/// Whether entry `a` is ranked before entry `b`: it has the smaller key, or
/// the same key and the smaller index.
pub open spec fn precedes(keys: Seq<u64>, a: int, b: int) -> bool {
    keys[a] < keys[b] || (keys[a] == keys[b] && a < b)
}

/// Whether index `e` occurs in `picks`.
pub open spec fn picked(picks: Seq<usize>, e: int) -> bool {
    exists|j: int| 0 <= j < picks.len() && picks[j] == e
}

/// Whether `picks` lists, in rank order, the `k` first-ranked of the entries
/// `0..n` of `keys` (all `n` of them where `k` is larger).
pub open spec fn ranks_first(k: nat, keys: Seq<u64>, n: int, picks: Seq<usize>) -> bool {
    &&& picks.len() == if k <= n { k as int } else { n }
    &&& forall|j: int| 0 <= j < picks.len() ==> (#[trigger] picks[j]) < n
    &&& forall|a: int, b: int|
        #![trigger picks[a], picks[b]]
        0 <= a < b < picks.len() ==> precedes(keys, picks[a] as int, picks[b] as int)
    &&& forall|e: int, j: int|
        #![trigger picked(picks, e), picks[j]]
        0 <= e < n && 0 <= j < picks.len() && !picked(picks, e) ==> precedes(
            keys,
            picks[j] as int,
            e,
        )
}

/// Whether `picks` is the ranking of `keys` cut off after `k` entries:
/// ascending by key, entries with equal keys in the order of their indices,
/// and nothing left out that is ranked before an entry that was taken.
pub open spec fn is_ranking(k: nat, keys: Seq<u64>, picks: Seq<usize>) -> bool {
    ranks_first(k, keys, keys.len() as int, picks)
}

/// The ranking of `keys` cut off after `k` entries.
pub open spec fn ranking(k: nat, keys: Seq<u64>) -> Seq<usize> {
    choose|picks: Seq<usize>| is_ranking(k, keys, picks)
}

/// A ranking is determined by `k` and the keys: two sequences that both
/// satisfy `is_ranking` for the same `k` and the same keys are equal.
pub proof fn lemma_ranking_unique(k: nat, keys: Seq<u64>, r1: Seq<usize>, r2: Seq<usize>)
    requires
        is_ranking(k, keys, r1),
        is_ranking(k, keys, r2),
    ensures
        r1 == r2,
{
    lemma_ranking_agree(k, keys, r1, r2, r1.len() as int);
    assert(r1 =~= r2);
}

proof fn lemma_ranking_agree(k: nat, keys: Seq<u64>, r1: Seq<usize>, r2: Seq<usize>, upto: int)
    requires
        is_ranking(k, keys, r1),
        is_ranking(k, keys, r2),
        0 <= upto <= r1.len(),
    ensures
        forall|q: int| 0 <= q < upto ==> r1[q] == r2[q],
    decreases upto,
{
    if upto > 0 {
        let p = upto - 1;
        lemma_ranking_agree(k, keys, r1, r2, p);
        if r1[p] != r2[p] {
            lemma_not_picked(keys, r1, r2, p);
            lemma_not_picked(keys, r2, r1, p);
            if precedes(keys, r1[p] as int, r2[p] as int) {
                // `r1[p]` is missing from `r2`, so `r2[p]` must come before it.
                assert(!picked(r2, r1[p] as int));
                assert(precedes(keys, r2[p] as int, r1[p] as int));
            } else {
                assert(!picked(r1, r2[p] as int));
                assert(precedes(keys, r1[p] as int, r2[p] as int));
            }
        }
    }
}

/// Where two sorted pick lists agree before position `p`, an entry that the
/// first has at `p` and that is ranked before the second's entry at `p` does
/// not occur in the second.
proof fn lemma_not_picked(keys: Seq<u64>, r1: Seq<usize>, r2: Seq<usize>, p: int)
    requires
        0 <= p < r1.len(),
        r1.len() == r2.len(),
        forall|q: int| 0 <= q < p ==> r1[q] == r2[q],
        forall|a: int, b: int|
            #![trigger r1[a], r1[b]]
            0 <= a < b < r1.len() ==> precedes(keys, r1[a] as int, r1[b] as int),
        forall|a: int, b: int|
            #![trigger r2[a], r2[b]]
            0 <= a < b < r2.len() ==> precedes(keys, r2[a] as int, r2[b] as int),
    ensures
        precedes(keys, r1[p] as int, r2[p] as int) ==> !picked(r2, r1[p] as int),
{
    if precedes(keys, r1[p] as int, r2[p] as int) && picked(r2, r1[p] as int) {
        let q = choose|q: int| 0 <= q < r2.len() && r2[q] == r1[p] as int;
        if q < p {
            assert(r1[q] == r2[q]);
            assert(precedes(keys, r1[q] as int, r1[p] as int));
        } else if q > p {
            assert(precedes(keys, r2[p] as int, r2[q] as int));
        }
    }
}

/// Along a ranking the keys never decrease.
pub proof fn lemma_ranking_sorted(k: nat, keys: Seq<u64>, picks: Seq<usize>, a: int, b: int)
    requires
        is_ranking(k, keys, picks),
        0 <= a <= b < picks.len(),
    ensures
        keys[picks[a] as int] <= keys[picks[b] as int],
{
    if a < b {
        assert(precedes(keys, picks[a] as int, picks[b] as int));
    }
}

/// No entry is taken twice.
pub proof fn lemma_ranking_distinct(k: nat, keys: Seq<u64>, picks: Seq<usize>, a: int, b: int)
    requires
        is_ranking(k, keys, picks),
        0 <= a < b < picks.len(),
    ensures
        picks[a] != picks[b],
{
    assert(precedes(keys, picks[a] as int, picks[b] as int));
}

/// Entries with equal keys are taken in the order of their indices: where a
/// ranking holds entry `b`, it holds every earlier entry `a` with the same
/// key, at an earlier position, and every position between the two has that
/// key too.
pub proof fn lemma_equal_keys_together(
    k: nat,
    keys: Seq<u64>,
    picks: Seq<usize>,
    a: int,
    pb: int,
) -> (pa: int)
    requires
        is_ranking(k, keys, picks),
        0 <= pb < picks.len(),
        0 <= a < picks[pb],
        keys[a] == keys[picks[pb] as int],
    ensures
        0 <= pa < pb,
        picks[pa] == a,
        forall|m: int| pa <= m <= pb ==> keys[#[trigger] picks[m] as int] == keys[a],
{
    let b = picks[pb] as int;
    if !picked(picks, a) {
        assert(precedes(keys, picks[pb] as int, a));
    }
    let pa = choose|j: int| 0 <= j < picks.len() && picks[j] == a;
    if pa > pb {
        assert(precedes(keys, picks[pb] as int, picks[pa] as int));
    }
    assert forall|m: int| pa <= m <= pb implies keys[#[trigger] picks[m] as int] == keys[a] by {
        if pa < m {
            assert(precedes(keys, picks[pa] as int, picks[m] as int));
        }
        if m < pb {
            assert(precedes(keys, picks[m] as int, picks[pb] as int));
        }
    }
    pa
}

/// What one step of the selection keeps: `picks` ranks the first `n`
/// entries, and holds all of them while it is shorter than `k`.
spec fn selects(k: nat, keys: Seq<u64>, n: int, picks: Seq<usize>) -> bool {
    &&& ranks_first(k, keys, n, picks)
    &&& picks.len() < k ==> forall|e: int| 0 <= e < n ==> picked(picks, e)
}

/// Entry `i` is ranked after every pick: the picks stay as they are.
proof fn lemma_step_skip(k: nat, keys: Seq<u64>, i: usize, picks: Seq<usize>)
    requires
        selects(k, keys, i as int, picks),
        picks.len() == k,
        forall|j: int| 0 <= j < picks.len() ==> keys[#[trigger] picks[j] as int] <= keys[i as int],
    ensures
        selects(k, keys, i + 1, picks),
{
    assert forall|e: int, j: int|
        #![trigger picked(picks, e), picks[j]]
        0 <= e < i + 1 && 0 <= j < picks.len() && !picked(picks, e) implies precedes(
        keys,
        picks[j] as int,
        e,
    ) by {
        if e == i {
            assert(picks[j] < i);
        }
    }
}

/// Entry `i` belongs at position `p`: it is put there, and the last pick
/// leaves where that makes more than `k`.
proof fn lemma_step_insert(
    k: nat,
    keys: Seq<u64>,
    i: usize,
    before: Seq<usize>,
    p: int,
    after: Seq<usize>,
)
    requires
        selects(k, keys, i as int, before),
        0 <= p <= before.len(),
        p < k,
        forall|j: int| 0 <= j < p ==> keys[#[trigger] before[j] as int] <= keys[i as int],
        forall|j: int| p <= j < before.len() ==> keys[#[trigger] before[j] as int] > keys[i as int],
        after == if before.len() < k {
            before.insert(p, i)
        } else {
            before.insert(p, i).drop_last()
        },
    ensures
        selects(k, keys, i + 1, after),
{
    let ins = before.insert(p, i);
    let full = before.len() == k;
    assert(ins.len() == before.len() + 1);
    assert(forall|j: int| 0 <= j < p ==> ins[j] == before[j]);
    assert(ins[p] == i);
    assert(forall|j: int| p < j < ins.len() ==> ins[j] == before[j - 1]);
    assert(forall|j: int| 0 <= j < after.len() ==> after[j] == ins[j]);
    // Where each entry of `after` comes from.
    assert forall|j: int| 0 <= j < after.len() implies (#[trigger] after[j]) < i + 1 by {
        if j < p {
            assert(before[j] < i);
        } else if j > p {
            assert(before[j - 1] < i);
        }
    }
    assert forall|a: int, b: int|
        #![trigger after[a], after[b]]
        0 <= a < b < after.len() implies precedes(keys, after[a] as int, after[b] as int) by {
        if b < p {
            assert(precedes(keys, before[a] as int, before[b] as int));
        } else if b == p {
            assert(before[a] < i);
            assert(keys[before[a] as int] <= keys[i as int]);
        } else if a < p {
            assert(precedes(keys, before[a] as int, before[b - 1] as int));
        } else if a == p {
            assert(keys[before[b - 1] as int] > keys[i as int]);
        } else {
            assert(precedes(keys, before[a - 1] as int, before[b - 1] as int));
        }
    }
    assert forall|e: int, j: int|
        #![trigger picked(after, e), after[j]]
        0 <= e < i + 1 && 0 <= j < after.len() && !picked(after, e) implies precedes(
        keys,
        after[j] as int,
        e,
    ) by {
        assert(after[p] == i);
        assert(e != i);
        if picked(before, e) {
            let q = choose|q: int| 0 <= q < before.len() && before[q] == e;
            // `e` left: it was the last pick.
            if q < p {
                assert(after[q] == e);
            } else if q + 1 < after.len() {
                assert(after[q + 1] == e);
            }
            assert(full && q == before.len() - 1 && q >= p);
            if j < p {
                assert(precedes(keys, before[j] as int, before[q] as int));
            } else if j == p {
                assert(keys[before[q] as int] > keys[i as int]);
            } else {
                assert(after[j] == before[j - 1]);
                assert(precedes(keys, before[j - 1] as int, before[q] as int));
            }
        } else {
            assert(full);
            if j < p {
                assert(precedes(keys, before[j] as int, e));
            } else if j == p {
                assert(precedes(keys, before[p] as int, e));
                assert(keys[before[p] as int] > keys[i as int]);
            } else {
                assert(after[j] == before[j - 1]);
                assert(precedes(keys, before[j - 1] as int, e));
            }
        }
    }
    if after.len() < k {
        assert forall|e: int| 0 <= e < i + 1 implies picked(after, e) by {
            if e == i {
                assert(after[p] == e);
            } else {
                assert(picked(before, e));
                let q = choose|q: int| 0 <= q < before.len() && before[q] == e;
                if q < p {
                    assert(after[q] == e);
                } else {
                    assert(after[q + 1] == e);
                }
            }
        }
    }
}

/// Where entry `i` belongs among picks that are sorted by key: behind the
/// last pick whose key is not above its own.
proof fn lemma_split(keys: Seq<u64>, i: int, picks: Seq<usize>, upto: int) -> (p: int)
    requires
        0 <= upto <= picks.len(),
        forall|a: int, b: int|
            #![trigger picks[a], picks[b]]
            0 <= a < b < picks.len() ==> precedes(keys, picks[a] as int, picks[b] as int),
        forall|j: int| upto <= j < picks.len() ==> keys[#[trigger] picks[j] as int] > keys[i],
    ensures
        0 <= p <= upto,
        forall|j: int| 0 <= j < p ==> keys[#[trigger] picks[j] as int] <= keys[i],
        forall|j: int| p <= j < picks.len() ==> keys[#[trigger] picks[j] as int] > keys[i],
    decreases upto,
{
    if upto > 0 && keys[picks[upto - 1] as int] > keys[i] {
        lemma_split(keys, i, picks, upto - 1)
    } else {
        assert forall|j: int| 0 <= j < upto implies keys[#[trigger] picks[j] as int] <= keys[i] by {
            if j < upto - 1 {
                assert(precedes(keys, picks[j] as int, picks[upto - 1] as int));
            }
        }
        upto
    }
}

proof fn lemma_selection_exists(k: nat, keys: Seq<u64>, n: nat) -> (picks: Seq<usize>)
    requires
        n <= keys.len(),
        n <= usize::MAX,
    ensures
        selects(k, keys, n as int, picks),
    decreases n,
{
    if n == 0 {
        Seq::empty()
    } else {
        let i = (n - 1) as usize;
        let before = lemma_selection_exists(k, keys, i as nat);
        let p = lemma_split(keys, i as int, before, before.len() as int);
        if p < k {
            let after = if before.len() < k {
                before.insert(p, i)
            } else {
                before.insert(p, i).drop_last()
            };
            lemma_step_insert(k, keys, i, before, p, after);
            after
        } else {
            lemma_step_skip(k, keys, i, before);
            before
        }
    }
}

/// Every sequence of keys that a vector can hold has a ranking, and
/// `ranking` is it.
pub proof fn lemma_ranking_exists(k: nat, keys: Seq<u64>)
    requires
        keys.len() <= usize::MAX,
    ensures
        is_ranking(k, keys, ranking(k, keys)),
{
    let picks = lemma_selection_exists(k, keys, keys.len());
    assert(is_ranking(k, keys, picks));
}

/// Cutting the ranking of all entries after `k` gives the ranking cut off
/// after `k`: the `k` nearest are the first `k` of the sorted whole.
pub proof fn lemma_ranking_is_prefix(k: nat, keys: Seq<u64>)
    requires
        k <= keys.len() <= usize::MAX,
    ensures
        ranking(k, keys) == ranking(keys.len(), keys).take(k as int),
{
    lemma_ranking_exists(k, keys);
    lemma_ranking_exists(keys.len(), keys);
    let whole = ranking(keys.len(), keys);
    let cut = whole.take(k as int);
    assert forall|e: int, j: int|
        #![trigger picked(cut, e), cut[j]]
        0 <= e < keys.len() && 0 <= j < cut.len() && !picked(cut, e) implies precedes(
        keys,
        cut[j] as int,
        e,
    ) by {
        if picked(whole, e) {
            let q = choose|q: int| 0 <= q < whole.len() && whole[q] == e;
            if q < k {
                assert(cut[q] == e);
            }
            assert(precedes(keys, whole[j] as int, whole[q] as int));
        } else {
            assert(precedes(keys, whole[j] as int, e));
        }
    }
    assert forall|a: int, b: int|
        #![trigger cut[a], cut[b]]
        0 <= a < b < cut.len() implies precedes(keys, cut[a] as int, cut[b] as int) by {
        assert(precedes(keys, whole[a] as int, whole[b] as int));
    }
    assert forall|j: int| 0 <= j < cut.len() implies (#[trigger] cut[j]) < keys.len() by {
        assert(whole[j] < keys.len());
    }
    assert(is_ranking(k, keys, cut));
    lemma_ranking_unique(k, keys, cut, ranking(k, keys));
}

/// Ranks the distances and returns the indices of the `k` nearest entries,
/// nearest first; entries at the same distance come in the order of their
/// indices. Where `k` exceeds the number of entries, all are returned.
///
/// One pass over the entries keeps the best `k` seen so far in order, so the
/// work is at most the number of entries times `k`.
pub fn rank(k: usize, dists: &Vec<Dist>) -> (picks: Vec<usize>)
    ensures
        picks@ == ranking(k as nat, keys_of(dists@)),
        is_ranking(k as nat, keys_of(dists@), picks@),
{
    let ghost keys = keys_of(dists@);
    let n = dists.len();
    let mut picks: Vec<usize> = Vec::new();
    let mut i: usize = 0;
    while i < n
        invariant
            n == dists.len(),
            keys == keys_of(dists@),
            i <= n,
            selects(k as nat, keys, i as int, picks@),
        decreases n - i,
    {
        let key = dists[i].to_bits();
        let mut p: usize = picks.len();
        while p > 0 && dists[picks[p - 1]].to_bits() > key
            invariant
                n == dists.len(),
                keys == keys_of(dists@),
                i < n,
                key == keys[i as int],
                p <= picks.len(),
                forall|j: int| 0 <= j < picks.len() ==> (#[trigger] picks[j]) < i,
                forall|j: int| p <= j < picks.len() ==> keys[#[trigger] picks[j] as int] > key,
            decreases p,
        {
            p -= 1;
        }
        proof {
            assert forall|j: int| 0 <= j < p implies keys[#[trigger] picks[j] as int] <= key by {
                if j < p - 1 {
                    assert(precedes(keys, picks[j] as int, picks[p - 1] as int));
                }
            }
        }
        if p < k {
            let ghost before = picks@;
            picks.insert(p, i);
            if picks.len() > k {
                picks.pop();
            }
            proof {
                assert(picks@ =~= if before.len() < k {
                    before.insert(p as int, i)
                } else {
                    before.insert(p as int, i).drop_last()
                });
                lemma_step_insert(k as nat, keys, i, before, p as int, picks@);
            }
        } else {
            proof {
                lemma_step_skip(k as nat, keys, i, picks@);
            }
        }
        i += 1;
    }
    proof {
        assert(is_ranking(k as nat, keys, picks@));
        lemma_ranking_unique(k as nat, keys, picks@, ranking(k as nat, keys));
    }
    picks
}

} // verus!
