use vstd::prelude::*;
use crate::datum::{Datum, Distance};
use crate::dist::Dist;
use crate::error::KnnError;
use crate::label::{
    label_le, lemma_lex_antisymmetric, lemma_lex_total, lemma_lex_transitive, lex_le,
};
use crate::search::RankedResult;

verus! {

/// One vote: the class of a neighbour and the bit pattern of its distance.
pub type Vote = (Seq<char>, u64);

/// The votes that a list of neighbours casts, one each, in the list's order.
pub open spec fn votes_of<T: Distance>(results: Seq<(&Datum<T>, Dist)>) -> Seq<Vote> {
    results.map_values(|r: (&Datum<T>, Dist)| (r.0.class@, r.1.bits()))
}

/// How many of the votes are for `label`.
pub open spec fn count_of(votes: Seq<Vote>, label: Seq<char>) -> nat
    decreases votes.len(),
{
    if votes.len() == 0 {
        0
    } else {
        count_of(votes.drop_last(), label) + if votes.last().0 == label {
            1nat
        } else {
            0nat
        }
    }
}

/// The smallest distance among the votes for `label`; the largest pattern
/// there is where no vote is for it.
pub open spec fn closest_of(votes: Seq<Vote>, label: Seq<char>) -> u64
    decreases votes.len(),
{
    if votes.len() == 0 {
        u64::MAX
    } else {
        let rest = closest_of(votes.drop_last(), label);
        if votes.last().0 == label && votes.last().1 < rest {
            votes.last().1
        } else {
            rest
        }
    }
}

/// Whether label `a` is to be preferred to label `b`, or is `b`: it has more
/// votes; or as many, and its closest voter is closer; or that too is equal,
/// and it comes no later in lexical order.
pub open spec fn outvotes(votes: Seq<Vote>, a: Seq<char>, b: Seq<char>) -> bool {
    let na = count_of(votes, a);
    let nb = count_of(votes, b);
    let da = closest_of(votes, a);
    let db = closest_of(votes, b);
    na > nb || (na == nb && (da < db || (da == db && lex_le(a, b))))
}

/// Whether `label` wins the vote: some vote is for it, and it is preferred to
/// the label of every vote.
pub open spec fn is_winner(votes: Seq<Vote>, label: Seq<char>) -> bool {
    &&& exists|j: int| 0 <= j < votes.len() && (#[trigger] votes[j]).0 == label
    &&& forall|j: int| 0 <= j < votes.len() ==> outvotes(votes, label, (#[trigger] votes[j]).0)
}

/// `closest_of` is the minimum: no vote for `label` is closer, and where a
/// vote is for `label`, one of them is at that distance. `count_of` is above
/// zero exactly where a vote is for `label`.
pub proof fn lemma_closest_is_minimum(votes: Seq<Vote>, label: Seq<char>)
    ensures
        forall|j: int|
            0 <= j < votes.len() && (#[trigger] votes[j]).0 == label ==> closest_of(votes, label)
                <= votes[j].1,
        count_of(votes, label) > 0 ==> exists|j: int|
            0 <= j < votes.len() && #[trigger] votes[j] == (label, closest_of(votes, label)),
        count_of(votes, label) > 0 <==> exists|j: int|
            0 <= j < votes.len() && (#[trigger] votes[j]).0 == label,
        count_of(votes, label) == 0 ==> closest_of(votes, label) == u64::MAX,
    decreases votes.len(),
{
    if votes.len() > 0 {
        let init = votes.drop_last();
        let last = votes.len() - 1;
        lemma_closest_is_minimum(init, label);
        assert(forall|j: int| 0 <= j < init.len() ==> init[j] == votes[j]);
        if count_of(votes, label) > 0 {
            if votes.last().0 == label && votes.last().1 < closest_of(init, label) {
                assert(votes[last] == (label, closest_of(votes, label)));
            } else if count_of(init, label) > 0 {
                let j = choose|j: int|
                    0 <= j < init.len() && #[trigger] init[j] == (label, closest_of(init, label));
                assert(votes[j] == (label, closest_of(votes, label)));
            } else {
                // The only vote for `label` is the last, at the largest pattern.
                assert(votes[last] == (label, closest_of(votes, label)));
            }
            let w = choose|j: int|
                0 <= j < votes.len() && #[trigger] votes[j] == (label, closest_of(votes, label));
            assert(votes[w].0 == label);
        }
        if exists|j: int| 0 <= j < votes.len() && (#[trigger] votes[j]).0 == label {
            let j = choose|j: int| 0 <= j < votes.len() && (#[trigger] votes[j]).0 == label;
            if j < last {
                assert(init[j].0 == label);
            }
        }
    }
}

/// Of two labels, one is preferred to the other.
pub proof fn lemma_outvotes_total(votes: Seq<Vote>, a: Seq<char>, b: Seq<char>)
    ensures
        outvotes(votes, a, b) || outvotes(votes, b, a),
{
    lemma_lex_total(a, b);
}

/// Preference carries over: from `a` over `b` and `b` over `c`, `a` over `c`.
pub proof fn lemma_outvotes_transitive(votes: Seq<Vote>, a: Seq<char>, b: Seq<char>, c: Seq<char>)
    requires
        outvotes(votes, a, b),
        outvotes(votes, b, c),
    ensures
        outvotes(votes, a, c),
{
    if lex_le(a, b) && lex_le(b, c) {
        lemma_lex_transitive(a, b, c);
    }
}

/// A vote has one winner: two labels that both win are the same label.
pub proof fn lemma_winner_unique(votes: Seq<Vote>, w1: Seq<char>, w2: Seq<char>)
    requires
        is_winner(votes, w1),
        is_winner(votes, w2),
    ensures
        w1 == w2,
{
    let j1 = choose|j: int| 0 <= j < votes.len() && (#[trigger] votes[j]).0 == w1;
    let j2 = choose|j: int| 0 <= j < votes.len() && (#[trigger] votes[j]).0 == w2;
    assert(outvotes(votes, w1, votes[j2].0));
    assert(outvotes(votes, w2, votes[j1].0));
    lemma_lex_antisymmetric(w1, w2);
}

/// A label with more votes than every other label wins.
pub proof fn lemma_majority_wins(votes: Seq<Vote>, label: Seq<char>)
    requires
        forall|j: int|
            0 <= j < votes.len() && (#[trigger] votes[j]).0 != label ==> count_of(votes, label)
                > count_of(votes, votes[j].0),
        count_of(votes, label) > 0,
    ensures
        is_winner(votes, label),
{
    lemma_closest_is_minimum(votes, label);
    lemma_lex_total(label, label);
}

/// Counts the votes for `label` and finds the closest of them.
fn tally<T: Distance>(results: &Vec<(&Datum<T>, Dist)>, label: &String) -> (t: (usize, u64))
    ensures
        t.0 == count_of(votes_of(results@), label@),
        t.1 == closest_of(votes_of(results@), label@),
{
    let ghost votes = votes_of(results@);
    let mut count: usize = 0;
    let mut closest: u64 = u64::MAX;
    let mut i: usize = 0;
    while i < results.len()
        invariant
            votes == votes_of(results@),
            i <= results.len(),
            count <= i,
            count == count_of(votes.take(i as int), label@),
            closest == closest_of(votes.take(i as int), label@),
        decreases results.len() - i,
    {
        proof {
            assert(votes.take(i + 1).drop_last() =~= votes.take(i as int));
            assert(votes.take(i + 1).last() == votes[i as int]);
        }
        if results[i].0.class == *label {
            count += 1;
            let bits = results[i].1.to_bits();
            if bits < closest {
                closest = bits;
            }
        }
        i += 1;
    }
    proof {
        assert(votes.take(i as int) =~= votes);
    }
    (count, closest)
}

/// The class of a query from its nearest neighbours, by majority vote.
///
/// The class with the most neighbours wins. Among classes with equally many,
/// the one whose closest neighbour is closest wins; among those that are
/// equal in that too, the one that comes first in lexical order.
pub fn classify<T: Distance>(results: &Vec<RankedResult<T>>) -> (r: Result<String, KnnError>)
    ensures
        r is Err <==> results.len() == 0,
        r matches Err(e) ==> e == KnnError::EmptyNeighborhood,
        r matches Ok(label) ==> is_winner(votes_of(results@), label@),
{
    let n = results.len();
    if n == 0 {
        return Err(KnnError::EmptyNeighborhood);
    }
    let ghost votes = votes_of(results@);
    let mut best: usize = 0;
    let mut best_tally = tally(results, &results[0].0.class);
    proof {
        lemma_lex_total(votes[0].0, votes[0].0);
    }
    let mut j: usize = 1;
    while j < n
        invariant
            n == results.len(),
            votes == votes_of(results@),
            1 <= j <= n,
            best < j,
            best_tally.0 == count_of(votes, votes[best as int].0),
            best_tally.1 == closest_of(votes, votes[best as int].0),
            forall|m: int| 0 <= m < j ==> outvotes(votes, votes[best as int].0, (#[trigger] votes[m]).0),
        decreases n - j,
    {
        let t = tally(results, &results[j].0.class);
        let keep = best_tally.0 > t.0 || (best_tally.0 == t.0 && (best_tally.1 < t.1 || (
        best_tally.1 == t.1 && label_le(
            results[best].0.class.as_str(),
            results[j].0.class.as_str(),
        ))));
        proof {
            let b = votes[best as int].0;
            let c = votes[j as int].0;
            assert(keep == outvotes(votes, b, c));
            if !keep {
                lemma_outvotes_total(votes, b, c);
                lemma_lex_total(c, c);
                assert forall|m: int| 0 <= m < j + 1 implies outvotes(
                    votes,
                    c,
                    (#[trigger] votes[m]).0,
                ) by {
                    if m < j {
                        lemma_outvotes_transitive(votes, c, b, votes[m].0);
                    }
                }
            }
        }
        if !keep {
            best = j;
            best_tally = t;
        }
        j += 1;
    }
    let label = results[best].0.class.clone();
    proof {
        assert(votes[best as int].0 == label@);
    }
    Ok(label)
}

} // verus!
