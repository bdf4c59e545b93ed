use vstd::prelude::*;
use crate::datum::{Datum, Distance};
use crate::dist::{canonical_bits, is_distance_bits, Dist};
use crate::error::KnnError;
use crate::rank::{keys_of, lemma_ranking_sorted, rank, ranking};

verus! {

/// An observation of the dataset together with its distance from the query.
pub type RankedResult<'a, T> = (&'a Datum<T>, Dist);

/// Whether `bits` is what the point type's measure gave from `datum` to
/// `query_point`.
pub open spec fn measures<T: Distance>(query_point: &T, datum: Datum<T>, bits: u64) -> bool {
    call_ensures(T::distance, (&datum.point, query_point), bits)
}

/// Whether `raw` holds, entry by entry, what the measure gave from each
/// observation of `dataset` to `query_point`.
pub open spec fn measured<T: Distance>(query_point: &T, dataset: Seq<Datum<T>>, raw: Seq<u64>) -> bool {
    &&& raw.len() == dataset.len()
    &&& forall|i: int| 0 <= i < raw.len() ==> measures(query_point, dataset[i], #[trigger] raw[i])
}

/// Whether every pattern in `raw` is that of a finite number not below zero.
pub open spec fn all_distances(raw: Seq<u64>) -> bool {
    forall|i: int| 0 <= i < raw.len() ==> is_distance_bits(#[trigger] raw[i])
}

/// The patterns under which the distances `raw` are kept.
pub open spec fn canonical(raw: Seq<u64>) -> Seq<u64> {
    raw.map_values(|bits: u64| canonical_bits(bits))
}

/// What a list of scored observations holds: each observation with the bit
/// pattern of its distance.
pub open spec fn scored_view<T: Distance>(scored: Seq<(&Datum<T>, Dist)>) -> Seq<(Datum<T>, u64)> {
    scored.map_values(|s: (&Datum<T>, Dist)| (*s.0, s.1.bits()))
}

/// The bit patterns of the distances in a list of scored observations.
pub open spec fn scores_of<T: Distance>(scored: Seq<(&Datum<T>, Dist)>) -> Seq<u64> {
    scored.map_values(|s: (&Datum<T>, Dist)| s.1.bits())
}

/// Each observation of `dataset` with the pattern of its distance in `raw`.
pub open spec fn paired<T: Distance>(dataset: Seq<Datum<T>>, raw: Seq<u64>) -> Seq<(Datum<T>, u64)> {
    Seq::new(dataset.len(), |i: int| (dataset[i], canonical_bits(raw[i])))
}

/// The `k` entries of `scored` that rank first, in rank order.
pub open spec fn nearest_of<'a, T: Distance>(k: nat, scored: Seq<(&'a Datum<T>, Dist)>) -> Seq<
    (&'a Datum<T>, Dist),
> {
    ranking(k, scores_of(scored)).map_values(|i: usize| scored[i as int])
}

/// The `k` observations of `dataset` that are nearest by the distances
/// `raw`, nearest first, each with the pattern of its distance.
pub open spec fn nearest_by<T: Distance>(k: nat, dataset: Seq<Datum<T>>, raw: Seq<u64>) -> Seq<
    (Datum<T>, u64),
> {
    ranking(k, canonical(raw)).map_values(|i: usize| paired(dataset, raw)[i as int])
}

/// Whether the distances in `nearest` never decrease.
pub open spec fn ascending<T: Distance>(nearest: Seq<(&Datum<T>, Dist)>) -> bool {
    forall|a: int, b: int|
        #![trigger nearest[a], nearest[b]]
        0 <= a <= b < nearest.len() ==> nearest[a].1.bits() <= nearest[b].1.bits()
}

/// Measures every observation of `dataset` against `query_point`.
///
/// Stops at the first distance that is not a finite number at or above zero.
pub fn score<'a, T: Distance>(query_point: &T, dataset: &'a Vec<Datum<T>>) -> (r: Result<
    Vec<RankedResult<'a, T>>,
    KnnError,
>)
    ensures
        dataset.len() == 0 ==> r is Ok,
        r matches Ok(scored) ==> exists|raw: Seq<u64>|
            #![trigger measured(query_point, dataset@, raw)]
            measured(query_point, dataset@, raw) && all_distances(raw) && scored_view(scored@)
                == paired(dataset@, raw),
        r matches Err(e) ==> e == KnnError::InvalidPoint && exists|i: int, bits: u64|
            #![trigger measures(query_point, dataset@[i], bits)]
            0 <= i < dataset.len() && measures(query_point, dataset@[i], bits) && !is_distance_bits(
                bits,
            ),
{
    let mut scored: Vec<(&'a Datum<T>, Dist)> = Vec::new();
    let ghost mut raw: Seq<u64> = Seq::empty();
    let mut i: usize = 0;
    while i < dataset.len()
        invariant
            i <= dataset.len(),
            raw.len() == i,
            scored.len() == i,
            all_distances(raw),
            forall|j: int| 0 <= j < i ==> measures(query_point, dataset@[j], #[trigger] raw[j]),
            forall|j: int|
                0 <= j < i ==> (#[trigger] scored@[j]) == (&dataset@[j], scored@[j].1)
                    && scored@[j].1.bits() == canonical_bits(raw[j]),
        decreases dataset.len() - i,
    {
        let bits = dataset[i].distance_from_point(query_point);
        assert(measures(query_point, dataset@[i as int], bits));
        match Dist::from_bits(bits) {
            Ok(d) => {
                scored.push((&dataset[i], d));
                proof {
                    raw = raw.push(bits);
                }
            },
            Err(e) => {
                return Err(e);
            },
        }
        i += 1;
    }
    proof {
        assert(measured(query_point, dataset@, raw));
        assert(scored_view(scored@) =~= paired(dataset@, raw));
    }
    Ok(scored)
}

/// Picks the `k` nearest of the scored observations, nearest first.
///
/// Observations at the same distance stay in the order in which `scored`
/// lists them. Where `k` exceeds their number, all are returned.
pub fn select_nearest<'a, T: Distance>(k: usize, scored: &Vec<RankedResult<'a, T>>) -> (nearest:
    Vec<RankedResult<'a, T>>)
    ensures
        nearest@ == nearest_of(k as nat, scored@),
        nearest.len() == if k <= scored.len() { k } else { scored.len() },
        ascending(nearest@),
{
    let mut dists: Vec<Dist> = Vec::new();
    let mut i: usize = 0;
    while i < scored.len()
        invariant
            i <= scored.len(),
            dists.len() == i,
            forall|j: int| 0 <= j < i ==> (#[trigger] dists@[j]) == scored@[j].1,
        decreases scored.len() - i,
    {
        dists.push(scored[i].1);
        i += 1;
    }
    assert(keys_of(dists@) =~= scores_of(scored@));
    let picks = rank(k, &dists);
    let ghost keys = scores_of(scored@);
    let mut nearest: Vec<(&'a Datum<T>, Dist)> = Vec::new();
    let mut j: usize = 0;
    while j < picks.len()
        invariant
            j <= picks.len(),
            nearest.len() == j,
            forall|m: int| 0 <= m < picks.len() ==> (#[trigger] picks@[m]) < scored.len(),
            forall|m: int| 0 <= m < j ==> (#[trigger] nearest@[m]) == scored@[picks@[m] as int],
        decreases picks.len() - j,
    {
        let entry = &scored[picks[j]];
        nearest.push((entry.0, entry.1));
        j += 1;
    }
    proof {
        assert(nearest@ =~= nearest_of(k as nat, scored@));
        assert forall|a: int, b: int|
            #![trigger nearest@[a], nearest@[b]]
            0 <= a <= b < nearest.len() implies nearest@[a].1.bits() <= nearest@[b].1.bits() by {
            lemma_ranking_sorted(k as nat, keys, picks@, a, b);
        }
    }
    nearest
}

/// The `k` observations of `dataset` nearest to `query_point`, nearest first,
/// each with its distance.
///
/// Observations at the same distance come in the order of the dataset. Where
/// `k` exceeds the size of the dataset, the whole dataset is returned,
/// ranked. A distance that is not a finite number at or above zero fails the
/// search, whatever `k` is.
pub fn k_nearest_neighbors<'a, T: Distance>(
    k: usize,
    query_point: &T,
    dataset: &'a Vec<Datum<T>>,
) -> (r: Result<Vec<RankedResult<'a, T>>, KnnError>)
    ensures
        dataset.len() == 0 ==> r is Ok,
        r matches Ok(nearest) ==> {
            &&& nearest.len() == if k <= dataset.len() { k } else { dataset.len() }
            &&& ascending(nearest@)
            &&& exists|raw: Seq<u64>|
                #![trigger measured(query_point, dataset@, raw)]
                measured(query_point, dataset@, raw) && all_distances(raw) && scored_view(nearest@)
                    == nearest_by(k as nat, dataset@, raw)
        },
        r matches Err(e) ==> e == KnnError::InvalidPoint && exists|i: int, bits: u64|
            #![trigger measures(query_point, dataset@[i], bits)]
            0 <= i < dataset.len() && measures(query_point, dataset@[i], bits) && !is_distance_bits(
                bits,
            ),
{
    match score(query_point, dataset) {
        Ok(scored) => {
            let nearest = select_nearest(k, &scored);
            proof {
                let raw = choose|raw: Seq<u64>|
                    #![trigger measured(query_point, dataset@, raw)]
                    measured(query_point, dataset@, raw) && all_distances(raw) && scored_view(
                        scored@,
                    ) == paired(dataset@, raw);
                assert(scored_view(scored@).len() == scored.len());
                assert(paired(dataset@, raw).len() == dataset.len());
                assert(scores_of(scored@) =~= canonical(raw)) by {
                    assert forall|i: int| 0 <= i < scored.len() implies scores_of(scored@)[i]
                        == canonical(raw)[i] by {
                        assert(scored_view(scored@)[i] == paired(dataset@, raw)[i]);
                    }
                }
                assert(scored_view(nearest@) =~= nearest_by(k as nat, dataset@, raw)) by {
                    let picks = ranking(k as nat, canonical(raw));
                    assert forall|j: int| 0 <= j < nearest.len() implies scored_view(nearest@)[j]
                        == nearest_by(k as nat, dataset@, raw)[j] by {
                        crate::rank::lemma_ranking_exists(k as nat, canonical(raw));
                        assert(picks[j] < scored.len());
                        assert(scored_view(scored@)[picks[j] as int] == paired(dataset@, raw)[picks[j] as int]);
                    }
                }
            }
            Ok(nearest)
        },
        Err(e) => Err(e),
    }
}

} // verus!
