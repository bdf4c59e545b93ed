use vstd::prelude::*;
use crate::datum::{Datum, Distance};
use crate::dist::{is_distance_bits, Dist};
use crate::error::KnnError;
use crate::search::{
    all_distances, k_nearest_neighbors, measured, measures, nearest_by, scored_view, RankedResult,
};
use crate::vote::{classify, is_winner, votes_of, Vote};

verus! {

/// One neighbour of a query: the identifier of the observation and its
/// distance from the query.
#[derive(Clone, Copy, Debug)]
pub struct NeighborWithDistance {
    pub neighbor_id: i32,
    pub distance: Dist,
}

/// The answer to a query: its class, and the neighbours that voted for it,
/// nearest first.
#[derive(Clone, Debug)]
pub struct KnnResult<T> {
    pub classification: String,
    pub query_point: T,
    pub nearest_neighbors: Vec<NeighborWithDistance>,
}

/// What a list of neighbours holds: identifier and distance pattern of each.
pub open spec fn neighbors_view(neighbors: Seq<NeighborWithDistance>) -> Seq<(i32, u64)> {
    neighbors.map_values(|n: NeighborWithDistance| (n.neighbor_id, n.distance.bits()))
}

/// The identifier and distance pattern of each scored observation.
pub open spec fn ids_of<T: Distance>(scored: Seq<(Datum<T>, u64)>) -> Seq<(i32, u64)> {
    scored.map_values(|s: (Datum<T>, u64)| (s.0.id, s.1))
}

/// The vote of each scored observation.
pub open spec fn ballots<T: Distance>(scored: Seq<(Datum<T>, u64)>) -> Seq<Vote> {
    scored.map_values(|s: (Datum<T>, u64)| (s.0.class@, s.1))
}

/// Whether `result` answers the query for `query_point` among neighbours
/// that hold `nearest`: it lists them in their order, and its class wins
/// their vote.
pub open spec fn answers<T: Distance>(
    query_point: T,
    nearest: Seq<(Datum<T>, u64)>,
    result: KnnResult<T>,
) -> bool {
    &&& result.query_point == query_point
    &&& neighbors_view(result.nearest_neighbors@) == ids_of(nearest)
    &&& is_winner(ballots(nearest), result.classification@)
}

/// Makes the answer to a query from its nearest neighbours: their vote, and
/// the list of their identifiers and distances. Fails where there is no
/// neighbour to vote.
pub fn summarize<T: Distance>(query_point: T, nearest: &Vec<RankedResult<T>>) -> (r: Result<
    KnnResult<T>,
    KnnError,
>)
    ensures
        r is Err <==> nearest.len() == 0,
        r matches Err(e) ==> e == KnnError::EmptyNeighborhood,
        r matches Ok(result) ==> answers(query_point, scored_view(nearest@), result),
{
    match classify(nearest) {
        Ok(classification) => {
            let mut nearest_neighbors: Vec<NeighborWithDistance> = Vec::new();
            let mut i: usize = 0;
            while i < nearest.len()
                invariant
                    i <= nearest.len(),
                    nearest_neighbors.len() == i,
                    forall|j: int|
                        0 <= j < i ==> (#[trigger] nearest_neighbors@[j]).neighbor_id
                            == nearest@[j].0.id && nearest_neighbors@[j].distance.bits()
                            == nearest@[j].1.bits(),
                decreases nearest.len() - i,
            {
                let entry = &nearest[i];
                nearest_neighbors.push(
                    NeighborWithDistance { neighbor_id: entry.0.id, distance: entry.1 },
                );
                i += 1;
            }
            proof {
                assert(neighbors_view(nearest_neighbors@) =~= ids_of(scored_view(nearest@)));
                assert(votes_of(nearest@) =~= ballots(scored_view(nearest@)));
            }
            Ok(KnnResult { classification, query_point, nearest_neighbors })
        },
        Err(e) => Err(e),
    }
}

/// Finds the `k` nearest neighbours of `query_point` in `dataset` and
/// classifies the query by their vote.
///
/// A vote needs a voter: `k == 0` is refused before anything is measured,
/// and an empty dataset leaves no neighbour to vote.
pub fn search_and_classify<T: Distance>(k: usize, query_point: T, dataset: &Vec<Datum<T>>) -> (r:
    Result<KnnResult<T>, KnnError>)
    ensures
        k == 0 ==> r == Err::<KnnResult<T>, KnnError>(KnnError::InvalidK),
        k > 0 && dataset.len() == 0 ==> r == Err::<KnnResult<T>, KnnError>(
            KnnError::EmptyNeighborhood,
        ),
        r matches Err(e) ==> k == 0 || dataset.len() == 0 || (e == KnnError::InvalidPoint
            && exists|i: int, bits: u64|
            #![trigger measures(&query_point, dataset@[i], bits)]
            0 <= i < dataset.len() && measures(&query_point, dataset@[i], bits)
                && !is_distance_bits(bits)),
        r matches Ok(result) ==> exists|raw: Seq<u64>|
            #![trigger measured(&query_point, dataset@, raw)]
            measured(&query_point, dataset@, raw) && all_distances(raw) && answers(
                query_point,
                nearest_by(k as nat, dataset@, raw),
                result,
            ),
{
    if k == 0 {
        return Err(KnnError::InvalidK);
    }
    match k_nearest_neighbors(k, &query_point, dataset) {
        Ok(nearest) => summarize(query_point, &nearest),
        Err(e) => Err(e),
    }
}

} // verus!
