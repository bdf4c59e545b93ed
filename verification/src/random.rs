use rand::Rng;
use vstd::prelude::*;
use crate::datum::{Datum, Distance, NewRandom};
use crate::error::KnnError;
use crate::query::{answers, search_and_classify, KnnResult};
use crate::search::{all_distances, measured, nearest_by};

verus! {

/// Draws an identifier: `rand::Rng::gen` for `i32` on `rand::thread_rng()`.
///
/// Nothing is claimed of the number: any `i32` may come back, and two draws
/// need not agree. The generator seeds itself from the system on first use.
#[verifier::external_body]
fn draw_id() -> (id: i32) {
    rand::thread_rng().gen()
}

/// Tosses a coin: `rand::Rng::gen` for `bool` on `rand::thread_rng()`.
///
/// Nothing is claimed of the outcome.
#[verifier::external_body]
fn draw_coin() -> (heads: bool) {
    rand::thread_rng().gen()
}

/// The class that a generated observation gets for a coin toss.
pub open spec fn class_for(heads: bool) -> Seq<char> {
    if heads {
        "class_1"@
    } else {
        "class_2"@
    }
}

impl<T: Distance> Datum<T> {
    /// The observation that a generator makes from what it drew: the point,
    /// the identifier, and the coin that decides between the two classes.
    pub fn from_draws(point: T, id: i32, heads: bool) -> (datum: Datum<T>)
        ensures
            datum.point == point,
            datum.id == id,
            datum.class@ == class_for(heads),
    {
        let class = if heads {
            "class_1".to_owned()
        } else {
            "class_2".to_owned()
        };
        Datum::new(point, id, class)
    }
}

impl<T: Distance + NewRandom> NewRandom for Datum<T> {
    /// A random point with a random identifier, in one of the two classes.
    fn new_random() -> (datum: Datum<T>)
        ensures
            call_ensures(T::new_random, (), datum.point),
            datum.class@ == class_for(true) || datum.class@ == class_for(false),
    {
        let point = T::new_random();
        let id = draw_id();
        let heads = draw_coin();
        Datum::from_draws(point, id, heads)
    }
}

/// How many observations a request for `number` of them gives: none for a
/// number below zero.
pub open spec fn dataset_len(number: i32) -> nat {
    if number > 0 {
        number as nat
    } else {
        0
    }
}

/// Whether `datum` is one that `Datum::new_random` can make.
pub open spec fn generated<T: Distance + NewRandom>(datum: Datum<T>) -> bool {
    call_ensures(Datum::<T>::new_random, (), datum)
}

/// A dataset of `number` random observations.
pub fn create_dataset<T: Distance + NewRandom>(number: i32) -> (dataset: Vec<Datum<T>>)
    ensures
        dataset.len() == dataset_len(number),
        forall|i: int| 0 <= i < dataset.len() ==> generated(#[trigger] dataset@[i]),
{
    let mut dataset: Vec<Datum<T>> = Vec::new();
    let mut i: i32 = 0;
    while i < number
        invariant
            0 <= i,
            i <= number || number < 0,
            dataset.len() == dataset_len(if i <= number { i } else { number }),
            forall|j: int| 0 <= j < dataset.len() ==> generated(#[trigger] dataset@[j]),
        decreases number - i,
    {
        dataset.push(Datum::new_random());
        i += 1;
    }
    dataset
}

/// Answers a random query against a random dataset of `dataset_size`
/// observations: the query's `k` nearest neighbours and its class.
pub fn run<T: NewRandom + Distance>(k: usize, dataset_size: i32) -> (r: Result<
    KnnResult<T>,
    KnnError,
>)
    ensures
        k == 0 ==> r == Err::<KnnResult<T>, KnnError>(KnnError::InvalidK),
        k > 0 && dataset_size <= 0 ==> r == Err::<KnnResult<T>, KnnError>(
            KnnError::EmptyNeighborhood,
        ),
        r matches Err(e) ==> k == 0 || dataset_size <= 0 || e == KnnError::InvalidPoint,
        r matches Ok(result) ==> call_ensures(T::new_random, (), result.query_point)
            && exists|dataset: Seq<Datum<T>>, raw: Seq<u64>|
            #![trigger measured(&result.query_point, dataset, raw)]
            dataset.len() == dataset_len(dataset_size) && measured(
                &result.query_point,
                dataset,
                raw,
            ) && all_distances(raw) && answers(
                result.query_point,
                nearest_by(k as nat, dataset, raw),
                result,
            ),
{
    if k == 0 {
        return Err(KnnError::InvalidK);
    }
    let query_point = T::new_random();
    let dataset = create_dataset::<T>(dataset_size);
    search_and_classify(k, query_point, &dataset)
}

} // verus!
