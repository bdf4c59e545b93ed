use nearest_neighbor::{
    k_nearest_neighbors, rank, score, select_nearest, Datum, Dist, Distance, KnnError,
};

#[derive(Clone, Debug)]
struct Plane {
    x: f64,
    y: f64,
}

impl Distance for Plane {
    fn distance(&self, other: &Plane) -> u64 {
        let dx = self.x - other.x;
        let dy = self.y - other.y;
        (dx * dx + dy * dy).sqrt().to_bits()
    }
}

fn at(x: f64, y: f64) -> Plane {
    Plane { x, y }
}

fn datum(x: f64, y: f64, id: i32, class: &str) -> Datum<Plane> {
    Datum::new(at(x, y), id, class.to_string())
}

fn six_points() -> Vec<Datum<Plane>> {
    vec![
        datum(0.0, 0.0, 1, "A"),
        datum(1.0, 0.0, 2, "A"),
        datum(0.0, 1.0, 3, "A"),
        datum(10.0, 10.0, 4, "B"),
        datum(11.0, 10.0, 5, "B"),
        datum(10.0, 11.0, 6, "B"),
    ]
}

fn dist(value: f64) -> Dist {
    Dist::from_bits(value.to_bits()).unwrap()
}

fn ids(nearest: &Vec<(&Datum<Plane>, Dist)>) -> Vec<i32> {
    nearest.iter().map(|n| n.0.id).collect()
}

fn numbers(nearest: &Vec<(&Datum<Plane>, Dist)>) -> Vec<f64> {
    nearest.iter().map(|n| f64::from_bits(n.1.to_bits())).collect()
}

#[test]
fn distance_is_symmetric() {
    let a = datum(1.5, -2.0, 1, "A");
    let b = datum(-4.0, 7.25, 2, "B");
    assert_eq!(a.distance(&b), b.distance(&a));
    assert_eq!(a.point.distance(&b.point), b.point.distance(&a.point));
    assert_eq!(a.distance(&b), a.point.distance(&b.point));
}

#[test]
fn distance_to_itself_is_zero() {
    let a = datum(3.25, -8.5, 1, "A");
    assert_eq!(f64::from_bits(a.distance(&a)), 0.0);
    assert_eq!(f64::from_bits(a.distance_from_point(&a.point)), 0.0);
}

#[test]
fn distance_from_point_measures_from_the_datum() {
    let a = datum(0.0, 0.0, 1, "A");
    assert_eq!(f64::from_bits(a.distance_from_point(&at(3.0, 4.0))), 5.0);
}

#[test]
fn rank_orders_by_distance() {
    let dists = vec![dist(3.0), dist(1.0), dist(2.0)];
    assert_eq!(rank(2, &dists), vec![1, 2]);
    assert_eq!(rank(3, &dists), vec![1, 2, 0]);
}

#[test]
fn rank_keeps_ties_in_index_order() {
    let dists = vec![dist(2.0), dist(1.0), dist(2.0), dist(1.0), dist(2.0)];
    assert_eq!(rank(5, &dists), vec![1, 3, 0, 2, 4]);
    assert_eq!(rank(3, &dists), vec![1, 3, 0]);
    assert_eq!(rank(4, &dists), vec![1, 3, 0, 2]);
}

#[test]
fn rank_with_k_above_the_size_returns_all() {
    let dists = vec![dist(0.5), dist(0.25)];
    assert_eq!(rank(10, &dists), vec![1, 0]);
}

#[test]
fn rank_with_k_zero_or_nothing_to_rank_is_empty() {
    let dists = vec![dist(0.5), dist(0.25)];
    assert_eq!(rank(0, &dists), Vec::<usize>::new());
    assert_eq!(rank(3, &Vec::new()), Vec::<usize>::new());
}

#[test]
fn rank_of_descending_input_reverses_it() {
    let dists: Vec<Dist> = (0..50).map(|i| dist((50 - i) as f64)).collect();
    let expected: Vec<usize> = (0..7).map(|i| 49 - i).collect();
    assert_eq!(rank(7, &dists), expected);
}

#[test]
fn result_size_is_min_of_k_and_dataset_size() {
    let dataset = six_points();
    let query = at(0.5, 0.5);
    for k in 0..10 {
        let nearest = k_nearest_neighbors(k, &query, &dataset).unwrap();
        assert_eq!(nearest.len(), k.min(6));
    }
    let empty: Vec<Datum<Plane>> = Vec::new();
    assert_eq!(k_nearest_neighbors(3, &query, &empty).unwrap().len(), 0);
}

#[test]
fn returned_distances_never_decrease() {
    let dataset = vec![
        datum(5.0, 5.0, 1, "A"),
        datum(-1.0, 2.0, 2, "B"),
        datum(0.0, 0.1, 3, "A"),
        datum(7.0, -3.0, 4, "B"),
        datum(2.0, 2.0, 5, "A"),
        datum(0.0, 0.0, 6, "B"),
    ];
    let nearest = k_nearest_neighbors(6, &at(0.0, 0.0), &dataset).unwrap();
    let ds = numbers(&nearest);
    for w in ds.windows(2) {
        assert!(w[0] <= w[1]);
    }
    assert_eq!(ids(&nearest), vec![6, 3, 2, 5, 1, 4]);
}

#[test]
fn k_nearest_pairs_each_datum_with_its_distance() {
    let dataset = vec![datum(3.0, 4.0, 1, "A"), datum(0.0, 1.0, 2, "B")];
    let nearest = k_nearest_neighbors(2, &at(0.0, 0.0), &dataset).unwrap();
    assert_eq!(ids(&nearest), vec![2, 1]);
    assert_eq!(numbers(&nearest), vec![1.0, 5.0]);
    assert_eq!(nearest[0].0.class, "B");
    assert_eq!(nearest[1].0.class, "A");
}

#[test]
fn duplicated_points_are_both_taken_side_by_side() {
    let dataset = vec![
        datum(4.0, 0.0, 10, "A"),
        datum(1.0, 1.0, 11, "A"),
        datum(9.0, 9.0, 12, "B"),
        datum(1.0, 1.0, 13, "B"),
        datum(0.0, 0.0, 14, "B"),
    ];
    let query = at(0.0, 0.0);
    let nearest = k_nearest_neighbors(3, &query, &dataset).unwrap();
    assert_eq!(ids(&nearest), vec![14, 11, 13]);
    assert_eq!(nearest[1].1.to_bits(), nearest[2].1.to_bits());
    for _ in 0..5 {
        let again = k_nearest_neighbors(3, &query, &dataset).unwrap();
        assert_eq!(ids(&again), vec![14, 11, 13]);
    }
    // Cut between the two: the earlier of them is the one that stays.
    let two = k_nearest_neighbors(2, &query, &dataset).unwrap();
    assert_eq!(ids(&two), vec![14, 11]);
}

#[test]
fn repeated_search_gives_the_same_sequence() {
    let dataset = six_points();
    let query = at(5.0, 5.0);
    let first = k_nearest_neighbors(4, &query, &dataset).unwrap();
    let second = k_nearest_neighbors(4, &query, &dataset).unwrap();
    assert_eq!(ids(&first), ids(&second));
    let a: Vec<u64> = first.iter().map(|n| n.1.to_bits()).collect();
    let b: Vec<u64> = second.iter().map(|n| n.1.to_bits()).collect();
    assert_eq!(a, b);
}

#[test]
fn example_nearest_three_are_the_class_a_points() {
    let dataset = six_points();
    let nearest = k_nearest_neighbors(3, &at(0.5, 0.5), &dataset).unwrap();
    assert_eq!(ids(&nearest), vec![1, 2, 3]);
    for n in nearest.iter() {
        assert_eq!(n.0.class, "A");
        let d = f64::from_bits(n.1.to_bits());
        assert!((d - 0.5f64.sqrt()).abs() < 1e-12);
    }
}

#[test]
fn search_fails_on_a_distance_that_is_not_a_number() {
    let dataset = vec![datum(0.0, 0.0, 1, "A"), datum(f64::NAN, 0.0, 2, "B")];
    let r = k_nearest_neighbors(1, &at(1.0, 1.0), &dataset);
    assert_eq!(r.unwrap_err(), KnnError::InvalidPoint);
    let r = k_nearest_neighbors(0, &at(1.0, 1.0), &dataset);
    assert_eq!(r.unwrap_err(), KnnError::InvalidPoint);
}

#[test]
fn search_fails_on_an_infinite_distance() {
    let dataset = vec![datum(f64::INFINITY, 0.0, 1, "A")];
    let r = k_nearest_neighbors(1, &at(1.0, 1.0), &dataset);
    assert_eq!(r.unwrap_err(), KnnError::InvalidPoint);
    let good = six_points();
    let r = k_nearest_neighbors(1, &at(f64::NAN, 1.0), &good);
    assert_eq!(r.unwrap_err(), KnnError::InvalidPoint);
}

#[test]
fn score_pairs_every_datum_in_dataset_order() {
    let dataset = vec![datum(3.0, 4.0, 1, "A"), datum(0.0, 2.0, 2, "B"), datum(0.0, 0.0, 3, "B")];
    let scored = score(&at(0.0, 0.0), &dataset).unwrap();
    assert_eq!(ids(&scored), vec![1, 2, 3]);
    assert_eq!(numbers(&scored), vec![5.0, 2.0, 0.0]);
    let bad = vec![datum(f64::NAN, 4.0, 1, "A")];
    assert_eq!(score(&at(0.0, 0.0), &bad).unwrap_err(), KnnError::InvalidPoint);
    let none: Vec<Datum<Plane>> = Vec::new();
    assert_eq!(score(&at(0.0, 0.0), &none).unwrap().len(), 0);
}

#[test]
fn select_nearest_sorts_and_cuts() {
    let a = datum(0.0, 0.0, 1, "A");
    let b = datum(0.0, 0.0, 2, "B");
    let c = datum(0.0, 0.0, 3, "C");
    let scored = vec![(&a, dist(2.5)), (&b, dist(0.5)), (&c, dist(2.5))];
    let nearest = select_nearest(2, &scored);
    assert_eq!(ids(&nearest), vec![2, 1]);
    assert_eq!(numbers(&nearest), vec![0.5, 2.5]);
    let all = select_nearest(9, &scored);
    assert_eq!(ids(&all), vec![2, 1, 3]);
    assert_eq!(select_nearest(0, &scored).len(), 0);
}
