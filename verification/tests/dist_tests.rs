use nearest_neighbor::dist::{INFINITY_BITS, NEGATIVE_ZERO_BITS};
use nearest_neighbor::{create_dataset, run, Datum, Dist, Distance, KnnError, NewRandom};
use rand::Rng;

#[derive(Clone, Debug)]
struct Line {
    x: f64,
}

impl Distance for Line {
    fn distance(&self, other: &Line) -> u64 {
        (self.x - other.x).abs().to_bits()
    }
}

impl NewRandom for Line {
    fn new_random() -> Line {
        Line { x: rand::thread_rng().gen() }
    }
}

#[test]
fn finite_numbers_from_zero_up_are_distances() {
    for value in [0.0f64, 0.5, 1.0, 123456.789, f64::MIN_POSITIVE, f64::MAX, 5e-324] {
        let d = Dist::from_bits(value.to_bits()).unwrap();
        assert_eq!(d.to_bits(), value.to_bits());
        assert_eq!(f64::from_bits(d.to_bits()), value);
    }
}

#[test]
fn negative_zero_is_kept_as_zero() {
    let d = Dist::from_bits((-0.0f64).to_bits()).unwrap();
    assert_eq!(d.to_bits(), 0);
    assert_eq!(d.to_bits(), Dist::zero().to_bits());
    assert_eq!((-0.0f64).to_bits(), NEGATIVE_ZERO_BITS);
}

#[test]
fn other_numbers_are_refused() {
    for value in [f64::NAN, -f64::NAN, f64::INFINITY, f64::NEG_INFINITY, -1.0, -5e-324, f64::MIN] {
        assert_eq!(Dist::from_bits(value.to_bits()).unwrap_err(), KnnError::InvalidPoint);
    }
    assert_eq!(f64::INFINITY.to_bits(), INFINITY_BITS);
    assert!(Dist::from_bits(INFINITY_BITS - 1).is_ok());
    assert!(Dist::from_bits(u64::MAX).is_err());
}

#[test]
fn pattern_order_is_numeric_order() {
    let values = [0.0f64, 5e-324, 1e-300, 0.1, 0.5, 0.7071, 1.0, 2.0, 1e10, f64::MAX];
    for w in values.windows(2) {
        let a = Dist::from_bits(w[0].to_bits()).unwrap();
        let b = Dist::from_bits(w[1].to_bits()).unwrap();
        assert!(a.to_bits() < b.to_bits());
    }
}

#[test]
fn every_error_has_its_message() {
    assert_eq!(KnnError::InvalidPoint.message(), "distance is not a finite non-negative number");
    assert_eq!(KnnError::EmptyNeighborhood.message(), "no neighbours to vote among");
    assert_eq!(KnnError::InvalidK.message(), "k must be at least one");
}

#[test]
fn datum_keeps_what_it_was_made_from() {
    let d = Datum::new(Line { x: 2.5 }, 42, "class_1".to_string());
    assert_eq!(d.id, 42);
    assert_eq!(d.class, "class_1");
    assert_eq!(d.point.x, 2.5);
}

#[test]
fn drawn_datum_gets_the_class_of_its_coin() {
    let heads = Datum::from_draws(Line { x: 1.0 }, 7, true);
    assert_eq!(heads.class, "class_1");
    assert_eq!(heads.id, 7);
    assert_eq!(heads.point.x, 1.0);
    let tails = Datum::from_draws(Line { x: 1.0 }, -7, false);
    assert_eq!(tails.class, "class_2");
    assert_eq!(tails.id, -7);
}

#[test]
fn random_datum_is_in_one_of_the_two_classes() {
    for _ in 0..200 {
        let d: Datum<Line> = Datum::new_random();
        assert!(d.class == "class_1" || d.class == "class_2");
        assert!(0.0 <= d.point.x && d.point.x < 1.0);
    }
}

#[test]
fn random_data_fall_in_both_classes() {
    let dataset: Vec<Datum<Line>> = create_dataset(400);
    assert!(dataset.iter().any(|d| d.class == "class_1"));
    assert!(dataset.iter().any(|d| d.class == "class_2"));
    let first = dataset[0].id;
    assert!(dataset.iter().any(|d| d.id != first));
}

#[test]
fn dataset_has_the_size_asked_for() {
    assert_eq!(create_dataset::<Line>(5).len(), 5);
    assert_eq!(create_dataset::<Line>(1).len(), 1);
    assert_eq!(create_dataset::<Line>(0).len(), 0);
    assert_eq!(create_dataset::<Line>(-3).len(), 0);
    assert_eq!(create_dataset::<Line>(1000).len(), 1000);
}

#[test]
fn run_answers_a_random_query() {
    let result = run::<Line>(10, 1000).unwrap();
    assert_eq!(result.nearest_neighbors.len(), 10);
    assert!(result.classification == "class_1" || result.classification == "class_2");
    for w in result.nearest_neighbors.windows(2) {
        assert!(w[0].distance.to_bits() <= w[1].distance.to_bits());
    }
    let small = run::<Line>(10, 4).unwrap();
    assert_eq!(small.nearest_neighbors.len(), 4);
}

#[test]
fn run_refuses_k_zero_and_an_empty_dataset() {
    assert_eq!(run::<Line>(0, 10).unwrap_err(), KnnError::InvalidK);
    assert_eq!(run::<Line>(3, 0).unwrap_err(), KnnError::EmptyNeighborhood);
    assert_eq!(run::<Line>(3, -1).unwrap_err(), KnnError::EmptyNeighborhood);
    assert_eq!(run::<Line>(0, 0).unwrap_err(), KnnError::InvalidK);
}
