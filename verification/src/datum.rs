use vstd::prelude::*;

verus! {

/// A point type that can measure how far one of its values is from another.
///
/// The number is handed over as its IEEE 754 binary64 bit pattern. It is
/// meant to be finite and not below zero, zero from a point to itself, and
/// the same in both directions.
pub trait Distance {
    fn distance(&self, other: &Self) -> u64;
}

/// A type that can make a value of itself at random.
pub trait NewRandom: Sized {
    fn new_random() -> Self;
}

/// A labelled observation: a point, an identifier and a class.
#[derive(Clone, Debug)]
pub struct Datum<T: Distance> {
    pub class: String,
    pub point: T,
    pub id: i32,
}

impl<T: Distance> Datum<T> {
    pub fn new(point: T, id: i32, class: String) -> (datum: Datum<T>)
        ensures
            datum.point == point,
            datum.id == id,
            datum.class == class,
    {
        Datum { point, id, class }
    }

    /// What the point's own measure gives from this observation to `point`.
    pub fn distance_from_point(&self, point: &T) -> (bits: u64)
        ensures
            call_ensures(T::distance, (&self.point, point), bits),
    {
        self.point.distance(point)
    }
}

impl<T: Distance> Distance for Datum<T> {
    /// Two observations are as far apart as their points.
    fn distance(&self, datum: &Datum<T>) -> (bits: u64)
        ensures
            call_ensures(T::distance, (&self.point, &datum.point), bits),
    {
        self.point.distance(&datum.point)
    }
}

} // verus!
