use vstd::prelude::*;

verus! {

/// The ways in which a search or a vote can fail.
#[derive(Clone, Copy, Debug, PartialEq, Eq, Structural)]
pub enum KnnError {
    /// A distance was not a finite, non-negative number.
    InvalidPoint,
    /// A vote was asked for among no neighbours.
    EmptyNeighborhood,
    /// A classification was asked for with `k == 0`.
    InvalidK,
}

impl KnnError {
    /// A short description for diagnostics.
    pub fn message(&self) -> (text: String)
        ensures
            text@ == match *self {
                KnnError::InvalidPoint => "distance is not a finite non-negative number"@,
                KnnError::EmptyNeighborhood => "no neighbours to vote among"@,
                KnnError::InvalidK => "k must be at least one"@,
            },
    {
        match self {
            KnnError::InvalidPoint => "distance is not a finite non-negative number".to_owned(),
            KnnError::EmptyNeighborhood => "no neighbours to vote among".to_owned(),
            KnnError::InvalidK => "k must be at least one".to_owned(),
        }
    }
}

} // verus!
