//! Exact k-nearest-neighbour search over labelled points, and
//! classification of a query by majority vote among its neighbours.
//!
//! Distances travel as IEEE 754 binary64 bit patterns. Among the patterns of
//! finite numbers at or above zero the unsigned order is the numeric order,
//! so the search ranks and the vote compares them as integers.

pub mod datum;
pub mod dist;
pub mod error;
pub mod label;
pub mod query;
pub mod random;
pub mod rank;
pub mod search;
pub mod vote;

pub use datum::{Datum, Distance, NewRandom};
pub use dist::Dist;
pub use error::KnnError;
pub use query::{search_and_classify, summarize, KnnResult, NeighborWithDistance};
pub use random::{create_dataset, run};
pub use rank::rank;
pub use search::{k_nearest_neighbors, score, select_nearest, RankedResult};
pub use vote::classify;
