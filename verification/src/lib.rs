//! A hybrid set of string keys: segments that pair a probabilistic membership
//! filter with an exact, ordered key store.

pub mod filter;
pub mod hybrid;
pub mod keyset;
pub mod laws;
pub mod model;
pub mod order;
pub mod segment;

pub use crate::hybrid::{ConstructionError, Hybrid, Traversal, SMALL_MERGE_THRESHOLD};
pub use crate::keyset::KeySet;
pub use crate::order::{key_rank, Rank};
pub use crate::segment::Segment;
