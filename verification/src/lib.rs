//! A range tree: a set of disjoint `[start, start + size)` segments of `u64` points,
//! kept in an ordered map from start to size, that merges touching segments.
pub mod segmap;
pub mod segments;
pub mod ops;
pub mod merge;
pub mod tree;
pub mod range_iter;
pub mod laws;

pub use ops::{DummyOps, OpEvent, RangeTreeOps};
pub use range_iter::{Bound, RangeIter};
pub use tree::RangeTree;
