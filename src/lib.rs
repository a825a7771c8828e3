//! Path ORAM: an oblivious block store laid out as a binary tree of buckets,
//! with a position map and a stash.

pub mod block;
pub mod bucket;
pub mod error;
pub mod oram;
pub mod stats;
pub mod tree_index;
