//! An in-memory vector collection with exact k-nearest-neighbour search.
//!
//! Vectors hold integer components, so every score is computed exactly and
//! every ranking is reproducible bit for bit. A collection is built once
//! from a validated batch of records and is read-only afterwards; a search
//! ranks every stored record against the query, keeps the best `k` in a
//! bounded ranking, and breaks equal scores by ascending identifier, so its
//! answer is the exact nearest set rather than an approximation of it.
pub mod collection;
pub mod distance;
pub mod vector;
