//! Fixed-capacity hash collections.
//!
//! The core is a table of a fixed, prime number of slots with linear
//! probing, which threads its entries on a list in the order in which they
//! were last written. A map and a set are built on it, and a directed graph
//! that keeps each edge by the slots of its two ends, with the number of
//! times the edge was made as its weight.
//!
//! Beside them stand a graph kept as a plain list of nodes, and the cutting
//! of a text into sentences and words that fills a graph from a book.

pub mod adjacency;
pub mod check;
pub mod errors;
pub mod graph_model;
pub mod hash_graph;
pub mod hash_map;
pub mod hash_map_internal;
pub mod hash_set;
pub mod hashing;
pub mod sentences;
pub mod table_model;

pub use crate::errors::{InvalidCapacityError, OutOfCapacityError};
pub use crate::hash_graph::FixedSizeHashGraphMap;
pub use crate::hash_map::FixedSizeHashMap;
pub use crate::hash_set::FixedSizeHashSet;
