//! Hierarchical Navigable Small World (HNSW) approximate nearest-neighbour
//! graph, after Malkov and Yashunin.
//!
//! The library holds everything an HNSW index decides: its configuration and
//! the checks on it, the seeded layer-assignment generator, the per-node
//! columns (ids, metadata, insertion sequence, tombstones, top layers), the
//! per-layer adjacency lists, the live-id table, and the algorithms that read
//! and rewrite them: beam search at one layer, greedy descent, the diverse
//! neighbour heuristic, neighbourhood trimming, insertion, deletion, and the
//! selection of a search's hits under a metadata filter (evaluated by
//! `iqdb-filter`). What holds of every index, whatever built it, is stated
//! in [`laws`].
//!
//! Distances are never computed here. Every algorithm that needs one asks for
//! it through a [`Request`]: measure from the query (or from a stored node) to
//! a list of nodes. The caller answers with one [`DistKey`] per node, the
//! order-preserving integer image of the distance, and the algorithm resumes.
//! A key is compared with [`dist_lt`] where the distance would be compared
//! with `<`, and through [`Scored`]'s order where it would be compared by
//! total order.

use vstd::prelude::*;

pub mod config;
pub mod error;
pub mod filtering;
pub mod graph;
pub mod heuristic;
pub mod idkey;
pub mod index;
pub mod insert;
pub mod laws;
pub mod layer_search;
pub mod rng;
pub mod scored;
pub mod search;

pub use crate::config::HnswConfig;
pub use crate::error::{ConfigFault, HnswError};
pub use crate::graph::{cap_at_layer, Metric, Request};
pub use crate::heuristic::{select_simple, sort_by_rank, take_topk_sorted};
pub use crate::idkey::IdKey;
pub use crate::index::HnswIndex;
pub use crate::insert::InsertOp;
pub use crate::rng::SplitMix64;
pub use crate::scored::{dist_lt, DistKey, Scored};
pub use crate::search::SearchOp;

verus! {

/// The version of this crate.
pub const VERSION: &'static str = "1.0.0";

} // verus!
