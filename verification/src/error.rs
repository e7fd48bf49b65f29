//! Errors of the index operations.

use vstd::prelude::*;

verus! {

/// Which configuration check failed.
#[derive(Debug, Clone, Copy, PartialEq, Eq, Structural)]
pub enum ConfigFault {
    /// The dimensionality was zero.
    ZeroDim,
    /// `m` was zero.
    ZeroM,
    /// `ef_construction` was below `m`.
    EfConstructionBelowM,
    /// `ef_search` was zero.
    ZeroEfSearch,
    /// `filter_widen` was zero.
    ZeroFilterWiden,
    /// The insertion-sequence counter would pass `u64::MAX`.
    SequenceOverflow,
}

/// An error of an index operation.
#[derive(Debug, Clone, Copy, PartialEq, Eq, Structural)]
pub enum HnswError {
    /// A configuration value cannot describe a working index.
    InvalidConfig(ConfigFault),
    /// A vector or query had `found` components where `expected` were due.
    DimensionMismatch {
        /// The index's dimensionality.
        expected: usize,
        /// The length that was supplied.
        found: usize,
    },
    /// An insert named an id that is already live.
    Duplicate,
    /// A delete named an id that is not live.
    NotFound,
    /// A search named a metric other than the index's.
    InvalidMetric,
    /// A search's filter was refused by the filter evaluator.
    InvalidFilter,
    /// The index already holds as many nodes as a node index can address.
    CapacityExceeded,
}

} // verus!
