//! Shared graph vocabulary: the metric tag, the per-layer neighbour cap, and
//! the distance requests the algorithms make.

use vstd::prelude::*;

verus! {

/// The metric an index was built for.
#[derive(Debug, Clone, Copy, PartialEq, Eq, Structural)]
pub enum Metric {
    /// Cosine distance.
    Cosine,
    /// Dot-product similarity, ranked by its negation.
    DotProduct,
    /// Euclidean (L2) distance.
    Euclidean,
    /// Manhattan (L1) distance.
    Manhattan,
    /// Hamming distance.
    Hamming,
}

/// The neighbour cap at `layer`: `2 * m` at layer 0, `m` above.
pub open spec fn spec_cap(m: usize, layer: u8) -> int {
    if layer == 0 {
        2 * m
    } else {
        m as int
    }
}

/// The maximum number of neighbours a node may hold at `layer`.
pub fn cap_at_layer(m: usize, layer: u8) -> (r: usize)
    requires
        layer == 0 ==> 2 * m <= usize::MAX,
    ensures
        r == spec_cap(m, layer),
{
    if layer == 0 {
        2 * m
    } else {
        m
    }
}

/// A request for distances: from the query being inserted or searched
/// (`from == None`) or from stored node `from`, to each node of `to`, in
/// order.
#[derive(Debug, Clone)]
pub struct Request {
    /// The node measured from, or `None` for the query.
    pub from: Option<u32>,
    /// The nodes measured to.
    pub to: Vec<u32>,
}

} // verus!
