//! [`Scored`]: a graph node together with its distance key, and the sorted
//! sequences of them that the searches keep.
//!
//! A distance is carried as a [`DistKey`]: the 32-bit image of the distance
//! under the order-preserving encoding of its IEEE-754 bits (a non-negative
//! value gets its sign bit set, a negative value has every bit flipped). The
//! integer order of keys is the total order of the distances; [`dist_lt`]
//! recovers the ordinary `<` of the distances, under which a NaN is below
//! nothing and above nothing, and `-0` equals `+0`.

use std::cmp::Ordering;
use vstd::prelude::*;
use vstd::std_specs::cmp::{PartialEqSpecImpl, PartialOrdSpecImpl};

verus! {

/// The order-preserving integer image of a distance.
pub type DistKey = u32;

/// Key of negative infinity; keys below it are negative NaNs.
pub const NEG_INF_KEY: DistKey = 0x007F_FFFF;

/// Key of positive infinity; keys above it are positive NaNs.
pub const POS_INF_KEY: DistKey = 0xFF80_0000;

/// Key of negative zero.
pub const NEG_ZERO_KEY: DistKey = 0x7FFF_FFFF;

/// Key of positive zero.
pub const POS_ZERO_KEY: DistKey = 0x8000_0000;

/// Whether `k` is the key of a NaN.
pub open spec fn is_nan_key(k: DistKey) -> bool {
    k < NEG_INF_KEY || k > POS_INF_KEY
}

/// The `<` of the distances behind keys `a` and `b`.
pub open spec fn spec_dist_lt(a: DistKey, b: DistKey) -> bool {
    &&& !is_nan_key(a)
    &&& !is_nan_key(b)
    &&& a < b
    &&& !(a == NEG_ZERO_KEY && b == POS_ZERO_KEY)
}

/// Whether the distance behind `a` is below the distance behind `b`
/// (the `<` of the distances, not of the keys).
pub fn dist_lt(a: DistKey, b: DistKey) -> (r: bool)
    ensures
        r == spec_dist_lt(a, b),
{
    a >= NEG_INF_KEY && a <= POS_INF_KEY && b >= NEG_INF_KEY && b <= POS_INF_KEY && a < b && !(a
        == NEG_ZERO_KEY && b == POS_ZERO_KEY)
}

/// One scored graph node: its distance key, its insertion sequence number
/// and its node index. Scored nodes are ordered by distance key, then by
/// sequence number; the node index plays no part in the order.
#[derive(Debug, Clone, Copy, Eq)]
pub struct Scored {
    /// The distance key.
    pub dist: DistKey,
    /// The node's insertion sequence number.
    pub seq: u64,
    /// The node index.
    pub node: u32,
}

/// `a` comes strictly before `b`: smaller key, or equal key and smaller
/// sequence number.
pub open spec fn scored_lt(a: Scored, b: Scored) -> bool {
    a.dist < b.dist || (a.dist == b.dist && a.seq < b.seq)
}

/// `a` and `b` tie in the order (same key and sequence number).
pub open spec fn same_rank(a: Scored, b: Scored) -> bool {
    a.dist == b.dist && a.seq == b.seq
}

/// Two scored nodes are equal when they tie in the order: same key and same
/// sequence number, whatever their node indices.
impl PartialEq for Scored {
    fn eq(&self, other: &Self) -> (r: bool) {
        self.dist == other.dist && self.seq == other.seq
    }
}

impl PartialEqSpecImpl for Scored {
    open spec fn obeys_eq_spec() -> bool {
        true
    }

    open spec fn eq_spec(&self, other: &Self) -> bool {
        same_rank(*self, *other)
    }
}

/// Scored nodes compare by key, then by sequence number.
impl PartialOrd for Scored {
    fn partial_cmp(&self, other: &Self) -> (r: Option<Ordering>) {
        if self.dist < other.dist || (self.dist == other.dist && self.seq < other.seq) {
            Some(Ordering::Less)
        } else if self.dist == other.dist && self.seq == other.seq {
            Some(Ordering::Equal)
        } else {
            Some(Ordering::Greater)
        }
    }
}

impl PartialOrdSpecImpl for Scored {
    open spec fn obeys_partial_cmp_spec() -> bool {
        true
    }

    open spec fn partial_cmp_spec(&self, other: &Self) -> Option<Ordering> {
        if scored_lt(*self, *other) {
            Some(Ordering::Less)
        } else if same_rank(*self, *other) {
            Some(Ordering::Equal)
        } else {
            Some(Ordering::Greater)
        }
    }
}

impl Scored {
    /// Whether `self` comes strictly before `other`.
    pub fn precedes(&self, other: &Scored) -> (r: bool)
        ensures
            r == scored_lt(*self, *other),
    {
        self.dist < other.dist || (self.dist == other.dist && self.seq < other.seq)
    }
}

/// `s` is strictly ascending.
pub open spec fn ascending(s: Seq<Scored>) -> bool {
    forall|i: int, j: int| 0 <= i < j < s.len() ==> scored_lt(#[trigger] s[i], #[trigger] s[j])
}

/// `s` is strictly descending.
pub open spec fn descending(s: Seq<Scored>) -> bool {
    forall|i: int, j: int| 0 <= i < j < s.len() ==> scored_lt(#[trigger] s[j], #[trigger] s[i])
}

/// `s` is ascending, ties allowed.
pub open spec fn non_descending(s: Seq<Scored>) -> bool {
    forall|i: int, j: int| 0 <= i < j < s.len() ==> !scored_lt(#[trigger] s[j], #[trigger] s[i])
}

/// No two elements of `s` are for the same node.
pub open spec fn distinct_nodes(s: Seq<Scored>) -> bool {
    forall|i: int, j: int| 0 <= i < j < s.len() ==> (#[trigger] s[i]).node != (#[trigger] s[j]).node
}

/// No element of `s` is for node `v`.
pub open spec fn lacks_node(s: Seq<Scored>, v: u32) -> bool {
    forall|k: int| 0 <= k < s.len() ==> (#[trigger] s[k]).node != v
}

/// No element of `s` ties with `x`.
pub open spec fn rank_fresh(s: Seq<Scored>, x: Scored) -> bool {
    forall|k: int| 0 <= k < s.len() ==> !same_rank(#[trigger] s[k], x)
}

/// The position, from `i` on, of the first element of `s` that does not come
/// before `x`.
pub open spec fn pos_asc(s: Seq<Scored>, x: Scored, i: int) -> int
    decreases s.len() - i,
{
    if i < 0 || i >= s.len() || !scored_lt(s[i], x) {
        if i < 0 { 0 } else { i }
    } else {
        pos_asc(s, x, i + 1)
    }
}

/// The position, from `i` on, of the first element of `s` that `x` does not
/// come before.
pub open spec fn pos_desc(s: Seq<Scored>, x: Scored, i: int) -> int
    decreases s.len() - i,
{
    if i < 0 || i >= s.len() || !scored_lt(x, s[i]) {
        if i < 0 { 0 } else { i }
    } else {
        pos_desc(s, x, i + 1)
    }
}

/// The position, from `i` on, of the first element of `s` that `x` comes
/// strictly before (insertion after every tie keeps the insertion stable).
pub open spec fn pos_stable(s: Seq<Scored>, x: Scored, i: int) -> int
    decreases s.len() - i,
{
    if i < 0 || i >= s.len() || scored_lt(x, s[i]) {
        if i < 0 { 0 } else { i }
    } else {
        pos_stable(s, x, i + 1)
    }
}

/// `x` placed into ascending `s`.
pub open spec fn insert_asc(s: Seq<Scored>, x: Scored) -> Seq<Scored> {
    s.insert(pos_asc(s, x, 0), x)
}

/// `x` placed into descending `s`.
pub open spec fn insert_desc(s: Seq<Scored>, x: Scored) -> Seq<Scored> {
    s.insert(pos_desc(s, x, 0), x)
}

/// `x` placed into ascending-with-ties `s`, after every element it ties with.
pub open spec fn insert_stable(s: Seq<Scored>, x: Scored) -> Seq<Scored> {
    s.insert(pos_stable(s, x, 0), x)
}

proof fn lemma_pos_asc(s: Seq<Scored>, x: Scored, i: int)
    requires
        0 <= i <= s.len(),
        ascending(s),
        forall|k: int| 0 <= k < i ==> scored_lt(#[trigger] s[k], x),
    ensures
        i <= pos_asc(s, x, i) <= s.len(),
        forall|k: int| 0 <= k < pos_asc(s, x, i) ==> scored_lt(#[trigger] s[k], x),
        forall|k: int| pos_asc(s, x, i) <= k < s.len() ==> !scored_lt(#[trigger] s[k], x),
    decreases s.len() - i,
{
    if i < s.len() && scored_lt(s[i], x) {
        lemma_pos_asc(s, x, i + 1);
    } else if i < s.len() {
        assert forall|k: int| i <= k < s.len() implies !scored_lt(#[trigger] s[k], x) by {
            if k > i {
                assert(scored_lt(s[i], s[k]));
            }
        }
    }
}

proof fn lemma_pos_desc(s: Seq<Scored>, x: Scored, i: int)
    requires
        0 <= i <= s.len(),
        descending(s),
        forall|k: int| 0 <= k < i ==> scored_lt(x, #[trigger] s[k]),
    ensures
        i <= pos_desc(s, x, i) <= s.len(),
        forall|k: int| 0 <= k < pos_desc(s, x, i) ==> scored_lt(x, #[trigger] s[k]),
        forall|k: int| pos_desc(s, x, i) <= k < s.len() ==> !scored_lt(x, #[trigger] s[k]),
    decreases s.len() - i,
{
    if i < s.len() && scored_lt(x, s[i]) {
        lemma_pos_desc(s, x, i + 1);
    } else if i < s.len() {
        assert forall|k: int| i <= k < s.len() implies !scored_lt(x, #[trigger] s[k]) by {
            if k > i {
                assert(scored_lt(s[k], s[i]));
            }
        }
    }
}

proof fn lemma_pos_stable(s: Seq<Scored>, x: Scored, i: int)
    requires
        0 <= i <= s.len(),
        non_descending(s),
        forall|k: int| 0 <= k < i ==> !scored_lt(x, #[trigger] s[k]),
    ensures
        i <= pos_stable(s, x, i) <= s.len(),
        forall|k: int| 0 <= k < pos_stable(s, x, i) ==> !scored_lt(x, #[trigger] s[k]),
        forall|k: int| pos_stable(s, x, i) <= k < s.len() ==> scored_lt(x, #[trigger] s[k]),
    decreases s.len() - i,
{
    if i < s.len() && !scored_lt(x, s[i]) {
        lemma_pos_stable(s, x, i + 1);
    } else if i < s.len() {
        assert forall|k: int| i <= k < s.len() implies scored_lt(x, #[trigger] s[k]) by {
            if k > i {
                assert(!scored_lt(s[k], s[i]));
            }
        }
    }
}

/// Placing a fresh element into a strictly ascending sequence keeps it
/// strictly ascending and adds exactly that element.
pub proof fn lemma_insert_asc(s: Seq<Scored>, x: Scored)
    requires
        ascending(s),
        rank_fresh(s, x),
    ensures
        ascending(insert_asc(s, x)),
        insert_asc(s, x).len() == s.len() + 1,
        forall|y: Scored| #[trigger] insert_asc(s, x).contains(y) <==> (s.contains(y) || y == x),
{
    lemma_pos_asc(s, x, 0);
    let p = pos_asc(s, x, 0);
    let r = insert_asc(s, x);
    assert forall|i: int, j: int| 0 <= i < j < r.len() implies scored_lt(
        #[trigger] r[i],
        #[trigger] r[j],
    ) by {
        if j < p {
            assert(r[i] == s[i] && r[j] == s[j]);
        } else if j == p {
            assert(r[i] == s[i]);
        } else if i < p {
            assert(r[i] == s[i] && r[j] == s[j - 1]);
            assert(!scored_lt(s[j - 1], x));
            assert(!same_rank(s[j - 1], x));
        } else if i == p {
            assert(r[j] == s[j - 1]);
            assert(!scored_lt(s[j - 1], x));
            assert(!same_rank(s[j - 1], x));
        } else {
            assert(r[i] == s[i - 1] && r[j] == s[j - 1]);
        }
    }
    assert forall|y: Scored| #[trigger] r.contains(y) <==> (s.contains(y) || y == x) by {
        if r.contains(y) {
            let k = choose|k: int| 0 <= k < r.len() && r[k] == y;
            if k < p {
                assert(s[k] == y);
            } else if k > p {
                assert(s[k - 1] == y);
            }
        }
        if s.contains(y) {
            let k = choose|k: int| 0 <= k < s.len() && s[k] == y;
            if k < p {
                assert(r[k] == y);
            } else {
                assert(r[k + 1] == y);
            }
        }
        if y == x {
            assert(r[p] == y);
        }
    }
}

/// Placing a fresh element into a strictly descending sequence keeps it
/// strictly descending and adds exactly that element.
pub proof fn lemma_insert_desc(s: Seq<Scored>, x: Scored)
    requires
        descending(s),
        rank_fresh(s, x),
    ensures
        descending(insert_desc(s, x)),
        insert_desc(s, x).len() == s.len() + 1,
        forall|y: Scored| #[trigger] insert_desc(s, x).contains(y) <==> (s.contains(y) || y == x),
{
    lemma_pos_desc(s, x, 0);
    let p = pos_desc(s, x, 0);
    let r = insert_desc(s, x);
    assert forall|i: int, j: int| 0 <= i < j < r.len() implies scored_lt(
        #[trigger] r[j],
        #[trigger] r[i],
    ) by {
        if j < p {
            assert(r[i] == s[i] && r[j] == s[j]);
        } else if j == p {
            assert(r[i] == s[i]);
        } else if i < p {
            assert(r[i] == s[i] && r[j] == s[j - 1]);
            assert(!scored_lt(x, s[j - 1]));
            assert(!same_rank(s[j - 1], x));
        } else if i == p {
            assert(r[j] == s[j - 1]);
            assert(!scored_lt(x, s[j - 1]));
            assert(!same_rank(s[j - 1], x));
        } else {
            assert(r[i] == s[i - 1] && r[j] == s[j - 1]);
        }
    }
    assert forall|y: Scored| #[trigger] r.contains(y) <==> (s.contains(y) || y == x) by {
        if r.contains(y) {
            let k = choose|k: int| 0 <= k < r.len() && r[k] == y;
            if k < p {
                assert(s[k] == y);
            } else if k > p {
                assert(s[k - 1] == y);
            }
        }
        if s.contains(y) {
            let k = choose|k: int| 0 <= k < s.len() && s[k] == y;
            if k < p {
                assert(r[k] == y);
            } else {
                assert(r[k + 1] == y);
            }
        }
        if y == x {
            assert(r[p] == y);
        }
    }
}

/// Placing an element into an ascending-with-ties sequence, after its ties,
/// keeps it ascending with ties.
pub proof fn lemma_insert_stable(s: Seq<Scored>, x: Scored)
    requires
        non_descending(s),
    ensures
        non_descending(insert_stable(s, x)),
        insert_stable(s, x).len() == s.len() + 1,
        forall|y: Scored| #[trigger] insert_stable(s, x).contains(y) <==> (s.contains(y) || y == x),
{
    lemma_pos_stable(s, x, 0);
    let p = pos_stable(s, x, 0);
    let r = insert_stable(s, x);
    assert forall|i: int, j: int| 0 <= i < j < r.len() implies !scored_lt(
        #[trigger] r[j],
        #[trigger] r[i],
    ) by {
        if j < p {
            assert(r[i] == s[i] && r[j] == s[j]);
        } else if j == p {
            assert(r[i] == s[i]);
        } else if i < p {
            assert(r[i] == s[i] && r[j] == s[j - 1]);
            assert(scored_lt(x, s[j - 1]));
        } else if i == p {
            assert(r[j] == s[j - 1]);
        } else {
            assert(r[i] == s[i - 1] && r[j] == s[j - 1]);
        }
    }
    assert forall|y: Scored| #[trigger] r.contains(y) <==> (s.contains(y) || y == x) by {
        if r.contains(y) {
            let k = choose|k: int| 0 <= k < r.len() && r[k] == y;
            if k < p {
                assert(s[k] == y);
            } else if k > p {
                assert(s[k - 1] == y);
            }
        }
        if s.contains(y) {
            let k = choose|k: int| 0 <= k < s.len() && s[k] == y;
            if k < p {
                assert(r[k] == y);
            } else {
                assert(r[k + 1] == y);
            }
        }
        if y == x {
            assert(r[p] == y);
        }
    }
}

/// Placing an element for a node `s` lacks keeps the nodes distinct.
pub proof fn lemma_insert_stable_distinct(s: Seq<Scored>, x: Scored)
    requires
        distinct_nodes(s),
        lacks_node(s, x.node),
    ensures
        distinct_nodes(insert_stable(s, x)),
{
    let p = pos_stable(s, x, 0);
    let r = insert_stable(s, x);
    assert(0 <= p <= s.len()) by {
        lemma_pos_stable_range(s, x, 0);
    }
    assert forall|i: int, j: int| 0 <= i < j < r.len() implies (#[trigger] r[i]).node != (
    #[trigger] r[j]).node by {
        if j < p {
            assert(r[i] == s[i] && r[j] == s[j]);
        } else if j == p {
            assert(r[i] == s[i]);
        } else if i < p {
            assert(r[i] == s[i] && r[j] == s[j - 1]);
        } else if i == p {
            assert(r[j] == s[j - 1]);
        } else {
            assert(r[i] == s[i - 1] && r[j] == s[j - 1]);
        }
    }
}

proof fn lemma_pos_stable_range(s: Seq<Scored>, x: Scored, i: int)
    requires
        0 <= i <= s.len(),
    ensures
        i <= pos_stable(s, x, i) <= s.len(),
    decreases s.len() - i,
{
    if i < s.len() && !scored_lt(x, s[i]) {
        lemma_pos_stable_range(s, x, i + 1);
    }
}

/// Place `x` into the strictly ascending `v`.
pub fn push_ascending(v: &mut Vec<Scored>, x: Scored)
    ensures
        final(v)@ == insert_asc(old(v)@, x),
{
    let mut i: usize = 0;
    while i < v.len() && v[i].precedes(&x)
        invariant
            0 <= i <= v@.len(),
            v@ == old(v)@,
            pos_asc(v@, x, 0) == pos_asc(v@, x, i as int),
        decreases v@.len() - i,
    {
        i = i + 1;
    }
    v.insert(i, x);
}

/// Place `x` into the strictly descending `v`.
pub fn push_descending(v: &mut Vec<Scored>, x: Scored)
    ensures
        final(v)@ == insert_desc(old(v)@, x),
{
    let mut i: usize = 0;
    while i < v.len() && x.precedes(&v[i])
        invariant
            0 <= i <= v@.len(),
            v@ == old(v)@,
            pos_desc(v@, x, 0) == pos_desc(v@, x, i as int),
        decreases v@.len() - i,
    {
        i = i + 1;
    }
    v.insert(i, x);
}

/// Place `x` into the ascending-with-ties `v`, after every element it ties
/// with.
pub fn push_stable(v: &mut Vec<Scored>, x: Scored)
    ensures
        final(v)@ == insert_stable(old(v)@, x),
{
    let mut i: usize = 0;
    while i < v.len() && !x.precedes(&v[i])
        invariant
            0 <= i <= v@.len(),
            v@ == old(v)@,
            pos_stable(v@, x, 0) == pos_stable(v@, x, i as int),
        decreases v@.len() - i,
    {
        i = i + 1;
    }
    v.insert(i, x);
}

} // verus!
