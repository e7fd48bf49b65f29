//! [`HnswIndex`]: the node columns, the layered adjacency and the live-id
//! table of an HNSW graph, with the operations that read or rewrite them
//! directly (construction, lookups, deletion, the layer histogram).
//!
//! Node `i` was the `i`-th node ever inserted; its sequence number is `i`.
//! A deleted node is tombstoned: it keeps its row and its edges, so searches
//! still pass through it, but it is no longer live: its id is free again and
//! no search returns it.

use std::collections::HashMap;
use vstd::prelude::*;

use iqdb_types::Metadata;

use crate::config::HnswConfig;
use crate::error::HnswError;
use crate::graph::{spec_cap, Metric};
use crate::idkey::{key_eq, key_eq_sym, key_hash, lemma_key_eq_hash, IdKey};
use crate::rng::{draws, open_draw, SplitMix64};

verus! {

broadcast use vstd::std_specs::hash::group_hash_axioms;

/// The number of entries of `t` that are `false` (live nodes).
pub open spec fn count_live(t: Seq<bool>) -> nat
    decreases t.len(),
{
    if t.len() == 0 {
        0
    } else {
        count_live(t.drop_last()) + if t.last() {
            0nat
        } else {
            1nat
        }
    }
}

/// The number of entries of `s` equal to `l`.
pub open spec fn count_layer(s: Seq<u8>, l: int) -> nat
    decreases s.len(),
{
    if s.len() == 0 {
        0
    } else {
        count_layer(s.drop_last(), l) + if s.last() == l {
            1nat
        } else {
            0nat
        }
    }
}

/// The sum of `s`.
pub open spec fn seq_sum(s: Seq<usize>) -> int
    decreases s.len(),
{
    if s.len() == 0 {
        0
    } else {
        seq_sum(s.drop_last()) + s.last()
    }
}

/// The indices of the entries of `t` that are `false` (live nodes).
pub open spec fn live_set(t: Seq<bool>) -> Set<int> {
    Set::new(|i: int| 0 <= i < t.len() && !t[i])
}

pub proof fn lemma_live_set(t: Seq<bool>)
    ensures
        live_set(t).finite(),
        live_set(t).len() == count_live(t),
    decreases t.len(),
{
    if t.len() == 0 {
        assert(live_set(t) =~= Set::<int>::empty());
    } else {
        let d = t.drop_last();
        lemma_live_set(d);
        let n = t.len() - 1;
        if t.last() {
            assert(live_set(t) =~= live_set(d));
        } else {
            assert(live_set(t) =~= live_set(d).insert(n));
            assert(!live_set(d).contains(n));
        }
    }
}

pub proof fn lemma_count_live_push(t: Seq<bool>, b: bool)
    ensures
        count_live(t.push(b)) == count_live(t) + if b {
            0nat
        } else {
            1nat
        },
{
    assert(t.push(b).drop_last() =~= t);
}

pub proof fn lemma_count_live_le(t: Seq<bool>)
    ensures
        count_live(t) <= t.len(),
    decreases t.len(),
{
    if t.len() > 0 {
        lemma_count_live_le(t.drop_last());
    }
}

pub proof fn lemma_count_live_set(t: Seq<bool>, i: int)
    requires
        0 <= i < t.len(),
        !t[i],
    ensures
        count_live(t.update(i, true)) + 1 == count_live(t),
    decreases t.len(),
{
    let u = t.update(i, true);
    if i == t.len() - 1 {
        assert(u.drop_last() =~= t.drop_last());
    } else {
        assert(u.drop_last() =~= t.drop_last().update(i, true));
        lemma_count_live_set(t.drop_last(), i);
    }
}

pub proof fn lemma_count_layer_push(s: Seq<u8>, x: u8, l: int)
    ensures
        count_layer(s.push(x), l) == count_layer(s, l) + if x == l {
            1nat
        } else {
            0nat
        },
{
    assert(s.push(x).drop_last() =~= s);
}

pub proof fn lemma_seq_sum_update(s: Seq<usize>, i: int, v: usize)
    requires
        0 <= i < s.len(),
    ensures
        seq_sum(s.update(i, v)) == seq_sum(s) - s[i] + v,
    decreases s.len(),
{
    let u = s.update(i, v);
    if i == s.len() - 1 {
        assert(u.drop_last() =~= s.drop_last());
    } else {
        assert(u.drop_last() =~= s.drop_last().update(i, v));
        lemma_seq_sum_update(s.drop_last(), i, v);
    }
}

pub proof fn lemma_seq_sum_zeros(n: nat)
    ensures
        seq_sum(Seq::new(n, |i: int| 0usize)) == 0,
    decreases n,
{
    if n > 0 {
        assert(Seq::new(n, |i: int| 0usize).drop_last() =~= Seq::new(
            (n - 1) as nat,
            |i: int| 0usize,
        ));
        lemma_seq_sum_zeros((n - 1) as nat);
    }
}

/// Node `i`'s neighbour list at layer `l`, in the layered adjacency `layers`.
pub open spec fn adj_of(layers: Seq<Vec<Vec<u32>>>, i: int, l: int) -> Seq<u32> {
    layers[i]@[l]@
}

/// The parallel columns agree in length, sequence numbers count nodes, and
/// each node has one neighbour list per layer it sits on.
pub open spec fn cols_ok(
    nkeys: nat,
    ntomb: nat,
    node_layer: Seq<u8>,
    layers: Seq<Vec<Vec<u32>>>,
    seqs: Seq<u64>,
    next_seq: u64,
) -> bool {
    let n = seqs.len();
    &&& nkeys == n
    &&& ntomb == n
    &&& node_layer.len() == n
    &&& layers.len() == n
    &&& n <= u32::MAX
    &&& next_seq == n
    &&& forall|i: int| 0 <= i < n ==> #[trigger] seqs[i] == i
    &&& forall|i: int| 0 <= i < n ==> #[trigger] layers[i]@.len() == node_layer[i] + 1
}

/// Every edge at layer `l` leads to another node that sits on `l`, and no
/// list exceeds its layer's cap.
pub open spec fn adj_ok(layers: Seq<Vec<Vec<u32>>>, node_layer: Seq<u8>, m: usize) -> bool {
    &&& forall|i: int, l: int, k: int|
        0 <= i < layers.len() && 0 <= l < layers[i]@.len() && 0 <= k < adj_of(layers, i, l).len()
            ==> {
            let j = #[trigger] adj_of(layers, i, l)[k];
            &&& 0 <= j < layers.len()
            &&& j != i
            &&& node_layer[j as int] >= l
        }
    &&& forall|i: int, l: int|
        0 <= i < layers.len() && 0 <= l < layers[i]@.len() ==> #[trigger] adj_of(layers, i, l).len()
            <= spec_cap(m, l as u8)
}

/// No neighbour list repeats a node.
pub(crate) closed spec fn lists_distinct(layers: Seq<Vec<Vec<u32>>>) -> bool {
    forall|i: int, l: int|
        0 <= i < layers.len() && 0 <= l < layers[i]@.len() ==> (#[trigger] adj_of(
            layers,
            i,
            l,
        )).no_duplicates()
}

/// The entry point is a node on the top layer and no node is above it.
pub open spec fn entry_ok(entry: Option<u32>, top: u8, node_layer: Seq<u8>) -> bool {
    &&& (entry is None <==> node_layer.len() == 0)
    &&& entry is None ==> top == 0
    &&& entry matches Some(e) ==> 0 <= e < node_layer.len() && node_layer[e as int] == top
    &&& forall|i: int| 0 <= i < node_layer.len() ==> #[trigger] node_layer[i] <= top
}

/// The live-id table files exactly the live nodes, each under its id's
/// bucket and once, live ids are distinct, and `live` counts the live nodes.
pub open spec fn ids_ok(
    buckets: Map<u64, Vec<u32>>,
    keys: Seq<IdKey>,
    tomb: Seq<bool>,
    live: usize,
) -> bool {
    &&& forall|h: u64, k: int|
        buckets.contains_key(h) && 0 <= k < buckets[h]@.len() ==> {
            let i = #[trigger] buckets[h]@[k];
            &&& 0 <= i < tomb.len()
            &&& !tomb[i as int]
            &&& key_hash(keys[i as int]) == h
        }
    &&& forall|h: u64, k1: int, k2: int|
        buckets.contains_key(h) && 0 <= k1 < k2 < buckets[h]@.len() ==> #[trigger] buckets[h]@[k1]
            != #[trigger] buckets[h]@[k2]
    &&& forall|i: int|
        0 <= i < tomb.len() && !#[trigger] tomb[i] ==> {
            &&& buckets.contains_key(key_hash(keys[i]))
            &&& buckets[key_hash(keys[i])]@.contains(i as u32)
        }
    &&& forall|i: int, j: int|
        0 <= i < tomb.len() && 0 <= j < tomb.len() && i != j && !tomb[i] && !tomb[j] ==> !key_eq(
            #[trigger] keys[i],
            #[trigger] keys[j],
        )
    &&& live == count_live(tomb)
}

/// The columnar storage and layered graph of an HNSW index.
///
/// Rows are addressed by node index. `keys`, `seqs`, `tombstoned` and
/// `node_layer` are parallel columns; `layers[i][l]` is node `i`'s
/// neighbour list at layer `l` (for each layer `0..=node_layer[i]`);
/// `buckets` files every live node under the hash of its id.
#[derive(Debug)]
pub struct HnswIndex {
    pub(crate) dim: usize,
    pub(crate) metric: Metric,
    pub(crate) cfg: HnswConfig,
    pub(crate) keys: Vec<IdKey>,
    pub(crate) metadata: Vec<Option<Metadata>>,
    pub(crate) seqs: Vec<u64>,
    pub(crate) tombstoned: Vec<bool>,
    pub(crate) node_layer: Vec<u8>,
    pub(crate) layers: Vec<Vec<Vec<u32>>>,
    pub(crate) buckets: HashMap<u64, Vec<u32>>,
    pub(crate) entry: Option<u32>,
    pub(crate) top_layer: u8,
    pub(crate) next_seq: u64,
    pub(crate) rng: SplitMix64,
    pub(crate) live_count: usize,
}

impl HnswIndex {
    // ----- abstract accessors -------------------------------------------------

    /// Number of nodes ever inserted (live or tombstoned).
    pub closed spec fn spec_node_count(&self) -> nat {
        self.seqs@.len()
    }

    /// Top layer of each node, in insertion order.
    pub closed spec fn node_layers(&self) -> Seq<u8> {
        self.node_layer@
    }

    /// Whether node `i` exists and is not tombstoned.
    pub closed spec fn spec_is_live(&self, i: int) -> bool {
        0 <= i < self.seqs@.len() && !self.tombstoned@[i]
    }

    /// The tombstone flag of each node, in insertion order.
    pub closed spec fn tombstones(&self) -> Seq<bool> {
        self.tombstoned@
    }

    /// The id node `i` was inserted under.
    pub closed spec fn key_at(&self, i: int) -> IdKey {
        self.keys@[i]
    }

    /// The metadata node `i` was inserted with.
    pub closed spec fn stored_metadata(&self, i: int) -> Option<Metadata> {
        self.metadata@[i]
    }

    /// Whether some live node carries id `k`.
    pub open spec fn holds_key(&self, k: IdKey) -> bool {
        exists|i: int| self.spec_is_live(i) && key_eq(#[trigger] self.key_at(i), k)
    }

    /// The number of live nodes.
    pub closed spec fn spec_len(&self) -> nat {
        self.live_count as nat
    }

    /// The dimensionality the index was built for.
    pub closed spec fn spec_dim(&self) -> usize {
        self.dim
    }

    /// The metric the index was built for.
    pub closed spec fn spec_metric(&self) -> Metric {
        self.metric
    }

    /// The configuration the index was built with.
    pub closed spec fn spec_config(&self) -> HnswConfig {
        self.cfg
    }

    /// The highest layer any node sits on (0 when empty).
    pub closed spec fn spec_top(&self) -> u8 {
        self.top_layer
    }

    /// The entry point of searches: `None` exactly when no node was ever
    /// inserted.
    pub closed spec fn spec_entry(&self) -> Option<u32> {
        self.entry
    }

    /// The layer-assignment generator's state.
    pub closed spec fn rng_state(&self) -> u64 {
        self.rng@
    }

    /// Node `i`'s neighbour list at layer `l`.
    pub closed spec fn neighbours(&self, i: int, l: int) -> Seq<u32> {
        self.layers@[i]@[l]@
    }

    // ----- invariant ---------------------------------------------------------------

    pub(crate) open spec fn adj(&self, i: int, l: int) -> Seq<u32> {
        adj_of(self.layers@, i, l)
    }

    pub(crate) open spec fn n(&self) -> int {
        self.seqs@.len() as int
    }

    /// The parallel columns agree in length and sequence numbers count nodes.
    pub(crate) open spec fn inv_cols(&self) -> bool {
        cols_ok(
            self.keys@.len(),
            self.tombstoned@.len(),
            self.node_layer@,
            self.layers@,
            self.seqs@,
            self.next_seq,
        )
    }

    /// Every edge at layer `l` leads to another node that sits on `l`, and
    /// no list exceeds its layer's cap.
    pub(crate) open spec fn inv_adj(&self) -> bool {
        adj_ok(self.layers@, self.node_layer@, self.cfg.m)
    }

    /// The entry point is a node on the top layer, and no node is above it.
    pub(crate) open spec fn inv_entry(&self) -> bool {
        entry_ok(self.entry, self.top_layer, self.node_layer@)
    }

    /// Every live node is filed under its id's bucket, buckets hold only
    /// live nodes filed correctly and without repeats, live ids are distinct,
    /// and `live_count` counts the live nodes.
    pub(crate) open spec fn inv_ids(&self) -> bool {
        ids_ok(self.buckets@, self.keys@, self.tombstoned@, self.live_count)
    }

    /// The whole invariant, with a configuration that passed validation.
    pub(crate) open spec fn inv(&self) -> bool {
        &&& HnswConfig::spec_fault(self.dim, self.cfg) is None
        &&& self.inv_cols()
        &&& self.inv_adj()
        &&& self.inv_entry()
        &&& self.inv_ids()
        &&& self.rng@ == draws(self.cfg.seed, self.seqs@.len())
        &&& self.metadata@.len() == self.seqs@.len()
        &&& lists_distinct(self.layers@)
    }

    /// Node `i`'s neighbour list at layer `l` repeats no node.
    pub(crate) proof fn lemma_list_distinct(&self, i: int, l: int)
        requires
            self.inv(),
            0 <= i < self.n(),
            0 <= l < self.layers@[i]@.len(),
        ensures
            self.adj(i, l).no_duplicates(),
    {
        assert(adj_of(self.layers@, i, l).no_duplicates());
    }

    /// The index is well formed. Every index built by
    /// [`HnswIndex::new_unconfigured`] is, and every operation keeps it so.
    pub closed spec fn wf(&self) -> bool {
        self.inv()
    }

    pub(crate) proof fn reveal_wf(&self)
        ensures
            self.wf() == self.inv(),
            self.spec_node_count() == self.n(),
            forall|i: int| #[trigger] self.spec_is_live(i) == (0 <= i < self.n() && !self.tombstoned@[i]),
            forall|i: int| #[trigger] self.key_at(i) == self.keys@[i],
            forall|i: int| #[trigger] self.stored_metadata(i) == self.metadata@[i],
            forall|i: int, l: int| #[trigger] self.neighbours(i, l) == self.adj(i, l),
            self.spec_len() == self.live_count,
            self.spec_dim() == self.dim,
            self.spec_metric() == self.metric,
            self.spec_config() == self.cfg,
            self.spec_top() == self.top_layer,
            self.spec_entry() == self.entry,
            self.rng_state() == self.rng@,
            self.node_layers() == self.node_layer@,
            self.tombstones() == self.tombstoned@,
    {
    }

    // ----- construction and accessors -------------------------------------

    /// Build an empty index for `dim`-component vectors compared under
    /// `metric`: `Ok` exactly when `cfg.validate(dim)` passes, else that
    /// check's error.
    pub fn new_unconfigured(dim: usize, metric: Metric, cfg: HnswConfig) -> (r: Result<
        HnswIndex,
        HnswError,
    >)
        ensures
            match HnswConfig::spec_fault(dim, cfg) {
                None => r matches Ok(idx) && {
                    &&& idx.wf()
                    &&& idx.spec_dim() == dim
                    &&& idx.spec_metric() == metric
                    &&& idx.spec_config() == cfg
                    &&& idx.spec_node_count() == 0
                    &&& idx.spec_len() == 0
                    &&& idx.spec_top() == 0
                    &&& idx.rng_state() == cfg.seed
                    &&& idx.spec_entry() is None
                    &&& forall|i: int| !(#[trigger] idx.spec_is_live(i))
                    &&& forall|k: IdKey| !(#[trigger] idx.holds_key(k))
                },
                Some(f) => r == Err::<HnswIndex, HnswError>(HnswError::InvalidConfig(f)),
            },
    {
        match cfg.validate(dim) {
            Err(e) => Err(e),
            Ok(()) => {
                let idx = HnswIndex {
                    dim,
                    metric,
                    cfg,
                    keys: Vec::new(),
                    metadata: Vec::new(),
                    seqs: Vec::new(),
                    tombstoned: Vec::new(),
                    node_layer: Vec::new(),
                    layers: Vec::new(),
                    buckets: HashMap::new(),
                    entry: None,
                    top_layer: 0,
                    next_seq: 0,
                    rng: SplitMix64::new(cfg.seed),
                    live_count: 0,
                };
                assert(count_live(idx.tombstoned@) == 0);
                Ok(idx)
            },
        }
    }

    /// The dimensionality the index was built for.
    pub fn dim(&self) -> (r: usize)
        ensures
            r == self.spec_dim(),
    {
        self.dim
    }

    /// The metric the index was built for.
    pub fn metric(&self) -> (r: Metric)
        ensures
            r == self.spec_metric(),
    {
        self.metric
    }

    /// The number of live (searchable) nodes.
    pub fn len(&self) -> (r: usize)
        ensures
            r == self.spec_len(),
    {
        self.live_count
    }

    /// Whether no node is live.
    pub fn is_empty(&self) -> (r: bool)
        ensures
            r == (self.spec_len() == 0),
    {
        self.live_count == 0
    }

    /// The configuration the index was built with.
    pub fn config(&self) -> (r: HnswConfig)
        ensures
            r == self.spec_config(),
    {
        self.cfg
    }

    /// Number of nodes ever inserted, tombstoned ones included.
    pub fn node_count(&self) -> (r: usize)
        ensures
            r == self.spec_node_count(),
    {
        self.seqs.len()
    }

    /// Whether node `i` exists and is not tombstoned.
    pub fn is_live(&self, i: u32) -> (r: bool)
        requires
            self.wf(),
        ensures
            r == self.spec_is_live(i as int),
    {
        (i as usize) < self.tombstoned.len() && !self.tombstoned[i as usize]
    }

    /// The top layer of node `i`.
    pub fn top_layer_of(&self, i: u32) -> (r: u8)
        requires
            self.wf(),
            (i as int) < self.spec_node_count(),
        ensures
            r == self.node_layers()[i as int],
    {
        self.node_layer[i as usize]
    }

    /// Node `i`'s neighbour list at layer `l`.
    pub fn neighbours_at(&self, i: u32, l: u8) -> (r: &Vec<u32>)
        requires
            self.wf(),
            (i as int) < self.spec_node_count(),
            l <= self.node_layers()[i as int],
        ensures
            r@ == self.neighbours(i as int, l as int),
    {
        &self.layers[i as usize][l as usize]
    }

    /// The metadata node `i` was inserted with.
    pub fn metadata_at(&self, i: u32) -> (r: &Option<Metadata>)
        requires
            self.wf(),
            (i as int) < self.spec_node_count(),
        ensures
            *r == self.stored_metadata(i as int),
    {
        &self.metadata[i as usize]
    }

    /// The number of nodes whose top layer is `l`, for each `l` from 0 to
    /// the highest layer; empty when the index has no node. The counts add
    /// up to the number of nodes ever inserted.
    pub fn node_layer_histogram(&self) -> (r: Vec<usize>)
        requires
            self.wf(),
        ensures
            self.spec_node_count() == 0 ==> r@.len() == 0,
            self.spec_node_count() > 0 ==> r@.len() == self.spec_top() + 1,
            forall|l: int| 0 <= l < r@.len() ==> #[trigger] r@[l] == count_layer(self.node_layers(), l),
            seq_sum(r@) == self.spec_node_count(),
            self.spec_node_count() > 0 ==> r@[r@.len() - 1] > 0,
    {
        if self.node_layer.len() == 0 {
            return Vec::new();
        }
        let mut out: Vec<usize> = Vec::new();
        let top = self.top_layer;
        let mut l: usize = 0;
        while l <= top as usize
            invariant
                l <= top as usize + 1,
                out@.len() == l,
                forall|j: int| 0 <= j < l ==> #[trigger] out@[j] == 0,
            decreases top as usize + 1 - l,
        {
            out.push(0);
            l = l + 1;
        }
        proof {
            assert(out@ =~= Seq::new(out@.len(), |i: int| 0usize));
            lemma_seq_sum_zeros(out@.len());
        }
        let mut i: usize = 0;
        while i < self.node_layer.len()
            invariant
                self.inv(),
                top == self.top_layer,
                0 <= i <= self.node_layer@.len(),
                out@.len() == top as int + 1,
                forall|j: int| 0 <= j < out@.len() ==> #[trigger] out@[j] == count_layer(
                    self.node_layer@.take(i as int),
                    j,
                ),
                seq_sum(out@) == i,
            decreases self.node_layer@.len() - i,
        {
            let x = self.node_layer[i];
            proof {
                assert(self.node_layer@.take(i as int + 1) =~= self.node_layer@.take(
                    i as int,
                ).push(x));
                assert forall|j: int| 0 <= j < out@.len() implies count_layer(
                    self.node_layer@.take(i as int + 1),
                    j,
                ) == count_layer(self.node_layer@.take(i as int), j) + if x == j {
                    1nat
                } else {
                    0nat
                } by {
                    lemma_count_layer_push(self.node_layer@.take(i as int), x, j);
                }
                assert(x <= top);
                lemma_seq_sum_update(out@, x as int, (out@[x as int] + 1) as usize);
                assert(count_layer(self.node_layer@.take(i as int), x as int) <= i) by {
                    lemma_count_layer_le(self.node_layer@.take(i as int), x as int);
                }
            }
            let c = out[x as usize];
            out.set(x as usize, c + 1);
            i = i + 1;
        }
        proof {
            assert(self.node_layer@.take(self.node_layer@.len() as int) =~= self.node_layer@);
            self.reveal_wf();
            let e = self.entry->0;
            lemma_count_layer_pos(self.node_layer@, e as int);
        }
        out
    }

    // ----- id lookup, insertion bookkeeping and deletion -------------------

    /// The live node carrying `key`, if any.
    pub fn find_live(&self, key: &IdKey) -> (r: Option<u32>)
        requires
            self.wf(),
        ensures
            r matches Some(i) ==> self.spec_is_live(i as int) && key_eq(self.key_at(i as int), *key),
            r is None ==> !self.holds_key(*key),
    {
        proof {
            self.reveal_wf();
        }
        let h = key.bucket();
        match self.buckets.get(&h) {
            None => {
                proof {
                    assert forall|i: int| self.spec_is_live(i) implies !key_eq(
                        #[trigger] self.key_at(i),
                        *key,
                    ) by {
                        if key_eq(self.keys@[i], *key) {
                            lemma_key_eq_hash(self.keys@[i], *key);
                        }
                    }
                }
                None
            },
            Some(b) => {
                let mut k: usize = 0;
                while k < b.len()
                    invariant
                        self.inv(),
                        self.buckets@.contains_key(h),
                        self.buckets@[h] == *b,
                        h == key_hash(*key),
                        0 <= k <= b@.len(),
                        forall|j: int| 0 <= j < k ==> !key_eq(
                            self.keys@[#[trigger] b@[j] as int],
                            *key,
                        ),
                    decreases b@.len() - k,
                {
                    let node = b[k];
                    assert(0 <= node < self.n());
                    if self.keys[node as usize].same(key) {
                        return Some(node);
                    }
                    k = k + 1;
                }
                proof {
                    assert forall|i: int| self.spec_is_live(i) implies !key_eq(
                        #[trigger] self.key_at(i),
                        *key,
                    ) by {
                        if key_eq(self.keys@[i], *key) {
                            lemma_key_eq_hash(self.keys@[i], *key);
                            assert(b@.contains(i as u32));
                            let j = choose|j: int| 0 <= j < b@.len() && b@[j] == i as u32;
                            assert(!key_eq(self.keys@[b@[j] as int], *key));
                        }
                    }
                }
                None
            },
        }
    }

    /// Whether some live node carries `key`.
    pub fn contains(&self, key: &IdKey) -> (r: bool)
        requires
            self.wf(),
        ensures
            r == self.holds_key(*key),
    {
        match self.find_live(key) {
            Some(_) => true,
            None => false,
        }
    }

    /// Tombstone the live node carrying `key`. `Ok` exactly when some live
    /// node carries `key`: that node stops being live, the live count drops
    /// by one, and no other node changes. Otherwise `NotFound` and nothing
    /// changes.
    pub fn delete(&mut self, key: &IdKey) -> (r: Result<(), HnswError>)
        requires
            old(self).wf(),
        ensures
            final(self).wf(),
            (r is Ok) == old(self).holds_key(*key),
            r is Err ==> r == Err::<(), HnswError>(HnswError::NotFound) && final(self).spec_len()
                == old(self).spec_len() && forall|i: int| #[trigger] final(self).spec_is_live(i)
                == old(self).spec_is_live(i),
            r is Ok ==> {
                &&& !final(self).holds_key(*key)
                &&& final(self).spec_len() + 1 == old(self).spec_len()
                &&& exists|i: int|
                    old(self).spec_is_live(i) && key_eq(#[trigger] old(self).key_at(i), *key)
                        && !final(self).spec_is_live(i) && forall|j: int|
                        j != i ==> #[trigger] final(self).spec_is_live(j) == old(self).spec_is_live(j)
            },
            final(self).spec_node_count() == old(self).spec_node_count(),
            forall|i: int| #[trigger] final(self).key_at(i) == old(self).key_at(i),
            forall|i: int| #[trigger] final(self).stored_metadata(i) == old(self).stored_metadata(i),
            forall|i: int, l: int| #[trigger] final(self).neighbours(i, l) == old(self).neighbours(
                i,
                l,
            ),
            final(self).node_layers() == old(self).node_layers(),
            final(self).spec_dim() == old(self).spec_dim(),
            final(self).spec_metric() == old(self).spec_metric(),
            final(self).spec_config() == old(self).spec_config(),
            final(self).spec_top() == old(self).spec_top(),
            final(self).spec_entry() == old(self).spec_entry(),
            final(self).tombstones().len() == old(self).tombstones().len(),
            final(self).rng_state() == old(self).rng_state(),
    {
        proof {
            self.reveal_wf();
        }
        let h = key.bucket();
        let removed = self.buckets.remove(&h);
        match removed {
            None => {
                proof {
                    assert(self.buckets@ == old(self).buckets@);
                    assert forall|i: int| self.spec_is_live(i) implies !key_eq(
                        #[trigger] self.key_at(i),
                        *key,
                    ) by {
                        if key_eq(self.keys@[i], *key) {
                            lemma_key_eq_hash(self.keys@[i], *key);
                        }
                    }
                }
                Err(HnswError::NotFound)
            },
            Some(mut b) => {
                let ghost b0 = b@;
                let k = self.position_of(&b, key);
                if k == b.len() {
                    self.buckets.insert(h, b);
                    proof {
                        assert forall|hh: u64| #[trigger] self.buckets@.contains_key(hh)
                            == old(self).buckets@.contains_key(hh) by {}
                        assert forall|hh: u64| #[trigger] self.buckets@.contains_key(hh)
                            implies self.buckets@[hh]@ == old(self).buckets@[hh]@ by {}
                        assert(self.inv_ids());
                        assert forall|i: int| self.spec_is_live(i) implies !key_eq(
                            #[trigger] self.key_at(i),
                            *key,
                        ) by {
                            if key_eq(self.keys@[i], *key) {
                                lemma_key_eq_hash(self.keys@[i], *key);
                                assert(b0.contains(i as u32));
                                let j = choose|j: int| 0 <= j < b0.len() && b0[j] == i as u32;
                                assert(!key_eq(self.keys@[b0[j] as int], *key));
                            }
                        }
                    }
                    return Err(HnswError::NotFound);
                }
                let node = b.remove(k);
                let ghost bn = b@;
                if b.len() > 0 {
                    self.buckets.insert(h, b);
                }
                proof {
                    lemma_count_live_set(self.tombstoned@, node as int);
                    lemma_count_live_le(self.tombstoned@);
                }
                self.tombstoned.set(node as usize, true);
                self.live_count = self.live_count - 1;
                proof {
                    let o = old(self);
                    let ni = node as int;
                    assert(bn =~= b0.remove(k as int));
                    assert(self.buckets@ =~= if bn.len() > 0 {
                        o.buckets@.insert(h, b)
                    } else {
                        o.buckets@.remove(h)
                    });
                    // Bucket entries stay live and filed correctly, without repeats.
                    assert forall|hh: u64, kk: int|
                        self.buckets@.contains_key(hh) && 0 <= kk < self.buckets@[hh]@.len()
                            implies {
                        let i = #[trigger] self.buckets@[hh]@[kk];
                        &&& 0 <= i < self.n()
                        &&& !self.tombstoned@[i as int]
                        &&& key_hash(self.keys@[i as int]) == hh
                    } by {
                        if hh == h {
                            let i = self.buckets@[hh]@[kk];
                            if kk < k {
                                assert(i == b0[kk]);
                                assert(b0[kk] != b0[k as int]);
                            } else {
                                assert(i == b0[kk + 1]);
                                assert(b0[kk + 1] != b0[k as int]);
                            }
                        } else {
                            assert(self.buckets@[hh] == o.buckets@[hh]);
                            let i = self.buckets@[hh]@[kk];
                            assert(key_hash(o.keys@[i as int]) == hh);
                            assert(i != node);
                        }
                    }
                    assert forall|hh: u64, k1: int, k2: int|
                        self.buckets@.contains_key(hh) && 0 <= k1 < k2
                            < self.buckets@[hh]@.len() implies #[trigger] self.buckets@[hh]@[k1]
                        != #[trigger] self.buckets@[hh]@[k2] by {
                        if hh == h {
                            let a1 = if k1 < k { k1 } else { k1 + 1 };
                            let a2 = if k2 < k { k2 } else { k2 + 1 };
                            assert(self.buckets@[hh]@[k1] == b0[a1]);
                            assert(self.buckets@[hh]@[k2] == b0[a2]);
                            assert(o.buckets@[h]@[a1] != o.buckets@[h]@[a2]);
                        } else {
                            assert(self.buckets@[hh] == o.buckets@[hh]);
                        }
                    }
                    assert forall|i: int|
                        0 <= i < self.n() && !#[trigger] self.tombstoned@[i] implies {
                        &&& self.buckets@.contains_key(key_hash(self.keys@[i]))
                        &&& self.buckets@[key_hash(self.keys@[i])]@.contains(i as u32)
                    } by {
                        assert(i != ni);
                        assert(!o.tombstoned@[i]);
                        let hi = key_hash(self.keys@[i]);
                        assert(o.buckets@[hi]@.contains(i as u32));
                        if hi == h {
                            let j = choose|j: int| 0 <= j < b0.len() && b0[j] == i as u32;
                            assert(j != k);
                            if j < k {
                                assert(bn[j] == i as u32);
                            } else {
                                assert(bn[j - 1] == i as u32);
                            }
                            assert(bn.len() > 0);
                        }
                    }
                    assert(!self.holds_key(*key)) by {
                        assert forall|i: int| self.spec_is_live(i) implies !key_eq(
                            #[trigger] self.key_at(i),
                            *key,
                        ) by {
                            if key_eq(self.keys@[i], *key) {
                                assert(i != ni);
                                assert(key_eq(self.keys@[ni], *key));
                                assert(!key_eq(self.keys@[i], self.keys@[ni]));
                                match (self.keys@[i], self.keys@[ni], *key) {
                                    (IdKey::Bytes(x), IdKey::Bytes(y), IdKey::Bytes(z)) => {
                                        assert(x@ == z@ && y@ == z@);
                                    },
                                    _ => {},
                                }
                            }
                        }
                    }
                    assert(o.spec_is_live(ni) && key_eq(o.key_at(ni), *key));
                    assert(self.inv());
                }
                Ok(())
            },
        }
    }

    /// The first position in bucket `b` whose node carries `key`, or
    /// `b.len()` when none does.
    fn position_of(&self, b: &Vec<u32>, key: &IdKey) -> (k: usize)
        requires
            forall|j: int| 0 <= j < b@.len() ==> (#[trigger] b@[j] as int) < self.keys@.len(),
        ensures
            k <= b@.len(),
            forall|j: int| 0 <= j < k ==> !key_eq(self.keys@[#[trigger] b@[j] as int], *key),
            k < b@.len() ==> key_eq(self.keys@[b@[k as int] as int], *key),
    {
        let mut k: usize = 0;
        while k < b.len()
            invariant
                forall|j: int| 0 <= j < b@.len() ==> (#[trigger] b@[j] as int) < self.keys@.len(),
                0 <= k <= b@.len(),
                forall|j: int| 0 <= j < k ==> !key_eq(self.keys@[#[trigger] b@[j] as int], *key),
            decreases b@.len() - k,
        {
            let node = b[k];
            if self.keys[node as usize].same(key) {
                return k;
            }
            k = k + 1;
        }
        k
    }

    /// Append a live node carrying `key` whose top layer is `layer`, with an
    /// empty neighbour list at each of its layers, and file it under its id.
    /// The node becomes the entry point when it is the first node or sits
    /// above the current top layer. The generator makes one open-unit draw.
    pub(crate) fn add_node(&mut self, key: IdKey, layer: u8, metadata: Option<Metadata>) -> (node: u32)
        requires
            old(self).inv(),
            !old(self).holds_key(key),
            old(self).n() < u32::MAX,
        ensures
            final(self).inv(),
            node == old(self).n(),
            final(self).n() == old(self).n() + 1,
            final(self).keys@ == old(self).keys@.push(key),
            final(self).metadata@ == old(self).metadata@.push(metadata),
            final(self).tombstoned@ == old(self).tombstoned@.push(false),
            final(self).node_layer@ == old(self).node_layer@.push(layer),
            final(self).live_count == old(self).live_count + 1,
            final(self).dim == old(self).dim,
            final(self).metric == old(self).metric,
            final(self).cfg == old(self).cfg,
            final(self).rng@ == open_draw(old(self).rng@, 4).1,
            forall|i: int, l: int|
                0 <= i < old(self).n() && 0 <= l < old(self).layers@[i]@.len() ==> #[trigger] final(self).adj(i, l) == old(self).adj(i, l),
            forall|i: int| 0 <= i < old(self).n() ==> #[trigger] final(self).layers@[i]@.len() == old(self).layers@[i]@.len(),
            forall|l: int| 0 <= l <= layer ==> #[trigger] final(self).adj(node as int, l).len() == 0,
            old(self).entry is None ==> final(self).entry == Some(node) && final(self).top_layer
                == layer,
            old(self).entry is Some && layer > old(self).top_layer ==> final(self).entry == Some(node)
                && final(self).top_layer == layer,
            old(self).entry is Some && layer <= old(self).top_layer ==> final(self).entry == old(self).entry && final(self).top_layer == old(self).top_layer,
    {
        let ghost o = *self;
        let _ = self.rng.next_open_bits();
        let node = self.seqs.len() as u32;
        let h = key.bucket();
        let mut per_layer: Vec<Vec<u32>> = Vec::new();
        let mut l: usize = 0;
        while l <= layer as usize
            invariant
                l <= layer as usize + 1,
                per_layer@.len() == l,
                forall|q: int| 0 <= q < l ==> (#[trigger] per_layer@[q])@.len() == 0,
            decreases layer as usize + 1 - l,
        {
            per_layer.push(Vec::new());
            l = l + 1;
        }
        let old_bucket = self.buckets.remove(&h);
        let mut b = match old_bucket {
            Some(b) => b,
            None => Vec::new(),
        };
        let ghost b0 = b@;
        b.push(node);
        self.buckets.insert(h, b);
        self.keys.push(key);
        self.metadata.push(metadata);
        self.seqs.push(self.next_seq);
        self.tombstoned.push(false);
        self.node_layer.push(layer);
        self.layers.push(per_layer);
        self.next_seq = self.next_seq + 1;
        proof {
            lemma_count_live_push(o.tombstoned@, false);
            lemma_count_live_le(o.tombstoned@);
        }
        self.live_count = self.live_count + 1;
        match self.entry {
            None => {
                self.entry = Some(node);
                self.top_layer = layer;
            },
            Some(_) => {
                if layer > self.top_layer {
                    self.entry = Some(node);
                    self.top_layer = layer;
                }
            },
        }
        proof {
            let ni = node as int;
            assert(b0.len() == 0 || o.buckets@.contains_key(h));
            assert(o.buckets@.contains_key(h) ==> b0 == o.buckets@[h]@);
            assert forall|i: int, l: int|
                0 <= i < o.n() && 0 <= l < o.layers@[i]@.len() implies #[trigger] self.adj(i, l)
                == o.adj(i, l) by {
                assert(self.layers@[i] == o.layers@[i]);
            }
            assert(lists_distinct(self.layers@)) by {
                assert forall|x: int, y: int|
                    0 <= x < self.layers@.len() && 0 <= y < self.layers@[x]@.len() implies (
                    #[trigger] adj_of(self.layers@, x, y)).no_duplicates() by {
                    if x < o.n() {
                        assert(self.layers@[x] == o.layers@[x]);
                        assert(adj_of(self.layers@, x, y) == adj_of(o.layers@, x, y));
                    } else {
                        assert(self.layers@[x] == per_layer);
                        assert(adj_of(self.layers@, x, y).len() == 0);
                    }
                }
            }
            assert(self.inv_cols()) by {
                assert forall|i: int| 0 <= i < self.n() implies #[trigger] self.seqs@[i] == i by {
                    if i < o.n() {
                        assert(self.seqs@[i] == o.seqs@[i]);
                    }
                }
                assert forall|i: int|
                    0 <= i < self.n() implies #[trigger] self.layers@[i]@.len()
                    == self.node_layer@[i] + 1 by {
                    if i < o.n() {
                        assert(self.layers@[i] == o.layers@[i]);
                        assert(self.node_layer@[i] == o.node_layer@[i]);
                    }
                }
            }
            assert(self.inv_adj()) by {
                assert forall|i: int, l: int, k: int|
                    0 <= i < self.layers@.len() && 0 <= l < self.layers@[i]@.len() && 0 <= k
                        < adj_of(self.layers@, i, l).len() implies {
                    let j = #[trigger] adj_of(self.layers@, i, l)[k];
                    &&& 0 <= j < self.layers@.len()
                    &&& j != i
                    &&& self.node_layer@[j as int] >= l
                } by {
                    if i < o.n() {
                        assert(self.layers@[i] == o.layers@[i]);
                        let j = adj_of(o.layers@, i, l)[k];
                        assert(self.node_layer@[j as int] == o.node_layer@[j as int]);
                    } else {
                        assert(self.layers@[i] == per_layer);
                    }
                }
                assert forall|i: int, l: int|
                    0 <= i < self.layers@.len() && 0 <= l < self.layers@[i]@.len() implies
                    #[trigger] adj_of(self.layers@, i, l).len() <= spec_cap(self.cfg.m, l as u8) by {
                    if i < o.n() {
                        assert(self.layers@[i] == o.layers@[i]);
                        assert(adj_of(self.layers@, i, l) == adj_of(o.layers@, i, l));
                    } else {
                        assert(self.layers@[i] == per_layer);
                        assert(adj_of(self.layers@, i, l) == per_layer@[l]@);
                    }
                }
            }
            assert(self.inv_entry()) by {
                assert forall|i: int| 0 <= i < self.n() implies #[trigger] self.node_layer@[i]
                    <= self.top_layer by {
                    if i < o.n() {
                        assert(self.node_layer@[i] == o.node_layer@[i]);
                    }
                }
                if o.entry is Some && layer <= o.top_layer {
                    let e = o.entry.unwrap();
                    assert(self.node_layer@[e as int] == o.node_layer@[e as int]);
                }
            }
            assert(self.inv_ids()) by {
                assert forall|hh: u64, k: int|
                    self.buckets@.contains_key(hh) && 0 <= k < self.buckets@[hh]@.len() implies {
                    let i = #[trigger] self.buckets@[hh]@[k];
                    &&& 0 <= i < self.tombstoned@.len()
                    &&& !self.tombstoned@[i as int]
                    &&& key_hash(self.keys@[i as int]) == hh
                } by {
                    let i = self.buckets@[hh]@[k];
                    if hh == h {
                        if k < b0.len() {
                            assert(self.buckets@[hh]@[k] == o.buckets@[h]@[k]);
                            assert(self.keys@[i as int] == o.keys@[i as int]);
                            assert(self.tombstoned@[i as int] == o.tombstoned@[i as int]);
                        }
                    } else {
                        assert(self.buckets@[hh] == o.buckets@[hh]);
                        assert(self.keys@[i as int] == o.keys@[i as int]);
                        assert(self.tombstoned@[i as int] == o.tombstoned@[i as int]);
                    }
                }
                assert forall|hh: u64, k1: int, k2: int|
                    self.buckets@.contains_key(hh) && 0 <= k1 < k2 < self.buckets@[hh]@.len()
                        implies #[trigger] self.buckets@[hh]@[k1]
                    != #[trigger] self.buckets@[hh]@[k2] by {
                    if hh == h {
                        if k2 < b0.len() {
                            assert(o.buckets@[h]@[k1] != o.buckets@[h]@[k2]);
                        } else {
                            assert(o.buckets@[h]@[k1] < o.n());
                        }
                    } else {
                        assert(self.buckets@[hh] == o.buckets@[hh]);
                    }
                }
                assert forall|i: int|
                    0 <= i < self.tombstoned@.len() && !#[trigger] self.tombstoned@[i] implies {
                    &&& self.buckets@.contains_key(key_hash(self.keys@[i]))
                    &&& self.buckets@[key_hash(self.keys@[i])]@.contains(i as u32)
                } by {
                    if i < o.n() {
                        assert(self.keys@[i] == o.keys@[i]);
                        assert(!o.tombstoned@[i]);
                        let hi = key_hash(o.keys@[i]);
                        assert(o.buckets@[hi]@.contains(i as u32));
                        if hi == h {
                            let q = choose|q: int| 0 <= q < b0.len() && b0[q] == i as u32;
                            assert(self.buckets@[h]@[q] == i as u32);
                        }
                    } else {
                        assert(self.buckets@[h]@[b0.len() as int] == node);
                    }
                }
                assert forall|i: int, j: int|
                    0 <= i < self.tombstoned@.len() && 0 <= j < self.tombstoned@.len() && i != j
                        && !self.tombstoned@[i] && !self.tombstoned@[j] implies !key_eq(
                    #[trigger] self.keys@[i],
                    #[trigger] self.keys@[j],
                ) by {
                    if i == ni {
                        assert(self.keys@[i] == key);
                        assert(self.keys@[j] == o.keys@[j]);
                        assert(o.spec_is_live(j));
                        key_eq_sym(key, self.keys@[j]);
                        if key_eq(self.keys@[j], key) {
                            assert(o.key_at(j) == o.keys@[j]);
                            assert(key_eq(o.key_at(j), key));
                            assert(o.holds_key(key));
                        }
                    } else if j == ni {
                        assert(self.keys@[j] == key);
                        assert(self.keys@[i] == o.keys@[i]);
                        assert(o.spec_is_live(i));
                        if key_eq(self.keys@[i], key) {
                            assert(o.key_at(i) == o.keys@[i]);
                            assert(key_eq(o.key_at(i), key));
                            assert(o.holds_key(key));
                        }
                    } else {
                        assert(self.keys@[i] == o.keys@[i]);
                        assert(self.keys@[j] == o.keys@[j]);
                        assert(self.tombstoned@[i] == o.tombstoned@[i]);
                        assert(self.tombstoned@[j] == o.tombstoned@[j]);
                        assert(!key_eq(o.keys@[i], o.keys@[j]));
                    }
                }
            }
        }
        node
    }

    /// Replace node `i`'s neighbour list at layer `l` with `list`, whose
    /// entries are other nodes sitting on `l`, at most the layer's cap.
    pub(crate) fn set_neighbours(&mut self, i: u32, l: u8, list: Vec<u32>)
        requires
            old(self).inv(),
            (i as int) < old(self).n(),
            l <= old(self).node_layer@[i as int],
            list@.len() <= spec_cap(old(self).cfg.m, l),
            list@.no_duplicates(),
            forall|k: int|
                0 <= k < list@.len() ==> {
                    let j = #[trigger] list@[k];
                    &&& (j as int) < old(self).n()
                    &&& j != i
                    &&& old(self).node_layer@[j as int] >= l
                },
        ensures
            final(self).inv(),
            final(self).adj(i as int, l as int) == list@,
            final(self).metadata == old(self).metadata,
            forall|x: int, y: int|
                0 <= x < old(self).n() && 0 <= y < old(self).layers@[x]@.len() && (x, y) != (
                    i as int,
                    l as int,
                ) ==> #[trigger] final(self).adj(x, y) == old(self).adj(x, y),
            forall|x: int|
                0 <= x < old(self).n() ==> #[trigger] final(self).layers@[x]@.len() == old(
                    self).layers@[x]@.len(),
            final(self).keys == old(self).keys,
            final(self).seqs == old(self).seqs,
            final(self).tombstoned == old(self).tombstoned,
            final(self).node_layer == old(self).node_layer,
            final(self).buckets == old(self).buckets,
            final(self).entry == old(self).entry,
            final(self).top_layer == old(self).top_layer,
            final(self).next_seq == old(self).next_seq,
            final(self).rng == old(self).rng,
            final(self).live_count == old(self).live_count,
            final(self).dim == old(self).dim,
            final(self).metric == old(self).metric,
            final(self).cfg == old(self).cfg,
    {
        let ghost o = *self;
        self.layers[i as usize].set(l as usize, list);
        proof {
            assert(self.layers@ == o.layers@.update(
                i as int,
                self.layers@[i as int],
            ));
            assert(self.layers@[i as int]@ == o.layers@[i as int]@.update(l as int, list));
            assert forall|x: int, y: int|
                0 <= x < o.n() && 0 <= y < o.layers@[x]@.len() && (x, y) != (
                    i as int,
                    l as int,
                ) implies #[trigger] self.adj(x, y) == o.adj(x, y) by {
                if x == i as int {
                    assert(self.layers@[x]@[y] == o.layers@[x]@[y]);
                }
            }
            assert(self.inv_cols()) by {
                assert forall|x: int|
                    0 <= x < self.n() implies #[trigger] self.layers@[x]@.len()
                    == self.node_layer@[x] + 1 by {
                    if x == i as int {
                        assert(self.layers@[x]@.len() == o.layers@[x]@.len());
                    }
                }
            }
            assert(self.inv_adj()) by {
                assert forall|x: int, y: int, k: int|
                    0 <= x < self.layers@.len() && 0 <= y < self.layers@[x]@.len() && 0 <= k
                        < adj_of(self.layers@, x, y).len() implies {
                    let j = #[trigger] adj_of(self.layers@, x, y)[k];
                    &&& 0 <= j < self.layers@.len()
                    &&& j != x
                    &&& self.node_layer@[j as int] >= y
                } by {
                    if (x, y) == (i as int, l as int) {
                        assert(adj_of(self.layers@, x, y)[k] == list@[k]);
                    } else {
                        assert(adj_of(self.layers@, x, y) == adj_of(o.layers@, x, y));
                        if x == i as int {
                            assert(self.layers@[x]@.len() == o.layers@[x]@.len());
                        }
                    }
                }
                assert forall|x: int, y: int|
                    0 <= x < self.layers@.len() && 0 <= y < self.layers@[x]@.len() implies
                    #[trigger] adj_of(self.layers@, x, y).len() <= spec_cap(self.cfg.m, y as u8) by {
                    if (x, y) != (i as int, l as int) {
                        assert(adj_of(self.layers@, x, y) == adj_of(o.layers@, x, y));
                        if x == i as int {
                            assert(self.layers@[x]@.len() == o.layers@[x]@.len());
                        }
                    }
                }
            }
            assert(lists_distinct(self.layers@)) by {
                assert forall|x: int, y: int|
                    0 <= x < self.layers@.len() && 0 <= y < self.layers@[x]@.len() implies (
                    #[trigger] adj_of(self.layers@, x, y)).no_duplicates() by {
                    if (x, y) == (i as int, l as int) {
                        assert(adj_of(self.layers@, x, y) == list@);
                    } else {
                        assert(adj_of(self.layers@, x, y) == adj_of(o.layers@, x, y));
                        if x == i as int {
                            assert(self.layers@[x]@.len() == o.layers@[x]@.len());
                        }
                    }
                }
            }
        }
    }

    /// The numerator of the next open-unit draw of the layer-assignment
    /// generator (see [`SplitMix64::next_open_bits`]), without drawing it.
    pub fn peek_layer_bits(&self) -> (r: u64)
        ensures
            r == open_draw(self.rng_state(), 4).0,
    {
        self.rng.peek_open_bits()
    }
}

pub proof fn lemma_count_layer_pos(s: Seq<u8>, i: int)
    requires
        0 <= i < s.len(),
    ensures
        count_layer(s, s[i] as int) > 0,
    decreases s.len(),
{
    if i < s.len() - 1 {
        lemma_count_layer_pos(s.drop_last(), i);
    }
}

pub proof fn lemma_count_layer_le(s: Seq<u8>, l: int)
    ensures
        count_layer(s, l) <= s.len(),
    decreases s.len(),
{
    if s.len() > 0 {
        lemma_count_layer_le(s.drop_last(), l);
    }
}

} // verus!
