//! K-NN-SEARCH (Malkov and Yashunin's Alg 5), run as [`SearchOp`].
//!
//! From the entry point the search greedy-descends through the layers above
//! 0 with beam width 1, then runs a beam search of width `ef` at layer 0. The
//! hits are the first `k` of its results, nearest first, that are live and
//! accepted: by the verdicts the caller passes to [`SearchOp::hits`], or by
//! the metadata filter that [`SearchOp::filtered_hits`] has `iqdb-filter`
//! evaluate.

use iqdb_types::Filter;
use vstd::prelude::*;

use crate::error::HnswError;
use crate::filtering::{accepts, new_evaluator, spec_accepts, spec_new_evaluator};
use crate::graph::{Metric, Request};
use crate::index::{lemma_count_live_le, HnswIndex};
use crate::laws::law_live_nodes_bounded;
use crate::layer_search::{mk, settled, LayerSearch};
use crate::scored::{ascending, distinct_nodes, scored_lt, DistKey, Scored};

verus! {

/// The elements of `s` whose node is not tombstoned in `tomb` and whose
/// entry in `accept` is `true`, in order.
pub open spec fn kept(s: Seq<Scored>, tomb: Seq<bool>, accept: Seq<bool>) -> Seq<Scored>
    decreases s.len(),
{
    if s.len() == 0 {
        s
    } else {
        let r = kept(s.drop_last(), tomb, accept.take(s.len() - 1));
        let x = s.last();
        if !tomb[x.node as int] && accept[s.len() - 1] {
            r.push(x)
        } else {
            r
        }
    }
}

/// The hits of a finished search: the first `k` kept results.
pub open spec fn select_hits(s: Seq<Scored>, tomb: Seq<bool>, accept: Seq<bool>, k: usize) -> Seq<
    Scored,
> {
    let r = kept(s, tomb, accept);
    if r.len() <= k {
        r
    } else {
        r.take(k as int)
    }
}

proof fn lemma_kept(s: Seq<Scored>, tomb: Seq<bool>, accept: Seq<bool>)
    requires
        accept.len() == s.len(),
    ensures
        kept(s, tomb, accept).len() <= s.len(),
        forall|y: Scored| #[trigger]
            kept(s, tomb, accept).contains(y) ==> s.contains(y) && !tomb[y.node as int],
        ascending(s) ==> ascending(kept(s, tomb, accept)),
    decreases s.len(),
{
    if s.len() > 0 {
        let d = s.drop_last();
        let a = accept.take(s.len() - 1);
        lemma_kept(d, tomb, a);
        let r = kept(d, tomb, a);
        assert forall|y: Scored| #[trigger]
            kept(s, tomb, accept).contains(y) implies s.contains(y) && !tomb[y.node as int] by {
            if r.contains(y) {
                let k = choose|k: int| 0 <= k < d.len() && d[k] == y;
                assert(s[k] == y);
            } else {
                assert(s[s.len() - 1] == y);
            }
        }
        if ascending(s) {
            assert(ascending(d));
            let x = s.last();
            assert forall|y: Scored| #[trigger] r.contains(y) implies scored_lt(y, x) by {
                let k = choose|k: int| 0 <= k < d.len() && d[k] == y;
                assert(s[k] == y);
            }
            let out = kept(s, tomb, accept);
            assert forall|i: int, j: int| 0 <= i < j < out.len() implies scored_lt(
                #[trigger] out[i],
                #[trigger] out[j],
            ) by {
                if j == r.len() && out.len() == r.len() + 1 {
                    assert(r.contains(out[i]));
                }
            }
        }
    }
}

/// The beam width at layer 0 of a search for `k` hits with base width `ef`:
/// the larger of `ef` and `k`, multiplied (saturating at `usize::MAX`) by
/// `widen` when the search carries a filter.
pub open spec fn beam_width(ef: usize, k: usize, filtered: bool, widen: usize) -> usize {
    let base = if ef > k {
        ef
    } else {
        k
    };
    if !filtered {
        base
    } else if base * widen <= usize::MAX {
        (base * widen) as usize
    } else {
        usize::MAX
    }
}

/// The beam width is the larger of `ef` and `k`, multiplied by `widen` when
/// the search is filtered, and capped at `usize::MAX`: at least `k` and at
/// least `ef` whenever nothing saturates.
pub proof fn law_beam_width(ef: usize, k: usize, filtered: bool, widen: usize)
    requires
        widen >= 1,
    ensures
        !filtered ==> beam_width(ef, k, filtered, widen) as int == vstd::math::max(ef as int, k as int),
        filtered ==> beam_width(ef, k, filtered, widen) as int == vstd::math::min(
            usize::MAX as int,
            vstd::math::max(ef as int, k as int) * widen,
        ),
        beam_width(ef, k, filtered, widen) >= k,
        beam_width(ef, k, filtered, widen) >= ef,
{
    let b = vstd::math::max(ef as int, k as int);
    if filtered {
        assert(b * widen >= b) by (nonlinear_arith)
            requires
                b >= 0,
                widen >= 1,
        ;
    }
}

/// Where a search stands.
pub enum Phase {
    /// Waiting for the distance to the entry point.
    Entry,
    /// Greedy descent at a layer above 0.
    Descent(u8, LayerSearch),
    /// Beam search at layer 0.
    Base(LayerSearch),
    /// Finished.
    Done,
}

/// A search in progress; see the module documentation.
pub struct SearchOp {
    pub(crate) phase: Phase,
    pub(crate) k: usize,
    pub(crate) ef: usize,
    pub(crate) entry: u32,
    pub(crate) top: u8,
    pub(crate) cur: Scored,
    pub(crate) out: Vec<Scored>,
    pub(crate) scored: Ghost<Map<u32, DistKey>>,
    pub(crate) seen: Ghost<Map<u32, DistKey>>,
    pub(crate) expanded: Ghost<Set<u32>>,
    pub(crate) start: Ghost<u32>,
    pub(crate) ran: Ghost<bool>,
}

/// Every key `m` holds is the one `seen` holds for the same node.
pub open spec fn agrees(m: Map<u32, DistKey>, seen: Map<u32, DistKey>) -> bool {
    forall|v: u32| #[trigger] m.contains_key(v) ==> seen.contains_key(v) && seen[v] == m[v]
}

/// `seen` after taking `keys[q]` as the key of `pending[q]`, for each `q`.
pub open spec fn record(seen: Map<u32, DistKey>, pending: Seq<u32>, keys: Seq<DistKey>) -> Map<
    u32,
    DistKey,
> {
    seen.union_prefer_right(Map::new(|v: u32| pending.contains(v), |v: u32| keys[pending.index_of(v)]))
}

/// `out` holds the best `ef` of the nodes scored in `scored`, ascending: each
/// result is a scored node with its key; while fewer than `ef` results are
/// held they are every scored node; a scored node left out is behind every
/// result.
pub open spec fn best_of(out: Seq<Scored>, scored: Map<u32, DistKey>, ef: usize) -> bool {
    &&& forall|q: int|
        0 <= q < out.len() ==> scored.contains_key((#[trigger] out[q]).node) && out[q] == mk(
            out[q].node,
            scored[out[q].node],
        )
    &&& out.len() < ef ==> forall|v: u32| #[trigger]
        scored.contains_key(v) ==> out.contains(mk(v, scored[v]))
    &&& out.len() > 0 ==> forall|v: u32| #[trigger]
        scored.contains_key(v) && !out.contains(mk(v, scored[v])) ==> scored_lt(
            out.last(),
            mk(v, scored[v]),
        )
}

/// `path` walks the layer-0 edges of `g`: each node after the first is a
/// layer-0 neighbour of the one before it.
pub open spec fn layer0_walk(g: &HnswIndex, path: Seq<u32>) -> bool {
    forall|i: int| 0 < i < path.len() ==> g.neighbours(path[i - 1] as int, 0).contains(#[trigger] path[i])
}

/// Order of the phases in time, latest lowest.
pub open spec fn rank(p: Phase) -> int {
    match p {
        Phase::Entry => 1000int,
        Phase::Descent(l, _) => l + 1,
        Phase::Base(_) => 1int,
        Phase::Done => 0int,
    }
}

/// The nodes the phase's beam search has visited (none outside a beam
/// search).
pub(crate) open spec fn phase_visited(p: Phase) -> Set<u32> {
    match p {
        Phase::Descent(_, ls) => ls.visited@,
        Phase::Base(ls) => ls.visited@,
        _ => Set::empty(),
    }
}

/// The number of nodes below `n` that `s` does not hold.
pub open spec fn unvisited(s: Set<u32>, n: int) -> nat
    decreases n,
{
    if n <= 0 {
        0
    } else {
        unvisited(s, n - 1) + if s.contains((n - 1) as u32) {
            0nat
        } else {
            1nat
        }
    }
}

/// `a` comes strictly before `b`, first components first.
pub open spec fn lex_lt(a: (int, int), b: (int, int)) -> bool {
    a.0 < b.0 || (a.0 == b.0 && a.1 < b.1)
}

proof fn lemma_unvisited_le(s: Set<u32>, t: Set<u32>, n: int)
    requires
        s.subset_of(t),
    ensures
        unvisited(t, n) <= unvisited(s, n),
    decreases n,
{
    if n > 0 {
        lemma_unvisited_le(s, t, n - 1);
    }
}

proof fn lemma_unvisited_lt(s: Set<u32>, t: Set<u32>, n: int, v: u32)
    requires
        s.subset_of(t),
        v < n <= 0x1_0000_0000,
        t.contains(v),
        !s.contains(v),
    ensures
        unvisited(t, n) < unvisited(s, n),
    decreases n,
{
    if v == n - 1 {
        lemma_unvisited_le(s, t, n - 1);
        assert((n - 1) as u32 == v);
    } else {
        lemma_unvisited_lt(s, t, n - 1, v);
    }
}

pub(crate) open spec fn fresh(p: Phase) -> bool {
    match p {
        Phase::Descent(_, ls) => ls.pending@.len() == 0,
        Phase::Base(ls) => ls.pending@.len() == 0,
        _ => true,
    }
}

/// Every element of `w` is an existing node with its sequence number.
pub(crate) open spec fn known(g: &HnswIndex, w: Seq<Scored>) -> bool {
    forall|q: int|
        0 <= q < w.len() ==> {
            let x = #[trigger] w[q];
            &&& (x.node as int) < g.n()
            &&& x.seq == x.node as u64
        }
}

impl SearchOp {
    pub(crate) open spec fn inv_core(&self, g: &HnswIndex) -> bool {
        &&& g.inv()
        &&& self.ef >= 1
        &&& match self.phase {
            Phase::Entry => {
                &&& (self.entry as int) < g.n()
                &&& g.node_layer@[self.entry as int] >= self.top
                &&& self.ran@
            },
            Phase::Descent(l, ls) => {
                &&& self.ran@
                &&& 1 <= l <= self.top
                &&& ls.inv(g)
                &&& ls.layer == l
                &&& ls.ef == 1
                &&& agrees(ls.scores@, self.seen@)
                &&& ls.scores@.contains_key(self.cur.node)
                &&& ls.scores@[self.cur.node] == self.cur.dist
                &&& (self.cur.node as int) < g.n()
                &&& self.cur.seq == self.cur.node as u64
                &&& g.node_layer@[self.cur.node as int] >= l
            },
            Phase::Base(ls) => {
                &&& self.ran@
                &&& ls.inv(g)
                &&& ls.layer == 0
                &&& ls.ef == self.ef
                &&& agrees(ls.scores@, self.seen@)
                &&& ls.scores@.contains_key(self.start@)
                &&& ls.expanded@.contains(self.start@) || {
                    let x0 = mk(self.start@, ls.scores@[self.start@]);
                    &&& ls.pending@.len() == 0
                    &&& ls.candidates@ == seq![x0]
                    &&& ls.results@ == seq![x0]
                }
            },
            Phase::Done => {
                &&& ascending(self.out@)
                &&& known(g, self.out@)
                &&& self.out@.len() <= self.ef
                &&& distinct_nodes(self.out@)
                &&& best_of(self.out@, self.scored@, self.ef)
                &&& agrees(self.scored@, self.seen@)
                &&& self.ran@ ==> self.out@.len() > 0 && self.expanded@.contains(self.start@)
                &&& forall|v: u32| #[trigger] self.expanded@.contains(v) ==> self.scored@.contains_key(v)
                &&& forall|v: u32, q: int|
                    self.expanded@.contains(v) && 0 <= q < g.adj(v as int, 0).len()
                        ==> self.scored@.contains_key(#[trigger] g.adj(v as int, 0)[q])
                &&& settled(self.scored@, self.expanded@, self.out@, self.ef)
            },
        }
    }

    pub(crate) open spec fn resting(&self) -> bool {
        match self.phase {
            Phase::Entry => true,
            Phase::Descent(_, ls) => ls.pending@.len() > 0,
            Phase::Base(ls) => ls.pending@.len() > 0,
            Phase::Done => true,
        }
    }

    /// The search belongs to index `g` and is waiting for distances or
    /// finished.
    pub closed spec fn valid_for(&self, g: &HnswIndex) -> bool {
        self.inv_core(g) && self.resting()
    }

    /// The number of distances the search waits for (0 when finished).
    pub closed spec fn pending_len(&self) -> nat {
        match self.phase {
            Phase::Entry => 1,
            Phase::Descent(_, ls) => ls.pending@.len(),
            Phase::Base(ls) => ls.pending@.len(),
            Phase::Done => 0,
        }
    }

    /// The search is finished.
    pub closed spec fn is_done(&self) -> bool {
        self.phase is Done
    }

    /// The layer-0 results of a finished search, nearest first.
    pub closed spec fn spec_results(&self) -> Seq<Scored> {
        self.out@
    }

    /// The number of hits asked for.
    pub closed spec fn spec_k(&self) -> usize {
        self.k
    }

    /// The beam width at layer 0.
    pub closed spec fn spec_ef(&self) -> usize {
        self.ef
    }

    /// The nodes a finished search scored at layer 0, with the distance keys
    /// supplied for them.
    pub closed spec fn spec_scored(&self) -> Map<u32, DistKey> {
        self.scored@
    }

    /// The nodes whose distances the search waits for, in the order the
    /// keys are due.
    pub closed spec fn spec_pending(&self) -> Seq<u32> {
        match self.phase {
            Phase::Entry => seq![self.entry],
            Phase::Descent(_, ls) => ls.pending@,
            Phase::Base(ls) => ls.pending@,
            Phase::Done => Seq::empty(),
        }
    }

    /// Whether the search was started on an index with a live node and for
    /// `k > 0`, rather than finished at once with no result.
    pub closed spec fn spec_ran(&self) -> bool {
        self.ran@
    }

    /// The nodes a finished search expanded at layer 0 (each had all its
    /// layer-0 neighbours scored).
    pub closed spec fn spec_expanded(&self) -> Set<u32> {
        self.expanded@
    }

    /// The node the layer-0 beam search started from: where the greedy
    /// descent from the entry point ended.
    pub closed spec fn spec_start(&self) -> u32 {
        self.start@
    }

    /// Every key supplied so far, by node (a later key for a node replaces
    /// an earlier one).
    pub closed spec fn spec_seen(&self) -> Map<u32, DistKey> {
        self.seen@
    }

    /// How far the search has come: the phase's place in time (latest
    /// lowest), then the number of nodes its beam search has not visited.
    pub closed spec fn spec_progress(&self, g: &HnswIndex) -> (int, int) {
        (rank(self.phase), unvisited(phase_visited(self.phase), g.n()) as int)
    }

    /// A finished search's results are strictly ascending, at most the beam
    /// width many, for distinct existing nodes, and they are the best of the
    /// nodes the search scored at layer 0 (see [`best_of`]).
    ///
    /// The layer-0 beam search explored as far as the algorithm demands: it
    /// expanded the node it started from, every expanded node had all its
    /// layer-0 neighbours scored, and every scored node it did not expand is
    /// no better than the worst of a full result list (see [`settled`]). So
    /// when fewer than `ef` results came back, the scored nodes are closed
    /// under layer-0 neighbours: every node reachable at layer 0 from the
    /// start was scored. A search that ran returns at least one result.
    pub proof fn law_finished_results(&self, g: &HnswIndex)
        requires
            self.valid_for(g),
            self.is_done(),
        ensures
            ascending(self.spec_results()),
            self.spec_results().len() <= self.spec_ef(),
            distinct_nodes(self.spec_results()),
            best_of(self.spec_results(), self.spec_scored(), self.spec_ef()),
            agrees(self.spec_scored(), self.spec_seen()),
            forall|q: int|
                0 <= q < self.spec_results().len() ==> ((#[trigger] self.spec_results()[q]).node as int)
                    < g.spec_node_count(),
            self.spec_ran() ==> self.spec_results().len() > 0 && self.spec_expanded().contains(
                self.spec_start(),
            ),
            forall|v: u32| #[trigger]
                self.spec_expanded().contains(v) ==> self.spec_scored().contains_key(v),
            forall|v: u32, q: int|
                self.spec_expanded().contains(v) && 0 <= q < g.neighbours(v as int, 0).len()
                    ==> self.spec_scored().contains_key(#[trigger] g.neighbours(v as int, 0)[q]),
            settled(self.spec_scored(), self.spec_expanded(), self.spec_results(), self.spec_ef()),
            self.spec_results().len() < self.spec_ef() ==> forall|v: u32, q: int|
                self.spec_scored().contains_key(v) && 0 <= q < g.neighbours(v as int, 0).len()
                    ==> self.spec_scored().contains_key(#[trigger] g.neighbours(v as int, 0)[q]),
    {
        g.reveal_wf();
        if self.out@.len() < self.ef {
            assert forall|v: u32, q: int|
                self.scored@.contains_key(v) && 0 <= q < g.neighbours(v as int, 0).len()
                    implies self.scored@.contains_key(#[trigger] g.neighbours(v as int, 0)[q]) by {
                assert(self.expanded@.contains(v));
                assert(g.neighbours(v as int, 0)[q] == g.adj(v as int, 0)[q]);
            }
        }
        assert forall|v: u32, q: int|
            self.expanded@.contains(v) && 0 <= q < g.neighbours(v as int, 0).len()
                implies self.scored@.contains_key(#[trigger] g.neighbours(v as int, 0)[q]) by {
            assert(g.neighbours(v as int, 0)[q] == g.adj(v as int, 0)[q]);
        }
    }

    /// A search that ran and finished with room left in its beam returned
    /// every node reachable at layer 0 from where its layer-0 search started:
    /// the node at the end of any walk along layer-0 edges from the start was
    /// scored and is among the results.
    pub proof fn law_finished_reaches(&self, g: &HnswIndex, path: Seq<u32>)
        requires
            self.valid_for(g),
            self.is_done(),
            self.spec_ran(),
            self.spec_results().len() < self.spec_ef(),
            path.len() > 0,
            path[0] == self.spec_start(),
            layer0_walk(g, path),
        ensures
            self.spec_scored().contains_key(path.last()),
            self.spec_results().contains(mk(path.last(), self.spec_scored()[path.last()])),
        decreases path.len(),
    {
        self.law_finished_results(g);
        let v = path.last();
        if path.len() == 1 {
            assert(self.spec_expanded().contains(v));
        } else {
            let d = path.drop_last();
            assert(layer0_walk(g, d)) by {
                assert forall|i: int| 0 < i < d.len() implies g.neighbours(d[i - 1] as int, 0).contains(
                    #[trigger] d[i],
                ) by {
                    assert(d[i] == path[i] && d[i - 1] == path[i - 1]);
                }
            }
            self.law_finished_reaches(g, d);
            let u = d.last();
            assert(g.neighbours(path[path.len() - 2] as int, 0).contains(path[path.len() - 1]));
            let q = choose|q: int| 0 <= q < g.neighbours(u as int, 0).len() && g.neighbours(u as int, 0)[q] == v;
            assert(self.spec_scored().contains_key(g.neighbours(u as int, 0)[q]));
        }
    }

    /// The distances the search waits for, or `None` when it is finished.
    pub fn request(&self, g: &HnswIndex) -> (r: Option<Request>)
        requires
            self.valid_for(g),
        ensures
            r is None <==> self.is_done(),
            r matches Some(q) ==> q.to@.len() == self.pending_len() && q.to@.len() > 0
                && q.from is None && q.to@ == self.spec_pending(),
    {
        match &self.phase {
            Phase::Entry => {
                let mut to: Vec<u32> = Vec::new();
                to.push(self.entry);
                Some(Request { from: None, to })
            },
            Phase::Descent(_, ls) => {
                let to = ls.pending.clone();
                proof {
                    assert(to@ =~= ls.pending@);
                }
                Some(Request { from: None, to })
            },
            Phase::Base(ls) => {
                let to = ls.pending.clone();
                proof {
                    assert(to@ =~= ls.pending@);
                }
                Some(Request { from: None, to })
            },
            Phase::Done => None,
        }
    }

    fn advance(&mut self, g: &HnswIndex)
        requires
            old(self).inv_core(g),
            fresh(old(self).phase),
        ensures
            final(self).inv_core(g),
            final(self).resting(),
            final(self).k == old(self).k,
            final(self).ef == old(self).ef,
            final(self).seen == old(self).seen,
            final(self).ran == old(self).ran,
            rank(final(self).phase) <= rank(old(self).phase),
            (old(self).phase is Descent || old(self).phase is Base) ==> lex_lt(
                final(self).spec_progress(g),
                old(self).spec_progress(g),
            ),
    {
        loop
            invariant
                self.inv_core(g),
                fresh(self.phase),
                self.k == old(self).k,
                self.ef == old(self).ef,
                self.seen == old(self).seen,
                self.ran == old(self).ran,
                rank(self.phase) < rank(old(self).phase) || (rank(self.phase) == rank(old(self).phase)
                    && phase_visited(self.phase) == phase_visited(old(self).phase)),
            decreases rank(self.phase),
        {
            let mut phase = Phase::Entry;
            std::mem::swap(&mut phase, &mut self.phase);
            match phase {
                Phase::Entry => {
                    self.phase = Phase::Entry;
                    return;
                },
                Phase::Descent(l, mut ls) => {
                    let ghost vis0 = ls.visited@;
                    let ghost sc0 = ls.scores@;
                    proof {
                        assert forall|u: u32| vis0.contains(u) implies #[trigger] sc0.contains_key(u) by {
                            assert(!ls.pending@.contains(u));
                        }
                    }
                    match ls.next_request(g) {
                        Some(_) => {
                            proof {
                                let v = ls.pending@[0];
                                assert(ls.pending@.contains(v));
                                assert(ls.visited@.contains(v));
                                assert(g.inv_cols());
                                assert(vis0.subset_of(ls.visited@));
                                lemma_unvisited_lt(vis0, ls.visited@, g.n(), v);
                            }
                            self.phase = Phase::Descent(l, ls);
                            return;
                        },
                        None => {
                            match ls.best() {
                                Some(b) => {
                                    proof {
                                        assert(ls.is_scored(ls.results@[0]));
                                        assert(ls.visited@.contains(b.node));
                                    }
                                    self.cur = b;
                                },
                                None => {},
                            }
                            proof {
                                assert(ls.scores@.contains_key(self.cur.node));
                                assert(self.seen@.contains_key(self.cur.node));
                                assert(self.seen@[self.cur.node] == self.cur.dist);
                            }
                            let mut entries: Vec<Scored> = Vec::new();
                            entries.push(self.cur);
                            if l > 1 {
                                let next = LayerSearch::new(g, &entries, l - 1, 1);
                                proof {
                                    assert(next.visited@.contains(self.cur.node)) by {
                                        assert(entries@[0].node == self.cur.node);
                                    }
                                    assert(!next.pending@.contains(self.cur.node));
                                    assert forall|v: u32| #[trigger] next.scores@.contains_key(v) implies self.seen@.contains_key(v)
                                        && self.seen@[v] == next.scores@[v] by {
                                        let k = choose|k: int| 0 <= k < entries@.len() && (#[trigger] entries@[k]).node == v
                                            && entries@[k].dist == next.scores@[v];
                                        assert(entries@[k] == self.cur);
                                    }
                                    assert(next.scores@[self.cur.node] == self.cur.dist) by {
                                        let k = choose|k: int| 0 <= k < entries@.len() && (#[trigger] entries@[k]).node == self.cur.node
                                            && entries@[k].dist == next.scores@[self.cur.node];
                                        assert(entries@[k] == self.cur);
                                    }
                                }
                                self.phase = Phase::Descent(l - 1, next);
                            } else {
                                let next = LayerSearch::new(g, &entries, 0, self.ef);
                                proof {
                                    self.start = Ghost(self.cur.node);
                                    assert(next.visited@.contains(self.cur.node)) by {
                                        assert(entries@[0].node == self.cur.node);
                                    }
                                    assert(!next.pending@.contains(self.cur.node));
                                    assert(next.scores@[self.cur.node] == self.cur.dist) by {
                                        let k = choose|k: int| 0 <= k < entries@.len() && (#[trigger] entries@[k]).node == self.cur.node
                                            && entries@[k].dist == next.scores@[self.cur.node];
                                        assert(entries@[k] == self.cur);
                                    }
                                    assert(entries@[0] == mk(self.cur.node, next.scores@[self.cur.node]));
                                    assert forall|v: u32| #[trigger] next.scores@.contains_key(v) implies self.seen@.contains_key(v)
                                        && self.seen@[v] == next.scores@[v] by {
                                        let k = choose|k: int| 0 <= k < entries@.len() && (#[trigger] entries@[k]).node == v
                                            && entries@[k].dist == next.scores@[v];
                                        assert(entries@[k] == self.cur);
                                    }
                                }
                                self.phase = Phase::Base(next);
                            }
                        },
                    }
                },
                Phase::Base(mut ls) => {
                    let ghost vis0 = ls.visited@;
                    let ghost sc0 = ls.scores@;
                    let ghost ls0 = ls;
                    proof {
                        assert forall|u: u32| vis0.contains(u) implies #[trigger] sc0.contains_key(u) by {
                            assert(!ls.pending@.contains(u));
                        }
                    }
                    match ls.next_request(g) {
                        Some(_) => {
                            proof {
                                let v = ls.pending@[0];
                                assert(ls.pending@.contains(v));
                                assert(ls.visited@.contains(v));
                                assert(g.inv_cols());
                                assert(vis0.subset_of(ls.visited@));
                                lemma_unvisited_lt(vis0, ls.visited@, g.n(), v);
                                if !ls0.expanded@.contains(self.start@) {
                                    assert(ls0.candidates@.last() == mk(self.start@, sc0[self.start@]));
                                }
                                assert(ls.expanded@.contains(self.start@));
                            }
                            self.phase = Phase::Base(ls);
                            return;
                        },
                        None => {
                            proof {
                                if !ls0.expanded@.contains(self.start@) {
                                    assert(ls0.candidates@.last() == mk(self.start@, sc0[self.start@]));
                                }
                                assert(ls.expanded@.contains(self.start@));
                                assert forall|v: u32| #[trigger] ls.visited@.contains(v) implies ls.scores@.contains_key(v) by {
                                    assert(!ls.pending@.contains(v));
                                }
                                assert forall|v: u32, q: int|
                                    ls.expanded@.contains(v) && 0 <= q < g.adj(v as int, 0).len()
                                        implies ls.scores@.contains_key(#[trigger] g.adj(v as int, 0)[q]) by {
                                    assert(ls.visited@.contains(g.adj(v as int, 0)[q]));
                                }
                                if ls.results@.len() < ls.ef {
                                    assert(ls.results@.contains(mk(self.start@, ls.scores@[self.start@])));
                                }
                            }
                            let r = ls.results;
                            proof {
                                assert forall|q: int| 0 <= q < r@.len() implies {
                                    let x = #[trigger] r@[q];
                                    &&& (x.node as int) < g.n()
                                    &&& x.seq == x.node as u64
                                } by {
                                    assert(ls.is_scored(r@[q]));
                                    assert(ls.visited@.contains(r@[q].node));
                                }
                                assert forall|i: int, j: int| 0 <= i < j < r@.len() implies (
                                #[trigger] r@[i]).node != (#[trigger] r@[j]).node by {
                                    assert(ls.is_scored(r@[i]));
                                    assert(ls.is_scored(r@[j]));
                                    assert(scored_lt(r@[i], r@[j]));
                                }
                            }
                            self.scored = Ghost(ls.scores@);
                            self.expanded = Ghost(ls.expanded@);
                            self.out = r;
                            self.phase = Phase::Done;
                            return;
                        },
                    }
                },
                Phase::Done => {
                    self.phase = Phase::Done;
                    return;
                },
            }
        }
    }

    /// Answer the awaited distances (`keys[q]` for the `q`-th requested
    /// node) and carry on until distances are needed again or the search is
    /// finished. The keys are recorded as the distances of the awaited
    /// nodes, and the search moves forward: to a later phase, or in the same
    /// beam search to more visited nodes, so finitely many calls finish it.
    pub fn supply(&mut self, g: &HnswIndex, keys: &Vec<DistKey>)
        requires
            old(self).valid_for(g),
            !old(self).is_done(),
            keys@.len() == old(self).pending_len(),
        ensures
            final(self).valid_for(g),
            final(self).spec_k() == old(self).spec_k(),
            final(self).spec_ef() == old(self).spec_ef(),
            lex_lt(final(self).spec_progress(g), old(self).spec_progress(g)),
            final(self).spec_seen() == record(old(self).spec_seen(), old(self).spec_pending(), keys@),
            final(self).spec_ran(),
    {
        let ghost pend = self.spec_pending();
        let ghost seen0 = self.seen@;
        proof {
            self.seen = Ghost(record(seen0, pend, keys@));
        }
        let mut phase = Phase::Entry;
        std::mem::swap(&mut phase, &mut self.phase);
        match phase {
            Phase::Entry => {
                self.cur = Scored { dist: keys[0], seq: self.entry as u64, node: self.entry };
                let mut entries: Vec<Scored> = Vec::new();
                entries.push(self.cur);
                proof {
                    assert(pend[0] == self.entry);
                    assert(pend.contains(self.entry));
                    assert(pend.index_of(self.entry) == 0) by {
                        pend.index_of_first_ensures(self.entry);
                    }
                    assert(self.seen@.contains_key(self.entry));
                    assert(self.seen@[self.entry] == keys@[0]);
                }
                if self.top >= 1 {
                    let ls = LayerSearch::new(g, &entries, self.top, 1);
                    proof {
                        assert(ls.visited@.contains(self.cur.node)) by {
                            assert(entries@[0].node == self.cur.node);
                        }
                        assert(!ls.pending@.contains(self.cur.node));
                    }
                    self.phase = Phase::Descent(self.top, ls);
                } else {
                    let ls = LayerSearch::new(g, &entries, 0, self.ef);
                    proof {
                        self.start = Ghost(self.entry);
                        assert(ls.visited@.contains(self.cur.node)) by {
                            assert(entries@[0].node == self.cur.node);
                        }
                        assert(!ls.pending@.contains(self.cur.node));
                        assert(ls.scores@[self.cur.node] == self.cur.dist) by {
                            let k = choose|k: int| 0 <= k < entries@.len() && (#[trigger] entries@[k]).node == self.cur.node
                                && entries@[k].dist == ls.scores@[self.cur.node];
                            assert(entries@[k] == self.cur);
                        }
                        assert(entries@[0] == mk(self.cur.node, ls.scores@[self.cur.node]));
                    }
                    self.phase = Phase::Base(ls);
                }
            },
            Phase::Descent(l, mut ls) => {
                let ghost sc0 = ls.scores@;
                proof {
                    assert(!ls.pending@.contains(self.cur.node));
                }
                ls.absorb(g, keys);
                proof {
                    assert forall|v: u32| #[trigger] ls.scores@.contains_key(v) implies self.seen@.contains_key(v)
                        && self.seen@[v] == ls.scores@[v] by {
                        if !pend.contains(v) {
                            assert(sc0.contains_key(v));
                        }
                    }
                }
                self.phase = Phase::Descent(l, ls);
            },
            Phase::Base(mut ls) => {
                let ghost sc0 = ls.scores@;
                assert(ls.expanded@.contains(self.start@));
                ls.absorb(g, keys);
                proof {
                    assert forall|v: u32| #[trigger] ls.scores@.contains_key(v) implies self.seen@.contains_key(v)
                        && self.seen@[v] == ls.scores@[v] by {
                        if !pend.contains(v) {
                            assert(sc0.contains_key(v));
                        }
                    }
                }
                self.phase = Phase::Base(ls);
            },
            Phase::Done => {
                self.phase = Phase::Done;
            },
        }
        self.advance(g);
    }

    /// The layer-0 results of a finished search, nearest first.
    pub fn results(&self) -> (r: &Vec<Scored>)
        ensures
            r@ == self.spec_results(),
    {
        &self.out
    }

    /// The hits of a finished search: the first `k` results, nearest first,
    /// that are live in `g` and whose entry in `accept` is `true` (one entry
    /// per result). They are in strictly ascending order, at most `k` of
    /// them, all live.
    pub fn hits(&self, g: &HnswIndex, accept: &Vec<bool>) -> (r: Vec<Scored>)
        requires
            self.valid_for(g),
            self.is_done(),
            accept@.len() == self.spec_results().len(),
        ensures
            r@ == select_hits(self.spec_results(), g.tombstones(), accept@, self.spec_k()),
            r@.len() <= self.spec_k(),
            r@.len() <= g.spec_len(),
            ascending(r@),
            distinct_nodes(r@),
            forall|q: int| 0 <= q < r@.len() ==> g.spec_is_live((#[trigger] r@[q]).node as int),
            forall|q: int| 0 <= q < r@.len() ==> self.spec_results().contains(#[trigger] r@[q]),
    {
        let res = self.results();
        let mut out: Vec<Scored> = Vec::new();
        let mut i: usize = 0;
        while i < res.len()
            invariant
                g.inv(),
                known(g, res@),
                accept@.len() == res@.len(),
                0 <= i <= res@.len(),
                out@ == kept(res@.take(i as int), g.tombstoned@, accept@.take(i as int)),
            decreases res@.len() - i,
        {
            let x = res[i];
            proof {
                assert(res@.take(i as int + 1).drop_last() =~= res@.take(i as int));
                assert(accept@.take(i as int + 1).take(i as int) =~= accept@.take(i as int));
                assert(res@.take(i as int + 1).last() == x);
            }
            if !g.tombstoned[x.node as usize] && accept[i] {
                out.push(x);
            }
            i = i + 1;
        }
        proof {
            assert(res@.take(res@.len() as int) =~= res@);
            assert(accept@.take(res@.len() as int) =~= accept@);
            lemma_kept(res@, g.tombstoned@, accept@);
        }
        if out.len() > self.k {
            out.truncate(self.k);
        }
        proof {
            g.reveal_wf();
            let kk = kept(res@, g.tombstoned@, accept@);
            assert forall|q: int| 0 <= q < out@.len() implies kk.contains(#[trigger] out@[q]) by {
                assert(kk[q] == out@[q]);
            }
            let nodes = out@.map_values(|x: Scored| x.node);
            assert forall|a: int, b: int| 0 <= a < b < nodes.len() implies #[trigger] nodes[a] != #[trigger] nodes[b] by {
                assert(kk.contains(out@[a]));
                assert(kk.contains(out@[b]));
                assert(scored_lt(out@[a], out@[b]));
                let i = choose|i: int| 0 <= i < res@.len() && res@[i] == out@[a];
                let j = choose|j: int| 0 <= j < res@.len() && res@[j] == out@[b];
                if i < j {
                    assert(res@[i].node != res@[j].node);
                } else if j < i {
                    assert(res@[j].node != res@[i].node);
                }
            }
            assert forall|q: int| 0 <= q < nodes.len() implies g.spec_is_live(#[trigger] nodes[q] as int) by {
                assert(kk.contains(out@[q]));
            }
            law_live_nodes_bounded(g, nodes);
        }
        out
    }
}

impl SearchOp {
    /// The hits of a finished search under an optional metadata filter.
    ///
    /// Without a filter, every result is accepted (see [`SearchOp::hits`]).
    /// With one, the filter is first validated by `iqdb-filter`
    /// (`InvalidFilter` when it is refused, whether or not the search found
    /// anything); then each result is accepted when its node's stored
    /// metadata passes the filter, and the hits are the first `k` live
    /// accepted results, nearest first.
    pub fn filtered_hits(&self, g: &HnswIndex, filter: &Option<Filter>) -> (r: Result<
        Vec<Scored>,
        HnswError,
    >)
        requires
            self.valid_for(g),
            self.is_done(),
        ensures
            filter is None ==> (r matches Ok(h) && h@ == select_hits(
                self.spec_results(),
                g.tombstones(),
                Seq::new(self.spec_results().len(), |q: int| true),
                self.spec_k(),
            )),
            filter matches Some(f) ==> (r is Err <==> spec_new_evaluator(*f) is Err),
            filter matches Some(f) ==> (spec_new_evaluator(*f) matches Ok(ev) ==> (r matches Ok(h)
                && h@ == select_hits(
                self.spec_results(),
                g.tombstones(),
                Seq::new(
                    self.spec_results().len(),
                    |q: int| spec_accepts(ev, g.stored_metadata(self.spec_results()[q].node as int)),
                ),
                self.spec_k(),
            ))),
            r matches Err(e) ==> e == HnswError::InvalidFilter,
    {
        let res = self.results();
        let mut accept: Vec<bool> = Vec::new();
        match filter {
            None => {
                let mut i: usize = 0;
                while i < res.len()
                    invariant
                        0 <= i <= res@.len(),
                        accept@ == Seq::new(i as nat, |q: int| true),
                    decreases res@.len() - i,
                {
                    accept.push(true);
                    i = i + 1;
                    proof {
                        assert(accept@ =~= Seq::new(i as nat, |q: int| true));
                    }
                }
            },
            Some(f) => {
                let evaluator = match new_evaluator(f) {
                    Ok(e) => e,
                    Err(_) => {
                        return Err(HnswError::InvalidFilter);
                    },
                };
                proof {
                    g.reveal_wf();
                }
                let mut i: usize = 0;
                while i < res.len()
                    invariant
                        g.wf(),
                        forall|q: int|
                            0 <= q < res@.len() ==> ((#[trigger] res@[q]).node as int)
                                < g.spec_node_count(),
                        0 <= i <= res@.len(),
                        accept@ == Seq::new(
                            i as nat,
                            |q: int| spec_accepts(evaluator, g.stored_metadata(res@[q].node as int)),
                        ),
                    decreases res@.len() - i,
                {
                    let node = res[i].node;
                    let verdict = accepts(&evaluator, g.metadata_at(node));
                    accept.push(verdict);
                    i = i + 1;
                    proof {
                        assert(accept@ =~= Seq::new(
                            i as nat,
                            |q: int| spec_accepts(evaluator, g.stored_metadata(res@[q].node as int)),
                        ));
                    }
                }
            },
        }
        let h = self.hits(g, &accept);
        Ok(h)
    }
}

impl HnswIndex {
    /// Start a top-`k` search for a query of `query_len` components under
    /// `metric`, with beam width `ef` at layer 0 raised to `k` and multiplied
    /// (saturating) by `filter_widen` when `filtered`.
    ///
    /// Errors, in this order: `DimensionMismatch` when `query_len` is not
    /// the index's dimensionality; `InvalidMetric` when `metric` is not the
    /// index's. When `k` is 0 or no node is live the search is already
    /// finished with no result.
    pub fn search_with_ef(
        &self,
        query_len: usize,
        metric: Metric,
        k: usize,
        filtered: bool,
        ef: usize,
    ) -> (r: Result<SearchOp, HnswError>)
        requires
            self.wf(),
        ensures
            query_len != self.spec_dim() ==> r == Err::<SearchOp, HnswError>(
                HnswError::DimensionMismatch { expected: self.spec_dim(), found: query_len },
            ),
            query_len == self.spec_dim() && metric != self.spec_metric() ==> r == Err::<
                SearchOp,
                HnswError,
            >(HnswError::InvalidMetric),
            query_len == self.spec_dim() && metric == self.spec_metric() ==> (r matches Ok(op) && {
                &&& op.valid_for(self)
                &&& op.spec_k() == k
                &&& (k == 0 || self.spec_len() == 0) ==> op.is_done() && op.spec_results().len()
                    == 0 && !op.spec_ran()
                &&& (k > 0 && self.spec_len() > 0) ==> op.spec_ef() == beam_width(
                    ef,
                    k,
                    filtered,
                    self.spec_config().filter_widen,
                )
                &&& (k > 0 && self.spec_len() > 0 && !filtered) ==> op.spec_ef() as int
                    == vstd::math::max(ef as int, k as int)
                &&& (k > 0 && self.spec_len() > 0 && filtered) ==> op.spec_ef() as int
                    == vstd::math::min(
                    usize::MAX as int,
                    vstd::math::max(ef as int, k as int) * self.spec_config().filter_widen,
                )
                &&& (k > 0 && self.spec_len() > 0) ==> {
                    &&& !op.is_done()
                    &&& op.spec_ran()
                    &&& self.spec_entry() is Some
                    &&& op.spec_pending() == seq![self.spec_entry()->0]
                    &&& op.spec_seen() == Map::<u32, DistKey>::empty()
                }
            }),
    {
        proof {
            self.reveal_wf();
        }
        if query_len != self.dim {
            return Err(HnswError::DimensionMismatch { expected: self.dim, found: query_len });
        }
        if metric != self.metric {
            return Err(HnswError::InvalidMetric);
        }
        let done_empty = SearchOp {
            phase: Phase::Done,
            out: Vec::new(),
            scored: Ghost(Map::empty()),
            seen: Ghost(Map::empty()),
            expanded: Ghost(Set::empty()),
            start: Ghost(0),
            ran: Ghost(false),
            k,
            ef: 1,
            entry: 0,
            top: 0,
            cur: Scored { dist: 0, seq: 0, node: 0 },
        };
        if k == 0 || self.live_count == 0 {
            return Ok(done_empty);
        }
        proof {
            lemma_count_live_le(self.tombstoned@);
        }
        let entry = match self.entry {
            Some(e) => e,
            None => {
                return Ok(done_empty);
            },
        };
        let ef_base = if ef > k {
            ef
        } else {
            k
        };
        let ef_effective = if filtered {
            match ef_base.checked_mul(self.cfg.filter_widen) {
                Some(v) => v,
                None => usize::MAX,
            }
        } else {
            ef_base
        };
        proof {
            assert(self.cfg.filter_widen >= 1);
            if filtered && ef_base * self.cfg.filter_widen <= usize::MAX {
                assert(ef_base * self.cfg.filter_widen >= 1) by (nonlinear_arith)
                    requires
                        ef_base >= 1,
                        self.cfg.filter_widen >= 1,
                ;
            }
        }
        Ok(
            SearchOp {
                phase: Phase::Entry,
                out: Vec::new(),
                scored: Ghost(Map::empty()),
                seen: Ghost(Map::empty()),
                expanded: Ghost(Set::empty()),
                start: Ghost(entry),
                ran: Ghost(true),
                k,
                ef: ef_effective,
                entry,
                top: self.top_layer,
                cur: Scored { dist: 0, seq: entry as u64, node: entry },
            },
        )
    }

    /// [`HnswIndex::search_with_ef`] with the configured `ef_search`.
    pub fn search(&self, query_len: usize, metric: Metric, k: usize, filtered: bool) -> (r: Result<
        SearchOp,
        HnswError,
    >)
        requires
            self.wf(),
        ensures
            query_len != self.spec_dim() ==> r == Err::<SearchOp, HnswError>(
                HnswError::DimensionMismatch { expected: self.spec_dim(), found: query_len },
            ),
            query_len == self.spec_dim() && metric != self.spec_metric() ==> r == Err::<
                SearchOp,
                HnswError,
            >(HnswError::InvalidMetric),
            query_len == self.spec_dim() && metric == self.spec_metric() ==> (r matches Ok(op) && {
                &&& op.valid_for(self)
                &&& op.spec_k() == k
                &&& (k == 0 || self.spec_len() == 0) ==> op.is_done() && op.spec_results().len()
                    == 0 && !op.spec_ran()
                &&& (k > 0 && self.spec_len() > 0) ==> op.spec_ef() == beam_width(
                    self.spec_config().ef_search,
                    k,
                    filtered,
                    self.spec_config().filter_widen,
                )
                &&& (k > 0 && self.spec_len() > 0 && !filtered) ==> op.spec_ef() as int
                    == vstd::math::max(self.spec_config().ef_search as int, k as int)
                &&& (k > 0 && self.spec_len() > 0 && filtered) ==> op.spec_ef() as int
                    == vstd::math::min(
                    usize::MAX as int,
                    vstd::math::max(self.spec_config().ef_search as int, k as int) * self.spec_config().filter_widen,
                )
                &&& (k > 0 && self.spec_len() > 0) ==> {
                    &&& !op.is_done()
                    &&& op.spec_ran()
                    &&& self.spec_entry() is Some
                    &&& op.spec_pending() == seq![self.spec_entry()->0]
                    &&& op.spec_seen() == Map::<u32, DistKey>::empty()
                }
            }),
    {
        proof {
            self.reveal_wf();
        }
        self.search_with_ef(query_len, metric, k, filtered, self.cfg.ef_search)
    }
}

} // verus!
