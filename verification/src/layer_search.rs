//! SEARCH-LAYER: beam search over one layer of the graph.
//!
//! The search keeps the candidates still to expand (nearest last) and the
//! best `ef` results seen (worst last). Expanding a candidate visits its
//! unvisited neighbours at the layer; their distances are requested from the
//! caller and each one that beats the worst result (or finds the results not
//! yet full) joins both lists. The search stops when no candidate is left or
//! the nearest one is farther than the worst of a full result list.
//!
//! The nodes it has expanded are kept as ghost state: each had all its
//! neighbours at the layer visited, and each scored node is expanded, waits
//! among the candidates, or is no better than the worst of a full result
//! list. When the search stops, every scored node is expanded or beaten in
//! that way ([`settled`]).

use std::collections::HashSet;
use vstd::prelude::*;

use crate::index::HnswIndex;
use crate::scored::{
    ascending, descending, insert_asc, insert_desc, lemma_insert_asc, lemma_insert_desc, push_ascending, dist_lt,
    push_descending, rank_fresh, same_rank, scored_lt, spec_dist_lt, DistKey, Scored,
};

verus! {

broadcast use vstd::std_specs::hash::group_hash_axioms;

/// `x` would enter a result list `res` bounded by `ef`.
pub open spec fn competitive(res: Seq<Scored>, x: Scored, ef: usize) -> bool {
    res.len() < ef || (res.len() > 0 && scored_lt(x, res.last()))
}

/// `res` after offering `x` to it, keeping at most `ef` of the best.
pub open spec fn bounded_push(res: Seq<Scored>, x: Scored, ef: usize) -> Seq<Scored> {
    if res.len() < ef {
        insert_asc(res, x)
    } else if res.len() > 0 && scored_lt(x, res.last()) {
        insert_asc(res.drop_last(), x)
    } else {
        res
    }
}

/// The scored form of node `v` at distance key `d`.
pub open spec fn mk(v: u32, d: DistKey) -> Scored {
    Scored { dist: d, seq: v as u64, node: v }
}

/// Offer each of `xs` in turn: a competitive one joins the candidates and the
/// results.
pub open spec fn absorb_all(
    cand: Seq<Scored>,
    res: Seq<Scored>,
    xs: Seq<Scored>,
    ef: usize,
) -> (Seq<Scored>, Seq<Scored>)
    decreases xs.len(),
{
    if xs.len() == 0 {
        (cand, res)
    } else {
        let (c, r) = absorb_all(cand, res, xs.drop_last(), ef);
        let x = xs.last();
        if competitive(r, x, ef) {
            (insert_desc(c, x), bounded_push(r, x, ef))
        } else {
            (c, r)
        }
    }
}

/// Push `x` into the ascending result list bounded by `ef`.
fn push_to_results(results: &mut Vec<Scored>, x: Scored, ef: usize)
    ensures
        final(results)@ == bounded_push(old(results)@, x, ef),
{
    if results.len() < ef {
        push_ascending(results, x);
    } else if results.len() > 0 && x.precedes(&results[results.len() - 1]) {
        let _ = results.pop();
        push_ascending(results, x);
    }
}

/// `x` is no better than the worst of a result list `res` that is full at
/// width `ef`.
pub open spec fn beaten(res: Seq<Scored>, x: Scored, ef: usize) -> bool {
    &&& res.len() >= ef
    &&& res.len() > 0
    &&& !scored_lt(x, res.last())
}

/// Each node scored in `scores` has been expanded, waits among the
/// candidates `cands`, or is beaten by the results `res`.
pub open spec fn accounted(
    scores: Map<u32, DistKey>,
    expanded: Set<u32>,
    cands: Seq<Scored>,
    res: Seq<Scored>,
    ef: usize,
) -> bool {
    forall|v: u32| #[trigger]
        scores.contains_key(v) ==> expanded.contains(v) || cands.contains(mk(v, scores[v])) || beaten(
            res,
            mk(v, scores[v]),
            ef,
        )
}

/// Each node scored in `scores` has been expanded or is beaten by the
/// results `res`: the stopping condition of the beam search.
pub open spec fn settled(scores: Map<u32, DistKey>, expanded: Set<u32>, res: Seq<Scored>, ef: usize) -> bool {
    forall|v: u32| #[trigger]
        scores.contains_key(v) ==> expanded.contains(v) || beaten(res, mk(v, scores[v]), ef)
}

/// Every neighbour at `layer` of every node in `expanded` is in `seen`.
pub(crate) open spec fn neighbours_in(g: &HnswIndex, layer: u8, expanded: Set<u32>, seen: Set<u32>) -> bool {
    forall|v: u32, k: int|
        expanded.contains(v) && 0 <= k < g.adj(v as int, layer as int).len() ==> seen.contains(
            #[trigger] g.adj(v as int, layer as int)[k],
        )
}

/// A beam search at one layer, suspended whenever it needs distances.
pub struct LayerSearch {
    pub(crate) visited: HashSet<u32>,
    pub(crate) candidates: Vec<Scored>,
    pub(crate) results: Vec<Scored>,
    pub(crate) pending: Vec<u32>,
    pub(crate) layer: u8,
    pub(crate) ef: usize,
    pub(crate) scores: Ghost<Map<u32, DistKey>>,
    pub(crate) expanded: Ghost<Set<u32>>,
}

impl LayerSearch {
    /// `x` is node `x.node`, scored with the key recorded for it.
    pub(crate) open spec fn is_scored(&self, x: Scored) -> bool {
        &&& self.scores@.contains_key(x.node)
        &&& x == mk(x.node, self.scores@[x.node])
    }

    /// The best-`ef` property: while the results are not full they hold
    /// every scored node, and a scored node outside them is worse than all
    /// of them.
    pub(crate) open spec fn top_ef(&self) -> bool {
        &&& self.results@.len() < self.ef ==> forall|v: u32|
            #[trigger] self.scores@.contains_key(v) ==> self.results@.contains(
                mk(v, self.scores@[v]),
            )
        &&& self.results@.len() > 0 ==> forall|v: u32|
            #[trigger] self.scores@.contains_key(v) && !self.results@.contains(
                mk(v, self.scores@[v]),
            ) ==> scored_lt(self.results@.last(), mk(v, self.scores@[v]))
    }

    pub(crate) open spec fn inv(&self, g: &HnswIndex) -> bool {
        &&& self.inv_core(g)
        &&& neighbours_in(g, self.layer, self.expanded@, self.visited@)
    }

    /// Everything in [`LayerSearch::inv`] but the neighbours of the expanded
    /// nodes having been visited.
    pub(crate) open spec fn inv_core(&self, g: &HnswIndex) -> bool {
        &&& g.inv()
        &&& self.ef >= 1
        &&& ascending(self.results@)
        &&& descending(self.candidates@)
        &&& self.results@.len() <= self.ef
        &&& forall|k: int| 0 <= k < self.results@.len() ==> self.is_scored(#[trigger] self.results@[k])
        &&& forall|k: int|
            0 <= k < self.candidates@.len() ==> self.is_scored(#[trigger] self.candidates@[k])
        &&& forall|v: u32| #[trigger]
            self.visited@.contains(v) <==> (self.scores@.contains_key(v) || self.pending@.contains(
                v,
            ))
        &&& forall|v: u32| #[trigger]
            self.pending@.contains(v) ==> !self.scores@.contains_key(v)
        &&& forall|a: int, b: int|
            0 <= a < b < self.pending@.len() ==> #[trigger] self.pending@[a]
                != #[trigger] self.pending@[b]
        &&& forall|v: u32| #[trigger]
            self.visited@.contains(v) ==> (v as int) < g.n() && g.node_layer@[v as int]
                >= self.layer
        &&& self.top_ef()
        &&& forall|v: u32| #[trigger] self.expanded@.contains(v) ==> self.scores@.contains_key(v)
        &&& accounted(self.scores@, self.expanded@, self.candidates@, self.results@, self.ef)
    }

    /// The search is over: no candidate is left, or the nearest one is
    /// farther than the worst of a full result list.
    pub(crate) open spec fn finished(&self) -> bool {
        ||| self.candidates@.len() == 0
        ||| (self.results@.len() >= self.ef && spec_dist_lt(
            self.results@.last().dist,
            self.candidates@.last().dist,
        ))
    }

    /// Seed a search at `layer` with width `ef` from `entries`: each entry
    /// whose node was not seen earlier in `entries` is visited and offered
    /// to the candidates and the results.
    pub(crate) fn new(g: &HnswIndex, entries: &Vec<Scored>, layer: u8, ef: usize) -> (r: Self)
        requires
            g.inv(),
            ef >= 1,
            forall|k: int|
                0 <= k < entries@.len() ==> {
                    let e = #[trigger] entries@[k];
                    &&& (e.node as int) < g.n()
                    &&& e.seq == e.node as u64
                    &&& g.node_layer@[e.node as int] >= layer
                },
        ensures
            r.inv(g),
            r.pending@.len() == 0,
            r.layer == layer,
            r.ef == ef,
            r.expanded@ == Set::<u32>::empty(),
            entries@.len() == 1 ==> r.candidates@ == seq![entries@[0]] && r.results@ == seq![entries@[0]],
            forall|v: u32| #[trigger]
                r.visited@.contains(v) <==> exists|k: int|
                    0 <= k < entries@.len() && (#[trigger] entries@[k]).node == v,
            forall|v: u32| #[trigger]
                r.scores@.contains_key(v) ==> exists|k: int|
                    0 <= k < entries@.len() && (#[trigger] entries@[k]).node == v
                        && entries@[k].dist == r.scores@[v],
    {
        let mut s = LayerSearch {
            visited: HashSet::new(),
            candidates: Vec::new(),
            results: Vec::new(),
            pending: Vec::new(),
            layer,
            ef,
            scores: Ghost(Map::empty()),
            expanded: Ghost(Set::empty()),
        };
        let mut i: usize = 0;
        while i < entries.len()
            invariant
                s.inv(g),
                s.pending@.len() == 0,
                s.layer == layer,
                s.ef == ef,
                s.expanded@ == Set::<u32>::empty(),
                entries@.len() == 1 && i == 1 ==> s.candidates@ == seq![entries@[0]] && s.results@
                    == seq![entries@[0]],
                i == 0 ==> s.candidates@.len() == 0 && s.results@.len() == 0,
                0 <= i <= entries@.len(),
                forall|k: int|
                    0 <= k < entries@.len() ==> {
                        let e = #[trigger] entries@[k];
                        &&& (e.node as int) < g.n()
                        &&& e.seq == e.node as u64
                        &&& g.node_layer@[e.node as int] >= layer
                    },
                forall|v: u32| #[trigger]
                    s.visited@.contains(v) <==> exists|k: int|
                        0 <= k < i && (#[trigger] entries@[k]).node == v,
                forall|v: u32| #[trigger]
                    s.scores@.contains_key(v) ==> exists|k: int|
                        0 <= k < i && (#[trigger] entries@[k]).node == v
                            && entries@[k].dist == s.scores@[v],
            decreases entries@.len() - i,
        {
            let e = entries[i];
            let ghost before = s;
            if s.visited.insert(e.node) {
                proof {
                    s.scores@ = s.scores@.insert(e.node, e.dist);
                    assert(e == mk(e.node, e.dist));
                }
                let ghost c0 = s.candidates@;
                let ghost r0 = s.results@;
                s.offer(g, e);
                proof {
                    if i == 0 {
                        lemma_insert_desc(c0, e);
                        lemma_insert_asc(r0, e);
                        assert(s.candidates@.contains(e));
                        assert(s.results@.contains(e));
                        assert(s.candidates@ =~= seq![e]);
                        assert(s.results@ =~= seq![e]);
                    }
                }
            }
            proof {
                assert forall|v: u32| #[trigger]
                    s.visited@.contains(v) <==> exists|k: int|
                        0 <= k < i + 1 && (#[trigger] entries@[k]).node == v by {
                    if s.visited@.contains(v) && v != e.node {
                        assert(before.visited@.contains(v));
                        let k = choose|k: int| 0 <= k < i && (#[trigger] entries@[k]).node == v;
                        assert(0 <= k < i + 1);
                    }
                    if v == e.node {
                        assert(entries@[i as int].node == v);
                    }
                }
            }
            i = i + 1;
        }
        s
    }

    /// Offer freshly scored `x` to the candidates and the results.
    fn offer(&mut self, g: &HnswIndex, x: Scored)
        requires
            g.inv(),
            old(self).ef >= 1,
            ascending(old(self).results@),
            descending(old(self).candidates@),
            old(self).results@.len() <= old(self).ef,
            old(self).is_scored(x),
            forall|k: int|
                0 <= k < old(self).results@.len() ==> old(self).is_scored(
                    #[trigger] old(self).results@[k],
                ) && (#[trigger] old(self).results@[k]).node != x.node,
            forall|k: int|
                0 <= k < old(self).candidates@.len() ==> old(self).is_scored(
                    #[trigger] old(self).candidates@[k],
                ) && (#[trigger] old(self).candidates@[k]).node != x.node,
            // top_ef holds for every scored node but x
            old(self).results@.len() < old(self).ef ==> forall|v: u32| #[trigger]
                old(self).scores@.contains_key(v) && v != x.node ==> old(self).results@.contains(
                    mk(v, old(self).scores@[v]),
                ),
            old(self).results@.len() > 0 ==> forall|v: u32| #[trigger]
                old(self).scores@.contains_key(v) && v != x.node && !old(self).results@.contains(
                    mk(v, old(self).scores@[v]),
                ) ==> scored_lt(old(self).results@.last(), mk(v, old(self).scores@[v])),
            forall|v: u32| #[trigger]
                old(self).scores@.contains_key(v) && v != x.node ==> old(self).expanded@.contains(v)
                    || old(self).candidates@.contains(mk(v, old(self).scores@[v])) || beaten(
                    old(self).results@,
                    mk(v, old(self).scores@[v]),
                    old(self).ef,
                ),
        ensures
            final(self).visited == old(self).visited,
            final(self).expanded == old(self).expanded,
            accounted(
                final(self).scores@,
                final(self).expanded@,
                final(self).candidates@,
                final(self).results@,
                final(self).ef,
            ),
            final(self).pending == old(self).pending,
            final(self).layer == old(self).layer,
            final(self).ef == old(self).ef,
            final(self).scores == old(self).scores,
            (final(self).candidates@, final(self).results@) == if competitive(
                old(self).results@,
                x,
                old(self).ef,
            ) {
                (insert_desc(old(self).candidates@, x), bounded_push(old(self).results@, x, old(self).ef))
            } else {
                (old(self).candidates@, old(self).results@)
            },
            ascending(final(self).results@),
            descending(final(self).candidates@),
            final(self).results@.len() <= final(self).ef,
            forall|k: int|
                0 <= k < final(self).results@.len() ==> final(self).is_scored(
                    #[trigger] final(self).results@[k],
                ),
            forall|k: int|
                0 <= k < final(self).candidates@.len() ==> final(self).is_scored(
                    #[trigger] final(self).candidates@[k],
                ),
            final(self).top_ef(),
    {
        let ghost r0 = self.results@;
        let ghost c0 = self.candidates@;
        let ef = self.ef;
        assert(rank_fresh(r0, x)) by {
            assert forall|k: int| 0 <= k < r0.len() implies !same_rank(#[trigger] r0[k], x) by {
                assert(r0[k].node != x.node);
            }
        }
        assert(rank_fresh(c0, x)) by {
            assert forall|k: int| 0 <= k < c0.len() implies !same_rank(#[trigger] c0[k], x) by {
                assert(c0[k].node != x.node);
            }
        }
        let competitive = self.results.len() < ef || x.precedes(
            &self.results[self.results.len() - 1],
        );
        if competitive {
            push_descending(&mut self.candidates, x);
            proof {
                lemma_insert_desc(c0, x);
            }
            push_to_results(&mut self.results, x, ef);
            proof {
                if r0.len() < ef {
                    lemma_insert_asc(r0, x);
                } else {
                    let d = r0.drop_last();
                    assert(ascending(d));
                    assert(rank_fresh(d, x));
                    lemma_insert_asc(d, x);
                    assert forall|y: Scored| #[trigger] d.contains(y) implies r0.contains(y) by {
                        let k = choose|k: int| 0 <= k < d.len() && d[k] == y;
                        assert(r0[k] == y);
                    }
                }
                let r1 = self.results@;
                assert forall|k: int| 0 <= k < r1.len() implies self.is_scored(
                    #[trigger] r1[k],
                ) by {
                    assert(r1.contains(r1[k]));
                    if r1[k] != x {
                        assert(r0.contains(r1[k]));
                    }
                }
                let c1 = self.candidates@;
                assert forall|k: int| 0 <= k < c1.len() implies self.is_scored(
                    #[trigger] c1[k],
                ) by {
                    assert(c1.contains(c1[k]));
                    if c1[k] != x {
                        assert(c0.contains(c1[k]));
                    }
                }
                // best-ef property
                if r0.len() < ef {
                    assert forall|v: u32| #[trigger] self.scores@.contains_key(v) implies r1.contains(
                        mk(v, self.scores@[v]),
                    ) || r1.len() >= ef by {
                        if v != x.node {
                            assert(r0.contains(mk(v, self.scores@[v])));
                        } else {
                            assert(x == mk(v, self.scores@[v]));
                        }
                    }
                    assert forall|v: u32| #[trigger]
                        self.scores@.contains_key(v) && !r1.contains(mk(v, self.scores@[v]))
                            implies scored_lt(r1.last(), mk(v, self.scores@[v])) by {
                        if v != x.node {
                            assert(r0.contains(mk(v, self.scores@[v])));
                        } else {
                            assert(x == mk(v, self.scores@[v]));
                        }
                    }
                    assert forall|v: u32| #[trigger] self.scores@.contains_key(v) implies self.expanded@.contains(v)
                        || c1.contains(mk(v, self.scores@[v])) || beaten(r1, mk(v, self.scores@[v]), ef) by {
                        if v == x.node {
                            assert(x == mk(v, self.scores@[v]));
                        } else if c0.contains(mk(v, self.scores@[v])) {
                        }
                    }
                } else {
                    let w = r0.last();
                    let d = r0.drop_last();
                    assert(r0.contains(w));
                    assert forall|y: Scored| #[trigger] d.contains(y) implies scored_lt(y, w) by {
                        let k = choose|k: int| 0 <= k < d.len() && d[k] == y;
                        assert(r0[k] == y);
                    }
                    assert forall|k: int| 0 <= k < r1.len() implies scored_lt(#[trigger] r1[k], w) by {
                        assert(r1.contains(r1[k]));
                    }
                    assert(r1.len() > 0);
                    assert(scored_lt(r1.last(), w)) by {
                        assert(r1.contains(r1.last()));
                    }
                    assert forall|v: u32| #[trigger]
                        self.scores@.contains_key(v) && !r1.contains(mk(v, self.scores@[v]))
                            implies scored_lt(r1.last(), mk(v, self.scores@[v])) by {
                        let y = mk(v, self.scores@[v]);
                        if v == x.node {
                            assert(x == y);
                        } else if r0.contains(y) {
                            if y == w {
                            } else {
                                let k = choose|k: int| 0 <= k < r0.len() && r0[k] == y;
                                assert(k < r0.len() - 1);
                                assert(d[k] == y);
                            }
                        } else {
                            assert(scored_lt(w, y));
                        }
                    }
                    assert forall|v: u32| #[trigger] self.scores@.contains_key(v) implies self.expanded@.contains(v)
                        || c1.contains(mk(v, self.scores@[v])) || beaten(r1, mk(v, self.scores@[v]), ef) by {
                        let y = mk(v, self.scores@[v]);
                        if v == x.node {
                            assert(x == y);
                        } else if c0.contains(y) {
                        } else if !self.expanded@.contains(v) {
                            assert(beaten(r0, y, ef));
                            assert(!scored_lt(y, w));
                        }
                    }
                }
            }
        } else {
            proof {
                assert(r0.len() >= ef);
                assert(!scored_lt(x, r0.last()));
                assert(!same_rank(r0.last(), x)) by {
                    assert(r0[r0.len() - 1].node != x.node);
                }
                assert forall|v: u32| #[trigger]
                    self.scores@.contains_key(v) && !r0.contains(mk(v, self.scores@[v]))
                        implies scored_lt(r0.last(), mk(v, self.scores@[v])) by {
                    if v == x.node {
                        assert(x == mk(v, self.scores@[v]));
                    }
                }
                assert forall|v: u32| #[trigger] self.scores@.contains_key(v) implies self.expanded@.contains(v)
                    || c0.contains(mk(v, self.scores@[v])) || beaten(r0, mk(v, self.scores@[v]), ef) by {
                    if v == x.node {
                        assert(x == mk(v, self.scores@[v]));
                    }
                }
            }
        }
    }
    /// Expand candidates, nearest first, until one has unvisited neighbours
    /// at this layer (they are marked visited and returned: their distances
    /// are due next) or the search is finished (`None`). An expanded
    /// candidate leaves the candidates and joins the expanded nodes, and
    /// every neighbour it has at this layer is visited. Results and scores
    /// are untouched. When the search is finished, every scored node has
    /// been expanded or is beaten by a full result list.
    pub(crate) fn next_request(&mut self, g: &HnswIndex) -> (r: Option<Vec<u32>>)
        requires
            old(self).inv(g),
            old(self).pending@.len() == 0,
        ensures
            final(self).inv(g),
            final(self).layer == old(self).layer,
            final(self).ef == old(self).ef,
            final(self).scores == old(self).scores,
            final(self).results == old(self).results,
            final(self).candidates@.len() <= old(self).candidates@.len(),
            forall|k: int|
                0 <= k < final(self).candidates@.len() ==> #[trigger] final(self).candidates@[k]
                    == old(self).candidates@[k],
            old(self).expanded@.subset_of(final(self).expanded@),
            old(self).candidates@.len() > 0 && !(old(self).results@.len() >= old(self).ef
                && spec_dist_lt(old(self).results@.last().dist, old(self).candidates@.last().dist))
                ==> final(self).expanded@.contains(old(self).candidates@.last().node),
            r is None ==> final(self).pending@.len() == 0 && final(self).finished() && settled(
                final(self).scores@,
                final(self).expanded@,
                final(self).results@,
                final(self).ef,
            ),
            r matches Some(b) ==> b@ == final(self).pending@ && b@.len() > 0,
    {
        loop
            invariant
                self.inv(g),
                self.pending@.len() == 0,
                self.layer == old(self).layer,
                self.ef == old(self).ef,
                self.scores == old(self).scores,
                self.results == old(self).results,
                self.candidates@.len() <= old(self).candidates@.len(),
                forall|k: int|
                    0 <= k < self.candidates@.len() ==> #[trigger] self.candidates@[k] == old(
                        self,
                    ).candidates@[k],
                old(self).expanded@.subset_of(self.expanded@),
                self.candidates@ == old(self).candidates@ || (old(self).candidates@.len() > 0
                    && self.expanded@.contains(old(self).candidates@.last().node)),
            decreases self.candidates@.len(),
        {
            let clen = self.candidates.len();
            if clen == 0 {
                proof {
                    assert forall|v: u32| #[trigger] self.scores@.contains_key(v) implies self.expanded@.contains(v)
                        || beaten(self.results@, mk(v, self.scores@[v]), self.ef) by {
                        if self.candidates@.contains(mk(v, self.scores@[v])) {
                            let k = choose|k: int| 0 <= k < self.candidates@.len() && self.candidates@[k] == mk(v, self.scores@[v]);
                        }
                    }
                }
                return None;
            }
            let next = self.candidates[clen - 1];
            let rlen = self.results.len();
            if rlen >= self.ef && dist_lt(self.results[rlen - 1].dist, next.dist) {
                proof {
                    let res = self.results@;
                    let cs = self.candidates@;
                    assert forall|v: u32| #[trigger] self.scores@.contains_key(v) implies self.expanded@.contains(v)
                        || beaten(res, mk(v, self.scores@[v]), self.ef) by {
                        let y = mk(v, self.scores@[v]);
                        if cs.contains(y) {
                            let k = choose|k: int| 0 <= k < cs.len() && cs[k] == y;
                            if k < cs.len() - 1 {
                                assert(scored_lt(cs[cs.len() - 1], cs[k]));
                            }
                            assert(res.last().dist < y.dist);
                        }
                    }
                }
                return None;
            }
            let ghost c0 = self.candidates@;
            let ghost e0 = self.expanded@;
            let _ = self.candidates.pop();
            let ghost clen1 = self.candidates@.len();
            assert(self.is_scored(next)) by {
                assert(c0[clen - 1] == next);
            }
            assert(self.visited@.contains(next.node));
            let c = next.node as usize;
            proof {
                assert(g.inv_cols());
                assert(g.layers@[c as int]@.len() == g.node_layer@[c as int] + 1);
                self.expanded@ = self.expanded@.insert(next.node);
                assert forall|v: u32| #[trigger] self.scores@.contains_key(v) implies self.expanded@.contains(v)
                    || self.candidates@.contains(mk(v, self.scores@[v])) || beaten(
                    self.results@,
                    mk(v, self.scores@[v]),
                    self.ef,
                ) by {
                    let y = mk(v, self.scores@[v]);
                    if c0.contains(y) && v != next.node {
                        let k = choose|k: int| 0 <= k < c0.len() && c0[k] == y;
                        assert(k != clen - 1);
                        assert(self.candidates@[k] == y);
                    }
                }
                assert forall|v: u32, k: int|
                    self.expanded@.remove(next.node).contains(v) && 0 <= k < g.adj(v as int, self.layer as int).len()
                        implies self.visited@.contains(#[trigger] g.adj(v as int, self.layer as int)[k]) by {
                    assert(e0.contains(v));
                }
            }
            let adj = &g.layers[c][self.layer as usize];
            let mut j: usize = 0;
            while j < adj.len()
                invariant
                    g.inv(),
                    (c as int) < g.n(),
                    c as int == next.node as int,
                    (self.layer as int) < g.layers@[c as int]@.len(),
                    *adj == g.layers@[c as int]@[self.layer as int],
                    0 <= j <= adj@.len(),
                    self.inv_core(g),
                    neighbours_in(g, self.layer, self.expanded@.remove(next.node), self.visited@),
                    forall|k: int| 0 <= k < j ==> self.visited@.contains(#[trigger] adj@[k]),
                    self.expanded@.contains(next.node),
                    old(self).expanded@.subset_of(self.expanded@),
                    c0 == old(self).candidates@ ==> next == old(self).candidates@.last(),
                    self.candidates@ != old(self).candidates@,
                    old(self).candidates@.len() > 0 && (c0 == old(self).candidates@ || self.expanded@.contains(old(self).candidates@.last().node)),
                    self.layer == old(self).layer,
                    self.ef == old(self).ef,
                    self.scores == old(self).scores,
                    self.results == old(self).results,
                    self.candidates@.len() == clen1,
                    clen1 < old(self).candidates@.len(),
                    forall|k: int|
                        0 <= k < self.candidates@.len() ==> #[trigger] self.candidates@[k] == old(
                            self,
                        ).candidates@[k],
                decreases adj@.len() - j,
            {
                let nb = adj[j];
                proof {
                    assert(nb == g.adj(c as int, self.layer as int)[j as int]);
                }
                let ghost v0 = self.visited@;
                let ghost p0 = self.pending@;
                if self.visited.insert(nb) {
                    self.pending.push(nb);
                    proof {
                        assert forall|v: u32| #[trigger] self.pending@.contains(v) implies v
                            == nb || p0.contains(v) by {
                            if v != nb {
                                let k = choose|k: int| 0 <= k < self.pending@.len() && self.pending@[k] == v;
                                assert(p0[k] == v);
                            }
                        }
                        assert(self.pending@[p0.len() as int] == nb);
                        assert forall|v: u32| #[trigger] self.visited@.contains(v) <==> (
                        self.scores@.contains_key(v) || self.pending@.contains(v)) by {
                            if v == nb {
                                assert(self.pending@.contains(v));
                            } else if p0.contains(v) {
                                let k = choose|k: int| 0 <= k < p0.len() && p0[k] == v;
                                assert(self.pending@[k] == v);
                            }
                        }
                    }
                }
                proof {
                    assert forall|v: u32, k: int|
                        self.expanded@.remove(next.node).contains(v) && 0 <= k < g.adj(v as int, self.layer as int).len()
                            implies self.visited@.contains(#[trigger] g.adj(v as int, self.layer as int)[k]) by {
                        assert(v0.contains(g.adj(v as int, self.layer as int)[k]));
                    }
                    assert forall|k: int| 0 <= k < j + 1 implies self.visited@.contains(#[trigger] adj@[k]) by {
                        if k < j {
                            assert(v0.contains(adj@[k]));
                        }
                    }
                }
                j = j + 1;
            }
            proof {
                assert forall|v: u32, k: int|
                    self.expanded@.contains(v) && 0 <= k < g.adj(v as int, self.layer as int).len()
                        implies self.visited@.contains(#[trigger] g.adj(v as int, self.layer as int)[k]) by {
                    if v == next.node {
                        assert(g.adj(v as int, self.layer as int)[k] == adj@[k]);
                    } else {
                        assert(self.expanded@.remove(next.node).contains(v));
                    }
                }
            }
            if self.pending.len() > 0 {
                let b = self.pending.clone();
                proof {
                    assert(b@ =~= self.pending@);
                }
                return Some(b);
            }
        }
    }

    /// Record the distance keys of the pending nodes (`keys[i]` for
    /// `pending[i]`) and offer each, in order, to the candidates and the
    /// results. Nothing is pending afterwards.
    pub(crate) fn absorb(&mut self, g: &HnswIndex, keys: &Vec<DistKey>)
        requires
            old(self).inv(g),
            keys@.len() == old(self).pending@.len(),
        ensures
            final(self).inv(g),
            final(self).pending@.len() == 0,
            final(self).visited == old(self).visited,
            final(self).expanded == old(self).expanded,
            final(self).layer == old(self).layer,
            final(self).ef == old(self).ef,
            final(self).scores@ == old(self).scores@.union_prefer_right(
                Map::new(
                    |v: u32| old(self).pending@.contains(v),
                    |v: u32| keys@[old(self).pending@.index_of(v)],
                ),
            ),
            (final(self).candidates@, final(self).results@) == absorb_all(
                old(self).candidates@,
                old(self).results@,
                Seq::new(
                    keys@.len(),
                    |i: int| mk(old(self).pending@[i], keys@[i]),
                ),
                old(self).ef,
            ),
    {
        let ghost xs = Seq::new(keys@.len(), |i: int| mk(old(self).pending@[i], keys@[i]));
        let ghost s0 = self.scores@;
        let ghost p0 = self.pending@;
        proof {
            assert(s0.union_prefer_right(
                Map::new(|v: u32| p0.take(0).contains(v), |v: u32| keys@[p0.index_of(v)]),
            ) =~= s0);
            assert(xs.take(0) =~= Seq::<Scored>::empty());
        }
        let mut i: usize = 0;
        while i < self.pending.len()
            invariant
                g.inv(),
                0 <= i <= p0.len(),
                keys@.len() == p0.len(),
                self.pending@ == p0,
                self.visited == old(self).visited,
                self.expanded == old(self).expanded,
                forall|v: u32| #[trigger] self.expanded@.contains(v) ==> self.scores@.contains_key(v),
                accounted(self.scores@, self.expanded@, self.candidates@, self.results@, self.ef),
                self.layer == old(self).layer,
                self.ef == old(self).ef,
                self.ef >= 1,
                xs == Seq::new(keys@.len(), |i: int| mk(p0[i], keys@[i])),
                forall|a: int, b: int| 0 <= a < b < p0.len() ==> #[trigger] p0[a] != #[trigger] p0[b],
                forall|v: u32| #[trigger] p0.contains(v) ==> !s0.contains_key(v),
                self.scores@ == s0.union_prefer_right(
                    Map::new(
                        |v: u32| p0.take(i as int).contains(v),
                        |v: u32| keys@[p0.index_of(v)],
                    ),
                ),
                ascending(self.results@),
                descending(self.candidates@),
                self.results@.len() <= self.ef,
                forall|k: int| 0 <= k < self.results@.len() ==> self.is_scored(#[trigger] self.results@[k]),
                forall|k: int|
                    0 <= k < self.candidates@.len() ==> self.is_scored(#[trigger] self.candidates@[k]),
                self.top_ef(),
                (self.candidates@, self.results@) == absorb_all(
                    old(self).candidates@,
                    old(self).results@,
                    xs.take(i as int),
                    self.ef,
                ),
            decreases p0.len() - i,
        {
            let v = self.pending[i];
            let x = Scored { dist: keys[i], seq: v as u64, node: v };
            proof {
                assert(p0.contains(v));
                assert(!self.scores@.contains_key(v)) by {
                    if self.scores@.contains_key(v) {
                        assert(!s0.contains_key(v));
                        assert(p0.take(i as int).contains(v));
                        let k = choose|k: int| 0 <= k < i && #[trigger] p0.take(i as int)[k] == v;
                        assert(p0[k] == p0[i as int]);
                    }
                }
                self.scores@ = self.scores@.insert(v, keys@[i as int]);
                assert(p0.index_of(v) == i) by {
                    p0.index_of_first_ensures(v);
                    assert(p0[i as int] == v);
                };
                assert(self.scores@ =~= s0.union_prefer_right(
                    Map::new(
                        |w: u32| p0.take(i as int + 1).contains(w),
                        |w: u32| keys@[p0.index_of(w)],
                    ),
                )) by {
                    assert forall|w: u32| #[trigger] p0.take(i as int + 1).contains(w) <==> (
                    p0.take(i as int).contains(w) || w == v) by {
                        if p0.take(i as int + 1).contains(w) {
                            let k = choose|k: int| 0 <= k < i + 1 && #[trigger] p0.take(i as int + 1)[k] == w;
                            if k < i {
                                assert(p0.take(i as int)[k] == w);
                            }
                        }
                        if p0.take(i as int).contains(w) {
                            let k = choose|k: int| 0 <= k < i && #[trigger] p0.take(i as int)[k] == w;
                            assert(p0.take(i as int + 1)[k] == w);
                        }
                        if w == v {
                            assert(p0.take(i as int + 1)[i as int] == w);
                        }
                    }
                }
                assert(x == mk(v, keys@[i as int]));
                assert(xs.take(i as int + 1).drop_last() =~= xs.take(i as int));
                assert(xs.take(i as int + 1).last() == x);
            }
            self.offer(g, x);
            i = i + 1;
        }
        self.pending.clear();
        proof {
            assert(p0.take(p0.len() as int) =~= p0);
            assert(xs.take(p0.len() as int) =~= xs);
            assert forall|v: u32| #[trigger] self.visited@.contains(v) <==> (
            self.scores@.contains_key(v) || self.pending@.contains(v)) by {
                assert(old(self).visited@.contains(v) <==> (s0.contains_key(v) || p0.contains(v)));
            }
            assert forall|v: u32| #[trigger] self.visited@.contains(v) implies (v as int) < g.n()
                && g.node_layer@[v as int] >= self.layer by {
                assert(old(self).visited@.contains(v));
            }
        }
    }

    /// The best result so far, if any.
    pub(crate) fn best(&self) -> (r: Option<Scored>)
        ensures
            self.results@.len() == 0 ==> r is None,
            self.results@.len() > 0 ==> r == Some(self.results@[0]),
    {
        if self.results.len() == 0 {
            None
        } else {
            Some(self.results[0])
        }
    }
}

} // verus!
