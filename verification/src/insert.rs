//! INSERT-NODE (Malkov and Yashunin's Alg 1), run as [`InsertOp`].
//!
//! [`HnswIndex::begin_insert`] files the new node, then the operation
//! greedy-descends from the old entry point through the layers above the new
//! node's top layer (beam width 1), and on every layer from there down to 0
//! runs a beam search of width `ef_construction`, picks the new node's
//! neighbours among the live results with the diverse-neighbour heuristic,
//! links both ways, and trims each neighbour list that grows past its cap
//! (keeping the new node in it). The next layer starts from the whole result
//! list of the layer above.

use iqdb_types::Metadata;
use vstd::prelude::*;

use crate::error::{ConfigFault, HnswError};
use crate::graph::{cap_at_layer, spec_cap, Request};
use crate::heuristic::{
    has_node, heuristic_answered, heuristic_choice, lemma_heuristic_answered_more,
    lemma_heuristic_answered_record, lemma_heuristic_choice_distinct, lemma_pinned_distinct, Answer,
    lemma_pinned_holds_pin,
    lemma_sort_stable_distinct, nodes_of, pinned, pinned_nodes, sort_stable, Heuristic,
};
use crate::idkey::IdKey;
use crate::index::{adj_of, HnswIndex};
use crate::layer_search::{settled, mk, LayerSearch};
use crate::rng::open_draw;
use crate::scored::{ascending, distinct_nodes, DistKey, Scored};
use crate::search::best_of;

verus! {

/// The scored nodes of `w` that may become neighbours of `node`: not
/// tombstoned and not `node` itself, in order.
pub open spec fn keep_live(w: Seq<Scored>, tomb: Seq<bool>, node: u32) -> Seq<Scored>
    decreases w.len(),
{
    if w.len() == 0 {
        w
    } else {
        let r = keep_live(w.drop_last(), tomb, node);
        let x = w.last();
        if !tomb[x.node as int] && x.node != node {
            r.push(x)
        } else {
            r
        }
    }
}

proof fn lemma_keep_live(w: Seq<Scored>, tomb: Seq<bool>, node: u32)
    ensures
        forall|y: Scored| #[trigger]
            keep_live(w, tomb, node).contains(y) ==> w.contains(y) && !tomb[y.node as int]
                && y.node != node,
    decreases w.len(),
{
    if w.len() > 0 {
        lemma_keep_live(w.drop_last(), tomb, node);
        assert forall|y: Scored| #[trigger]
            keep_live(w, tomb, node).contains(y) implies w.contains(y) && !tomb[y.node as int]
            && y.node != node by {
            let r = keep_live(w.drop_last(), tomb, node);
            if r.contains(y) {
                let k = choose|k: int| 0 <= k < w.drop_last().len() && w.drop_last()[k] == y;
                assert(w[k] == y);
            } else {
                assert(y == w.last());
                assert(w[w.len() - 1] == y);
            }
        }
    }
}

proof fn lemma_keep_live_distinct(w: Seq<Scored>, tomb: Seq<bool>, node: u32)
    requires
        distinct_nodes(w),
    ensures
        distinct_nodes(keep_live(w, tomb, node)),
    decreases w.len(),
{
    if w.len() > 0 {
        let d = w.drop_last();
        assert(distinct_nodes(d)) by {
            assert forall|i: int, j: int| 0 <= i < j < d.len() implies (#[trigger] d[i]).node != (
            #[trigger] d[j]).node by {
                assert(d[i] == w[i] && d[j] == w[j]);
            }
        }
        lemma_keep_live_distinct(d, tomb, node);
        lemma_keep_live(d, tomb, node);
        let r = keep_live(d, tomb, node);
        let x = w.last();
        if !tomb[x.node as int] && x.node != node {
            assert forall|i: int, j: int| 0 <= i < j < r.push(x).len() implies (#[trigger] r.push(
                x,
            )[i]).node != (#[trigger] r.push(x)[j]).node by {
                if j == r.len() {
                    assert(r.contains(r[i]));
                    let q = choose|q: int| 0 <= q < d.len() && d[q] == r[i];
                    assert(w[q] == d[q]);
                } else {
                    assert(r.push(x)[i] == r[i] && r.push(x)[j] == r[j]);
                }
            }
        }
    }
}

/// Every element of `w` is an existing node sitting on layer `lc`, with its
/// sequence number.
pub(crate) open spec fn sits(g: &HnswIndex, w: Seq<Scored>, lc: int) -> bool {
    forall|k: int|
        0 <= k < w.len() ==> {
            let x = #[trigger] w[k];
            &&& (x.node as int) < g.n()
            &&& x.seq == x.node as u64
            &&& g.node_layer@[x.node as int] >= lc
        }
}

/// [`sits`], and no element is `node`.
pub(crate) open spec fn linkable(g: &HnswIndex, w: Seq<Scored>, lc: int, node: u32) -> bool {
    &&& sits(g, w, lc)
    &&& forall|k: int| 0 <= k < w.len() ==> (#[trigger] w[k]).node != node
}

/// `base` has one list per layer of each node of `node_layer`, and none of
/// its lists holds `node`.
pub(crate) open spec fn base_clear(base: Seq<Vec<Vec<u32>>>, node: u32, node_layer: Seq<u8>) -> bool {
    &&& base.len() == node_layer.len()
    &&& forall|x: int| 0 <= x < base.len() ==> #[trigger] base[x]@.len() == node_layer[x] + 1
    &&& forall|x: int, l: int, q: int|
        0 <= x < base.len() && 0 <= l < base[x]@.len() && 0 <= q < base[x]@[l]@.len()
            ==> #[trigger] base[x]@[l]@[q] != node
    &&& (node as int) < base.len()
    &&& forall|l: int| 0 <= l < base[node as int]@.len() ==> #[trigger] base[node as int]@[l]@.len() == 0
}

/// The beam search on layer `l` explored as far as the algorithm demands:
/// each node in `explored` (the nodes it expanded) is an existing node on
/// `l` that was scored in `scores`, each of its neighbours at `l` in `base`
/// was scored, and each scored node it did not expand is beaten by the
/// results `res` (see [`settled`]).
pub(crate) open spec fn explored_ok(
    base: Seq<Vec<Vec<u32>>>,
    scores: Map<u32, DistKey>,
    res: Seq<Scored>,
    explored: Set<u32>,
    ef: usize,
    l: int,
) -> bool {
    &&& forall|v: u32| #[trigger]
        explored.contains(v) ==> scores.contains_key(v) && (v as int) < base.len() && 0 <= l
            < base[v as int]@.len()
    &&& forall|v: u32, q: int|
        explored.contains(v) && 0 <= q < base[v as int]@[l]@.len() ==> scores.contains_key(
            #[trigger] base[v as int]@[l]@[q],
        )
    &&& settled(scores, explored, res, ef)
}

/// [`explored_ok`] for each layer above `lc` up to `ltop`, by what was
/// logged for it.
pub(crate) open spec fn explored_above(
    base: Seq<Vec<Vec<u32>>>,
    log: Map<int, LayerRecord>,
    explored: Map<int, Set<u32>>,
    ef: usize,
    ltop: int,
    lc: int,
) -> bool {
    forall|l: int|
        lc < l <= ltop ==> #[trigger] explored_ok(base, log[l].1, log[l].0, explored[l], ef, l)
}

/// Every distance the heuristic recorded on each layer in `log` was given
/// in `hist` for its pair (see [`heuristic_answered`]); the heuristic walked
/// the live results other than `node`, in order.
pub open spec fn log_answered(
    hist: Seq<Answer>,
    log: Map<int, LayerRecord>,
    tomb: Seq<bool>,
    node: u32,
    m: usize,
) -> bool {
    forall|l: int| #[trigger]
        log.contains_key(l) ==> heuristic_answered(
            hist,
            sort_stable(keep_live(log[l].0, tomb, node)),
            log[l].2,
            spec_cap(m, l as u8) as usize,
        )
}

/// The candidates a trim's heuristic walked, as recorded for one linked
/// neighbour (none when its list was not trimmed).
pub open spec fn trim_walk(r: LinkRecord) -> Seq<Scored> {
    match r.1 {
        Some((c, _)) => c,
        None => Seq::empty(),
    }
}

/// The distances a trim's heuristic was given, as recorded for one linked
/// neighbour (none when its list was not trimmed).
pub open spec fn trim_answers(r: LinkRecord) -> Map<(int, int), DistKey> {
    match r.1 {
        Some((_, a)) => a,
        None => Map::empty(),
    }
}

/// Every distance a trim's heuristic recorded in `links` was given in `hist`
/// for its pair (see [`heuristic_answered`]); the heuristic walked the trim's
/// candidates in order.
pub open spec fn links_answered(hist: Seq<Answer>, links: Map<(int, int), LinkRecord>, m: usize) -> bool {
    forall|p: (int, int)| #[trigger]
        links.contains_key(p) && links[p].1 is Some ==> heuristic_answered(
            hist,
            sort_stable(trim_walk(links[p])),
            trim_answers(links[p]),
            spec_cap(m, p.0 as u8) as usize,
        )
}

/// The node a request was measured from (`None`: the vector being inserted).
pub open spec fn asked_from(a: Answer) -> Option<u32> {
    let r = a.0;
    r.0
}

/// The nodes a request was measured to.
pub open spec fn asked_to(a: Answer) -> Seq<u32> {
    let r = a.0;
    r.1
}

/// The keys given for a request, one per node measured to.
pub open spec fn given(a: Answer) -> Seq<DistKey> {
    a.1
}

/// Key `k` was given, in one of the answers of `hist`, as the distance from
/// `from` (`None`: the vector being inserted) to node `to`.
pub open spec fn answered(hist: Seq<Answer>, from: Option<u32>, to: u32, k: DistKey) -> bool {
    exists|t: int, q: int|
        0 <= t < hist.len() && 0 <= q < asked_to(hist[t]).len() && q < given(hist[t]).len()
            && #[trigger] asked_to(hist[t])[q] == to && asked_from(hist[t]) == from && given(hist[t])[q]
            == k
}

/// Every key in `scores` is one the caller gave for the distance from the
/// vector being inserted to that node.
pub open spec fn scores_answered(hist: Seq<Answer>, scores: Map<u32, DistKey>) -> bool {
    forall|v: u32| #[trigger] scores.contains_key(v) ==> answered(hist, None, v, scores[v])
}

/// The scores logged for every layer were given by the caller.
pub open spec fn log_scores_answered(hist: Seq<Answer>, log: Map<int, LayerRecord>) -> bool {
    forall|l: int| #[trigger] log.contains_key(l) ==> scores_answered(hist, log[l].1)
}

/// More answers keep an answered key answered.
proof fn lemma_answered_more(hist: Seq<Answer>, x: Answer, from: Option<u32>, to: u32, k: DistKey)
    requires
        answered(hist, from, to, k),
    ensures
        answered(hist.push(x), from, to, k),
{
    let (t, q) = choose|t: int, q: int|
        0 <= t < hist.len() && 0 <= q < asked_to(hist[t]).len() && q < given(hist[t]).len()
            && #[trigger] asked_to(hist[t])[q] == to && asked_from(hist[t]) == from && given(hist[t])[q]
            == k;
    assert(hist.push(x)[t] == hist[t]);
}

/// More answers keep answered scores answered.
proof fn lemma_scores_answered_more(hist: Seq<Answer>, x: Answer, scores: Map<u32, DistKey>)
    requires
        scores_answered(hist, scores),
    ensures
        scores_answered(hist.push(x), scores),
{
    assert forall|v: u32| #[trigger] scores.contains_key(v) implies answered(hist.push(x), None, v, scores[v]) by {
        lemma_answered_more(hist, x, None, v, scores[v]);
    }
}

/// The last answer of `hist` gives `keys[q]` for `to[q]`.
proof fn lemma_answered_last(hist: Seq<Answer>, from: Option<u32>, to: Seq<u32>, keys: Seq<DistKey>, q: int)
    requires
        hist.len() > 0,
        hist.last() == ((from, to), keys),
        0 <= q < to.len(),
        q < keys.len(),
    ensures
        answered(hist, from, to[q], keys[q]),
{
    let t = hist.len() - 1;
    assert(asked_to(hist[t]) == to);
    assert(given(hist[t]) == keys);
    assert(asked_to(hist[t])[q] == to[q]);
}

/// More answers keep the logged distances answered.
proof fn lemma_log_scores_answered_more(hist: Seq<Answer>, x: Answer, log: Map<int, LayerRecord>)
    requires
        log_scores_answered(hist, log),
    ensures
        log_scores_answered(hist.push(x), log),
{
    assert forall|l: int| #[trigger] log.contains_key(l) implies scores_answered(hist.push(x), log[l].1) by {
        lemma_scores_answered_more(hist, x, log[l].1);
    }
}

proof fn lemma_logged_answered_more(
    hist: Seq<Answer>,
    x: Answer,
    log: Map<int, LayerRecord>,
    links: Map<(int, int), LinkRecord>,
    tomb: Seq<bool>,
    node: u32,
    m: usize,
)
    requires
        log_answered(hist, log, tomb, node, m),
        links_answered(hist, links, m),
    ensures
        log_answered(hist.push(x), log, tomb, node, m),
        links_answered(hist.push(x), links, m),
{
    assert forall|l: int| #[trigger] log.contains_key(l) implies heuristic_answered(
        hist.push(x),
        sort_stable(keep_live(log[l].0, tomb, node)),
        log[l].2,
        spec_cap(m, l as u8) as usize,
    ) by {
        lemma_heuristic_answered_more(
            hist,
            x,
            sort_stable(keep_live(log[l].0, tomb, node)),
            log[l].2,
            spec_cap(m, l as u8) as usize,
        );
    }
    assert forall|p: (int, int)| #[trigger] links.contains_key(p) && links[p].1 is Some implies heuristic_answered(
        hist.push(x),
        sort_stable(trim_walk(links[p])),
        trim_answers(links[p]),
        spec_cap(m, p.0 as u8) as usize,
    ) by {
        lemma_heuristic_answered_more(
            hist,
            x,
            sort_stable(trim_walk(links[p])),
            trim_answers(links[p]),
            spec_cap(m, p.0 as u8) as usize,
        );
    }
}

/// A running heuristic has recorded nothing past its current candidate.
pub(crate) open spec fn rows_upto(h: Heuristic) -> bool {
    !h.done ==> forall|p: (int, int)| #[trigger] h.ans@.contains_key(p) ==> p.0 <= h.i
}

/// `node` has no neighbour at any layer `0..=upto`.
pub(crate) open spec fn lists_empty(g: &HnswIndex, node: u32, upto: int) -> bool {
    forall|l: int| 0 <= l <= upto ==> #[trigger] g.adj(node as int, l).len() == 0
}

/// At layer `l`, every neighbour of `node` is live and lists `node` back.
pub(crate) open spec fn backed(g: &HnswIndex, node: u32, l: int) -> bool {
    forall|q: int|
        0 <= q < g.adj(node as int, l).len() ==> {
            let s = #[trigger] g.adj(node as int, l)[q];
            &&& !g.tombstoned@[s as int]
            &&& g.adj(s as int, l).contains(node)
        }
}

/// [`backed`] at every layer above `lc` up to `top`.
pub(crate) open spec fn backed_above(g: &HnswIndex, node: u32, lc: int, top: int) -> bool {
    forall|l: int| lc < l <= top ==> #[trigger] backed(g, node, l)
}

/// No element of `w` is tombstoned.
pub(crate) open spec fn all_live(g: &HnswIndex, w: Seq<Scored>) -> bool {
    forall|k: int| 0 <= k < w.len() ==> !g.tombstoned@[(#[trigger] w[k]).node as int]
}

/// Lists left alone at every layer but `lc` keep [`backed_above`].
proof fn lemma_backed_above_frame(g0: &HnswIndex, g1: &HnswIndex, node: u32, lc: int, top: int)
    requires
        g0.inv(),
        (node as int) < g0.n(),
        lc >= -1,
        top <= g0.node_layer@[node as int],
        backed_above(g0, node, lc, top),
        g1.tombstoned@ == g0.tombstoned@,
        forall|a: int, b: int|
            0 <= a < g0.n() && 0 <= b < g0.layers@[a]@.len() && b != lc ==> #[trigger] g1.adj(a, b)
                == g0.adj(a, b),
    ensures
        backed_above(g1, node, lc, top),
{
    assert forall|l: int| lc < l <= top implies #[trigger] backed(g1, node, l) by {
        assert(backed(g0, node, l));
        assert(g0.layers@[node as int]@.len() == g0.node_layer@[node as int] + 1);
        assert(g1.adj(node as int, l) == g0.adj(node as int, l));
        assert forall|q: int| 0 <= q < g1.adj(node as int, l).len() implies {
            let s = #[trigger] g1.adj(node as int, l)[q];
            &&& !g1.tombstoned@[s as int]
            &&& g1.adj(s as int, l).contains(node)
        } by {
            let s = g0.adj(node as int, l)[q];
            assert(adj_of(g0.layers@, node as int, l)[q] == s);
            assert(g0.layers@[s as int]@.len() == g0.node_layer@[s as int] + 1);
            assert(g1.adj(s as int, l) == g0.adj(s as int, l));
        }
    }
}

/// Lists left alone on every layer above `lc` keep [`linked_above`].
proof fn lemma_linked_above_frame(
    g0: &HnswIndex,
    g1: &HnswIndex,
    node: u32,
    log: Map<int, LayerRecord>,
    links: Map<(int, int), LinkRecord>,
    ef: usize,
    m: usize,
    layer: u8,
    ltop: int,
    lc: int,
)
    requires
        linked_above(g0, node, log, links, ef, m, layer, ltop, lc),
        lc <= ltop <= layer,
        g0.inv(),
        (node as int) < g0.n(),
        g0.node_layer@[node as int] == layer,
        g1.n() == g0.n(),
        g1.node_layer@ == g0.node_layer@,
        g1.tombstoned@ == g0.tombstoned@,
        forall|x: int, l: int|
            0 <= x < g0.n() && lc < l <= g0.node_layer@[x] ==> #[trigger] g1.adj(x, l) == g0.adj(x, l),
    ensures
        linked_above(g1, node, log, links, ef, m, layer, ltop, lc),
{
    g0.reveal_wf();
    g1.reveal_wf();
    assert forall|l: int| lc < l <= ltop implies #[trigger] layer_linked(
        g1,
        node,
        log,
        links,
        ef,
        m,
        l,
    ) by {
        assert(layer_linked(g0, node, log, links, ef, m, l));
        assert(g1.adj(node as int, l) == g0.adj(node as int, l));
        let choice = layer_choice(log[l].0, g0.tombstoned@, node, log[l].2, m, l);
        assert forall|i: int| 0 <= i < choice.len() implies #[trigger] link_done(
            g1,
            node,
            links,
            m,
            l,
            i,
            choice[i].node,
        ) by {
            assert(link_done(g0, node, links, m, l, i, choice[i].node));
            assert(g1.adj(choice[i].node as int, l) == g0.adj(choice[i].node as int, l));
        }
    }
    assert forall|l: int| ltop < l <= layer implies #[trigger] g1.adj(node as int, l).len() == 0 by {
        assert(g0.adj(node as int, l).len() == 0);
        assert(g1.adj(node as int, l) == g0.adj(node as int, l));
    }
}

/// Lists at layer `lc` of nodes other than `x` left alone keep what the
/// first `upto` links recorded.
proof fn lemma_links_frame(
    g0: &HnswIndex,
    g1: &HnswIndex,
    node: u32,
    links0: Map<(int, int), LinkRecord>,
    links1: Map<(int, int), LinkRecord>,
    m: usize,
    lc: int,
    chosen: Seq<Scored>,
    upto: int,
    x: u32,
)
    requires
        g0.inv(),
        0 <= lc,
        0 <= upto <= chosen.len(),
        forall|j: int|
            0 <= j < upto ==> #[trigger] link_done(g0, node, links0, m, lc, j, chosen[j].node),
        forall|j: int| 0 <= j < upto ==> (#[trigger] chosen[j]).node != x,
        forall|j: int|
            0 <= j < upto ==> #[trigger] links1.contains_key((lc, j)) && links1[(lc, j)] == links0[(
                lc,
                j,
            )],
        g1.n() == g0.n(),
        g1.node_layer@ == g0.node_layer@,
        forall|y: int|
            0 <= y < g0.n() && y != x && lc <= g0.node_layer@[y] ==> #[trigger] g1.adj(y, lc)
                == g0.adj(y, lc),
    ensures
        forall|j: int|
            0 <= j < upto ==> #[trigger] link_done(g1, node, links1, m, lc, j, chosen[j].node),
{
    g0.reveal_wf();
    g1.reveal_wf();
    assert forall|j: int| 0 <= j < upto implies #[trigger] link_done(
        g1,
        node,
        links1,
        m,
        lc,
        j,
        chosen[j].node,
    ) by {
        assert(link_done(g0, node, links0, m, lc, j, chosen[j].node));
        assert(links1.contains_key((lc, j)));
        assert(g1.adj(chosen[j].node as int, lc) == g0.adj(chosen[j].node as int, lc));
    }
}

/// Recording a link on layer `lc` keeps [`linked_above`] `lc`.
proof fn lemma_linked_above_record(
    g: &HnswIndex,
    node: u32,
    log: Map<int, LayerRecord>,
    links: Map<(int, int), LinkRecord>,
    ef: usize,
    m: usize,
    layer: u8,
    ltop: int,
    lc: int,
    i: int,
    rec: LinkRecord,
)
    requires
        linked_above(g, node, log, links, ef, m, layer, ltop, lc),
    ensures
        linked_above(g, node, log, links.insert((lc, i), rec), ef, m, layer, ltop, lc),
{
    let links2 = links.insert((lc, i), rec);
    assert forall|l: int| lc < l <= ltop implies #[trigger] layer_linked(
        g,
        node,
        log,
        links2,
        ef,
        m,
        l,
    ) by {
        assert(layer_linked(g, node, log, links, ef, m, l));
        let choice = layer_choice(log[l].0, g.tombstoned@, node, log[l].2, m, l);
        assert forall|j: int| 0 <= j < choice.len() implies #[trigger] link_done(
            g,
            node,
            links2,
            m,
            l,
            j,
            choice[j].node,
        ) by {
            assert(link_done(g, node, links, m, l, j, choice[j].node));
            assert(links2[(l, j)] == links[(l, j)]);
        }
    }
}

/// No list of `node` at a layer in `(lc, top]` has an entry.
proof fn lemma_backed_above_empty(g: &HnswIndex, node: u32, lc: int, top: int)
    requires
        lists_empty(g, node, top),
        lc >= -1,
    ensures
        backed_above(g, node, lc, top),
{
    assert forall|l: int| lc < l <= top implies #[trigger] backed(g, node, l) by {
        assert(g.adj(node as int, l).len() == 0);
    }
}

/// The trim of one neighbour list that outgrew its cap.
pub struct Trim {
    pub(crate) s: u32,
    pub(crate) list: Vec<u32>,
    pub(crate) select: Option<(Vec<Scored>, Heuristic)>,
}

/// Where an insertion stands.
pub enum Stage {
    /// Waiting for the distance to the old entry point.
    Entry,
    /// Greedy descent at a layer above the new node's top layer.
    Descent(u8, LayerSearch),
    /// Beam search at a layer the new node sits on.
    Search(u8, LayerSearch),
    /// Choosing the new node's neighbours among the search results.
    Select(u8, Vec<Scored>, Heuristic),
    /// Linking the chosen neighbours (the search results, the chosen, how
    /// many are linked, the trim under way).
    Link(u8, Vec<Scored>, Vec<Scored>, usize, Option<Trim>),
    /// Finished.
    Done,
}

/// What linking one layer recorded: its beam search results, the nodes that
/// search scored with their keys, and the distances the heuristic was given.
pub type LayerRecord = (Seq<Scored>, Map<u32, DistKey>, Map<(int, int), DistKey>);

/// What linking one chosen neighbour recorded: its list before the new node
/// was added, and, when the list then outgrew its cap, the trim's candidates
/// (the list with the new node, scored from the neighbour) and the distances
/// its heuristic was given.
pub type LinkRecord = (Seq<u32>, Option<(Seq<Scored>, Map<(int, int), DistKey>)>);

/// The list of neighbour `s` (the `i`-th chosen on layer `l`) after `node`
/// was linked to it: its old list with `node` appended when that fits the
/// cap, else the heuristic's choice over the scored list with `node` pinned
/// in. `s` is an existing node that sits on layer `l`.
pub open spec fn link_done(
    g: &HnswIndex,
    node: u32,
    links: Map<(int, int), LinkRecord>,
    m: usize,
    l: int,
    i: int,
    s: u32,
) -> bool {
    let cap = spec_cap(m, l as u8) as usize;
    let prev = links[(l, i)].0;
    &&& (s as int) < g.spec_node_count()
    &&& g.node_layers()[s as int] >= l
    &&& links.contains_key((l, i))
    &&& match links[(l, i)].1 {
        None => {
            &&& prev.len() + 1 <= cap
            &&& g.neighbours(s as int, l) == prev.push(node)
        },
        Some((cands, ans)) => {
            &&& prev.len() + 1 > cap
            &&& nodes_of(cands) == prev.push(node)
            &&& g.neighbours(s as int, l) == nodes_of(
                pinned(heuristic_choice(sort_stable(cands), ans, cap), cands, node, cap),
            )
        },
    }
}

/// Layer `l` was linked for `node`: the layer's search results and scores
/// and the heuristic's answers are logged, the results are the best `ef` of
/// the scored nodes, `node`'s list is the heuristic's choice, and each
/// chosen neighbour's list is as [`link_done`] says.
pub(crate) open spec fn layer_linked(
    g: &HnswIndex,
    node: u32,
    log: Map<int, LayerRecord>,
    links: Map<(int, int), LinkRecord>,
    ef: usize,
    m: usize,
    l: int,
) -> bool {
    let choice = layer_choice(log[l].0, g.tombstoned@, node, log[l].2, m, l);
    &&& log.contains_key(l)
    &&& ascending(log[l].0)
    &&& best_of(log[l].0, log[l].1, ef)
    &&& g.adj(node as int, l) == nodes_of(choice)
    &&& forall|i: int| 0 <= i < choice.len() ==> #[trigger] link_done(g, node, links, m, l, i, choice[i].node)
}

/// Every layer above `lc` up to `ltop` was linked for `node`, and `node` has
/// no neighbour on a layer above `ltop` up to its top layer `layer`.
pub(crate) open spec fn linked_above(
    g: &HnswIndex,
    node: u32,
    log: Map<int, LayerRecord>,
    links: Map<(int, int), LinkRecord>,
    ef: usize,
    m: usize,
    layer: u8,
    ltop: int,
    lc: int,
) -> bool {
    &&& forall|l: int| lc < l <= ltop ==> #[trigger] layer_linked(g, node, log, links, ef, m, l)
    &&& forall|l: int| ltop < l <= layer ==> #[trigger] g.adj(node as int, l).len() == 0
}

/// Node `x`'s list at layer `l` may have been rewritten while linking
/// `node`: `l` is a linked layer above `lc` and `x` is among that layer's
/// chosen neighbours, or `l` is `lc` and `x` is in `cur`.
pub(crate) open spec fn touched(
    g: &HnswIndex,
    node: u32,
    log: Map<int, LayerRecord>,
    m: usize,
    ltop: int,
    lc: int,
    cur: Seq<u32>,
    x: int,
    l: int,
) -> bool {
    ||| (lc < l <= ltop && nodes_of(
        layer_choice(log[l].0, g.tombstoned@, node, log[l].2, m, l),
    ).contains(x as u32))
    ||| (l == lc && cur.contains(x as u32))
}

/// Every list of a node other than `node` that was not [`touched`] is as
/// it was in `base`.
pub(crate) open spec fn others_kept(
    g: &HnswIndex,
    node: u32,
    base: Seq<Vec<Vec<u32>>>,
    log: Map<int, LayerRecord>,
    m: usize,
    ltop: int,
    lc: int,
    cur: Seq<u32>,
) -> bool {
    forall|x: int, l: int|
        0 <= x < g.n() && x != node && 0 <= l <= g.node_layer@[x] && !touched(
            g,
            node,
            log,
            m,
            ltop,
            lc,
            cur,
            x,
            l,
        ) ==> #[trigger] g.adj(x, l) == base[x]@[l]@
}

/// Rewriting `node`'s list, or a list of a node that joins `cur`, keeps
/// [`others_kept`].
proof fn lemma_others_kept_set(
    g0: &HnswIndex,
    g1: &HnswIndex,
    node: u32,
    base: Seq<Vec<Vec<u32>>>,
    log: Map<int, LayerRecord>,
    m: usize,
    ltop: int,
    lc: int,
    cur0: Seq<u32>,
    cur1: Seq<u32>,
    y: int,
)
    requires
        others_kept(g0, node, base, log, m, ltop, lc, cur0),
        y == node || cur1.contains(y as u32),
        forall|z: u32| cur0.contains(z) ==> cur1.contains(z),
        g1.n() == g0.n(),
        g1.node_layer@ == g0.node_layer@,
        g1.tombstoned@ == g0.tombstoned@,
        forall|x: int, l: int|
            0 <= x < g0.n() && 0 <= l <= g0.node_layer@[x] && (x, l) != (y, lc) ==> #[trigger] g1.adj(
                x,
                l,
            ) == g0.adj(x, l),
    ensures
        others_kept(g1, node, base, log, m, ltop, lc, cur1),
{
    assert forall|x: int, l: int|
        0 <= x < g1.n() && x != node && 0 <= l <= g1.node_layer@[x] && !touched(
            g1,
            node,
            log,
            m,
            ltop,
            lc,
            cur1,
            x,
            l,
        ) implies #[trigger] g1.adj(x, l) == base[x]@[l]@ by {
        assert((x, l) != (y, lc));
        assert(!touched(g0, node, log, m, ltop, lc, cur0, x, l));
        assert(g1.adj(x, l) == g0.adj(x, l));
    }
}

/// Moving below a layer whose chosen neighbours were all linked keeps
/// [`others_kept`].
proof fn lemma_others_kept_down(
    g: &HnswIndex,
    node: u32,
    base: Seq<Vec<Vec<u32>>>,
    log: Map<int, LayerRecord>,
    m: usize,
    ltop: int,
    lc: int,
    chosen: Seq<Scored>,
)
    requires
        others_kept(g, node, base, log, m, ltop, lc, nodes_of(chosen)),
        lc <= ltop,
        chosen == layer_choice(log[lc].0, g.tombstoned@, node, log[lc].2, m, lc),
    ensures
        others_kept(g, node, base, log, m, ltop, lc - 1, Seq::empty()),
{
    assert forall|x: int, l: int|
        0 <= x < g.n() && x != node && 0 <= l <= g.node_layer@[x] && !touched(
            g,
            node,
            log,
            m,
            ltop,
            lc - 1,
            Seq::empty(),
            x,
            l,
        ) implies #[trigger] g.adj(x, l) == base[x]@[l]@ by {
        assert(!touched(g, node, log, m, ltop, lc, nodes_of(chosen), x, l));
    }
}

/// An insertion in progress; see the module documentation.
pub struct InsertOp {
    pub(crate) node: u32,
    pub(crate) layer: u8,
    pub(crate) entry: u32,
    pub(crate) top: u8,
    pub(crate) ef: usize,
    pub(crate) m: usize,
    pub(crate) cur: Scored,
    pub(crate) stage: Stage,
    pub(crate) scores: Ghost<Map<u32, DistKey>>,
    pub(crate) log: Ghost<Map<int, LayerRecord>>,
    pub(crate) links: Ghost<Map<(int, int), LinkRecord>>,
    pub(crate) base: Ghost<Seq<Vec<Vec<u32>>>>,
    pub(crate) explored: Ghost<Map<int, Set<u32>>>,
    pub(crate) hist: Ghost<Seq<Answer>>,
}

/// The neighbours the heuristic picks for `node` at layer `l` (cap from
/// `m`) out of the layer's search results `w`, by the distances `ans` it was
/// given: the live results other than `node`, nearest first, thinned by the
/// heuristic.
pub open spec fn layer_choice(
    w: Seq<Scored>,
    tomb: Seq<bool>,
    node: u32,
    ans: Map<(int, int), DistKey>,
    m: usize,
    l: int,
) -> Seq<Scored> {
    heuristic_choice(sort_stable(keep_live(w, tomb, node)), ans, spec_cap(m, l as u8) as usize)
}

/// Order of the stages in time, latest lowest.
pub open spec fn major(st: Stage) -> int {
    match st {
        Stage::Entry => 1032int,
        Stage::Descent(lc, _) => 4 * lc + 3,
        Stage::Search(lc, _) => 4 * lc + 3,
        Stage::Select(lc, _, _) => 4 * lc + 2,
        Stage::Link(lc, _, _, _, _) => 4 * lc + 1,
        Stage::Done => 0int,
    }
}

/// No distances are awaited by the stage's beam search.
pub(crate) open spec fn fresh(st: Stage) -> bool {
    match st {
        Stage::Descent(_, ls) => ls.pending@.len() == 0,
        Stage::Search(_, ls) => ls.pending@.len() == 0,
        _ => true,
    }
}

/// Progress within a stage.
pub open spec fn minor(st: Stage) -> int {
    match st {
        Stage::Link(_, _, chosen, i, _) => chosen@.len() - i,
        _ => 0int,
    }
}

impl Trim {
    pub(crate) open spec fn inv(&self, g: &HnswIndex, lc: u8, node: u32, cap: int) -> bool {
        &&& self.list@ == g.adj(self.s as int, lc as int).push(node)
        &&& self.list@.no_duplicates()
        &&& self.list@.len() > cap
        &&& match self.select {
            None => true,
            Some((cands, h)) => {
                &&& h.inv()
                &&& (h.waiting() || h.done)
                &&& h.m_max == cap
                &&& h.candidates@ == cands@
                &&& cands@.len() == self.list@.len()
                &&& forall|k: int| 0 <= k < cands@.len() ==> (#[trigger] cands@[k]).node == self.list@[k]
            },
        }
    }

    pub(crate) open spec fn resting(&self) -> bool {
        match self.select {
            None => true,
            Some((_, h)) => h.waiting(),
        }
    }
}

impl InsertOp {
    /// The highest layer the operation links the new node on: none (`-1`)
    /// for the first node, else the lower of its top layer and the old top
    /// layer.
    pub(crate) open spec fn linked_top(&self) -> int {
        if self.entry == self.node {
            -1
        } else if self.layer < self.top {
            self.layer as int
        } else {
            self.top as int
        }
    }

    /// [`others_kept`] for this operation.
    pub(crate) open spec fn kept_from(&self, g: &HnswIndex, lc: int, cur: Seq<u32>) -> bool {
        others_kept(g, self.node, self.base@, self.log@, self.m, self.linked_top(), lc, cur)
    }

    /// [`linked_above`] for this operation.
    pub(crate) open spec fn linked_from(&self, g: &HnswIndex, lc: int) -> bool {
        linked_above(g, self.node, self.log@, self.links@, self.ef, self.m, self.layer, self.linked_top(), lc)
    }

    /// What holds at every stage.
    pub(crate) open spec fn base_ok(&self, g: &HnswIndex) -> bool {
        &&& g.inv()
        &&& (self.node as int) < g.n()
        &&& g.node_layer@[self.node as int] == self.layer
        &&& self.ef == g.cfg.ef_construction
        &&& self.ef >= 1
        &&& self.m == g.cfg.m
        &&& self.m >= 1
        &&& 2 * self.m <= usize::MAX
        &&& base_clear(self.base@, self.node, g.node_layer@)
        &&& log_answered(self.hist@, self.log@, g.tombstoned@, self.node, self.m)
        &&& links_answered(self.hist@, self.links@, self.m)
        &&& log_scores_answered(self.hist@, self.log@)
    }

    /// What holds while linking at layer `lc`: `i` of `chosen` are linked,
    /// and `trim` is the trim of the next one's list, if under way.
    pub(crate) open spec fn link_ok(
        &self,
        g: &HnswIndex,
        lc: u8,
        w: Vec<Scored>,
        chosen: Vec<Scored>,
        i: usize,
        trim: Option<Trim>,
    ) -> bool {
        &&& lc <= self.layer
        &&& sits(g, w@, lc as int)
        &&& linkable(g, chosen@, lc as int, self.node)
        &&& all_live(g, chosen@)
        &&& backed_above(g, self.node, lc as int, self.layer as int)
        &&& forall|q: int|
            0 <= q < g.adj(self.node as int, lc as int).len() ==> {
                let s = #[trigger] g.adj(self.node as int, lc as int)[q];
                &&& !g.tombstoned@[s as int]
                &&& (g.adj(s as int, lc as int).contains(self.node) || (trim matches Some(t)
                    && t.s == s))
            }
        &&& chosen@.len() <= spec_cap(self.m, lc)
        &&& i <= chosen@.len()
        &&& lists_empty(g, self.node, lc - 1)
        &&& g.adj(self.node as int, lc as int).len() == i + if trim is Some {
            1int
        } else {
            0int
        }
        &&& g.adj(self.node as int, lc as int) == nodes_of(
            chosen@.take(g.adj(self.node as int, lc as int).len() as int),
        )
        &&& self.entry != self.node
        &&& lc <= self.linked_top()
        &&& self.linked_from(g, lc as int)
        &&& self.log@.contains_key(lc as int)
        &&& self.log@[lc as int].0 == w@
        &&& ascending(w@)
        &&& best_of(w@, self.log@[lc as int].1, self.ef)
        &&& chosen@ == layer_choice(
            w@,
            g.tombstoned@,
            self.node,
            self.log@[lc as int].2,
            self.m,
            lc as int,
        )
        &&& distinct_nodes(chosen@)
        &&& explored_above(self.base@, self.log@, self.explored@, self.ef, self.linked_top(), lc as int)
        &&& explored_ok(
            self.base@,
            self.log@[lc as int].1,
            self.log@[lc as int].0,
            self.explored@[lc as int],
            self.ef,
            lc as int,
        )
        &&& self.kept_from(g, lc as int, nodes_of(chosen@.take(i as int)))
        &&& forall|j: int|
            0 <= j < i ==> #[trigger] link_done(
                g,
                self.node,
                self.links@,
                self.m,
                lc as int,
                j,
                chosen@[j].node,
            )
        &&& match trim {
            None => true,
            Some(t) => {
                &&& i < chosen@.len()
                &&& t.s == chosen@[i as int].node
                &&& t.inv(g, lc, self.node, spec_cap(self.m, lc))
                &&& t.select matches Some((cands, h)) ==> heuristic_answered(
                    self.hist@,
                    h.sorted@,
                    h.ans@,
                    h.m_max,
                ) && rows_upto(h) && forall|k: int|
                    0 <= k < cands@.len() ==> answered(
                        self.hist@,
                        Some(t.s),
                        (#[trigger] cands@[k]).node,
                        cands@[k].dist,
                    )
            },
        }
    }

    pub(crate) open spec fn inv_core(&self, g: &HnswIndex) -> bool {
        &&& self.base_ok(g)
        &&& match self.stage {
            Stage::Entry => {
                &&& (self.entry as int) < g.n()
                &&& self.entry != self.node
                &&& g.node_layer@[self.entry as int] >= self.top
                &&& lists_empty(g, self.node, self.layer as int)
                &&& self.linked_from(g, self.linked_top())
                &&& self.kept_from(g, self.linked_top(), Seq::empty())
            },
            Stage::Descent(lc, ls) => {
                &&& self.layer < lc <= self.top
                &&& ls.inv(g)
                &&& ls.layer == lc
                &&& ls.ef == 1
                &&& sits(g, seq![self.cur], lc as int)
                &&& lists_empty(g, self.node, self.layer as int)
                &&& self.entry != self.node
                &&& self.layer < self.top
                &&& scores_answered(self.hist@, ls.scores@)
                &&& answered(self.hist@, None, self.cur.node, self.cur.dist)
                &&& self.linked_from(g, self.linked_top())
                &&& self.kept_from(g, self.linked_top(), Seq::empty())
            },
            Stage::Search(lc, ls) => {
                &&& lc <= self.layer
                &&& ls.inv(g)
                &&& ls.layer == lc
                &&& ls.ef == self.ef
                &&& lists_empty(g, self.node, lc as int)
                &&& backed_above(g, self.node, lc as int, self.layer as int)
                &&& self.entry != self.node
                &&& lc <= self.linked_top()
                &&& self.linked_from(g, lc as int)
                &&& self.kept_from(g, lc as int, Seq::empty())
                &&& explored_above(self.base@, self.log@, self.explored@, self.ef, self.linked_top(), lc as int)
                &&& scores_answered(self.hist@, ls.scores@)
            },
            Stage::Select(lc, w, h) => {
                &&& lc <= self.layer
                &&& sits(g, w@, lc as int)
                &&& h.inv()
                &&& (h.waiting() || h.done)
                &&& h.m_max == spec_cap(self.m, lc)
                &&& linkable(g, h.candidates@, lc as int, self.node)
                &&& all_live(g, h.candidates@)
                &&& lists_empty(g, self.node, lc as int)
                &&& backed_above(g, self.node, lc as int, self.layer as int)
                &&& self.entry != self.node
                &&& lc <= self.linked_top()
                &&& self.linked_from(g, lc as int)
                &&& self.kept_from(g, lc as int, Seq::empty())
                &&& h.candidates@ == keep_live(w@, g.tombstoned@, self.node)
                &&& ascending(w@)
                &&& distinct_nodes(w@)
                &&& best_of(w@, self.scores@, self.ef)
                &&& explored_above(self.base@, self.log@, self.explored@, self.ef, self.linked_top(), lc as int)
                &&& explored_ok(self.base@, self.scores@, w@, self.explored@[lc as int], self.ef, lc as int)
                &&& heuristic_answered(self.hist@, h.sorted@, h.ans@, h.m_max)
                &&& rows_upto(h)
                &&& scores_answered(self.hist@, self.scores@)
            },
            Stage::Link(lc, w, chosen, i, trim) => self.link_ok(g, lc, w, chosen, i, trim),
            Stage::Done => {
                &&& backed_above(g, self.node, -1, self.layer as int)
                &&& self.linked_from(g, -1)
                &&& self.kept_from(g, -1, Seq::empty())
                &&& explored_above(self.base@, self.log@, self.explored@, self.ef, self.linked_top(), -1)
            },
        }
    }

    /// The operation is waiting for distances, or finished.
    pub(crate) open spec fn resting(&self) -> bool {
        match self.stage {
            Stage::Entry => true,
            Stage::Descent(_, ls) => ls.pending@.len() > 0,
            Stage::Search(_, ls) => ls.pending@.len() > 0,
            Stage::Select(_, _, h) => h.waiting(),
            Stage::Link(_, _, _, _, trim) => trim matches Some(t) && t.resting(),
            Stage::Done => true,
        }
    }

    /// The operation belongs to index `g` and is waiting for distances or
    /// finished.
    pub closed spec fn valid_for(&self, g: &HnswIndex) -> bool {
        self.inv_core(g) && self.resting()
    }

    /// The number of distances the operation waits for (0 when finished).
    pub closed spec fn pending_len(&self) -> nat {
        match self.stage {
            Stage::Entry => 1,
            Stage::Descent(_, ls) => ls.pending@.len(),
            Stage::Search(_, ls) => ls.pending@.len(),
            Stage::Select(_, _, _) => 1,
            Stage::Link(_, _, _, _, trim) => match trim {
                Some(t) => match t.select {
                    None => t.list@.len(),
                    Some(_) => 1,
                },
                None => 0,
            },
            Stage::Done => 0,
        }
    }

    /// The operation is finished.
    pub closed spec fn is_done(&self) -> bool {
        self.stage is Done
    }

    /// The node being inserted.
    pub closed spec fn spec_node(&self) -> u32 {
        self.node
    }

    /// Once an insertion has finished, every neighbour the new node holds,
    /// at every layer it sits on, is live and holds the new node back.
    pub proof fn law_finished_links_back(&self, g: &HnswIndex)
        requires
            self.valid_for(g),
            self.is_done(),
        ensures
            (self.spec_node() as int) < g.spec_node_count(),
            forall|l: int, q: int|
                0 <= l <= g.node_layers()[self.spec_node() as int] && 0 <= q < g.neighbours(
                    self.spec_node() as int,
                    l,
                ).len() ==> {
                    let s = #[trigger] g.neighbours(self.spec_node() as int, l)[q];
                    &&& g.spec_is_live(s as int)
                    &&& g.neighbours(s as int, l).contains(self.spec_node())
                },
    {
        g.reveal_wf();
        assert forall|l: int, q: int|
            0 <= l <= g.node_layers()[self.node as int] && 0 <= q < g.neighbours(
                self.node as int,
                l,
            ).len() implies {
            let s = #[trigger] g.neighbours(self.node as int, l)[q];
            &&& g.spec_is_live(s as int)
            &&& g.neighbours(s as int, l).contains(self.node)
        } by {
            assert(backed(g, self.node, l));
            let s = g.adj(self.node as int, l)[q];
            assert(adj_of(g.layers@, self.node as int, l)[q] == s);
        }
    }

    /// The highest layer the insertion links the new node on: `-1` for the
    /// first node of an index, else the lower of the new node's top layer and
    /// the top layer before it was filed.
    pub closed spec fn spec_linked_top(&self) -> int {
        self.linked_top()
    }

    /// The results of the beam search the insertion ran on layer `l`,
    /// nearest first.
    pub closed spec fn spec_layer_results(&self, l: int) -> Seq<Scored> {
        self.log@[l].0
    }

    /// The nodes that beam search on layer `l` scored, with their keys.
    pub closed spec fn spec_layer_scores(&self, l: int) -> Map<u32, DistKey> {
        self.log@[l].1
    }

    /// The distances the heuristic was given on layer `l`, keyed by the
    /// candidate's position in its walk and the compared neighbour's position
    /// among those admitted (see [`heuristic_choice`]).
    pub closed spec fn spec_layer_answers(&self, l: int) -> Map<(int, int), DistKey> {
        self.log@[l].2
    }

    /// The nodes the beam search on layer `l` expanded.
    pub closed spec fn spec_layer_explored(&self, l: int) -> Set<u32> {
        self.explored@[l]
    }

    /// Once an insertion has finished, the beam search on each layer `l` it
    /// linked explored as far as the algorithm demands: every node it
    /// expanded is an existing node on `l` that it scored, every neighbour
    /// such a node had on `l` before any linking was scored too, and every
    /// scored node it left unexpanded is no better than the worst of a full
    /// result list (see [`settled`]). So when that search returned fewer than
    /// `ef_construction` results, it scored every node reachable on `l` from
    /// the nodes it expanded.
    pub proof fn law_finished_search_explored(&self, g: &HnswIndex, l: int)
        requires
            self.valid_for(g),
            self.is_done(),
            0 <= l <= self.spec_linked_top(),
        ensures
            forall|v: u32| #[trigger]
                self.spec_layer_explored(l).contains(v) ==> self.spec_layer_scores(l).contains_key(v)
                    && (v as int) < g.spec_node_count() && l <= g.node_layers()[v as int],
            forall|v: u32, q: int|
                self.spec_layer_explored(l).contains(v) && 0 <= q < self.spec_neighbours_before(
                    v as int,
                    l,
                ).len() ==> self.spec_layer_scores(l).contains_key(
                    #[trigger] self.spec_neighbours_before(v as int, l)[q],
                ),
            settled(
                self.spec_layer_scores(l),
                self.spec_layer_explored(l),
                self.spec_layer_results(l),
                g.spec_config().ef_construction,
            ),
    {
        g.reveal_wf();
        assert(explored_ok(self.base@, self.log@[l].1, self.log@[l].0, self.explored@[l], self.ef, l));
        assert forall|v: u32| #[trigger] self.explored@[l].contains(v) implies (v as int) < g.n()
            && l <= g.node_layer@[v as int] by {
            assert(self.base@[v as int]@.len() == g.node_layer@[v as int] + 1);
        }
    }

    /// The distances that chose the new node's neighbours were the caller's
    /// answers: on each linked layer `l` of a finished insertion, every
    /// distance the neighbour-selection heuristic recorded, for candidate `i`
    /// of its walk (the live results other than the new node, in order)
    /// against the `j`-th neighbour admitted before it, is a key the caller
    /// gave when asked for the distance between exactly those two nodes; the
    /// same holds of every trim's heuristic, over the trim's candidates; and
    /// every key the layer's beam search scored a node with is one the
    /// caller gave for the distance from the vector being inserted to it.
    pub proof fn law_finished_answers_given(&self, g: &HnswIndex, l: int)
        requires
            self.valid_for(g),
            self.is_done(),
            0 <= l <= self.spec_linked_top(),
        ensures
            scores_answered(self.spec_answers(), self.spec_layer_scores(l)),
            heuristic_answered(
                self.spec_answers(),
                sort_stable(keep_live(self.spec_layer_results(l), g.tombstones(), self.spec_node())),
                self.spec_layer_answers(l),
                spec_cap(g.spec_config().m, l as u8) as usize,
            ),
            forall|p: (int, int)| #[trigger]
                self.spec_links().contains_key(p) && self.spec_links()[p].1 is Some ==> heuristic_answered(
                    self.spec_answers(),
                    sort_stable(trim_walk(self.spec_links()[p])),
                    trim_answers(self.spec_links()[p]),
                    spec_cap(g.spec_config().m, p.0 as u8) as usize,
                ),
    {
        g.reveal_wf();
        assert(layer_linked(g, self.node, self.log@, self.links@, self.ef, self.m, l));
        assert(self.log@.contains_key(l));
    }

    /// `path` walks the layer-`l` edges as they stood before any linking:
    /// each node after the first was a neighbour of the one before it.
    pub open spec fn walk_before(&self, l: int, path: Seq<u32>) -> bool {
        forall|i: int|
            0 < i < path.len() ==> self.spec_neighbours_before(path[i - 1] as int, l).contains(
                #[trigger] path[i],
            )
    }

    /// When the beam search on a linked layer `l` of a finished insertion
    /// returned fewer than `ef_construction` results, it scored every node
    /// reachable on `l`, along the edges as they stood before any linking,
    /// from a node it expanded.
    pub proof fn law_finished_search_reaches(&self, g: &HnswIndex, l: int, path: Seq<u32>)
        requires
            self.valid_for(g),
            self.is_done(),
            0 <= l <= self.spec_linked_top(),
            self.spec_layer_results(l).len() < g.spec_config().ef_construction,
            path.len() > 0,
            self.spec_layer_explored(l).contains(path[0]),
            self.walk_before(l, path),
        ensures
            self.spec_layer_scores(l).contains_key(path.last()),
        decreases path.len(),
    {
        self.law_finished_search_explored(g, l);
        if path.len() > 1 {
            let d = path.drop_last();
            assert(self.walk_before(l, d)) by {
                assert forall|i: int| 0 < i < d.len() implies self.spec_neighbours_before(
                    d[i - 1] as int,
                    l,
                ).contains(#[trigger] d[i]) by {
                    assert(d[i] == path[i] && d[i - 1] == path[i - 1]);
                }
            }
            self.law_finished_search_reaches(g, l, d);
            let u = d.last();
            let v = path.last();
            assert(self.spec_layer_explored(l).contains(u));
            assert(self.spec_neighbours_before(path[path.len() - 2] as int, l).contains(path[path.len() - 1]));
            let q = choose|q: int|
                0 <= q < self.spec_neighbours_before(u as int, l).len() && self.spec_neighbours_before(
                    u as int,
                    l,
                )[q] == v;
            assert(self.spec_layer_scores(l).contains_key(self.spec_neighbours_before(u as int, l)[q]));
        }
    }

    /// Node `x`'s list at layer `l` as it was when the new node was filed,
    /// before any linking.
    pub closed spec fn spec_neighbours_before(&self, x: int, l: int) -> Seq<u32> {
        self.base@[x]@[l]@
    }

    /// What linking recorded for each chosen neighbour, keyed by layer and
    /// position among the chosen (see [`LinkRecord`]).
    pub closed spec fn spec_links(&self) -> Map<(int, int), LinkRecord> {
        self.links@
    }

    /// Layer `l` of the finished insertion into `g`: its beam search results
    /// are ascending and the best `ef_construction` of the nodes it scored,
    /// the new node's neighbours are the heuristic's choice among the live
    /// ones, and each chosen neighbour's list is its old list with the new
    /// node appended, or, when that outgrew the cap, the trim [`link_done`]
    /// describes.
    pub open spec fn linked_layer(&self, g: &HnswIndex, l: int) -> bool {
        let choice = layer_choice(
            self.spec_layer_results(l),
            g.tombstones(),
            self.spec_node(),
            self.spec_layer_answers(l),
            g.spec_config().m,
            l,
        );
        &&& ascending(self.spec_layer_results(l))
        &&& best_of(
            self.spec_layer_results(l),
            self.spec_layer_scores(l),
            g.spec_config().ef_construction,
        )
        &&& g.neighbours(self.spec_node() as int, l) == nodes_of(choice)
        &&& forall|i: int|
            0 <= i < choice.len() ==> #[trigger] link_done(
                g,
                self.spec_node(),
                self.spec_links(),
                g.spec_config().m,
                l,
                i,
                choice[i].node,
            )
    }

    /// Once an insertion has finished, every layer up to
    /// [`InsertOp::spec_linked_top`] is a [`InsertOp::linked_layer`]: the new
    /// node's neighbours there are exactly the heuristic's choice among the
    /// live results of that layer's beam search, and each of them got the new
    /// node appended to its list, or its overfull list trimmed with the new
    /// node pinned in. Above that layer the new node has no neighbour, and
    /// every other list is as it was before the linking.
    pub proof fn law_finished_neighbours(&self, g: &HnswIndex)
        requires
            self.valid_for(g),
            self.is_done(),
        ensures
            (self.spec_node() as int) < g.spec_node_count(),
            self.spec_linked_top() <= g.node_layers()[self.spec_node() as int],
            forall|l: int| 0 <= l <= self.spec_linked_top() ==> #[trigger] self.linked_layer(g, l),
            forall|l: int|
                self.spec_linked_top() < l <= g.node_layers()[self.spec_node() as int]
                    ==> #[trigger] g.neighbours(self.spec_node() as int, l).len() == 0,
            forall|x: int, l: int|
                0 <= x < g.spec_node_count() && x != self.spec_node() && 0 <= l <= g.node_layers()[x]
                    && !(l <= self.spec_linked_top() && nodes_of(
                    layer_choice(
                        self.spec_layer_results(l),
                        g.tombstones(),
                        self.spec_node(),
                        self.spec_layer_answers(l),
                        g.spec_config().m,
                        l,
                    ),
                ).contains(x as u32)) ==> #[trigger] g.neighbours(x, l)
                    == self.spec_neighbours_before(x, l),
    {
        g.reveal_wf();
        assert forall|l: int| 0 <= l <= self.spec_linked_top() implies #[trigger] self.linked_layer(
            g,
            l,
        ) by {
            assert(layer_linked(g, self.node, self.log@, self.links@, self.ef, self.m, l));
            assert(g.neighbours(self.node as int, l) == g.adj(self.node as int, l));
        }
        assert forall|l: int|
            self.spec_linked_top() < l <= g.node_layers()[self.spec_node() as int] implies
            #[trigger] g.neighbours(self.spec_node() as int, l).len() == 0 by {
            assert(g.neighbours(self.node as int, l) == g.adj(self.node as int, l));
        }
        assert forall|x: int, l: int|
            0 <= x < g.spec_node_count() && x != self.spec_node() && 0 <= l <= g.node_layers()[x]
                && !(l <= self.spec_linked_top() && nodes_of(
                layer_choice(
                    self.spec_layer_results(l),
                    g.tombstones(),
                    self.spec_node(),
                    self.spec_layer_answers(l),
                    g.spec_config().m,
                    l,
                ),
            ).contains(x as u32)) implies #[trigger] g.neighbours(x, l)
                == self.spec_neighbours_before(x, l) by {
            assert(!touched(
                g,
                self.node,
                self.log@,
                self.m,
                self.linked_top(),
                -1,
                Seq::empty(),
                x,
                l,
            ));
        }
    }

    /// The node being inserted.
    pub fn node(&self) -> (r: u32)
        ensures
            r == self.spec_node(),
    {
        self.node
    }

    /// Every request the operation has had answered, in order, with the keys
    /// given for it.
    pub closed spec fn spec_answers(&self) -> Seq<Answer> {
        self.hist@
    }

    /// The distances the operation waits for, as the node they are measured
    /// from (`None`: from the vector being inserted) and the nodes they are
    /// measured to. At the start, the old entry point; in a beam search, the
    /// nodes it has just visited; while choosing neighbours, the candidate
    /// under consideration and the admitted neighbour it is compared with;
    /// when a neighbour's list outgrew its cap, that neighbour to every node
    /// of the grown list, and then, while trimming it, the trim's own
    /// candidate and admitted neighbour. Nothing once finished.
    pub closed spec fn spec_request(&self) -> (Option<u32>, Seq<u32>) {
        match self.stage {
            Stage::Entry => (None, seq![self.entry]),
            Stage::Descent(_, ls) => (None, ls.pending@),
            Stage::Search(_, ls) => (None, ls.pending@),
            Stage::Select(_, _, h) => (Some(h.pair().0), seq![h.pair().1]),
            Stage::Link(_, _, _, _, trim) => match trim {
                Some(t) => match t.select {
                    None => (Some(t.s), t.list@),
                    Some((_, h)) => (Some(h.pair().0), seq![h.pair().1]),
                },
                None => (None, Seq::empty()),
            },
            Stage::Done => (None, Seq::empty()),
        }
    }

    /// The distances the operation waits for (see
    /// [`InsertOp::spec_request`]), or `None` when it is finished.
    pub fn request(&self, g: &HnswIndex) -> (r: Option<Request>)
        requires
            self.valid_for(g),
        ensures
            r is None <==> self.is_done(),
            r matches Some(q) ==> q.to@.len() == self.pending_len() && q.to@.len() > 0 && (
            q.from, q.to@) == self.spec_request(),
    {
        match &self.stage {
            Stage::Entry => {
                let mut to: Vec<u32> = Vec::new();
                to.push(self.entry);
                proof {
                    assert(to@ =~= seq![self.entry]);
                }
                Some(Request { from: None, to })
            },
            Stage::Descent(_, ls) => {
                let to = ls.pending.clone();
                proof {
                    assert(to@ =~= ls.pending@);
                }
                Some(Request { from: None, to })
            },
            Stage::Search(_, ls) => {
                let to = ls.pending.clone();
                proof {
                    assert(to@ =~= ls.pending@);
                }
                Some(Request { from: None, to })
            },
            Stage::Select(_, _, h) => {
                let (a, b) = h.pending_pair().unwrap();
                let mut to: Vec<u32> = Vec::new();
                to.push(b);
                proof {
                    assert(to@ =~= seq![b]);
                }
                Some(Request { from: Some(a), to })
            },
            Stage::Link(_, _, _, _, trim) => match trim {
                Some(t) => match &t.select {
                    None => {
                        let to = t.list.clone();
                        proof {
                            assert(to@ =~= t.list@);
                        }
                        Some(Request { from: Some(t.s), to })
                    },
                    Some((_, h)) => {
                        let (a, b) = h.pending_pair().unwrap();
                        let mut to: Vec<u32> = Vec::new();
                        to.push(b);
                        proof {
                            assert(to@ =~= seq![b]);
                        }
                        Some(Request { from: Some(a), to })
                    },
                },
                None => None,
            },
            Stage::Done => None,
        }
    }

    /// Carry on without distances until distances are needed or the
    /// insertion is finished.
    #[verifier::spinoff_prover]
    #[verifier::rlimit(60)]
    fn advance(&mut self, g: &mut HnswIndex)
        requires
            old(self).inv_core(&*old(g)),
            fresh(old(self).stage),
        ensures
            final(self).inv_core(&*final(g)),
            final(self).resting(),
            final(self).node == old(self).node,
            final(self).base == old(self).base,
            final(self).hist == old(self).hist,
            final(self).entry == old(self).entry,
            final(self).layer == old(self).layer,
            final(self).top == old(self).top,
            final(g).keys == old(g).keys,
            final(g).metadata == old(g).metadata,
            final(g).seqs == old(g).seqs,
            final(g).tombstoned == old(g).tombstoned,
            final(g).node_layer == old(g).node_layer,
            final(g).live_count == old(g).live_count,
            final(g).entry == old(g).entry,
            final(g).top_layer == old(g).top_layer,
            final(g).rng == old(g).rng,
            final(g).dim == old(g).dim,
            final(g).metric == old(g).metric,
            final(g).cfg == old(g).cfg,
            final(g).buckets == old(g).buckets,
    {
        loop
            invariant
                self.inv_core(&*g),
                fresh(self.stage),
                self.node == old(self).node,
                self.base == old(self).base,
                self.hist == old(self).hist,
                self.entry == old(self).entry,
                self.layer == old(self).layer,
                self.top == old(self).top,
                g.keys == old(g).keys,
                g.metadata == old(g).metadata,
                g.seqs == old(g).seqs,
                g.tombstoned == old(g).tombstoned,
                g.node_layer == old(g).node_layer,
                g.live_count == old(g).live_count,
                g.entry == old(g).entry,
                g.top_layer == old(g).top_layer,
                g.rng == old(g).rng,
                g.dim == old(g).dim,
                g.metric == old(g).metric,
                g.cfg == old(g).cfg,
                g.buckets == old(g).buckets,
            decreases major(self.stage), minor(self.stage),
        {
            let mut stage = Stage::Done;
            std::mem::swap(&mut stage, &mut self.stage);
            match stage {
                Stage::Entry => {
                    self.stage = Stage::Entry;
                    return;
                },
                Stage::Descent(lc, mut ls) => {
                    match ls.next_request(g) {
                        Some(_) => {
                            self.stage = Stage::Descent(lc, ls);
                            return;
                        },
                        None => {
                            match ls.best() {
                                Some(b) => {
                                    proof {
                                        assert(ls.is_scored(ls.results@[0]));
                                        assert(ls.visited@.contains(b.node));
                                    }
                                    self.cur = b;
                                },
                                None => {},
                            }
                            let nl = lc - 1;
                            let mut entries: Vec<Scored> = Vec::new();
                            entries.push(self.cur);
                            proof {
                                lemma_backed_above_empty(g, self.node, nl as int, self.layer as int);
                            }
                            if nl > self.layer {
                                let next = LayerSearch::new(g, &entries, nl, 1);
                                self.stage = Stage::Descent(nl, next);
                            } else {
                                let next = LayerSearch::new(g, &entries, nl, self.ef);
                                self.stage = Stage::Search(nl, next);
                            }
                        },
                    }
                },
                Stage::Search(lc, mut ls) => {
                    match ls.next_request(g) {
                        Some(_) => {
                            self.stage = Stage::Search(lc, ls);
                            return;
                        },
                        None => {
                            let w = ls.results;
                            proof {
                                assert forall|k: int| 0 <= k < w@.len() implies {
                                    let x = #[trigger] w@[k];
                                    &&& (x.node as int) < g.n()
                                    &&& x.seq == x.node as u64
                                    &&& g.node_layer@[x.node as int] >= lc
                                } by {
                                    assert(ls.is_scored(w@[k]));
                                    assert(ls.visited@.contains(w@[k].node));
                                }
                            }
                            let live = live_candidates(g, &w, self.node);
                            let cap = cap_at_layer(self.m, lc);
                            let h = Heuristic::new(&live, cap);
                            proof {
                                lemma_keep_live(w@, g.tombstoned@, self.node);
                                assert forall|k: int| 0 <= k < live@.len() implies {
                                    let x = #[trigger] live@[k];
                                    &&& (x.node as int) < g.n()
                                    &&& x.seq == x.node as u64
                                    &&& g.node_layer@[x.node as int] >= lc
                                    &&& x.node != self.node
                                } by {
                                    assert(live@.contains(live@[k]));
                                    let q = choose|q: int| 0 <= q < w@.len() && w@[q] == live@[k];
                                }
                                assert forall|k: int| 0 <= k < live@.len() implies !g.tombstoned@[(
                                #[trigger] live@[k]).node as int] by {
                                    assert(live@.contains(live@[k]));
                                }
                                assert forall|q: int| 0 <= q < w@.len() implies ls.scores@.contains_key(
                                    (#[trigger] w@[q]).node,
                                ) && w@[q] == mk(w@[q].node, ls.scores@[w@[q].node]) by {
                                    assert(ls.is_scored(w@[q]));
                                }
                                assert forall|i: int, j: int| 0 <= i < j < w@.len() implies (
                                #[trigger] w@[i]).node != (#[trigger] w@[j]).node by {
                                    assert(ls.is_scored(w@[i]));
                                    assert(ls.is_scored(w@[j]));
                                }
                                self.scores = Ghost(ls.scores@);
                                let ex0 = self.explored@;
                                self.explored = Ghost(ex0.insert(lc as int, ls.expanded@));
                                assert forall|v: u32| #[trigger] ls.visited@.contains(v) implies ls.scores@.contains_key(v) by {
                                    assert(!ls.pending@.contains(v));
                                }
                                assert forall|v: u32| #[trigger] ls.expanded@.contains(v) implies ls.scores@.contains_key(v)
                                    && (v as int) < self.base@.len() && 0 <= lc < self.base@[v as int]@.len() by {
                                    assert(ls.visited@.contains(v));
                                }
                                assert forall|v: u32, q: int|
                                    ls.expanded@.contains(v) && 0 <= q < self.base@[v as int]@[lc as int]@.len()
                                        implies ls.scores@.contains_key(#[trigger] self.base@[v as int]@[lc as int]@[q]) by {
                                    assert(ls.visited@.contains(v));
                                    if v == self.node {
                                        assert(self.base@[v as int]@[lc as int]@.len() == 0);
                                    } else {
                                        assert(!touched(g, self.node, self.log@, self.m, self.linked_top(), lc as int, Seq::empty(), v as int, lc as int));
                                        assert(g.adj(v as int, lc as int) == self.base@[v as int]@[lc as int]@);
                                        assert(ls.visited@.contains(g.adj(v as int, lc as int)[q]));
                                    }
                                }
                                assert(explored_ok(self.base@, self.scores@, w@, self.explored@[lc as int], self.ef, lc as int));
                                assert forall|l: int| lc < l <= self.linked_top() implies #[trigger] explored_ok(
                                    self.base@,
                                    self.log@[l].1,
                                    self.log@[l].0,
                                    self.explored@[l],
                                    self.ef,
                                    l,
                                ) by {
                                    assert(explored_ok(self.base@, self.log@[l].1, self.log@[l].0, ex0[l], self.ef, l));
                                }
                            }
                            self.stage = Stage::Select(lc, w, h);
                        },
                    }
                },
                Stage::Select(lc, w, h) => {
                    if h.done {
                        let chosen = h.selected;
                        proof {
                            assert forall|k: int| 0 <= k < chosen@.len() implies {
                                let x = #[trigger] chosen@[k];
                                &&& (x.node as int) < g.n()
                                &&& x.seq == x.node as u64
                                &&& g.node_layer@[x.node as int] >= lc
                                &&& x.node != self.node
                            } by {
                                assert(h.candidates@.contains(chosen@[k]));
                                let q = choose|q: int|
                                    0 <= q < h.candidates@.len() && h.candidates@[q] == chosen@[k];
                            }
                            assert forall|k: int| 0 <= k < chosen@.len() implies !g.tombstoned@[(
                            #[trigger] chosen@[k]).node as int] by {
                                assert(h.candidates@.contains(chosen@[k]));
                                let q = choose|q: int|
                                    0 <= q < h.candidates@.len() && h.candidates@[q] == chosen@[k];
                            }
                            assert(g.adj(self.node as int, lc as int).len() == 0);
                            assert(g.adj(self.node as int, lc as int) =~= nodes_of(chosen@.take(0)));
                            let log0 = self.log@;
                            self.log = Ghost(log0.insert(lc as int, (w@, self.scores@, h.ans@)));
                            assert forall|l: int| #[trigger] self.log@.contains_key(l) implies heuristic_answered(
                                self.hist@,
                                sort_stable(keep_live(self.log@[l].0, g.tombstoned@, self.node)),
                                self.log@[l].2,
                                spec_cap(self.m, l as u8) as usize,
                            ) by {
                                if l != lc as int {
                                    assert(log0.contains_key(l));
                                }
                            }
                            assert forall|l: int| lc < l <= self.linked_top() implies #[trigger] explored_ok(
                                self.base@,
                                self.log@[l].1,
                                self.log@[l].0,
                                self.explored@[l],
                                self.ef,
                                l,
                            ) by {
                                assert(self.log@[l] == log0[l]);
                                assert(explored_ok(self.base@, log0[l].1, log0[l].0, self.explored@[l], self.ef, l));
                            }
                            assert(spec_cap(self.m, lc) as usize == h.m_max);
                            lemma_keep_live_distinct(w@, g.tombstoned@, self.node);
                            lemma_sort_stable_distinct(h.candidates@);
                            lemma_heuristic_choice_distinct(h.sorted@, h.ans@, h.m_max);
                            assert forall|l: int| (lc as int) < l <= self.linked_top() implies
                                #[trigger] layer_linked(g, self.node, self.log@, self.links@, self.ef, self.m, l) by {
                                assert(layer_linked(g, self.node, log0, self.links@, self.ef, self.m, l));
                                assert(self.log@[l] == log0[l]);
                            }
                        }
                        self.stage = Stage::Link(lc, w, chosen, 0, None);
                    } else {
                        self.stage = Stage::Select(lc, w, h);
                        return;
                    }
                },
                Stage::Link(lc, w, chosen, i, trim) => {
                    if self.link_step(g, lc, w, chosen, i, trim) {
                        return;
                    }
                },
                Stage::Done => {
                    self.stage = Stage::Done;
                    return;
                },
            }
        }
    }

    /// One linking step at layer `lc`: finish a trim whose distances are
    /// in, link the next chosen neighbour, or go on to the layer below.
    /// Returns `true` when the operation now waits for distances or is
    /// finished.
    #[verifier::spinoff_prover]
    #[verifier::rlimit(40)]
    fn link_step(
        &mut self,
        g: &mut HnswIndex,
        lc: u8,
        w: Vec<Scored>,
        chosen: Vec<Scored>,
        i: usize,
        trim: Option<Trim>,
    ) -> (stop: bool)
        requires
            old(self).base_ok(&*old(g)),
            old(self).link_ok(&*old(g), lc, w, chosen, i, trim),
        ensures
            final(self).inv_core(&*final(g)),
            stop ==> final(self).resting(),
            !stop ==> fresh(final(self).stage) && (major(final(self).stage) < 4 * lc + 1 || (major(
                final(self).stage,
            ) == 4 * lc + 1 && minor(final(self).stage) < chosen@.len() - i)),
            final(self).node == old(self).node,
            final(self).base == old(self).base,
            final(self).hist == old(self).hist,
            final(self).entry == old(self).entry,
            final(self).layer == old(self).layer,
            final(self).top == old(self).top,
            final(g).keys == old(g).keys,
            final(g).metadata == old(g).metadata,
            final(g).seqs == old(g).seqs,
            final(g).tombstoned == old(g).tombstoned,
            final(g).node_layer == old(g).node_layer,
            final(g).live_count == old(g).live_count,
            final(g).entry == old(g).entry,
            final(g).top_layer == old(g).top_layer,
            final(g).rng == old(g).rng,
            final(g).dim == old(g).dim,
            final(g).metric == old(g).metric,
            final(g).cfg == old(g).cfg,
            final(g).buckets == old(g).buckets,
    {
        match trim {
            Some(t) => {
                match t.select {
                    None => {
                        self.stage = Stage::Link(lc, w, chosen, i, Some(Trim { s: t.s, list: t.list, select: None }));
                        return true;
                    },
                    Some((cands, h)) => {
                        if !h.done {
                            self.stage = Stage::Link(lc, w, chosen, i, Some(Trim { s: t.s, list: t.list, select: Some((cands, h)) }));
                            return true;
                        }
                        let cap = cap_at_layer(self.m, lc);
                        let list = pinned_nodes(&h.selected, &cands, self.node, cap);
                        proof {
                            let s_node = t.s as int;
                            assert(s_node < g.n());
                            assert forall|k: int| 0 <= k < list@.len() implies {
                                let j = #[trigger] list@[k];
                                &&& (j as int) < g.n()
                                &&& j != t.s
                                &&& g.node_layer@[j as int] >= lc
                            } by {
                                let j = list@[k];
                                let q = if exists|q: int| 0 <= q < h.selected@.len() && h.selected@[q].node == j {
                                    let q0 = choose|q: int| 0 <= q < h.selected@.len() && h.selected@[q].node == j;
                                    assert(h.candidates@.contains(h.selected@[q0]));
                                    choose|q: int| 0 <= q < cands@.len() && cands@[q] == h.selected@[q0]
                                } else {
                                    choose|q: int| 0 <= q < cands@.len() && cands@[q].node == j
                                };
                                assert(cands@[q].node == t.list@[q]);
                                if q < t.list@.len() - 1 {
                                    assert(t.list@[q] == g.adj(s_node, lc as int)[q]);
                                } else {
                                    assert(t.list@[q] == self.node);
                                }
                            }
                        }
                        let ghost g1 = *g;
                        proof {
                            assert(cands@[cands@.len() - 1].node == self.node);
                            lemma_pinned_holds_pin(h.selected@, cands@, self.node, cap);
                            assert(distinct_nodes(cands@)) by {
                                assert forall|a: int, b: int| 0 <= a < b < cands@.len() implies (
                                #[trigger] cands@[a]).node != (#[trigger] cands@[b]).node by {
                                    assert(cands@[a].node == t.list@[a]);
                                    assert(cands@[b].node == t.list@[b]);
                                }
                            }
                            lemma_sort_stable_distinct(cands@);
                            lemma_heuristic_choice_distinct(h.sorted@, h.ans@, h.m_max);
                            lemma_pinned_distinct(h.selected@, cands@, self.node, cap);
                        }
                        g.set_neighbours(t.s, lc, list);
                        proof {
                            lemma_backed_above_frame(&g1, g, self.node, lc as int, self.layer as int);
                            assert forall|x: int, l: int|
                                0 <= x < g1.n() && lc < l <= g1.node_layer@[x] implies #[trigger] g.adj(x, l)
                                == g1.adj(x, l) by {
                                assert(g1.layers@[x]@.len() == g1.node_layer@[x] + 1);
                            }
                            lemma_linked_above_frame(
                                &g1,
                                g,
                                self.node,
                                self.log@,
                                self.links@,
                                self.ef,
                                self.m,
                                self.layer,
                                self.linked_top(),
                                lc as int,
                            );
                            assert(g.adj(self.node as int, lc as int) == g1.adj(self.node as int, lc as int));
                            assert(list@.contains(self.node));
                            assert(t.s != self.node);
                            let prev = t.list@.drop_last();
                            let links0 = self.links@;
                            let rec: LinkRecord = (prev, Some((cands@, h.ans@)));
                            lemma_linked_above_record(
                                g,
                                self.node,
                                self.log@,
                                links0,
                                self.ef,
                                self.m,
                                self.layer,
                                self.linked_top(),
                                lc as int,
                                i as int,
                                rec,
                            );
                            self.links = Ghost(links0.insert((lc as int, i as int), rec));
                            assert forall|p: (int, int)| #[trigger] self.links@.contains_key(p) && self.links@[p].1 is Some implies heuristic_answered(
                                self.hist@,
                                sort_stable(trim_walk(self.links@[p])),
                                trim_answers(self.links@[p]),
                                spec_cap(self.m, p.0 as u8) as usize,
                            ) by {
                                if p != (lc as int, i as int) {
                                    assert(links0.contains_key(p));
                                }
                            }
                            assert forall|y: int|
                                0 <= y < g1.n() && y != t.s && lc <= g1.node_layer@[y] implies
                                #[trigger] g.adj(y, lc as int) == g1.adj(y, lc as int) by {
                                assert(g1.layers@[y]@.len() == g1.node_layer@[y] + 1);
                            }
                            assert forall|j: int| 0 <= j < i implies (#[trigger] chosen@[j]).node != t.s by {
                                assert(chosen@[i as int].node == t.s);
                            }
                            assert forall|j: int| 0 <= j < i implies #[trigger] self.links@.contains_key(
                                (lc as int, j),
                            ) && self.links@[(lc as int, j)] == links0[(lc as int, j)] by {
                                assert(link_done(&g1, self.node, links0, self.m, lc as int, j, chosen@[j].node));
                            }
                            lemma_links_frame(
                                &g1,
                                g,
                                self.node,
                                links0,
                                self.links@,
                                self.m,
                                lc as int,
                                chosen@,
                                i as int,
                                t.s,
                            );
                            assert(nodes_of(chosen@.take(i as int + 1)).contains(t.s)) by {
                                assert(nodes_of(chosen@.take(i as int + 1))[i as int] == t.s);
                            }
                            assert forall|z: u32| nodes_of(chosen@.take(i as int)).contains(z) implies nodes_of(
                                chosen@.take(i as int + 1),
                            ).contains(z) by {
                                let q = choose|q: int|
                                    0 <= q < nodes_of(chosen@.take(i as int)).len() && nodes_of(
                                        chosen@.take(i as int),
                                    )[q] == z;
                                assert(nodes_of(chosen@.take(i as int + 1))[q] == z);
                            }
                            lemma_others_kept_set(
                                &g1,
                                g,
                                self.node,
                                self.base@,
                                self.log@,
                                self.m,
                                self.linked_top(),
                                lc as int,
                                nodes_of(chosen@.take(i as int)),
                                nodes_of(chosen@.take(i as int + 1)),
                                t.s as int,
                            );
                            g.reveal_wf();
                            assert(nodes_of(cands@) =~= t.list@);
                            assert(prev.push(self.node) =~= t.list@);
                            assert(spec_cap(self.m, lc) as usize == cap);
                            assert(link_done(g, self.node, self.links@, self.m, lc as int, i as int, t.s));
                            assert forall|q: int|
                                0 <= q < g.adj(self.node as int, lc as int).len() implies {
                                let x = #[trigger] g.adj(self.node as int, lc as int)[q];
                                &&& !g.tombstoned@[x as int]
                                &&& g.adj(x as int, lc as int).contains(self.node)
                            } by {
                                let x = g.adj(self.node as int, lc as int)[q];
                                assert(x == g1.adj(self.node as int, lc as int)[q]);
                                if x != t.s {
                                    assert(g1.layers@[x as int]@.len() == g1.node_layer@[x as int] + 1);
                                    assert(g.adj(x as int, lc as int) == g1.adj(x as int, lc as int));
                                }
                            }
                        }
                        self.stage = Stage::Link(lc, w, chosen, i + 1, None);
                    },
                }
            },
            None => {
                if i < chosen.len() {
                    let s = chosen[i];
                    let cap = cap_at_layer(self.m, lc);
                    proof {
                        assert(chosen@.contains(s));
                    }
                    let mut mine = g.layers[self.node as usize][lc as usize].clone();
                    proof {
                        assert(mine@ =~= g.adj(self.node as int, lc as int));
                    }
                    let ghost prev_mine = mine@;
                    mine.push(s.node);
                    proof {
                        assert(prev_mine == nodes_of(chosen@.take(i as int)));
                        assert(chosen@[i as int] == s);
                        assert forall|a: int, b: int|
                            0 <= a < mine@.len() && 0 <= b < mine@.len() && a != b implies mine@[a]
                            != mine@[b] by {
                            assert(mine@[a] == chosen@[a].node);
                            assert(mine@[b] == chosen@[b].node);
                            if a < b {
                                assert(chosen@[a].node != chosen@[b].node);
                            } else {
                                assert(chosen@[b].node != chosen@[a].node);
                            }
                        }
                    }
                    let ghost g0 = *g;
                    proof {
                        assert forall|k: int| 0 <= k < mine@.len() implies {
                            let j = #[trigger] mine@[k];
                            &&& (j as int) < g.n()
                            &&& j != self.node
                            &&& g.node_layer@[j as int] >= lc
                        } by {
                            if k < mine@.len() - 1 {
                                assert(mine@[k] == g.adj(self.node as int, lc as int)[k]);
                            }
                        }
                    }
                    g.set_neighbours(self.node, lc, mine);
                    proof {
                        lemma_backed_above_frame(&g0, g, self.node, lc as int, self.layer as int);
                        assert forall|x: int, l: int|
                            0 <= x < g0.n() && lc < l <= g0.node_layer@[x] implies #[trigger] g.adj(x, l)
                            == g0.adj(x, l) by {
                            assert(g0.layers@[x]@.len() == g0.node_layer@[x] + 1);
                        }
                        lemma_linked_above_frame(
                            &g0,
                            g,
                            self.node,
                            self.log@,
                            self.links@,
                            self.ef,
                            self.m,
                            self.layer,
                            self.linked_top(),
                            lc as int,
                        );
                        assert(g.adj(self.node as int, lc as int) =~= nodes_of(
                            chosen@.take(i as int + 1),
                        )) by {
                            assert(g0.adj(self.node as int, lc as int) == nodes_of(chosen@.take(i as int)));
                        }
                        assert forall|y: int|
                            0 <= y < g0.n() && y != self.node && lc <= g0.node_layer@[y] implies
                            #[trigger] g.adj(y, lc as int) == g0.adj(y, lc as int) by {
                            assert(g0.layers@[y]@.len() == g0.node_layer@[y] + 1);
                        }
                        assert forall|j: int| 0 <= j < i implies (#[trigger] chosen@[j]).node != self.node by {
                            assert(chosen@[j].node != self.node);
                        }
                        assert forall|j: int| 0 <= j < i implies #[trigger] self.links@.contains_key(
                            (lc as int, j),
                        ) && self.links@[(lc as int, j)] == self.links@[(lc as int, j)] by {
                            assert(link_done(&g0, self.node, self.links@, self.m, lc as int, j, chosen@[j].node));
                        }
                        lemma_links_frame(
                            &g0,
                            g,
                            self.node,
                            self.links@,
                            self.links@,
                            self.m,
                            lc as int,
                            chosen@,
                            i as int,
                            self.node,
                        );
                        lemma_others_kept_set(
                            &g0,
                            g,
                            self.node,
                            self.base@,
                            self.log@,
                            self.m,
                            self.linked_top(),
                            lc as int,
                            nodes_of(chosen@.take(i as int)),
                            nodes_of(chosen@.take(i as int)),
                            self.node as int,
                        );
                        assert forall|q: int|
                            0 <= q < g.adj(self.node as int, lc as int).len() implies {
                            let x = #[trigger] g.adj(self.node as int, lc as int)[q];
                            &&& !g.tombstoned@[x as int]
                            &&& (g.adj(x as int, lc as int).contains(self.node) || (q == i && x
                                == s.node))
                        } by {
                            let x = g.adj(self.node as int, lc as int)[q];
                            if q < i {
                                assert(x == g0.adj(self.node as int, lc as int)[q]);
                                assert(g0.layers@[x as int]@.len() == g0.node_layer@[x as int] + 1);
                                assert(g.adj(x as int, lc as int) == g0.adj(x as int, lc as int));
                            } else {
                                assert(x == s.node);
                                assert(chosen@[i as int] == s);
                            }
                        }
                    }
                    let mut theirs = g.layers[s.node as usize][lc as usize].clone();
                    proof {
                        assert(theirs@ =~= g.adj(s.node as int, lc as int));
                        assert(chosen@[i as int] == s);
                        assert(g.layers@[s.node as int]@.len() == g.node_layer@[s.node as int] + 1);
                        g.lemma_list_distinct(s.node as int, lc as int);
                        let cur = nodes_of(chosen@.take(i as int));
                        if cur.contains(s.node) {
                            let q = choose|q: int| 0 <= q < cur.len() && cur[q] == s.node;
                            assert(chosen@[q].node == chosen@[i as int].node);
                        }
                        assert(self.base@[s.node as int]@.len() == g.node_layer@[s.node as int] + 1);
                        assert(g.adj(s.node as int, lc as int) == self.base@[s.node as int]@[lc as int]@);
                        if g.adj(s.node as int, lc as int).contains(self.node) {
                            let q = choose|q: int| 0 <= q < g.adj(s.node as int, lc as int).len()
                                && g.adj(s.node as int, lc as int)[q] == self.node;
                            assert(self.base@[s.node as int]@[lc as int]@[q] != self.node);
                        }
                    }
                    let ghost prev = theirs@;
                    theirs.push(self.node);
                    proof {
                        assert forall|a: int, b: int|
                            0 <= a < theirs@.len() && 0 <= b < theirs@.len() && a != b implies theirs@[a]
                            != theirs@[b] by {
                            if a < prev.len() && b < prev.len() {
                                assert(theirs@[a] == prev[a] && theirs@[b] == prev[b]);
                            } else if a < prev.len() {
                                assert(theirs@[a] == prev[a]);
                                assert(prev.contains(prev[a]));
                            } else {
                                assert(theirs@[b] == prev[b]);
                                assert(prev.contains(prev[b]));
                            }
                        }
                    }
                    if theirs.len() > cap {
                        self.stage = Stage::Link(lc, w, chosen, i, Some(Trim { s: s.node, list: theirs, select: None }));
                        return true;
                    }
                    proof {
                        assert forall|k: int| 0 <= k < theirs@.len() implies {
                            let j = #[trigger] theirs@[k];
                            &&& (j as int) < g.n()
                            &&& j != s.node
                            &&& g.node_layer@[j as int] >= lc
                        } by {
                            if k < theirs@.len() - 1 {
                                assert(theirs@[k] == g.adj(s.node as int, lc as int)[k]);
                            }
                        }
                    }
                    let ghost g1 = *g;
                    g.set_neighbours(s.node, lc, theirs);
                    proof {
                        lemma_backed_above_frame(&g1, g, self.node, lc as int, self.layer as int);
                        assert forall|x: int, l: int|
                            0 <= x < g1.n() && lc < l <= g1.node_layer@[x] implies #[trigger] g.adj(x, l)
                            == g1.adj(x, l) by {
                            assert(g1.layers@[x]@.len() == g1.node_layer@[x] + 1);
                        }
                        lemma_linked_above_frame(
                            &g1,
                            g,
                            self.node,
                            self.log@,
                            self.links@,
                            self.ef,
                            self.m,
                            self.layer,
                            self.linked_top(),
                            lc as int,
                        );
                        assert(g.adj(self.node as int, lc as int) == g1.adj(self.node as int, lc as int));
                        assert(theirs@[theirs@.len() - 1] == self.node);
                        let prev = g1.adj(s.node as int, lc as int);
                        let links0 = self.links@;
                        let rec: LinkRecord = (prev, None);
                        lemma_linked_above_record(
                            g,
                            self.node,
                            self.log@,
                            links0,
                            self.ef,
                            self.m,
                            self.layer,
                            self.linked_top(),
                            lc as int,
                            i as int,
                            rec,
                        );
                        self.links = Ghost(links0.insert((lc as int, i as int), rec));
                        assert forall|p: (int, int)| #[trigger] self.links@.contains_key(p) && self.links@[p].1 is Some implies heuristic_answered(
                            self.hist@,
                            sort_stable(trim_walk(self.links@[p])),
                            trim_answers(self.links@[p]),
                            spec_cap(self.m, p.0 as u8) as usize,
                        ) by {
                            if p != (lc as int, i as int) {
                                assert(links0.contains_key(p));
                            }
                        }
                        assert forall|y: int|
                            0 <= y < g1.n() && y != s.node && lc <= g1.node_layer@[y] implies
                            #[trigger] g.adj(y, lc as int) == g1.adj(y, lc as int) by {
                            assert(g1.layers@[y]@.len() == g1.node_layer@[y] + 1);
                        }
                        assert forall|j: int| 0 <= j < i implies (#[trigger] chosen@[j]).node != s.node by {
                            assert(chosen@[i as int] == s);
                        }
                        assert forall|j: int| 0 <= j < i implies #[trigger] self.links@.contains_key(
                            (lc as int, j),
                        ) && self.links@[(lc as int, j)] == links0[(lc as int, j)] by {
                            assert(link_done(&g1, self.node, links0, self.m, lc as int, j, chosen@[j].node));
                        }
                        lemma_links_frame(
                            &g1,
                            g,
                            self.node,
                            links0,
                            self.links@,
                            self.m,
                            lc as int,
                            chosen@,
                            i as int,
                            s.node,
                        );
                        assert(nodes_of(chosen@.take(i as int + 1)).contains(s.node)) by {
                            assert(nodes_of(chosen@.take(i as int + 1))[i as int] == s.node);
                        }
                        assert forall|z: u32| nodes_of(chosen@.take(i as int)).contains(z) implies nodes_of(
                            chosen@.take(i as int + 1),
                        ).contains(z) by {
                            let q = choose|q: int|
                                0 <= q < nodes_of(chosen@.take(i as int)).len() && nodes_of(
                                    chosen@.take(i as int),
                                )[q] == z;
                            assert(nodes_of(chosen@.take(i as int + 1))[q] == z);
                        }
                        lemma_others_kept_set(
                            &g1,
                            g,
                            self.node,
                            self.base@,
                            self.log@,
                            self.m,
                            self.linked_top(),
                            lc as int,
                            nodes_of(chosen@.take(i as int)),
                            nodes_of(chosen@.take(i as int + 1)),
                            s.node as int,
                        );
                        g.reveal_wf();
                        assert(theirs@ =~= prev.push(self.node));
                        assert(link_done(g, self.node, self.links@, self.m, lc as int, i as int, s.node));
                        assert forall|q: int|
                            0 <= q < g.adj(self.node as int, lc as int).len() implies {
                            let x = #[trigger] g.adj(self.node as int, lc as int)[q];
                            &&& !g.tombstoned@[x as int]
                            &&& g.adj(x as int, lc as int).contains(self.node)
                        } by {
                            let x = g.adj(self.node as int, lc as int)[q];
                            assert(x == g1.adj(self.node as int, lc as int)[q]);
                            if x != s.node {
                                assert(g1.layers@[x as int]@.len() == g1.node_layer@[x as int] + 1);
                                assert(g.adj(x as int, lc as int) == g1.adj(x as int, lc as int));
                            }
                        }
                    }
                    self.stage = Stage::Link(lc, w, chosen, i + 1, None);
                } else if lc == 0 {
                    proof {
                        assert forall|l: int| -1 < l <= self.layer as int implies #[trigger] backed(
                            g,
                            self.node,
                            l,
                        ) by {
                            if l == 0 {
                                assert(backed(g, self.node, lc as int));
                            }
                        }
                        assert(chosen@.take(chosen@.len() as int) =~= chosen@);
                        lemma_others_kept_down(
                            g,
                            self.node,
                            self.base@,
                            self.log@,
                            self.m,
                            self.linked_top(),
                            lc as int,
                            chosen@,
                        );
                        assert(layer_linked(g, self.node, self.log@, self.links@, self.ef, self.m, lc as int));
                        assert forall|l: int| (lc as int) - 1 < l <= self.linked_top() implies
                            #[trigger] layer_linked(g, self.node, self.log@, self.links@, self.ef, self.m, l) by {
                            if l != lc as int {
                                assert(layer_linked(g, self.node, self.log@, self.links@, self.ef, self.m, l));
                            }
                        }
                        assert forall|l: int| (lc as int) - 1 < l <= self.linked_top() implies #[trigger] explored_ok(
                            self.base@,
                            self.log@[l].1,
                            self.log@[l].0,
                            self.explored@[l],
                            self.ef,
                            l,
                        ) by {
                            if l != lc as int {
                                assert(explored_ok(self.base@, self.log@[l].1, self.log@[l].0, self.explored@[l], self.ef, l));
                            }
                        }
                    }
                    self.stage = Stage::Done;
                    return true;
                } else {
                    let nl = lc - 1;
                    proof {
                        assert forall|l: int| nl < l <= self.layer as int implies #[trigger] backed(
                            g,
                            self.node,
                            l,
                        ) by {
                            if l == lc {
                                assert(backed(g, self.node, lc as int));
                            }
                        }
                        assert(chosen@.take(chosen@.len() as int) =~= chosen@);
                        lemma_others_kept_down(
                            g,
                            self.node,
                            self.base@,
                            self.log@,
                            self.m,
                            self.linked_top(),
                            lc as int,
                            chosen@,
                        );
                        assert(layer_linked(g, self.node, self.log@, self.links@, self.ef, self.m, lc as int));
                        assert forall|l: int| (lc as int) - 1 < l <= self.linked_top() implies
                            #[trigger] layer_linked(g, self.node, self.log@, self.links@, self.ef, self.m, l) by {
                            if l != lc as int {
                                assert(layer_linked(g, self.node, self.log@, self.links@, self.ef, self.m, l));
                            }
                        }
                        assert forall|l: int| (lc as int) - 1 < l <= self.linked_top() implies #[trigger] explored_ok(
                            self.base@,
                            self.log@[l].1,
                            self.log@[l].0,
                            self.explored@[l],
                            self.ef,
                            l,
                        ) by {
                            if l != lc as int {
                                assert(explored_ok(self.base@, self.log@[l].1, self.log@[l].0, self.explored@[l], self.ef, l));
                            }
                        }
                    }
                    let next = LayerSearch::new(g, &w, nl, self.ef);
                    self.stage = Stage::Search(nl, next);
                }
            },
        }
        false
    }

    /// Answer the awaited distances (`keys[k]` for the `k`-th requested
    /// node) and carry on until distances are needed again or the insertion
    /// is finished. The index keeps every node, id, tombstone and top layer;
    /// only neighbour lists change.
    pub fn supply(&mut self, g: &mut HnswIndex, keys: &Vec<DistKey>)
        requires
            old(self).valid_for(&*old(g)),
            !old(self).is_done(),
            keys@.len() == old(self).pending_len(),
        ensures
            final(self).valid_for(&*final(g)),
            final(self).spec_node() == old(self).spec_node(),
            final(self).spec_linked_top() == old(self).spec_linked_top(),
            forall|x: int, l: int| #[trigger] final(self).spec_neighbours_before(x, l)
                == old(self).spec_neighbours_before(x, l),
            final(g).wf(),
            final(g).spec_node_count() == old(g).spec_node_count(),
            forall|i: int| #[trigger] final(g).spec_is_live(i) == old(g).spec_is_live(i),
            forall|i: int| #[trigger] final(g).key_at(i) == old(g).key_at(i),
            forall|i: int| #[trigger] final(g).stored_metadata(i) == old(g).stored_metadata(i),
            final(g).node_layers() == old(g).node_layers(),
            final(g).spec_len() == old(g).spec_len(),
            final(g).spec_dim() == old(g).spec_dim(),
            final(g).spec_metric() == old(g).spec_metric(),
            final(g).spec_config() == old(g).spec_config(),
            final(g).spec_top() == old(g).spec_top(),
            final(g).rng_state() == old(g).rng_state(),
            final(self).spec_answers() == old(self).spec_answers().push(
                (old(self).spec_request(), keys@),
            ),
    {
        let ghost req0 = self.spec_request();
        proof {
            let h0 = self.hist@;
            let x: Answer = (req0, keys@);
            lemma_logged_answered_more(h0, x, self.log@, self.links@, g.tombstoned@, self.node, self.m);
            lemma_log_scores_answered_more(h0, x, self.log@);
            self.hist = Ghost(h0.push(x));
            match &self.stage {
                Stage::Descent(_, ls) => {
                    lemma_scores_answered_more(h0, x, ls.scores@);
                    lemma_answered_more(h0, x, None, self.cur.node, self.cur.dist);
                },
                Stage::Search(_, ls) => {
                    lemma_scores_answered_more(h0, x, ls.scores@);
                },
                Stage::Select(_, _, h) => {
                    lemma_heuristic_answered_more(h0, x, h.sorted@, h.ans@, h.m_max);
                    lemma_scores_answered_more(h0, x, self.scores@);
                },
                Stage::Link(_, _, _, _, trim) => {
                    if let Some(t) = trim {
                        if let Some((cands, h)) = &t.select {
                            lemma_heuristic_answered_more(h0, x, h.sorted@, h.ans@, h.m_max);
                            assert forall|k: int| 0 <= k < cands@.len() implies answered(
                                self.hist@,
                                Some(t.s),
                                (#[trigger] cands@[k]).node,
                                cands@[k].dist,
                            ) by {
                                lemma_answered_more(h0, x, Some(t.s), cands@[k].node, cands@[k].dist);
                            }
                        }
                    }
                },
                _ => {},
            }
        }
        let mut stage = Stage::Done;
        std::mem::swap(&mut stage, &mut self.stage);
        match stage {
            Stage::Entry => {
                self.cur = Scored { dist: keys[0], seq: self.entry as u64, node: self.entry };
                let mut entries: Vec<Scored> = Vec::new();
                entries.push(self.cur);
                proof {
                    lemma_answered_last(self.hist@, None, seq![self.entry], keys@, 0);
                }
                if self.top > self.layer {
                    let ls = LayerSearch::new(g, &entries, self.top, 1);
                    self.stage = Stage::Descent(self.top, ls);
                } else {
                    let ls = LayerSearch::new(g, &entries, self.top, self.ef);
                    self.stage = Stage::Search(self.top, ls);
                }
            },
            Stage::Descent(lc, mut ls) => {
                let ghost sc0 = ls.scores@;
                ls.absorb(g, keys);
                proof {
                    let pend = req0.1;
                    assert forall|v: u32| #[trigger] ls.scores@.contains_key(v) implies answered(
                        self.hist@,
                        None,
                        v,
                        ls.scores@[v],
                    ) by {
                        if pend.contains(v) {
                            let q = pend.index_of(v);
                            pend.index_of_first_ensures(v);
                            lemma_answered_last(self.hist@, None, pend, keys@, q);
                        } else {
                            assert(sc0.contains_key(v));
                        }
                    }
                }
                self.stage = Stage::Descent(lc, ls);
            },
            Stage::Search(lc, mut ls) => {
                let ghost sc0 = ls.scores@;
                ls.absorb(g, keys);
                proof {
                    let pend = req0.1;
                    assert forall|v: u32| #[trigger] ls.scores@.contains_key(v) implies answered(
                        self.hist@,
                        None,
                        v,
                        ls.scores@[v],
                    ) by {
                        if pend.contains(v) {
                            let q = pend.index_of(v);
                            pend.index_of_first_ensures(v);
                            lemma_answered_last(self.hist@, None, pend, keys@, q);
                        } else {
                            assert(sc0.contains_key(v));
                        }
                    }
                }
                self.stage = Stage::Search(lc, ls);
            },
            Stage::Select(lc, w, mut h) => {
                let ghost h0 = h;
                proof {
                    assert(keys@ =~= seq![keys@[0]]);
                    let hs = self.hist@;
                    assert(hs[hs.len() - 1] == ((Some(h.pair().0), seq![h.pair().1]), seq![keys@[0]]));
                    lemma_heuristic_answered_record(hs, h.sorted@, h.ans@, h.m_max, h.i as int, h.j as int, keys@[0]);
                }
                h.feed(keys[0]);
                proof {
                    assert(h.sorted@ == h0.sorted@);
                }
                self.stage = Stage::Select(lc, w, h);
            },
            Stage::Link(lc, w, chosen, i, trim) => {
                let t = trim.unwrap();
                match t.select {
                    None => {
                        let mut cands: Vec<Scored> = Vec::new();
                        let mut k: usize = 0;
                        while k < t.list.len()
                            invariant
                                0 <= k <= t.list@.len(),
                                keys@.len() == t.list@.len(),
                                cands@.len() == k,
                                forall|q: int| 0 <= q < k ==> (#[trigger] cands@[q]).node == t.list@[q],
                                forall|q: int| 0 <= q < k ==> (#[trigger] cands@[q]).seq == t.list@[q] as u64,
                                forall|q: int| 0 <= q < k ==> (#[trigger] cands@[q]).dist == keys@[q],
                            decreases t.list@.len() - k,
                        {
                            cands.push(Scored { dist: keys[k], seq: t.list[k] as u64, node: t.list[k] });
                            k = k + 1;
                        }
                        let cap = cap_at_layer(self.m, lc);
                        let h = Heuristic::new(&cands, cap);
                        proof {
                            assert forall|k: int| 0 <= k < cands@.len() implies answered(
                                self.hist@,
                                Some(t.s),
                                (#[trigger] cands@[k]).node,
                                cands@[k].dist,
                            ) by {
                                assert(self.hist@.last() == ((Some(t.s), t.list@), keys@));
                                lemma_answered_last(self.hist@, Some(t.s), t.list@, keys@, k);
                                assert(cands@[k].node == t.list@[k] && cands@[k].dist == keys@[k]);
                            }
                        }
                        self.stage = Stage::Link(lc, w, chosen, i, Some(Trim { s: t.s, list: t.list, select: Some((cands, h)) }));
                    },
                    Some((cands, mut h)) => {
                        let ghost h0 = h;
                        proof {
                            assert(keys@ =~= seq![keys@[0]]);
                            let hs = self.hist@;
                            assert(hs[hs.len() - 1] == ((Some(h.pair().0), seq![h.pair().1]), seq![keys@[0]]));
                            lemma_heuristic_answered_record(hs, h.sorted@, h.ans@, h.m_max, h.i as int, h.j as int, keys@[0]);
                        }
                        h.feed(keys[0]);
                        proof {
                            assert(h.sorted@ == h0.sorted@);
                        }
                        self.stage = Stage::Link(lc, w, chosen, i, Some(Trim { s: t.s, list: t.list, select: Some((cands, h)) }));
                    },
                }
            },
            Stage::Done => {
                self.stage = Stage::Done;
            },
        }
        self.advance(g);
        proof {
            g.reveal_wf();
            old(g).reveal_wf();
        }
    }
}

/// The live candidates among `w` for linking `node` (see [`keep_live`]).
fn live_candidates(g: &HnswIndex, w: &Vec<Scored>, node: u32) -> (r: Vec<Scored>)
    requires
        g.inv(),
        forall|k: int| 0 <= k < w@.len() ==> ((#[trigger] w@[k]).node as int) < g.n(),
    ensures
        r@ == keep_live(w@, g.tombstoned@, node),
{
    let mut r: Vec<Scored> = Vec::new();
    let mut i: usize = 0;
    while i < w.len()
        invariant
            g.inv(),
            forall|k: int| 0 <= k < w@.len() ==> ((#[trigger] w@[k]).node as int) < g.n(),
            0 <= i <= w@.len(),
            r@ == keep_live(w@.take(i as int), g.tombstoned@, node),
        decreases w@.len() - i,
    {
        let x = w[i];
        proof {
            assert(w@.take(i as int + 1).drop_last() =~= w@.take(i as int));
            assert(w@.take(i as int + 1).last() == x);
        }
        if !g.tombstoned[x.node as usize] && x.node != node {
            r.push(x);
        }
        i = i + 1;
    }
    proof {
        assert(w@.take(w@.len() as int) =~= w@);
    }
    r
}

impl HnswIndex {
    /// Start inserting `key` for a vector of `len` components, on top layer
    /// `layer` (drawn from [`HnswIndex::peek_layer_bits`]).
    ///
    /// Errors, in this order: `DimensionMismatch` when `len` is not the
    /// index's dimensionality; `Duplicate` when a live node carries `key`;
    /// `InvalidConfig(SequenceOverflow)` when the sequence counter is
    /// exhausted; `CapacityExceeded` when no node index is left. An error
    /// changes nothing.
    ///
    /// On success the new node is live, carries `key`, sits on layers
    /// `0..=layer`, and is the entry point if it is the first node or sits
    /// above every other; the live count grows by one and the generator has
    /// made its draw. The returned operation then links the node.
    pub fn begin_insert(&mut self, key: IdKey, len: usize, layer: u8, metadata: Option<Metadata>) -> (r: Result<
        InsertOp,
        HnswError,
    >)
        requires
            old(self).wf(),
            2 * old(self).spec_config().m <= usize::MAX,
        ensures
            final(self).wf(),
            len != old(self).spec_dim() ==> r == Err::<InsertOp, HnswError>(
                HnswError::DimensionMismatch { expected: old(self).spec_dim(), found: len },
            ),
            len == old(self).spec_dim() && old(self).holds_key(key) ==> r == Err::<
                InsertOp,
                HnswError,
            >(HnswError::Duplicate),
            len == old(self).spec_dim() && !old(self).holds_key(key) && old(self).spec_node_count()
                >= u32::MAX ==> r == Err::<InsertOp, HnswError>(HnswError::CapacityExceeded),
            len == old(self).spec_dim() && !old(self).holds_key(key) && old(self).spec_node_count()
                < u32::MAX ==> r is Ok,
            r is Err ==> *final(self) == *old(self),
            r matches Ok(op) ==> {
                &&& op.valid_for(&*final(self))
                &&& op.spec_node() == old(self).spec_node_count()
                &&& final(self).spec_node_count() == old(self).spec_node_count() + 1
                &&& final(self).spec_is_live(op.spec_node() as int)
                &&& final(self).key_at(op.spec_node() as int) == key
                &&& final(self).stored_metadata(op.spec_node() as int) == metadata
                &&& forall|x: int, l: int|
                    0 <= x < old(self).spec_node_count() && 0 <= l <= old(self).node_layers()[x]
                        ==> #[trigger] op.spec_neighbours_before(x, l) == old(self).neighbours(x, l)
                &&& op.spec_linked_top() == if old(self).spec_node_count() == 0 {
                    -1
                } else if layer < old(self).spec_top() {
                    layer as int
                } else {
                    old(self).spec_top() as int
                }
                &&& final(self).holds_key(key)
                &&& final(self).spec_len() == old(self).spec_len() + 1
                &&& final(self).node_layers() == old(self).node_layers().push(layer)
                &&& final(self).rng_state() == open_draw(old(self).rng_state(), 4).1
                &&& forall|i: int|
                    0 <= i < old(self).spec_node_count() ==> #[trigger] final(self).spec_is_live(i)
                        == old(self).spec_is_live(i) && final(self).key_at(i) == old(self).key_at(i)
                        && final(self).stored_metadata(i) == old(self).stored_metadata(i)
                &&& (old(self).spec_node_count() == 0 || layer > old(self).spec_top())
                    ==> final(self).spec_top() == layer
                &&& (old(self).spec_node_count() > 0 && layer <= old(self).spec_top())
                    ==> final(self).spec_top() == old(self).spec_top()
            },
            final(self).spec_dim() == old(self).spec_dim(),
            final(self).spec_metric() == old(self).spec_metric(),
            final(self).spec_config() == old(self).spec_config(),
    {
        proof {
            self.reveal_wf();
        }
        if len != self.dim {
            return Err(HnswError::DimensionMismatch { expected: self.dim, found: len });
        }
        if self.find_live(&key).is_some() {
            return Err(HnswError::Duplicate);
        }
        if self.next_seq == u64::MAX {
            return Err(HnswError::InvalidConfig(ConfigFault::SequenceOverflow));
        }
        if self.seqs.len() >= 0xFFFF_FFFFusize {
            return Err(HnswError::CapacityExceeded);
        }
        let old_entry = self.entry;
        let old_top = self.top_layer;
        let node = self.add_node(key, layer, metadata);
        proof {
            self.reveal_wf();
        }
        let op = match old_entry {
            None => InsertOp {
                node,
                layer,
                entry: node,
                top: layer,
                ef: self.cfg.ef_construction,
                m: self.cfg.m,
                cur: Scored { dist: 0, seq: node as u64, node },
                stage: Stage::Done,
                scores: Ghost(Map::empty()),
                log: Ghost(Map::empty()),
                links: Ghost(Map::empty()),
                base: Ghost(self.layers@),
                explored: Ghost(Map::empty()),
                hist: Ghost(Seq::empty()),
            },
            Some(e) => InsertOp {
                node,
                layer,
                entry: e,
                top: old_top,
                ef: self.cfg.ef_construction,
                m: self.cfg.m,
                cur: Scored { dist: 0, seq: e as u64, node: e },
                stage: Stage::Entry,
                scores: Ghost(Map::empty()),
                log: Ghost(Map::empty()),
                links: Ghost(Map::empty()),
                base: Ghost(self.layers@),
                explored: Ghost(Map::empty()),
                hist: Ghost(Seq::empty()),
            },
        };
        proof {
            assert forall|l: int| 0 <= l <= layer implies #[trigger] self.adj(node as int, l).len() == 0 by {}
            old(self).reveal_wf();
            assert(base_clear(self.layers@, node, self.node_layer@)) by {
                assert forall|x: int| 0 <= x < self.layers@.len() implies #[trigger] self.layers@[x]@.len()
                    == self.node_layer@[x] + 1 by {}
                assert forall|x: int, l: int, q: int|
                    0 <= x < self.layers@.len() && 0 <= l < self.layers@[x]@.len() && 0 <= q
                        < self.layers@[x]@[l]@.len() implies #[trigger] self.layers@[x]@[l]@[q] != node by {
                    assert(self.layers@[x]@[l]@ == self.adj(x, l));
                    if x == node as int {
                        assert(self.layers@[x]@.len() == self.node_layer@[x] + 1);
                        assert(self.adj(x, l).len() == 0);
                    } else {
                        assert(self.layers@[x]@.len() == old(self).layers@[x]@.len());
                        assert(self.adj(x, l) == old(self).adj(x, l));
                        assert(adj_of(old(self).layers@, x, l)[q] == self.layers@[x]@[l]@[q]);
                    }
                }
                assert forall|l: int| 0 <= l < self.layers@[node as int]@.len() implies #[trigger] self.layers@[
                    node as int]@[l]@.len() == 0 by {
                    assert(self.layers@[node as int]@[l]@ == self.adj(node as int, l));
                }
            }
            assert forall|x: int, l: int|
                0 <= x < old(self).spec_node_count() && 0 <= l <= old(self).node_layers()[x] implies
                #[trigger] op.spec_neighbours_before(x, l) == old(self).neighbours(x, l) by {
                assert(old(self).layers@[x]@.len() == old(self).node_layer@[x] + 1);
                assert(self.adj(x, l) == old(self).adj(x, l));
            }
            assert forall|i: int|
                0 <= i < old(self).spec_node_count() implies #[trigger] self.spec_is_live(i)
                == old(self).spec_is_live(i) && self.key_at(i) == old(self).key_at(i) by {
                assert(self.tombstoned@[i] == old(self).tombstoned@[i]);
                assert(self.keys@[i] == old(self).keys@[i]);
            }
            assert(self.holds_key(key)) by {
                assert(self.spec_is_live(node as int));
                assert(crate::idkey::key_eq(self.key_at(node as int), key)) by {
                    match key {
                        IdKey::Bytes(b) => {},
                        _ => {},
                    }
                }
            }
        }
        Ok(op)
    }
}

} // verus!
