//! What holds of every well-formed [`HnswIndex`], whatever sequence of
//! insertions and deletions built it.

use vstd::prelude::*;

use crate::graph::spec_cap;
use crate::idkey::key_eq;
use crate::index::{count_live, lemma_count_live_le, lemma_live_set, live_set, HnswIndex};
use crate::rng::draws;

verus! {

/// `len()` counts exactly the nodes that are not tombstoned, so it never
/// exceeds the number of nodes ever inserted.
pub proof fn law_len_counts_live(g: &HnswIndex)
    requires
        g.wf(),
    ensures
        g.spec_len() == count_live(g.tombstones()),
        g.spec_len() <= g.spec_node_count(),
{
    g.reveal_wf();
    lemma_count_live_le(g.tombstones());
}

/// Live nodes without repeats number at most `len()`: any list of distinct
/// live nodes is no longer than the count of live nodes.
pub proof fn law_live_nodes_bounded(g: &HnswIndex, s: Seq<u32>)
    requires
        g.wf(),
        forall|q: int| 0 <= q < s.len() ==> g.spec_is_live(#[trigger] s[q] as int),
        forall|a: int, b: int| 0 <= a < b < s.len() ==> #[trigger] s[a] != #[trigger] s[b],
    ensures
        s.len() <= g.spec_len(),
{
    g.reveal_wf();
    let si = s.map_values(|x: u32| x as int);
    assert(si.no_duplicates()) by {
        assert forall|a: int, b: int| 0 <= a < si.len() && 0 <= b < si.len() && a != b implies si[a] != si[b] by {
            if a < b {
                assert(s[a] != s[b]);
            } else {
                assert(s[b] != s[a]);
            }
        }
    }
    si.unique_seq_to_set();
    lemma_live_set(g.tombstones());
    assert(si.to_set().subset_of(live_set(g.tombstones()))) by {
        assert forall|i: int| si.to_set().contains(i) implies live_set(g.tombstones()).contains(i) by {
            assert(si.contains(i));
            let q = choose|q: int| 0 <= q < si.len() && si[q] == i;
            assert(g.spec_is_live(s[q] as int));
        }
    }
    vstd::set_lib::lemma_len_subset(si.to_set(), live_set(g.tombstones()));
}

/// A live node is an existing node.
pub proof fn law_live_nodes_exist(g: &HnswIndex, i: int)
    requires
        g.wf(),
        g.spec_is_live(i),
    ensures
        0 <= i < g.spec_node_count(),
{
    g.reveal_wf();
}

/// No two live nodes carry the same id.
pub proof fn law_live_ids_distinct(g: &HnswIndex, i: int, j: int)
    requires
        g.wf(),
        g.spec_is_live(i),
        g.spec_is_live(j),
        key_eq(g.key_at(i), g.key_at(j)),
    ensures
        i == j,
{
    g.reveal_wf();
}

/// Every neighbour list respects its layer's cap (`2 * m` at layer 0, `m`
/// above), repeats no node, and every edge at layer `l` leads to another
/// existing node that sits on layer `l`.
pub proof fn law_neighbour_lists_capped(g: &HnswIndex, i: int, l: int)
    requires
        g.wf(),
        0 <= i < g.spec_node_count(),
        0 <= l <= g.node_layers()[i],
    ensures
        g.neighbours(i, l).len() <= spec_cap(g.spec_config().m, l as u8),
        g.neighbours(i, l).no_duplicates(),
        forall|k: int|
            0 <= k < g.neighbours(i, l).len() ==> {
                let j = #[trigger] g.neighbours(i, l)[k];
                &&& (j as int) < g.spec_node_count()
                &&& j != i
                &&& g.node_layers()[j as int] >= l
            },
{
    g.reveal_wf();
    assert(g.layers@[i]@.len() == g.node_layers()[i] + 1);
    g.lemma_list_distinct(i, l);
}

/// The entry point of searches exists exactly when some node was inserted;
/// it sits on the top layer `spec_top`, and no node sits above it, so
/// `spec_top` is the highest layer of any node (0 for an empty index).
pub proof fn law_entry_on_top(g: &HnswIndex)
    requires
        g.wf(),
    ensures
        g.spec_entry() is None <==> g.spec_node_count() == 0,
        g.spec_entry() is None ==> g.spec_top() == 0,
        g.spec_entry() matches Some(e) ==> (e as int) < g.spec_node_count() && g.node_layers()[e as int]
            == g.spec_top(),
        forall|i: int| 0 <= i < g.spec_node_count() ==> #[trigger] g.node_layers()[i] <= g.spec_top(),
        g.spec_len() > 0 ==> g.spec_entry() is Some,
{
    g.reveal_wf();
    lemma_count_live_le(g.tombstones());
}

/// Layer assignment is reproducible: the generator's state, and with it the
/// next layer draw, depends only on the configured seed and on how many
/// nodes were inserted before.
pub proof fn law_draws_follow_seed(g: &HnswIndex)
    requires
        g.wf(),
    ensures
        g.rng_state() == draws(g.spec_config().seed, g.spec_node_count()),
{
    g.reveal_wf();
}

} // verus!
