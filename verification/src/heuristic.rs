//! The diverse-neighbour heuristic (Malkov and Yashunin's Alg 4, keeping
//! pruned connections) and the pinned trim of an overfull neighbour list.
//!
//! Candidates are walked nearest first. A candidate `c` is admitted unless
//! some already admitted `s` is nearer to `c` than the query is (the
//! distance `c -> s` is below `c`'s own distance); such a `c` is covered and
//! set aside. When the walk ends with fewer than `m_max` admitted, set-aside
//! candidates are added back, nearest first, up to `m_max`.

use vstd::prelude::*;

use crate::scored::{
    dist_lt, distinct_nodes, insert_stable, lacks_node, lemma_insert_stable,
    lemma_insert_stable_distinct, non_descending, push_stable, scored_lt, spec_dist_lt, DistKey,
    Scored,
};

verus! {

/// `s` sorted nearest first, ties kept in their original order.
pub open spec fn sort_stable(s: Seq<Scored>) -> Seq<Scored>
    decreases s.len(),
{
    if s.len() == 0 {
        s
    } else {
        insert_stable(sort_stable(s.drop_last()), s.last())
    }
}

pub proof fn lemma_sort_stable(s: Seq<Scored>)
    ensures
        non_descending(sort_stable(s)),
        sort_stable(s).len() == s.len(),
        forall|y: Scored| #[trigger] sort_stable(s).contains(y) <==> s.contains(y),
    decreases s.len(),
{
    if s.len() > 0 {
        lemma_sort_stable(s.drop_last());
        lemma_insert_stable(sort_stable(s.drop_last()), s.last());
        assert forall|y: Scored| #[trigger] sort_stable(s).contains(y) <==> s.contains(y) by {
            if s.drop_last().contains(y) {
                let k = choose|k: int| 0 <= k < s.drop_last().len() && s.drop_last()[k] == y;
                assert(s[k] == y);
            }
            if s.contains(y) && y != s.last() {
                let k = choose|k: int| 0 <= k < s.len() && s[k] == y;
                assert(k < s.len() - 1);
                assert(s.drop_last()[k] == y);
            }
            if y == s.last() {
                assert(s[s.len() - 1] == y);
            }
        }
    }
}

/// Sorting keeps the nodes distinct.
pub proof fn lemma_sort_stable_distinct(s: Seq<Scored>)
    requires
        distinct_nodes(s),
    ensures
        distinct_nodes(sort_stable(s)),
    decreases s.len(),
{
    if s.len() > 0 {
        let d = s.drop_last();
        assert(distinct_nodes(d)) by {
            assert forall|i: int, j: int| 0 <= i < j < d.len() implies (#[trigger] d[i]).node != (
            #[trigger] d[j]).node by {
                assert(d[i] == s[i] && d[j] == s[j]);
            }
        }
        lemma_sort_stable_distinct(d);
        lemma_sort_stable(d);
        assert(lacks_node(sort_stable(d), s.last().node)) by {
            assert forall|k: int| 0 <= k < sort_stable(d).len() implies (#[trigger] sort_stable(
                d,
            )[k]).node != s.last().node by {
                let y = sort_stable(d)[k];
                assert(sort_stable(d).contains(y));
                let q = choose|q: int| 0 <= q < d.len() && d[q] == y;
                assert(s[q] == y);
            }
        }
        lemma_insert_stable_distinct(sort_stable(d), s.last());
    }
}

/// Sort `v` nearest first, keeping ties in their original order.
pub fn sort_by_rank(v: &Vec<Scored>) -> (r: Vec<Scored>)
    ensures
        r@ == sort_stable(v@),
{
    let mut out: Vec<Scored> = Vec::new();
    let mut i: usize = 0;
    while i < v.len()
        invariant
            0 <= i <= v@.len(),
            out@ == sort_stable(v@.take(i as int)),
        decreases v@.len() - i,
    {
        proof {
            assert(v@.take(i as int + 1).drop_last() =~= v@.take(i as int));
        }
        push_stable(&mut out, v[i]);
        i = i + 1;
    }
    proof {
        assert(v@.take(v@.len() as int) =~= v@);
    }
    out
}

/// The number of items [`take_topk_sorted`] keeps out of `n`.
pub open spec fn topk_len(n: nat, k: usize) -> int {
    if k < n {
        k as int
    } else {
        n as int
    }
}

/// The best `k` of `items`, best first (ties in their original order): empty
/// when `k == 0`, every item when `k` exceeds their number.
pub fn take_topk_sorted(items: &Vec<Scored>, k: usize) -> (r: Vec<Scored>)
    ensures
        r@ == sort_stable(items@).take(topk_len(items@.len(), k)),
        r@.len() == topk_len(items@.len(), k),
{
    proof {
        lemma_sort_stable(items@);
    }
    if k == 0 {
        let empty: Vec<Scored> = Vec::new();
        assert(empty@ =~= sort_stable(items@).take(0));
        return empty;
    }
    let mut sorted = sort_by_rank(items);
    if sorted.len() > k {
        sorted.truncate(k);
    } else {
        assert(sorted@ =~= sort_stable(items@).take(items@.len() as int));
    }
    sorted
}

/// Whether one of the first `n` admitted neighbours covers candidate `i` of
/// the walk, by the distances `ans` recorded so far (keyed by the
/// candidate's position in the walk and the neighbour's position among the
/// admitted).
pub open spec fn covered(ans: Map<(int, int), DistKey>, i: int, d: DistKey, n: int) -> bool {
    exists|j: int| 0 <= j < n && ans.contains_key((i, j)) && spec_dist_lt(#[trigger] ans[(i, j)], d)
}

/// The diverse pass over the first `i` candidates of `sorted`: the admitted
/// and the set-aside ones. The pass stops admitting or setting aside once
/// `m` are admitted.
pub open spec fn diverse(sorted: Seq<Scored>, ans: Map<(int, int), DistKey>, m: usize, i: int) -> (
    Seq<Scored>,
    Seq<Scored>,
)
    decreases i,
{
    if i <= 0 {
        (Seq::empty(), Seq::empty())
    } else {
        let (sel, pr) = diverse(sorted, ans, m, i - 1);
        if sel.len() >= m {
            (sel, pr)
        } else if covered(ans, i - 1, sorted[i - 1].dist, sel.len() as int) {
            (sel, pr.push(sorted[i - 1]))
        } else {
            (sel.push(sorted[i - 1]), pr)
        }
    }
}

/// The heuristic's choice over the walk `sorted`: the admitted candidates,
/// then the set-aside ones in walk order, up to `m` in all.
pub open spec fn heuristic_choice(sorted: Seq<Scored>, ans: Map<(int, int), DistKey>, m: usize) -> Seq<
    Scored,
> {
    let (sel, pr) = diverse(sorted, ans, m, sorted.len() as int);
    if sel.len() >= m {
        sel
    } else if pr.len() <= m - sel.len() {
        sel + pr
    } else {
        sel + pr.take(m - sel.len())
    }
}

/// Distances recorded for a later candidate leave the pass over earlier
/// ones unchanged.
proof fn lemma_diverse_frame(
    sorted: Seq<Scored>,
    ans: Map<(int, int), DistKey>,
    m: usize,
    i: int,
    a: int,
    b: int,
    k: DistKey,
)
    requires
        i <= a,
    ensures
        diverse(sorted, ans.insert((a, b), k), m, i) == diverse(sorted, ans, m, i),
    decreases i,
{
    if i > 0 {
        lemma_diverse_frame(sorted, ans, m, i - 1, a, b, k);
        let ans2 = ans.insert((a, b), k);
        let (sel, pr) = diverse(sorted, ans, m, i - 1);
        let d = sorted[i - 1].dist;
        let n = sel.len() as int;
        assert(covered(ans2, i - 1, d, n) == covered(ans, i - 1, d, n)) by {
            if covered(ans, i - 1, d, n) {
                let j = choose|j: int|
                    0 <= j < n && ans.contains_key((i - 1, j)) && spec_dist_lt(
                        #[trigger] ans[(i - 1, j)],
                        d,
                    );
                assert(ans2[(i - 1, j)] == ans[(i - 1, j)]);
            }
            if covered(ans2, i - 1, d, n) {
                let j = choose|j: int|
                    0 <= j < n && ans2.contains_key((i - 1, j)) && spec_dist_lt(
                        #[trigger] ans2[(i - 1, j)],
                        d,
                    );
                assert(ans2[(i - 1, j)] == ans[(i - 1, j)]);
            }
        }
    }
}

/// Once `m` are admitted the pass changes no more.
proof fn lemma_diverse_full(sorted: Seq<Scored>, ans: Map<(int, int), DistKey>, m: usize, i: int, i2: int)
    requires
        0 <= i <= i2,
        diverse(sorted, ans, m, i).0.len() >= m,
    ensures
        diverse(sorted, ans, m, i2) == diverse(sorted, ans, m, i),
    decreases i2 - i,
{
    if i2 > i {
        lemma_diverse_full(sorted, ans, m, i, i2 - 1);
    }
}

/// One answered request for distances: what was asked (the node measured
/// from, `None` for the vector being inserted or searched for, and the nodes
/// measured to) and the keys given, one per node.
pub type Answer = ((Option<u32>, Seq<u32>), Seq<DistKey>);

/// Key `k` was given, in one of the answers of `hist`, as the distance from
/// node `a` to node `b`, asked on its own.
pub open spec fn pair_answered(hist: Seq<Answer>, a: u32, b: u32, k: DistKey) -> bool {
    exists|t: int| 0 <= t < hist.len() && #[trigger] hist[t] == ((Some(a), seq![b]), seq![k])
}

/// Every distance recorded in `ans` by the heuristic walking `sorted` (cap
/// `m`) is a key given in `hist` for its pair: from candidate `i` of the
/// walk to the `j`-th neighbour admitted before it.
pub open spec fn heuristic_answered(
    hist: Seq<Answer>,
    sorted: Seq<Scored>,
    ans: Map<(int, int), DistKey>,
    m: usize,
) -> bool {
    forall|p: (int, int)| #[trigger]
        ans.contains_key(p) ==> pair_answered(
            hist,
            sorted[p.0].node,
            diverse(sorted, ans, m, p.0).0[p.1].node,
            ans[p],
        )
}

/// More answers keep every recorded distance answered.
pub proof fn lemma_heuristic_answered_more(
    hist: Seq<Answer>,
    x: Answer,
    sorted: Seq<Scored>,
    ans: Map<(int, int), DistKey>,
    m: usize,
)
    requires
        heuristic_answered(hist, sorted, ans, m),
    ensures
        heuristic_answered(hist.push(x), sorted, ans, m),
{
    assert forall|p: (int, int)| #[trigger] ans.contains_key(p) implies pair_answered(
        hist.push(x),
        sorted[p.0].node,
        diverse(sorted, ans, m, p.0).0[p.1].node,
        ans[p],
    ) by {
        let a = sorted[p.0].node;
        let b = diverse(sorted, ans, m, p.0).0[p.1].node;
        let t = choose|t: int| 0 <= t < hist.len() && #[trigger] hist[t] == ((Some(a), seq![b]), seq![ans[p]]);
        assert(hist.push(x)[t] == hist[t]);
    }
}

/// Recording an answered distance for the pair under way (candidate `i`,
/// admitted neighbour `j`), when nothing recorded lies past candidate `i`,
/// keeps every recorded distance answered.
pub proof fn lemma_heuristic_answered_record(
    hist: Seq<Answer>,
    sorted: Seq<Scored>,
    ans: Map<(int, int), DistKey>,
    m: usize,
    i: int,
    j: int,
    k: DistKey,
)
    requires
        heuristic_answered(hist, sorted, ans, m),
        forall|p: (int, int)| #[trigger] ans.contains_key(p) ==> p.0 <= i,
        pair_answered(hist, sorted[i].node, diverse(sorted, ans, m, i).0[j].node, k),
    ensures
        heuristic_answered(hist, sorted, ans.insert((i, j), k), m),
{
    let a2 = ans.insert((i, j), k);
    assert forall|p: (int, int)| #[trigger] a2.contains_key(p) implies pair_answered(
        hist,
        sorted[p.0].node,
        diverse(sorted, a2, m, p.0).0[p.1].node,
        a2[p],
    ) by {
        if p == (i, j) {
            lemma_diverse_frame(sorted, ans, m, i, i, j, k);
        } else {
            assert(ans.contains_key(p));
            lemma_diverse_frame(sorted, ans, m, p.0, i, j, k);
        }
    }
}

/// The simple neighbour selection (Malkov and Yashunin's Alg 3): the
/// `m_max` nearest candidates, nearest first. Insertion uses the
/// [`Heuristic`]; this is the plain alternative to compare it against.
pub fn select_simple(candidates: &Vec<Scored>, m_max: usize) -> (r: Vec<Scored>)
    ensures
        r@ == sort_stable(candidates@).take(topk_len(candidates@.len(), m_max)),
{
    if m_max == 0 || candidates.len() == 0 {
        let empty: Vec<Scored> = Vec::new();
        assert(empty@ =~= sort_stable(candidates@).take(0));
        return empty;
    }
    take_topk_sorted(candidates, m_max)
}

/// The admitted and set-aside candidates of the first `i` come from those
/// candidates, and no node is in both or twice in either.
proof fn lemma_diverse_parts(sorted: Seq<Scored>, ans: Map<(int, int), DistKey>, m: usize, i: int)
    requires
        0 <= i <= sorted.len(),
        distinct_nodes(sorted),
    ensures
        distinct_nodes(diverse(sorted, ans, m, i).0),
        distinct_nodes(diverse(sorted, ans, m, i).1),
        forall|a: int, b: int|
            0 <= a < diverse(sorted, ans, m, i).0.len() && 0 <= b < diverse(sorted, ans, m, i).1.len()
                ==> (#[trigger] diverse(sorted, ans, m, i).0[a]).node != (#[trigger] diverse(
                sorted,
                ans,
                m,
                i,
            ).1[b]).node,
        forall|a: int|
            0 <= a < diverse(sorted, ans, m, i).0.len() ==> exists|q: int|
                0 <= q < i && sorted[q] == #[trigger] diverse(sorted, ans, m, i).0[a],
        forall|b: int|
            0 <= b < diverse(sorted, ans, m, i).1.len() ==> exists|q: int|
                0 <= q < i && sorted[q] == #[trigger] diverse(sorted, ans, m, i).1[b],
    decreases i,
{
    if i > 0 {
        lemma_diverse_parts(sorted, ans, m, i - 1);
        let (sel, pr) = diverse(sorted, ans, m, i - 1);
        let x = sorted[i - 1];
        assert(lacks_node(sel, x.node)) by {
            assert forall|a: int| 0 <= a < sel.len() implies (#[trigger] sel[a]).node != x.node by {
                let q = choose|q: int| 0 <= q < i - 1 && sorted[q] == sel[a];
            }
        }
        assert(lacks_node(pr, x.node)) by {
            assert forall|b: int| 0 <= b < pr.len() implies (#[trigger] pr[b]).node != x.node by {
                let q = choose|q: int| 0 <= q < i - 1 && sorted[q] == pr[b];
            }
        }
        let (sel2, pr2) = diverse(sorted, ans, m, i);
        assert forall|a: int| 0 <= a < sel2.len() implies exists|q: int|
            0 <= q < i && sorted[q] == #[trigger] sel2[a] by {
            if a < sel.len() {
                assert(sel2[a] == sel[a]);
                let q = choose|q: int| 0 <= q < i - 1 && sorted[q] == sel[a];
            } else {
                assert(sel2[a] == x);
            }
        }
        assert forall|b: int| 0 <= b < pr2.len() implies exists|q: int|
            0 <= q < i && sorted[q] == #[trigger] pr2[b] by {
            if b < pr.len() {
                assert(pr2[b] == pr[b]);
                let q = choose|q: int| 0 <= q < i - 1 && sorted[q] == pr[b];
            } else {
                assert(pr2[b] == x);
            }
        }
        assert forall|a: int, b: int| 0 <= a < sel2.len() && 0 <= b < pr2.len() implies (
        #[trigger] sel2[a]).node != (#[trigger] pr2[b]).node by {
            if a < sel.len() && b < pr.len() {
                assert(sel2[a] == sel[a] && pr2[b] == pr[b]);
            } else if a < sel.len() {
                assert(sel2[a] == sel[a]);
            } else if b < pr.len() {
                assert(pr2[b] == pr[b]);
            }
        }
        assert forall|a1: int, a2: int| 0 <= a1 < a2 < sel2.len() implies (
        #[trigger] sel2[a1]).node != (#[trigger] sel2[a2]).node by {
            if a2 < sel.len() {
                assert(sel2[a1] == sel[a1] && sel2[a2] == sel[a2]);
            } else {
                assert(sel2[a1] == sel[a1]);
            }
        }
        assert forall|b1: int, b2: int| 0 <= b1 < b2 < pr2.len() implies (
        #[trigger] pr2[b1]).node != (#[trigger] pr2[b2]).node by {
            if b2 < pr.len() {
                assert(pr2[b1] == pr[b1] && pr2[b2] == pr[b2]);
            } else {
                assert(pr2[b1] == pr[b1]);
            }
        }
    }
}

/// The heuristic's choice over candidates for distinct nodes is for
/// distinct nodes.
pub proof fn lemma_heuristic_choice_distinct(
    sorted: Seq<Scored>,
    ans: Map<(int, int), DistKey>,
    m: usize,
)
    requires
        distinct_nodes(sorted),
    ensures
        distinct_nodes(heuristic_choice(sorted, ans, m)),
{
    lemma_diverse_parts(sorted, ans, m, sorted.len() as int);
    let (sel, pr) = diverse(sorted, ans, m, sorted.len() as int);
    let r = heuristic_choice(sorted, ans, m);
    if sel.len() < m {
        let t = if pr.len() <= m - sel.len() {
            pr
        } else {
            pr.take(m - sel.len())
        };
        assert(r == sel + t);
        assert forall|i: int, j: int| 0 <= i < j < r.len() implies (#[trigger] r[i]).node != (
        #[trigger] r[j]).node by {
            if j < sel.len() {
                assert(r[i] == sel[i] && r[j] == sel[j]);
            } else if i < sel.len() {
                assert(r[i] == sel[i] && r[j] == pr[j - sel.len()]);
            } else {
                assert(r[i] == pr[i - sel.len()] && r[j] == pr[j - sel.len()]);
            }
        }
    }
}

/// The neighbour-selection heuristic over a fixed candidate list, suspended
/// whenever it needs the distance between a candidate and an admitted
/// neighbour.
pub struct Heuristic {
    pub(crate) sorted: Vec<Scored>,
    pub(crate) i: usize,
    pub(crate) j: usize,
    pub(crate) selected: Vec<Scored>,
    pub(crate) pruned: Vec<Scored>,
    pub(crate) m_max: usize,
    pub(crate) done: bool,
    pub(crate) candidates: Ghost<Seq<Scored>>,
    pub(crate) ans: Ghost<Map<(int, int), DistKey>>,
}

impl Heuristic {
    pub(crate) open spec fn inv(&self) -> bool {
        &&& self.sorted@ == sort_stable(self.candidates@)
        &&& self.i <= self.sorted@.len()
        &&& self.selected@.len() <= self.m_max
        &&& !self.done ==> self.selected@.len() + self.pruned@.len() == self.i
        &&& !self.done ==> self.j <= self.selected@.len()
        &&& !self.done ==> self.i < self.sorted@.len() ==> self.selected@.len() < self.m_max
            || self.j == 0
        &&& forall|k: int|
            0 <= k < self.selected@.len() ==> self.candidates@.contains(#[trigger] self.selected@[k])
        &&& forall|k: int|
            0 <= k < self.pruned@.len() ==> self.candidates@.contains(#[trigger] self.pruned@[k])
        &&& self.done ==> self.selected@.len() == if self.candidates@.len() < self.m_max {
            self.candidates@.len() as int
        } else {
            self.m_max as int
        }
        &&& !self.done ==> (self.selected@, self.pruned@) == diverse(
            self.sorted@,
            self.ans@,
            self.m_max,
            self.i as int,
        )
        &&& !self.done ==> forall|q: int|
            0 <= q < self.j ==> #[trigger] self.ans@.contains_key((self.i as int, q))
                && !spec_dist_lt(self.ans@[(self.i as int, q)], self.sorted@[self.i as int].dist)
        &&& self.done ==> self.selected@ == heuristic_choice(self.sorted@, self.ans@, self.m_max)
    }

    /// The current pair awaiting a distance: from the candidate under
    /// consideration to the admitted neighbour it is compared with.
    pub(crate) open spec fn pair(&self) -> (u32, u32) {
        (self.sorted@[self.i as int].node, self.selected@[self.j as int].node)
    }

    /// The heuristic is waiting for the distance of [`Heuristic::pair`].
    pub(crate) open spec fn waiting(&self) -> bool {
        &&& !self.done
        &&& self.i < self.sorted@.len()
        &&& self.selected@.len() < self.m_max
        &&& self.j < self.selected@.len()
    }

    /// Start the heuristic on `candidates`, keeping at most `m_max`.
    pub(crate) fn new(candidates: &Vec<Scored>, m_max: usize) -> (r: Self)
        ensures
            r.inv(),
            r.candidates@ == candidates@,
            r.m_max == m_max,
            r.waiting() || r.done,
            r.ans@ == Map::<(int, int), DistKey>::empty(),
    {
        let sorted = sort_by_rank(candidates);
        proof {
            lemma_sort_stable(candidates@);
        }
        let mut h = Heuristic {
            sorted,
            i: 0,
            j: 0,
            selected: Vec::new(),
            pruned: Vec::new(),
            m_max,
            done: false,
            candidates: Ghost(candidates@),
            ans: Ghost(Map::empty()),
        };
        h.settle();
        h
    }

    /// Admit candidates that no admitted neighbour can cover, until a
    /// distance is needed or the walk is over (then top up from the set-aside
    /// candidates and finish).
    fn settle(&mut self)
        requires
            old(self).inv(),
        ensures
            final(self).inv(),
            final(self).candidates == old(self).candidates,
            final(self).m_max == old(self).m_max,
            final(self).waiting() || final(self).done,
            old(self).done ==> final(self).done && final(self).selected == old(self).selected,
            final(self).ans == old(self).ans,
            final(self).done || final(self).i > old(self).i || (final(self).i == old(self).i
                && final(self).j == old(self).j),
    {
        if self.done {
            return;
        }
        proof {
            lemma_sort_stable(self.candidates@);
        }
        loop
            invariant
                self.inv(),
                !self.done,
                !old(self).done,
                self.candidates == old(self).candidates,
                self.m_max == old(self).m_max,
                self.ans == old(self).ans,
                self.i > old(self).i || (self.i == old(self).i && self.j == old(self).j),
                self.candidates@.len() == self.sorted@.len(),
                forall|y: Scored| #[trigger] self.sorted@.contains(y) <==> self.candidates@.contains(y),
            ensures
                self.inv(),
                !self.done,
                self.candidates == old(self).candidates,
                self.m_max == old(self).m_max,
                self.ans == old(self).ans,
                self.candidates@.len() == self.sorted@.len(),
                self.i >= self.sorted@.len() || self.selected@.len() >= self.m_max,
            decreases self.sorted@.len() - self.i,
        {
            if self.i >= self.sorted.len() || self.selected.len() >= self.m_max {
                break;
            }
            if self.j < self.selected.len() {
                return;
            }
            let c = self.sorted[self.i];
            proof {
                assert(self.sorted@.contains(c));
                assert(!covered(self.ans@, self.i as int, c.dist, self.selected@.len() as int)) by {
                    if covered(self.ans@, self.i as int, c.dist, self.selected@.len() as int) {
                        let q = choose|q: int|
                            0 <= q < self.selected@.len() && self.ans@.contains_key(
                                (self.i as int, q),
                            ) && spec_dist_lt(#[trigger] self.ans@[(self.i as int, q)], c.dist);
                        assert(self.ans@.contains_key((self.i as int, q)));
                    }
                }
            }
            let ghost s0 = self.selected@;
            self.selected.push(c);
            self.i = self.i + 1;
            self.j = 0;
            proof {
                assert forall|k: int| 0 <= k < self.selected@.len() implies self.candidates@.contains(
                    #[trigger] self.selected@[k],
                ) by {
                    if k < s0.len() {
                        assert(self.selected@[k] == s0[k]);
                    }
                }
            }
        }
        // Top up from the set-aside candidates, nearest first.
        let ghost sel0 = self.selected@.len();
        let ghost admitted = self.selected@;
        proof {
            if self.i < self.sorted@.len() {
                lemma_diverse_full(
                    self.sorted@,
                    self.ans@,
                    self.m_max,
                    self.i as int,
                    self.sorted@.len() as int,
                );
            }
        }
        let mut k: usize = 0;
        while k < self.pruned.len() && self.selected.len() < self.m_max
            invariant
                (admitted, self.pruned@) == diverse(
                    self.sorted@,
                    self.ans@,
                    self.m_max,
                    self.sorted@.len() as int,
                ),
                self.selected@ == admitted + self.pruned@.take(k as int),
                admitted.len() == sel0,
                self.ans == old(self).ans,
                self.sorted@ == sort_stable(self.candidates@),
                self.i <= self.sorted@.len(),
                self.selected@.len() <= self.m_max,
                forall|q: int|
                    0 <= q < self.selected@.len() ==> self.candidates@.contains(
                        #[trigger] self.selected@[q],
                    ),
                forall|q: int|
                    0 <= q < self.pruned@.len() ==> self.candidates@.contains(
                        #[trigger] self.pruned@[q],
                    ),
                !self.done,
                self.candidates == old(self).candidates,
                self.m_max == old(self).m_max,
                self.candidates@.len() == self.sorted@.len(),
                self.i == self.sorted@.len() || sel0 >= self.m_max,
                0 <= k <= self.pruned@.len(),
                sel0 + self.pruned@.len() == self.i,
                self.selected@.len() == sel0 + k,
            decreases self.pruned@.len() - k,
        {
            let c = self.pruned[k];
            let ghost s0 = self.selected@;
            self.selected.push(c);
            k = k + 1;
            proof {
                assert(self.selected@ =~= admitted + self.pruned@.take(k as int));
                assert(self.candidates@.contains(c));
                assert forall|q: int| 0 <= q < self.selected@.len() implies self.candidates@.contains(
                    #[trigger] self.selected@[q],
                ) by {
                    if q < s0.len() {
                        assert(self.selected@[q] == s0[q]);
                    }
                }
            }
        }
        proof {
            let m = self.m_max;
            if sel0 >= m {
                assert(self.selected@ =~= admitted);
            } else if self.pruned@.len() <= m - sel0 {
                assert(k == self.pruned@.len());
                assert(self.pruned@.take(k as int) =~= self.pruned@);
            } else {
                assert(k == m - sel0);
            }
        }
        self.done = true;
    }

    /// Answer the pending distance (see [`Heuristic::pair`]): it is recorded
    /// under the pair's positions; a key below the candidate's own distance
    /// covers the candidate, which is set aside; otherwise the next admitted
    /// neighbour is compared. The walk moves on to a later candidate, or to
    /// the next neighbour of the same one, or finishes.
    pub(crate) fn feed(&mut self, key: DistKey)
        requires
            old(self).inv(),
            old(self).waiting(),
        ensures
            final(self).inv(),
            final(self).candidates == old(self).candidates,
            final(self).m_max == old(self).m_max,
            final(self).waiting() || final(self).done,
            final(self).ans@ == old(self).ans@.insert((old(self).i as int, old(self).j as int), key),
            final(self).done || final(self).i > old(self).i || (final(self).i == old(self).i
                && final(self).j == old(self).j + 1),
    {
        let n = self.sorted.len();
        let c = self.sorted[self.i];
        let ghost ans0 = self.ans@;
        proof {
            self.ans = Ghost(self.ans@.insert((self.i as int, self.j as int), key));
            lemma_diverse_frame(
                self.sorted@,
                ans0,
                self.m_max,
                self.i as int,
                self.i as int,
                self.j as int,
                key,
            );
        }
        if dist_lt(key, c.dist) {
            proof {
                assert(self.ans@[(self.i as int, self.j as int)] == key);
                assert(covered(self.ans@, self.i as int, c.dist, self.selected@.len() as int));
            }
            let ghost p0 = self.pruned@;
            self.pruned.push(c);
            self.i = self.i + 1;
            self.j = 0;
            proof {
                lemma_sort_stable(self.candidates@);
                assert(self.sorted@.contains(c));
                assert forall|k: int| 0 <= k < self.pruned@.len() implies self.candidates@.contains(
                    #[trigger] self.pruned@[k],
                ) by {
                    if k < p0.len() {
                        assert(self.pruned@[k] == p0[k]);
                    }
                }
            }
            proof {
                assert(diverse(self.sorted@, self.ans@, self.m_max, self.i as int) == (
                    self.selected@,
                    self.pruned@,
                ));
            }
        } else {
            let ghost i0 = self.i as int;
            let ghost j0 = self.j as int;
            self.j = self.j + 1;
            proof {
                assert forall|q: int| 0 <= q < self.j implies #[trigger] self.ans@.contains_key(
                    (i0, q),
                ) && !spec_dist_lt(self.ans@[(i0, q)], self.sorted@[i0].dist) by {
                    if q < j0 {
                        assert(ans0.contains_key((i0, q)));
                        assert(self.ans@[(i0, q)] == ans0[(i0, q)]);
                    }
                }
            }
        }
        proof {
            assert((self.selected@, self.pruned@) == diverse(
                self.sorted@,
                self.ans@,
                self.m_max,
                self.i as int,
            ));
        }
        self.settle();
    }

    /// The pair whose distance is awaited, if any.
    pub(crate) fn pending_pair(&self) -> (r: Option<(u32, u32)>)
        requires
            self.inv(),
            self.waiting() || self.done,
        ensures
            r is None <==> self.done,
            r matches Some(p) ==> p == self.pair(),
    {
        if self.done {
            None
        } else {
            Some((self.sorted[self.i].node, self.selected[self.j].node))
        }
    }
}

/// The position of the last element of `s` that no later or earlier element
/// beats, scanning from `k` with `best` the winner so far (ties go to the
/// later element).
pub open spec fn last_max_from(s: Seq<Scored>, k: int, best: int) -> int
    decreases s.len() - k,
{
    if k < 0 || k >= s.len() {
        best
    } else if !scored_lt(s[k], s[best]) {
        last_max_from(s, k + 1, k)
    } else {
        last_max_from(s, k + 1, best)
    }
}

/// The position of the last greatest element of non-empty `s`.
pub open spec fn last_max(s: Seq<Scored>) -> int {
    last_max_from(s, 1, 0)
}

/// The position of the first element of `s` for node `v` (`s.len()` if none).
pub open spec fn first_for(s: Seq<Scored>, v: u32, k: int) -> int
    decreases s.len() - k,
{
    if k < 0 || k >= s.len() {
        s.len() as int
    } else if s[k].node == v {
        k
    } else {
        first_for(s, v, k + 1)
    }
}

/// Whether some element of `s` is for node `v`.
pub open spec fn has_node(s: Seq<Scored>, v: u32) -> bool {
    exists|k: int| 0 <= k < s.len() && (#[trigger] s[k]).node == v
}

/// `chosen` with `pin` forced in: unchanged when it already holds `pin` or
/// `pin` is not among `cands`; otherwise `pin`'s first entry in `cands` is
/// appended, after the last greatest element of `chosen` is swap-removed when
/// `chosen` is already at `cap`.
pub open spec fn pinned(chosen: Seq<Scored>, cands: Seq<Scored>, pin: u32, cap: usize) -> Seq<
    Scored,
> {
    if has_node(chosen, pin) || first_for(cands, pin, 0) >= cands.len() {
        chosen
    } else {
        let p = cands[first_for(cands, pin, 0)];
        let kept = if chosen.len() >= cap && chosen.len() > 0 {
            chosen.update(last_max(chosen), chosen.last()).drop_last()
        } else {
            chosen
        };
        kept.push(p)
    }
}

/// The node indices of `s`, in order.
pub open spec fn nodes_of(s: Seq<Scored>) -> Seq<u32> {
    Seq::new(s.len(), |k: int| s[k].node)
}

proof fn lemma_first_for(s: Seq<Scored>, v: u32, k: int)
    requires
        0 <= k <= s.len(),
    ensures
        k <= first_for(s, v, k) <= s.len(),
        first_for(s, v, k) < s.len() ==> s[first_for(s, v, k)].node == v,
    decreases s.len() - k,
{
    if k < s.len() && s[k].node != v {
        lemma_first_for(s, v, k + 1);
    }
}

proof fn lemma_first_for_finds(s: Seq<Scored>, v: u32, k: int, j: int)
    requires
        0 <= k <= j < s.len(),
        s[j].node == v,
    ensures
        first_for(s, v, k) <= j,
    decreases j - k,
{
    if s[k].node != v {
        lemma_first_for_finds(s, v, k + 1, j);
    }
}

/// When some candidate is for `pin`, the pinned list holds `pin`.
pub proof fn lemma_pinned_holds_pin(chosen: Seq<Scored>, cands: Seq<Scored>, pin: u32, cap: usize)
    requires
        has_node(cands, pin),
    ensures
        nodes_of(pinned(chosen, cands, pin, cap)).contains(pin),
{
    let p = pinned(chosen, cands, pin, cap);
    if has_node(chosen, pin) {
        let k = choose|k: int| 0 <= k < chosen.len() && (#[trigger] chosen[k]).node == pin;
        assert(nodes_of(p)[k] == pin);
    } else {
        let j = choose|j: int| 0 <= j < cands.len() && (#[trigger] cands[j]).node == pin;
        lemma_first_for_finds(cands, pin, 0, j);
        lemma_first_for(cands, pin, 0);
        assert(nodes_of(p)[p.len() - 1] == pin);
    }
}

/// Pinning keeps the nodes distinct: the list's node indices repeat none.
pub proof fn lemma_pinned_distinct(chosen: Seq<Scored>, cands: Seq<Scored>, pin: u32, cap: usize)
    requires
        distinct_nodes(chosen),
    ensures
        nodes_of(pinned(chosen, cands, pin, cap)).no_duplicates(),
{
    let p = pinned(chosen, cands, pin, cap);
    if has_node(chosen, pin) || first_for(cands, pin, 0) >= cands.len() {
        assert(p == chosen);
    } else {
        lemma_first_for(cands, pin, 0);
        let x = cands[first_for(cands, pin, 0)];
        assert(x.node == pin);
        let kept = if chosen.len() >= cap && chosen.len() > 0 {
            chosen.update(last_max(chosen), chosen.last()).drop_last()
        } else {
            chosen
        };
        // each kept element comes from its own position of `chosen`
        let src = |a: int| if chosen.len() >= cap && chosen.len() > 0 && a == last_max(chosen) {
            chosen.len() - 1
        } else {
            a
        };
        if chosen.len() >= cap && chosen.len() > 0 {
            lemma_last_max_from(chosen, 1, 0);
        }
        assert forall|a: int| 0 <= a < kept.len() implies 0 <= #[trigger] src(a) < chosen.len() && kept[a]
            == chosen[src(a)] by {}
        assert forall|a: int, b: int| 0 <= a < p.len() && 0 <= b < p.len() && a != b implies nodes_of(p)[a]
            != nodes_of(p)[b] by {
            if a < kept.len() && b < kept.len() {
                assert(src(a) != src(b));
                if src(a) < src(b) {
                    assert(chosen[src(a)].node != chosen[src(b)].node);
                } else {
                    assert(chosen[src(b)].node != chosen[src(a)].node);
                }
            } else if a < kept.len() {
                assert(chosen[src(a)].node != pin);
            } else {
                assert(chosen[src(b)].node != pin);
            }
        }
    }
}

proof fn lemma_last_max_from(s: Seq<Scored>, k: int, best: int)
    requires
        1 <= k <= s.len(),
        0 <= best < k,
    ensures
        0 <= last_max_from(s, k, best) < s.len(),
    decreases s.len() - k,
{
    if k < s.len() {
        if !scored_lt(s[k], s[best]) {
            lemma_last_max_from(s, k + 1, k);
        } else {
            lemma_last_max_from(s, k + 1, best);
        }
    }
}

proof fn lemma_last_max_from_is_max(s: Seq<Scored>, k: int, best: int)
    requires
        1 <= k <= s.len(),
        0 <= best < k,
        forall|q: int| 0 <= q < k ==> !scored_lt(s[best], #[trigger] s[q]),
    ensures
        forall|q: int| 0 <= q < s.len() ==> !scored_lt(s[last_max_from(s, k, best)], #[trigger] s[q]),
    decreases s.len() - k,
{
    if k < s.len() {
        if !scored_lt(s[k], s[best]) {
            lemma_last_max_from_is_max(s, k + 1, k);
        } else {
            lemma_last_max_from_is_max(s, k + 1, best);
        }
    }
}

/// Forcing `pin` into a full list evicts a worst element. When `chosen` (at
/// or over `cap`, non-empty) lacks `pin` and some candidate is for `pin`,
/// the pinned list is as long as `chosen`, ends with that candidate, keeps
/// every element of `chosen` but one, and the one it drops is no better than
/// anything it keeps: each kept element precedes or ties the dropped one.
pub proof fn law_pinned_evicts_worst(chosen: Seq<Scored>, cands: Seq<Scored>, pin: u32, cap: usize)
    requires
        !has_node(chosen, pin),
        has_node(cands, pin),
        chosen.len() >= cap,
        chosen.len() > 0,
    ensures
        ({
            let out = pinned(chosen, cands, pin, cap);
            &&& out.len() == chosen.len()
            &&& out.last().node == pin
            &&& cands.contains(out.last())
            &&& exists|w: int|
                #![trigger chosen[w]]
                0 <= w < chosen.len() && (forall|q: int|
                    0 <= q < chosen.len() && q != w ==> out.drop_last().contains(#[trigger] chosen[q]))
                    && (forall|q: int|
                    0 <= q < out.len() - 1 ==> !scored_lt(chosen[w], #[trigger] out[q]))
        }),
{
    let out = pinned(chosen, cands, pin, cap);
    let j = choose|j: int| 0 <= j < cands.len() && (#[trigger] cands[j]).node == pin;
    lemma_first_for_finds(cands, pin, 0, j);
    lemma_first_for(cands, pin, 0);
    let w = last_max(chosen);
    lemma_last_max_from(chosen, 1, 0);
    lemma_last_max_from_is_max(chosen, 1, 0);
    let n = chosen.len();
    let kept = chosen.update(w, chosen.last()).drop_last();
    assert(out == kept.push(cands[first_for(cands, pin, 0)]));
    assert(out.drop_last() =~= kept);
    assert forall|q: int| 0 <= q < n && q != w implies out.drop_last().contains(#[trigger] chosen[q]) by {
        if q == n - 1 {
            assert(kept[w] == chosen[q]);
        } else {
            assert(kept[q] == chosen[q]);
        }
    }
    assert forall|q: int| 0 <= q < out.len() - 1 implies !scored_lt(chosen[w], #[trigger] out[q]) by {
        assert(out[q] == kept[q]);
        if q == w {
            assert(kept[q] == chosen[n - 1]);
        } else {
            assert(kept[q] == chosen[q]);
        }
    }
    assert(cands.contains(out.last())) by {
        assert(cands[first_for(cands, pin, 0)] == out.last());
    }
    assert(0 <= w < n && chosen[w] == chosen[w]);
}

/// The node list of [`pinned`]: `chosen` with `pin` forced in, at most
/// `cap` long when `chosen` is.
pub fn pinned_nodes(chosen: &Vec<Scored>, cands: &Vec<Scored>, pin: u32, cap: usize) -> (r: Vec<u32>)
    requires
        chosen@.len() <= cap,
    ensures
        r@ == nodes_of(pinned(chosen@, cands@, pin, cap)),
        r@.len() <= cap || cap == 0,
        forall|k: int|
            0 <= k < r@.len() ==> (exists|q: int|
                0 <= q < chosen@.len() && chosen@[q].node == #[trigger] r@[k]) || (exists|q: int|
                0 <= q < cands@.len() && cands@[q].node == r@[k]),
{
    let mut present = false;
    let mut k: usize = 0;
    while k < chosen.len()
        invariant
            0 <= k <= chosen@.len(),
            present == exists|q: int| 0 <= q < k && (#[trigger] chosen@[q]).node == pin,
        decreases chosen@.len() - k,
    {
        if chosen[k].node == pin {
            present = true;
        }
        k = k + 1;
    }
    let mut p: usize = 0;
    while p < cands.len() && cands[p].node != pin
        invariant
            0 <= p <= cands@.len(),
            first_for(cands@, pin, 0) == first_for(cands@, pin, p as int),
        decreases cands@.len() - p,
    {
        p = p + 1;
    }
    proof {
        lemma_first_for(cands@, pin, 0);
    }
    let mut list: Vec<Scored> = Vec::new();
    let mut q: usize = 0;
    while q < chosen.len()
        invariant
            0 <= q <= chosen@.len(),
            list@ == chosen@.take(q as int),
        decreases chosen@.len() - q,
    {
        list.push(chosen[q]);
        q = q + 1;
        proof {
            assert(list@ =~= chosen@.take(q as int));
        }
    }
    proof {
        assert(list@ =~= chosen@);
    }
    if !present && p < cands.len() {
        if chosen.len() >= cap && chosen.len() > 0 {
            let mut best: usize = 0;
            let mut j: usize = 1;
            while j < chosen.len()
                invariant
                    1 <= j <= chosen@.len(),
                    0 <= best < j,
                    last_max(chosen@) == last_max_from(chosen@, j as int, best as int),
                decreases chosen@.len() - j,
            {
                if !chosen[j].precedes(&chosen[best]) {
                    best = j;
                }
                j = j + 1;
            }
            let _ = list.swap_remove(best);
        }
        list.push(cands[p]);
    }
    let ghost pl = pinned(chosen@, cands@, pin, cap);
    proof {
        assert(list@ =~= pl);
    }
    let mut out: Vec<u32> = Vec::new();
    let mut t: usize = 0;
    while t < list.len()
        invariant
            0 <= t <= list@.len(),
            out@ == nodes_of(list@.take(t as int)),
        decreases list@.len() - t,
    {
        out.push(list[t].node);
        t = t + 1;
        proof {
            assert(out@ =~= nodes_of(list@.take(t as int)));
        }
    }
    proof {
        assert(list@.take(list@.len() as int) =~= list@);
        assert forall|k: int| 0 <= k < out@.len() implies (exists|q: int|
            0 <= q < chosen@.len() && chosen@[q].node == #[trigger] out@[k]) || (exists|q: int|
            0 <= q < cands@.len() && cands@[q].node == out@[k]) by {
            if has_node(chosen@, pin) || first_for(cands@, pin, 0) >= cands@.len() {
                assert(chosen@[k].node == out@[k]);
            } else if chosen@.len() >= cap && chosen@.len() > 0 {
                let w = last_max(chosen@);
                lemma_last_max_from(chosen@, 1, 0);
                if k == pl.len() - 1 {
                    assert(cands@[first_for(cands@, pin, 0)].node == out@[k]);
                } else if k == w {
                    assert(chosen@[chosen@.len() - 1].node == out@[k]);
                } else {
                    assert(chosen@[k].node == out@[k]);
                }
            } else {
                if k == pl.len() - 1 {
                    assert(cands@[first_for(cands@, pin, 0)].node == out@[k]);
                } else {
                    assert(chosen@[k].node == out@[k]);
                }
            }
        }
    }
    out
}

} // verus!
