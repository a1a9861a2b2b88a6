//! When the members of a subgraph are nodes and its unit edges close no
//! cycle, the depth-first walk of the subgraph gives a topological order:
//! each unit comes before the units that it has an edge to.

use vstd::prelude::*;
use crate::handles::{SubgraphHandle, UnitHandle};
use crate::dag::DAG;
use crate::reach::{unit_reaches, lemma_unit_reaches_self};
use crate::toposort::lemma_unit_reaches_append;

verus! {

/// The entries of `wl` strictly between positions `p` and `q` are visits
/// still to make.
#[verifier::opaque]
pub open spec fn no_true_between(wl: Seq<(UnitHandle, bool)>, p: int, q: int) -> bool {
    forall|m: int| p < m < q ==> !(#[trigger] wl[m]).1
}

/// Each unit of `succs`, as a visit to make.
pub open spec fn pending(succs: Seq<UnitHandle>) -> Seq<(UnitHandle, bool)> {
    Seq::new(succs.len(), |k: int| (succs[k], false))
}

/// Two worklists that agree between positions `p` and `q` agree on whether
/// a unit is being walked there.
pub proof fn lemma_between_same(wl0: Seq<(UnitHandle, bool)>, wl1: Seq<(UnitHandle, bool)>, p: int, q: int)
    requires
        0 <= p < q <= wl1.len(),
        q <= wl0.len(),
        forall|k: int| p < k < q ==> #[trigger] wl1[k] == wl0[k],
        no_true_between(wl1, p, q),
    ensures
        no_true_between(wl0, p, q),
{
    reveal(no_true_between);
    assert forall|m: int| p < m < q implies !(#[trigger] wl0[m]).1 by {
        assert(wl1[m] == wl0[m]);
    }
}

/// No unit is being walked at a position between `p` and `q`.
pub proof fn lemma_between_at(wl: Seq<(UnitHandle, bool)>, p: int, q: int, m: int)
    requires
        no_true_between(wl, p, q),
        p < m < q,
    ensures
        !wl[m].1,
{
    reveal(no_true_between);
}

impl DAG {
    /// No unit edge from a member of `s` closes a cycle of unit edges (an
    /// edge from a unit to itself aside).
    pub open(crate) spec fn units_acyclic(&self, s: SubgraphHandle) -> bool {
        forall|u: UnitHandle, v: UnitHandle|
            #![trigger self.is_member(s, u), self.unit_succs(u).contains(v)]
            self.is_member(s, u) && self.unit_succs(u).contains(v) && v != u ==> !unit_reaches(self, v, u)
    }

    /// Each unit of `order` comes after the other units that it has an edge
    /// to.
    pub open(crate) spec fn succs_before(&self, order: Seq<UnitHandle>) -> bool {
        forall|i: int, v: UnitHandle|
            #![trigger self.unit_succs(order[i]).contains(v)]
            0 <= i < order.len() && self.unit_succs(order[i]).contains(v) && v != order[i]
                ==> exists|j: int| 0 <= j < i && order[j] == v
    }

    /// Each unit of `order` comes before the other units that it has an edge
    /// to.
    pub open(crate) spec fn is_topological(&self, order: Seq<UnitHandle>) -> bool {
        forall|i: int, v: UnitHandle|
            #![trigger self.unit_succs(order[i]).contains(v)]
            0 <= i < order.len() && self.unit_succs(order[i]).contains(v) && v != order[i]
                ==> exists|j: int| i < j < order.len() && order[j] == v
    }

    /// Each unit being walked has each other successor finished, still to
    /// visit above it in the worklist, or being walked below it.
    #[verifier::opaque]
    pub open(crate) spec fn succs_pending(&self, order: Seq<UnitHandle>, wl: Seq<(UnitHandle, bool)>) -> bool {
        forall|p: int, v: UnitHandle|
            #![trigger wl[p], self.unit_succs(wl[p].0).contains(v)]
            0 <= p < wl.len() && wl[p].1 && self.unit_succs(wl[p].0).contains(v) && v != wl[p].0 ==> {
                ||| order.contains(v)
                ||| exists|q: int| p < q < wl.len() && (#[trigger] wl[q]).0 == v
                ||| exists|q: int| 0 <= q < p && #[trigger] wl[q] == (v, true)
            }
    }

    /// The units being walked reach one another upwards.
    #[verifier::opaque]
    pub open(crate) spec fn walked_reach(&self, wl: Seq<(UnitHandle, bool)>) -> bool {
        forall|p: int, q: int|
            0 <= p < q < wl.len() && (#[trigger] wl[p]).1 && (#[trigger] wl[q]).1 ==> unit_reaches(self, wl[p].0, wl[q].0)
    }

    /// Every entry is a successor of the nearest unit being walked below it.
    #[verifier::opaque]
    pub open(crate) spec fn pushed_by_walked(&self, wl: Seq<(UnitHandle, bool)>) -> bool {
        forall|p: int, q: int|
            0 <= p < q < wl.len() && (#[trigger] wl[p]).1 && no_true_between(wl, p, q)
                ==> self.unit_succs(wl[p].0).contains((#[trigger] wl[q]).0)
    }

    /// What the walk keeps besides `dfs_inv`: the finished units come after
    /// their successors, and the three facts above.
    pub open(crate) spec fn dfs_topo_inv(&self, order: Seq<UnitHandle>, wl: Seq<(UnitHandle, bool)>) -> bool {
        &&& self.succs_before(order)
        &&& self.succs_pending(order, wl)
        &&& self.walked_reach(wl)
        &&& self.pushed_by_walked(wl)
    }

    /// At the start of the walk nothing is finished or being walked.
    pub(crate) proof fn lemma_topo_start(&self, wl: Seq<(UnitHandle, bool)>)
        requires
            forall|k: int| 0 <= k < wl.len() ==> !(#[trigger] wl[k]).1,
        ensures
            self.dfs_topo_inv(Seq::empty(), wl),
    {
        reveal(DAG::succs_pending);
        reveal(DAG::walked_reach);
        reveal(DAG::pushed_by_walked);
    }

    /// Dropping the top entry keeps the units being walked reaching one
    /// another.
    pub(crate) proof fn lemma_reach_drop(&self, wl0: Seq<(UnitHandle, bool)>)
        requires
            wl0.len() > 0,
            self.walked_reach(wl0),
        ensures
            self.walked_reach(wl0.drop_last()),
    {
        reveal(DAG::walked_reach);
        let wl1 = wl0.drop_last();
        assert forall|p: int, q: int|
            0 <= p < q < wl1.len() && (#[trigger] wl1[p]).1 && (#[trigger] wl1[q]).1 implies unit_reaches(self, wl1[p].0, wl1[q].0) by {
            assert(wl1[p] == wl0[p] && wl1[q] == wl0[q]);
        }
    }

    /// Dropping the top entry keeps each entry a successor of the nearest
    /// unit being walked below it.
    pub(crate) proof fn lemma_pushed_drop(&self, wl0: Seq<(UnitHandle, bool)>)
        requires
            wl0.len() > 0,
            self.pushed_by_walked(wl0),
        ensures
            self.pushed_by_walked(wl0.drop_last()),
    {
        reveal(DAG::pushed_by_walked);
        let wl1 = wl0.drop_last();
        assert forall|p: int, q: int|
            0 <= p < q < wl1.len() && (#[trigger] wl1[p]).1 && no_true_between(wl1, p, q)
            implies self.unit_succs(wl1[p].0).contains((#[trigger] wl1[q]).0) by {
            assert(wl1[p] == wl0[p] && wl1[q] == wl0[q]);
            lemma_between_same(wl0, wl1, p, q);
        }
    }

    /// Dropping the top entry keeps the facts on the units being walked.
    pub(crate) proof fn lemma_walked_drop(&self, wl0: Seq<(UnitHandle, bool)>)
        requires
            wl0.len() > 0,
            self.walked_reach(wl0),
            self.pushed_by_walked(wl0),
        ensures
            self.walked_reach(wl0.drop_last()),
            self.pushed_by_walked(wl0.drop_last()),
    {
        self.lemma_reach_drop(wl0);
        self.lemma_pushed_drop(wl0);
    }

    /// Finishing the unit `x` on top of the worklist puts it after its
    /// successors.
    pub(crate) proof fn lemma_finish_order(&self, s: SubgraphHandle, o0: Seq<UnitHandle>, wl0: Seq<(UnitHandle, bool)>, x: UnitHandle)
        requires
            self.succs_before(o0),
            self.succs_pending(o0, wl0),
            self.walked_reach(wl0),
            wl0.len() > 0,
            wl0[wl0.len() - 1] == (x, true),
            self.is_member(s, x),
            self.units_acyclic(s),
        ensures
            self.succs_before(o0.push(x)),
    {
        reveal(DAG::succs_pending);
        reveal(DAG::walked_reach);
        let o1 = o0.push(x);
        let top = wl0.len() - 1;
        assert forall|i: int, v: UnitHandle|
            0 <= i < o1.len() && #[trigger] self.unit_succs(o1[i]).contains(v) && v != o1[i]
            implies exists|j: int| 0 <= j < i && o1[j] == v by {
            if i < o0.len() {
                assert(o1[i] == o0[i]);
                assert(self.unit_succs(o0[i]).contains(v));
                let j = choose|j: int| 0 <= j < i && o0[j] == v;
                assert(o1[j] == v);
            } else {
                assert(o1[i] == x);
                assert(wl0[top].0 == x && wl0[top].1);
                assert(self.unit_succs(wl0[top].0).contains(v));
                if o0.contains(v) {
                    let j = choose|j: int| 0 <= j < o0.len() && o0[j] == v;
                    assert(o1[j] == v);
                } else if exists|q: int| 0 <= q < top && #[trigger] wl0[q] == (v, true) {
                    let q = choose|q: int| 0 <= q < top && #[trigger] wl0[q] == (v, true);
                    assert(unit_reaches(self, wl0[q].0, wl0[top].0));
                    assert(self.is_member(s, x) && self.unit_succs(x).contains(v));
                    assert(false);
                } else {
                    assert(exists|q: int| top < q < wl0.len() && (#[trigger] wl0[q]).0 == v);
                    assert(false);
                }
            }
        }
    }

    /// Finishing the unit `x` on top of the worklist keeps the successors of
    /// the units being walked accounted for.
    pub(crate) proof fn lemma_finish_pending(&self, o0: Seq<UnitHandle>, wl0: Seq<(UnitHandle, bool)>, x: UnitHandle)
        requires
            self.succs_pending(o0, wl0),
            wl0.len() > 0,
            wl0[wl0.len() - 1] == (x, true),
        ensures
            self.succs_pending(o0.push(x), wl0.drop_last()),
    {
        reveal(DAG::succs_pending);
        let o1 = o0.push(x);
        let wl1 = wl0.drop_last();
        let top = wl0.len() - 1;
        assert forall|p: int, v: UnitHandle|
            0 <= p < wl1.len() && (#[trigger] wl1[p]).1 && #[trigger] self.unit_succs(wl1[p].0).contains(v) && v != wl1[p].0
            implies {
                ||| o1.contains(v)
                ||| exists|q: int| p < q < wl1.len() && (#[trigger] wl1[q]).0 == v
                ||| exists|q: int| 0 <= q < p && #[trigger] wl1[q] == (v, true)
            } by {
            assert(wl1[p] == wl0[p]);
            assert(self.unit_succs(wl0[p].0).contains(v));
            if o0.contains(v) {
                let j = choose|j: int| 0 <= j < o0.len() && o0[j] == v;
                assert(o1[j] == v);
            } else if exists|q: int| p < q < wl0.len() && (#[trigger] wl0[q]).0 == v {
                let q = choose|q: int| p < q < wl0.len() && (#[trigger] wl0[q]).0 == v;
                if q == top {
                    assert(o1[o0.len() as int] == v);
                } else {
                    assert(wl1[q] == wl0[q]);
                }
            } else {
                let q = choose|q: int| 0 <= q < p && #[trigger] wl0[q] == (v, true);
                assert(wl1[q] == wl0[q]);
            }
        }
    }

    /// Finishing the unit on top of the worklist.
    pub(crate) proof fn lemma_topo_finish(&self, s: SubgraphHandle, o0: Seq<UnitHandle>, wl0: Seq<(UnitHandle, bool)>, x: UnitHandle)
        requires
            self.dfs_topo_inv(o0, wl0),
            wl0.len() > 0,
            wl0[wl0.len() - 1] == (x, true),
            self.is_member(s, x),
            self.units_acyclic(s),
        ensures
            self.dfs_topo_inv(o0.push(x), wl0.drop_last()),
    {
        self.lemma_finish_order(s, o0, wl0, x);
        self.lemma_finish_pending(o0, wl0, x);
        self.lemma_walked_drop(wl0);
    }

    /// Dropping a visit to a unit that is finished or being walked keeps the
    /// successors of the units being walked accounted for.
    pub(crate) proof fn lemma_skip_pending(&self, o0: Seq<UnitHandle>, wl0: Seq<(UnitHandle, bool)>, x: UnitHandle)
        requires
            self.succs_pending(o0, wl0),
            wl0.len() > 0,
            wl0[wl0.len() - 1] == (x, false),
            o0.contains(x) || wl0.contains((x, true)),
        ensures
            self.succs_pending(o0, wl0.drop_last()),
    {
        reveal(DAG::succs_pending);
        let wl1 = wl0.drop_last();
        let top = wl0.len() - 1;
        assert forall|p: int, v: UnitHandle|
            0 <= p < wl1.len() && (#[trigger] wl1[p]).1 && #[trigger] self.unit_succs(wl1[p].0).contains(v) && v != wl1[p].0
            implies {
                ||| o0.contains(v)
                ||| exists|q: int| p < q < wl1.len() && (#[trigger] wl1[q]).0 == v
                ||| exists|q: int| 0 <= q < p && #[trigger] wl1[q] == (v, true)
            } by {
            assert(wl1[p] == wl0[p]);
            assert(self.unit_succs(wl0[p].0).contains(v));
            if o0.contains(v) {
            } else if exists|q: int| p < q < wl0.len() && (#[trigger] wl0[q]).0 == v {
                let q = choose|q: int| p < q < wl0.len() && (#[trigger] wl0[q]).0 == v;
                if q == top {
                    assert(v == x);
                    let q2 = choose|q2: int| 0 <= q2 < wl0.len() && wl0[q2] == (x, true);
                    assert(q2 != top);
                    assert(q2 != p);
                    assert(wl1[q2] == wl0[q2]);
                    if q2 > p {
                        assert(wl1[q2].0 == v);
                    } else {
                        assert(wl1[q2] == (v, true));
                    }
                } else {
                    assert(wl1[q] == wl0[q]);
                }
            } else {
                let q = choose|q: int| 0 <= q < p && #[trigger] wl0[q] == (v, true);
                assert(wl1[q] == wl0[q]);
            }
        }
    }

    /// Dropping a visit to a unit that is finished or being walked.
    pub(crate) proof fn lemma_topo_skip(&self, o0: Seq<UnitHandle>, wl0: Seq<(UnitHandle, bool)>, x: UnitHandle)
        requires
            self.dfs_topo_inv(o0, wl0),
            wl0.len() > 0,
            wl0[wl0.len() - 1] == (x, false),
            o0.contains(x) || wl0.contains((x, true)),
        ensures
            self.dfs_topo_inv(o0, wl0.drop_last()),
    {
        self.lemma_skip_pending(o0, wl0, x);
        self.lemma_walked_drop(wl0);
    }

    /// Below position `q` and at or above a unit being walked at `p`, there
    /// is a nearest unit being walked.
    pub(crate) proof fn lemma_nearest_walked(&self, wl: Seq<(UnitHandle, bool)>, p: int, q: int) -> (r: int)
        requires
            0 <= p < q <= wl.len(),
            wl[p].1,
        ensures
            p <= r < q,
            wl[r].1,
            no_true_between(wl, r, q),
        decreases q - p,
    {
        reveal(no_true_between);
        if no_true_between(wl, p, q) {
            p
        } else {
            let m = choose|m: int| p < m < q && (#[trigger] wl[m]).1;
            self.lemma_nearest_walked(wl, m, q)
        }
    }

    /// The shape of the worklist once `x` is being walked and a visit to each
    /// of its successors is pushed.
    pub(crate) proof fn lemma_expand_shape(wl0: Seq<(UnitHandle, bool)>, x: UnitHandle, succs: Seq<UnitHandle>, wl2: Seq<(UnitHandle, bool)>)
        requires
            wl0.len() > 0,
            wl2 == wl0.drop_last().push((x, true)) + pending(succs),
        ensures
            wl2.len() == wl0.len() + succs.len(),
            forall|k: int| 0 <= k < wl0.len() - 1 ==> #[trigger] wl2[k] == wl0[k],
            wl2[wl0.len() - 1] == (x, true),
            forall|k: int| wl0.len() - 1 < k < wl2.len() ==> #[trigger] wl2[k] == (succs[k - wl0.len()], false),
    {
        let top = wl0.len() - 1;
        let wlp = wl0.drop_last();
        assert forall|k: int| 0 <= k < top implies #[trigger] wl2[k] == wl0[k] by {
            assert(wl2[k] == wlp.push((x, true))[k]);
        }
        assert(wl2[top] == wlp.push((x, true))[top]);
        assert forall|k: int| top < k < wl2.len() implies #[trigger] wl2[k] == (succs[k - wl0.len()], false) by {
            assert(wl2[k] == pending(succs)[k - top - 1]);
        }
    }

    /// Pushing the visits keeps the successors of the units being walked
    /// accounted for.
    pub(crate) proof fn lemma_expand_pending(
        &self,
        o0: Seq<UnitHandle>,
        wl0: Seq<(UnitHandle, bool)>,
        x: UnitHandle,
        succs: Seq<UnitHandle>,
        wl2: Seq<(UnitHandle, bool)>,
    )
        requires
            self.succs_pending(o0, wl0),
            wl0.len() > 0,
            wl0[wl0.len() - 1] == (x, false),
            forall|v: UnitHandle| #[trigger] self.unit_succs(x).contains(v) ==> succs.contains(v),
            wl2 == wl0.drop_last().push((x, true)) + pending(succs),
        ensures
            self.succs_pending(o0, wl2),
    {
        reveal(DAG::succs_pending);
        let top = wl0.len() - 1;
        Self::lemma_expand_shape(wl0, x, succs, wl2);
        assert forall|p: int, v: UnitHandle|
            0 <= p < wl2.len() && (#[trigger] wl2[p]).1 && #[trigger] self.unit_succs(wl2[p].0).contains(v) && v != wl2[p].0
            implies {
                ||| o0.contains(v)
                ||| exists|q: int| p < q < wl2.len() && (#[trigger] wl2[q]).0 == v
                ||| exists|q: int| 0 <= q < p && #[trigger] wl2[q] == (v, true)
            } by {
            if p < top {
                assert(wl2[p] == wl0[p]);
                assert(self.unit_succs(wl0[p].0).contains(v));
                if o0.contains(v) {
                } else if exists|q: int| p < q < wl0.len() && (#[trigger] wl0[q]).0 == v {
                    let q = choose|q: int| p < q < wl0.len() && (#[trigger] wl0[q]).0 == v;
                    if q == top {
                        assert(wl2[top].0 == v);
                    } else {
                        assert(wl2[q] == wl0[q]);
                    }
                } else {
                    let q = choose|q: int| 0 <= q < p && #[trigger] wl0[q] == (v, true);
                    assert(wl2[q] == wl0[q]);
                }
            } else if p == top {
                assert(wl2[p].0 == x);
                assert(succs.contains(v));
                let m = choose|m: int| 0 <= m < succs.len() && succs[m] == v;
                assert(wl2[top + 1 + m] == (succs[m], false));
                assert(wl2[top + 1 + m].0 == v);
            } else {
                assert(!wl2[p].1);
            }
        }
    }

    /// The unit now walked is reached by the units walked below it.
    pub(crate) proof fn lemma_expand_reach(
        &self,
        wl0: Seq<(UnitHandle, bool)>,
        x: UnitHandle,
        succs: Seq<UnitHandle>,
        wl2: Seq<(UnitHandle, bool)>,
    )
        requires
            self.walked_reach(wl0),
            self.pushed_by_walked(wl0),
            wl0.len() > 0,
            wl0[wl0.len() - 1] == (x, false),
            forall|k: int| 0 <= k < wl0.len() ==> self.unit_valid(#[trigger] wl0[k].0),
            wl2 == wl0.drop_last().push((x, true)) + pending(succs),
        ensures
            self.walked_reach(wl2),
    {
        reveal(DAG::walked_reach);
        reveal(DAG::pushed_by_walked);
        let top = wl0.len() - 1;
        Self::lemma_expand_shape(wl0, x, succs, wl2);
        assert forall|p: int, q: int|
            0 <= p < q < wl2.len() && (#[trigger] wl2[p]).1 && (#[trigger] wl2[q]).1 implies unit_reaches(self, wl2[p].0, wl2[q].0) by {
            if q > top {
                assert(!wl2[q].1);
            } else if q < top {
                assert(wl2[p] == wl0[p] && wl2[q] == wl0[q]);
            } else {
                assert(wl2[p] == wl0[p]);
                let r = self.lemma_nearest_walked(wl0, p, top);
                assert(wl0[top].0 == x);
                assert(self.unit_succs(wl0[r].0).contains(wl0[top].0));
                if r == p {
                    lemma_unit_reaches_self(self, wl0[p].0);
                } else {
                    assert(unit_reaches(self, wl0[p].0, wl0[r].0));
                }
                assert(self.unit_valid(wl0[r].0));
                lemma_unit_reaches_append(self, wl0[p].0, wl0[r].0, x);
            }
        }
    }

    /// The visits pushed are successors of the unit now walked.
    pub(crate) proof fn lemma_expand_pushed(
        &self,
        wl0: Seq<(UnitHandle, bool)>,
        x: UnitHandle,
        succs: Seq<UnitHandle>,
        wl2: Seq<(UnitHandle, bool)>,
    )
        requires
            self.pushed_by_walked(wl0),
            wl0.len() > 0,
            wl0[wl0.len() - 1] == (x, false),
            forall|k: int| 0 <= k < succs.len() ==> self.unit_succs(x).contains(#[trigger] succs[k]),
            wl2 == wl0.drop_last().push((x, true)) + pending(succs),
        ensures
            self.pushed_by_walked(wl2),
    {
        reveal(DAG::pushed_by_walked);
        let top = wl0.len() - 1;
        Self::lemma_expand_shape(wl0, x, succs, wl2);
        assert forall|p: int, q: int|
            0 <= p < q < wl2.len() && (#[trigger] wl2[p]).1 && no_true_between(wl2, p, q)
            implies self.unit_succs(wl2[p].0).contains((#[trigger] wl2[q]).0) by {
            if p > top {
                assert(!wl2[p].1);
            } else if q <= top {
                assert(wl2[p] == wl0[p]);
                lemma_between_same(wl0, wl2, p, q);
                if q < top {
                    assert(wl2[q] == wl0[q]);
                } else {
                    assert(wl2[q].0 == wl0[q].0);
                }
            } else if p < top {
                lemma_between_at(wl2, p, q, top);
            } else {
                assert(wl2[p].0 == x);
                assert(wl2[q] == (succs[q - wl0.len()], false));
            }
        }
    }

    /// Starting the walk of the unit on top of the worklist, and pushing a
    /// visit to each of its successors.
    pub(crate) proof fn lemma_topo_expand(
        &self,
        o0: Seq<UnitHandle>,
        wl0: Seq<(UnitHandle, bool)>,
        x: UnitHandle,
        succs: Seq<UnitHandle>,
        wl2: Seq<(UnitHandle, bool)>,
    )
        requires
            self.dfs_topo_inv(o0, wl0),
            wl0.len() > 0,
            wl0[wl0.len() - 1] == (x, false),
            forall|k: int| 0 <= k < wl0.len() ==> self.unit_valid(#[trigger] wl0[k].0),
            forall|k: int| 0 <= k < succs.len() ==> self.unit_succs(x).contains(#[trigger] succs[k]),
            forall|v: UnitHandle| #[trigger] self.unit_succs(x).contains(v) ==> succs.contains(v),
            wl2 == wl0.drop_last().push((x, true)) + pending(succs),
        ensures
            self.dfs_topo_inv(o0, wl2),
    {
        self.lemma_expand_pending(o0, wl0, x, succs, wl2);
        self.lemma_expand_reach(wl0, x, succs, wl2);
        self.lemma_expand_pushed(wl0, x, succs, wl2);
    }

    /// A post-order in which successors come first, reversed, is a
    /// topological order.
    pub(crate) proof fn lemma_topo_reverse(&self, order: Seq<UnitHandle>)
        requires
            self.succs_before(order),
        ensures
            self.is_topological(order.reverse()),
    {
        let r = order.reverse();
        let n = order.len();
        assert forall|i: int, v: UnitHandle|
            0 <= i < r.len() && #[trigger] self.unit_succs(r[i]).contains(v) && v != r[i]
            implies exists|j: int| i < j < r.len() && r[j] == v by {
            let i2 = n - 1 - i;
            assert(r[i] == order[i2]);
            assert(self.unit_succs(order[i2]).contains(v));
            let j2 = choose|j2: int| 0 <= j2 < i2 && order[j2] == v;
            assert(r[n - 1 - j2] == v);
        }
    }
}

} // verus!
