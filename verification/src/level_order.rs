//! Levels computed in a topological order: the level of a node is the length
//! of the longest path of edges to it.

use vstd::prelude::*;
use crate::handles::UnitHandle;
use crate::dag::DAG;
use crate::levels::{LevelMark, relax_one, relax_list, level_fold, initial_levels, computed_levels};

verus! {

/// Relaxing edges from `src` never lowers a level.
pub proof fn lemma_relax_list_mono(st: Map<UnitHandle, LevelMark>, src: UnitHandle, ds: Seq<UnitHandle>, x: UnitHandle)
    ensures
        relax_list(st, src, ds)[x].0 >= st[x].0,
    decreases ds.len(),
{
    if ds.len() > 0 {
        lemma_relax_list_mono(st, src, ds.drop_last(), x);
    }
}

/// Relaxing edges from `src` leaves alone `src` and the units that are not
/// their destinations.
pub proof fn lemma_relax_list_same(st: Map<UnitHandle, LevelMark>, src: UnitHandle, ds: Seq<UnitHandle>, x: UnitHandle)
    requires
        x == src || !ds.contains(x),
    ensures
        relax_list(st, src, ds)[x] == st[x],
    decreases ds.len(),
{
    if ds.len() > 0 {
        assert(x == src || !ds.drop_last().contains(x)) by {
            if x != src && ds.drop_last().contains(x) {
                let k = choose|k: int| 0 <= k < ds.drop_last().len() && ds.drop_last()[k] == x;
                assert(ds[k] == x);
            }
        }
        lemma_relax_list_same(st, src, ds.drop_last(), x);
        if x != src {
            assert(ds[ds.len() - 1] == ds.last());
        }
    }
}

/// Relaxing the edges from `src` puts each node destination other than
/// `src` at least one level below it.
pub proof fn lemma_relax_list_below(st: Map<UnitHandle, LevelMark>, src: UnitHandle, ds: Seq<UnitHandle>, v: UnitHandle)
    requires
        ds.contains(v),
        v != src,
        v is Node,
    ensures
        relax_list(st, src, ds)[v].0 >= st[src].0 + 1,
    decreases ds.len(),
{
    let rest = ds.drop_last();
    let before = relax_list(st, src, rest);
    lemma_relax_list_same(st, src, rest, src);
    if ds.last() == v {
        assert(before[src] == st[src]);
    } else {
        let k = choose|k: int| 0 <= k < ds.len() && ds[k] == v;
        assert(k < ds.len() - 1);
        assert(rest[k] == v);
        lemma_relax_list_below(st, src, rest, v);
    }
}

/// Folding the edges of the units `srcs` never lowers a level.
pub proof fn lemma_fold_mono(dag: &DAG, st: Map<UnitHandle, LevelMark>, srcs: Seq<UnitHandle>, x: UnitHandle)
    ensures
        level_fold(dag, st, srcs)[x].0 >= st[x].0,
    decreases srcs.len(),
{
    if srcs.len() > 0 {
        lemma_fold_mono(dag, st, srcs.drop_last(), x);
        lemma_relax_list_mono(level_fold(dag, st, srcs.drop_last()), srcs.last(), dag.unit_succs(srcs.last()), x);
    }
}

/// Folding the edges of units none of which has an edge to `x` (but from
/// `x` itself) leaves `x` alone.
pub proof fn lemma_fold_same(dag: &DAG, st: Map<UnitHandle, LevelMark>, srcs: Seq<UnitHandle>, x: UnitHandle)
    requires
        forall|k: int| 0 <= k < srcs.len() ==> #[trigger] srcs[k] == x || !dag.unit_succs(srcs[k]).contains(x),
    ensures
        level_fold(dag, st, srcs)[x] == st[x],
    decreases srcs.len(),
{
    if srcs.len() > 0 {
        let rest = srcs.drop_last();
        assert forall|k: int| 0 <= k < rest.len() implies #[trigger] rest[k] == x || !dag.unit_succs(rest[k]).contains(x) by {
            assert(rest[k] == srcs[k]);
        }
        lemma_fold_same(dag, st, rest, x);
        assert(srcs[srcs.len() - 1] == srcs.last());
        lemma_relax_list_same(level_fold(dag, st, rest), srcs.last(), dag.unit_succs(srcs.last()), x);
    }
}

/// Folding a concatenation folds its two parts in turn.
pub proof fn lemma_fold_concat(dag: &DAG, st: Map<UnitHandle, LevelMark>, a: Seq<UnitHandle>, b: Seq<UnitHandle>)
    ensures
        level_fold(dag, st, a + b) == level_fold(dag, level_fold(dag, st, a), b),
    decreases b.len(),
{
    if b.len() == 0 {
        assert(a + b =~= a);
    } else {
        assert((a + b).drop_last() =~= a + b.drop_last());
        assert((a + b).last() == b.last());
        lemma_fold_concat(dag, st, a, b.drop_last());
    }
}

/// Relaxing the edges from `src` leaves a level as it was or puts the unit
/// just below `src`, when it is one of the destinations other than `src`.
pub proof fn lemma_relax_list_tight(st: Map<UnitHandle, LevelMark>, src: UnitHandle, ds: Seq<UnitHandle>, x: UnitHandle)
    ensures
        relax_list(st, src, ds)[x].0 == st[x].0
            || (relax_list(st, src, ds)[x].0 == st[src].0 + 1 && ds.contains(x) && x != src),
    decreases ds.len(),
{
    if ds.len() > 0 {
        let rest = ds.drop_last();
        lemma_relax_list_tight(st, src, rest, x);
        lemma_relax_list_same(st, src, rest, src);
        if rest.contains(x) {
            let k = choose|k: int| 0 <= k < rest.len() && rest[k] == x;
            assert(ds[k] == x);
        }
        if ds.last() == x {
            assert(ds[ds.len() - 1] == x);
        }
    }
}

/// Relaxing edges leaves alone a subgraph that an edge has already set.
pub proof fn lemma_relax_list_set(st: Map<UnitHandle, LevelMark>, src: UnitHandle, ds: Seq<UnitHandle>, v: UnitHandle)
    requires
        v is Subgraph,
        st[v].1,
    ensures
        relax_list(st, src, ds)[v] == st[v],
    decreases ds.len(),
{
    if ds.len() > 0 {
        lemma_relax_list_set(st, src, ds.drop_last(), v);
    }
}

/// The edges from `src` to a subgraph `v` that no edge has set yet, at
/// level 0, put it one level below `src` and mark it set.
pub proof fn lemma_relax_list_first(st: Map<UnitHandle, LevelMark>, src: UnitHandle, ds: Seq<UnitHandle>, v: UnitHandle)
    requires
        v is Subgraph,
        v != src,
        ds.contains(v),
        st[v] == (0int, false),
        st[src].0 >= 0,
    ensures
        relax_list(st, src, ds)[v] == (st[src].0 + 1, true),
    decreases ds.len(),
{
    let rest = ds.drop_last();
    lemma_relax_list_same(st, src, rest, src);
    if rest.contains(v) {
        lemma_relax_list_first(st, src, rest, v);
        lemma_relax_list_set(relax_list(st, src, rest), src, seq![ds.last()], v);
        assert(seq![ds.last()].drop_last() =~= Seq::<UnitHandle>::empty());
    } else {
        let k = choose|k: int| 0 <= k < ds.len() && ds[k] == v;
        if k < ds.len() - 1 {
            assert(rest[k] == v);
        }
        assert(ds.last() == v);
        lemma_relax_list_same(st, src, rest, v);
    }
}

/// Folding edges leaves alone a subgraph that an edge has already set.
pub proof fn lemma_fold_set(dag: &DAG, st: Map<UnitHandle, LevelMark>, srcs: Seq<UnitHandle>, v: UnitHandle)
    requires
        v is Subgraph,
        st[v].1,
    ensures
        level_fold(dag, st, srcs)[v] == st[v],
    decreases srcs.len(),
{
    if srcs.len() > 0 {
        lemma_fold_set(dag, st, srcs.drop_last(), v);
        lemma_relax_list_set(level_fold(dag, st, srcs.drop_last()), srcs.last(), dag.unit_succs(srcs.last()), v);
    }
}

/// The first index up to `k` of a unit of `order`, other than `v`, with an
/// edge to `v`.
proof fn first_pred(dag: &DAG, order: Seq<UnitHandle>, v: UnitHandle, k: int) -> (f: int)
    requires
        0 <= k < order.len(),
        order[k] != v,
        dag.unit_succs(order[k]).contains(v),
    ensures
        0 <= f <= k,
        order[f] != v,
        dag.unit_succs(order[f]).contains(v),
        forall|j: int| 0 <= j < f ==> #[trigger] order[j] == v || !dag.unit_succs(order[j]).contains(v),
    decreases k,
{
    if exists|j: int| 0 <= j < k && order[j] != v && #[trigger] dag.unit_succs(order[j]).contains(v) {
        let j = choose|j: int| 0 <= j < k && order[j] != v && #[trigger] dag.unit_succs(order[j]).contains(v);
        first_pred(dag, order, v, j)
    } else {
        k
    }
}

/// Where `order[k]` is the first unit of `order` with an edge to the
/// subgraph `v` (of `order`), the edges of the first `k + 1` units put `v`
/// one level below `order[k]`, at a level of at least 1, and mark it set.
proof fn lemma_fold_first(dag: &DAG, order: Seq<UnitHandle>, v: UnitHandle, k: int)
    requires
        order.contains(v),
        v is Subgraph,
        0 <= k < order.len(),
        order[k] != v,
        dag.unit_succs(order[k]).contains(v),
        forall|j: int| 0 <= j < k ==> #[trigger] order[j] == v || !dag.unit_succs(order[j]).contains(v),
    ensures
        ({
            let init = initial_levels(order);
            let l0 = level_fold(dag, init, order.take(k));
            let l1 = level_fold(dag, init, order.take(k + 1));
            &&& l0[order[k]].0 >= 0
            &&& l1[order[k]] == l0[order[k]]
            &&& l1[v] == (l0[order[k]].0 + 1, true)
        }),
{
    let u = order[k];
    let a = order.take(k);
    let init = initial_levels(order);
    assert(order.take(k + 1) =~= a.push(u));
    assert(a.push(u).drop_last() =~= a);
    let l0 = level_fold(dag, init, a);
    assert forall|j: int| 0 <= j < a.len() implies #[trigger] a[j] == v || !dag.unit_succs(a[j]).contains(v) by {
        assert(a[j] == order[j]);
    }
    lemma_fold_same(dag, init, a, v);
    assert(init[v] == (0int, false));
    assert(order.contains(u));
    assert(init[u].0 == 0);
    lemma_fold_mono(dag, init, a, u);
    lemma_relax_list_first(l0, u, dag.unit_succs(u), v);
    lemma_relax_list_same(l0, u, dag.unit_succs(u), u);
}

/// In a topological order without repeats, after the edges of the first `j`
/// units, each unit of the order is at level 0 or just below one of those
/// `j` units with an edge to it.
proof fn lemma_fold_tight(dag: &DAG, order: Seq<UnitHandle>, j: int, x: UnitHandle)
    requires
        dag.is_topological(order),
        order.no_duplicates(),
        order.contains(x),
        0 <= j <= order.len(),
    ensures
        ({
            let st = level_fold(dag, initial_levels(order), order.take(j));
            st[x].0 == 0 || exists|k: int| 0 <= k < j && order[k] != x
                && #[trigger] dag.unit_succs(order[k]).contains(x)
                && st[x].0 == st[order[k]].0 + 1
        }),
    decreases j,
{
    let init = initial_levels(order);
    if j == 0 {
        assert(order.take(0) =~= Seq::<UnitHandle>::empty());
    } else {
        lemma_fold_tight(dag, order, j - 1, x);
        let src = order[j - 1];
        let s0 = level_fold(dag, init, order.take(j - 1));
        let s1 = level_fold(dag, init, order.take(j));
        assert(order.take(j).drop_last() =~= order.take(j - 1));
        assert(order.take(j).last() == src);
        assert(s1 == relax_list(s0, src, dag.unit_succs(src)));
        lemma_relax_list_tight(s0, src, dag.unit_succs(src), x);
        lemma_relax_list_same(s0, src, dag.unit_succs(src), src);
        if s1[x].0 != s0[x].0 {
            assert(order[j - 1] != x && dag.unit_succs(order[j - 1]).contains(x) && s1[x].0 == s1[order[j - 1]].0 + 1);
        } else if s1[x].0 != 0 {
            let k = choose|k: int| 0 <= k < j - 1 && order[k] != x
                && #[trigger] dag.unit_succs(order[k]).contains(x)
                && s0[x].0 == s0[order[k]].0 + 1;
            let w = order[k];
            if dag.unit_succs(src).contains(w) && w != src {
                let m = choose|m: int| j - 1 < m < order.len() && order[m] == w;
                assert(order[k] == order[m]);
            }
            assert(w != src) by {
                assert(order[k] != order[j - 1]);
            }
            lemma_relax_list_same(s0, src, dag.unit_succs(src), w);
            assert(s1[x].0 == s1[order[k]].0 + 1);
        }
    }
}

impl DAG {
    /// A subgraph of the order is one level below the first unit of a
    /// topological order without repeats that has an edge to it.
    pub proof fn lemma_subgraph_below_first(&self, order: Seq<UnitHandle>, v: UnitHandle, k: int)
        requires
            self.is_topological(order),
            order.no_duplicates(),
            order.contains(v),
            v is Subgraph,
            0 <= k < order.len(),
            order[k] != v,
            self.unit_succs(order[k]).contains(v),
            forall|j: int| 0 <= j < k ==> #[trigger] order[j] == v || !self.unit_succs(order[j]).contains(v),
        ensures
            computed_levels(self, order)[v].0 == computed_levels(self, order)[order[k]].0 + 1,
    {
        let u = order[k];
        let init = initial_levels(order);
        let b = order.skip(k + 1);
        assert(order =~= order.take(k + 1) + b);
        lemma_fold_first(self, order, v, k);
        let l1 = level_fold(self, init, order.take(k + 1));
        lemma_fold_concat(self, init, order.take(k + 1), b);
        lemma_fold_set(self, l1, b, v);
        assert forall|j: int| 0 <= j < b.len() implies #[trigger] b[j] == u || !self.unit_succs(b[j]).contains(u) by {
            assert(b[j] == order[k + 1 + j]);
            if self.unit_succs(b[j]).contains(u) && b[j] != u {
                let m = choose|m: int| k + 1 + j < m < order.len() && order[m] == u;
                assert(order[k] == order[m]);
            }
        }
        lemma_fold_same(self, l1, b, u);
    }

    /// A unit of the order with an edge to it from another unit of the order
    /// is not at level 0, whatever the order: a node goes below each unit
    /// with an edge to it, and a subgraph below the first one.
    pub proof fn lemma_pred_not_top(&self, order: Seq<UnitHandle>, u: UnitHandle, v: UnitHandle)
        requires
            order.contains(u),
            order.contains(v),
            u != v,
            self.unit_succs(u).contains(v),
        ensures
            computed_levels(self, order)[v].0 >= 1,
    {
        let init = initial_levels(order);
        let i = choose|i: int| 0 <= i < order.len() && order[i] == u;
        let k = first_pred(self, order, v, i);
        let w = order[k];
        let b = order.skip(k + 1);
        assert(order =~= order.take(k + 1) + b);
        lemma_fold_concat(self, init, order.take(k + 1), b);
        let l1 = level_fold(self, init, order.take(k + 1));
        let l0 = level_fold(self, init, order.take(k));
        if v is Subgraph {
            lemma_fold_first(self, order, v, k);
            lemma_fold_set(self, l1, b, v);
        } else {
            assert(order.take(k + 1) =~= order.take(k).push(w));
            assert(order.take(k).push(w).drop_last() =~= order.take(k));
            assert(order.contains(w));
            assert(init[w].0 == 0);
            lemma_fold_mono(self, init, order.take(k), w);
            lemma_relax_list_below(l0, w, self.unit_succs(w), v);
            lemma_fold_mono(self, l1, b, v);
        }
    }

    /// In a topological order without repeats of units, the computed level
    /// of a unit is 0 or one more than that of a unit of the order with an
    /// edge to it.
    pub proof fn lemma_levels_tight(&self, order: Seq<UnitHandle>, v: UnitHandle)
        requires
            self.is_topological(order),
            order.no_duplicates(),
            order.contains(v),
        ensures
            computed_levels(self, order)[v].0 == 0 || exists|u: UnitHandle| #![trigger self.unit_succs(u).contains(v)]
                order.contains(u) && u != v && self.unit_succs(u).contains(v)
                && computed_levels(self, order)[v].0 == computed_levels(self, order)[u].0 + 1,
    {
        lemma_fold_tight(self, order, order.len() as int, v);
        assert(order.take(order.len() as int) =~= order);
        if computed_levels(self, order)[v].0 != 0 {
            let k = choose|k: int| 0 <= k < order.len() && order[k] != v
                && #[trigger] self.unit_succs(order[k]).contains(v)
                && computed_levels(self, order)[v].0 == computed_levels(self, order)[order[k]].0 + 1;
            assert(order.contains(order[k]));
        }
    }

    /// In a topological order without repeats of units, the computed level of
    /// a node is the length of the longest path of edges to it: at least one
    /// more than the level of each other unit of the order with an edge to
    /// it, and 0 or exactly one more than one of them.
    pub proof fn lemma_node_level_longest(&self, order: Seq<UnitHandle>, v: UnitHandle)
        requires
            self.is_topological(order),
            order.no_duplicates(),
            order.contains(v),
            v is Node,
        ensures
            forall|u: UnitHandle| #![trigger self.unit_succs(u).contains(v)]
                order.contains(u) && u != v && self.unit_succs(u).contains(v)
                    ==> computed_levels(self, order)[v].0 >= computed_levels(self, order)[u].0 + 1,
            computed_levels(self, order)[v].0 == 0 || exists|u: UnitHandle| #![trigger self.unit_succs(u).contains(v)]
                order.contains(u) && u != v && self.unit_succs(u).contains(v)
                && computed_levels(self, order)[v].0 == computed_levels(self, order)[u].0 + 1,
    {
        assert forall|u: UnitHandle| #![trigger self.unit_succs(u).contains(v)]
            order.contains(u) && u != v && self.unit_succs(u).contains(v)
                implies computed_levels(self, order)[v].0 >= computed_levels(self, order)[u].0 + 1 by {
            self.lemma_levels_follow_edges(order, u, v);
        }
        self.lemma_levels_tight(order, v);
    }

    /// In a topological order without repeats of nodes, the computed level
    /// of a node is at least one more than that of each other node with an
    /// edge to it.
    pub proof fn lemma_levels_follow_edges(&self, order: Seq<UnitHandle>, u: UnitHandle, v: UnitHandle)
        requires
            self.is_topological(order),
            order.no_duplicates(),
            order.contains(u),
            self.unit_succs(u).contains(v),
            v != u,
            v is Node,
        ensures
            computed_levels(self, order)[v].0 >= computed_levels(self, order)[u].0 + 1,
    {
        let i = choose|i: int| 0 <= i < order.len() && order[i] == u;
        let a = order.take(i);
        let b = order.skip(i + 1);
        let init = initial_levels(order);
        assert(order =~= a.push(u) + b);
        let l0 = level_fold(self, init, a);
        let l1 = level_fold(self, init, a.push(u));
        assert(a.push(u).drop_last() =~= a);
        assert(l1 == relax_list(l0, u, self.unit_succs(u)));
        lemma_fold_concat(self, init, a.push(u), b);
        // Nothing after `u` has an edge to `u`.
        assert forall|k: int| 0 <= k < b.len() implies #[trigger] b[k] == u || !self.unit_succs(b[k]).contains(u) by {
            assert(b[k] == order[i + 1 + k]);
            if self.unit_succs(b[k]).contains(u) && b[k] != u {
                let j = choose|j: int| i + 1 + k < j < order.len() && order[j] == u;
                assert(order[i] == order[j]);
            }
        }
        lemma_fold_same(self, l1, b, u);
        lemma_relax_list_same(l0, u, self.unit_succs(u), u);
        lemma_relax_list_below(l0, u, self.unit_succs(u), v);
        lemma_fold_mono(self, l1, b, v);
    }
}

} // verus!
