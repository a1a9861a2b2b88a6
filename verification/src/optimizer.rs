//! Optimization passes over the ranks of a subgraph: sinking nodes to shorten
//! the edges, and reordering rows to reduce the number of edges that cross.

use vstd::prelude::*;
use crate::handles::{NodeHandle, SubgraphHandle, UnitHandle};
use crate::dag::{DAG, pad_rows};
use crate::base::Direction;
use crate::sums::{ind, row_sum, pair_sum, swap_adjacent, lemma_row_sum_prefix, lemma_pair_sum_prefix};
use crate::rank::copy_row;
use crate::inter::{exchange, optimize_intersubgraph, unit_ready_exec};
use crate::crossing::{rows_cap, lemma_rows_crossings_cap, lemma_rows_cap_same, count_adjacent, crossings, pair_crossings, rows_crossings, local_cost, sweep_measure, row_above, row_below, lemma_crossings_prefix, lemma_count_adjacent_len, lemma_crossings_bound, lemma_pair_crossings_swap, lemma_rows_crossings_prefix};

verus! {

impl DAG {
    /// `u` has a level in the rank of the subgraph it belongs to.
    pub open(crate) spec fn has_own_level(&self, u: UnitHandle) -> bool {
        &&& self.unit_valid(u)
        &&& self.subgraph_valid(self.parent_of(u))
        &&& self.rank_of(self.parent_of(u)).level_map().contains_key(u)
    }

    /// The level of `u` in the rank of the subgraph it belongs to.
    pub open(crate) spec fn own_level(&self, u: UnitHandle) -> int {
        self.rank_of(self.parent_of(u)).level_map()[u] as int
    }

    /// The lowest level among `units`, and `bound`.
    pub open(crate) spec fn min_level(&self, units: Seq<UnitHandle>, bound: int) -> int
        decreases units.len(),
    {
        if units.len() == 0 {
            bound
        } else {
            let rest = self.min_level(units.drop_last(), bound);
            let l = self.own_level(units.last());
            if l < rest { l } else { rest }
        }
    }

    /// The level just above the highest successor of `u` (bounded by the
    /// number of nodes).
    pub open(crate) spec fn sink_target(&self, u: UnitHandle) -> int {
        self.min_level(self.unit_succs(u), self.node_count() as int) - 1
    }

    /// Whether `u` can sink: it has edges, no more predecessors than
    /// successors, and room below it before its first successor.
    pub open(crate) spec fn would_sink(&self, u: UnitHandle) -> bool {
        &&& self.unit_preds(u).len() <= self.unit_succs(u).len()
        &&& self.unit_preds(u).len() + self.unit_succs(u).len() > 0
        &&& self.sink_target(u) > self.own_level(u)
    }

    /// The total length of the edges of `u`, in levels: `level(u) - level(b)`
    /// over its predecessors `b`, and `level(f) - level(u)` over its
    /// successors `f`.
    pub open(crate) spec fn edge_span(&self, u: UnitHandle) -> int {
        self.span_in(self.unit_preds(u), u) + self.span_out(u, self.unit_succs(u))
    }

    /// The lengths of the edges from each of `bs` to `u`.
    pub open(crate) spec fn span_in(&self, bs: Seq<UnitHandle>, u: UnitHandle) -> int
        decreases bs.len(),
    {
        if bs.len() == 0 {
            0
        } else {
            self.span_in(bs.drop_last(), u) + (self.own_level(u) - self.own_level(bs.last()))
        }
    }

    /// The lengths of the edges from `u` to each of `fs`.
    pub open(crate) spec fn span_out(&self, u: UnitHandle, fs: Seq<UnitHandle>) -> int
        decreases fs.len(),
    {
        if fs.len() == 0 {
            0
        } else {
            self.span_out(u, fs.drop_last()) + (self.own_level(fs.last()) - self.own_level(u))
        }
    }

    /// Every edge of `u` goes down: each predecessor has a level above it
    /// and each successor is below it.
    pub open(crate) spec fn edges_point_down(&self, u: UnitHandle) -> bool {
        &&& forall|k: int| 0 <= k < self.unit_preds(u).len() ==> self.has_own_level(#[trigger] self.unit_preds(u)[k])
            && self.own_level(self.unit_preds(u)[k]) < self.own_level(u)
        &&& forall|k: int| 0 <= k < self.unit_succs(u).len() ==> self.own_level(u) < self.own_level(#[trigger] self.unit_succs(u)[k])
    }

    /// What sinking `u` in subgraph `s` needs: levels for it and its
    /// successors, and the rank it moves in is its own.
    pub open(crate) spec fn can_try_sink(&self, u: UnitHandle, s: SubgraphHandle) -> bool {
        &&& self.wf()
        &&& self.subgraph_valid(s)
        &&& self.has_own_level(u)
        &&& self.own_level(u) < usize::MAX
        &&& self.unit_preds(u).len() + self.unit_succs(u).len() <= usize::MAX
        &&& forall|k: int| 0 <= k < self.unit_succs(u).len() ==> self.has_own_level(#[trigger] self.unit_succs(u)[k])
        &&& self.would_sink(u) ==> self.parent_of(u) == s
    }
}

/// This optimization sinks nodes in an attempt to shorten the length of edges
/// that run through the graph.
#[derive(Debug)]
pub struct RankOptimizer<'a> {
    pub dag: &'a mut DAG,
}

impl<'a> RankOptimizer<'a> {
    pub fn new(dag: &'a mut DAG) -> (r: Self)
        ensures
            *r.dag == *old(dag),
            *final(dag) == *final(r.dag),
    {
        Self { dag }
    }

    /// Sink `node` to the level just above its highest successor when that
    /// moves it down and does not add live edges. Returns true if it moved.
    pub fn try_to_sink_node(&mut self, node: UnitHandle, subgraph_idx: SubgraphHandle) -> (r: bool)
        requires
            old(self).dag.can_try_sink(node, subgraph_idx),
        ensures
            *final(final(self).dag) == *final(old(self).dag),
            r == old(self).dag.would_sink(node),
            final(self).dag.wf(),
            !r ==> *final(self).dag == *old(self).dag,
            r ==> {
                let t = old(self).dag.sink_target(node);
                &&& final(self).dag.same_except_rank(old(self).dag, subgraph_idx)
                &&& final(self).dag.rank_of(subgraph_idx).rows() == crate::dag::moved_rows(old(self).dag.rank_of(subgraph_idx).rows(), node, t as nat, None)
                &&& final(self).dag.rank_of(subgraph_idx).level_map() == old(self).dag.rank_of(subgraph_idx).level_map().insert(node, t as usize)
            },
            old(self).dag.edges_point_down(node) ==> {
                &&& final(self).dag.edges_point_down(node)
                &&& final(self).dag.edge_span(node) <= old(self).dag.edge_span(node)
            },
            r ==> {
                &&& old(self).dag.unit_succs(node).len() >= old(self).dag.unit_preds(node).len()
                &&& old(self).dag.unit_succs(node).len() + old(self).dag.unit_preds(node).len() > 0
                &&& final(self).dag.own_level(node) > old(self).dag.own_level(node)
                &&& forall|k: int| 0 <= k < old(self).dag.unit_succs(node).len() ==>
                    final(self).dag.own_level(node) < #[trigger] old(self).dag.own_level(old(self).dag.unit_succs(node)[k])
                &&& final(self).dag.own_level(node) + 1 == old(self).dag.node_count()
                    || exists|k: int| 0 <= k < old(self).dag.unit_succs(node).len()
                        && final(self).dag.own_level(node) + 1 == #[trigger] old(self).dag.own_level(old(self).dag.unit_succs(node)[k])
            },
            old(self).dag.room_to_sink(node) ==> {
                    &&& r
                    &&& forall|k: int| 0 <= k < old(self).dag.unit_succs(node).len() ==>
                        final(self).dag.own_level(node) < #[trigger] old(self).dag.own_level(old(self).dag.unit_succs(node)[k])
                    &&& exists|k: int| 0 <= k < old(self).dag.unit_succs(node).len()
                        && final(self).dag.own_level(node) + 1 == #[trigger] old(self).dag.own_level(old(self).dag.unit_succs(node)[k])
                },
    {
        proof {
            old(self).dag.lemma_sink_law(node);
        }
        let backs = node.predecessors(self.dag);
        let fwds = node.successors(self.dag);
        if backs.len() > fwds.len() || backs.len() + fwds.len() == 0 {
            return false;
        }
        let curr_rank = self.dag.level_subgraph(node);
        let mut highest_next = self.dag.len();
        let mut j: usize = 0;
        proof { assert(fwds@.take(0) =~= Seq::<UnitHandle>::empty()); }
        while j < fwds.len()
            invariant
                self.dag.can_try_sink(node, subgraph_idx),
                fwds@ == self.dag.unit_succs(node),
                j <= fwds@.len(),
                highest_next == self.dag.min_level(fwds@.take(j as int), self.dag.node_count() as int),
                highest_next <= self.dag.node_count(),
            decreases fwds@.len() - j,
        {
            let elem = fwds[j];
            proof {
                assert(fwds@.take(j as int + 1).drop_last() =~= fwds@.take(j as int));
                assert(self.dag.has_own_level(self.dag.unit_succs(node)[j as int]));
            }
            let next_rank = self.dag.level_subgraph(elem);
            if next_rank < highest_next {
                highest_next = next_rank;
            }
            j = j + 1;
        }
        proof { assert(fwds@.take(j as int) =~= fwds@); }
        if highest_next > curr_rank + 1 {
            self.dag.update_node_rank_level(node, highest_next - 1, None, subgraph_idx);
            proof {
                let o = *old(self).dag;
                self.dag.lemma_same_except_rank_wf(&o, subgraph_idx);
                self.dag.lemma_sink_span(&o, node, subgraph_idx);
                assert(self.dag.parent_of(node) == o.parent_of(node));
                assert(self.dag.own_level(node) == o.sink_target(node));
                o.lemma_min_level_cases(o.unit_succs(node), o.node_count() as int);
                assert forall|k: int| 0 <= k < o.unit_succs(node).len() implies
                    self.dag.own_level(node) < #[trigger] o.own_level(o.unit_succs(node)[k]) by {
                    o.lemma_min_level_le(o.unit_succs(node), o.node_count() as int, k);
                }
            }
            return true;
        }
        false
    }
}

/// Moving `u` down by `d` levels, and none of `bs`, lengthens the edges
/// from `bs` to `u` by `d` each.
pub proof fn lemma_span_in_shift(new: &DAG, old: &DAG, bs: Seq<UnitHandle>, u: UnitHandle, d: int)
    requires
        forall|k: int| 0 <= k < bs.len() ==> new.own_level(#[trigger] bs[k]) == old.own_level(bs[k]),
        new.own_level(u) == old.own_level(u) + d,
    ensures
        new.span_in(bs, u) == old.span_in(bs, u) + bs.len() * d,
    decreases bs.len(),
{
    if bs.len() > 0 {
        lemma_span_in_shift(new, old, bs.drop_last(), u, d);
        assert(bs[bs.len() - 1] == bs.last());
        assert((bs.len() - 1) * d + d == bs.len() * d) by (nonlinear_arith);
    }
}

/// Moving `u` down by `d` levels, and none of `fs`, shortens the edges
/// from `u` to `fs` by `d` each.
pub proof fn lemma_span_out_shift(new: &DAG, old: &DAG, u: UnitHandle, fs: Seq<UnitHandle>, d: int)
    requires
        forall|k: int| 0 <= k < fs.len() ==> new.own_level(#[trigger] fs[k]) == old.own_level(fs[k]),
        new.own_level(u) == old.own_level(u) + d,
    ensures
        new.span_out(u, fs) == old.span_out(u, fs) - fs.len() * d,
    decreases fs.len(),
{
    if fs.len() > 0 {
        lemma_span_out_shift(new, old, u, fs.drop_last(), d);
        assert(fs[fs.len() - 1] == fs.last());
        assert((fs.len() - 1) * d + d == fs.len() * d) by (nonlinear_arith);
    }
}

impl DAG {
    /// Sinking `node` (a move of it alone, down to just above its highest
    /// successor) keeps its edges pointing down and does not lengthen them,
    /// as it has no more predecessors than successors.
    proof fn lemma_sink_span(&self, old: &DAG, node: UnitHandle, s: SubgraphHandle)
        requires
            old.can_try_sink(node, s),
            old.would_sink(node),
            self.wf(),
            self.same_except_rank(old, s),
            self.rank_of(s).level_map() == old.rank_of(s).level_map().insert(node, old.sink_target(node) as usize),
        ensures
            old.edges_point_down(node) ==> {
                &&& self.edges_point_down(node)
                &&& self.edge_span(node) <= old.edge_span(node)
            },
    {
        if old.edges_point_down(node) {
            let t = old.sink_target(node);
            let d = t - old.own_level(node);
            let bs = old.unit_preds(node);
            let fs = old.unit_succs(node);
            assert(self.unit_preds(node) == bs);
            assert(self.unit_succs(node) == fs);
            assert(self.parent_of(node) == s);
            assert(self.own_level(node) == old.own_level(node) + d);
            assert forall|k: int| 0 <= k < bs.len() implies #[trigger] self.own_level(bs[k]) == old.own_level(bs[k]) by {
                assert(old.own_level(bs[k]) < old.own_level(node));
                assert(bs[k] != node);
                assert(self.parent_of(bs[k]) == old.parent_of(bs[k]));
                assert(old.has_own_level(bs[k]));
            }
            assert forall|k: int| 0 <= k < fs.len() implies #[trigger] self.own_level(fs[k]) == old.own_level(fs[k]) by {
                assert(old.own_level(node) < old.own_level(fs[k]));
                assert(fs[k] != node);
                assert(self.parent_of(fs[k]) == old.parent_of(fs[k]));
                assert(old.has_own_level(fs[k]));
            }
            lemma_span_in_shift(self, old, bs, node, d);
            lemma_span_out_shift(self, old, node, fs, d);
            assert(bs.len() * d <= fs.len() * d) by (nonlinear_arith)
                requires bs.len() <= fs.len(), d > 0;
            assert forall|k: int| 0 <= k < fs.len() implies self.own_level(node) < self.own_level(#[trigger] fs[k]) by {
                old.lemma_min_level_le(fs, old.node_count() as int, k);
            }
        }
    }
}


/// How far `u` could still sink in a rank with `levels`, below `n` rows.
pub open spec fn slack(levels: Map<UnitHandle, usize>, n: int, u: UnitHandle) -> int {
    if levels.contains_key(u) && (levels[u] as int) < n {
        n - levels[u]
    } else {
        0
    }
}

/// No unit with a level in `old` is lower (has a smaller level) in `new`.
pub open spec fn levels_not_lower(new: Map<UnitHandle, usize>, old: Map<UnitHandle, usize>) -> bool {
    forall|u: UnitHandle| #[trigger] old.contains_key(u) ==> new.contains_key(u) && new[u] >= old[u]
}

pub proof fn lemma_levels_not_lower_trans(a: Map<UnitHandle, usize>, b: Map<UnitHandle, usize>, c: Map<UnitHandle, usize>)
    requires
        levels_not_lower(a, b),
        levels_not_lower(b, c),
    ensures
        levels_not_lower(a, c),
{
    assert forall|u: UnitHandle| #[trigger] c.contains_key(u) implies a.contains_key(u) && a[u] >= c[u] by {
        assert(b.contains_key(u));
    }
}

/// The total slack of the units of `units`.
pub open spec fn total_slack(levels: Map<UnitHandle, usize>, n: int, units: Seq<UnitHandle>) -> int
    decreases units.len(),
{
    if units.len() == 0 {
        0
    } else {
        total_slack(levels, n, units.drop_last()) + slack(levels, n, units.last())
    }
}

pub proof fn lemma_total_slack_nonneg(levels: Map<UnitHandle, usize>, n: int, units: Seq<UnitHandle>)
    ensures
        total_slack(levels, n, units) >= 0,
    decreases units.len(),
{
    if units.len() > 0 {
        lemma_total_slack_nonneg(levels, n, units.drop_last());
    }
}

/// Lowering the slack of one unit of `units`, and no other, lowers the total.
pub proof fn lemma_total_slack_drops(a: Map<UnitHandle, usize>, b: Map<UnitHandle, usize>, n: int, units: Seq<UnitHandle>, u: UnitHandle)
    requires
        forall|w: UnitHandle| w != u ==> slack(b, n, w) == slack(a, n, w),
        slack(b, n, u) < slack(a, n, u),
    ensures
        total_slack(b, n, units) <= total_slack(a, n, units),
        units.contains(u) ==> total_slack(b, n, units) < total_slack(a, n, units),
    decreases units.len(),
{
    if units.len() > 0 {
        lemma_total_slack_drops(a, b, n, units.drop_last(), u);
        if units.contains(u) && units.last() != u {
            let k = choose|k: int| 0 <= k < units.len() && units[k] == u;
            assert(units.drop_last()[k] == u);
        }
    }
}

impl DAG {
    /// Two dags with the same unit edges have the same unit paths.
    pub(crate) proof fn lemma_same_unit_paths(&self, other: &DAG, p: Seq<UnitHandle>)
        requires
            forall|u: UnitHandle| #[trigger] self.unit_valid(u) == other.unit_valid(u),
            forall|u: UnitHandle| #[trigger] self.unit_succs(u) == other.unit_succs(u) || !self.unit_valid(u),
            crate::reach::is_unit_path(other, p),
        ensures
            crate::reach::is_unit_path(self, p),
    {
        assert forall|i: int| 0 <= i < p.len() - 1 implies self.unit_valid(#[trigger] p[i]) && self.unit_succs(p[i]).contains(p[i + 1]) by {
            assert(other.unit_valid(p[i]));
            assert(self.unit_succs(p[i]) == other.unit_succs(p[i]));
        }
    }

    /// A change of the ranks of one subgraph keeps what the sources of any
    /// subgraph reach.
    pub(crate) proof fn lemma_same_except_rank_reach(&self, other: &DAG, s: SubgraphHandle, t: SubgraphHandle)
        requires
            other.wf(),
            self.same_except_rank(other, s),
            other.subgraph_valid(t),
        ensures
            forall|v: UnitHandle| #[trigger] self.from_source(t, v) == other.from_source(t, v),
            forall|v: UnitHandle| #[trigger] self.is_member(t, v) == other.is_member(t, v),
            self.subgraph_closed(t) == other.subgraph_closed(t),
    {
        self.lemma_same_except_rank_wf(other, s);
        assert(self.members(t) == other.members(t)) by {
            assert(self.subgraphs@[t.index() as int].nodes@ == other.subgraphs@[t.index() as int].nodes@);
            assert(self.subgraphs@[t.index() as int].subgraphs@ == other.subgraphs@[t.index() as int].subgraphs@);
        }
        assert(self.subgraph_closed(t) == other.subgraph_closed(t)) by {
            if other.subgraph_closed(t) {
                assert forall|u: UnitHandle, k: int| self.is_member(t, u) && 0 <= k < self.unit_succs(u).len()
                    implies self.is_member(t, #[trigger] self.unit_succs(u)[k]) by {
                    other.lemma_member_valid(t, u);
                    assert(self.unit_succs(u) == other.unit_succs(u));
                }
            }
            if self.subgraph_closed(t) {
                assert forall|u: UnitHandle, k: int| other.is_member(t, u) && 0 <= k < other.unit_succs(u).len()
                    implies other.is_member(t, #[trigger] other.unit_succs(u)[k]) by {
                    other.lemma_member_valid(t, u);
                    assert(self.unit_succs(u) == other.unit_succs(u));
                }
            }
        }
        assert forall|v: UnitHandle| #[trigger] self.from_source(t, v) == other.from_source(t, v) by {
            if self.from_source(t, v) {
                let r = choose|r: UnitHandle| self.is_source(t, r) && crate::reach::unit_reaches(self, r, v);
                let p = choose|p: Seq<UnitHandle>| crate::reach::is_unit_path(self, p) && p[0] == r && p.last() == v;
                other.lemma_same_unit_paths(self, p);
                other.lemma_member_valid(t, r);
                assert(other.unit_preds(r) == self.unit_preds(r));
                assert(other.is_source(t, r));
            }
            if other.from_source(t, v) {
                let r = choose|r: UnitHandle| other.is_source(t, r) && crate::reach::unit_reaches(other, r, v);
                let p = choose|p: Seq<UnitHandle>| crate::reach::is_unit_path(other, p) && p[0] == r && p.last() == v;
                self.lemma_same_unit_paths(other, p);
                other.lemma_member_valid(t, r);
                assert(other.unit_preds(r) == self.unit_preds(r));
                assert(self.is_source(t, r));
            }
        }
    }
}


impl DAG {
    /// What sinking the units of subgraph `s` needs: the units that its
    /// sources reach have levels in its rank, with room for one more.
    pub open(crate) spec fn can_optimize_ranks(&self, s: SubgraphHandle) -> bool {
        &&& self.wf()
        &&& self.subgraph_valid(s)
        &&& self.subgraph_closed(s)
        &&& forall|v: UnitHandle| #[trigger] self.from_source(s, v) ==> {
            &&& self.rank_of(s).level_map().contains_key(v)
            &&& self.rank_of(s).level_map()[v] < usize::MAX
            &&& self.unit_preds(v).len() + self.unit_succs(v).len() <= usize::MAX
        }
    }

    pub(crate) proof fn lemma_member_parent(&self, s: SubgraphHandle, u: UnitHandle)
        requires
            self.wf(),
            self.subgraph_valid(s),
            self.is_member(s, u),
        ensures
            self.unit_valid(u),
            self.parent_of(u) == s,
    {
        self.lemma_member_valid(s, u);
        let k = choose|k: int| 0 <= k < self.members(s).len() && self.members(s)[k] == u;
        let nl = self.member_nodes(s).len();
        if k < nl {
            assert(self.members(s)[k] == UnitHandle::Node(self.member_nodes(s)[k]));
        } else {
            assert(self.members(s)[k] == UnitHandle::Subgraph(self.member_subgraphs(s)[k - nl]));
        }
    }

    /// A unit reached from a source of `s` can try to sink in `s`.
    pub(crate) proof fn lemma_can_try_sink(&self, s: SubgraphHandle, u: UnitHandle)
        requires
            self.can_optimize_ranks(s),
            self.from_source(s, u),
        ensures
            self.can_try_sink(u, s),
    {
        self.lemma_reach_member(s, u);
        self.lemma_member_parent(s, u);
        assert forall|k: int| 0 <= k < self.unit_succs(u).len() implies self.has_own_level(#[trigger] self.unit_succs(u)[k]) by {
            let v = self.unit_succs(u)[k];
            crate::toposort::lemma_unit_reaches_after(self, s, u, v);
            self.lemma_reach_member(s, v);
            self.lemma_member_parent(s, v);
        }
    }
}

impl DAG {
    pub(crate) proof fn lemma_min_level_bound(&self, units: Seq<UnitHandle>, bound: int)
        ensures
            self.min_level(units, bound) <= bound,
        decreases units.len(),
    {
        if units.len() > 0 {
            self.lemma_min_level_bound(units.drop_last(), bound);
        }
    }

    /// `u` has no more predecessors than successors, at least one successor,
    /// and each successor is at least two levels below it (and at a level no
    /// greater than the number of nodes).
    pub open(crate) spec fn room_to_sink(&self, u: UnitHandle) -> bool {
        &&& self.unit_succs(u).len() >= self.unit_preds(u).len()
        &&& self.unit_succs(u).len() > 0
        &&& forall|k: int| 0 <= k < self.unit_succs(u).len() ==>
            self.own_level(u) + 2 <= #[trigger] self.own_level(self.unit_succs(u)[k])
            && self.own_level(self.unit_succs(u)[k]) <= self.node_count()
    }

    /// The lowest level among `units` and `bound` is `bound` or the level of
    /// one of them.
    pub(crate) proof fn lemma_min_level_cases(&self, units: Seq<UnitHandle>, bound: int)
        ensures
            self.min_level(units, bound) == bound
                || exists|k: int| 0 <= k < units.len() && self.min_level(units, bound) == #[trigger] self.own_level(units[k]),
        decreases units.len(),
    {
        if units.len() > 0 {
            let rest = units.drop_last();
            self.lemma_min_level_cases(rest, bound);
            assert(units[units.len() - 1] == units.last());
            if self.min_level(units, bound) != self.own_level(units[units.len() - 1]) && self.min_level(units, bound) != bound {
                let k = choose|k: int| 0 <= k < rest.len() && self.min_level(rest, bound) == #[trigger] self.own_level(rest[k]);
                assert(rest[k] == units[k]);
            }
        }
    }

    /// The lowest level among `units` is `bound` or the level of one of them.
    pub(crate) proof fn lemma_min_level_is_one(&self, units: Seq<UnitHandle>, bound: int)
        requires
            units.len() > 0,
            forall|k: int| 0 <= k < units.len() ==> #[trigger] self.own_level(units[k]) <= bound,
        ensures
            exists|k: int| 0 <= k < units.len() && self.min_level(units, bound) == #[trigger] self.own_level(units[k]),
        decreases units.len(),
    {
        let rest = units.drop_last();
        assert(units[units.len() - 1] == units.last());
        if rest.len() > 0 {
            assert forall|k: int| 0 <= k < rest.len() implies #[trigger] self.own_level(rest[k]) <= bound by {
                assert(rest[k] == units[k]);
            }
            self.lemma_min_level_is_one(rest, bound);
            let k = choose|k: int| 0 <= k < rest.len() && self.min_level(rest, bound) == #[trigger] self.own_level(rest[k]);
            assert(rest[k] == units[k]);
            if self.own_level(units.last()) < self.min_level(rest, bound) {
                assert(self.min_level(units, bound) == self.own_level(units[units.len() - 1]));
            } else {
                assert(self.min_level(units, bound) == self.own_level(units[k]));
            }
        } else {
            assert(self.min_level(rest, bound) == bound);
            assert(units[0] == units.last());
            assert(self.min_level(units, bound) == self.own_level(units[0]));
        }
    }

    /// Where `u` has no more predecessors than successors, and each successor
    /// is at least two levels below it (and not below the number of nodes),
    /// `u` would sink, to just above its highest successor.
    pub(crate) proof fn lemma_sink_law(&self, u: UnitHandle)
        ensures
            self.room_to_sink(u) ==> {
                    &&& self.would_sink(u)
                    &&& forall|k: int| 0 <= k < self.unit_succs(u).len() ==>
                        self.sink_target(u) < #[trigger] self.own_level(self.unit_succs(u)[k])
                    &&& exists|k: int| 0 <= k < self.unit_succs(u).len()
                        && self.sink_target(u) + 1 == #[trigger] self.own_level(self.unit_succs(u)[k])
                },
    {
        let fs = self.unit_succs(u);
        let b = self.node_count() as int;
        if self.room_to_sink(u) {
            assert forall|k: int| 0 <= k < fs.len() implies #[trigger] self.own_level(fs[k]) <= b by {}
            self.lemma_min_level_is_one(fs, b);
            let j = choose|j: int| 0 <= j < fs.len() && self.min_level(fs, b) == #[trigger] self.own_level(fs[j]);
            assert(self.own_level(u) + 2 <= self.own_level(fs[j]));
            assert forall|k: int| 0 <= k < fs.len() implies self.sink_target(u) < #[trigger] self.own_level(fs[k]) by {
                self.lemma_min_level_le(fs, b, k);
            }
        }
    }

    /// The lowest level among `units` is at most the level of each of them.
    pub(crate) proof fn lemma_min_level_le(&self, units: Seq<UnitHandle>, bound: int, k: int)
        requires
            0 <= k < units.len(),
        ensures
            self.min_level(units, bound) <= self.own_level(units[k]),
        decreases units.len(),
    {
        if k < units.len() - 1 {
            self.lemma_min_level_le(units.drop_last(), bound, k);
            assert(units.drop_last()[k] == units[k]);
        }
    }

    /// Every unit edge between members of `s` that have a level in the rank
    /// of `s` goes down (an edge from a unit to itself aside).
    pub open(crate) spec fn edges_descend(&self, s: SubgraphHandle) -> bool {
        forall|u: UnitHandle, v: UnitHandle|
            #![trigger self.rank_of(s).level_map()[u], self.unit_succs(u).contains(v)]
            self.is_member(s, u) && self.unit_succs(u).contains(v) && v != u
                && self.rank_of(s).level_map().contains_key(u) && self.rank_of(s).level_map().contains_key(v)
                ==> self.rank_of(s).level_map()[v] > self.rank_of(s).level_map()[u]
    }

    /// Sinking a member of a closed subgraph to just above its highest
    /// successor keeps every edge going down.
    pub(crate) proof fn lemma_sink_keeps_descend(&self, before: &DAG, s: SubgraphHandle, node: UnitHandle)
        requires
            before.wf(),
            before.subgraph_valid(s),
            before.subgraph_closed(s),
            before.is_member(s, node),
            before.would_sink(node),
            self.same_except_rank(before, s),
            self.rank_of(s).level_map() == before.rank_of(s).level_map().insert(node, before.sink_target(node) as usize),
            before.rank_of(s).level_map().contains_key(node),
            before.edges_descend(s),
        ensures
            self.edges_descend(s),
    {
        self.lemma_same_except_rank_wf(before, s);
        before.lemma_member_parent(s, node);
        let lb = before.rank_of(s).level_map();
        let la = self.rank_of(s).level_map();
        let t = before.sink_target(node);
        before.lemma_min_level_bound(before.unit_succs(node), before.node_count() as int);
        assert forall|u: UnitHandle, v: UnitHandle|
            #![trigger la[u], self.unit_succs(u).contains(v)]
            self.is_member(s, u) && self.unit_succs(u).contains(v) && v != u && la.contains_key(u) && la.contains_key(v)
            implies la[v] > la[u] by {
            assert(self.members(s) == before.members(s)) by {
                assert(self.subgraphs@[s.index() as int].nodes@ == before.subgraphs@[s.index() as int].nodes@);
                assert(self.subgraphs@[s.index() as int].subgraphs@ == before.subgraphs@[s.index() as int].subgraphs@);
            }
            assert(before.is_member(s, u));
            before.lemma_member_parent(s, u);
            assert(self.unit_succs(u) == before.unit_succs(u));
            let k = choose|k: int| 0 <= k < before.unit_succs(u).len() && before.unit_succs(u)[k] == v;
            assert(before.is_member(s, before.unit_succs(u)[k]));
            before.lemma_member_parent(s, v);
            assert(lb.contains_key(u) && lb.contains_key(v));
            if u == node {
                before.lemma_min_level_le(before.unit_succs(node), before.node_count() as int, k);
                assert(la[v] == lb[v]);
            } else if v == node {
                assert(lb[v] > lb[u]);
                assert(la[u] == lb[u]);
            } else {
                assert(la[u] == lb[u] && la[v] == lb[v]);
                assert(lb[v] > lb[u]);
            }
        }
    }

    pub(crate) proof fn lemma_same_except_rank_trans(&self, b: &DAG, c: &DAG, s: SubgraphHandle)
        requires
            self.same_except_rank(b, s),
            b.same_except_rank(c, s),
        ensures
            self.same_except_rank(c, s),
    {
        assert forall|t: SubgraphHandle|
            #![trigger self.subgraphs@[t.index() as int]]
            #![trigger c.subgraphs@[t.index() as int]]
            self.subgraph_valid(t) implies {
                &&& self.subgraphs@[t.index() as int].nodes@ == c.subgraphs@[t.index() as int].nodes@
                &&& self.subgraphs@[t.index() as int].subgraphs@ == c.subgraphs@[t.index() as int].subgraphs@
                &&& self.subgraphs@[t.index() as int].parent_subgraph_idx == c.subgraphs@[t.index() as int].parent_subgraph_idx
                &&& self.subgraphs@[t.index() as int].successors_u@ == c.subgraphs@[t.index() as int].successors_u@
                &&& self.subgraphs@[t.index() as int].predecessors_u@ == c.subgraphs@[t.index() as int].predecessors_u@
                &&& t != s ==> {
                    &&& self.rank_of(t).rows() == c.rank_of(t).rows()
                    &&& self.rank_of(t).level_map() == c.rank_of(t).level_map()
                }
            } by {
            assert(b.subgraph_valid(t));
            assert(b.subgraphs@[t.index() as int] == b.subgraphs@[t.index() as int]);
        }
    }
}

impl<'a> RankOptimizer<'a> {
    /// Try to sink nodes to shorten the length of edges, until no unit that
    /// the sources of `subgraph_idx` reach can sink any more. When every edge
    /// between members went down a level or more, it still does.
    pub fn optimize(&mut self, subgraph_idx: SubgraphHandle)
        requires
            old(self).dag.can_optimize_ranks(subgraph_idx),
            old(self).dag.passes_checks(),
        ensures
            *final(final(self).dag) == *final(old(self).dag),
            final(self).dag.can_optimize_ranks(subgraph_idx),
            final(self).dag.same_except_rank(old(self).dag, subgraph_idx),
            forall|v: UnitHandle| #[trigger] final(self).dag.from_source(subgraph_idx, v) <==> old(self).dag.from_source(subgraph_idx, v),
            forall|v: UnitHandle| #[trigger] final(self).dag.from_source(subgraph_idx, v) ==> !final(self).dag.would_sink(v),
            forall|v: UnitHandle| #[trigger] final(self).dag.from_source(subgraph_idx, v) ==> !final(self).dag.room_to_sink(v),
            old(self).dag.edges_descend(subgraph_idx) ==> final(self).dag.edges_descend(subgraph_idx),
            levels_not_lower(final(self).dag.rank_of(subgraph_idx).level_map(), old(self).dag.rank_of(subgraph_idx).level_map()),
    {
        self.dag.verify();
        let ghost o = *self.dag;
        let ghost n = o.node_count() as int;
        let ghost members = o.members(subgraph_idx);
        let mut changed = true;
        proof { lemma_total_slack_nonneg(o.rank_of(subgraph_idx).level_map(), n, members); }
        while changed
            invariant
                *final(self.dag) == *final(old(self).dag),
                o == *old(self).dag,
                o.can_optimize_ranks(subgraph_idx),
                n == o.node_count(),
                members == o.members(subgraph_idx),
                self.dag.can_optimize_ranks(subgraph_idx),
                self.dag.same_except_rank(&o, subgraph_idx),
                forall|v: UnitHandle| #[trigger] self.dag.from_source(subgraph_idx, v) <==> o.from_source(subgraph_idx, v),
                !changed ==> forall|v: UnitHandle| #[trigger] self.dag.from_source(subgraph_idx, v) ==> !self.dag.would_sink(v),
                o.edges_descend(subgraph_idx) ==> self.dag.edges_descend(subgraph_idx),
                total_slack(self.dag.rank_of(subgraph_idx).level_map(), n, members) >= 0,
                levels_not_lower(self.dag.rank_of(subgraph_idx).level_map(), o.rank_of(subgraph_idx).level_map()),
            decreases 2 * total_slack(self.dag.rank_of(subgraph_idx).level_map(), n, members) + if changed { 1int } else { 0int },
        {
            let order = self.dag.topological_sort_subgraph(subgraph_idx);
            let ghost start = *self.dag;
            let ghost slack0 = total_slack(start.rank_of(subgraph_idx).level_map(), n, members);
            let mut c: usize = 0;
            let mut k: usize = 0;
            while k < order.len()
                invariant
                    *final(self.dag) == *final(old(self).dag),
                    o.can_optimize_ranks(subgraph_idx),
                    n == o.node_count(),
                    members == o.members(subgraph_idx),
                    start.is_reach_order(subgraph_idx, order@),
                    forall|v: UnitHandle| #[trigger] start.from_source(subgraph_idx, v) <==> o.from_source(subgraph_idx, v),
                    start.same_except_rank(&o, subgraph_idx),
                    self.dag.can_optimize_ranks(subgraph_idx),
                    self.dag.same_except_rank(&o, subgraph_idx),
                    forall|v: UnitHandle| #[trigger] self.dag.from_source(subgraph_idx, v) <==> o.from_source(subgraph_idx, v),
                    k <= order@.len(),
                    c <= k,
                    total_slack(self.dag.rank_of(subgraph_idx).level_map(), n, members) + c <= slack0,
                    total_slack(self.dag.rank_of(subgraph_idx).level_map(), n, members) >= 0,
                    c == 0 ==> *self.dag == start,
                    c == 0 ==> forall|j: int| 0 <= j < k ==> !self.dag.would_sink(#[trigger] order@[j]),
                    o.edges_descend(subgraph_idx) ==> self.dag.edges_descend(subgraph_idx),
                    levels_not_lower(self.dag.rank_of(subgraph_idx).level_map(), o.rank_of(subgraph_idx).level_map()),
                decreases order@.len() - k,
            {
                let node = order[k];
                proof {
                    assert(order@.contains(order@[k as int]));
                    assert(self.dag.from_source(subgraph_idx, node));
                    self.dag.lemma_can_try_sink(subgraph_idx, node);
                }
                let ghost before = *self.dag;
                let sank = self.try_to_sink_node(node, subgraph_idx);
                proof {
                    let after = *self.dag;
                    if sank {
                        after.lemma_same_except_rank_reach(&before, subgraph_idx, subgraph_idx);
                        before.lemma_reach_member(subgraph_idx, node);
                        before.lemma_member_parent(subgraph_idx, node);
                        if o.edges_descend(subgraph_idx) {
                            after.lemma_sink_keeps_descend(&before, subgraph_idx, node);
                        }
                        let la = before.rank_of(subgraph_idx).level_map();
                        let lb = after.rank_of(subgraph_idx).level_map();
                        assert(before.parent_of(node) == subgraph_idx);
                        assert(la.contains_key(node));
                        assert(lb =~= la.insert(node, before.sink_target(node) as usize));
                        assert(levels_not_lower(lb, la));
                        lemma_levels_not_lower_trans(lb, la, o.rank_of(subgraph_idx).level_map());
                        assert(members.contains(node));
                        assert forall|w: UnitHandle| w != node implies slack(lb, n, w) == slack(la, n, w) by {}
                        before.lemma_min_level_bound(before.unit_succs(node), n);
                        assert(slack(lb, n, node) < slack(la, n, node));
                        lemma_total_slack_drops(la, lb, n, members, node);
                        lemma_total_slack_nonneg(lb, n, members);
                        after.lemma_same_except_rank_trans(&before, &o, subgraph_idx);
                        assert forall|v: UnitHandle| #[trigger] after.from_source(subgraph_idx, v) implies {
                            &&& after.rank_of(subgraph_idx).level_map().contains_key(v)
                            &&& after.rank_of(subgraph_idx).level_map()[v] < usize::MAX
                            &&& after.unit_preds(v).len() + after.unit_succs(v).len() <= usize::MAX
                        } by {
                            assert(before.from_source(subgraph_idx, v));
                            before.lemma_reach_member(subgraph_idx, v);
                            before.lemma_member_valid(subgraph_idx, v);
                        }
                    }
                }
                if sank {
                    c = c + 1;
                }
                k = k + 1;
            }
            proof {
                if c == 0 {
                    assert forall|v: UnitHandle| #[trigger] self.dag.from_source(subgraph_idx, v) implies !self.dag.would_sink(v) by {
                        assert(order@.contains(v));
                        let j = choose|j: int| 0 <= j < order@.len() && order@[j] == v;
                        assert(!self.dag.would_sink(order@[j]));
                    }
                }
            }
            changed = c > 0;
        }
        proof {
            assert forall|v: UnitHandle| #[trigger] self.dag.from_source(subgraph_idx, v) implies !self.dag.room_to_sink(v) by {
                self.dag.lemma_sink_law(v);
            }
        }
    }
}


/// Whether `v` holds `u`.
fn holds(v: &Vec<UnitHandle>, u: UnitHandle) -> (r: bool)
    ensures
        r == v@.contains(u),
{
    let mut i: usize = 0;
    while i < v.len()
        invariant
            i <= v.len(),
            forall|k: int| 0 <= k < i ==> v@[k] != u,
        decreases v.len() - i,
    {
        if v[i] == u {
            proof { assert(v@[i as int] == u); }
            return true;
        }
        i = i + 1;
    }
    false
}

/// This optimizations changes the order of nodes within a rank (ordering along
/// the x-axis). The transformation tries to reduce the number of edges that
/// cross each other.
#[derive(Debug)]
pub struct EdgeCrossOptimizer<'a> {
    pub dag: &'a mut DAG,
}

impl<'a> EdgeCrossOptimizer<'a> {
    pub fn new(dag: &'a mut DAG) -> (r: Self)
        ensures
            *r.dag == *old(dag),
            *final(dag) == *final(r.dag),
    {
        Self { dag }
    }
}

/// Given two units that may have connections in `row`, count how many of
/// these edges intersect when `a` stands before `b`. Both successors and
/// predecessors count.
fn num_crossing(dag: &DAG, a: UnitHandle, b: UnitHandle, row: &Vec<UnitHandle>) -> (r: usize)
    requires
        dag.unit_valid(a),
        dag.unit_valid(b),
        crossings(dag.adjacency(), a, b, row@) <= usize::MAX,
    ensures
        r == crossings(dag.adjacency(), a, b, row@),
{
    let mut sum: usize = 0;
    let mut num_b: usize = 0;
    let a_edges1 = dag.successors_u(a);
    let a_edges2 = dag.predecessors_u(a);
    let b_edges1 = dag.successors_u(b);
    let b_edges2 = dag.predecessors_u(b);
    let mut x: usize = 0;
    while x < row.len()
        invariant
            a_edges1@ == dag.unit_succs(a),
            a_edges2@ == dag.unit_preds(a),
            b_edges1@ == dag.unit_succs(b),
            b_edges2@ == dag.unit_preds(b),
            dag.unit_valid(a),
            dag.unit_valid(b),
            crossings(dag.adjacency(), a, b, row@) <= usize::MAX,
            x <= row@.len(),
            sum == crossings(dag.adjacency(), a, b, row@.take(x as int)),
            num_b == count_adjacent(dag.adjacency(), b, row@.take(x as int)),
        decreases row@.len() - x,
    {
        let node = row[x];
        let is_a = holds(&a_edges1, node) || holds(&a_edges2, node);
        let is_b = holds(&b_edges1, node) || holds(&b_edges2, node);
        proof {
            let t = row@.take(x as int + 1);
            assert(t.drop_last() =~= row@.take(x as int));
            assert(t.last() == node);
            lemma_crossings_prefix(dag.adjacency(), a, b, row@, x as int + 1);
            lemma_count_adjacent_len(dag.adjacency(), b, row@.take(x as int));
            assert(dag.adjacency()(a, node) == is_a);
            assert(dag.adjacency()(b, node) == is_b);
        }
        if is_a {
            sum = sum + num_b;
        }
        if is_b {
            num_b = num_b + 1;
        }
        x = x + 1;
    }
    proof { assert(row@.take(x as int) =~= row@); }
    sum
}

/// The crossings between consecutive units of `first`, for every pair of
/// them, with the edges to the units of `second`.
fn count_crossing_in_rows(dag: &DAG, first: &Vec<UnitHandle>, second: &Vec<UnitHandle>) -> (r: usize)
    requires
        dag.units_valid(first@),
        pair_crossings(dag.adjacency(), first@, second@) <= usize::MAX,
    ensures
        r == pair_crossings(dag.adjacency(), first@, second@),
{
    let ghost f = |p: UnitHandle, q: UnitHandle| crossings(dag.adjacency(), p, q, second@);
    if first.len() < 2 {
        proof {
            if first.len() == 1 {
                let d = first@.drop_last();
                assert(d.len() == 0);
                assert(pair_sum(d, f) == 0);
                assert(row_sum(d, |u: UnitHandle| f(u, first@.last())) == 0);
                assert(pair_sum(first@, f) == 0);
            }
        }
        return 0;
    }
    let mut sum: usize = 0;
    let mut j: usize = 1;
    proof {
        let t = first@.take(1);
        let d = t.drop_last();
        assert(d.len() == 0);
        assert(pair_sum(d, f) == 0);
        assert(row_sum(d, |u: UnitHandle| f(u, t.last())) == 0);
    }
    while j < first.len()
        invariant
            dag.units_valid(first@),
            pair_crossings(dag.adjacency(), first@, second@) <= usize::MAX,
            f == (|p: UnitHandle, q: UnitHandle| crossings(dag.adjacency(), p, q, second@)),
            1 <= j <= first.len(),
            sum == pair_sum(first@.take(j as int), f),
        decreases first.len() - j,
    {
        let b = first[j];
        let ghost g = |u: UnitHandle| f(u, b);
        let mut i: usize = 0;
        proof {
            let t = first@.take(j as int + 1);
            assert(t.drop_last() =~= first@.take(j as int));
            assert(t.last() == b);
            lemma_pair_sum_prefix(first@, f, j as int + 1);
            assert(first@.take(j as int).take(0).len() == 0);
        }
        while i < j
            invariant
                dag.units_valid(first@),
                pair_crossings(dag.adjacency(), first@, second@) <= usize::MAX,
                f == (|p: UnitHandle, q: UnitHandle| crossings(dag.adjacency(), p, q, second@)),
                g == (|u: UnitHandle| f(u, b)),
                1 <= j < first.len(),
                b == first@[j as int],
                0 <= i <= j,
                pair_sum(first@.take(j as int + 1), f) == pair_sum(first@.take(j as int), f) + row_sum(first@.take(j as int), g),
                pair_sum(first@.take(j as int + 1), f) <= pair_sum(first@, f),
                sum == pair_sum(first@.take(j as int), f) + row_sum(first@.take(j as int).take(i as int), g),
            decreases j - i,
        {
            let a = first[i];
            proof {
                let pre = first@.take(j as int);
                let t = pre.take(i as int + 1);
                assert(t.drop_last() =~= pre.take(i as int));
                assert(t.last() == a);
                lemma_row_sum_prefix(pre, g, i as int + 1);
                assert(first@.take(j as int)[i as int] == first@[i as int]);
            }
            let c = num_crossing(dag, a, b, second);
            sum = sum + c;
            i = i + 1;
        }
        proof {
            assert(first@.take(j as int).take(j as int) =~= first@.take(j as int));
        }
        j = j + 1;
    }
    proof {
        assert(first@.take(first.len() as int) =~= first@);
    }
    sum
}

/// The crossings between each row of subgraph `s` and the row below it.
fn count_crossed_edges(dag: &DAG, s: SubgraphHandle) -> (r: usize)
    requires
        dag.subgraph_valid(s),
        dag.rank_units_valid(s),
        dag.rank_of(s).rows().len() > 0,
        rows_crossings(dag.adjacency(), dag.rank_of(s).rows()) <= usize::MAX,
    ensures
        r == rows_crossings(dag.adjacency(), dag.rank_of(s).rows()),
{
    let ghost rows = dag.rank_of(s).rows();
    let mut sum: usize = 0;
    let mut row_idx: usize = 0;
    let h = dag.num_levels_subgraph(s);
    proof {
        assert(rows.take(1).len() < 2);
    }
    while row_idx < h - 1
        invariant
            dag.subgraph_valid(s),
            dag.rank_units_valid(s),
            rows == dag.rank_of(s).rows(),
            h == rows.len(),
            h > 0,
            rows_crossings(dag.adjacency(), rows) <= usize::MAX,
            row_idx <= h - 1,
            sum == rows_crossings(dag.adjacency(), rows.take(row_idx as int + 1)),
        decreases h - 1 - row_idx,
    {
        let first_row = dag.row_subgraph(s, row_idx);
        let second_row = dag.row_subgraph(s, row_idx + 1);
        proof {
            let t = rows.take(row_idx as int + 2);
            assert(t.drop_last() =~= rows.take(row_idx as int + 1));
            assert(t[t.len() - 2] == rows[row_idx as int]);
            assert(t[t.len() - 1] == rows[row_idx as int + 1]);
            lemma_rows_crossings_prefix(dag.adjacency(), rows, row_idx as int + 2);
            assert(dag.units_valid(rows[row_idx as int]));
        }
        let c = count_crossing_in_rows(dag, first_row, second_row);
        sum = sum + c;
        row_idx = row_idx + 1;
    }
    proof {
        assert(rows.take(h as int) =~= rows);
    }
    sum
}

/// `row` with the elements at `x` and `y` exchanged.
pub open spec fn swap_at(row: Seq<UnitHandle>, x: int, y: int) -> Seq<UnitHandle> {
    row.update(x, row[y]).update(y, row[x])
}

/// `row` after its first `j` shuffling steps: step `k` exchanges the
/// elements at `(k * 17) % len` and `k`.
pub open spec fn perturb(row: Seq<UnitHandle>, j: nat) -> Seq<UnitHandle>
    decreases j,
{
    if j == 0 {
        row
    } else {
        let k = (j - 1) as int;
        swap_at(perturb(row, (j - 1) as nat), (k * 17) % (row.len() as int), k)
    }
}

/// `row` with its first element moved to its end.
pub open spec fn rotated(row: Seq<UnitHandle>) -> Seq<UnitHandle> {
    row.drop_first().push(row[0])
}

impl DAG {
    /// Every row of subgraph `s` is short enough for the shuffling steps.
    pub open(crate) spec fn rows_fit_perturb(&self, s: SubgraphHandle) -> bool {
        forall|i: int| 0 <= i < self.rank_of(s).rows().len() ==> #[trigger] self.rank_of(s).rows()[i].len() * 17 <= usize::MAX
    }

    /// Every row of subgraph `s` holds a unit.
    pub open(crate) spec fn rows_nonempty(&self, s: SubgraphHandle) -> bool {
        forall|i: int| 0 <= i < self.rank_of(s).rows().len() ==> #[trigger] self.rank_of(s).rows()[i].len() > 0
    }
}

pub proof fn lemma_perturb_len(row: Seq<UnitHandle>, j: nat)
    requires
        j <= row.len(),
    ensures
        perturb(row, j).len() == row.len(),
        perturb(row, j).to_multiset() == row.to_multiset(),
    decreases j,
{
    if j > 0 {
        let k = (j - 1) as int;
        lemma_perturb_len(row, (j - 1) as nat);
        let r = perturb(row, (j - 1) as nat);
        let x = (k * 17) % (row.len() as int);
        lemma_swap_at_multiset(r, x, k);
    }
}

pub proof fn lemma_swap_at_multiset(row: Seq<UnitHandle>, x: int, y: int)
    requires
        0 <= x < row.len(),
        0 <= y < row.len(),
    ensures
        swap_at(row, x, y).len() == row.len(),
        swap_at(row, x, y).to_multiset() == row.to_multiset(),
{
    let a = row.update(x, row[y]);
    vstd::seq_lib::to_multiset_update(row, x, row[y]);
    vstd::seq_lib::to_multiset_update(a, y, row[x]);
    if x != y {
        assert(a[y] == row[y]);
    }
    row.to_multiset_ensures();
    assert(swap_at(row, x, y).to_multiset() =~= row.to_multiset());
}

impl<'a> EdgeCrossOptimizer<'a> {
    /// Shuffles the rows of subgraph `subgraph_idx`: in each row of length
    /// `len`, for `j` from 0 up, the elements at `(j * 17) % len` and `j`
    /// are exchanged.
    pub fn perturb_rank(&mut self, subgraph_idx: SubgraphHandle)
        requires
            old(self).dag.subgraph_valid(subgraph_idx),
            old(self).dag.rows_fit_perturb(subgraph_idx),
        ensures
            *final(final(self).dag) == *final(old(self).dag),
            final(self).dag.same_except_rank(old(self).dag, subgraph_idx),
            final(self).dag.rank_of(subgraph_idx).level_map() == old(self).dag.rank_of(subgraph_idx).level_map(),
            final(self).dag.rank_of(subgraph_idx).rows().len() == old(self).dag.rank_of(subgraph_idx).rows().len(),
            forall|i: int| 0 <= i < old(self).dag.rank_of(subgraph_idx).rows().len() ==>
                #[trigger] final(self).dag.rank_of(subgraph_idx).rows()[i]
                    == perturb(old(self).dag.rank_of(subgraph_idx).rows()[i], old(self).dag.rank_of(subgraph_idx).rows()[i].len()),
    {
        let ghost o = *old(self).dag;
        let h = self.dag.num_levels_subgraph(subgraph_idx);
        let mut i: usize = 0;
        while i < h
            invariant
                *final(self.dag) == *final(old(self).dag),
                o == *old(self).dag,
                o.subgraph_valid(subgraph_idx),
                o.rows_fit_perturb(subgraph_idx),
                h == o.rank_of(subgraph_idx).rows().len(),
                i <= h,
                self.dag.same_except_rank(&o, subgraph_idx),
                self.dag.rank_of(subgraph_idx).level_map() == o.rank_of(subgraph_idx).level_map(),
                self.dag.rank_of(subgraph_idx).rows().len() == h,
                forall|k: int| 0 <= k < i ==>
                    #[trigger] self.dag.rank_of(subgraph_idx).rows()[k] == perturb(o.rank_of(subgraph_idx).rows()[k], o.rank_of(subgraph_idx).rows()[k].len()),
                forall|k: int| i <= k < h ==>
                    #[trigger] self.dag.rank_of(subgraph_idx).rows()[k] == o.rank_of(subgraph_idx).rows()[k],
            decreases h - i,
        {
            let ghost before = *self.dag;
            let ghost orig = o.rank_of(subgraph_idx).rows()[i as int];
            let row = self.dag.row_subgraph_mut(subgraph_idx, i);
            let len = row.len();
            proof {
                assert(orig.len() * 17 <= usize::MAX);
            }
            let mut j: usize = 0;
            while j < len
                invariant
                    len == orig.len(),
                    len * 17 <= usize::MAX,
                    j <= len,
                    row@ == perturb(orig, j as nat),
                    row@.len() == len,
                decreases len - j,
            {
                let x = (j * 17) % len;
                let a = row[x];
                let b = row[j];
                row[x] = b;
                row[j] = a;
                j = j + 1;
            }
            proof {
                self.dag.lemma_same_except_rank_trans(&before, &o, subgraph_idx);
            }
            i = i + 1;
        }
    }

    /// Moves the first element of every row of subgraph `subgraph_idx` to
    /// the end of the row.
    pub fn rotate_rank(&mut self, subgraph_idx: SubgraphHandle)
        requires
            old(self).dag.subgraph_valid(subgraph_idx),
            old(self).dag.rows_nonempty(subgraph_idx),
        ensures
            *final(final(self).dag) == *final(old(self).dag),
            final(self).dag.same_except_rank(old(self).dag, subgraph_idx),
            final(self).dag.rank_of(subgraph_idx).level_map() == old(self).dag.rank_of(subgraph_idx).level_map(),
            final(self).dag.rank_of(subgraph_idx).rows().len() == old(self).dag.rank_of(subgraph_idx).rows().len(),
            forall|i: int| 0 <= i < old(self).dag.rank_of(subgraph_idx).rows().len() ==>
                #[trigger] final(self).dag.rank_of(subgraph_idx).rows()[i] == rotated(old(self).dag.rank_of(subgraph_idx).rows()[i]),
    {
        let ghost o = *old(self).dag;
        let h = self.dag.num_levels_subgraph(subgraph_idx);
        let mut i: usize = 0;
        while i < h
            invariant
                *final(self.dag) == *final(old(self).dag),
                o == *old(self).dag,
                o.subgraph_valid(subgraph_idx),
                o.rows_nonempty(subgraph_idx),
                h == o.rank_of(subgraph_idx).rows().len(),
                i <= h,
                self.dag.same_except_rank(&o, subgraph_idx),
                self.dag.rank_of(subgraph_idx).level_map() == o.rank_of(subgraph_idx).level_map(),
                self.dag.rank_of(subgraph_idx).rows().len() == h,
                forall|k: int| 0 <= k < i ==>
                    #[trigger] self.dag.rank_of(subgraph_idx).rows()[k] == rotated(o.rank_of(subgraph_idx).rows()[k]),
                forall|k: int| i <= k < h ==>
                    #[trigger] self.dag.rank_of(subgraph_idx).rows()[k] == o.rank_of(subgraph_idx).rows()[k],
            decreases h - i,
        {
            let ghost before = *self.dag;
            let ghost orig = o.rank_of(subgraph_idx).rows()[i as int];
            proof {
                assert(orig.len() > 0);
            }
            let row = self.dag.row_subgraph_mut(subgraph_idx, i);
            let first = row.remove(0);
            row.push(first);
            proof {
                assert(row@ =~= rotated(orig));
                self.dag.lemma_same_except_rank_trans(&before, &o, subgraph_idx);
            }
            i = i + 1;
        }
    }
}

impl DAG {






    /// Every row of subgraph `s` is short enough that the crossings of two
    /// units with the rows around them fit in a `usize`.
    pub open(crate) spec fn rows_fit_cross(&self, s: SubgraphHandle) -> bool {
        forall|i: int| 0 <= i < self.rank_of(s).rows().len() ==>
            2 * #[trigger] self.rank_of(s).rows()[i].len() * self.rank_of(s).rows()[i].len() <= usize::MAX
    }

}

proof fn swap_is_swap_at(r: Seq<UnitHandle>, k: int)
    requires
        0 <= k < r.len() - 1,
    ensures
        swap_adjacent(r, k) == swap_at(r, k, k + 1),
{
    assert(swap_adjacent(r, k) =~= swap_at(r, k, k + 1));
}

impl<'a> EdgeCrossOptimizer<'a> {
    /// One pass over row `row_idx` of subgraph `subgraph_idx`: from left to
    /// right, two neighbouring units are exchanged when their edges to the
    /// rows that `dir` looks at cross less that way. Returns whether any
    /// pair was exchanged.
    fn swap_crossed_edges_on_row(&mut self, subgraph_idx: SubgraphHandle, row_idx: usize, dir: Direction) -> (r: bool)
        requires
            old(self).dag.subgraph_valid(subgraph_idx),
            old(self).dag.rank_units_valid(subgraph_idx),
            old(self).dag.rows_fit_cross(subgraph_idx),
            row_idx < old(self).dag.rank_of(subgraph_idx).rows().len(),
        ensures
            *final(final(self).dag) == *final(old(self).dag),
            ({
                let o = *old(self).dag;
                let row = o.rank_of(subgraph_idx).rows()[row_idx as int];
                let prev = row_above(o.rank_of(subgraph_idx).rows(), row_idx as int, dir);
                let next = row_below(o.rank_of(subgraph_idx).rows(), row_idx as int, dir);
                &&& r == (row.len() >= 2 && pass_changed(o.adjacency(), row, prev, next, (row.len() - 1) as nat))
                &&& !r ==> *final(self).dag == o
                &&& r ==> {
                    &&& final(self).dag.same_except_rank(&o, subgraph_idx)
                    &&& final(self).dag.rank_of(subgraph_idx).level_map() == o.rank_of(subgraph_idx).level_map()
                    &&& final(self).dag.rank_of(subgraph_idx).rows()
                        == o.rank_of(subgraph_idx).rows().update(row_idx as int, pass_row(o.adjacency(), row, prev, next, (row.len() - 1) as nat))
                }
            }),
    {
        let ghost o = *self.dag;
        let ghost rows = o.rank_of(subgraph_idx).rows();
        let mut changed = false;
        let num_rows = self.dag.num_levels_subgraph(subgraph_idx);
        let prev_row = if row_idx > 0 && dir.is_up() {
            copy_row(self.dag.row_subgraph(subgraph_idx, row_idx - 1))
        } else {
            Vec::new()
        };
        let next_row = if row_idx + 1 < num_rows && dir.is_down() {
            copy_row(self.dag.row_subgraph(subgraph_idx, row_idx + 1))
        } else {
            Vec::new()
        };
        let mut row = copy_row(self.dag.row_subgraph(subgraph_idx, row_idx));
        let ghost orig = row@;
        proof {
            assert(prev_row@ == row_above(o.rank_of(subgraph_idx).rows(), row_idx as int, dir));
            assert(next_row@ == row_below(o.rank_of(subgraph_idx).rows(), row_idx as int, dir));
            assert(o.units_valid(orig));
            if row_idx > 0 {
                assert(2 * rows[row_idx - 1].len() * rows[row_idx - 1].len() <= usize::MAX);
            }
            if row_idx + 1 < num_rows {
                assert(2 * rows[row_idx + 1].len() * rows[row_idx + 1].len() <= usize::MAX);
            }
        }
        if row.len() < 2 {
            return false;
        }
        let n = row.len() - 1;
        let mut i: usize = 0;
        while i < n
            invariant
                *self.dag == o,
                n == orig.len() - 1,
                orig.len() >= 2,
                o.units_valid(orig),
                2 * prev_row@.len() * prev_row@.len() <= usize::MAX,
                2 * next_row@.len() * next_row@.len() <= usize::MAX,
                i <= n,
                row@ == pass_row(o.adjacency(), orig, prev_row@, next_row@, i as nat),
                changed == pass_changed(o.adjacency(), orig, prev_row@, next_row@, i as nat),
            decreases n - i,
        {
            proof {
                lemma_pass_row(o.adjacency(), orig, prev_row@, next_row@, i as nat);
                o.lemma_units_valid_perm(row@, orig);
                assert(o.unit_valid(row@[i as int]));
                assert(o.unit_valid(row@[i as int + 1]));
                lemma_crossings_bound(o.adjacency(), row@[i as int], row@[i as int + 1], prev_row@);
                lemma_crossings_bound(o.adjacency(), row@[i as int], row@[i as int + 1], next_row@);
                lemma_crossings_bound(o.adjacency(), row@[i as int + 1], row@[i as int], prev_row@);
                lemma_crossings_bound(o.adjacency(), row@[i as int + 1], row@[i as int], next_row@);
                let pl = prev_row@.len() as int;
                let nl = next_row@.len() as int;
                assert(pl * pl + nl * nl <= usize::MAX) by (nonlinear_arith)
                    requires 2 * pl * pl <= usize::MAX, 2 * nl * nl <= usize::MAX;
            }
            let a = row[i];
            let b = row[i + 1];
            let ab = num_crossing(self.dag, a, b, &prev_row) + num_crossing(self.dag, a, b, &next_row);
            let ba = num_crossing(self.dag, b, a, &prev_row) + num_crossing(self.dag, b, a, &next_row);
            if ab > ba {
                row[i] = b;
                row[i + 1] = a;
                changed = true;
                proof {
                    assert(row@ =~= swap_adjacent(pass_row(o.adjacency(), orig, prev_row@, next_row@, i as nat), i as int));
                }
            }
            i = i + 1;
        }
        if changed {
            let target = self.dag.row_subgraph_mut(subgraph_idx, row_idx);
            *target = row;
        }
        changed
    }
}

/// The crossings of `a` before `b` with the row above and the row below.
pub open spec fn pair_cost(adj: spec_fn(UnitHandle, UnitHandle) -> bool, a: UnitHandle, b: UnitHandle, prev: Seq<UnitHandle>, next: Seq<UnitHandle>) -> nat {
    crossings(adj, a, b, prev) + crossings(adj, a, b, next)
}

/// A pass exchanges the neighbours at `k` and `k + 1` of `r` when that
/// order has more crossings than the other.
pub open spec fn swaps_at(adj: spec_fn(UnitHandle, UnitHandle) -> bool, r: Seq<UnitHandle>, k: int, prev: Seq<UnitHandle>, next: Seq<UnitHandle>) -> bool {
    pair_cost(adj, r[k], r[k + 1], prev, next) > pair_cost(adj, r[k + 1], r[k], prev, next)
}

/// `row` after the first `i` steps of a pass.
pub open spec fn pass_row(adj: spec_fn(UnitHandle, UnitHandle) -> bool, row: Seq<UnitHandle>, prev: Seq<UnitHandle>, next: Seq<UnitHandle>, i: nat) -> Seq<UnitHandle>
    decreases i,
{
    if i == 0 {
        row
    } else {
        let r = pass_row(adj, row, prev, next, (i - 1) as nat);
        if swaps_at(adj, r, i - 1, prev, next) {
            swap_adjacent(r, i - 1)
        } else {
            r
        }
    }
}

/// Whether one of the first `i` steps of a pass exchanged two units.
pub open spec fn pass_changed(adj: spec_fn(UnitHandle, UnitHandle) -> bool, row: Seq<UnitHandle>, prev: Seq<UnitHandle>, next: Seq<UnitHandle>, i: nat) -> bool
    decreases i,
{
    if i == 0 {
        false
    } else {
        pass_changed(adj, row, prev, next, (i - 1) as nat)
            || swaps_at(adj, pass_row(adj, row, prev, next, (i - 1) as nat), i - 1, prev, next)
    }
}

/// A pass keeps the units of the row and never adds crossings; it
/// removes some when it exchanges two units.
pub proof fn lemma_pass_row(adj: spec_fn(UnitHandle, UnitHandle) -> bool, row: Seq<UnitHandle>, prev: Seq<UnitHandle>, next: Seq<UnitHandle>, i: nat)
    requires
        i < row.len(),
    ensures
        pass_row(adj, row, prev, next, i).len() == row.len(),
        pass_row(adj, row, prev, next, i).to_multiset() == row.to_multiset(),
        local_cost(adj, pass_row(adj, row, prev, next, i), prev, next) <= local_cost(adj, row, prev, next),
        pass_changed(adj, row, prev, next, i) ==>
            local_cost(adj, pass_row(adj, row, prev, next, i), prev, next) < local_cost(adj, row, prev, next),
        !pass_changed(adj, row, prev, next, i) ==> pass_row(adj, row, prev, next, i) == row,
    decreases i,
{
    if i > 0 {
        let k = i - 1;
        lemma_pass_row(adj, row, prev, next, (i - 1) as nat);
        let r = pass_row(adj, row, prev, next, (i - 1) as nat);
        if swaps_at(adj, r, k, prev, next) {
            lemma_pair_crossings_swap(adj, r, prev, k);
            lemma_pair_crossings_swap(adj, r, next, k);
            swap_is_swap_at(r, k);
            lemma_swap_at_multiset(r, k, k + 1);
        }
    }
}


/// Whether a pass in direction `dir` over row `i` of `rows` would exchange
/// two units.
pub open spec fn would_change(adj: spec_fn(UnitHandle, UnitHandle) -> bool, rows: Seq<Seq<UnitHandle>>, i: int, dir: Direction) -> bool {
    rows[i].len() >= 2 && pass_changed(adj, rows[i], row_above(rows, i, dir), row_below(rows, i, dir), (rows[i].len() - 1) as nat)
}

/// `rows` after one pass in direction `dir` over row `i`.
pub open spec fn row_step(adj: spec_fn(UnitHandle, UnitHandle) -> bool, rows: Seq<Seq<UnitHandle>>, i: int, dir: Direction) -> Seq<Seq<UnitHandle>> {
    if would_change(adj, rows, i, dir) {
        rows.update(i, pass_row(adj, rows[i], row_above(rows, i, dir), row_below(rows, i, dir), (rows[i].len() - 1) as nat))
    } else {
        rows
    }
}

/// `rows` after passes over rows `0`, `1`, ..., `i - 1`, in that order.
pub open spec fn down_steps(adj: spec_fn(UnitHandle, UnitHandle) -> bool, rows: Seq<Seq<UnitHandle>>, i: nat, dir: Direction) -> Seq<Seq<UnitHandle>>
    decreases i,
{
    if i == 0 {
        rows
    } else {
        row_step(adj, down_steps(adj, rows, (i - 1) as nat, dir), i - 1, dir)
    }
}

/// `rows` after passes over rows `h - 1`, `h - 2`, ..., `i`, in that order.
pub open spec fn up_steps(adj: spec_fn(UnitHandle, UnitHandle) -> bool, rows: Seq<Seq<UnitHandle>>, i: int, h: int, dir: Direction) -> Seq<Seq<UnitHandle>>
    decreases h - i,
{
    if i >= h {
        rows
    } else {
        row_step(adj, up_steps(adj, rows, i + 1, h, dir), i, dir)
    }
}

/// One sweep in direction `dir`: passes from the top row down when `dir`
/// looks down, then from the bottom row up when it looks up.
pub open spec fn sweep_once(adj: spec_fn(UnitHandle, UnitHandle) -> bool, rows: Seq<Seq<UnitHandle>>, dir: Direction) -> Seq<Seq<UnitHandle>> {
    let h = rows.len();
    let down = if dir.looks_down() { down_steps(adj, rows, h, dir) } else { rows };
    if dir.looks_up() { up_steps(adj, down, 0, h as int, dir) } else { down }
}

/// `rows` after `n` sweeps.
pub open spec fn sweeps(adj: spec_fn(UnitHandle, UnitHandle) -> bool, rows: Seq<Seq<UnitHandle>>, dir: Direction, n: nat) -> Seq<Seq<UnitHandle>>
    decreases n,
{
    if n == 0 {
        rows
    } else {
        sweep_once(adj, sweeps(adj, rows, dir, (n - 1) as nat), dir)
    }
}

/// Whether `n` sweeps from `rows` reach rows that a sweep leaves as they are.
pub open spec fn settles_at(adj: spec_fn(UnitHandle, UnitHandle) -> bool, rows: Seq<Seq<UnitHandle>>, dir: Direction, n: nat) -> bool {
    sweep_once(adj, sweeps(adj, rows, dir, n), dir) == sweeps(adj, rows, dir, n)
}

/// The rows that repeated sweeps from `rows` settle on.
pub open spec fn settled(adj: spec_fn(UnitHandle, UnitHandle) -> bool, rows: Seq<Seq<UnitHandle>>, dir: Direction) -> Seq<Seq<UnitHandle>> {
    sweeps(adj, rows, dir, choose|n: nat| settles_at(adj, rows, dir, n))
}

/// Once the sweeps have settled, further sweeps change nothing.
pub proof fn lemma_sweeps_stay(adj: spec_fn(UnitHandle, UnitHandle) -> bool, rows: Seq<Seq<UnitHandle>>, dir: Direction, a: nat, b: nat)
    requires
        a <= b,
        settles_at(adj, rows, dir, a),
    ensures
        sweeps(adj, rows, dir, b) == sweeps(adj, rows, dir, a),
    decreases b - a,
{
    if b > a {
        lemma_sweeps_stay(adj, rows, dir, a, (b - 1) as nat);
    }
}

/// Where the sweeps settle does not depend on which settled count is taken.
pub proof fn lemma_settled(adj: spec_fn(UnitHandle, UnitHandle) -> bool, rows: Seq<Seq<UnitHandle>>, dir: Direction, n: nat)
    requires
        settles_at(adj, rows, dir, n),
    ensures
        settled(adj, rows, dir) == sweeps(adj, rows, dir, n),
{
    let m = choose|m: nat| settles_at(adj, rows, dir, m);
    let top: nat = if m > n { m } else { n };
    lemma_sweeps_stay(adj, rows, dir, n, top);
    lemma_sweeps_stay(adj, rows, dir, m, top);
}

impl DAG {
    /// The rows of subgraph `s` can be reordered by passes: the dag is well
    /// formed, the rows hold units of the dag, and they are short enough for
    /// the crossing counts.
    pub open(crate) spec fn can_swap_rows(&self, s: SubgraphHandle) -> bool {
        &&& self.wf()
        &&& self.subgraph_valid(s)
        &&& self.rank_units_valid(s)
        &&& self.rows_fit_cross(s)
    }

    /// `self` is `other` with the units of each row of subgraph `s`
    /// rearranged, and nothing else changed.
    pub open(crate) spec fn rows_rearranged(&self, other: &DAG, s: SubgraphHandle) -> bool {
        &&& self.same_except_rank(other, s)
        &&& self.rank_of(s).level_map() == other.rank_of(s).level_map()
        &&& self.rank_of(s).rows().len() == other.rank_of(s).rows().len()
        &&& forall|i: int| 0 <= i < self.rank_of(s).rows().len() ==>
            (#[trigger] self.rank_of(s).rows()[i]).to_multiset() == other.rank_of(s).rows()[i].to_multiset()
    }

    pub proof fn lemma_rows_rearranged_refl(&self, s: SubgraphHandle)
        ensures
            self.rows_rearranged(self, s),
    {
    }

    pub proof fn lemma_rows_rearranged_trans(&self, b: &DAG, c: &DAG, s: SubgraphHandle)
        requires
            self.rows_rearranged(b, s),
            b.rows_rearranged(c, s),
        ensures
            self.rows_rearranged(c, s),
    {
        self.lemma_same_except_rank_trans(b, c, s);
        assert forall|i: int| 0 <= i < self.rank_of(s).rows().len() implies
            (#[trigger] self.rank_of(s).rows()[i]).to_multiset() == c.rank_of(s).rows()[i].to_multiset() by {
            assert(b.rank_of(s).rows()[i].to_multiset() == c.rank_of(s).rows()[i].to_multiset());
        }
    }

    /// Rearranging rows keeps what passes need.
    pub proof fn lemma_rows_rearranged_keeps(&self, other: &DAG, s: SubgraphHandle)
        requires
            other.can_swap_rows(s),
            self.rows_rearranged(other, s),
        ensures
            self.can_swap_rows(s),
            self.adjacency() == other.adjacency(),
    {
        self.lemma_same_except_rank_wf(other, s);
        self.lemma_same_adjacency(other, s);
        assert forall|i: int| 0 <= i < self.rank_of(s).rows().len() implies
            self.units_valid(#[trigger] self.rank_of(s).rows()[i]) by {
            let x = self.rank_of(s).rows()[i];
            let y = other.rank_of(s).rows()[i];
            assert(other.units_valid(y));
            assert forall|j: int| 0 <= j < y.len() implies self.unit_valid(#[trigger] y[j]) by {
                assert(other.unit_valid(y[j]));
            }
            self.lemma_units_valid_perm(x, y);
        }
        assert forall|i: int| 0 <= i < self.rank_of(s).rows().len() implies
            2 * #[trigger] self.rank_of(s).rows()[i].len() * self.rank_of(s).rows()[i].len() <= usize::MAX by {
            let x = self.rank_of(s).rows()[i];
            let y = other.rank_of(s).rows()[i];
            x.to_multiset_ensures();
            y.to_multiset_ensures();
            assert(x.len() == y.len());
            assert(2 * y.len() * y.len() <= usize::MAX);
        }
    }
}

impl<'a> EdgeCrossOptimizer<'a> {
    /// Repeats sweeps of passes over the rows of subgraph `subgraph_idx`
    /// until a sweep exchanges nothing: from the top row down when `dir`
    /// looks down, then from the bottom row up when it looks up. Each pass
    /// lowers the crossings with the rows that `dir` looks at, so the
    /// sweeps end; afterwards no pass would exchange two units.
    fn swap_crossed_edges(&mut self, subgraph_idx: SubgraphHandle, dir: Direction)
        requires
            old(self).dag.can_swap_rows(subgraph_idx),
        ensures
            *final(final(self).dag) == *final(old(self).dag),
            final(self).dag.can_swap_rows(subgraph_idx),
            final(self).dag.rows_rearranged(old(self).dag, subgraph_idx),
            forall|i: int| 0 <= i < final(self).dag.rank_of(subgraph_idx).rows().len() ==>
                !#[trigger] would_change(final(self).dag.adjacency(), final(self).dag.rank_of(subgraph_idx).rows(), i, dir),
            final(self).dag.rank_of(subgraph_idx).rows() == settled(old(self).dag.adjacency(), old(self).dag.rank_of(subgraph_idx).rows(), dir),
    {
        let ghost orig = *self.dag;
        let ghost adj = orig.adjacency();
        let ghost orows = orig.rank_of(subgraph_idx).rows();
        let h = self.dag.num_levels_subgraph(subgraph_idx);
        proof {
            orig.lemma_rows_rearranged_refl(subgraph_idx);
        }
        let mut changed = true;
        let ghost mut cnt: nat = 0;
        while changed
            invariant
                orows == orig.rank_of(subgraph_idx).rows(),
                self.dag.rank_of(subgraph_idx).rows() == sweeps(adj, orows, dir, cnt),
                !changed ==> settles_at(adj, orows, dir, cnt),
                *final(self.dag) == *final(old(self).dag),
                orig == *old(self).dag,
                orig.can_swap_rows(subgraph_idx),
                adj == orig.adjacency(),
                self.dag.can_swap_rows(subgraph_idx),
                self.dag.rows_rearranged(&orig, subgraph_idx),
                self.dag.adjacency() == adj,
                h == self.dag.rank_of(subgraph_idx).rows().len(),
                !changed ==> forall|i: int| 0 <= i < h ==>
                    !#[trigger] would_change(adj, self.dag.rank_of(subgraph_idx).rows(), i, dir),
            decreases sweep_measure(adj, self.dag.rank_of(subgraph_idx).rows(), dir) + ind(changed),
        {
            let ghost start = *self.dag;
            let ghost srows = start.rank_of(subgraph_idx).rows();
            changed = false;
            if dir.is_down() {
                let mut i: usize = 0;
                while i < h
                    invariant
                        self.dag.rank_of(subgraph_idx).rows() == down_steps(adj, srows, i as nat, dir),
                        srows == start.rank_of(subgraph_idx).rows(),
                        *final(self.dag) == *final(old(self).dag),
                        orig == *old(self).dag,
                        orig.can_swap_rows(subgraph_idx),
                        adj == orig.adjacency(),
                        self.dag.can_swap_rows(subgraph_idx),
                        self.dag.rows_rearranged(&orig, subgraph_idx),
                        self.dag.adjacency() == adj,
                        h == self.dag.rank_of(subgraph_idx).rows().len(),
                        dir.looks_down(),
                        i <= h,
                        sweep_measure(adj, self.dag.rank_of(subgraph_idx).rows(), dir)
                            <= sweep_measure(adj, start.rank_of(subgraph_idx).rows(), dir),
                        changed ==> sweep_measure(adj, self.dag.rank_of(subgraph_idx).rows(), dir)
                            < sweep_measure(adj, start.rank_of(subgraph_idx).rows(), dir),
                        !changed ==> *self.dag == start,
                        !changed ==> forall|k: int| 0 <= k < i ==>
                            !#[trigger] would_change(adj, start.rank_of(subgraph_idx).rows(), k, dir),
                    decreases h - i,
                {
                    let c = self.row_pass(subgraph_idx, i, dir, Ghost(orig));
                    if c {
                        changed = true;
                    }
                    i = i + 1;
                }
            }
            let ghost mid = self.dag.rank_of(subgraph_idx).rows();
            proof {
                assert(mid == (if dir.looks_down() { down_steps(adj, srows, h as nat, dir) } else { srows }));
            }
            if dir.is_up() {
                let mut i: usize = h;
                while i > 0
                    invariant
                        self.dag.rank_of(subgraph_idx).rows() == up_steps(adj, mid, i as int, h as int, dir),
                        *final(self.dag) == *final(old(self).dag),
                        orig == *old(self).dag,
                        orig.can_swap_rows(subgraph_idx),
                        adj == orig.adjacency(),
                        self.dag.can_swap_rows(subgraph_idx),
                        self.dag.rows_rearranged(&orig, subgraph_idx),
                        self.dag.adjacency() == adj,
                        h == self.dag.rank_of(subgraph_idx).rows().len(),
                        dir.looks_up(),
                        i <= h,
                        sweep_measure(adj, self.dag.rank_of(subgraph_idx).rows(), dir)
                            <= sweep_measure(adj, start.rank_of(subgraph_idx).rows(), dir),
                        changed ==> sweep_measure(adj, self.dag.rank_of(subgraph_idx).rows(), dir)
                            < sweep_measure(adj, start.rank_of(subgraph_idx).rows(), dir),
                        !changed ==> *self.dag == start,
                        !changed ==> forall|k: int| i <= k < h ==>
                            !#[trigger] would_change(adj, start.rank_of(subgraph_idx).rows(), k, dir),
                        !changed && dir.looks_down() ==> forall|k: int| 0 <= k < h ==>
                            !#[trigger] would_change(adj, start.rank_of(subgraph_idx).rows(), k, dir),
                    decreases i,
                {
                    i = i - 1;
                    let c = self.row_pass(subgraph_idx, i, dir, Ghost(orig));
                    if c {
                        changed = true;
                    }
                }
            }
            proof {
                assert(self.dag.rank_of(subgraph_idx).rows() == sweep_once(adj, srows, dir));
                cnt = cnt + 1;
                assert(sweeps(adj, orows, dir, cnt) == sweep_once(adj, srows, dir));
            }
        }
        proof {
            lemma_settled(adj, orows, dir, cnt);
        }
    }

    /// One pass over a row inside the sweeps of `swap_crossed_edges`, with
    /// what the sweeps need to know of it.
    fn row_pass(&mut self, subgraph_idx: SubgraphHandle, row_idx: usize, dir: Direction, Ghost(orig): Ghost<DAG>) -> (r: bool)
        requires
            orig.can_swap_rows(subgraph_idx),
            old(self).dag.can_swap_rows(subgraph_idx),
            old(self).dag.rows_rearranged(&orig, subgraph_idx),
            old(self).dag.adjacency() == orig.adjacency(),
            row_idx < old(self).dag.rank_of(subgraph_idx).rows().len(),
        ensures
            *final(final(self).dag) == *final(old(self).dag),
            final(self).dag.can_swap_rows(subgraph_idx),
            final(self).dag.rows_rearranged(&orig, subgraph_idx),
            final(self).dag.adjacency() == orig.adjacency(),
            final(self).dag.rank_of(subgraph_idx).rows().len() == old(self).dag.rank_of(subgraph_idx).rows().len(),
            r == would_change(orig.adjacency(), old(self).dag.rank_of(subgraph_idx).rows(), row_idx as int, dir),
            !r ==> *final(self).dag == *old(self).dag,
            r ==> sweep_measure(orig.adjacency(), final(self).dag.rank_of(subgraph_idx).rows(), dir)
                < sweep_measure(orig.adjacency(), old(self).dag.rank_of(subgraph_idx).rows(), dir),
            final(self).dag.rank_of(subgraph_idx).rows() == row_step(orig.adjacency(), old(self).dag.rank_of(subgraph_idx).rows(), row_idx as int, dir),
    {
        let ghost o = *self.dag;
        let ghost rows = o.rank_of(subgraph_idx).rows();
        let c = self.swap_crossed_edges_on_row(subgraph_idx, row_idx, dir);
        proof {
            if c {
                let row = rows[row_idx as int];
                let prev = row_above(rows, row_idx as int, dir);
                let next = row_below(rows, row_idx as int, dir);
                let n = (row.len() - 1) as nat;
                let x = pass_row(o.adjacency(), row, prev, next, n);
                lemma_pass_row(o.adjacency(), row, prev, next, n);
                assert(rows.update(row_idx as int, x) == self.dag.rank_of(subgraph_idx).rows());
                assert forall|i: int| 0 <= i < self.dag.rank_of(subgraph_idx).rows().len() implies
                    (#[trigger] self.dag.rank_of(subgraph_idx).rows()[i]).to_multiset() == o.rank_of(subgraph_idx).rows()[i].to_multiset() by {
                }
                assert(self.dag.rows_rearranged(&o, subgraph_idx));
                self.dag.lemma_rows_rearranged_trans(&o, &orig, subgraph_idx);
                self.dag.lemma_rows_rearranged_keeps(&orig, subgraph_idx);
                assert(o.units_valid(row));
                o.lemma_units_valid_perm(x, row);
                x.to_multiset_ensures();
                row.to_multiset_ensures();
                assert forall|j: int| 0 <= j < rows.len() implies o.units_valid(#[trigger] rows[j]) by {}
                o.lemma_sweep_measure_drops(rows, row_idx as int, dir, x);
            }
        }
        c
    }
}

impl<'a> EdgeCrossOptimizer<'a> {
    /// One pass over row `row_idx` of subgraph `subgraph_idx` that looks at
    /// the edges between the units of the row: from left to right, two
    /// neighbouring units are exchanged when that lowers the number of
    /// crossing pairs of those edges. Returns whether any pair was exchanged.
    fn swap_crossed_edges_on_row_inter(&mut self, subgraph_idx: SubgraphHandle, row_idx: usize) -> (r: bool)
        requires
            old(self).dag.subgraph_valid(subgraph_idx),
            row_idx < old(self).dag.rank_of(subgraph_idx).rows().len(),
            old(self).dag.inter_ready(old(self).dag.rank_of(subgraph_idx).rows()[row_idx as int]),
        ensures
            *final(final(self).dag) == *final(old(self).dag),
            ({
                let o = *old(self).dag;
                let row = o.rank_of(subgraph_idx).rows()[row_idx as int];
                &&& r == o.inter_would_change(row)
                &&& !r ==> *final(self).dag == o
                &&& r ==> {
                    &&& final(self).dag.same_except_rank(&o, subgraph_idx)
                    &&& final(self).dag.rank_of(subgraph_idx).level_map() == o.rank_of(subgraph_idx).level_map()
                    &&& final(self).dag.rank_of(subgraph_idx).rows()
                        == o.rank_of(subgraph_idx).rows().update(row_idx as int, o.inter_pass_row(row, (row.len() - 1) as nat))
                }
            }),
    {
        let ghost o = *self.dag;
        let mut changed = false;
        let mut row = copy_row(self.dag.row_subgraph(subgraph_idx, row_idx));
        let ghost orig = row@;
        if row.len() < 2 {
            return false;
        }
        let n = row.len() - 1;
        let mut i: usize = 0;
        while i < n
            invariant
                *self.dag == o,
                n == orig.len() - 1,
                orig.len() >= 2,
                o.inter_ready(orig),
                i <= n,
                row@ == o.inter_pass_row(orig, i as nat),
                changed == o.inter_pass_changed(orig, i as nat),
            decreases n - i,
        {
            proof {
                o.lemma_inter_pass_row(orig, i as nat);
                o.lemma_inter_ready_perm(row@, orig);
            }
            let a = row[i];
            let b = row[i + 1];
            let delta_crossing = optimize_intersubgraph(self.dag, i, i + 1, &row);
            if 0 > delta_crossing {
                row[i] = b;
                row[i + 1] = a;
                changed = true;
                proof {
                    assert(row@ =~= exchange(o.inter_pass_row(orig, i as nat), i as int, i as int + 1));
                }
            }
            i = i + 1;
        }
        if changed {
            let target = self.dag.row_subgraph_mut(subgraph_idx, row_idx);
            *target = row;
        }
        changed
    }

    /// One inter-subgraph pass inside the sweeps of
    /// `swap_crossed_edges_inter`, with what the sweeps need to know of it.
    fn inter_row_pass(&mut self, subgraph_idx: SubgraphHandle, row_idx: usize, Ghost(orig): Ghost<DAG>) -> (r: bool)
        requires
            orig.can_swap_inter(subgraph_idx),
            old(self).dag.rows_rearranged(&orig, subgraph_idx),
            row_idx < old(self).dag.rank_of(subgraph_idx).rows().len(),
        ensures
            *final(final(self).dag) == *final(old(self).dag),
            final(self).dag.rows_rearranged(&orig, subgraph_idx),
            final(self).dag.rank_of(subgraph_idx).rows().len() == old(self).dag.rank_of(subgraph_idx).rows().len(),
            r == old(self).dag.inter_would_change(old(self).dag.rank_of(subgraph_idx).rows()[row_idx as int]),
            !r ==> *final(self).dag == *old(self).dag,
            r ==> orig.inter_measure(final(self).dag.rank_of(subgraph_idx).rows())
                < orig.inter_measure(old(self).dag.rank_of(subgraph_idx).rows()),
    {
        let ghost o = *self.dag;
        let ghost rows = o.rank_of(subgraph_idx).rows();
        proof {
            o.lemma_inter_keeps(&orig, subgraph_idx);
            assert(o.inter_ready(rows[row_idx as int]));
        }
        let c = self.swap_crossed_edges_on_row_inter(subgraph_idx, row_idx);
        proof {
            if c {
                let row = rows[row_idx as int];
                let n = (row.len() - 1) as nat;
                let x = o.inter_pass_row(row, n);
                o.lemma_inter_pass_row(row, n);
                assert(rows.update(row_idx as int, x) == self.dag.rank_of(subgraph_idx).rows());
                assert forall|i: int| 0 <= i < self.dag.rank_of(subgraph_idx).rows().len() implies
                    (#[trigger] self.dag.rank_of(subgraph_idx).rows()[i]).to_multiset() == o.rank_of(subgraph_idx).rows()[i].to_multiset() by {
                }
                assert(self.dag.rows_rearranged(&o, subgraph_idx));
                self.dag.lemma_rows_rearranged_trans(&o, &orig, subgraph_idx);
                self.dag.lemma_inter_keeps(&orig, subgraph_idx);
                assert(self.dag.rank_of(subgraph_idx).rows()[row_idx as int] == x);
                o.lemma_inter_same(&orig, subgraph_idx, x);
                assert(o.inter_crossings(x) == orig.inter_crossings(x));
                assert(o.inter_crossings(row) == orig.inter_crossings(row));
                orig.lemma_inter_measure_update(rows, row_idx as int, x);
            }
        }
        c
    }

    /// Repeats sweeps of inter-subgraph passes over the rows of subgraph
    /// `subgraph_idx` until a sweep exchanges nothing: from the top row down
    /// when `dir` looks down, then from the bottom row up when it looks up.
    /// Each pass lowers the number of crossing pairs of edges in its row, so
    /// the sweeps end; afterwards no pass would exchange two units.
    fn swap_crossed_edges_inter(&mut self, subgraph_idx: SubgraphHandle, dir: Direction)
        requires
            old(self).dag.can_swap_inter(subgraph_idx),
        ensures
            *final(final(self).dag) == *final(old(self).dag),
            final(self).dag.can_swap_inter(subgraph_idx),
            final(self).dag.rows_rearranged(old(self).dag, subgraph_idx),
            (dir.looks_down() || dir.looks_up()) ==> forall|i: int| 0 <= i < final(self).dag.rank_of(subgraph_idx).rows().len() ==>
                !#[trigger] final(self).dag.inter_would_change(final(self).dag.rank_of(subgraph_idx).rows()[i]),
    {
        let ghost orig = *self.dag;
        let h = self.dag.num_levels_subgraph(subgraph_idx);
        proof {
            orig.lemma_rows_rearranged_refl(subgraph_idx);
        }
        let mut changed = true;
        while changed
            invariant
                *final(self.dag) == *final(old(self).dag),
                orig == *old(self).dag,
                orig.can_swap_inter(subgraph_idx),
                self.dag.rows_rearranged(&orig, subgraph_idx),
                h == self.dag.rank_of(subgraph_idx).rows().len(),
                !changed && (dir.looks_down() || dir.looks_up()) ==> forall|i: int| 0 <= i < h ==>
                    !#[trigger] self.dag.inter_would_change(self.dag.rank_of(subgraph_idx).rows()[i]),
            decreases orig.inter_measure(self.dag.rank_of(subgraph_idx).rows()) + ind(changed),
        {
            let ghost start = *self.dag;
            changed = false;
            if dir.is_down() {
                let mut i: usize = 0;
                while i < h
                    invariant
                        *final(self.dag) == *final(old(self).dag),
                        orig == *old(self).dag,
                        orig.can_swap_inter(subgraph_idx),
                        self.dag.rows_rearranged(&orig, subgraph_idx),
                        h == self.dag.rank_of(subgraph_idx).rows().len(),
                        i <= h,
                        orig.inter_measure(self.dag.rank_of(subgraph_idx).rows())
                            <= orig.inter_measure(start.rank_of(subgraph_idx).rows()),
                        changed ==> orig.inter_measure(self.dag.rank_of(subgraph_idx).rows())
                            < orig.inter_measure(start.rank_of(subgraph_idx).rows()),
                        !changed ==> *self.dag == start,
                        !changed ==> forall|k: int| 0 <= k < i ==>
                            !#[trigger] start.inter_would_change(start.rank_of(subgraph_idx).rows()[k]),
                    decreases h - i,
                {
                    let c = self.inter_row_pass(subgraph_idx, i, Ghost(orig));
                    if c {
                        changed = true;
                    }
                    i = i + 1;
                }
            }
            if dir.is_up() {
                let mut i: usize = h;
                while i > 0
                    invariant
                        *final(self.dag) == *final(old(self).dag),
                        orig == *old(self).dag,
                        orig.can_swap_inter(subgraph_idx),
                        self.dag.rows_rearranged(&orig, subgraph_idx),
                        h == self.dag.rank_of(subgraph_idx).rows().len(),
                        i <= h,
                        orig.inter_measure(self.dag.rank_of(subgraph_idx).rows())
                            <= orig.inter_measure(start.rank_of(subgraph_idx).rows()),
                        changed ==> orig.inter_measure(self.dag.rank_of(subgraph_idx).rows())
                            < orig.inter_measure(start.rank_of(subgraph_idx).rows()),
                        !changed ==> *self.dag == start,
                        !changed ==> forall|k: int| i <= k < h ==>
                            !#[trigger] start.inter_would_change(start.rank_of(subgraph_idx).rows()[k]),
                        !changed && dir.looks_down() ==> forall|k: int| 0 <= k < h ==>
                            !#[trigger] start.inter_would_change(start.rank_of(subgraph_idx).rows()[k]),
                    decreases i,
                {
                    i = i - 1;
                    let c = self.inter_row_pass(subgraph_idx, i, Ghost(orig));
                    if c {
                        changed = true;
                    }
                }
            }
        }
        proof {
            self.dag.lemma_inter_keeps(&orig, subgraph_idx);
        }
    }
}

impl DAG {
    /// The crossings of the rows of subgraph `s` can be optimized: the rows
    /// can be reordered by both kinds of passes, none is empty, each is
    /// short enough for the shuffling steps, and the crossings between all
    /// rows fit in a `usize` whatever their order. Checking the dag first,
    /// as the optimization does, needs `passes_checks`.
    pub open(crate) spec fn can_optimize_crossings(&self, s: SubgraphHandle) -> bool {
        &&& self.can_swap_rows(s)
        &&& self.can_swap_inter(s)
        &&& self.rows_nonempty(s)
        &&& self.rows_fit_perturb(s)
        &&& self.rank_of(s).rows().len() > 0
        &&& rows_cap(self.rank_of(s).rows()) <= usize::MAX
    }

    /// Rearranging the rows keeps what the optimization needs.
    pub proof fn lemma_optimize_keeps(&self, o: &DAG, s: SubgraphHandle)
        requires
            o.can_optimize_crossings(s),
            self.rows_rearranged(o, s),
        ensures
            self.can_optimize_crossings(s),
            self.adjacency() == o.adjacency(),
    {
        self.lemma_rows_rearranged_keeps(o, s);
        self.lemma_inter_keeps(o, s);
        let rows = self.rank_of(s).rows();
        let orows = o.rank_of(s).rows();
        assert forall|i: int| 0 <= i < rows.len() implies (#[trigger] rows[i]).len() == orows[i].len() by {
            rows[i].to_multiset_ensures();
            orows[i].to_multiset_ensures();
        }
        lemma_rows_cap_same(rows, orows);
        assert forall|i: int| 0 <= i < rows.len() implies #[trigger] rows[i].len() > 0 by {
            assert(rows[i].len() == orows[i].len());
        }
        assert forall|i: int| 0 <= i < rows.len() implies #[trigger] rows[i].len() * 17 <= usize::MAX by {
            assert(rows[i].len() == orows[i].len());
        }
    }
}

pub proof fn lemma_rotated_multiset(row: Seq<UnitHandle>)
    requires
        row.len() > 0,
    ensures
        rotated(row).to_multiset() == row.to_multiset(),
{
    let a = seq![row[0]];
    let b = row.drop_first();
    assert(row =~= a + b);
    assert(rotated(row) =~= b + a);
    vstd::seq_lib::lemma_multiset_commutative(a, b);
    vstd::seq_lib::lemma_multiset_commutative(b, a);
}

/// The direction of the sweeps of round `i` of `optimize`.
pub open spec fn round_dir(i: int) -> Direction {
    if i % 4 == 0 {
        Direction::Both
    } else if i % 4 == 1 {
        Direction::Up
    } else {
        Direction::Down
    }
}

/// Each row of `rows` rotated.
pub open spec fn rows_rotated(rows: Seq<Seq<UnitHandle>>) -> Seq<Seq<UnitHandle>> {
    Seq::new(rows.len(), |k: int| rotated(rows[k]))
}

/// Each row of `rows` shuffled.
pub open spec fn rows_perturbed(rows: Seq<Seq<UnitHandle>>) -> Seq<Seq<UnitHandle>> {
    Seq::new(rows.len(), |k: int| perturb(rows[k], rows[k].len()))
}

/// The rows, and the arrangement with the fewest crossings found so far,
/// after the first `i` rounds of `optimize` from `rows`: a round sweeps
/// until the sweeps settle, keeps the result if it has fewer crossings than
/// the best so far, then rotates the rows, and every tenth round (from the
/// first) shuffles them.
pub open spec fn rounds(adj: spec_fn(UnitHandle, UnitHandle) -> bool, rows: Seq<Seq<UnitHandle>>, i: nat) -> (Seq<Seq<UnitHandle>>, Seq<Seq<UnitHandle>>)
    decreases i,
{
    if i == 0 {
        (rows, rows)
    } else {
        let prev = rounds(adj, rows, (i - 1) as nat);
        let swept = settled(adj, prev.0, round_dir(i - 1));
        let best = if rows_crossings(adj, swept) < rows_crossings(adj, prev.1) { swept } else { prev.1 };
        let turned = rows_rotated(swept);
        let next = if (i - 1) % 10 == 0 { rows_perturbed(turned) } else { turned };
        (next, best)
    }
}

impl<'a> EdgeCrossOptimizer<'a> {
    /// Reorders the rows of subgraph `subgraph_idx` to reduce crossings:
    /// fifty rounds of sweeps (in directions Both, Up, Down, Down, in turn),
    /// keeping the arrangement with the fewest crossings found, each round
    /// followed by a rotation of the rows and, every tenth round, by a
    /// shuffle; then the best arrangement is restored and swept by
    /// inter-subgraph passes. The arrangement restored has no more crossings
    /// than the one the rows started with.
    pub fn optimize(&mut self, subgraph_idx: SubgraphHandle)
        requires
            old(self).dag.can_optimize_crossings(subgraph_idx),
            old(self).dag.passes_checks(),
        ensures
            *final(final(self).dag) == *final(old(self).dag),
            final(self).dag.rows_rearranged(old(self).dag, subgraph_idx),
            final(self).dag.can_optimize_crossings(subgraph_idx),
            forall|i: int| 0 <= i < final(self).dag.rank_of(subgraph_idx).rows().len() ==>
                !#[trigger] final(self).dag.inter_would_change(final(self).dag.rank_of(subgraph_idx).rows()[i]),
            exists|kept: DAG| {
                &&& #[trigger] kept.rows_rearranged(old(self).dag, subgraph_idx)
                &&& kept.rank_of(subgraph_idx).rows()
                    == rounds(old(self).dag.adjacency(), old(self).dag.rank_of(subgraph_idx).rows(), 50).1
                &&& rows_crossings(old(self).dag.adjacency(), kept.rank_of(subgraph_idx).rows())
                    <= rows_crossings(old(self).dag.adjacency(), old(self).dag.rank_of(subgraph_idx).rows())
                &&& final(self).dag.rows_rearranged(&kept, subgraph_idx)
            },
    {
        let ghost orig = *self.dag;
        let ghost adj = orig.adjacency();
        let ghost orows = orig.rank_of(subgraph_idx).rows();
        self.dag.verify();
        proof {
            orig.lemma_rows_rearranged_refl(subgraph_idx);
            lemma_rows_crossings_cap(adj, orig.rank_of(subgraph_idx).rows());
        }
        let mut best_rank = self.dag.rank_copy(subgraph_idx);
        let mut best_cnt = count_crossed_edges(self.dag, subgraph_idx);
        let mut i: usize = 0;
        while i < 50
            invariant
                *final(self.dag) == *final(old(self).dag),
                orig == *old(self).dag,
                orig.can_optimize_crossings(subgraph_idx),
                adj == orig.adjacency(),
                self.dag.rows_rearranged(&orig, subgraph_idx),
                best_rank.level_map() == orig.rank_of(subgraph_idx).level_map(),
                best_rank.rows().len() == orig.rank_of(subgraph_idx).rows().len(),
                forall|k: int| 0 <= k < best_rank.rows().len() ==>
                    (#[trigger] best_rank.rows()[k]).to_multiset() == orig.rank_of(subgraph_idx).rows()[k].to_multiset(),
                best_cnt == rows_crossings(adj, best_rank.rows()),
                best_cnt <= rows_crossings(adj, orig.rank_of(subgraph_idx).rows()),
                i <= 50,
                orows == orig.rank_of(subgraph_idx).rows(),
                self.dag.rank_of(subgraph_idx).rows() == rounds(adj, orows, i as nat).0,
                best_rank.rows() == rounds(adj, orows, i as nat).1,
            decreases 50 - i,
        {
            proof {
                self.dag.lemma_optimize_keeps(&orig, subgraph_idx);
            }
            let ghost d0 = *self.dag;
            let dir = match i % 4 {
                0 => Direction::Both,
                1 => Direction::Up,
                _ => Direction::Down,
            };
            proof {
                assert(dir == round_dir(i as int));
            }
            self.swap_crossed_edges(subgraph_idx, dir);
            proof {
                self.dag.lemma_rows_rearranged_trans(&d0, &orig, subgraph_idx);
            }
            let ghost d1 = *self.dag;
            proof {
                self.dag.lemma_optimize_keeps(&orig, subgraph_idx);
                lemma_rows_crossings_cap(adj, self.dag.rank_of(subgraph_idx).rows());
            }
            let new_cnt = count_crossed_edges(self.dag, subgraph_idx);
            if new_cnt < best_cnt {
                best_rank = self.dag.rank_copy(subgraph_idx);
                best_cnt = new_cnt;
            }
            self.rotate_rank(subgraph_idx);
            proof {
                let rows = self.dag.rank_of(subgraph_idx).rows();
                assert forall|k: int| 0 <= k < rows.len() implies
                    (#[trigger] rows[k]).to_multiset() == d1.rank_of(subgraph_idx).rows()[k].to_multiset() by {
                    lemma_rotated_multiset(d1.rank_of(subgraph_idx).rows()[k]);
                }
                assert(self.dag.rows_rearranged(&d1, subgraph_idx));
                self.dag.lemma_rows_rearranged_trans(&d1, &orig, subgraph_idx);
                assert(rows =~= rows_rotated(d1.rank_of(subgraph_idx).rows()));
            }
            let ghost d3 = *self.dag;
            if i % 10 == 0 {
                let ghost d2 = *self.dag;
                proof {
                    self.dag.lemma_optimize_keeps(&orig, subgraph_idx);
                }
                self.perturb_rank(subgraph_idx);
                proof {
                    let rows = self.dag.rank_of(subgraph_idx).rows();
                    assert forall|k: int| 0 <= k < rows.len() implies
                        (#[trigger] rows[k]).to_multiset() == d2.rank_of(subgraph_idx).rows()[k].to_multiset() by {
                        let r0 = d2.rank_of(subgraph_idx).rows()[k];
                        lemma_perturb_len(r0, r0.len());
                    }
                    assert(self.dag.rows_rearranged(&d2, subgraph_idx));
                    self.dag.lemma_rows_rearranged_trans(&d2, &orig, subgraph_idx);
                    assert(rows =~= rows_perturbed(d2.rank_of(subgraph_idx).rows()));
                }
            }
            proof {
                let prev = rounds(adj, orows, i as nat);
                assert(d1.rank_of(subgraph_idx).rows() == settled(adj, prev.0, round_dir(i as int)));
                assert(rounds(adj, orows, (i + 1) as nat).0 == self.dag.rank_of(subgraph_idx).rows());
                assert(rounds(adj, orows, (i + 1) as nat).1 == best_rank.rows());
            }
            i = i + 1;
        }
        let ghost before = *self.dag;
        self.dag.set_rank(subgraph_idx, best_rank);
        proof {
            self.dag.lemma_same_except_rank_trans(&before, &orig, subgraph_idx);
            assert(self.dag.rows_rearranged(&orig, subgraph_idx));
            self.dag.lemma_optimize_keeps(&orig, subgraph_idx);
        }
        let ghost restored = *self.dag;
        self.swap_crossed_edges_inter(subgraph_idx, Direction::Both);
        proof {
            self.dag.lemma_rows_rearranged_trans(&restored, &orig, subgraph_idx);
            self.dag.lemma_optimize_keeps(&orig, subgraph_idx);
            assert(restored.rows_rearranged(&orig, subgraph_idx));
            assert(rows_crossings(adj, restored.rank_of(subgraph_idx).rows()) <= rows_crossings(adj, orig.rank_of(subgraph_idx).rows()));
        }
    }
}

impl DAG {
    /// What `can_optimize_crossings` asks of one row of subgraph `s`.
    pub open(crate) spec fn row_ready(&self, s: SubgraphHandle, a: int) -> bool {
        let row = self.rank_of(s).rows()[a];
        &&& row.len() > 0
        &&& row.len() * 17 <= usize::MAX
        &&& 2 * row.len() * row.len() <= usize::MAX
        &&& self.units_valid(row)
        &&& self.inter_ready(row)
        &&& !row.contains(UnitHandle::Subgraph(s))
    }
}

pub proof fn lemma_rows_cap_prefix(rows: Seq<Seq<UnitHandle>>, k: int)
    requires
        0 <= k <= rows.len(),
    ensures
        rows_cap(rows.take(k)) <= rows_cap(rows),
    decreases rows.len(),
{
    if k < rows.len() {
        assert(rows.drop_last().take(k) =~= rows.take(k));
        lemma_rows_cap_prefix(rows.drop_last(), k);
    } else {
        assert(rows.take(k) =~= rows);
    }
}

/// The count can be taken on `u`, and `u` is not subgraph `s` itself.
pub open spec fn unit_fits_row(dag: &DAG, s: SubgraphHandle, u: UnitHandle) -> bool {
    dag.unit_ready(u) && u != UnitHandle::Subgraph(s)
}

/// Whether the crossings of the rows of subgraph `s` can be optimized
/// (`can_optimize_crossings`).
#[verifier::rlimit(40)]
pub fn crossing_ready(dag: &DAG, s: SubgraphHandle) -> (r: bool)
    requires
        dag.wf(),
        dag.subgraph_valid(s),
    ensures
        r == dag.can_optimize_crossings(s),
{
    let ghost rows = dag.rank_of(s).rows();
    let h = dag.num_levels_subgraph(s);
    if h == 0 {
        return false;
    }
    let mut i: usize = 0;
    while i < h
        invariant
            dag.wf(),
            dag.subgraph_valid(s),
            rows == dag.rank_of(s).rows(),
            h == rows.len(),
            i <= h,
            forall|a: int| 0 <= a < i ==> #[trigger] dag.row_ready(s, a),
        decreases h - i,
    {
        let row = dag.row_subgraph(s, i);
        let len = row.len();
        if len == 0 {
            return false;
        }
        match len.checked_mul(17) {
            None => {
                proof {
                    assert(rows[i as int].len() * 17 > usize::MAX);
                    assert(!dag.rows_fit_perturb(s));
                }
                return false;
            },
            Some(_) => {},
        }
        match len.checked_mul(len) {
            None => {
                proof {
                    let l = len as int;
                    assert(2 * l * l > usize::MAX) by (nonlinear_arith) requires l * l > usize::MAX, l >= 0;
                    assert(2 * rows[i as int].len() * rows[i as int].len() > usize::MAX);
                    assert(!dag.rows_fit_cross(s));
                }
                return false;
            },
            Some(sq) => {
                match sq.checked_mul(2) {
                    None => {
                        proof {
                            let l = len as int;
                            assert(2 * l * l == 2 * (l * l)) by (nonlinear_arith);
                            assert(2 * rows[i as int].len() * rows[i as int].len() > usize::MAX);
                            assert(!dag.rows_fit_cross(s));
                        }
                        return false;
                    },
                    Some(_) => {
                        proof {
                            let l = len as int;
                            assert(2 * l * l == 2 * (l * l)) by (nonlinear_arith);
                        }
                    },
                }
            },
        }
        let mut l: usize = 0;
        while l < len
            invariant
                dag.wf(),
                dag.subgraph_valid(s),
                rows == dag.rank_of(s).rows(),
                i < h,
                h == rows.len(),
                row@ == rows[i as int],
                len == row@.len(),
                l <= len,
                forall|b: int| 0 <= b < l ==> #[trigger] unit_fits_row(dag, s, row@[b]),
            decreases len - l,
        {
            let u = row[l];
            if !unit_ready_exec(dag, u) {
                proof {
                    assert(row@[l as int] == u);
                    assert(!dag.inter_ready(rows[i as int]));
                }
                return false;
            }
            let is_self = match u {
                UnitHandle::Subgraph(t) => t.idx == s.idx,
                UnitHandle::Node(_) => false,
            };
            if is_self {
                proof {
                    assert(u == UnitHandle::Subgraph(s));
                    assert(row@[l as int] == u);
                    assert(rows[i as int].contains(UnitHandle::Subgraph(s)));
                }
                return false;
            }
            proof {
                assert(row@[l as int] == u);
                assert(u != UnitHandle::Subgraph(s));
                assert(unit_fits_row(dag, s, u));
            }
            l = l + 1;
        }
        proof {
            assert forall|b: int| 0 <= b < row@.len() implies dag.unit_valid(#[trigger] row@[b]) by {
                assert(unit_fits_row(dag, s, row@[b]));
            }
            assert(!row@.contains(UnitHandle::Subgraph(s))) by {
                if row@.contains(UnitHandle::Subgraph(s)) {
                    let b = choose|b: int| 0 <= b < row@.len() && row@[b] == UnitHandle::Subgraph(s);
                    assert(unit_fits_row(dag, s, row@[b]));
                }
            }
            assert(dag.inter_ready(row@)) by {
                assert forall|b: int| 0 <= b < row@.len() implies #[trigger] dag.unit_ready(row@[b]) by {
                    assert(unit_fits_row(dag, s, row@[b]));
                }
            }
            assert(dag.row_ready(s, i as int));
        }
        i = i + 1;
    }
    let mut acc: usize = 0;
    let mut k: usize = 0;
    proof {
        assert(rows.take(1).len() < 2);
    }
    while k + 1 < h
        invariant
            dag.subgraph_valid(s),
            rows == dag.rank_of(s).rows(),
            h == rows.len(),
            h > 0,
            k + 1 <= h,
            acc == rows_cap(rows.take(k as int + 1)),
            forall|a: int| 0 <= a < h ==> #[trigger] dag.row_ready(s, a),
        decreases h - k,
    {
        let l1 = dag.row_subgraph(s, k).len();
        let l2 = dag.row_subgraph(s, k + 1).len();
        proof {
            assert(dag.row_ready(s, k as int) && dag.row_ready(s, k as int + 1));
            let t = rows.take(k as int + 2);
            assert(t.drop_last() =~= rows.take(k as int + 1));
            assert(t[t.len() - 2] == rows[k as int]);
            assert(t[t.len() - 1] == rows[k as int + 1]);
            lemma_rows_cap_prefix(rows, k as int + 2);
        }
        let c = match l1.checked_mul(l1) {
            None => {
                proof {
                    let a = l1 as int;
                    let b = l2 as int;
                    if b > 0 {
                        assert(a * a * (b * b) >= a * a) by (nonlinear_arith) requires b >= 1, a >= 0;
                    }
                }
                return false;
            },
            Some(sq1) => match l2.checked_mul(l2) {
                None => {
                    proof {
                        let a = l1 as int;
                        let b = l2 as int;
                        assert(a * a * (b * b) >= b * b) by (nonlinear_arith) requires a >= 1, b >= 0;
                    }
                    return false;
                },
                Some(sq2) => match sq1.checked_mul(sq2) {
                    None => { return false; },
                    Some(c) => c,
                },
            },
        };
        match acc.checked_add(c) {
            None => { return false; },
            Some(a) => { acc = a; },
        }
        k = k + 1;
    }
    proof {
        assert(rows.take(h as int) =~= rows);
        assert(dag.rank_units_valid(s)) by {
            assert forall|a: int| 0 <= a < rows.len() implies dag.units_valid(#[trigger] rows[a]) by {
                assert(dag.row_ready(s, a));
            }
        }
        assert forall|a: int| 0 <= a < rows.len() implies #[trigger] rows[a].len() > 0 by {
            assert(dag.row_ready(s, a));
        }
        assert forall|a: int| 0 <= a < rows.len() implies #[trigger] rows[a].len() * 17 <= usize::MAX by {
            assert(dag.row_ready(s, a));
        }
        assert forall|a: int| 0 <= a < rows.len() implies 2 * #[trigger] rows[a].len() * rows[a].len() <= usize::MAX by {
            assert(dag.row_ready(s, a));
        }
        assert forall|a: int| 0 <= a < rows.len() implies {
            &&& dag.inter_ready(#[trigger] rows[a])
            &&& !rows[a].contains(UnitHandle::Subgraph(s))
        } by {
            assert(dag.row_ready(s, a));
        }
    }
    true
}

} // verus!
