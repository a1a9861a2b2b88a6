//! Assigning levels to the units of a subgraph, and building its rank.

use vstd::prelude::*;
use crate::handles::{NodeHandle, SubgraphHandle, UnitHandle};
use crate::dag::{DAG, pad_rows};
use crate::reach::unit_reaches;
use crate::unit_map::UnitMap;

verus! {

/// The level of a unit and whether an edge has set it.
pub type LevelMark = (int, bool);

/// One edge `src -> d` pushes `d` below `src`. A subgraph is only moved by
/// the first edge that reaches it; edges from a unit to itself are ignored.
pub open spec fn relax_one(st: Map<UnitHandle, LevelMark>, src: UnitHandle, d: UnitHandle) -> Map<UnitHandle, LevelMark> {
    let pushed = if st[src].0 + 1 > st[d].0 { st[src].0 + 1 } else { st[d].0 };
    if d == src {
        st
    } else if d is Node || !st[d].1 {
        st.insert(d, (pushed, true))
    } else {
        st
    }
}

/// The edges from `src` to each of `ds`, in order.
pub open spec fn relax_list(st: Map<UnitHandle, LevelMark>, src: UnitHandle, ds: Seq<UnitHandle>) -> Map<UnitHandle, LevelMark>
    decreases ds.len(),
{
    if ds.len() == 0 {
        st
    } else {
        relax_one(relax_list(st, src, ds.drop_last()), src, ds.last())
    }
}

/// The edges out of each unit of `srcs`, unit after unit.
pub open spec fn level_fold(dag: &DAG, st: Map<UnitHandle, LevelMark>, srcs: Seq<UnitHandle>) -> Map<UnitHandle, LevelMark>
    decreases srcs.len(),
{
    if srcs.len() == 0 {
        st
    } else {
        relax_list(level_fold(dag, st, srcs.drop_last()), srcs.last(), dag.unit_succs(srcs.last()))
    }
}

/// Every unit of `order` at level 0, not yet set by an edge.
pub open spec fn initial_levels(order: Seq<UnitHandle>) -> Map<UnitHandle, LevelMark> {
    Map::new(|u: UnitHandle| order.contains(u), |u: UnitHandle| (0int, false))
}

/// The levels that `compute_levels` gives the units of `order`.
pub open spec fn computed_levels(dag: &DAG, order: Seq<UnitHandle>) -> Map<UnitHandle, LevelMark> {
    level_fold(dag, initial_levels(order), order)
}

impl DAG {
    /// The units of `order` are valid and their successors are among them.
    pub open(crate) spec fn order_closed(&self, order: Seq<UnitHandle>) -> bool {
        &&& forall|k: int| 0 <= k < order.len() ==> self.unit_valid(#[trigger] order[k])
        &&& forall|k: int, j: int| 0 <= k < order.len() && 0 <= j < self.unit_succs(order[k]).len()
            ==> order.contains(#[trigger] self.unit_succs(order[k])[j])
    }

    /// Assign a level to each unit of `order`: processing the units in order,
    /// each edge pushes its destination at least one level below its source,
    /// except that a subgraph is only placed by the first edge that reaches it.
    pub(crate) fn compute_levels(&self, order: &[UnitHandle]) -> (r: UnitMap<usize>)
        requires
            self.wf(),
            self.order_closed(order@),
        ensures
            forall|u: UnitHandle| #[trigger] r@.contains_key(u) <==> order@.contains(u),
            forall|u: UnitHandle| #[trigger] r@.contains_key(u) ==> r@[u] == computed_levels(self, order@)[u].0,
            forall|u: UnitHandle| #[trigger] r@.contains_key(u) ==> r@[u] <= order@.len(),
    {
        let ghost init = initial_levels(order@);
        let mut levels: UnitMap<(usize, bool)> = UnitMap::new();
        let n = order.len();
        let mut i: usize = 0;
        while i < n
            invariant
                n == order@.len(),
                i <= n,
                forall|u: UnitHandle| #[trigger] levels@.contains_key(u) <==> order@.take(i as int).contains(u),
                forall|u: UnitHandle| #[trigger] levels@.contains_key(u) ==> levels@[u] == (0usize, false),
            decreases n - i,
        {
            let ghost pre = levels@;
            let ui = order[i];
            levels.insert(ui, (0, false));
            proof {
                assert(ui == order@[i as int]);
                assert(levels@ == pre.insert(ui, (0usize, false)));
                assert(order@.take(i as int + 1) =~= order@.take(i as int).push(order@[i as int]));
                assert forall|u: UnitHandle| #[trigger] levels@.contains_key(u) <==> order@.take(i as int + 1).contains(u) by {
                    let t0 = order@.take(i as int);
                    let t1 = order@.take(i as int + 1);
                    if t0.contains(u) {
                        let k = choose|k: int| 0 <= k < t0.len() && #[trigger] t0[k] == u;
                        assert(t1[k] == u);
                    }
                    if t1.contains(u) {
                        let k = choose|k: int| 0 <= k < t1.len() && #[trigger] t1[k] == u;
                        if k < i {
                            assert(t0[k] == u);
                        } else {
                            assert(u == ui);
                        }
                    }
                    if u == ui {
                        assert(t1[i as int] == ui);
                    }
                }
            }
            i = i + 1;
        }
        proof {
            assert(order@.take(n as int) =~= order@);
            assert(as_marks(levels@) =~= level_fold(self, init, order@.take(0))) by {
                assert(order@.take(0) =~= Seq::<UnitHandle>::empty());
            }
        }
        let mut i: usize = 0;
        while i < n
            invariant
                self.wf(),
                self.order_closed(order@),
                n == order@.len(),
                i <= n,
                init == initial_levels(order@),
                forall|u: UnitHandle| #[trigger] levels@.contains_key(u) <==> order@.contains(u),
                forall|u: UnitHandle| #[trigger] levels@.contains_key(u) ==> levels@[u].0 <= i,
                as_marks(levels@) == level_fold(self, init, order@.take(i as int)),
            decreases n - i,
        {
            let src = order[i];
            proof { assert(self.unit_valid(order@[i as int])); }
            let successors = src.successors(self);
            let ghost st0 = as_marks(levels@);
            proof {
                assert(order@.contains(src));
                assert(levels@.contains_key(src));
            }
            let src_level = levels.get(src).unwrap().0;
            let mut j: usize = 0;
            while j < successors.len()
                invariant
                    self.wf(),
                    self.order_closed(order@),
                    n == order@.len(),
                    i < n,
                    src == order@[i as int],
                    successors@ == self.unit_succs(src),
                    j <= successors@.len(),
                    forall|u: UnitHandle| #[trigger] levels@.contains_key(u) <==> order@.contains(u),
                    forall|u: UnitHandle| #[trigger] levels@.contains_key(u) ==> levels@[u].0 <= i + 1,
                    levels@.contains_key(src),
                    levels@[src].0 == src_level,
                    src_level <= i,
                    as_marks(levels@) == relax_list(st0, src, successors@.take(j as int)),
                decreases successors@.len() - j,
            {
                let dest = successors[j];
                proof {
                    assert(successors@.take(j as int + 1).drop_last() =~= successors@.take(j as int));
                    assert(successors@.take(j as int + 1).last() == dest);
                    assert(order@.contains(self.unit_succs(order@[i as int])[j as int]));
                    assert(levels@.contains_key(dest));
                }
                if src != dest {
                    let cur = levels.get(dest).unwrap();
                    let pushed = if src_level + 1 > cur.0 { src_level + 1 } else { cur.0 };
                    match dest {
                        UnitHandle::Node(_) => {
                            levels.insert(dest, (pushed, true));
                        },
                        UnitHandle::Subgraph(_) => {
                            if !cur.1 {
                                levels.insert(dest, (pushed, true));
                            }
                        },
                    }
                    proof {
                        let before = relax_list(st0, src, successors@.take(j as int));
                        assert(as_marks(levels@) =~= relax_one(before, src, dest));
                    }
                } else {
                    proof {
                        let before = relax_list(st0, src, successors@.take(j as int));
                        assert(as_marks(levels@) =~= relax_one(before, src, dest));
                    }
                }
                j = j + 1;
            }
            proof {
                assert(successors@.take(j as int) =~= successors@);
                assert(order@.take(i as int + 1).drop_last() =~= order@.take(i as int));
                assert(order@.take(i as int + 1).last() == src);
            }
            i = i + 1;
        }
        proof { assert(order@.take(n as int) =~= order@); }
        let mut level_final: UnitMap<usize> = UnitMap::new();
        let mut k: usize = 0;
        while k < n
            invariant
                n == order@.len(),
                k <= n,
                forall|u: UnitHandle| #[trigger] levels@.contains_key(u) <==> order@.contains(u),
                forall|u: UnitHandle| #[trigger] levels@.contains_key(u) ==> levels@[u].0 <= n,
                forall|u: UnitHandle| #[trigger] level_final@.contains_key(u) ==> level_final@[u] <= n,
                as_marks(levels@) == computed_levels(self, order@),
                forall|u: UnitHandle| #[trigger] level_final@.contains_key(u) <==> order@.take(k as int).contains(u),
                forall|u: UnitHandle| #[trigger] level_final@.contains_key(u) ==> level_final@[u] == computed_levels(self, order@)[u].0,
            decreases n - k,
        {
            let u = order[k];
            proof { assert(order@[k as int] == u); assert(order@.contains(u)); }
            let lv = levels.get(u).unwrap().0;
            level_final.insert(u, lv);
            proof {
                assert(as_marks(levels@)[u] == computed_levels(self, order@)[u]);
                assert(order@.take(k as int + 1) =~= order@.take(k as int).push(u));
                assert forall|w: UnitHandle| #[trigger] level_final@.contains_key(w) <==> order@.take(k as int + 1).contains(w) by {
                    let t0 = order@.take(k as int);
                    let t1 = order@.take(k as int + 1);
                    if t0.contains(w) {
                        let m = choose|m: int| 0 <= m < t0.len() && #[trigger] t0[m] == w;
                        assert(t1[m] == w);
                    }
                    if t1.contains(w) {
                        let m = choose|m: int| 0 <= m < t1.len() && #[trigger] t1[m] == w;
                        if m < k {
                            assert(t0[m] == w);
                        }
                    }
                    if w == u {
                        assert(t1[k as int] == u);
                    }
                }
            }
            k = k + 1;
        }
        proof { assert(order@.take(n as int) =~= order@); }
        level_final
    }
}

/// The levels with their marks, as integers.
pub open spec fn as_marks(m: Map<UnitHandle, (usize, bool)>) -> Map<UnitHandle, LevelMark> {
    Map::new(|u: UnitHandle| m.contains_key(u), |u: UnitHandle| (m[u].0 as int, m[u].1))
}


/// One more than the highest level of the units of `order` (0 if none).
pub open spec fn rows_needed(order: Seq<UnitHandle>, lv: Map<UnitHandle, usize>) -> nat
    decreases order.len(),
{
    if order.len() == 0 {
        0
    } else {
        let rest = rows_needed(order.drop_last(), lv);
        let mine = lv[order.last()] as nat + 1;
        if mine > rest { mine } else { rest }
    }
}

/// The units of `order` whose level in `lv` is `k`, in order.
pub open spec fn at_level(order: Seq<UnitHandle>, lv: Map<UnitHandle, usize>, k: int) -> Seq<UnitHandle>
    decreases order.len(),
{
    if order.len() == 0 {
        Seq::empty()
    } else {
        let rest = at_level(order.drop_last(), lv, k);
        if lv[order.last()] == k {
            rest.push(order.last())
        } else {
            rest
        }
    }
}

/// The rank that places the units of `order`, in order, in the rows given
/// by their levels `lv`.
pub open spec fn rank_rows(order: Seq<UnitHandle>, lv: Map<UnitHandle, usize>) -> Seq<Seq<UnitHandle>> {
    Seq::new(rows_needed(order, lv), |k: int| at_level(order, lv, k))
}

impl DAG {
    /// Places all of the units of subgraph `subgraph_idx` that its sources
    /// reach in the rows of its rank given by `compute_levels`, in the order
    /// of `topological_sort_subgraph` (a topological order when the unit
    /// edges of the subgraph close no cycle). Then every edge to a node goes
    /// at least one level down.
    pub fn recompute_node_ranks(&mut self, subgraph_idx: SubgraphHandle)
        requires
            old(self).wf(),
            old(self).node_count() > 0,
            old(self).subgraph_valid(subgraph_idx),
            old(self).subgraph_closed(subgraph_idx),
            old(self).members(subgraph_idx).len() < usize::MAX,
        ensures
            final(self).wf(),
            final(self).same_except_rank(old(self), subgraph_idx),
            exists|order: Seq<UnitHandle>| {
                &&& old(self).is_reach_order(subgraph_idx, order)
                &&& order == crate::toposort::walk_result(old(self), Seq::empty(), false, crate::toposort::walk_start(old(self), subgraph_idx))
                &&& old(self).units_acyclic(subgraph_idx) ==> old(self).is_topological(order)
                &&& final(self).rank_of(subgraph_idx).rows() == rank_rows(order, final(self).rank_of(subgraph_idx).level_map())
                &&& forall|u: UnitHandle| #[trigger] final(self).rank_of(subgraph_idx).level_map().contains_key(u) <==> order.contains(u)
                &&& forall|u: UnitHandle| #[trigger] final(self).rank_of(subgraph_idx).level_map().contains_key(u) ==>
                    final(self).rank_of(subgraph_idx).level_map()[u] == computed_levels(old(self), order)[u].0
                &&& forall|u: UnitHandle| #[trigger] final(self).rank_of(subgraph_idx).level_map().contains_key(u) ==>
                    final(self).rank_of(subgraph_idx).level_map()[u] < usize::MAX
            },
            forall|v: UnitHandle| #[trigger] old(self).from_source(subgraph_idx, v) ==> {
                &&& final(self).rank_of(subgraph_idx).level_map().contains_key(v)
                &&& final(self).rank_of(subgraph_idx).level_map()[v] < usize::MAX
                &&& final(self).rank_of(subgraph_idx).level_map()[v] <= old(self).members(subgraph_idx).len()
            },
            old(self).units_acyclic(subgraph_idx) ==>
                forall|u: UnitHandle, v: UnitHandle|
                    #![trigger final(self).rank_of(subgraph_idx).level_map()[u], old(self).unit_succs(u).contains(v)]
                    final(self).rank_of(subgraph_idx).level_map().contains_key(u) && old(self).unit_succs(u).contains(v) && v != u && v is Node ==> {
                        &&& final(self).rank_of(subgraph_idx).level_map().contains_key(v)
                        &&& final(self).rank_of(subgraph_idx).level_map()[v] >= final(self).rank_of(subgraph_idx).level_map()[u] + 1
                    },
    {
        let ghost o = *self;
        let order = self.topological_sort_subgraph(subgraph_idx);
        proof {
            assert forall|k: int| 0 <= k < order@.len() implies self.unit_valid(#[trigger] order@[k]) by {
                assert(order@.contains(order@[k]));
                self.lemma_reach_member(subgraph_idx, order@[k]);
                self.lemma_member_valid(subgraph_idx, order@[k]);
            }
            assert forall|k: int, j: int| 0 <= k < order@.len() && 0 <= j < self.unit_succs(order@[k]).len()
                implies order@.contains(#[trigger] self.unit_succs(order@[k])[j]) by {
                assert(order@.contains(order@[k]));
                assert(self.unit_valid(order@[k]));
                crate::toposort::lemma_unit_reaches_after(self, subgraph_idx, order@[k], self.unit_succs(order@[k])[j]);
            }
            // The order holds distinct members, so it is no longer than the member list.
            assert(order@.to_set().subset_of(self.members(subgraph_idx).to_set())) by {
                assert forall|u: UnitHandle| order@.to_set().contains(u) implies self.members(subgraph_idx).to_set().contains(u) by {
                    self.lemma_reach_member(subgraph_idx, u);
                }
            }
            order@.unique_seq_to_set();
            self.members(subgraph_idx).lemma_cardinality_of_set();
            vstd::set_lib::lemma_len_subset(order@.to_set(), self.members(subgraph_idx).to_set());
        }
        let levels = self.compute_levels(order.as_slice());
        let ghost lv = levels@;
        let ghost before_clear = *self;
        self.subgraphs[subgraph_idx.idx].ranks.clear();
        proof {
            assert(self.same_except_rank(&o, subgraph_idx));
            self.lemma_same_except_rank_wf(&o, subgraph_idx);
            assert(rank_rows(order@.take(0), lv) =~= self.rank_of(subgraph_idx).rows());
        }
        let n = order.len();
        let mut i: usize = 0;
        while i < n
            invariant
                o.wf(),
                self.wf(),
                self.same_except_rank(&o, subgraph_idx),
                self.subgraph_valid(subgraph_idx),
                n == order@.len(),
                n < usize::MAX,
                i <= n,
                lv == levels@,
                forall|u: UnitHandle| #[trigger] lv.contains_key(u) <==> order@.contains(u),
                forall|u: UnitHandle| #[trigger] lv.contains_key(u) ==> lv[u] == computed_levels(&o, order@)[u].0 && lv[u] <= n,
                self.rank_of(subgraph_idx).rows() == rank_rows(order@.take(i as int), lv),
                forall|u: UnitHandle| #[trigger] self.rank_of(subgraph_idx).level_map().contains_key(u) <==> order@.take(i as int).contains(u),
                forall|u: UnitHandle| #[trigger] self.rank_of(subgraph_idx).level_map().contains_key(u) ==> self.rank_of(subgraph_idx).level_map()[u] == lv[u],
            decreases n - i,
        {
            let u = order[i];
            proof { assert(order@[i as int] == u); assert(order@.contains(u)); }
            let level = levels.get(u).unwrap();
            let ghost before = *self;
            self.add_element_to_rank_subgraph(u, level, false, subgraph_idx);
            proof {
                self.lemma_same_except_rank_wf(&before, subgraph_idx);
                assert(self.same_except_rank(&o, subgraph_idx)) by {
                    assert forall|t: SubgraphHandle| #![trigger self.subgraphs@[t.index() as int]]
                        self.subgraph_valid(t) && t != subgraph_idx implies
                        self.subgraphs@[t.index() as int] == before.subgraphs@[t.index() as int] by {}
                }
                lemma_rank_rows_step(order@, lv, i as int);
                let t0 = order@.take(i as int);
                let t1 = order@.take(i as int + 1);
                assert(t1 =~= t0.push(u));
                assert forall|w: UnitHandle| #[trigger] self.rank_of(subgraph_idx).level_map().contains_key(w) <==> t1.contains(w) by {
                    if t0.contains(w) {
                        let k = choose|k: int| 0 <= k < t0.len() && #[trigger] t0[k] == w;
                        assert(t1[k] == w);
                    }
                    if t1.contains(w) {
                        let k = choose|k: int| 0 <= k < t1.len() && #[trigger] t1[k] == w;
                        if k < i {
                            assert(t0[k] == w);
                        } else {
                            assert(w == u);
                        }
                    }
                    if w == u {
                        assert(t1[i as int] == u);
                    }
                }
            }
            i = i + 1;
        }
        proof {
            assert(order@.take(n as int) =~= order@);
            assert(self.rank_of(subgraph_idx).level_map() =~= lv);
            assert(o.is_reach_order(subgraph_idx, order@));
            assert(order@.len() <= o.members(subgraph_idx).len()) by {
                o.members(subgraph_idx).lemma_cardinality_of_set();
            }
            assert forall|v: UnitHandle| #[trigger] o.from_source(subgraph_idx, v) implies {
                &&& self.rank_of(subgraph_idx).level_map().contains_key(v)
                &&& self.rank_of(subgraph_idx).level_map()[v] < usize::MAX
                &&& self.rank_of(subgraph_idx).level_map()[v] <= o.members(subgraph_idx).len()
            } by {
                assert(order@.contains(v));
                assert(lv.contains_key(v));
            }
            if o.units_acyclic(subgraph_idx) {
                let lm = self.rank_of(subgraph_idx).level_map();
                assert forall|u: UnitHandle, v: UnitHandle|
                    #![trigger lm[u], o.unit_succs(u).contains(v)]
                    lm.contains_key(u) && o.unit_succs(u).contains(v) && v != u && v is Node implies {
                        &&& lm.contains_key(v)
                        &&& lm[v] >= lm[u] + 1
                    } by {
                    assert(order@.contains(u));
                    assert(o.from_source(subgraph_idx, u));
                    o.lemma_reach_member(subgraph_idx, u);
                    o.lemma_member_valid(subgraph_idx, u);
                    crate::toposort::lemma_unit_reaches_after(&o, subgraph_idx, u, v);
                    o.lemma_reach_member(subgraph_idx, v);
                    assert(order@.contains(v));
                    assert(v is Node);
                    o.lemma_levels_follow_edges(order@, u, v);
                }
            }
        }
    }

    /// What a source of `s` reaches is a member of `s` when `s` is closed.
    pub(crate) proof fn lemma_reach_member(&self, s: SubgraphHandle, v: UnitHandle)
        requires
            self.wf(),
            self.subgraph_valid(s),
            self.subgraph_closed(s),
            self.from_source(s, v),
        ensures
            self.is_member(s, v),
    {
        let r = choose|r: UnitHandle| self.is_source(s, r) && unit_reaches(self, r, v);
        let p = choose|p: Seq<UnitHandle>| crate::reach::is_unit_path(self, p) && p[0] == r && p.last() == v;
        self.lemma_path_members(s, p, p.len() - 1);
    }

    proof fn lemma_path_members(&self, s: SubgraphHandle, p: Seq<UnitHandle>, i: int)
        requires
            self.wf(),
            self.subgraph_valid(s),
            self.subgraph_closed(s),
            crate::reach::is_unit_path(self, p),
            self.is_member(s, p[0]),
            0 <= i < p.len(),
        ensures
            self.is_member(s, p[i]),
        decreases i,
    {
        if i > 0 {
            self.lemma_path_members(s, p, i - 1);
            let u = p[i - 1];
            assert(self.unit_valid(u) && self.unit_succs(u).contains(p[i]));
            let q = self.unit_succs(u);
            let k = choose|k: int| 0 <= k < q.len() && #[trigger] q[k] == p[i];
            assert(self.is_member(s, q[k]));
        }
    }
}

pub proof fn lemma_rank_rows_step(order: Seq<UnitHandle>, lv: Map<UnitHandle, usize>, i: int)
    requires
        0 <= i < order.len(),
    ensures
        ({
            let grown = pad_rows(rank_rows(order.take(i), lv), lv[order[i]] as nat + 1);
            rank_rows(order.take(i + 1), lv) == grown.update(lv[order[i]] as int, grown[lv[order[i]] as int].push(order[i]))
        }),
{
    let t0 = order.take(i);
    let t1 = order.take(i + 1);
    let u = order[i];
    let l = lv[u] as int;
    assert(t1.drop_last() =~= t0);
    assert(t1.last() == u);
    let grown = pad_rows(rank_rows(t0, lv), l as nat + 1);
    let want = grown.update(l, grown[l].push(u));
    assert forall|k: int| 0 <= k < want.len() implies #[trigger] rank_rows(t1, lv)[k] == want[k] by {
        assert(at_level(t1, lv, k) == if lv[u] == k { at_level(t0, lv, k).push(u) } else { at_level(t0, lv, k) });
        if k < rank_rows(t0, lv).len() {
            assert(rank_rows(t0, lv)[k] == at_level(t0, lv, k));
        } else {
            lemma_keep_none(t0, lv, k);
        }
    }
    assert(rank_rows(t1, lv) =~= want);
}

/// No unit of `order` has a level at or beyond `rows_needed`.
pub proof fn lemma_keep_none(order: Seq<UnitHandle>, lv: Map<UnitHandle, usize>, k: int)
    requires
        k >= rows_needed(order, lv),
    ensures
        at_level(order, lv, k) == Seq::<UnitHandle>::empty(),
    decreases order.len(),
{
    if order.len() > 0 {
        lemma_keep_none(order.drop_last(), lv, k);
    }
}

} // verus!
