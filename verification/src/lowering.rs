//! Lowering a graph: the layout of each subgraph, from the innermost out.

use vstd::prelude::*;
use crate::handles::{NodeHandle, SubgraphHandle, UnitHandle};
use crate::dag::{DAG, occ};
use crate::layout::{VisualGraph, EdgeEntry, proper_edges, targets_from, sources_to, unit_targets_from, unit_sources_to, valid_dag_arrow, text_pairs, text_count, has_text};
use crate::placement::{placeable, placement_fits, place_all, empty_state, place_positions, box_of_positions};

verus! {

/// Whether `u` occurs in `v`.
pub fn contains_unit(v: &Vec<UnitHandle>, u: UnitHandle) -> (r: bool)
    ensures
        r == v@.contains(u),
{
    let mut i: usize = 0;
    while i < v.len()
        invariant
            i <= v@.len(),
            forall|k: int| 0 <= k < i ==> v@[k] != u,
        decreases v@.len() - i,
    {
        if v[i] == u {
            proof { assert(v@[i as int] == u); }
            return true;
        }
        i = i + 1;
    }
    false
}

/// Each arrow that `proper_edges` keeps is one of the arrows it was given.
pub proof fn lemma_proper_from(edges: Seq<EdgeEntry>)
    ensures
        forall|j: int| 0 <= j < proper_edges(edges).len() ==>
            exists|i: int| 0 <= i < edges.len() && #[trigger] proper_edges(edges)[j] == edges[i],
    decreases edges.len(),
{
    if edges.len() > 0 {
        let rest = edges.drop_last();
        lemma_proper_from(rest);
        let e = edges.last();
        assert forall|j: int| 0 <= j < proper_edges(edges).len() implies
            exists|i: int| 0 <= i < edges.len() && #[trigger] proper_edges(edges)[j] == edges[i] by {
            if j < proper_edges(rest).len() {
                assert(proper_edges(edges)[j] == proper_edges(rest)[j]);
                let i = choose|i: int| 0 <= i < rest.len() && proper_edges(rest)[j] == #[trigger] rest[i];
                assert(rest[i] == edges[i]);
            } else {
                assert(proper_edges(edges)[j] == e);
                assert(edges[edges.len() - 1] == e);
            }
        }
    }
}

/// The occurrences in a concatenation add up.
pub proof fn lemma_occ_concat(x: Seq<NodeHandle>, y: Seq<NodeHandle>, b: NodeHandle)
    ensures
        occ(x + y, b) == occ(x, b) + occ(y, b),
{
    vstd::seq_lib::lemma_multiset_commutative(x, y);
    broadcast use vstd::multiset::group_multiset_axioms;
}

/// `text_pairs` counts from the back as well as from the front.
pub proof fn lemma_text_pairs_last(edges: Seq<EdgeEntry>, a: NodeHandle, b: NodeHandle)
    requires
        edges.len() > 0,
    ensures
        text_pairs(edges, a, b) == text_pairs(edges.drop_last(), a, b)
            + if has_text(edges.last()) && edges.last().1@[0] == a && edges.last().1@[1] == b { 1nat } else { 0nat },
    decreases edges.len(),
{
    if edges.len() > 1 {
        lemma_text_pairs_last(edges.drop_first(), a, b);
        assert(edges.drop_first().drop_last() =~= edges.drop_last().drop_first());
        assert(edges.drop_first().last() == edges.last());
        assert(edges.drop_last()[0] == edges[0]);
        assert(text_pairs(edges.drop_last(), a, b) == (if has_text(edges[0]) && edges[0].1@[0] == a && edges[0].1@[1] == b { 1nat } else { 0nat })
            + text_pairs(edges.drop_last().drop_first(), a, b));
    } else {
        assert(edges.drop_first().len() == 0);
        assert(edges.drop_last().len() == 0);
        assert(edges.last() == edges[0]);
        assert(text_pairs(edges.drop_first(), a, b) == 0);
        assert(text_pairs(edges.drop_last(), a, b) == 0);
    }
}

/// The labelled arrows from `a` to `b` are no more than the arrows from `a`
/// to `b`.
pub proof fn lemma_text_pairs_bound(edges: Seq<EdgeEntry>, a: NodeHandle, b: NodeHandle)
    ensures
        text_pairs(edges, a, b) <= occ(targets_from(edges, a), b),
    decreases edges.len(),
{
    if edges.len() > 0 {
        let rest = edges.drop_last();
        let e = edges.last();
        lemma_text_pairs_last(edges, a, b);
        lemma_text_pairs_bound(rest, a, b);
        let tail = if e.1@[0] == a { seq![e.1@[1]] } else { Seq::<NodeHandle>::empty() };
        lemma_occ_concat(targets_from(rest, a), tail, b);
        if e.1@[0] == a {
            crate::layout::lemma_occ_push(Seq::<NodeHandle>::empty(), e.1@[1], b);
            assert(Seq::<NodeHandle>::empty().push(e.1@[1]) =~= tail);
        }
        Seq::<NodeHandle>::empty().to_multiset_ensures();
        assert(!Seq::<NodeHandle>::empty().contains(b));
    }
}

/// The number of labelled arrows in `edges`.
pub fn text_count_exec(edges: &Vec<EdgeEntry>) -> (r: usize)
    ensures
        r == text_count(edges@),
{
    let mut c: usize = 0;
    let mut k: usize = 0;
    proof { assert(edges@.take(0) =~= Seq::<EdgeEntry>::empty()); }
    while k < edges.len()
        invariant
            k <= edges@.len(),
            c == text_count(edges@.take(k as int)),
            c <= k,
        decreases edges@.len() - k,
    {
        proof {
            let t = edges@.take(k as int + 1);
            assert(t.drop_last() =~= edges@.take(k as int));
            assert(t.last() == edges@[k as int]);
        }
        if !edges[k].0.text.as_str().is_empty() {
            c = c + 1;
        }
        k = k + 1;
    }
    proof { assert(edges@.take(k as int) =~= edges@); }
    c
}

/// Every unit of `order` can be placed in subgraph `s`, and placing them in
/// this order fits.
pub open spec fn order_places(dag: &DAG, s: SubgraphHandle, order: Seq<UnitHandle>) -> bool {
    &&& forall|k: int| 0 <= k < order.len() ==> placeable(dag, s, #[trigger] order[k])
    &&& placement_fits(dag, order)
}

/// Why `place_subgraph` fails on subgraph `s` of `dag`: a member has a
/// successor outside `s` or outside its rank, or the walk gives a reach
/// order whose units cannot all be placed.
pub open spec fn place_fails(dag: &DAG, s: SubgraphHandle) -> bool {
    ||| !dag.subgraph_closed(s)
    ||| !dag.succs_within(s, dag.rank_sequence(s))
    ||| exists|order: Seq<UnitHandle>| #[trigger] dag.is_reach_order(s, order) && !order_places(dag, s, order)
}

/// Two dags that differ in the rank of `s` alone place a unit that can be
/// placed in `s` in the same way.
pub proof fn lemma_place_unit_same(d1: &DAG, d2: &DAG, s: SubgraphHandle, st: crate::dag::MoveState, u: UnitHandle)
    requires
        d1.same_except_rank(d2, s),
        placeable(d2, s, u),
    ensures
        crate::placement::place_unit(d1, st, u) == crate::placement::place_unit(d2, st, u),
        crate::placement::place_pos(d1, st, u) == crate::placement::place_pos(d2, st, u),
{
    assert forall|w: UnitHandle| #[trigger] d1.unit_node_preds(w) == d2.unit_node_preds(w) by {}
    match u {
        UnitHandle::Node(n) => {
            assert(d1.placement_cands(u) == d2.placement_cands(u));
        },
        UnitHandle::Subgraph(t) => {
            assert(d1.subgraph_valid(t));
            assert(d1.subgraphs@[t.index() as int].nodes@ == d2.subgraphs@[t.index() as int].nodes@);
            let rows = d2.rank_of(t).rows();
            assert(d1.rank_of(t).rows() == rows);
            assert(d1.rank_of(t).level_map() == d2.rank_of(t).level_map());
            assert forall|row: Seq<UnitHandle>| #[trigger] d1.row_cands(row) == d2.row_cands(row) by {
                assert(row.map_values(|w: UnitHandle| d1.unit_node_preds(w)) =~= row.map_values(|w: UnitHandle| d2.unit_node_preds(w)));
            }
            assert(rows.map_values(|row: Seq<UnitHandle>| d1.row_cands(row)) =~= rows.map_values(|row: Seq<UnitHandle>| d2.row_cands(row)));
            assert(d1.placement_cands(u) == d2.placement_cands(u));
        },
    }
}

/// Two dags that differ in the rank of `s` alone place units that can be
/// placed in `s` in the same way.
pub proof fn lemma_place_all_same(d1: &DAG, d2: &DAG, s: SubgraphHandle, st: crate::dag::MoveState, order: Seq<UnitHandle>)
    requires
        d1.same_except_rank(d2, s),
        forall|k: int| 0 <= k < order.len() ==> placeable(d2, s, #[trigger] order[k]),
    ensures
        place_all(d1, st, order) == place_all(d2, st, order),
    decreases order.len(),
{
    if order.len() > 0 {
        let d = order.drop_last();
        assert forall|k: int| 0 <= k < d.len() implies placeable(d2, s, #[trigger] d[k]) by {
            assert(d[k] == order[k]);
        }
        lemma_place_all_same(d1, d2, s, st, d);
        assert(placeable(d2, s, order[order.len() - 1]));
        lemma_place_unit_same(d1, d2, s, place_all(d2, st, d), order.last());
    }
}

/// Whether the units of `order` can be placed in subgraph `s`, and whether
/// the placement fits, do not depend on the rank of `s`.
pub proof fn lemma_order_places_same(d1: &DAG, d2: &DAG, s: SubgraphHandle, order: Seq<UnitHandle>)
    requires
        d1.same_except_rank(d2, s),
    ensures
        order_places(d1, s, order) == order_places(d2, s, order),
{
    assert forall|u: UnitHandle| #![trigger placeable(d1, s, u)] #![trigger placeable(d2, s, u)] placeable(d1, s, u) == placeable(d2, s, u) by {
        if let UnitHandle::Subgraph(t) = u {
            if d2.unit_valid(u) && t != s {
                assert(d1.subgraph_valid(t));
                assert(d1.subgraphs@[t.index() as int].nodes@ == d2.subgraphs@[t.index() as int].nodes@);
                assert(d1.rank_of(t).rows() == d2.rank_of(t).rows());
            }
        }
    }
    assert((forall|k: int| 0 <= k < order.len() ==> placeable(d1, s, #[trigger] order[k]))
        == (forall|k: int| 0 <= k < order.len() ==> placeable(d2, s, #[trigger] order[k]))) by {
        if forall|k: int| 0 <= k < order.len() ==> placeable(d1, s, #[trigger] order[k]) {
            assert forall|k: int| 0 <= k < order.len() implies placeable(d2, s, #[trigger] order[k]) by {
                assert(placeable(d1, s, order[k]));
            }
        }
        if forall|k: int| 0 <= k < order.len() ==> placeable(d2, s, #[trigger] order[k]) {
            assert forall|k: int| 0 <= k < order.len() implies placeable(d1, s, #[trigger] order[k]) by {
                assert(placeable(d2, s, order[k]));
            }
        }
    }
    if forall|k: int| 0 <= k < order.len() ==> placeable(d2, s, #[trigger] order[k]) {
        let ps1 = place_positions(d1, order);
        let ps2 = place_positions(d2, order);
        assert forall|i: int| 0 <= i < order.len() implies #[trigger] ps1[i] == ps2[i] && (crate::placement::place_fits_at(d1, order, i) == crate::placement::place_fits_at(d2, order, i)) by {
            let t = order.take(i);
            assert forall|k: int| 0 <= k < t.len() implies placeable(d2, s, #[trigger] t[k]) by {
                assert(t[k] == order[k]);
            }
            lemma_place_all_same(d1, d2, s, empty_state(), t);
            assert(placeable(d2, s, order[i]));
            lemma_place_unit_same(d1, d2, s, place_all(d2, empty_state(), t), order[i]);
            if let UnitHandle::Subgraph(tt) = order[i] {
                assert(d1.subgraph_valid(tt));
                assert(d1.subgraphs@[tt.index() as int].nodes@ == d2.subgraphs@[tt.index() as int].nodes@);
                assert(d1.rank_of(tt).rows() == d2.rank_of(tt).rows());
                assert(d1.rank_of(tt).level_map() == d2.rank_of(tt).level_map());
            }
        }
        assert(ps1 =~= ps2);
        assert((forall|i: int| 0 <= i < order.len() ==> crate::placement::place_fits_at(d1, order, i))
            == (forall|i: int| 0 <= i < order.len() ==> crate::placement::place_fits_at(d2, order, i))) by {
            if forall|i: int| 0 <= i < order.len() ==> crate::placement::place_fits_at(d1, order, i) {
                assert forall|i: int| 0 <= i < order.len() implies crate::placement::place_fits_at(d2, order, i) by {
                    assert(ps1[i] == ps2[i]);
                    assert(crate::placement::place_fits_at(d1, order, i));
                }
            }
            if forall|i: int| 0 <= i < order.len() ==> crate::placement::place_fits_at(d2, order, i) {
                assert forall|i: int| 0 <= i < order.len() implies crate::placement::place_fits_at(d1, order, i) by {
                    assert(ps1[i] == ps2[i]);
                    assert(crate::placement::place_fits_at(d2, order, i));
                }
            }
        }
        assert(placement_fits(d1, order) == placement_fits(d2, order));
    }
}

/// Arrows without labels count no labels.
pub proof fn lemma_text_count_zero(edges: Seq<EdgeEntry>)
    requires
        forall|k: int| 0 <= k < edges.len() ==> !has_text(#[trigger] edges[k]),
    ensures
        text_count(edges) == 0,
    decreases edges.len(),
{
    if edges.len() > 0 {
        let d = edges.drop_last();
        assert forall|k: int| 0 <= k < d.len() implies !has_text(#[trigger] d[k]) by {
            assert(d[k] == edges[k]);
        }
        lemma_text_count_zero(d);
        assert(!has_text(edges[edges.len() - 1]));
    }
}

/// Every unit in `rows` is a node.
pub open spec fn all_nodes(rows: Seq<Seq<UnitHandle>>) -> bool {
    forall|i: int, j: int| 0 <= i < rows.len() && 0 <= j < rows[i].len() ==> (#[trigger] rows[i][j]) is Node
}

pub proof fn lemma_pad_all_nodes(rows: Seq<Seq<UnitHandle>>, n: nat)
    requires
        all_nodes(rows),
    ensures
        all_nodes(crate::dag::pad_rows(rows, n)),
{
    let p = crate::dag::pad_rows(rows, n);
    assert forall|i: int, j: int| 0 <= i < p.len() && 0 <= j < p[i].len() implies (#[trigger] p[i][j]) is Node by {
        if i < rows.len() {
            assert(p[i] == rows[i]);
        }
    }
}

pub proof fn lemma_move_row_all_nodes(st: crate::dag::MoveState, row: Seq<UnitHandle>, cl: Map<UnitHandle, usize>, off: nat)
    requires
        all_nodes(st.rows),
    ensures
        all_nodes(crate::dag::move_row(st, row, cl, off).rows),
    decreases row.len(),
{
    if row.len() > 0 {
        lemma_move_row_all_nodes(st, row.drop_last(), cl, off);
        let before = crate::dag::move_row(st, row.drop_last(), cl, off);
        let e = row.last();
        if e is Node {
            let t = (cl[e] + off) as nat;
            lemma_pad_all_nodes(before.rows, t + 1);
            let grown = crate::dag::pad_rows(before.rows, t + 1);
            let nr = grown.update(t as int, grown[t as int].push(e));
            assert forall|i: int, j: int| 0 <= i < nr.len() && 0 <= j < nr[i].len() implies (#[trigger] nr[i][j]) is Node by {
                if i == t && j == grown[t as int].len() {
                    assert(nr[i][j] == e);
                } else {
                    assert(nr[i][j] == grown[i][j]);
                }
            }
        }
    }
}

pub proof fn lemma_move_rows_all_nodes(st: crate::dag::MoveState, rows: Seq<Seq<UnitHandle>>, cl: Map<UnitHandle, usize>, off: nat)
    requires
        all_nodes(st.rows),
    ensures
        all_nodes(crate::dag::move_rows(st, rows, cl, off).rows),
    decreases rows.len(),
{
    if rows.len() > 0 {
        lemma_move_rows_all_nodes(st, rows.drop_last(), cl, off);
        lemma_move_row_all_nodes(crate::dag::move_rows(st, rows.drop_last(), cl, off), rows.last(), cl, off);
    }
}

/// Placing units, from rows that hold nodes only, gives rows that hold
/// nodes only: a node goes in as itself, a subgraph brings the nodes of its
/// rank.
pub proof fn lemma_place_all_nodes(dag: &DAG, st: crate::dag::MoveState, order: Seq<UnitHandle>)
    requires
        all_nodes(st.rows),
    ensures
        all_nodes(place_all(dag, st, order).rows),
    decreases order.len(),
{
    if order.len() > 0 {
        lemma_place_all_nodes(dag, st, order.drop_last());
        let prev = place_all(dag, st, order.drop_last());
        let u = order.last();
        let p = crate::placement::place_pos(dag, prev, u);
        let rows = crate::placement::loc_rows(dag, prev, u);
        assert(all_nodes(rows)) by {
            match crate::dag::first_placed(dag.placement_cands(u), prev.placed) {
                Some(y) => { lemma_pad_all_nodes(prev.rows, y as nat + 2); },
                None => {},
            }
        }
        match u {
            UnitHandle::Node(_) => {
                lemma_pad_all_nodes(rows, p.1 as nat + 1);
                let grown = crate::dag::pad_rows(rows, p.1 as nat + 1);
                let nr = grown.update(p.1 as int, crate::dag::add_to_row(grown[p.1 as int], u, false));
                assert forall|i: int, j: int| 0 <= i < nr.len() && 0 <= j < nr[i].len() implies (#[trigger] nr[i][j]) is Node by {
                    if i == p.1 && j == grown[p.1 as int].len() {
                        assert(nr[i][j] == u);
                    } else {
                        assert(nr[i][j] == grown[i][j]);
                    }
                }
            },
            UnitHandle::Subgraph(t) => {
                lemma_move_rows_all_nodes(crate::dag::MoveState { rows: rows, levels: prev.levels, placed: prev.placed },
                    dag.rank_of(t).rows(), dag.rank_of(t).level_map(), p.1 as nat);
            },
        }
    }
}

/// The arrow `e` starts at a unit of `dag` whose parent is a subgraph of
/// `dag`.
pub open spec fn text_start_ok(dag: &DAG, e: EdgeEntry) -> bool {
    &&& dag.unit_valid(e.2@[0])
    &&& dag.subgraph_valid(dag.parent_of(e.2@[0]))
}

/// Subgraph `s` has fewer than `usize::MAX` members, and no member has more
/// unit edges than that.
pub open spec fn members_fit(dag: &DAG, s: SubgraphHandle) -> bool {
    &&& dag.members(s).len() < usize::MAX
    &&& forall|u: UnitHandle| #[trigger] dag.is_member(s, u) ==> dag.unit_preds(u).len() + dag.unit_succs(u).len() <= usize::MAX
}

impl VisualGraph {
    /// Why laying out subgraph `s`, and before it the subgraphs nested in
    /// it down to `depth` levels, stops, read in the graph it leaves: the
    /// nesting runs deeper than `depth`, a member subgraph stops, or, for
    /// `s` itself, the dag is empty or fails its checks, a member of `s` has
    /// a successor outside it, the members do not fit (see `members_fit`),
    /// splitting the arrows stops (see `split_stopped`), or the units cannot
    /// be placed (see `place_fails`).
    pub open(crate) spec fn expand_stopped(&self, s: SubgraphHandle, disable_optimizations: bool, depth: nat) -> bool
        decreases depth,
    {
        if depth == 0 {
            true
        } else {
            ||| exists|c: SubgraphHandle| #[trigger] self.dag.member_subgraphs(s).contains(c)
                && self.expand_stopped(c, disable_optimizations, (depth - 1) as nat)
            ||| self.dag.node_count() == 0
            ||| !self.dag.passes_checks()
            ||| !self.dag.subgraph_closed(s)
            ||| !members_fit(&self.dag, s)
            ||| self.split_stopped(s, disable_optimizations)
            ||| place_fails(&self.dag, s)
        }
    }

    /// Why laying out a subgraph `s` that holds no subgraph stops, where
    /// `o` is the dag it started from and `self` the graph it leaves: the
    /// checks on `o` fail (empty dag, failed checks, a member of `s` with a
    /// successor outside it, members that do not fit), splitting the arrows
    /// stops after the levels of `s` were recomputed from `o`, or the units
    /// cannot be placed.
    pub open(crate) spec fn leaf_stopped(&self, o: &DAG, s: SubgraphHandle, disable_optimizations: bool) -> bool {
        ||| o.node_count() == 0
        ||| !o.passes_checks()
        ||| !o.subgraph_closed(s)
        ||| !members_fit(o, s)
        ||| self.split_stopped(s, disable_optimizations) && self.dag.levels_recomputed(o, s, !disable_optimizations)
        ||| place_fails(&self.dag, s)
    }

    /// `m` is the dag of this graph with its arrows entered as
    /// `to_valid_dag` enters them: `es` are the arrows that are not loops,
    /// each turned where it would close a cycle with those before it, and
    /// the edges of `m` are those of this dag followed by those of `es`.
    pub open(crate) spec fn arrows_entered(&self, m: &DAG, es: Seq<EdgeEntry>) -> bool {
        &&& m.wf()
        &&& m.passes_checks()
        &&& m.same_layout(&self.dag)
        &&& es.len() == proper_edges(self.edges@).len()
        &&& forall|j: int| 0 <= j < es.len() ==>
            valid_dag_arrow(&self.dag, es.take(j), proper_edges(self.edges@)[j], #[trigger] es[j])
        &&& forall|n: NodeHandle| #![trigger m.succs(n)] m.node_valid(n) ==> m.succs(n) == self.dag.succs(n) + targets_from(es, n)
        &&& forall|n: NodeHandle| #![trigger m.preds(n)] m.node_valid(n) ==> m.preds(n) == self.dag.preds(n) + sources_to(es, n)
        &&& forall|u: UnitHandle| #![trigger m.unit_succs(u)] m.unit_valid(u) ==> m.unit_succs(u) == self.dag.unit_succs(u) + unit_targets_from(es, u)
        &&& forall|u: UnitHandle| #![trigger m.unit_preds(u)] m.unit_valid(u) ==> m.unit_preds(u) == self.dag.unit_preds(u) + unit_sources_to(es, u)
    }

    /// Why lowering the graph stops, read in the graph it leaves: a
    /// labelled arrow starts at a unit that is not in the dag or whose
    /// parent is not a subgraph of the dag, the label connectors do not fit
    /// beside the nodes, there is no root subgraph, or laying out the root
    /// subgraph stops (see `expand_stopped`).
    pub open(crate) spec fn lower_stopped(&self, disable_optimizations: bool) -> bool {
        ||| exists|k: int| 0 <= k < self.edges@.len() && has_text(#[trigger] self.edges@[k])
            && !text_start_ok(&self.dag, self.edges@[k])
        ||| self.dag.node_count() + text_count(self.edges@) > usize::MAX
        ||| self.dag.subgraph_count() == 0
        ||| self.expand_stopped(crate::handles::subgraph_handle(0), disable_optimizations, self.dag.subgraph_count())
    }
}

impl DAG {
    /// The rank of subgraph `s` is the placement, in a reach order of
    /// `before`, of the units of `before`, which agrees with `self` on all
    /// but the rank of `s`: its rows, their levels, and the box of the
    /// positions.
    pub open(crate) spec fn placed_from(&self, before: &DAG, s: SubgraphHandle) -> bool {
        &&& self.same_except_rank(before, s)
        &&& exists|order: Seq<UnitHandle>| {
            &&& #[trigger] before.is_reach_order(s, order)
            &&& placement_fits(before, order)
            &&& self.rank_of(s).rows() == place_all(before, empty_state(), order).rows
            &&& self.rank_of(s).level_map() == place_all(before, empty_state(), order).levels
            &&& self.box_of(s) == box_of_positions(place_positions(before, order))
        }
    }

    /// The unit successors of every member of `s` are in the list `target`.
    pub open(crate) spec fn succs_within(&self, s: SubgraphHandle, target: Seq<UnitHandle>) -> bool {
        forall|u: UnitHandle, k: int|
            self.is_member(s, u) && 0 <= k < self.unit_succs(u).len() ==> target.contains(#[trigger] self.unit_succs(u)[k])
    }

    /// The members of subgraph `s`: its nodes, then its subgraphs.
    pub fn member_units(&self, s: SubgraphHandle) -> (r: Vec<UnitHandle>)
        requires
            self.subgraph_valid(s),
        ensures
            r@ == self.members(s),
    {
        let g = &self.subgraphs[s.idx];
        let mut r: Vec<UnitHandle> = Vec::new();
        let mut i: usize = 0;
        let ghost ns = self.member_nodes(s).map_values(|n: crate::handles::NodeHandle| UnitHandle::Node(n));
        let ghost ss = self.member_subgraphs(s).map_values(|t: SubgraphHandle| UnitHandle::Subgraph(t));
        while i < g.nodes.len()
            invariant
                g == &self.subgraphs@[s.index() as int],
                ns == self.member_nodes(s).map_values(|n: crate::handles::NodeHandle| UnitHandle::Node(n)),
                i <= g.nodes@.len(),
                r@ == ns.take(i as int),
            decreases g.nodes@.len() - i,
        {
            r.push(UnitHandle::Node(g.nodes[i]));
            i = i + 1;
            proof { assert(r@ =~= ns.take(i as int)); }
        }
        let mut j: usize = 0;
        proof { assert(ns.take(i as int) =~= ns); }
        while j < g.subgraphs.len()
            invariant
                g == &self.subgraphs@[s.index() as int],
                ns == self.member_nodes(s).map_values(|n: crate::handles::NodeHandle| UnitHandle::Node(n)),
                ss == self.member_subgraphs(s).map_values(|t: SubgraphHandle| UnitHandle::Subgraph(t)),
                j <= g.subgraphs@.len(),
                r@ == ns + ss.take(j as int),
            decreases g.subgraphs@.len() - j,
        {
            r.push(UnitHandle::Subgraph(g.subgraphs[j]));
            j = j + 1;
            proof { assert(r@ =~= ns + ss.take(j as int)); }
        }
        proof { assert(ss.take(j as int) =~= ss); }
        r
    }

    /// The subgraphs nested directly in subgraph `s`.
    pub fn member_subgraph_list(&self, s: SubgraphHandle) -> (r: Vec<SubgraphHandle>)
        requires
            self.subgraph_valid(s),
        ensures
            r@ == self.member_subgraphs(s),
    {
        let g = &self.subgraphs[s.idx];
        let mut r: Vec<SubgraphHandle> = Vec::new();
        let mut i: usize = 0;
        while i < g.subgraphs.len()
            invariant
                g == &self.subgraphs@[s.index() as int],
                i <= g.subgraphs@.len(),
                r@ == g.subgraphs@.take(i as int),
            decreases g.subgraphs@.len() - i,
        {
            r.push(g.subgraphs[i]);
            i = i + 1;
            proof { assert(r@ =~= g.subgraphs@.take(i as int)); }
        }
        proof { assert(g.subgraphs@.take(i as int) =~= g.subgraphs@); }
        r
    }

    /// Whether the unit successors of every member of `s` (listed in `ms`)
    /// are in the list `target`.
    pub fn succs_within_check(&self, s: SubgraphHandle, ms: &Vec<UnitHandle>, target: &Vec<UnitHandle>) -> (r: bool)
        requires
            self.wf(),
            self.subgraph_valid(s),
            ms@ == self.members(s),
        ensures
            r == self.succs_within(s, target@),
    {
        let mut i: usize = 0;
        while i < ms.len()
            invariant
                self.wf(),
                self.subgraph_valid(s),
                ms@ == self.members(s),
                i <= ms@.len(),
                forall|a: int, k: int| 0 <= a < i && 0 <= k < self.unit_succs(ms@[a]).len() ==>
                    target@.contains(#[trigger] self.unit_succs(ms@[a])[k]),
            decreases ms@.len() - i,
        {
            let u = ms[i];
            proof {
                assert(ms@[i as int] == u);
                assert(self.is_member(s, u));
                self.lemma_member_valid(s, u);
            }
            let succs = u.successors(self);
            let mut k: usize = 0;
            while k < succs.len()
                invariant
                    ms@ == self.members(s),
                    i < ms@.len(),
                    ms@[i as int] == u,
                    self.is_member(s, u),
                    succs@ == self.unit_succs(u),
                    k <= succs@.len(),
                    forall|b: int| 0 <= b < k ==> target@.contains(#[trigger] self.unit_succs(u)[b]),
                decreases succs@.len() - k,
            {
                if !contains_unit(target, succs[k]) {
                    proof {
                        assert(self.is_member(s, u));
                        assert(!target@.contains(self.unit_succs(u)[k as int]));
                    }
                    return false;
                }
                k = k + 1;
            }
            proof {
                assert forall|a: int, b: int| 0 <= a < i + 1 && 0 <= b < self.unit_succs(ms@[a]).len() implies
                    target@.contains(#[trigger] self.unit_succs(ms@[a])[b]) by {
                    if a == i {
                        assert(ms@[a] == u);
                    }
                }
            }
            i = i + 1;
        }
        proof {
            assert forall|u: UnitHandle, k: int| self.is_member(s, u) && 0 <= k < self.unit_succs(u).len()
                implies target@.contains(#[trigger] self.unit_succs(u)[k]) by {
                let a = choose|a: int| 0 <= a < ms@.len() && ms@[a] == u;
                assert(0 <= k < self.unit_succs(ms@[a]).len());
            }
        }
        true
    }

    /// Whether the unit successors of the members of `s` are members of `s`.
    pub fn closed_check(&self, s: SubgraphHandle) -> (r: bool)
        requires
            self.wf(),
            self.subgraph_valid(s),
        ensures
            r == self.subgraph_closed(s),
    {
        let ms = self.member_units(s);
        let r = self.succs_within_check(s, &ms, &ms);
        proof {
            assert(self.succs_within(s, ms@) == self.subgraph_closed(s)) by {
                assert forall|u: UnitHandle, k: int| self.is_member(s, u) && 0 <= k < self.unit_succs(u).len() implies
                    (ms@.contains(#[trigger] self.unit_succs(u)[k]) <==> self.is_member(s, self.unit_succs(u)[k])) by {}
            }
        }
        r
    }

    /// Whether the unit successors of the members of `s` stand in the rank
    /// of `s`.
    pub fn succs_ranked_check(&self, s: SubgraphHandle) -> (r: bool)
        requires
            self.wf(),
            self.subgraph_valid(s),
        ensures
            r == self.succs_within(s, self.rank_sequence(s)),
    {
        let ms = self.member_units(s);
        let rv = self.rank_units(s);
        self.succs_within_check(s, &ms, &rv)
    }

    /// Whether the subgraph `s` has fewer members than `usize::MAX`, and
    /// each member fewer unit edges in all than that.
    pub fn members_fit_check(&self, s: SubgraphHandle) -> (r: bool)
        requires
            self.wf(),
            self.subgraph_valid(s),
        ensures
            r == (self.members(s).len() < usize::MAX && forall|u: UnitHandle| #[trigger] self.is_member(s, u) ==>
                self.unit_preds(u).len() + self.unit_succs(u).len() <= usize::MAX),
    {
        let ms = self.member_units(s);
        if ms.len() == usize::MAX {
            return false;
        }
        let mut i: usize = 0;
        while i < ms.len()
            invariant
                self.wf(),
                self.subgraph_valid(s),
                ms@ == self.members(s),
                i <= ms@.len(),
                forall|a: int| 0 <= a < i ==> self.unit_preds(#[trigger] ms@[a]).len() + self.unit_succs(ms@[a]).len() <= usize::MAX,
            decreases ms@.len() - i,
        {
            let u = ms[i];
            proof {
                assert(ms@[i as int] == u);
                assert(self.is_member(s, u));
                self.lemma_member_valid(s, u);
            }
            let p = u.predecessors(self);
            let q = u.successors(self);
            if p.len() > usize::MAX - q.len() {
                proof { assert(self.is_member(s, u)); }
                return false;
            }
            i = i + 1;
        }
        proof {
            assert forall|u: UnitHandle| #[trigger] self.is_member(s, u) implies
                self.unit_preds(u).len() + self.unit_succs(u).len() <= usize::MAX by {
                let a = choose|a: int| 0 <= a < ms@.len() && ms@[a] == u;
                assert(self.unit_preds(ms@[a]).len() + self.unit_succs(ms@[a]).len() <= usize::MAX);
            }
        }
        true
    }

    /// Whether the rank of `t` holds valid nodes only.
    pub fn rank_valid_nodes_check(&self, t: SubgraphHandle) -> (r: bool)
        requires
            self.subgraph_valid(t),
        ensures
            r == (self.rank_holds_nodes(t) && self.rank_nodes_valid(t)),
    {
        let rank = &self.subgraphs[t.idx].ranks;
        let ghost rows = self.rank_of(t).rows();
        let mut i: usize = 0;
        while i < rank.ranks.len()
            invariant
                rank == &self.subgraphs@[t.index() as int].ranks,
                rows == rank.rows(),
                rows == self.rank_of(t).rows(),
                i <= rows.len(),
                forall|a: int, b: int| 0 <= a < i && 0 <= b < rows[a].len() ==> {
                    &&& (#[trigger] rows[a][b]) is Node
                    &&& self.node_valid(crate::dag::unit_to_node(rows[a][b]))
                },
            decreases rows.len() - i,
        {
            let row = &rank.ranks[i];
            proof { assert(row@ == rows[i as int]); }
            let mut j: usize = 0;
            while j < row.len()
                invariant
                    row@ == rows[i as int],
                    rows == self.rank_of(t).rows(),
                    i < rows.len(),
                    j <= row@.len(),
                    forall|b: int| 0 <= b < j ==> {
                        &&& (#[trigger] row@[b]) is Node
                        &&& self.node_valid(crate::dag::unit_to_node(row@[b]))
                    },
                decreases row@.len() - j,
            {
                match row[j] {
                    UnitHandle::Node(n) => {
                        if n.idx >= self.nodes.len() {
                            proof { assert(rows[i as int][j as int] == row@[j as int]); }
                            return false;
                        }
                    },
                    UnitHandle::Subgraph(_) => {
                        proof { assert(rows[i as int][j as int] == row@[j as int]); }
                        return false;
                    },
                }
                j = j + 1;
            }
            proof {
                assert forall|a: int, b: int| 0 <= a < i + 1 && 0 <= b < rows[a].len() implies {
                    &&& (#[trigger] rows[a][b]) is Node
                    &&& self.node_valid(crate::dag::unit_to_node(rows[a][b]))
                } by {
                    if a == i {
                        assert(rows[a][b] == row@[b]);
                    }
                }
            }
            i = i + 1;
        }
        true
    }

    /// Whether unit `u` can be placed in subgraph `s` (see `placeable`).
    pub fn placeable_check(&self, s: SubgraphHandle, u: UnitHandle) -> (r: bool)
        ensures
            r == placeable(self, s, u),
    {
        match u {
            UnitHandle::Node(n) => n.idx < self.nodes.len(),
            UnitHandle::Subgraph(t) => {
                if t.idx >= self.subgraphs.len() || t.idx == s.idx {
                    return false;
                }
                self.rank_valid_nodes_check(t)
            },
        }
    }

    /// Lays out subgraph `s`: its units in the order of a depth-first walk
    /// that visits successors in the order of the rank, then placed one
    /// after the other in the emptied rank (see `place_in_order`). Returns
    /// `false` where the walk cannot be made (a member has a successor
    /// outside `s` or outside its rank), where a unit of the walk cannot be
    /// placed (see `placeable`), or where the placement does not fit.
    pub fn place_subgraph(&mut self, s: SubgraphHandle) -> (r: bool)
        requires
            old(self).wf(),
            old(self).subgraph_valid(s),
        ensures
            final(self).wf(),
            final(self).same_except_rank(old(self), s),
            r ==> final(self).placed_from(old(self), s),
            !old(self).subgraph_closed(s) ==> !r,
            !old(self).succs_within(s, old(self).rank_sequence(s)) ==> !r,
            old(self).subgraph_closed(s) && old(self).succs_within(s, old(self).rank_sequence(s)) ==>
                exists|order: Seq<UnitHandle>| #[trigger] old(self).is_reach_order(s, order) && r == order_places(old(self), s, order),
            !r ==> place_fails(old(self), s),
            !r ==> place_fails(final(self), s),
    {
        let ghost o = *self;
        if !self.closed_check(s) {
            return false;
        }
        if !self.succs_ranked_check(s) {
            return false;
        }
        let order = self.topological_sort_from_rank(s);
        let mut k: usize = 0;
        while k < order.len()
            invariant
                o == *self,
                self.wf(),
                self.subgraph_valid(s),
                o.is_reach_order(s, order@),
                k <= order@.len(),
                forall|j: int| 0 <= j < k ==> placeable(&o, s, #[trigger] order@[j]),
            decreases order@.len() - k,
        {
            if !self.placeable_check(s, order[k]) {
                proof {
                    assert(o.is_reach_order(s, order@));
                    assert(!placeable(&o, s, order@[k as int]));
                    assert(!order_places(&o, s, order@));
                }
                return false;
            }
            k = k + 1;
        }
        let r = self.place_in_order(s, &order);
        proof {
            assert(o.is_reach_order(s, order@));
            assert(r == order_places(&o, s, order@));
            if !r {
                self.lemma_same_except_rank_reach(&o, s, s);
                lemma_order_places_same(self, &o, s, order@);
                assert forall|v: UnitHandle| order@.contains(v) <==> self.from_source(s, v) by {
                    assert(self.from_source(s, v) == o.from_source(s, v));
                }
                assert(self.is_reach_order(s, order@));
                assert(!order_places(self, s, order@));
            }
        }
        r
    }
}

impl VisualGraph {
    /// Whether every arrow joins two nodes through two units of the dag.
    pub fn edges_are_pairs_check(&self) -> (r: bool)
        requires
            self.graph_wf(),
        ensures
            r == self.edges_are_pairs(),
    {
        let mut k: usize = 0;
        while k < self.edges.len()
            invariant
                self.graph_wf(),
                k <= self.edges@.len(),
                forall|j: int| 0 <= j < k ==> {
                    &&& (#[trigger] self.edges@[j]).1@.len() == 2
                    &&& self.dag.unit_valid(self.edges@[j].2@[0])
                    &&& self.dag.unit_valid(self.edges@[j].2@[1])
                },
            decreases self.edges@.len() - k,
        {
            proof { assert(self.edge_ok(self.edges@[k as int])); }
            if self.edges[k].1.len() != 2 {
                return false;
            }
            let a = self.edges[k].2[0];
            let b = self.edges[k].2[1];
            let ok_a = match a {
                UnitHandle::Node(n) => n.idx < self.dag.nodes.len(),
                UnitHandle::Subgraph(t) => t.idx < self.dag.subgraphs.len(),
            };
            let ok_b = match b {
                UnitHandle::Node(n) => n.idx < self.dag.nodes.len(),
                UnitHandle::Subgraph(t) => t.idx < self.dag.subgraphs.len(),
            };
            if !ok_a || !ok_b {
                return false;
            }
            k = k + 1;
        }
        true
    }

    /// Whether each labelled arrow starts at a unit of the dag whose parent
    /// is a subgraph of the dag.
    pub fn text_parents_check(&self) -> (r: bool)
        requires
            self.graph_wf(),
        ensures
            r == forall|k: int| 0 <= k < self.edge_list().len() && has_text(#[trigger] self.edge_list()[k]) ==>
                text_start_ok(&self.graph_dag(), self.edge_list()[k]),
    {
        let mut k: usize = 0;
        while k < self.edges.len()
            invariant
                self.graph_wf(),
                k <= self.edges@.len(),
                forall|j: int| 0 <= j < k && has_text(#[trigger] self.edges@[j]) ==>
                    text_start_ok(&self.dag, self.edges@[j]),
            decreases self.edges@.len() - k,
        {
            if !self.edges[k].0.text.as_str().is_empty() {
                proof { assert(self.edge_ok(self.edges@[k as int])); }
                match self.edges[k].2[0] {
                    UnitHandle::Node(n) => {
                        if n.idx >= self.dag.nodes.len() {
                            proof {
                                assert(has_text(self.edge_list()[k as int]));
                                assert(!text_start_ok(&self.graph_dag(), self.edge_list()[k as int]));
                            }
                            return false;
                        }
                        proof { assert(self.dag.node_valid(n)); }
                    },
                    UnitHandle::Subgraph(t) => {
                        if t.idx >= self.dag.subgraphs.len() || self.dag.subgraphs[t.idx].parent_subgraph_idx.idx >= self.dag.subgraphs.len() {
                            proof {
                                assert(has_text(self.edge_list()[k as int]));
                                assert(!text_start_ok(&self.graph_dag(), self.edge_list()[k as int]));
                            }
                            return false;
                        }
                    },
                }
            }
            k = k + 1;
        }
        true
    }

    /// Lowers the graph to rows of units: arrows that close a cycle are
    /// flipped and the others entered in the dag (see `to_valid_dag`),
    /// labelled arrows get a connector node for their label (see
    /// `split_text_edges`), and the root subgraph is laid out with all the
    /// subgraphs in it (see `expand`). Returns `false` where a labelled
    /// arrow starts at a unit whose parent is not a subgraph of the dag,
    /// where the label connectors would be too many, where there is no root
    /// subgraph, or where `expand` fails.
    pub fn lower(&mut self, disable_optimizations: bool) -> (r: bool)
        requires
            old(self).graph_wf(),
            old(self).edges_are_pairs(),
            old(self).graph_dag().passes_checks(),
        ensures
            final(self).graph_wf(),
            r ==> final(self).self_edge_list().len() == 0,
            r ==> exists|before: DAG| final(self).graph_dag().placed_from(&before, crate::handles::subgraph_handle(0)),
            r ==> final(self).graph_dag().rank_holds_nodes(crate::handles::subgraph_handle(0)),
            !r ==> final(self).lower_stopped(disable_optimizations),
            !r && (forall|k: int| 0 <= k < old(self).edge_list().len() ==> !has_text(#[trigger] old(self).edge_list()[k]))
                && old(self).graph_dag().subgraph_count() > 0
                && old(self).graph_dag().member_subgraphs(crate::handles::subgraph_handle(0)).len() == 0 ==>
                exists|m: DAG, es: Seq<EdgeEntry>| #[trigger] old(self).arrows_entered(&m, es)
                    && final(self).leaf_stopped(&m, crate::handles::subgraph_handle(0), disable_optimizations),
    {
        let ghost o = *old(self);
        self.to_valid_dag();
        let ghost g1 = *self;
        let ghost plain = (forall|k: int| 0 <= k < o.edges@.len() ==> !has_text(#[trigger] o.edges@[k]))
            && o.dag.subgraph_count() > 0
            && o.dag.member_subgraphs(crate::handles::subgraph_handle(0)).len() == 0;
        proof {
            assert(o.arrows_entered(&g1.dag, g1.edges@));
            if plain {
                lemma_proper_from(o.edges@);
                assert forall|k: int| 0 <= k < g1.edges@.len() implies !has_text(#[trigger] g1.edges@[k]) by {
                    let inp = proper_edges(o.edges@)[k];
                    assert(crate::layout::same_or_reversed(g1.edges@[k], inp));
                    let i = choose|i: int| 0 <= i < o.edges@.len() && #[trigger] proper_edges(o.edges@)[k] == o.edges@[i];
                    assert(!has_text(o.edges@[i]));
                }
                lemma_text_count_zero(g1.edges@);
            }
        }
        proof {
            lemma_proper_from(o.edges@);
            assert forall|k: int| 0 <= k < self.edges@.len() implies {
                &&& (#[trigger] self.edges@[k]).1@.len() == 2
                &&& self.dag.unit_valid(self.edges@[k].2@[0])
                &&& self.dag.unit_valid(self.edges@[k].2@[1])
            } by {
                let inp = proper_edges(o.edges@)[k];
                assert(crate::layout::same_or_reversed(self.edges@[k], inp));
                let i = choose|i: int| 0 <= i < o.edges@.len() && #[trigger] proper_edges(o.edges@)[k] == o.edges@[i];
                assert(o.edges@[i].1@.len() == 2);
                assert(self.dag.unit_valid(inp.2@[0]) == o.dag.unit_valid(inp.2@[0]));
                assert(self.dag.unit_valid(inp.2@[1]) == o.dag.unit_valid(inp.2@[1]));
            }
            assert forall|a: NodeHandle, b: NodeHandle| self.dag.node_valid(a) && self.dag.node_valid(b) implies
                #[trigger] text_pairs(self.edges@, a, b) <= occ(self.dag.succs(a), b) by {
                lemma_text_pairs_bound(self.edges@, a, b);
                lemma_occ_concat(o.dag.succs(a), targets_from(self.edges@, a), b);
            }
        }
        if !self.text_parents_check() {
            return false;
        }
        let tc = text_count_exec(&self.edges);
        if self.dag.len() > usize::MAX - tc {
            return false;
        }
        self.split_text_edges();
        proof {
            if plain {
                assert(self.dag == g1.dag);
                assert(g1.dag.subgraph_valid(crate::handles::subgraph_handle(0)));
                assert(g1.dag.member_subgraphs(crate::handles::subgraph_handle(0)) == o.dag.member_subgraphs(crate::handles::subgraph_handle(0)));
            }
        }
        if self.dag.subgraphs.len() == 0 {
            return false;
        }
        let root = SubgraphHandle::new(0);
        proof { assert(root == crate::handles::subgraph_handle(0)); }
        let r = self.expand(root, disable_optimizations);
        proof {
            if plain && !r {
                assert(self.leaf_stopped(&g1.dag, root, disable_optimizations));
                assert(o.arrows_entered(&g1.dag, g1.edges@));
            }
        }
        r
    }

    /// Lays out subgraph `subgraph_idx` and, before it, the subgraphs nested
    /// in it: the arrows of each are split into steps of one level (see
    /// `split_long_edges`), then its units are placed (see
    /// `place_subgraph`). Returns `false`, with the graph partly laid out,
    /// where a step fails or a check before it does: subgraphs nested deeper
    /// than there are subgraphs, an empty dag, a dag that fails its checks,
    /// a subgraph with a member whose successor is outside it, with
    /// `usize::MAX` members or more, or with a member that has more unit
    /// edges than that.
    pub fn expand(&mut self, subgraph_idx: SubgraphHandle, disable_optimizations: bool) -> (r: bool)
        requires
            old(self).graph_wf(),
            old(self).graph_dag().subgraph_valid(subgraph_idx),
        ensures
            final(self).graph_wf(),
            final(self).graph_dag().subgraph_count() == old(self).graph_dag().subgraph_count(),
            r ==> final(self).self_edge_list().len() == 0,
            r ==> exists|before: DAG| final(self).graph_dag().placed_from(&before, subgraph_idx),
            r ==> final(self).graph_dag().rank_holds_nodes(subgraph_idx),
            !r ==> final(self).expand_stopped(subgraph_idx, disable_optimizations, final(self).graph_dag().subgraph_count()),
            !r && old(self).graph_dag().member_subgraphs(subgraph_idx).len() == 0 ==>
                final(self).leaf_stopped(&old(self).graph_dag(), subgraph_idx, disable_optimizations),
            r && old(self).graph_dag().member_subgraphs(subgraph_idx).len() == 0 ==>
                exists|before: DAG| #[trigger] final(self).graph_dag().placed_from(&before, subgraph_idx)
                    && before.levels_recomputed(&old(self).graph_dag(), subgraph_idx, !disable_optimizations),
    {
        let depth = self.dag.subgraphs.len();
        self.expand_within(subgraph_idx, disable_optimizations, depth)
    }

    fn expand_within(&mut self, subgraph_idx: SubgraphHandle, disable_optimizations: bool, depth: usize) -> (r: bool)
        requires
            old(self).graph_wf(),
            old(self).graph_dag().subgraph_valid(subgraph_idx),
        ensures
            final(self).graph_wf(),
            final(self).graph_dag().subgraph_count() == old(self).graph_dag().subgraph_count(),
            r ==> final(self).self_edge_list().len() == 0,
            r ==> exists|before: DAG| final(self).graph_dag().placed_from(&before, subgraph_idx),
            r ==> final(self).graph_dag().rank_holds_nodes(subgraph_idx),
            !r ==> final(self).expand_stopped(subgraph_idx, disable_optimizations, depth as nat),
            !r && depth > 0 && old(self).graph_dag().member_subgraphs(subgraph_idx).len() == 0 ==>
                final(self).leaf_stopped(&old(self).graph_dag(), subgraph_idx, disable_optimizations),
            r && old(self).graph_dag().member_subgraphs(subgraph_idx).len() == 0 ==>
                exists|before: DAG| #[trigger] final(self).graph_dag().placed_from(&before, subgraph_idx)
                    && before.levels_recomputed(&old(self).graph_dag(), subgraph_idx, !disable_optimizations),
            final(self).graph_dag().nesting_kept(&old(self).graph_dag()),
        decreases depth,
    {
        proof {
            self.dag.lemma_nesting_refl();
        }
        if depth == 0 {
            return false;
        }
        let ghost count = self.dag.subgraph_count();
        let children = self.dag.member_subgraph_list(subgraph_idx);
        proof {
            assert forall|k: int| 0 <= k < children@.len() implies self.dag.subgraph_valid(#[trigger] children@[k]) by {
                assert(self.dag.member_subgraphs(subgraph_idx)[k] == children@[k]);
            }
        }
        let mut k: usize = 0;
        while k < children.len()
            invariant
                self.graph_wf(),
                depth > 0,
                self.dag.subgraph_count() == count,
                count == old(self).dag.subgraph_count(),
                self.dag.subgraph_valid(subgraph_idx),
                forall|j: int| 0 <= j < children@.len() ==> #[trigger] children@[j].index() < count,
                k <= children@.len(),
                children@ == old(self).dag.member_subgraphs(subgraph_idx),
                old(self).dag.subgraph_valid(subgraph_idx),
                self.dag.nesting_kept(&old(self).dag),
                k == 0 ==> *self == *old(self),
            decreases children@.len() - k,
        {
            let c = children[k];
            proof { assert(children@[k as int].index() < count); }
            let ghost mid = self.dag;
            let ok = self.expand_within(c, disable_optimizations, depth - 1);
            proof {
                self.dag.lemma_nesting_trans(&mid, &old(self).dag);
            }
            if !ok {
                proof {
                    assert(self.dag.member_subgraphs(subgraph_idx) == children@);
                    assert(self.dag.member_subgraphs(subgraph_idx)[k as int] == c);
                    assert(self.dag.member_subgraphs(subgraph_idx).contains(c));
                }
                return false;
            }
            k = k + 1;
        }
        if self.dag.len() == 0 {
            return false;
        }
        if !self.dag.checks_pass() || !self.dag.closed_check(subgraph_idx) || !self.dag.members_fit_check(subgraph_idx) {
            return false;
        }
        proof {
            assert forall|v: UnitHandle| #[trigger] self.dag.from_source(subgraph_idx, v) implies
                self.dag.unit_preds(v).len() + self.dag.unit_succs(v).len() <= usize::MAX by {
                self.dag.lemma_reach_member(subgraph_idx, v);
            }
        }
        let ghost before_split = self.dag;
        proof {
            if children@.len() == 0 {
                assert(before_split == old(self).dag);
            }
        }
        let split_ok = self.split_long_edges(subgraph_idx, disable_optimizations);
        proof {
            self.dag.lemma_nesting_trans(&before_split, &old(self).dag);
        }
        if !split_ok {
            return false;
        }
        let ghost before = self.dag;
        let ghost g0 = *self;
        let r = self.dag.place_subgraph(subgraph_idx);
        proof {
            self.dag.lemma_nesting_same_except_rank(&before, subgraph_idx);
            self.dag.lemma_nesting_trans(&before, &old(self).dag);
            if !r {
                assert(place_fails(&self.dag, subgraph_idx));
            }
            self.dag.lemma_same_except_rank_wf(&before, subgraph_idx);
            assert forall|q: int| 0 <= q < self.edges@.len() implies self.edge_ok(#[trigger] self.edges@[q]) by {
                assert(g0.edge_ok(self.edges@[q]));
            }
            if r {
                assert(self.graph_dag().placed_from(&before, subgraph_idx));
                let order = choose|order: Seq<UnitHandle>| {
                    &&& #[trigger] before.is_reach_order(subgraph_idx, order)
                    &&& placement_fits(&before, order)
                    &&& self.dag.rank_of(subgraph_idx).rows() == place_all(&before, empty_state(), order).rows
                    &&& self.dag.rank_of(subgraph_idx).level_map() == place_all(&before, empty_state(), order).levels
                    &&& self.dag.box_of(subgraph_idx) == box_of_positions(place_positions(&before, order))
                };
                lemma_place_all_nodes(&before, empty_state(), order);
                assert(self.dag.rank_holds_nodes(subgraph_idx));
                if children@.len() == 0 {
                    assert(before.levels_recomputed(&old(self).dag, subgraph_idx, !disable_optimizations));
                }
            }
        }
        r
    }
}

} // verus!
