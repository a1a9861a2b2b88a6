//! Placing the units of a subgraph, one after the other, in its rank: each
//! node goes one row below its first placed predecessor, and each inner
//! subgraph brings its own rank along, shifted down to where it goes.

use vstd::prelude::*;
use crate::handles::{SubgraphHandle, UnitHandle};
use crate::dag::{DAG, MoveState, move_rows, move_row, move_one, pad_rows, add_to_row, first_placed, unit_to_subgraph};
use crate::rank::max_row_len;
use crate::unit_map::UnitMap;

verus! {

/// The state before anything is placed: no rows, no levels, nothing placed.
pub open spec fn empty_state() -> MoveState {
    MoveState { rows: Seq::empty(), levels: Map::empty(), placed: Map::empty() }
}

/// The rows once room is made for unit `u`: one row below its first placed
/// candidate, when there is one.
pub open spec fn loc_rows(dag: &DAG, st: MoveState, u: UnitHandle) -> Seq<Seq<UnitHandle>> {
    match first_placed(dag.placement_cands(u), st.placed) {
        Some(y) => pad_rows(st.rows, y as nat + 2),
        None => st.rows,
    }
}

/// Where unit `u` goes, as (column, row): at the end of the row below its
/// first placed candidate, or in row 0 after the widest row.
pub open spec fn place_pos(dag: &DAG, st: MoveState, u: UnitHandle) -> (usize, usize) {
    match first_placed(dag.placement_cands(u), st.placed) {
        Some(y) => (pad_rows(st.rows, y as nat + 2)[y + 1].len() as usize, (y + 1) as usize),
        None => (max_row_len(st.rows) as usize, 0usize),
    }
}

/// Places unit `u`: a node is appended to the row of its position and
/// recorded there; a subgraph has the nodes of its rank moved in, shifted
/// down to the row of its position.
pub open spec fn place_unit(dag: &DAG, st: MoveState, u: UnitHandle) -> MoveState {
    let p = place_pos(dag, st, u);
    let rows = loc_rows(dag, st, u);
    match u {
        UnitHandle::Node(_) => {
            let grown = pad_rows(rows, p.1 as nat + 1);
            MoveState {
                rows: grown.update(p.1 as int, add_to_row(grown[p.1 as int], u, false)),
                levels: st.levels.insert(u, p.1),
                placed: st.placed.insert(u, Some(p)),
            }
        },
        UnitHandle::Subgraph(t) => move_rows(
            MoveState { rows: rows, levels: st.levels, placed: st.placed },
            dag.rank_of(t).rows(),
            dag.rank_of(t).level_map(),
            p.1 as nat,
        ),
    }
}

/// Places the units of `order`, in order.
pub open spec fn place_all(dag: &DAG, st: MoveState, order: Seq<UnitHandle>) -> MoveState
    decreases order.len(),
{
    if order.len() == 0 {
        st
    } else {
        place_unit(dag, place_all(dag, st, order.drop_last()), order.last())
    }
}

/// The position that each unit of `order` is given, from an empty rank.
pub open spec fn place_positions(dag: &DAG, order: Seq<UnitHandle>) -> Seq<(usize, usize)> {
    Seq::new(order.len(), |i: int| place_pos(dag, place_all(dag, empty_state(), order.take(i)), order[i]))
}

/// The least column of `ps` (`usize::MAX` when there is none).
pub open spec fn min_x(ps: Seq<(usize, usize)>) -> usize
    decreases ps.len(),
{
    if ps.len() == 0 {
        usize::MAX
    } else {
        let m = min_x(ps.drop_last());
        if ps.last().0 < m { ps.last().0 } else { m }
    }
}

/// The greatest column of `ps` (0 when there is none).
pub open spec fn max_x(ps: Seq<(usize, usize)>) -> usize
    decreases ps.len(),
{
    if ps.len() == 0 {
        0
    } else {
        let m = max_x(ps.drop_last());
        if ps.last().0 > m { ps.last().0 } else { m }
    }
}

/// The least row of `ps` (`usize::MAX` when there is none).
pub open spec fn min_y(ps: Seq<(usize, usize)>) -> usize
    decreases ps.len(),
{
    if ps.len() == 0 {
        usize::MAX
    } else {
        let m = min_y(ps.drop_last());
        if ps.last().1 < m { ps.last().1 } else { m }
    }
}

/// The greatest row of `ps` (0 when there is none).
pub open spec fn max_y(ps: Seq<(usize, usize)>) -> usize
    decreases ps.len(),
{
    if ps.len() == 0 {
        0
    } else {
        let m = max_y(ps.drop_last());
        if ps.last().1 > m { ps.last().1 } else { m }
    }
}

/// Every position lies within the least and greatest column and row.
pub proof fn lemma_min_max(ps: Seq<(usize, usize)>)
    ensures
        forall|k: int| 0 <= k < ps.len() ==> min_x(ps) <= (#[trigger] ps[k]).0 <= max_x(ps) && min_y(ps) <= ps[k].1 <= max_y(ps),
    decreases ps.len(),
{
    if ps.len() > 0 {
        lemma_min_max(ps.drop_last());
        assert forall|k: int| 0 <= k < ps.len() implies min_x(ps) <= (#[trigger] ps[k]).0 <= max_x(ps) && min_y(ps) <= ps[k].1 <= max_y(ps) by {
            if k < ps.len() - 1 {
                assert(ps[k] == ps.drop_last()[k]);
            }
        }
    }
}

/// The box of the positions `ps`: least column and row, then the width (with
/// a margin of 30 columns) and the height.
pub open spec fn box_of_positions(ps: Seq<(usize, usize)>) -> (usize, usize, usize, usize) {
    (min_x(ps), min_y(ps), (max_x(ps) - min_x(ps) + 30) as usize, (max_y(ps) - min_y(ps) + 1) as usize)
}

/// Unit `order[i]` can be placed: a node lands in a row after which another
/// one fits, and a subgraph's levels, shifted to its row, leave room for one
/// more row.
pub open spec fn place_fits_at(dag: &DAG, order: Seq<UnitHandle>, i: int) -> bool {
    let p = place_pos(dag, place_all(dag, empty_state(), order.take(i)), order[i]);
    match order[i] {
        UnitHandle::Node(_) => p.1 < usize::MAX - 1,
        UnitHandle::Subgraph(t) => dag.child_levels_fit(t, p.1 as nat + 1),
    }
}

/// What `place_in_order` needs to succeed: at least one unit, each one
/// placeable, and a box whose width and height fit in a `usize`.
pub open spec fn placement_fits(dag: &DAG, order: Seq<UnitHandle>) -> bool {
    let ps = place_positions(dag, order);
    &&& order.len() > 0
    &&& forall|i: int| 0 <= i < order.len() ==> place_fits_at(dag, order, i)
    &&& max_x(ps) - min_x(ps) + 30 <= usize::MAX
    &&& max_y(ps) - min_y(ps) + 1 <= usize::MAX
}

/// The unit can be placed in subgraph `s`: it is a unit of the dag, and a
/// subgraph other than `s` whose rank holds valid nodes only.
pub open spec fn placeable(dag: &DAG, s: SubgraphHandle, u: UnitHandle) -> bool {
    &&& dag.unit_valid(u)
    &&& u is Subgraph ==> {
        let t = unit_to_subgraph(u);
        &&& t != s
        &&& dag.rank_holds_nodes(t)
        &&& dag.rank_nodes_valid(t)
    }
}

/// Moving rows in keeps every recorded row short of the last two, as long
/// as the shifted levels are.
pub proof fn lemma_move_row_bounded(st: MoveState, row: Seq<UnitHandle>, cl: Map<UnitHandle, usize>, off: nat)
    requires
        DAG::placed_rows_bounded(st.placed),
        forall|j: int| 0 <= j < row.len() && (#[trigger] row[j]) is Node ==> cl[row[j]] + off < usize::MAX - 1,
    ensures
        DAG::placed_rows_bounded(move_row(st, row, cl, off).placed),
    decreases row.len(),
{
    if row.len() > 0 {
        let r0 = row.drop_last();
        assert forall|j: int| 0 <= j < r0.len() && (#[trigger] r0[j]) is Node implies cl[r0[j]] + off < usize::MAX - 1 by {
            assert(r0[j] == row[j]);
        }
        lemma_move_row_bounded(st, r0, cl, off);
        let e = row.last();
        if e is Node {
            assert(row[row.len() - 1] == e);
            let before = move_row(st, r0, cl, off);
            let after = move_one(before, e, (cl[e] + off) as nat);
            assert forall|u: UnitHandle| after.placed.contains_key(u) && after.placed[u] is Some
                implies after.placed[u]->Some_0.1 < usize::MAX - 1 by {
                if u != e {
                    assert(before.placed.contains_key(u) && before.placed[u] == after.placed[u]);
                }
            }
        }
    }
}

/// Moving the rows of a subgraph in keeps every recorded row short of the
/// last two, as long as its shifted levels are.
pub proof fn lemma_move_rows_bounded(st: MoveState, rows: Seq<Seq<UnitHandle>>, cl: Map<UnitHandle, usize>, off: nat)
    requires
        DAG::placed_rows_bounded(st.placed),
        forall|i: int, j: int| 0 <= i < rows.len() && 0 <= j < rows[i].len() && (#[trigger] rows[i][j]) is Node
            ==> cl[rows[i][j]] + off < usize::MAX - 1,
    ensures
        DAG::placed_rows_bounded(move_rows(st, rows, cl, off).placed),
    decreases rows.len(),
{
    if rows.len() > 0 {
        let r0 = rows.drop_last();
        assert forall|i: int, j: int| 0 <= i < r0.len() && 0 <= j < r0[i].len() && (#[trigger] r0[i][j]) is Node
            implies cl[r0[i][j]] + off < usize::MAX - 1 by {
            assert(r0[i] == rows[i]);
        }
        lemma_move_rows_bounded(st, r0, cl, off);
        let last = rows.last();
        assert forall|j: int| 0 <= j < last.len() && (#[trigger] last[j]) is Node implies cl[last[j]] + off < usize::MAX - 1 by {
            assert(rows[rows.len() - 1] == last);
            assert(rows[rows.len() - 1][j] == last[j]);
        }
        lemma_move_row_bounded(move_rows(st, r0, cl, off), last, cl, off);
    }
}

/// The row of a placed candidate is short of the last two.
pub proof fn lemma_first_placed_bounded(cands: Seq<crate::handles::NodeHandle>, placed: Map<UnitHandle, Option<(usize, usize)>>)
    requires
        DAG::placed_rows_bounded(placed),
    ensures
        first_placed(cands, placed) matches Some(y) ==> y < usize::MAX - 1,
    decreases cands.len(),
{
    if cands.len() > 0 {
        let u = UnitHandle::Node(cands[0]);
        if placed.contains_key(u) && placed[u] is Some {
            assert(placed[u]->Some_0.1 < usize::MAX - 1);
        } else {
            lemma_first_placed_bounded(cands.drop_first(), placed);
        }
    }
}

impl DAG {
    /// Every unit in the rank of `t` is a node.
    pub open(crate) spec fn rank_holds_nodes(&self, t: SubgraphHandle) -> bool {
        forall|i: int, j: int|
            0 <= i < self.rank_of(t).rows().len() && 0 <= j < self.rank_of(t).rows()[i].len()
                ==> (#[trigger] self.rank_of(t).rows()[i][j]) is Node
    }

    /// The box recorded for subgraph `s`: left column, top row, width and
    /// height.
    pub open(crate) spec fn box_of(&self, s: SubgraphHandle) -> (usize, usize, usize, usize) {
        let g = self.subgraphs@[s.index() as int];
        (g.x_0, g.y_0, g.width, g.height)
    }

    /// The box recorded for subgraph `s` by its layout: left column, top
    /// row, width and height.
    pub fn subgraph_box(&self, s: SubgraphHandle) -> (r: (usize, usize, usize, usize))
        requires
            self.subgraph_valid(s),
        ensures
            r == self.box_of(s),
    {
        let g = &self.subgraphs[s.idx];
        (g.x_0, g.y_0, g.width, g.height)
    }

    /// The candidates of a unit read the nodes, and the rank of a subgraph.
    pub(crate) proof fn lemma_cands_same(&self, other: &DAG, u: UnitHandle)
        requires
            self.nodes@ == other.nodes@,
            u is Subgraph ==> self.rank_of(unit_to_subgraph(u)).rows() == other.rank_of(unit_to_subgraph(u)).rows(),
        ensures
            self.placement_cands(u) == other.placement_cands(u),
    {
        if let UnitHandle::Subgraph(t) = u {
            let rows = self.rank_of(t).rows();
            assert forall|row: Seq<UnitHandle>| #[trigger] self.row_cands(row) == other.row_cands(row) by {
                assert(row.map_values(|x: UnitHandle| self.unit_node_preds(x)) =~= row.map_values(|x: UnitHandle| other.unit_node_preds(x)));
            }
            assert(rows.map_values(|row: Seq<UnitHandle>| self.row_cands(row)) =~= rows.map_values(|row: Seq<UnitHandle>| other.row_cands(row)));
        }
    }

    /// Whether the levels of the nodes in the rank of `t`, shifted by `off`,
    /// leave room for one more row.
    pub fn child_levels_fit_check(&self, t: SubgraphHandle, off: usize) -> (r: bool)
        requires
            self.subgraph_valid(t),
        ensures
            r == self.child_levels_fit(t, off as nat),
    {
        let rank = &self.subgraphs[t.idx].ranks;
        let ghost rows = self.rank_of(t).rows();
        let ghost lm = self.rank_of(t).level_map();
        let mut i: usize = 0;
        while i < rank.ranks.len()
            invariant
                rank == &self.subgraphs@[t.index() as int].ranks,
                rows == rank.rows(),
                lm == rank.level_map(),
                rows == self.rank_of(t).rows(),
                lm == self.rank_of(t).level_map(),
                i <= rows.len(),
                forall|a: int, b: int| 0 <= a < i && 0 <= b < rows[a].len() && (#[trigger] rows[a][b]) is Node ==> {
                    &&& lm.contains_key(rows[a][b])
                    &&& lm[rows[a][b]] + off < usize::MAX
                },
            decreases rows.len() - i,
        {
            let row = &rank.ranks[i];
            proof { assert(row@ == rows[i as int]); }
            let mut j: usize = 0;
            while j < row.len()
                invariant
                    row@ == rows[i as int],
                    lm == rank.level_map(),
                    rows == self.rank_of(t).rows(),
                    lm == self.rank_of(t).level_map(),
                    i < rows.len(),
                    j <= row@.len(),
                    forall|b: int| 0 <= b < j && (#[trigger] row@[b]) is Node ==> {
                        &&& lm.contains_key(row@[b])
                        &&& lm[row@[b]] + off < usize::MAX
                    },
                decreases row@.len() - j,
            {
                let e = row[j];
                if let UnitHandle::Node(_) = e {
                    match rank.levels.get(e) {
                        None => {
                            proof { assert(rows[i as int][j as int] == e); }
                            return false;
                        },
                        Some(l) => {
                            if l >= usize::MAX - off {
                                proof { assert(rows[i as int][j as int] == e); }
                                return false;
                            }
                        },
                    }
                }
                j = j + 1;
            }
            proof {
                assert forall|a: int, b: int| 0 <= a < i + 1 && 0 <= b < rows[a].len() && (#[trigger] rows[a][b]) is Node implies {
                    &&& lm.contains_key(rows[a][b])
                    &&& lm[rows[a][b]] + off < usize::MAX
                } by {
                    if a == i {
                        assert(rows[a][b] == row@[b]);
                    }
                }
            }
            i = i + 1;
        }
        true
    }

    /// Empties the rank of subgraph `s` and places the units of `order` in
    /// it, one after the other (see `place_unit`), then records the box of
    /// their positions. Returns `false`, with the rank partly built, exactly
    /// where `placement_fits` fails.
    #[verifier::rlimit(60)]
    pub fn place_in_order(&mut self, s: SubgraphHandle, order: &Vec<UnitHandle>) -> (r: bool)
        requires
            old(self).wf(),
            old(self).subgraph_valid(s),
            forall|k: int| 0 <= k < order@.len() ==> placeable(old(self), s, #[trigger] order@[k]),
        ensures
            final(self).wf(),
            final(self).same_except_rank(old(self), s),
            r == placement_fits(old(self), order@),
            r ==> {
                let st = place_all(old(self), empty_state(), order@);
                &&& final(self).rank_of(s).rows() == st.rows
                &&& final(self).rank_of(s).level_map() == st.levels
                &&& final(self).box_of(s) == box_of_positions(place_positions(old(self), order@))
            },
    {
        let ghost o = *self;
        self.subgraphs[s.idx].ranks.clear();
        proof {
            assert(self.same_except_rank(&o, s));
            self.lemma_same_except_rank_wf(&o, s);
            assert(order@.take(0) =~= Seq::<UnitHandle>::empty());
        }
        let mut placed: UnitMap<Option<(usize, usize)>> = UnitMap::new();
        let ghost ps = place_positions(&o, order@);
        let mut x_min: usize = usize::MAX;
        let mut x_max: usize = 0;
        let mut y_min: usize = usize::MAX;
        let mut y_max: usize = 0;
        proof {
            assert(ps.take(0) =~= Seq::<(usize, usize)>::empty());
        }
        let mut i: usize = 0;
        while i < order.len()
            invariant
                o == *old(self),
                o.wf(),
                o.subgraph_valid(s),
                forall|k: int| 0 <= k < order@.len() ==> placeable(&o, s, #[trigger] order@[k]),
                ps == place_positions(&o, order@),
                i <= order@.len(),
                self.wf(),
                self.same_except_rank(&o, s),
                self.rank_of(s).rows() == place_all(&o, empty_state(), order@.take(i as int)).rows,
                self.rank_of(s).level_map() == place_all(&o, empty_state(), order@.take(i as int)).levels,
                placed@ == place_all(&o, empty_state(), order@.take(i as int)).placed,
                DAG::placed_rows_bounded(placed@),
                forall|k: int| 0 <= k < i ==> place_fits_at(&o, order@, k),
                x_min == min_x(ps.take(i as int)),
                x_max == max_x(ps.take(i as int)),
                y_min == min_y(ps.take(i as int)),
                y_max == max_y(ps.take(i as int)),
            decreases order@.len() - i,
        {
            let u = order[i];
            let ghost st = place_all(&o, empty_state(), order@.take(i as int));
            let ghost before = *self;
            proof {
                assert(placeable(&o, s, order@[i as int]));
                self.lemma_same_except_rank_wf(&o, s);
                self.lemma_cands_same(&o, u);
                assert(ps[i as int] == place_pos(&o, st, u));
                lemma_first_placed_bounded(o.placement_cands(u), placed@);
            }
            let (x, y) = self.determine_loc_nodehandle(s, u, &placed);
            proof {
                assert(self.rank_of(s).rows() == loc_rows(&o, st, u));
                assert((x, y) == place_pos(&o, st, u));
                self.lemma_same_except_rank_trans(&before, &o, s);
                let t1 = order@.take(i as int + 1);
                assert(t1.drop_last() =~= order@.take(i as int));
                assert(t1.last() == u);
            }
            match u {
                UnitHandle::Node(_) => {
                    if y >= usize::MAX - 1 {
                        proof { assert(!place_fits_at(&o, order@, i as int)); }
                        return false;
                    }
                    let ghost mid = *self;
                    self.add_element_to_rank_subgraph(u, y, false, s);
                    placed.insert(u, Some((x, y)));
                    proof {
                        self.lemma_same_except_rank_wf(&mid, s);
                        self.lemma_same_except_rank_trans(&mid, &o, s);
                    }
                },
                UnitHandle::Subgraph(t) => {
                    if !self.child_levels_fit_check(t, y + 1) {
                        proof {
                            assert(self.subgraphs@[t.index() as int].ranks == self.rank_of(t));
                            assert(!place_fits_at(&o, order@, i as int));
                        }
                        return false;
                    }
                    let ghost mid = *self;
                    let ghost pl0 = placed@;
                    proof {
                        assert(self.subgraphs@[t.index() as int].ranks == self.rank_of(t));
                        assert(self.rank_of(t).rows() == o.rank_of(t).rows());
                        assert(self.rank_of(t).level_map() == o.rank_of(t).level_map());
                        assert(self.child_levels_fit(t, y as nat));
                    }
                    self.move_subgraph(s, t, x, y, &mut placed);
                    proof {
                        self.lemma_same_except_rank_trans(&mid, &o, s);
                        let rows_t = o.rank_of(t).rows();
                        let cl = o.rank_of(t).level_map();
                        assert forall|a: int, b: int| 0 <= a < rows_t.len() && 0 <= b < rows_t[a].len() && (#[trigger] rows_t[a][b]) is Node
                            implies cl[rows_t[a][b]] + y < usize::MAX - 1 by {}
                        lemma_move_rows_bounded(
                            MoveState { rows: mid.rank_of(s).rows(), levels: mid.rank_of(s).level_map(), placed: pl0 },
                            rows_t, cl, y as nat);
                    }
                },
            }
            proof {
                let p1 = ps.take(i as int + 1);
                assert(p1.drop_last() =~= ps.take(i as int));
                assert(p1.last() == (x, y));
                assert(place_fits_at(&o, order@, i as int));
            }
            if x < x_min {
                x_min = x;
            }
            if y < y_min {
                y_min = y;
            }
            if x > x_max {
                x_max = x;
            }
            if y > y_max {
                y_max = y;
            }
            i = i + 1;
        }
        proof {
            assert(ps.take(order@.len() as int) =~= ps);
            assert(order@.take(order@.len() as int) =~= order@);
            lemma_min_max(ps);
        }
        if order.len() == 0 {
            return false;
        }
        proof {
            assert(min_x(ps) <= ps[0].0 <= max_x(ps));
        }
        if x_max - x_min > usize::MAX - 30 {
            return false;
        }
        if y_max - y_min > usize::MAX - 1 {
            return false;
        }
        let ghost before_box = *self;
        self.set_box(s, (x_min, y_min, x_max - x_min + 30, y_max - y_min + 1));
        proof {
            self.lemma_same_except_rank_trans(&before_box, &o, s);
            self.lemma_same_except_rank_wf(&o, s);
        }
        true
    }

    /// Records `b` as the box of subgraph `s`.
    pub(crate) fn set_box(&mut self, s: SubgraphHandle, b: (usize, usize, usize, usize))
        requires
            old(self).subgraph_valid(s),
        ensures
            final(self).same_except_rank(old(self), s),
            final(self).rank_of(s).rows() == old(self).rank_of(s).rows(),
            final(self).rank_of(s).level_map() == old(self).rank_of(s).level_map(),
            final(self).box_of(s) == b,
    {
        let ghost o = *self;
        self.subgraphs[s.idx].x_0 = b.0;
        self.subgraphs[s.idx].y_0 = b.1;
        self.subgraphs[s.idx].width = b.2;
        self.subgraphs[s.idx].height = b.3;
        proof {
            assert forall|t: SubgraphHandle|
                #![trigger self.subgraphs@[t.index() as int]]
                self.subgraph_valid(t) && t != s implies self.subgraphs@[t.index() as int] == o.subgraphs@[t.index() as int] by {}
        }
    }
}

} // verus!
