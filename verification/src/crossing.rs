//! Counting the edges that cross between two rows of units.

use vstd::prelude::*;
use crate::handles::{SubgraphHandle, UnitHandle};
use crate::dag::{DAG, occ};
use crate::sums::{ind, row_sum, pair_sum, swap_adjacent, lemma_pair_pair_exchange, lemma_pair_sum_congr, lemma_pair_sum_swap, lemma_pair_sum_bound, lemma_pair_sum_zero};
use crate::base::Direction;

verus! {

/// The number of units of `row` adjacent to `b`.
pub open spec fn count_adjacent(adj: spec_fn(UnitHandle, UnitHandle) -> bool, b: UnitHandle, row: Seq<UnitHandle>) -> nat
    decreases row.len(),
{
    if row.len() == 0 {
        0
    } else {
        count_adjacent(adj, b, row.drop_last()) + if adj(b, row.last()) { 1nat } else { 0nat }
    }
}

/// The number of pairs of positions `y < x` of `row` such that `a` is
/// adjacent to `row[x]` and `b` to `row[y]`: the crossings between the
/// edges of `a` and those of `b` when `a` stands before `b`.
pub open spec fn crossings(adj: spec_fn(UnitHandle, UnitHandle) -> bool, a: UnitHandle, b: UnitHandle, row: Seq<UnitHandle>) -> nat
    decreases row.len(),
{
    if row.len() == 0 {
        0
    } else {
        crossings(adj, a, b, row.drop_last())
            + if adj(a, row.last()) { count_adjacent(adj, b, row.drop_last()) } else { 0nat }
    }
}

pub proof fn lemma_crossings_prefix(adj: spec_fn(UnitHandle, UnitHandle) -> bool, a: UnitHandle, b: UnitHandle, row: Seq<UnitHandle>, k: int)
    requires
        0 <= k <= row.len(),
    ensures
        crossings(adj, a, b, row.take(k)) <= crossings(adj, a, b, row),
    decreases row.len(),
{
    if k < row.len() {
        assert(row.drop_last().take(k) =~= row.take(k));
        lemma_crossings_prefix(adj, a, b, row.drop_last(), k);
    } else {
        assert(row.take(k) =~= row);
    }
}

pub proof fn lemma_count_adjacent_len(adj: spec_fn(UnitHandle, UnitHandle) -> bool, b: UnitHandle, row: Seq<UnitHandle>)
    ensures
        count_adjacent(adj, b, row) <= row.len(),
    decreases row.len(),
{
    if row.len() > 0 {
        lemma_count_adjacent_len(adj, b, row.drop_last());
    }
}

pub proof fn lemma_crossings_bound(adj: spec_fn(UnitHandle, UnitHandle) -> bool, a: UnitHandle, b: UnitHandle, row: Seq<UnitHandle>)
    ensures
        crossings(adj, a, b, row) <= row.len() * row.len(),
    decreases row.len(),
{
    if row.len() > 0 {
        lemma_crossings_bound(adj, a, b, row.drop_last());
        lemma_count_adjacent_len(adj, b, row.drop_last());
        let n = row.len() as int;
        assert((n - 1) * (n - 1) + (n - 1) <= n * n) by (nonlinear_arith)
            requires n >= 1;
    }
}

/// The number of units of `row` adjacent to `b`, as a sum.
pub proof fn lemma_count_adjacent_sum(adj: spec_fn(UnitHandle, UnitHandle) -> bool, b: UnitHandle, c: bool, row: Seq<UnitHandle>)
    ensures
        row_sum(row, |s: UnitHandle| ind(adj(b, s) && c)) == if c { count_adjacent(adj, b, row) } else { 0 },
    decreases row.len(),
{
    if row.len() > 0 {
        lemma_count_adjacent_sum(adj, b, c, row.drop_last());
    }
}

/// The crossings of `a` and `b` in `row`, as a sum over pairs of positions.
pub proof fn lemma_crossings_sum(adj: spec_fn(UnitHandle, UnitHandle) -> bool, a: UnitHandle, b: UnitHandle, row: Seq<UnitHandle>)
    ensures
        crossings(adj, a, b, row) == pair_sum(row, |s: UnitHandle, t: UnitHandle| ind(adj(b, s) && adj(a, t))),
    decreases row.len(),
{
    if row.len() > 0 {
        let f = |s: UnitHandle, t: UnitHandle| ind(adj(b, s) && adj(a, t));
        let d = row.drop_last();
        let z = row.last();
        lemma_crossings_sum(adj, a, b, d);
        lemma_count_adjacent_sum(adj, b, adj(a, z), d);
        assert((|u: UnitHandle| f(u, z)) =~= (|s: UnitHandle| ind(adj(b, s) && adj(a, z))));
    }
}

/// The crossings between the edges of the units of `first`, taken in
/// order, and the units of `second`: for each pair of positions `p < q`
/// of `first`, the crossings of `first[p]` and `first[q]` in `second`.
pub open spec fn pair_crossings(adj: spec_fn(UnitHandle, UnitHandle) -> bool, first: Seq<UnitHandle>, second: Seq<UnitHandle>) -> nat {
    pair_sum(first, |p: UnitHandle, q: UnitHandle| crossings(adj, p, q, second))
}

/// Every unit of `xs` is adjacent to a unit of `ys` just when the latter
/// is adjacent to the former.
pub open spec fn adjacency_symmetric(adj: spec_fn(UnitHandle, UnitHandle) -> bool, xs: Seq<UnitHandle>, ys: Seq<UnitHandle>) -> bool {
    forall|i: int, j: int|
        0 <= i < xs.len() && 0 <= j < ys.len() ==> adj(#[trigger] xs[i], #[trigger] ys[j]) == adj(ys[j], xs[i])
}

/// The crossings between two rows do not depend on which of them is
/// taken first.
pub proof fn lemma_pair_crossings_symmetric(adj: spec_fn(UnitHandle, UnitHandle) -> bool, xs: Seq<UnitHandle>, ys: Seq<UnitHandle>)
    requires
        adjacency_symmetric(adj, xs, ys),
    ensures
        pair_crossings(adj, xs, ys) == pair_crossings(adj, ys, xs),
{
    let g = |p: UnitHandle, q: UnitHandle, s: UnitHandle, t: UnitHandle| ind(adj(q, s) && adj(p, t));
    let lhs_in = |p: UnitHandle, q: UnitHandle| pair_sum(ys, |s: UnitHandle, t: UnitHandle| g(p, q, s, t));
    let rhs_in = |s: UnitHandle, t: UnitHandle| pair_sum(xs, |p: UnitHandle, q: UnitHandle| g(p, q, s, t));
    assert forall|p: UnitHandle, q: UnitHandle| #[trigger] crossings(adj, p, q, ys) == lhs_in(p, q) by {
        lemma_crossings_sum(adj, p, q, ys);
        assert((|s: UnitHandle, t: UnitHandle| ind(adj(q, s) && adj(p, t)))
            =~= (|s: UnitHandle, t: UnitHandle| g(p, q, s, t)));
    }
    assert((|p: UnitHandle, q: UnitHandle| crossings(adj, p, q, ys)) =~= lhs_in);
    lemma_pair_pair_exchange(xs, ys, g);
    assert forall|i: int, j: int| 0 <= i < ys.len() && 0 <= j < ys.len()
        implies (|s: UnitHandle, t: UnitHandle| crossings(adj, s, t, xs))(#[trigger] ys[i], #[trigger] ys[j]) == rhs_in(ys[i], ys[j]) by {
        let s = ys[i];
        let t = ys[j];
        lemma_crossings_sum(adj, s, t, xs);
        let f1 = |u: UnitHandle, v: UnitHandle| ind(adj(t, u) && adj(s, v));
        let f2 = |p: UnitHandle, q: UnitHandle| g(p, q, s, t);
        assert forall|k: int, l: int| 0 <= k < xs.len() && 0 <= l < xs.len() implies f1(#[trigger] xs[k], #[trigger] xs[l]) == f2(xs[k], xs[l]) by {
            assert(adj(xs[k], ys[j]) == adj(ys[j], xs[k]));
            assert(adj(xs[l], ys[i]) == adj(ys[i], xs[l]));
        }
        lemma_pair_sum_congr(xs, f1, f2);
    }
    lemma_pair_sum_congr(ys, |s: UnitHandle, t: UnitHandle| crossings(adj, s, t, xs), rhs_in);
}

/// Exchanging two neighbouring units of `first` changes the crossings
/// with `second` by the difference between their two orders.
pub proof fn lemma_pair_crossings_swap(adj: spec_fn(UnitHandle, UnitHandle) -> bool, first: Seq<UnitHandle>, second: Seq<UnitHandle>, p: int)
    requires
        0 <= p < first.len() - 1,
    ensures
        pair_crossings(adj, swap_adjacent(first, p), second) + crossings(adj, first[p], first[p + 1], second)
            == pair_crossings(adj, first, second) + crossings(adj, first[p + 1], first[p], second),
{
    lemma_pair_sum_swap(first, |u: UnitHandle, v: UnitHandle| crossings(adj, u, v, second), p);
}

/// The crossings between two rows are at most the square of the length
/// of the first times the square of the length of the second.
pub proof fn lemma_pair_crossings_bound(adj: spec_fn(UnitHandle, UnitHandle) -> bool, first: Seq<UnitHandle>, second: Seq<UnitHandle>)
    ensures
        pair_crossings(adj, first, second) <= first.len() * first.len() * (second.len() * second.len()),
{
    let c = second.len() * second.len();
    let f = |p: UnitHandle, q: UnitHandle| crossings(adj, p, q, second);
    assert forall|u: UnitHandle, v: UnitHandle| #[trigger] f(u, v) <= c by {
        lemma_crossings_bound(adj, u, v, second);
    }
    lemma_pair_sum_bound(first, f, c);
}

/// The crossings between each row of `rows` and the row after it, summed.
pub open spec fn rows_crossings(adj: spec_fn(UnitHandle, UnitHandle) -> bool, rows: Seq<Seq<UnitHandle>>) -> nat
    decreases rows.len(),
{
    if rows.len() < 2 {
        0
    } else {
        rows_crossings(adj, rows.drop_last()) + pair_crossings(adj, rows[rows.len() - 2], rows[rows.len() - 1])
    }
}

pub proof fn lemma_rows_crossings_prefix(adj: spec_fn(UnitHandle, UnitHandle) -> bool, rows: Seq<Seq<UnitHandle>>, k: int)
    requires
        0 <= k <= rows.len(),
    ensures
        rows_crossings(adj, rows.take(k)) <= rows_crossings(adj, rows),
    decreases rows.len(),
{
    if k < rows.len() {
        assert(rows.drop_last().take(k) =~= rows.take(k));
        lemma_rows_crossings_prefix(adj, rows.drop_last(), k);
    } else {
        assert(rows.take(k) =~= rows);
    }
}

/// The crossings of `row` with the rows above and below it.
pub open spec fn local_cost(adj: spec_fn(UnitHandle, UnitHandle) -> bool, row: Seq<UnitHandle>, prev: Seq<UnitHandle>, next: Seq<UnitHandle>) -> nat {
    pair_crossings(adj, row, prev) + pair_crossings(adj, row, next)
}

/// A measure of the crossings below each row, in which the crossings
/// below a row outweigh all those above it: the crossings between rows
/// `k` and `k + 1`, plus the measure from row `k + 1` on, counted
/// `crossing_cap + 1` times.
pub open spec fn down_measure(adj: spec_fn(UnitHandle, UnitHandle) -> bool, rows: Seq<Seq<UnitHandle>>, k: nat) -> nat
    decreases rows.len() - k,
{
    if k + 1 >= rows.len() {
        0
    } else {
        pair_crossings(adj, rows[k as int], rows[k + 1 as int])
            + (crossing_cap(rows[k as int], rows[k + 1 as int]) + 1) * down_measure(adj, rows, k + 1)
    }
}

/// A measure of the crossings above each row, in which the crossings
/// above a row outweigh all those below it.
pub open spec fn up_measure(adj: spec_fn(UnitHandle, UnitHandle) -> bool, rows: Seq<Seq<UnitHandle>>, k: nat) -> nat
    decreases k,
{
    if k == 0 || k >= rows.len() {
        0
    } else {
        pair_crossings(adj, rows[k as int], rows[k - 1 as int])
            + (crossing_cap(rows[k as int], rows[k - 1 as int]) + 1) * up_measure(adj, rows, (k - 1) as nat)
    }
}

/// The measure that a sweep of passes in direction `dir` brings down.
pub open spec fn sweep_measure(adj: spec_fn(UnitHandle, UnitHandle) -> bool, rows: Seq<Seq<UnitHandle>>, dir: Direction) -> nat {
    match dir {
        Direction::Down => down_measure(adj, rows, 0),
        Direction::Up => if rows.len() == 0 { 0 } else { up_measure(adj, rows, (rows.len() - 1) as nat) },
        Direction::Both => rows_crossings(adj, rows),
    }
}

/// The row above row `i` of `rows` that a pass in direction `dir` looks
/// at.
pub open spec fn row_above(rows: Seq<Seq<UnitHandle>>, i: int, dir: Direction) -> Seq<UnitHandle> {
    if i > 0 && dir.looks_up() { rows[i - 1 as int] } else { Seq::empty() }
}

/// The row below row `i` of `rows` that a pass in direction `dir` looks
/// at.
pub open spec fn row_below(rows: Seq<Seq<UnitHandle>>, i: int, dir: Direction) -> Seq<UnitHandle> {
    if i + 1 < rows.len() && dir.looks_down() { rows[i + 1 as int] } else { Seq::empty() }
}

pub proof fn lemma_pair_crossings_empty(adj: spec_fn(UnitHandle, UnitHandle) -> bool, first: Seq<UnitHandle>)
    ensures
        pair_crossings(adj, first, Seq::empty()) == 0,
{
    let f = |p: UnitHandle, q: UnitHandle| crossings(adj, p, q, Seq::<UnitHandle>::empty());
    assert forall|u: UnitHandle, v: UnitHandle| #[trigger] f(u, v) == 0 by {}
    lemma_pair_sum_zero(first, f);
}

pub proof fn lemma_down_measure_same(adj: spec_fn(UnitHandle, UnitHandle) -> bool, rows: Seq<Seq<UnitHandle>>, other: Seq<Seq<UnitHandle>>, k: nat)
    requires
        rows.len() == other.len(),
        forall|j: int| k <= j < rows.len() ==> #[trigger] rows[j] == other[j],
    ensures
        down_measure(adj, rows, k) == down_measure(adj, other, k),
    decreases rows.len() - k,
{
    if k + 1 < rows.len() {
        lemma_down_measure_same(adj, rows, other, k + 1);
        assert(rows[k as int] == other[k as int]);
        assert(rows[k + 1 as int] == other[k + 1 as int]);
    }
}

pub proof fn lemma_down_measure_drop(adj: spec_fn(UnitHandle, UnitHandle) -> bool, rows: Seq<Seq<UnitHandle>>, other: Seq<Seq<UnitHandle>>, i: nat, k: nat)
    requires
        rows.len() == other.len(),
        k <= i,
        i + 1 < rows.len(),
        forall|j: int| 0 <= j < rows.len() ==> (#[trigger] other[j]).len() == rows[j].len(),
        forall|j: int| 0 <= j < rows.len() && j != i ==> #[trigger] rows[j] == other[j],
        pair_crossings(adj, other[i as int], other[i + 1 as int]) < pair_crossings(adj, rows[i as int], rows[i + 1 as int]),
    ensures
        down_measure(adj, other, k) < down_measure(adj, rows, k),
    decreases i - k,
{
    if k == i {
        lemma_down_measure_same(adj, rows, other, k + 1);
    } else {
        lemma_down_measure_drop(adj, rows, other, i, k + 1);
        let c = crossing_cap(rows[k as int], rows[k + 1 as int]);
        assert(crossing_cap(other[k as int], other[k + 1 as int]) == c);
        lemma_pair_crossings_bound(adj, other[k as int], other[k + 1 as int]);
        let x = pair_crossings(adj, other[k as int], other[k + 1 as int]);
        let y = pair_crossings(adj, rows[k as int], rows[k + 1 as int]);
        let a = down_measure(adj, other, k + 1);
        let b = down_measure(adj, rows, k + 1);
        assert(x + (c + 1) * a < y + (c + 1) * b) by (nonlinear_arith)
            requires x <= c, a < b, y >= 0;
    }
}

pub proof fn lemma_up_measure_same(adj: spec_fn(UnitHandle, UnitHandle) -> bool, rows: Seq<Seq<UnitHandle>>, other: Seq<Seq<UnitHandle>>, k: nat)
    requires
        rows.len() == other.len(),
        forall|j: int| 0 <= j <= k && j < rows.len() ==> #[trigger] rows[j] == other[j],
    ensures
        up_measure(adj, rows, k) == up_measure(adj, other, k),
    decreases k,
{
    if k > 0 && k < rows.len() {
        lemma_up_measure_same(adj, rows, other, (k - 1) as nat);
        assert(rows[k as int] == other[k as int]);
        assert(rows[k - 1 as int] == other[k - 1 as int]);
    }
}

pub proof fn lemma_up_measure_drop(adj: spec_fn(UnitHandle, UnitHandle) -> bool, rows: Seq<Seq<UnitHandle>>, other: Seq<Seq<UnitHandle>>, i: nat, k: nat)
    requires
        rows.len() == other.len(),
        0 < i <= k < rows.len(),
        forall|j: int| 0 <= j < rows.len() ==> (#[trigger] other[j]).len() == rows[j].len(),
        forall|j: int| 0 <= j < rows.len() && j != i ==> #[trigger] rows[j] == other[j],
        pair_crossings(adj, other[i as int], other[i - 1 as int]) < pair_crossings(adj, rows[i as int], rows[i - 1 as int]),
    ensures
        up_measure(adj, other, k) < up_measure(adj, rows, k),
    decreases k - i,
{
    if k == i {
        lemma_up_measure_same(adj, rows, other, (k - 1) as nat);
    } else {
        lemma_up_measure_drop(adj, rows, other, i, (k - 1) as nat);
        let c = crossing_cap(rows[k as int], rows[k - 1 as int]);
        assert(crossing_cap(other[k as int], other[k - 1 as int]) == c);
        lemma_pair_crossings_bound(adj, other[k as int], other[k - 1 as int]);
        let x = pair_crossings(adj, other[k as int], other[k - 1 as int]);
        let y = pair_crossings(adj, rows[k as int], rows[k - 1 as int]);
        let a = up_measure(adj, other, (k - 1) as nat);
        let b = up_measure(adj, rows, (k - 1) as nat);
        assert(x + (c + 1) * a < y + (c + 1) * b) by (nonlinear_arith)
            requires x <= c, a < b, y >= 0;
    }
}

/// Changing row `i` alone changes the summed crossings only in the terms
/// of that row.
pub proof fn lemma_rows_crossings_update(adj: spec_fn(UnitHandle, UnitHandle) -> bool, rows: Seq<Seq<UnitHandle>>, i: int, x: Seq<UnitHandle>)
    requires
        0 <= i < rows.len(),
    ensures
        rows_crossings(adj, rows.update(i, x))
            + (if i > 0 { pair_crossings(adj, rows[i - 1 as int], rows[i]) } else { 0 })
            + (if i + 1 < rows.len() { pair_crossings(adj, rows[i], rows[i + 1 as int]) } else { 0 })
        == rows_crossings(adj, rows)
            + (if i > 0 { pair_crossings(adj, rows[i - 1 as int], x) } else { 0 })
            + (if i + 1 < rows.len() { pair_crossings(adj, x, rows[i + 1 as int]) } else { 0 }),
    decreases rows.len(),
{
    let u = rows.update(i, x);
    let n = rows.len() as int;
    if n >= 2 {
        if i < n - 1 {
            assert(u.drop_last() =~= rows.drop_last().update(i, x));
            lemma_rows_crossings_update(adj, rows.drop_last(), i, x);
            assert(rows.drop_last()[i] == rows[i]);
            if i > 0 {
                assert(rows.drop_last()[i - 1 as int] == rows[i - 1 as int]);
            }
            if i + 1 < n - 1 {
                assert(rows.drop_last()[i + 1 as int] == rows[i + 1 as int]);
            }
        } else {
            assert(u.drop_last() =~= rows.drop_last());
        }
    }
}


impl DAG {
    /// `w` is a successor or a predecessor of `u`.
    pub open(crate) spec fn adjacent(&self, u: UnitHandle, w: UnitHandle) -> bool {
        self.unit_valid(u) && (self.unit_succs(u).contains(w) || self.unit_preds(u).contains(w))
    }

    /// The adjacency relation of the dag.
    pub open(crate) spec fn adjacency(&self) -> spec_fn(UnitHandle, UnitHandle) -> bool {
        |u: UnitHandle, w: UnitHandle| self.adjacent(u, w)
    }

    /// Rearranging the ranks of a subgraph keeps the adjacency relation.
    pub proof fn lemma_same_adjacency(&self, other: &DAG, s: SubgraphHandle)
        requires
            other.wf(),
            self.same_except_rank(other, s),
        ensures
            self.adjacency() == other.adjacency(),
    {
        self.lemma_same_except_rank_wf(other, s);
        assert forall|u: UnitHandle, w: UnitHandle| #[trigger] self.adjacent(u, w) == other.adjacent(u, w) by {}
        assert(self.adjacency() =~= other.adjacency());
    }






    /// Within a well-formed dag, adjacency is symmetric.
    pub(crate) proof fn lemma_adjacent_symmetric(&self, u: UnitHandle, w: UnitHandle)
        requires
            self.wf(),
            self.unit_valid(u),
            self.unit_valid(w),
        ensures
            self.adjacent(u, w) == self.adjacent(w, u),
    {
        self.unit_succs(u).to_multiset_ensures();
        self.unit_preds(u).to_multiset_ensures();
        self.unit_succs(w).to_multiset_ensures();
        self.unit_preds(w).to_multiset_ensures();
        assert(occ(self.unit_succs(u), w) == occ(self.unit_preds(w), u));
        assert(occ(self.unit_succs(w), u) == occ(self.unit_preds(u), w));
        assert(self.adjacency()(u, w) == self.adjacent(u, w));
    }








}

impl DAG {
    /// Every unit of `row` is a unit of the dag.
    pub open(crate) spec fn units_valid(&self, row: Seq<UnitHandle>) -> bool {
        forall|i: int| 0 <= i < row.len() ==> self.unit_valid(#[trigger] row[i])
    }

    /// A rearranged row of valid units holds valid units.
    pub(crate) proof fn lemma_units_valid_perm(&self, a: Seq<UnitHandle>, b: Seq<UnitHandle>)
        requires
            a.to_multiset() == b.to_multiset(),
            self.units_valid(b),
        ensures
            self.units_valid(a),
    {
        a.to_multiset_ensures();
        b.to_multiset_ensures();
        assert forall|i: int| 0 <= i < a.len() implies self.unit_valid(#[trigger] a[i]) by {
            assert(a.contains(a[i]));
            assert(a.to_multiset().count(a[i]) > 0);
            assert(b.to_multiset().count(a[i]) > 0);
            assert(b.contains(a[i]));
            let k = choose|k: int| 0 <= k < b.len() && b[k] == a[i];
            assert(self.unit_valid(b[k]));
        }
    }

    /// Every unit in the rows of subgraph `s` is a unit of the dag.
    pub open(crate) spec fn rank_units_valid(&self, s: SubgraphHandle) -> bool {
        forall|i: int| 0 <= i < self.rank_of(s).rows().len() ==> self.units_valid(#[trigger] self.rank_of(s).rows()[i])
    }


}

/// The largest number of crossings that two rows of these lengths can have.
pub open spec fn crossing_cap(first: Seq<UnitHandle>, second: Seq<UnitHandle>) -> nat {
    first.len() * first.len() * (second.len() * second.len())
}

impl DAG {












    /// A sweep of passes in direction `dir` that lowers the crossings of one
    /// row with the rows that it looks at lowers the sweep's measure.
    pub proof fn lemma_sweep_measure_drops(&self, rows: Seq<Seq<UnitHandle>>, i: int, dir: Direction, x: Seq<UnitHandle>)
        requires
            self.wf(),
            0 <= i < rows.len(),
            forall|j: int| 0 <= j < rows.len() ==> self.units_valid(#[trigger] rows[j]),
            self.units_valid(x),
            x.len() == rows[i].len(),
            local_cost(self.adjacency(), x, row_above(rows, i, dir), row_below(rows, i, dir))
                < local_cost(self.adjacency(), rows[i], row_above(rows, i, dir), row_below(rows, i, dir)),
        ensures
            sweep_measure(self.adjacency(), rows.update(i, x), dir) < sweep_measure(self.adjacency(), rows, dir),
    {
        let u = rows.update(i, x);
        let prev = row_above(rows, i, dir);
        let next = row_below(rows, i, dir);
        lemma_pair_crossings_empty(self.adjacency(), x);
        lemma_pair_crossings_empty(self.adjacency(), rows[i]);
        match dir {
            Direction::Down => {
                assert(i + 1 < rows.len());
                assert forall|j: int| 0 <= j < rows.len() implies (#[trigger] u[j]).len() == rows[j].len() by {}
                assert forall|j: int| 0 <= j < rows.len() && j != i implies #[trigger] rows[j] == u[j] by {}
                lemma_down_measure_drop(self.adjacency(), rows, u, i as nat, 0);
            },
            Direction::Up => {
                assert(i > 0);
                assert forall|j: int| 0 <= j < rows.len() implies (#[trigger] u[j]).len() == rows[j].len() by {}
                assert forall|j: int| 0 <= j < rows.len() && j != i implies #[trigger] rows[j] == u[j] by {}
                lemma_up_measure_drop(self.adjacency(), rows, u, i as nat, (rows.len() - 1) as nat);
            },
            Direction::Both => {
                lemma_rows_crossings_update(self.adjacency(), rows, i, x);
                if i > 0 {
                    self.lemma_symmetric_rows(rows[i - 1 as int], x);
                    self.lemma_symmetric_rows(rows[i - 1 as int], rows[i]);
                    lemma_pair_crossings_symmetric(self.adjacency(), rows[i - 1 as int], x);
                    lemma_pair_crossings_symmetric(self.adjacency(), rows[i - 1 as int], rows[i]);
                }
            },
        }
    }

    /// Within a well-formed dag, adjacency between valid units is symmetric.
    pub(crate) proof fn lemma_symmetric_rows(&self, xs: Seq<UnitHandle>, ys: Seq<UnitHandle>)
        requires
            self.wf(),
            self.units_valid(xs),
            self.units_valid(ys),
        ensures
            adjacency_symmetric(self.adjacency(), xs, ys),
    {
        assert forall|i: int, j: int| 0 <= i < xs.len() && 0 <= j < ys.len()
            implies self.adjacent(#[trigger] xs[i], #[trigger] ys[j]) == self.adjacent(ys[j], xs[i]) by {
            self.lemma_adjacent_symmetric(xs[i], ys[j]);
        }
    }
}

/// The largest number of crossings that rows of these lengths can have
/// between each row and the next, summed.
pub open spec fn rows_cap(rows: Seq<Seq<UnitHandle>>) -> nat
    decreases rows.len(),
{
    if rows.len() < 2 {
        0
    } else {
        rows_cap(rows.drop_last()) + crossing_cap(rows[rows.len() - 2], rows[rows.len() - 1])
    }
}

pub proof fn lemma_rows_crossings_cap(adj: spec_fn(UnitHandle, UnitHandle) -> bool, rows: Seq<Seq<UnitHandle>>)
    ensures
        rows_crossings(adj, rows) <= rows_cap(rows),
    decreases rows.len(),
{
    if rows.len() >= 2 {
        lemma_rows_crossings_cap(adj, rows.drop_last());
        lemma_pair_crossings_bound(adj, rows[rows.len() - 2], rows[rows.len() - 1]);
    }
}

pub proof fn lemma_rows_cap_same(rows: Seq<Seq<UnitHandle>>, other: Seq<Seq<UnitHandle>>)
    requires
        rows.len() == other.len(),
        forall|i: int| 0 <= i < rows.len() ==> (#[trigger] rows[i]).len() == other[i].len(),
    ensures
        rows_cap(rows) == rows_cap(other),
    decreases rows.len(),
{
    if rows.len() >= 2 {
        lemma_rows_cap_same(rows.drop_last(), other.drop_last());
        assert(rows[rows.len() - 2].len() == other[rows.len() - 2].len());
        assert(rows[rows.len() - 1].len() == other[rows.len() - 1].len());
    }
}

} // verus!
