//! Finite sums over a row of units: over its elements, and over its ordered
//! pairs of positions, with the algebra that crossing counts need.

use vstd::prelude::*;
use crate::handles::UnitHandle;

verus! {

/// 1 when `b` holds, 0 otherwise.
pub open spec fn ind(b: bool) -> nat {
    if b { 1 } else { 0 }
}

/// `f(xs[0]) + f(xs[1]) + ...`.
pub open spec fn row_sum(xs: Seq<UnitHandle>, f: spec_fn(UnitHandle) -> nat) -> nat
    decreases xs.len(),
{
    if xs.len() == 0 {
        0
    } else {
        row_sum(xs.drop_last(), f) + f(xs.last())
    }
}

/// The sum of `f(xs[p], xs[q])` over all positions `p < q`.
pub open spec fn pair_sum(xs: Seq<UnitHandle>, f: spec_fn(UnitHandle, UnitHandle) -> nat) -> nat
    decreases xs.len(),
{
    if xs.len() == 0 {
        0
    } else {
        pair_sum(xs.drop_last(), f) + row_sum(xs.drop_last(), |u: UnitHandle| f(u, xs.last()))
    }
}

/// `xs` with the elements at `p` and `p + 1` exchanged.
pub open spec fn swap_adjacent(xs: Seq<UnitHandle>, p: int) -> Seq<UnitHandle> {
    xs.update(p, xs[p + 1]).update(p + 1, xs[p])
}

pub proof fn lemma_row_sum_congr(xs: Seq<UnitHandle>, f: spec_fn(UnitHandle) -> nat, g: spec_fn(UnitHandle) -> nat)
    requires
        forall|i: int| 0 <= i < xs.len() ==> f(#[trigger] xs[i]) == g(xs[i]),
    ensures
        row_sum(xs, f) == row_sum(xs, g),
    decreases xs.len(),
{
    if xs.len() > 0 {
        let d = xs.drop_last();
        assert forall|i: int| 0 <= i < d.len() implies f(#[trigger] d[i]) == g(d[i]) by {
            assert(d[i] == xs[i]);
        }
        lemma_row_sum_congr(d, f, g);
        assert(xs.last() == xs[xs.len() - 1]);
    }
}

pub proof fn lemma_pair_sum_congr(
    xs: Seq<UnitHandle>,
    f: spec_fn(UnitHandle, UnitHandle) -> nat,
    g: spec_fn(UnitHandle, UnitHandle) -> nat,
)
    requires
        forall|i: int, j: int| 0 <= i < xs.len() && 0 <= j < xs.len() ==> f(#[trigger] xs[i], #[trigger] xs[j]) == g(xs[i], xs[j]),
    ensures
        pair_sum(xs, f) == pair_sum(xs, g),
    decreases xs.len(),
{
    if xs.len() > 0 {
        let d = xs.drop_last();
        let z = xs.last();
        assert forall|i: int, j: int| 0 <= i < d.len() && 0 <= j < d.len() implies f(#[trigger] d[i], #[trigger] d[j]) == g(d[i], d[j]) by {
            assert(d[i] == xs[i]);
            assert(d[j] == xs[j]);
        }
        lemma_pair_sum_congr(d, f, g);
        assert forall|i: int| 0 <= i < d.len() implies (|u: UnitHandle| f(u, z))(#[trigger] d[i]) == (|u: UnitHandle| g(u, z))(d[i]) by {
            assert(d[i] == xs[i]);
            assert(z == xs[xs.len() - 1]);
        }
        lemma_row_sum_congr(d, |u: UnitHandle| f(u, z), |u: UnitHandle| g(u, z));
    }
}

pub proof fn lemma_row_sum_add(xs: Seq<UnitHandle>, f: spec_fn(UnitHandle) -> nat, g: spec_fn(UnitHandle) -> nat)
    ensures
        row_sum(xs, |u: UnitHandle| f(u) + g(u)) == row_sum(xs, f) + row_sum(xs, g),
    decreases xs.len(),
{
    if xs.len() > 0 {
        lemma_row_sum_add(xs.drop_last(), f, g);
    }
}

pub proof fn lemma_pair_sum_add(
    xs: Seq<UnitHandle>,
    f: spec_fn(UnitHandle, UnitHandle) -> nat,
    g: spec_fn(UnitHandle, UnitHandle) -> nat,
)
    ensures
        pair_sum(xs, |u: UnitHandle, v: UnitHandle| f(u, v) + g(u, v)) == pair_sum(xs, f) + pair_sum(xs, g),
    decreases xs.len(),
{
    if xs.len() > 0 {
        let d = xs.drop_last();
        let z = xs.last();
        lemma_pair_sum_add(d, f, g);
        let h = |u: UnitHandle, v: UnitHandle| f(u, v) + g(u, v);
        lemma_row_sum_add(d, |u: UnitHandle| f(u, z), |u: UnitHandle| g(u, z));
        assert((|u: UnitHandle| h(u, z)) =~= (|u: UnitHandle| (|u: UnitHandle| f(u, z))(u) + (|u: UnitHandle| g(u, z))(u)));
    }
}

/// Exchanging two elements leaves a sum over the elements unchanged.
pub proof fn lemma_row_sum_swap(xs: Seq<UnitHandle>, f: spec_fn(UnitHandle) -> nat, p: int)
    requires
        0 <= p < xs.len() - 1,
    ensures
        row_sum(swap_adjacent(xs, p), f) == row_sum(xs, f),
    decreases xs.len(),
{
    let ys = swap_adjacent(xs, p);
    if p + 1 < xs.len() - 1 {
        assert(ys.drop_last() =~= swap_adjacent(xs.drop_last(), p));
        assert(ys.last() == xs.last());
        lemma_row_sum_swap(xs.drop_last(), f, p);
        assert(row_sum(ys, f) == row_sum(ys.drop_last(), f) + f(ys.last()));
    } else {
        let a = xs.drop_last().drop_last();
        assert(ys.drop_last().drop_last() =~= a);
        assert(ys.drop_last().last() == xs.last());
        assert(ys.last() == xs.drop_last().last());
        assert(row_sum(ys, f) == row_sum(ys.drop_last(), f) + f(ys.last()));
        assert(row_sum(ys.drop_last(), f) == row_sum(a, f) + f(ys.drop_last().last()));
        assert(row_sum(xs.drop_last(), f) == row_sum(a, f) + f(xs.drop_last().last()));
    }
}

/// Exchanging two neighbouring elements changes a sum over ordered pairs
/// only in the term of those two.
pub proof fn lemma_pair_sum_swap(xs: Seq<UnitHandle>, f: spec_fn(UnitHandle, UnitHandle) -> nat, p: int)
    requires
        0 <= p < xs.len() - 1,
    ensures
        pair_sum(swap_adjacent(xs, p), f) + f(xs[p], xs[p + 1]) == pair_sum(xs, f) + f(xs[p + 1], xs[p]),
    decreases xs.len(),
{
    let ys = swap_adjacent(xs, p);
    if p + 1 < xs.len() - 1 {
        assert(ys.drop_last() =~= swap_adjacent(xs.drop_last(), p));
        assert(ys.last() == xs.last());
        lemma_pair_sum_swap(xs.drop_last(), f, p);
        lemma_row_sum_swap(xs.drop_last(), |u: UnitHandle| f(u, xs.last()), p);
        assert(pair_sum(ys, f) == pair_sum(ys.drop_last(), f) + row_sum(ys.drop_last(), |u: UnitHandle| f(u, ys.last())));
        assert(xs.drop_last()[p] == xs[p] && xs.drop_last()[p + 1] == xs[p + 1]);
    } else {
        let a = xs.drop_last().drop_last();
        let x = xs[p];
        let y = xs[p + 1];
        assert(xs.drop_last().drop_last() =~= a);
        assert(ys.drop_last().drop_last() =~= a);
        assert(ys.drop_last().last() == y);
        assert(ys.last() == x);
        assert(xs.drop_last().last() == x);
        assert(xs.last() == y);
        assert(xs.drop_last() =~= a.push(x));
        assert(ys.drop_last() =~= a.push(y));
        assert(a.push(x).drop_last() =~= a);
        assert(a.push(y).drop_last() =~= a);
        let fx = |u: UnitHandle| f(u, x);
        let fy = |u: UnitHandle| f(u, y);
        assert(pair_sum(ys, f) == pair_sum(a.push(y), f) + row_sum(a.push(y), fx));
        assert(pair_sum(a.push(y), f) == pair_sum(a, f) + row_sum(a, fy));
        assert(row_sum(a.push(y), fx) == row_sum(a, fx) + f(y, x));
        assert(pair_sum(xs, f) == pair_sum(a.push(x), f) + row_sum(a.push(x), fy));
        assert(pair_sum(a.push(x), f) == pair_sum(a, f) + row_sum(a, fx));
        assert(row_sum(a.push(x), fy) == row_sum(a, fy) + f(x, y));
    }
}

/// A sum over elements of sums over pairs may be taken the other way round.
pub proof fn lemma_row_pair_exchange(
    a: Seq<UnitHandle>,
    b: Seq<UnitHandle>,
    g: spec_fn(UnitHandle, UnitHandle, UnitHandle) -> nat,
)
    ensures
        row_sum(a, |u: UnitHandle| pair_sum(b, |p: UnitHandle, q: UnitHandle| g(u, p, q)))
            == pair_sum(b, |p: UnitHandle, q: UnitHandle| row_sum(a, |u: UnitHandle| g(u, p, q))),
    decreases a.len(),
{
    let lhs = |u: UnitHandle| pair_sum(b, |p: UnitHandle, q: UnitHandle| g(u, p, q));
    let rhs = |p: UnitHandle, q: UnitHandle| row_sum(a, |u: UnitHandle| g(u, p, q));
    if a.len() == 0 {
        lemma_pair_sum_zero(b, rhs);
    } else {
        let d = a.drop_last();
        let z = a.last();
        lemma_row_pair_exchange(d, b, g);
        let r1 = |p: UnitHandle, q: UnitHandle| row_sum(d, |u: UnitHandle| g(u, p, q));
        let r2 = |p: UnitHandle, q: UnitHandle| g(z, p, q);
        assert forall|p: UnitHandle, q: UnitHandle| #[trigger] rhs(p, q) == r1(p, q) + r2(p, q) by {
            assert(row_sum(a, |u: UnitHandle| g(u, p, q)) == row_sum(d, |u: UnitHandle| g(u, p, q)) + g(z, p, q));
        }
        assert(rhs =~= (|p: UnitHandle, q: UnitHandle| r1(p, q) + r2(p, q)));
        lemma_pair_sum_add(b, r1, r2);
    }
}

pub proof fn lemma_pair_sum_zero(xs: Seq<UnitHandle>, f: spec_fn(UnitHandle, UnitHandle) -> nat)
    requires
        forall|u: UnitHandle, v: UnitHandle| #[trigger] f(u, v) == 0,
    ensures
        pair_sum(xs, f) == 0,
    decreases xs.len(),
{
    if xs.len() > 0 {
        lemma_pair_sum_zero(xs.drop_last(), f);
        lemma_row_sum_zero(xs.drop_last(), |u: UnitHandle| f(u, xs.last()));
    }
}

pub proof fn lemma_row_sum_zero(xs: Seq<UnitHandle>, f: spec_fn(UnitHandle) -> nat)
    requires
        forall|u: UnitHandle| #[trigger] f(u) == 0,
    ensures
        row_sum(xs, f) == 0,
    decreases xs.len(),
{
    if xs.len() > 0 {
        lemma_row_sum_zero(xs.drop_last(), f);
    }
}

/// A double sum over pairs may be taken the other way round.
pub proof fn lemma_pair_pair_exchange(
    a: Seq<UnitHandle>,
    b: Seq<UnitHandle>,
    g: spec_fn(UnitHandle, UnitHandle, UnitHandle, UnitHandle) -> nat,
)
    ensures
        pair_sum(a, |u: UnitHandle, v: UnitHandle| pair_sum(b, |p: UnitHandle, q: UnitHandle| g(u, v, p, q)))
            == pair_sum(b, |p: UnitHandle, q: UnitHandle| pair_sum(a, |u: UnitHandle, v: UnitHandle| g(u, v, p, q))),
    decreases a.len(),
{
    let rhs = |p: UnitHandle, q: UnitHandle| pair_sum(a, |u: UnitHandle, v: UnitHandle| g(u, v, p, q));
    if a.len() == 0 {
        lemma_pair_sum_zero(b, rhs);
    } else {
        let d = a.drop_last();
        let z = a.last();
        lemma_pair_pair_exchange(d, b, g);
        let r1 = |p: UnitHandle, q: UnitHandle| pair_sum(d, |u: UnitHandle, v: UnitHandle| g(u, v, p, q));
        let r2 = |p: UnitHandle, q: UnitHandle| row_sum(d, |u: UnitHandle| g(u, z, p, q));
        assert forall|p: UnitHandle, q: UnitHandle| #[trigger] rhs(p, q) == r1(p, q) + r2(p, q) by {
            let inner = |u: UnitHandle, v: UnitHandle| g(u, v, p, q);
            assert(pair_sum(a, inner) == pair_sum(d, inner) + row_sum(d, |u: UnitHandle| inner(u, z)));
            assert((|u: UnitHandle| inner(u, z)) =~= (|u: UnitHandle| g(u, z, p, q)));
        }
        assert(rhs =~= (|p: UnitHandle, q: UnitHandle| r1(p, q) + r2(p, q)));
        lemma_pair_sum_add(b, r1, r2);
        let g2 = |u: UnitHandle, p: UnitHandle, q: UnitHandle| g(u, z, p, q);
        lemma_row_pair_exchange(d, b, g2);
        let lhs_in = |u: UnitHandle, v: UnitHandle| pair_sum(b, |p: UnitHandle, q: UnitHandle| g(u, v, p, q));
        assert forall|u: UnitHandle| #[trigger] lhs_in(u, z) == pair_sum(b, |p: UnitHandle, q: UnitHandle| g2(u, p, q)) by {
            assert((|p: UnitHandle, q: UnitHandle| g(u, z, p, q)) =~= (|p: UnitHandle, q: UnitHandle| g2(u, p, q)));
        }
        assert((|u: UnitHandle| lhs_in(u, z)) =~= (|u: UnitHandle| pair_sum(b, |p: UnitHandle, q: UnitHandle| g2(u, p, q))));
        assert forall|p: UnitHandle, q: UnitHandle| #[trigger] r2(p, q) == row_sum(d, |u: UnitHandle| g2(u, p, q)) by {
            assert((|u: UnitHandle| g(u, z, p, q)) =~= (|u: UnitHandle| g2(u, p, q)));
        }
        assert(r2 =~= (|p: UnitHandle, q: UnitHandle| row_sum(d, |u: UnitHandle| g2(u, p, q))));
    }
}

/// A sum over pairs of terms of at most `c` is at most `c` times the square
/// of the length.
pub proof fn lemma_row_sum_bound(xs: Seq<UnitHandle>, f: spec_fn(UnitHandle) -> nat, c: nat)
    requires
        forall|u: UnitHandle| #[trigger] f(u) <= c,
    ensures
        row_sum(xs, f) <= xs.len() * c,
    decreases xs.len(),
{
    if xs.len() > 0 {
        lemma_row_sum_bound(xs.drop_last(), f, c);
        let n = xs.len() as int;
        assert((n - 1) * c + c == n * c) by (nonlinear_arith);
    }
}

pub proof fn lemma_pair_sum_bound(xs: Seq<UnitHandle>, f: spec_fn(UnitHandle, UnitHandle) -> nat, c: nat)
    requires
        forall|u: UnitHandle, v: UnitHandle| #[trigger] f(u, v) <= c,
    ensures
        pair_sum(xs, f) <= xs.len() * xs.len() * c,
    decreases xs.len(),
{
    if xs.len() > 0 {
        let d = xs.drop_last();
        lemma_pair_sum_bound(d, f, c);
        let g = |u: UnitHandle| f(u, xs.last());
        assert forall|u: UnitHandle| #[trigger] g(u) <= c by {}
        lemma_row_sum_bound(d, g, c);
        let n = xs.len() as int;
        assert((n - 1) * (n - 1) * c + (n - 1) * c <= n * n * c) by (nonlinear_arith)
            requires n >= 1, c >= 0;
    }
}

/// A sum over a prefix is at most the whole sum.
pub proof fn lemma_row_sum_prefix(xs: Seq<UnitHandle>, f: spec_fn(UnitHandle) -> nat, k: int)
    requires
        0 <= k <= xs.len(),
    ensures
        row_sum(xs.take(k), f) <= row_sum(xs, f),
    decreases xs.len(),
{
    if k < xs.len() {
        assert(xs.drop_last().take(k) =~= xs.take(k));
        lemma_row_sum_prefix(xs.drop_last(), f, k);
    } else {
        assert(xs.take(k) =~= xs);
    }
}

pub proof fn lemma_pair_sum_prefix(xs: Seq<UnitHandle>, f: spec_fn(UnitHandle, UnitHandle) -> nat, k: int)
    requires
        0 <= k <= xs.len(),
    ensures
        pair_sum(xs.take(k), f) <= pair_sum(xs, f),
    decreases xs.len(),
{
    if k < xs.len() {
        assert(xs.drop_last().take(k) =~= xs.take(k));
        lemma_pair_sum_prefix(xs.drop_last(), f, k);
    } else {
        assert(xs.take(k) =~= xs);
    }
}

} // verus!
