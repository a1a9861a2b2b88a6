//! Depth-first orderings of the units of a subgraph.

use vstd::prelude::*;
use crate::handles::{NodeHandle, SubgraphHandle, UnitHandle};
use crate::dag::DAG;
use crate::reach::unit_reaches;
use crate::unit_map::UnitMap;

verus! {

broadcast use vstd::seq_lib::seq_to_set_is_finite;

pub proof fn lemma_unit_reaches_append(dag: &DAG, a: UnitHandle, b: UnitHandle, c: UnitHandle)
    requires
        unit_reaches(dag, a, b),
        dag.unit_valid(b),
        dag.unit_succs(b).contains(c),
    ensures
        unit_reaches(dag, a, c),
{
    let p = choose|p: Seq<UnitHandle>| crate::reach::is_unit_path(dag, p) && p[0] == a && p.last() == b;
    let q = p.push(c);
    assert forall|i: int| 0 <= i < q.len() - 1 implies dag.unit_valid(#[trigger] q[i]) && dag.unit_succs(q[i]).contains(q[i + 1]) by {
        if i < p.len() - 1 {
            assert(q[i] == p[i]);
            assert(q[i + 1] == p[i + 1]);
        } else {
            assert(q[i] == b);
        }
    }
    assert(crate::reach::is_unit_path(dag, q) && q[0] == a && q.last() == c);
}

/// The worklist holds an entry for `u`.
pub open spec fn wl_has(wl: Seq<(UnitHandle, bool)>, u: UnitHandle) -> bool {
    exists|i: int| 0 <= i < wl.len() && (#[trigger] wl[i]).0 == u
}

impl DAG {
    /// A member of subgraph `s`.
    pub open(crate) spec fn is_member(&self, s: SubgraphHandle, u: UnitHandle) -> bool {
        self.members(s).contains(u)
    }

    /// A member of subgraph `s` with no unit predecessors.
    pub open(crate) spec fn is_source(&self, s: SubgraphHandle, u: UnitHandle) -> bool {
        self.is_member(s, u) && self.unit_preds(u).len() == 0
    }

    /// `v` can be reached from a source of subgraph `s`.
    pub open(crate) spec fn from_source(&self, s: SubgraphHandle, v: UnitHandle) -> bool {
        exists|r: UnitHandle| self.is_source(s, r) && unit_reaches(self, r, v)
    }

    /// The unit successors of the members of `s` are members of `s`.
    pub open(crate) spec fn subgraph_closed(&self, s: SubgraphHandle) -> bool {
        forall|u: UnitHandle, k: int|
            self.is_member(s, u) && 0 <= k < self.unit_succs(u).len() ==> self.is_member(s, #[trigger] self.unit_succs(u)[k])
    }

    /// What a depth-first ordering of subgraph `s` holds: each unit that can be
    /// reached from a source of `s`, once.
    pub open(crate) spec fn is_reach_order(&self, s: SubgraphHandle, order: Seq<UnitHandle>) -> bool {
        &&& order.no_duplicates()
        &&& forall|v: UnitHandle| order.contains(v) <==> self.from_source(s, v)
    }

    pub(crate) proof fn lemma_member_valid(&self, s: SubgraphHandle, u: UnitHandle)
        requires
            self.wf(),
            self.subgraph_valid(s),
            self.is_member(s, u),
        ensures
            self.unit_valid(u),
    {
        let k = choose|k: int| 0 <= k < self.members(s).len() && self.members(s)[k] == u;
        let nl = self.member_nodes(s).len();
        if k < nl {
            assert(self.members(s)[k] == UnitHandle::Node(self.member_nodes(s)[k]));
        } else {
            assert(self.members(s)[k] == UnitHandle::Subgraph(self.member_subgraphs(s)[k - nl]));
        }
    }
}

/// `v` in reverse order.
pub fn reversed(v: &Vec<UnitHandle>) -> (r: Vec<UnitHandle>)
    ensures
        r@ == v@.reverse(),
{
    let mut r: Vec<UnitHandle> = Vec::new();
    let mut i: usize = v.len();
    while i > 0
        invariant
            i <= v.len(),
            r@ == v@.subrange(i as int, v@.len() as int).reverse(),
        decreases i,
    {
        i = i - 1;
        r.push(v[i]);
        proof {
            assert(r@ =~= v@.subrange(i as int, v@.len() as int).reverse());
        }
    }
    proof { assert(v@.subrange(0, v@.len() as int) =~= v@); }
    r
}


impl DAG {
    /// The successors of `u`, put in the order of their first position in
    /// `rank_vec` when `use_rank` is set.
    fn ordered_successors(&self, u: UnitHandle, rank_vec: &Vec<UnitHandle>, use_rank: bool) -> (r: Vec<UnitHandle>)
        requires
            self.unit_valid(u),
            use_rank ==> forall|k: int| 0 <= k < self.unit_succs(u).len() ==> rank_vec@.contains(#[trigger] self.unit_succs(u)[k]),
        ensures
            r@.to_multiset() == self.unit_succs(u).to_multiset(),
            !use_rank ==> r@ == self.unit_succs(u),
            use_rank ==> sorted_by_position(r@, rank_vec@),
            r@ == succ_order(self, rank_vec@, use_rank, u),
    {
        let succs = u.successors(self);
        if !use_rank {
            return succs;
        }
        let r = sort_by_position(&succs, rank_vec);
        proof {
            broadcast use vstd::seq_lib::group_to_multiset_ensures;
            let c = succ_order(self, rank_vec@, use_rank, u);
            assert(r@.to_multiset() == self.unit_succs(u).to_multiset() && sorted_by_position(r@, rank_vec@));
            assert(c.to_multiset() == self.unit_succs(u).to_multiset() && sorted_by_position(c, rank_vec@));
            assert forall|k: int| 0 <= k < r@.len() implies rank_vec@.contains(#[trigger] r@[k]) by {
                assert(r@.contains(r@[k]));
                assert(r@.to_multiset().count(r@[k]) > 0);
                assert(self.unit_succs(u).contains(r@[k]));
                let m = choose|m: int| 0 <= m < self.unit_succs(u).len() && self.unit_succs(u)[m] == r@[k];
                assert(rank_vec@.contains(self.unit_succs(u)[m]));
            }
            lemma_sorted_unique(r@, c, rank_vec@);
        }
        r
    }

    /// Depth-first walk of subgraph `s` from its sources; the units are
    /// returned in reverse post-order.
    fn dfs_order(&self, s: SubgraphHandle, rank_vec: &Vec<UnitHandle>, use_rank: bool) -> (r: Vec<UnitHandle>)
        requires
            self.wf(),
            self.subgraph_valid(s),
            self.subgraph_closed(s),
            use_rank ==> forall|u: UnitHandle, k: int| self.is_member(s, u) && 0 <= k < self.unit_succs(u).len()
                ==> rank_vec@.contains(#[trigger] self.unit_succs(u)[k]),
        ensures
            self.is_reach_order(s, r@),
            self.units_acyclic(s) ==> self.is_topological(r@),
            r@ == walk_result(self, rank_vec@, use_rank, walk_start(self, s)),
    {
        broadcast use vstd::seq_lib::group_to_multiset_ensures;
        let mut order: Vec<UnitHandle> = Vec::new();
        let mut visited: UnitMap<bool> = UnitMap::new();
        let mut worklist: Vec<(UnitHandle, bool)> = Vec::new();
        let ghost members = self.members(s);
        let ghost mset = members.to_set();

        let nn = self.subgraphs[s.idx].nodes.len();
        proof {
            assert(members.take(0) =~= Seq::<UnitHandle>::empty());
        }
        let mut i: usize = 0;
        while i < nn
            invariant
                self.wf(),
                self.subgraph_valid(s),
                members == self.members(s),
                nn == self.member_nodes(s).len(),
                i <= nn,
                order@.len() == 0,
                forall|u: UnitHandle| #[trigger] visited@.contains_key(u) ==> self.is_member(s, u) && !visited@[u],
                forall|k: int| 0 <= k < i ==> #[trigger] visited@.contains_key(UnitHandle::Node(self.member_nodes(s)[k])),
                forall|k: int| 0 <= k < worklist@.len() ==> !(#[trigger] worklist@[k]).1 && self.is_source(s, worklist@[k].0),
                forall|k: int| 0 <= k < i && self.is_source(s, UnitHandle::Node(#[trigger] self.member_nodes(s)[k]))
                    ==> wl_has(worklist@, UnitHandle::Node(self.member_nodes(s)[k])),
                worklist@ == source_entries(self, members.take(i as int)),
            decreases nn - i,
        {
            let n = self.subgraphs[s.idx].nodes[i];
            let u = UnitHandle::new_node(n);
            proof {
                assert(members[i as int] == u);
                assert(self.is_member(s, u));
                self.lemma_member_valid(s, u);
                assert(members.take(i as int + 1).drop_last() =~= members.take(i as int));
                assert(members.take(i as int + 1).last() == u);
            }
            let ghost wl0 = worklist@;
            if u.predecessors(self).len() == 0 {
                worklist.push((u, false));
                proof {
                    assert(worklist@[wl0.len() as int].0 == u);
                }
            }
            visited.insert(u, false);
            proof {
                assert forall|k: int| 0 <= k < i && self.is_source(s, UnitHandle::Node(#[trigger] self.member_nodes(s)[k]))
                    implies wl_has(worklist@, UnitHandle::Node(self.member_nodes(s)[k])) by {
                    let v = UnitHandle::Node(self.member_nodes(s)[k]);
                    let m = choose|m: int| 0 <= m < wl0.len() && (#[trigger] wl0[m]).0 == v;
                    assert(worklist@[m] == wl0[m]);
                }
            }
            i = i + 1;
        }
        let ns = self.subgraphs[s.idx].subgraphs.len();
        let mut j: usize = 0;
        while j < ns
            invariant
                self.wf(),
                self.subgraph_valid(s),
                members == self.members(s),
                nn == self.member_nodes(s).len(),
                ns == self.member_subgraphs(s).len(),
                j <= ns,
                order@.len() == 0,
                forall|u: UnitHandle| #[trigger] visited@.contains_key(u) ==> self.is_member(s, u) && !visited@[u],
                forall|k: int| 0 <= k < nn ==> #[trigger] visited@.contains_key(UnitHandle::Node(self.member_nodes(s)[k])),
                forall|k: int| 0 <= k < j ==> #[trigger] visited@.contains_key(UnitHandle::Subgraph(self.member_subgraphs(s)[k])),
                forall|k: int| 0 <= k < worklist@.len() ==> !(#[trigger] worklist@[k]).1 && self.is_source(s, worklist@[k].0),
                forall|k: int| 0 <= k < nn && self.is_source(s, UnitHandle::Node(#[trigger] self.member_nodes(s)[k]))
                    ==> wl_has(worklist@, UnitHandle::Node(self.member_nodes(s)[k])),
                forall|k: int| 0 <= k < j && self.is_source(s, UnitHandle::Subgraph(#[trigger] self.member_subgraphs(s)[k]))
                    ==> wl_has(worklist@, UnitHandle::Subgraph(self.member_subgraphs(s)[k])),
                worklist@ == source_entries(self, members.take(nn + j)),
            decreases ns - j,
        {
            let t = self.subgraphs[s.idx].subgraphs[j];
            let u = UnitHandle::new_subgraph(t);
            proof {
                assert(members[nn + j] == u);
                assert(self.is_member(s, u));
                self.lemma_member_valid(s, u);
                assert(members.take(nn + j + 1).drop_last() =~= members.take(nn + j));
                assert(members.take(nn + j + 1).last() == u);
            }
            let ghost wl0 = worklist@;
            if u.predecessors(self).len() == 0 {
                worklist.push((u, false));
                proof {
                    assert(worklist@[wl0.len() as int].0 == u);
                }
            }
            visited.insert(u, false);
            proof {
                assert forall|k: int| 0 <= k < nn && self.is_source(s, UnitHandle::Node(#[trigger] self.member_nodes(s)[k]))
                    implies wl_has(worklist@, UnitHandle::Node(self.member_nodes(s)[k])) by {
                    let v = UnitHandle::Node(self.member_nodes(s)[k]);
                    let m = choose|m: int| 0 <= m < wl0.len() && (#[trigger] wl0[m]).0 == v;
                    assert(worklist@[m] == wl0[m]);
                }
                assert forall|k: int| 0 <= k < j && self.is_source(s, UnitHandle::Subgraph(#[trigger] self.member_subgraphs(s)[k]))
                    implies wl_has(worklist@, UnitHandle::Subgraph(self.member_subgraphs(s)[k])) by {
                    let v = UnitHandle::Subgraph(self.member_subgraphs(s)[k]);
                    let m = choose|m: int| 0 <= m < wl0.len() && (#[trigger] wl0[m]).0 == v;
                    assert(worklist@[m] == wl0[m]);
                }
            }
            j = j + 1;
        }
        proof {
            // Every member has an entry, and every source is in the worklist.
            assert forall|u: UnitHandle| self.is_member(s, u) implies #[trigger] visited@.contains_key(u) by {
                let k = choose|k: int| 0 <= k < members.len() && members[k] == u;
                if k < nn {
                    assert(members[k] == UnitHandle::Node(self.member_nodes(s)[k]));
                } else {
                    assert(members[k] == UnitHandle::Subgraph(self.member_subgraphs(s)[k - nn]));
                }
            }
            assert forall|u: UnitHandle| self.is_source(s, u) implies wl_has(worklist@, u) by {
                let k = choose|k: int| 0 <= k < members.len() && members[k] == u;
                if k < nn {
                    assert(members[k] == UnitHandle::Node(self.member_nodes(s)[k]));
                } else {
                    assert(members[k] == UnitHandle::Subgraph(self.member_subgraphs(s)[k - nn]));
                }
            }
            assert forall|k: int| 0 <= k < worklist@.len() implies self.from_source(s, (#[trigger] worklist@[k]).0) by {
                crate::reach::lemma_unit_reaches_self(self, worklist@[k].0);
            }
            assert(members.take(nn + ns) =~= members);
            assert(visited@ =~= walk_start(self, s).1);
            assert(order@ =~= Seq::<UnitHandle>::empty());
        }
        self.dfs_loop(s, rank_vec, use_rank, order, visited, worklist)
    }
}


/// The units of `s` come in the order of their first positions in `rv`.
pub open spec fn sorted_by_position(s: Seq<UnitHandle>, rv: Seq<UnitHandle>) -> bool {
    forall|i: int, j: int| 0 <= i < j < s.len() ==> crate::seqs::first_index(rv, #[trigger] s[i]) <= crate::seqs::first_index(rv, #[trigger] s[j])
}

/// The first position of `x` in `rv`.
fn position_in(rv: &Vec<UnitHandle>, x: UnitHandle) -> (r: usize)
    requires
        rv@.contains(x),
    ensures
        r == crate::seqs::first_index(rv@, x),
        r < rv@.len(),
{
    let mut i: usize = 0;
    while i < rv.len()
        invariant
            i <= rv.len(),
            rv@.contains(x),
            forall|j: int| 0 <= j < i ==> rv@[j] != x,
        decreases rv.len() - i,
    {
        if rv[i] == x {
            proof { crate::seqs::lemma_first_index(rv@, x, i as int); }
            return i;
        }
        i = i + 1;
    }
    proof {
        let k = choose|k: int| 0 <= k < rv@.len() && rv@[k] == x;
        assert(rv@[k] == x);
    }
    0
}

/// A stable sort of `v` by the first positions of its units in `rv`.
fn sort_by_position(v: &Vec<UnitHandle>, rv: &Vec<UnitHandle>) -> (r: Vec<UnitHandle>)
    requires
        forall|k: int| 0 <= k < v@.len() ==> rv@.contains(#[trigger] v@[k]),
    ensures
        r@.to_multiset() == v@.to_multiset(),
        sorted_by_position(r@, rv@),
{
    broadcast use vstd::seq_lib::group_to_multiset_ensures;
    let mut r: Vec<UnitHandle> = Vec::new();
    let mut keys: Vec<usize> = Vec::new();
    let mut i: usize = 0;
    while i < v.len()
        invariant
            i <= v.len(),
            forall|k: int| 0 <= k < v@.len() ==> rv@.contains(#[trigger] v@[k]),
            r@.to_multiset() == v@.take(i as int).to_multiset(),
            keys@.len() == r@.len(),
            forall|k: int| 0 <= k < r@.len() ==> #[trigger] keys@[k] == crate::seqs::first_index(rv@, r@[k]),
            sorted_by_position(r@, rv@),
        decreases v.len() - i,
    {
        let x = v[i];
        let kx = position_in(rv, x);
        let mut p: usize = 0;
        while p < r.len() && keys[p] <= kx
            invariant
                p <= r@.len(),
                keys@.len() == r@.len(),
                forall|k: int| 0 <= k < p ==> #[trigger] keys@[k] <= kx,
            decreases r@.len() - p,
        {
            p = p + 1;
        }
        let ghost r0 = r@;
        let ghost k0 = keys@;
        r.insert(p, x);
        keys.insert(p, kx);
        proof {
            let aa = r0.subrange(0, p as int);
            let bb = r0.subrange(p as int, r0.len() as int);
            assert(r@ =~= aa.push(x) + bb);
            assert(r0 =~= aa + bb);
            vstd::seq_lib::lemma_multiset_commutative(aa.push(x), bb);
            vstd::seq_lib::lemma_multiset_commutative(aa, bb);
            vstd::seq_lib::to_multiset_build(aa, x);
            vstd::seq_lib::to_multiset_build(v@.take(i as int), x);
            assert(v@.take(i as int + 1) =~= v@.take(i as int).push(x));
            assert(v@.take(i as int + 1).to_multiset() =~= v@.take(i as int).to_multiset().insert(x));
            assert(r@.to_multiset() =~= r0.to_multiset().insert(x));
            assert forall|k: int| 0 <= k < r@.len() implies #[trigger] keys@[k] == crate::seqs::first_index(rv@, r@[k]) by {
                if k < p {
                    assert(keys@[k] == k0[k] && r@[k] == r0[k]);
                } else if k > p {
                    assert(keys@[k] == k0[k - 1] && r@[k] == r0[k - 1]);
                }
            }
            assert forall|a: int, b: int| 0 <= a < b < r@.len() implies crate::seqs::first_index(rv@, #[trigger] r@[a]) <= crate::seqs::first_index(rv@, #[trigger] r@[b]) by {
                assert(keys@[a] == crate::seqs::first_index(rv@, r@[a]));
                assert(keys@[b] == crate::seqs::first_index(rv@, r@[b]));
                if b < p {
                    assert(r@[a] == r0[a] && r@[b] == r0[b]);
                } else if b == p {
                    assert(keys@[a] == k0[a]);
                } else if a == p {
                    assert(keys@[b] == k0[b - 1]);
                    if p < k0.len() {
                        assert(!(k0[p as int] <= kx));
                        if b - 1 > p {
                            assert(r0[p as int] == r@[p + 1]);
                            assert(k0[p as int] == crate::seqs::first_index(rv@, r0[p as int]));
                            assert(crate::seqs::first_index(rv@, r0[p as int]) <= crate::seqs::first_index(rv@, r0[b - 1]));
                        }
                    }
                } else if a < p {
                    assert(keys@[a] == k0[a]);
                    assert(keys@[b] == k0[b - 1]);
                    assert(r@[a] == r0[a] && r@[b] == r0[b - 1]);
                } else {
                    assert(r@[a] == r0[a - 1] && r@[b] == r0[b - 1]);
                }
            }
        }
        i = i + 1;
    }
    proof { assert(v@.take(i as int) =~= v@); }
    r
}


/// Two orderings of the same units, both sorted by their first positions in
/// `rv`, are the same ordering.
pub proof fn lemma_sorted_unique(a: Seq<UnitHandle>, b: Seq<UnitHandle>, rv: Seq<UnitHandle>)
    requires
        a.to_multiset() == b.to_multiset(),
        sorted_by_position(a, rv),
        sorted_by_position(b, rv),
        forall|k: int| 0 <= k < a.len() ==> rv.contains(#[trigger] a[k]),
    ensures
        a == b,
    decreases a.len(),
{
    broadcast use vstd::seq_lib::group_to_multiset_ensures;
    vstd::seq_lib::to_multiset_len(a);
    vstd::seq_lib::to_multiset_len(b);
    assert(a.len() == b.len());
    if a.len() > 0 {
        let x = a[0];
        let y = b[0];
        assert(b.contains(y));
        assert(a.to_multiset().count(y) > 0);
        assert(a.contains(y));
        let i = choose|i: int| 0 <= i < a.len() && a[i] == y;
        assert(a.to_multiset().count(x) > 0);
        assert(b.contains(x));
        let j = choose|j: int| 0 <= j < b.len() && b[j] == x;
        if i > 0 {
            assert(crate::seqs::first_index(rv, a[0]) <= crate::seqs::first_index(rv, a[i]));
        }
        if j > 0 {
            assert(crate::seqs::first_index(rv, b[0]) <= crate::seqs::first_index(rv, b[j]));
        }
        assert(rv.contains(x));
        assert(rv.contains(y));
        crate::dag::lemma_first_index_in(rv, x);
        crate::dag::lemma_first_index_in(rv, y);
        assert(x == y);
        let a1 = a.drop_first();
        let b1 = b.drop_first();
        assert(a1 == a.remove(0));
        assert(b1 == b.remove(0));
        assert(a1.to_multiset() == b1.to_multiset());
        assert forall|p: int, q: int| 0 <= p < q < a1.len() implies
            crate::seqs::first_index(rv, #[trigger] a1[p]) <= crate::seqs::first_index(rv, #[trigger] a1[q]) by {
            assert(a1[p] == a[p + 1] && a1[q] == a[q + 1]);
        }
        assert forall|p: int, q: int| 0 <= p < q < b1.len() implies
            crate::seqs::first_index(rv, #[trigger] b1[p]) <= crate::seqs::first_index(rv, #[trigger] b1[q]) by {
            assert(b1[p] == b[p + 1] && b1[q] == b[q + 1]);
        }
        assert forall|k: int| 0 <= k < a1.len() implies rv.contains(#[trigger] a1[k]) by {
            assert(a1[k] == a[k + 1]);
        }
        lemma_sorted_unique(a1, b1, rv);
        assert(a =~= b) by {
            assert forall|k: int| 0 <= k < a.len() implies a[k] == b[k] by {
                if k > 0 {
                    assert(a[k] == a1[k - 1] && b[k] == b1[k - 1]);
                }
            }
        }
    }
}

/// The successors of `u` in the order the walk visits them: as listed, or
/// sorted by their first positions in `rv`.
pub open spec fn succ_order(dag: &DAG, rv: Seq<UnitHandle>, use_rank: bool, u: UnitHandle) -> Seq<UnitHandle> {
    if use_rank {
        choose|r: Seq<UnitHandle>| r.to_multiset() == dag.unit_succs(u).to_multiset() && sorted_by_position(r, rv)
    } else {
        dag.unit_succs(u)
    }
}

/// The state of the walk: the units finished (post-order), the units seen,
/// and the worklist of units to visit (`false`) or to finish (`true`).
pub type WalkState = (Seq<UnitHandle>, Map<UnitHandle, bool>, Seq<(UnitHandle, bool)>);

/// One step of the walk: take the top of the worklist; finish it, skip it
/// when seen, or mark it seen and put it back to be finished above its
/// successors, in the order `succ_order` gives them.
pub open spec fn walk_step(dag: &DAG, rv: Seq<UnitHandle>, use_rank: bool, st: WalkState) -> WalkState {
    if st.2.len() == 0 {
        st
    } else {
        let top = st.2.last();
        let rest = st.2.drop_last();
        if top.1 {
            (st.0.push(top.0), st.1, rest)
        } else if st.1[top.0] {
            (st.0, st.1, rest)
        } else {
            (st.0, st.1.insert(top.0, true), rest.push((top.0, true)) + crate::topo_order::pending(succ_order(dag, rv, use_rank, top.0)))
        }
    }
}

/// The state after `n` steps of the walk from `st`.
pub open spec fn walk_run(dag: &DAG, rv: Seq<UnitHandle>, use_rank: bool, st: WalkState, n: nat) -> WalkState
    decreases n,
{
    if n == 0 {
        st
    } else {
        walk_step(dag, rv, use_rank, walk_run(dag, rv, use_rank, st, (n - 1) as nat))
    }
}

/// Once the worklist is empty the walk stays where it is.
pub proof fn lemma_walk_stays(dag: &DAG, rv: Seq<UnitHandle>, use_rank: bool, st: WalkState, a: nat, b: nat)
    requires
        walk_run(dag, rv, use_rank, st, a).2.len() == 0,
        a <= b,
    ensures
        walk_run(dag, rv, use_rank, st, b) == walk_run(dag, rv, use_rank, st, a),
    decreases b - a,
{
    if b > a {
        lemma_walk_stays(dag, rv, use_rank, st, a, (b - 1) as nat);
    }
}

/// The reverse post-order that the walk from `st` ends with.
pub open spec fn walk_result(dag: &DAG, rv: Seq<UnitHandle>, use_rank: bool, st: WalkState) -> Seq<UnitHandle> {
    let n = choose|n: nat| walk_run(dag, rv, use_rank, st, n).2.len() == 0;
    walk_run(dag, rv, use_rank, st, n).0.reverse()
}

/// A walk that empties its worklist after `n` steps ends with its result.
pub proof fn lemma_walk_result(dag: &DAG, rv: Seq<UnitHandle>, use_rank: bool, st: WalkState, n: nat)
    requires
        walk_run(dag, rv, use_rank, st, n).2.len() == 0,
    ensures
        walk_result(dag, rv, use_rank, st) == walk_run(dag, rv, use_rank, st, n).0.reverse(),
{
    let m = choose|m: nat| walk_run(dag, rv, use_rank, st, m).2.len() == 0;
    if m <= n {
        lemma_walk_stays(dag, rv, use_rank, st, m, n);
    } else {
        lemma_walk_stays(dag, rv, use_rank, st, n, m);
    }
}

/// The sources of `ms`, in order, each to be visited.
pub open spec fn source_entries(dag: &DAG, ms: Seq<UnitHandle>) -> Seq<(UnitHandle, bool)>
    decreases ms.len(),
{
    if ms.len() == 0 {
        Seq::empty()
    } else {
        let r = source_entries(dag, ms.drop_last());
        if dag.unit_preds(ms.last()).len() == 0 {
            r.push((ms.last(), false))
        } else {
            r
        }
    }
}

/// Where the walk of subgraph `s` starts: nothing finished, every member
/// unseen, and the sources of `s` to visit, in the order of its members.
pub open spec fn walk_start(dag: &DAG, s: SubgraphHandle) -> WalkState {
    (Seq::empty(), Map::new(|u: UnitHandle| dag.is_member(s, u), |u: UnitHandle| false), source_entries(dag, dag.members(s)))
}

impl DAG {
    /// The invariant of the depth-first walk of subgraph `s`.
    pub open(crate) spec fn dfs_inv(
        &self,
        s: SubgraphHandle,
        order: Seq<UnitHandle>,
        vis: Map<UnitHandle, bool>,
        wl: Seq<(UnitHandle, bool)>,
    ) -> bool {
        &&& forall|u: UnitHandle| #[trigger] vis.contains_key(u) <==> self.is_member(s, u)
        &&& forall|k: int| 0 <= k < wl.len() ==> self.is_member(s, (#[trigger] wl[k]).0) && self.from_source(s, wl[k].0)
        &&& forall|k: int| 0 <= k < order.len() ==> self.is_member(s, #[trigger] order[k]) && self.from_source(s, order[k])
        &&& forall|u: UnitHandle| #[trigger] vis.contains_key(u) ==> (vis[u] <==> (order.contains(u) || wl.contains((u, true))))
        &&& forall|u: UnitHandle, k: int|
            (order.contains(u) || wl.contains((u, true))) && 0 <= k < self.unit_succs(u).len() ==>
                vis[#[trigger] self.unit_succs(u)[k]] || wl_has(wl, self.unit_succs(u)[k])
        &&& forall|r: UnitHandle| #[trigger] self.is_source(s, r) ==> vis[r] || wl_has(wl, r)
        &&& order.no_duplicates()
        &&& forall|u: UnitHandle| #[trigger] wl.contains((u, true)) ==> !order.contains(u)
        &&& forall|a: int, b: int| 0 <= a < b < wl.len() && (#[trigger] wl[a]).1 && (#[trigger] wl[b]).1 ==> wl[a].0 != wl[b].0
    }

    /// The main loop of the depth-first walk: pops the worklist until it is
    /// empty, then returns the post-order reversed.
    fn dfs_loop(
        &self,
        s: SubgraphHandle,
        rank_vec: &Vec<UnitHandle>,
        use_rank: bool,
        order: Vec<UnitHandle>,
        visited: UnitMap<bool>,
        worklist: Vec<(UnitHandle, bool)>,
    ) -> (r: Vec<UnitHandle>)
        requires
            self.wf(),
            self.subgraph_valid(s),
            self.subgraph_closed(s),
            use_rank ==> forall|u: UnitHandle, k: int| self.is_member(s, u) && 0 <= k < self.unit_succs(u).len()
                ==> rank_vec@.contains(#[trigger] self.unit_succs(u)[k]),
            order@.len() == 0,
            forall|u: UnitHandle| self.is_member(s, u) ==> #[trigger] visited@.contains_key(u),
            forall|u: UnitHandle| #[trigger] visited@.contains_key(u) ==> self.is_member(s, u) && !visited@[u],
            forall|k: int| 0 <= k < worklist@.len() ==> !(#[trigger] worklist@[k]).1 && self.is_source(s, worklist@[k].0)
                && self.from_source(s, worklist@[k].0),
            forall|u: UnitHandle| self.is_source(s, u) ==> wl_has(worklist@, u),
        ensures
            self.is_reach_order(s, r@),
            self.units_acyclic(s) ==> self.is_topological(r@),
            r@ == walk_result(self, rank_vec@, use_rank, (order@, visited@, worklist@)),
    {
        broadcast use vstd::seq_lib::group_to_multiset_ensures;
        let ghost topo = self.units_acyclic(s);
        let ghost start: WalkState = (order@, visited@, worklist@);
        let ghost mut steps: nat = 0;
        proof {
            if topo {
                self.lemma_topo_start(worklist@);
                assert(order@ =~= Seq::<UnitHandle>::empty());
            }
        }
        let mut order = order;
        let mut visited = visited;
        let mut worklist = worklist;
        let ghost mset = self.members(s).to_set();
        let ghost mut vis: Set<UnitHandle> = Set::empty();
        proof {
            assert forall|u: UnitHandle| #[trigger] visited@.contains_key(u) implies
                (visited@[u] <==> (order@.contains(u) || worklist@.contains((u, true)))) by {
                if worklist@.contains((u, true)) {
                    let k = choose|k: int| 0 <= k < worklist@.len() && worklist@[k] == (u, true);
                    assert(!worklist@[k].1);
                }
            }
            assert forall|u: UnitHandle| #[trigger] worklist@.contains((u, true)) implies !order@.contains(u) by {}
            assert forall|u: UnitHandle, k: int|
                (order@.contains(u) || worklist@.contains((u, true))) && 0 <= k < self.unit_succs(u).len() implies
                    visited@[#[trigger] self.unit_succs(u)[k]] || wl_has(worklist@, self.unit_succs(u)[k]) by {
                if worklist@.contains((u, true)) {
                    let m = choose|m: int| 0 <= m < worklist@.len() && worklist@[m] == (u, true);
                    assert(!worklist@[m].1);
                }
            }
            assert forall|k: int| 0 <= k < worklist@.len() implies self.is_member(s, (#[trigger] worklist@[k]).0) && self.from_source(s, worklist@[k].0) by {}
            assert(self.dfs_inv(s, order@, visited@, worklist@));
            assert forall|u: UnitHandle| #[trigger] vis.contains(u) <==> self.is_member(s, u) && visited@[u] by {
                if self.is_member(s, u) {
                    assert(visited@.contains_key(u));
                }
            }
        }
        while worklist.len() > 0
            invariant
                self.wf(),
                self.subgraph_valid(s),
                self.subgraph_closed(s),
                use_rank ==> forall|u: UnitHandle, k: int| self.is_member(s, u) && 0 <= k < self.unit_succs(u).len()
                    ==> rank_vec@.contains(#[trigger] self.unit_succs(u)[k]),
                mset == self.members(s).to_set(),
                mset.finite(),
                self.dfs_inv(s, order@, visited@, worklist@),
                topo == (self.units_acyclic(s)),
                topo ==> self.dfs_topo_inv(order@, worklist@),
                forall|u: UnitHandle| #[trigger] vis.contains(u) <==> self.is_member(s, u) && visited@[u],
                vis.subset_of(mset),
                (order@, visited@, worklist@) == walk_run(self, rank_vec@, use_rank, start, steps),
            decreases mset.len() - vis.len(), worklist@.len(),
        {
            proof { vstd::set_lib::lemma_len_subset(vis, mset); }
            let ghost wl0 = worklist@;
            let ghost v0 = visited@;
            let ghost o0 = order@;
            proof { steps = steps + 1; }
            let (current, cmd) = worklist.pop().unwrap();
            proof {
                assert(wl0 == worklist@.push((current, cmd)));
                assert(wl0[wl0.len() - 1] == (current, cmd));
                assert(self.is_member(s, current));
            }
            if cmd {
                order.push(current);
                proof {
                    self.lemma_dfs_pop_keeps(s, o0, order@, v0, wl0, worklist@, current, cmd);
                    if topo {
                        assert(wl0.drop_last() =~= worklist@);
                        self.lemma_topo_finish(s, o0, wl0, current);
                    }
                }
                continue;
            }
            let seen = visited.get(current).unwrap();
            if seen {
                proof {
                    assert(o0 == order@);
                    self.lemma_dfs_pop_keeps(s, o0, order@, v0, wl0, worklist@, current, cmd);
                    if topo {
                        assert(wl0.drop_last() =~= worklist@);
                        assert(v0.contains_key(current));
                        self.lemma_topo_skip(o0, wl0, current);
                    }
                }
                continue;
            }
            visited.insert(current, true);
            proof {
                assert(!vis.contains(current));
                assert(self.members(s).contains(current));
                vis = vis.insert(current);
                assert forall|u: UnitHandle| #[trigger] vis.contains(u) <==> self.is_member(s, u) && visited@[u] by {
                    if u != current && self.is_member(s, u) {
                        assert(v0.contains_key(u));
                        assert(visited@[u] == v0[u]);
                    }
                }
                assert(vis.subset_of(mset));
                vstd::set_lib::lemma_len_subset(vis, mset);
            }
            worklist.push((current, true));
            let ghost wl1 = worklist@;
            proof {
                self.lemma_member_valid(s, current);
            }
            let successors = self.ordered_successors(current, rank_vec, use_rank);
            proof {
                assert forall|k: int| 0 <= k < successors@.len() implies self.unit_succs(current).contains(#[trigger] successors@[k]) by {
                    successors@.to_multiset_ensures();
                    self.unit_succs(current).to_multiset_ensures();
                    assert(successors@.contains(successors@[k]));
                    assert(successors@.to_multiset().count(successors@[k]) > 0);
                }
            }
            let mut e: usize = 0;
            proof {
                assert(wl1 + crate::topo_order::pending(successors@.take(0)) =~= wl1);
            }
            while e < successors.len()
                invariant
                    self.wf(),
                    self.subgraph_valid(s),
                    self.subgraph_closed(s),
                    self.is_member(s, current),
                    self.from_source(s, current),
                    forall|k: int| 0 <= k < successors@.len() ==> self.unit_succs(current).contains(#[trigger] successors@[k]),
                    e <= successors@.len(),
                    worklist@.len() >= wl1.len(),
                    worklist@.subrange(0, wl1.len() as int) == wl1,
                    forall|k: int| wl1.len() <= k < worklist@.len() ==> !(#[trigger] worklist@[k]).1
                        && self.is_member(s, worklist@[k].0) && self.from_source(s, worklist@[k].0),
                    forall|k: int| 0 <= k < e ==> wl_has(worklist@, #[trigger] successors@[k]),
                    topo == (self.units_acyclic(s)),
                    worklist@ == wl1 + crate::topo_order::pending(successors@.take(e as int)),
                decreases successors@.len() - e,
            {
                let edge = successors[e];
                proof {
                    assert(self.unit_succs(current).contains(edge));
                    let m = choose|m: int| 0 <= m < self.unit_succs(current).len() && self.unit_succs(current)[m] == edge;
                    assert(self.is_member(s, self.unit_succs(current)[m]));
                    lemma_unit_reaches_after(self, s, current, edge);
                }
                let ghost wlb = worklist@;
                worklist.push((edge, false));
                proof { assert(worklist@[wlb.len() as int].0 == edge); }
                proof {
                    assert(worklist@.subrange(0, wl1.len() as int) =~= wl1) by {
                        assert forall|k: int| 0 <= k < wl1.len() implies worklist@[k] == wlb[k] by {}
                    }
                    assert forall|k: int| 0 <= k < e + 1 implies wl_has(worklist@, #[trigger] successors@[k]) by {
                        if k < e {
                            let m = choose|m: int| 0 <= m < wlb.len() && (#[trigger] wlb[m]).0 == successors@[k];
                            assert(worklist@[m] == wlb[m]);
                        }
                    }
                    assert(successors@.take(e as int + 1) =~= successors@.take(e as int).push(edge));
                    assert(crate::topo_order::pending(successors@.take(e as int + 1))
                        =~= crate::topo_order::pending(successors@.take(e as int)).push((edge, false)));
                    assert(worklist@ =~= wl1 + crate::topo_order::pending(successors@.take(e as int + 1)));
                }
                e = e + 1;
            }
            proof {
                self.lemma_dfs_expand_keeps(s, o0, v0, wl0, wl1, worklist@, visited@, current, successors@);
                if topo {
                    assert(successors@.take(successors@.len() as int) =~= successors@);
                    assert forall|k: int| 0 <= k < wl0.len() implies self.unit_valid(#[trigger] wl0[k].0) by {
                        self.lemma_member_valid(s, wl0[k].0);
                    }
                    assert forall|v: UnitHandle| #[trigger] self.unit_succs(current).contains(v) implies successors@.contains(v) by {
                        successors@.to_multiset_ensures();
                        self.unit_succs(current).to_multiset_ensures();
                        assert(self.unit_succs(current).to_multiset().count(v) > 0);
                        assert(successors@.to_multiset().count(v) > 0);
                    }
                    self.lemma_topo_expand(o0, wl0, current, successors@, worklist@);
                }
            }
        }
        proof {
            assert forall|v: UnitHandle| order@.contains(v) <==> self.from_source(s, v) by {
                if self.from_source(s, v) {
                    let r = choose|r: UnitHandle| self.is_source(s, r) && unit_reaches(self, r, v);
                    self.lemma_closed_reach(s, order@, visited@, r, v);
                }
                if order@.contains(v) {
                    let k = choose|k: int| 0 <= k < order@.len() && order@[k] == v;
                    assert(self.from_source(s, order@[k]));
                }
            }
        }
        let r = reversed(&order);
        proof {
            lemma_walk_result(self, rank_vec@, use_rank, start, steps);
            if topo {
                self.lemma_topo_reverse(order@);
            }
            assert forall|v: UnitHandle| r@.contains(v) <==> order@.contains(v) by {
                if r@.contains(v) {
                    let k = choose|k: int| 0 <= k < r@.len() && r@[k] == v;
                    assert(order@[order@.len() - 1 - k] == v);
                }
                if order@.contains(v) {
                    let k = choose|k: int| 0 <= k < order@.len() && order@[k] == v;
                    assert(r@[order@.len() - 1 - k] == v);
                }
            }
            assert forall|a: int, b: int| 0 <= a < b < r@.len() implies r@[a] != r@[b] by {
                assert(r@[a] == order@[order@.len() - 1 - a]);
                assert(r@[b] == order@[order@.len() - 1 - b]);
            }
        }
        r
    }
}


/// A unit reached by an edge from a unit that a source reaches is reached by
/// that source as well.
pub proof fn lemma_unit_reaches_after(dag: &DAG, s: SubgraphHandle, u: UnitHandle, v: UnitHandle)
    requires
        dag.from_source(s, u),
        dag.unit_valid(u),
        dag.unit_succs(u).contains(v),
    ensures
        dag.from_source(s, v),
{
    let r = choose|r: UnitHandle| dag.is_source(s, r) && unit_reaches(dag, r, u);
    lemma_unit_reaches_append(dag, r, u, v);
}

impl DAG {
    proof fn lemma_dfs_pop_keeps(
        &self,
        s: SubgraphHandle,
        o0: Seq<UnitHandle>,
        o1: Seq<UnitHandle>,
        v0: Map<UnitHandle, bool>,
        wl0: Seq<(UnitHandle, bool)>,
        wl1: Seq<(UnitHandle, bool)>,
        current: UnitHandle,
        cmd: bool,
    )
        requires
            self.dfs_inv(s, o0, v0, wl0),
            wl0 == wl1.push((current, cmd)),
            cmd ==> o1 == o0.push(current),
            !cmd ==> o1 == o0 && v0.contains_key(current) && v0[current],
        ensures
            self.dfs_inv(s, o1, v0, wl1),
    {
        assert forall|k: int| 0 <= k < wl1.len() implies self.is_member(s, (#[trigger] wl1[k]).0) && self.from_source(s, wl1[k].0) by {
            assert(wl0[k] == wl1[k]);
        }
        assert(wl0[wl0.len() - 1] == (current, cmd));
        assert(self.is_member(s, current) && self.from_source(s, current));
        assert forall|k: int| 0 <= k < o1.len() implies self.is_member(s, #[trigger] o1[k]) && self.from_source(s, o1[k]) by {
            if k < o0.len() {
                assert(o1[k] == o0[k]);
            }
        }
        assert forall|u: UnitHandle| wl1.contains((u, true)) implies wl0.contains((u, true)) by {
            let k = choose|k: int| 0 <= k < wl1.len() && wl1[k] == (u, true);
            assert(wl0[k] == (u, true));
        }
        if cmd {
            assert(wl0.contains((current, true)));
            assert(!o0.contains(current));
            assert forall|u: UnitHandle| wl1.contains((u, true)) implies u != current by {
                let k = choose|k: int| 0 <= k < wl1.len() && wl1[k] == (u, true);
                assert(wl0[k] == (u, true));
                if u == current {
                    assert(wl0[k].1 && wl0[wl0.len() - 1].1);
                }
            }
        }
        assert forall|u: UnitHandle| #[trigger] v0.contains_key(u) implies (v0[u] <==> (o1.contains(u) || wl1.contains((u, true)))) by {
            if o1.contains(u) && !o0.contains(u) {
                assert(u == current);
            }
            if v0[u] {
                if !o0.contains(u) {
                    assert(wl0.contains((u, true)));
                    let k = choose|k: int| 0 <= k < wl0.len() && wl0[k] == (u, true);
                    if k < wl1.len() {
                        assert(wl1[k] == (u, true));
                    } else {
                        assert(cmd && u == current);
                        assert(o1.contains(u)) by { assert(o1[o1.len() - 1] == u); }
                    }
                }
            }
            if o0.contains(u) {
                let k = choose|k: int| 0 <= k < o0.len() && o0[k] == u;
                assert(o1[k] == u);
            }
        }
        assert forall|u: UnitHandle, k: int|
            (o1.contains(u) || wl1.contains((u, true))) && 0 <= k < self.unit_succs(u).len() implies
                v0[#[trigger] self.unit_succs(u)[k]] || wl_has(wl1, self.unit_succs(u)[k]) by {
            let v = self.unit_succs(u)[k];
            if o1.contains(u) && !o0.contains(u) {
                assert(u == current);
                assert(wl0.contains((current, true)));
            }
            if o0.contains(u) {
            }
            assert(o0.contains(u) || wl0.contains((u, true)));
            if !v0[v] {
                let m = choose|m: int| 0 <= m < wl0.len() && (#[trigger] wl0[m]).0 == v;
                if m < wl1.len() {
                    assert(wl1[m] == wl0[m]);
                } else {
                    assert(v == current);
                    assert(v0.contains_key(current));
                    assert(v0[current]) by {
                        if !cmd {
                        } else {
                            assert(wl0.contains((current, true)));
                        }
                    }
                }
            }
        }
        assert forall|r: UnitHandle| #[trigger] self.is_source(s, r) implies v0[r] || wl_has(wl1, r) by {
            if !v0[r] {
                let m = choose|m: int| 0 <= m < wl0.len() && (#[trigger] wl0[m]).0 == r;
                if m < wl1.len() {
                    assert(wl1[m] == wl0[m]);
                } else {
                    assert(r == current);
                    if cmd {
                        assert(wl0.contains((current, true)));
                        assert(v0.contains_key(current));
                    }
                }
            }
        }
        assert(o1.no_duplicates()) by {
            if cmd {
                assert forall|a: int, b: int| 0 <= a < b < o1.len() implies o1[a] != o1[b] by {
                    if b == o1.len() - 1 {
                        assert(o0[a] == o1[a]);
                        assert(o0.contains(o1[a]));
                    } else {
                        assert(o0[a] == o1[a] && o0[b] == o1[b]);
                    }
                }
            }
        }
        assert forall|u: UnitHandle| #[trigger] wl1.contains((u, true)) implies !o1.contains(u) by {
            assert(wl0.contains((u, true)));
            if cmd && o1.contains(u) && !o0.contains(u) {
                assert(u == current);
            }
        }
        assert forall|a: int, b: int| 0 <= a < b < wl1.len() && (#[trigger] wl1[a]).1 && (#[trigger] wl1[b]).1 implies wl1[a].0 != wl1[b].0 by {
            assert(wl0[a] == wl1[a] && wl0[b] == wl1[b]);
        }
    }

    proof fn lemma_dfs_expand_keeps(
        &self,
        s: SubgraphHandle,
        o0: Seq<UnitHandle>,
        v0: Map<UnitHandle, bool>,
        wl0: Seq<(UnitHandle, bool)>,
        wl1: Seq<(UnitHandle, bool)>,
        wl2: Seq<(UnitHandle, bool)>,
        v1: Map<UnitHandle, bool>,
        current: UnitHandle,
        succs: Seq<UnitHandle>,
    )
        requires
            self.dfs_inv(s, o0, v0, wl0),
            wl0.len() > 0,
            wl0[wl0.len() - 1] == (current, false),
            v0.contains_key(current),
            !v0[current],
            v1 == v0.insert(current, true),
            wl1 == wl0.drop_last().push((current, true)),
            wl2.len() >= wl1.len(),
            wl2.subrange(0, wl1.len() as int) == wl1,
            forall|k: int| wl1.len() <= k < wl2.len() ==> !(#[trigger] wl2[k]).1
                && self.is_member(s, wl2[k].0) && self.from_source(s, wl2[k].0),
            succs.to_multiset() == self.unit_succs(current).to_multiset(),
            forall|k: int| 0 <= k < succs.len() ==> wl_has(wl2, #[trigger] succs[k]),
        ensures
            self.dfs_inv(s, o0, v1, wl2),
    {
        broadcast use vstd::seq_lib::group_to_multiset_ensures;
        let wlp = wl0.drop_last();
        assert forall|k: int| 0 <= k < wl2.len() implies self.is_member(s, (#[trigger] wl2[k]).0) && self.from_source(s, wl2[k].0) by {
            assert(wl2.subrange(0, wl1.len() as int)[k] == wl1[k]);
            if k < wlp.len() {
                assert(wl2[k] == wl1[k] && wl1[k] == wl0[k]);
            } else if k == wlp.len() {
                assert(wl2[k] == wl1[k]);
                assert(wl0[wl0.len() - 1].0 == current);
            }
        }
        assert(wl0[wl0.len() - 1].0 == current);
        assert(self.is_member(s, current));
        assert(!o0.contains(current));
        // Entries of the prefix are kept; true entries are only those of wl0 and the new one.
        assert forall|u: UnitHandle| wl2.contains((u, true)) implies wl0.contains((u, true)) || u == current by {
            let k = choose|k: int| 0 <= k < wl2.len() && wl2[k] == (u, true);
            if k < wl1.len() {
                assert(wl2.subrange(0, wl1.len() as int)[k] == wl1[k]);
            }
            if k < wlp.len() {
                assert(wl2[k] == wl1[k] && wl1[k] == wl0[k]);
            } else if k == wlp.len() {
                assert(wl2[k] == wl1[k]);
            } else {
                assert(!wl2[k].1);
            }
        }
        assert(wl2.contains((current, true))) by {
            assert(wl2.subrange(0, wl1.len() as int)[wlp.len() as int] == wl1[wlp.len() as int]);
            assert(wl2[wlp.len() as int] == wl1[wlp.len() as int]);
        }
        assert forall|u: UnitHandle| wl0.contains((u, true)) implies wl2.contains((u, true)) by {
            let k = choose|k: int| 0 <= k < wl0.len() && wl0[k] == (u, true);
            assert(k < wlp.len());
            assert(wl2.subrange(0, wl1.len() as int)[k] == wl1[k]);
            assert(wl2[k] == wl1[k] && wl1[k] == wl0[k]);
        }
        assert forall|v: UnitHandle| wl_has(wl0, v) && v != current implies wl_has(wl2, v) by {
            let k = choose|k: int| 0 <= k < wl0.len() && (#[trigger] wl0[k]).0 == v;
            assert(k < wlp.len());
            assert(wl2.subrange(0, wl1.len() as int)[k] == wl1[k]);
            assert(wl2[k] == wl1[k] && wl1[k] == wl0[k]);
        }
        assert forall|u: UnitHandle| #[trigger] v1.contains_key(u) implies (v1[u] <==> (o0.contains(u) || wl2.contains((u, true)))) by {
            if u != current {
                assert(v0[u] == v1[u]);
            }
        }
        assert forall|u: UnitHandle, k: int|
            (o0.contains(u) || wl2.contains((u, true))) && 0 <= k < self.unit_succs(u).len() implies
                v1[#[trigger] self.unit_succs(u)[k]] || wl_has(wl2, self.unit_succs(u)[k]) by {
            let v = self.unit_succs(u)[k];
            if u == current {
                assert(self.unit_succs(u).to_multiset().count(v) > 0);
                assert(succs.contains(v));
                let m = choose|m: int| 0 <= m < succs.len() && succs[m] == v;
                assert(wl_has(wl2, succs[m]));
            } else {
                assert(o0.contains(u) || wl0.contains((u, true)));
                if v == current {
                } else if !v0[v] {
                    assert(wl_has(wl0, v));
                } else {
                    assert(v1[v] == v0[v]);
                }
            }
        }
        assert forall|r: UnitHandle| #[trigger] self.is_source(s, r) implies v1[r] || wl_has(wl2, r) by {
            if r != current && !v0[r] {
                assert(wl_has(wl0, r));
            }
        }
        assert forall|u: UnitHandle| #[trigger] wl2.contains((u, true)) implies !o0.contains(u) by {}
        assert forall|a: int, b: int| 0 <= a < b < wl2.len() && (#[trigger] wl2[a]).1 && (#[trigger] wl2[b]).1 implies wl2[a].0 != wl2[b].0 by {
            assert(b <= wlp.len());
            assert(wl2.subrange(0, wl1.len() as int)[a] == wl1[a]);
            assert(wl2.subrange(0, wl1.len() as int)[b] == wl1[b]);
            if b < wlp.len() {
                assert(wl1[a] == wl0[a] && wl1[b] == wl0[b]);
                assert(wl2[a] == wl0[a] && wl2[b] == wl0[b]);
            } else {
                assert(wl1[a] == wl0[a]);
                assert(wl2[a] == wl0[a]);
                assert(wl2[b] == (current, true));
                if wl2[a].0 == current {
                    assert(wl0.contains((current, true)));
                }
            }
        }
    }

    /// Once the worklist is empty, everything that a source reaches is in the order.
    proof fn lemma_closed_reach(&self, s: SubgraphHandle, order: Seq<UnitHandle>, vis: Map<UnitHandle, bool>, r: UnitHandle, v: UnitHandle)
        requires
            self.wf(),
            self.subgraph_valid(s),
            self.subgraph_closed(s),
            self.dfs_inv(s, order, vis, Seq::empty()),
            self.is_source(s, r),
            unit_reaches(self, r, v),
        ensures
            order.contains(v),
    {
        let p = choose|p: Seq<UnitHandle>| crate::reach::is_unit_path(self, p) && p[0] == r && p.last() == v;
        self.lemma_closed_path(s, order, vis, p, p.len() - 1);
    }

    proof fn lemma_closed_path(&self, s: SubgraphHandle, order: Seq<UnitHandle>, vis: Map<UnitHandle, bool>, p: Seq<UnitHandle>, i: int)
        requires
            self.wf(),
            self.subgraph_valid(s),
            self.subgraph_closed(s),
            self.dfs_inv(s, order, vis, Seq::empty()),
            crate::reach::is_unit_path(self, p),
            self.is_source(s, p[0]),
            0 <= i < p.len(),
        ensures
            order.contains(p[i]),
            self.is_member(s, p[i]),
        decreases i,
    {
        if i == 0 {
            assert(vis[p[0]] || wl_has(Seq::<(UnitHandle, bool)>::empty(), p[0]));
            assert(vis.contains_key(p[0]));
        } else {
            self.lemma_closed_path(s, order, vis, p, i - 1);
            let u = p[i - 1];
            assert(self.unit_valid(u) && self.unit_succs(u).contains(p[i]));
            let k = choose|k: int| 0 <= k < self.unit_succs(u).len() && self.unit_succs(u)[k] == p[i];
            assert(vis[self.unit_succs(u)[k]] || wl_has(Seq::<(UnitHandle, bool)>::empty(), self.unit_succs(u)[k]));
            assert(self.is_member(s, self.unit_succs(u)[k]));
            assert(vis.contains_key(p[i]));
        }
    }
}


impl DAG {
    /// The units of the rank of subgraph `s`, row after row.
    pub open(crate) spec fn rank_sequence(&self, s: SubgraphHandle) -> Seq<UnitHandle> {
        crate::seqs::flatten(self.rank_of(s).rows())
    }

    /// Return the units of subgraph `s` that its sources reach, in a
    /// depth-first order: the reverse post-order of a walk from the sources
    /// that visits the successors of each unit as they are listed (see
    /// `walk_result`).
    /// When the unit edges of `s` close no cycle, each unit comes before the
    /// units that it has an edge to, be they nodes or subgraphs.
    pub(crate) fn topological_sort_subgraph(&self, subgraph_idx: SubgraphHandle) -> (r: Vec<UnitHandle>)
        requires
            self.wf(),
            self.subgraph_valid(subgraph_idx),
            self.subgraph_closed(subgraph_idx),
        ensures
            self.is_reach_order(subgraph_idx, r@),
            self.units_acyclic(subgraph_idx) ==> self.is_topological(r@),
            r@ == walk_result(self, Seq::empty(), false, walk_start(self, subgraph_idx)),
    {
        let rank_vec: Vec<UnitHandle> = Vec::new();
        proof { assert(rank_vec@ =~= Seq::<UnitHandle>::empty()); }
        self.dfs_order(subgraph_idx, &rank_vec, false)
    }

    /// The units of the rank of subgraph `s`, row after row.
    pub(crate) fn rank_units(&self, subgraph_idx: SubgraphHandle) -> (r: Vec<UnitHandle>)
        requires
            self.subgraph_valid(subgraph_idx),
        ensures
            r@ == self.rank_sequence(subgraph_idx),
    {
        let mut rank_vec: Vec<UnitHandle> = Vec::new();
        let h = self.subgraphs[subgraph_idx.idx].ranks.height();
        let ghost rows = self.rank_of(subgraph_idx).rows();
        proof {
            assert(rows.skip(0) =~= rows);
            assert(rank_vec@ + crate::seqs::flatten(rows.skip(0)) =~= crate::seqs::flatten(rows));
        }
        let mut i: usize = 0;
        while i < h
            invariant
                self.subgraph_valid(subgraph_idx),
                rows == self.rank_of(subgraph_idx).rows(),
                h == rows.len(),
                i <= h,
                crate::seqs::flatten(rows) == rank_vec@ + crate::seqs::flatten(rows.skip(i as int)),
            decreases h - i,
        {
            let row = self.subgraphs[subgraph_idx.idx].ranks.row(i);
            let mut j: usize = 0;
            let ghost base = rank_vec@;
            proof {
                assert(rows.skip(i as int).drop_first() =~= rows.skip(i as int + 1));
                assert(rows.skip(i as int)[0] == rows[i as int]);
            }
            while j < row.len()
                invariant
                    row@ == rows[i as int],
                    j <= row@.len(),
                    rank_vec@ == base + row@.take(j as int),
                decreases row@.len() - j,
            {
                rank_vec.push(row[j]);
                j = j + 1;
                proof { assert(rank_vec@ =~= base + row@.take(j as int)); }
            }
            proof {
                assert(row@.take(j as int) =~= row@);
                assert(crate::seqs::flatten(rows.skip(i as int)) == rows[i as int] + crate::seqs::flatten(rows.skip(i as int + 1)));
                assert(crate::seqs::flatten(rows) =~= rank_vec@ + crate::seqs::flatten(rows.skip(i as int + 1)));
            }
            i = i + 1;
        }
        proof {
            assert(rows.skip(i as int) =~= Seq::<Seq<UnitHandle>>::empty());
            assert(crate::seqs::flatten(rows) =~= rank_vec@);
            assert(rows.skip(0) =~= rows);
        }
        rank_vec
    }

    /// Like `topological_sort_subgraph`, but the successors of each unit are
    /// visited in the order in which they appear in the subgraph's rank: the
    /// result is the walk of `walk_result` over the rank's units, row after
    /// row.
    pub(crate) fn topological_sort_from_rank(&self, subgraph_idx: SubgraphHandle) -> (r: Vec<UnitHandle>)
        requires
            self.wf(),
            self.subgraph_valid(subgraph_idx),
            self.subgraph_closed(subgraph_idx),
            forall|u: UnitHandle, k: int| self.is_member(subgraph_idx, u) && 0 <= k < self.unit_succs(u).len()
                ==> self.rank_sequence(subgraph_idx).contains(#[trigger] self.unit_succs(u)[k]),
        ensures
            self.is_reach_order(subgraph_idx, r@),
            self.units_acyclic(subgraph_idx) ==> self.is_topological(r@),
            r@ == walk_result(self, self.rank_sequence(subgraph_idx), true, walk_start(self, subgraph_idx)),
    {
        let rank_vec = self.rank_units(subgraph_idx);
        self.dfs_order(subgraph_idx, &rank_vec, true)
    }
}

} // verus!
