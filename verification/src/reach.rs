//! Reachability in the dag: between nodes, and between units.

use vstd::prelude::*;
use crate::handles::{NodeHandle, SubgraphHandle, UnitHandle};
use crate::dag::DAG;

verus! {

/// The number of `false` entries of `v`.
pub open spec fn unvisited(v: Seq<bool>) -> nat
    decreases v.len(),
{
    if v.len() == 0 {
        0
    } else {
        unvisited(v.drop_last()) + if v.last() { 0nat } else { 1nat }
    }
}

pub proof fn lemma_unvisited_update(v: Seq<bool>, i: int, b: bool)
    requires
        0 <= i < v.len(),
    ensures
        unvisited(v.update(i, b)) == unvisited(v) - (if v[i] { 0int } else { 1int }) + (if b { 0int } else { 1int }),
    decreases v.len(),
{
    if i < v.len() - 1 {
        assert(v.update(i, b).drop_last() =~= v.drop_last().update(i, b));
        lemma_unvisited_update(v.drop_last(), i, b);
    } else {
        assert(v.update(i, b).drop_last() =~= v.drop_last());
    }
}

/// A sequence of nodes that follows the dag's edges.
pub open spec fn is_path(dag: &DAG, p: Seq<NodeHandle>) -> bool {
    &&& p.len() >= 1
    &&& forall|i: int| 0 <= i < p.len() - 1 ==> dag.node_valid(#[trigger] p[i]) && dag.succs(p[i]).contains(p[i + 1])
}

/// There is a path from `a` to `b` (every node reaches itself).
pub open spec fn reaches(dag: &DAG, a: NodeHandle, b: NodeHandle) -> bool {
    exists|p: Seq<NodeHandle>| is_path(dag, p) && p[0] == a && p.last() == b
}

/// The nodes of `p` but its last one are not marked in `visited`.
pub open spec fn avoids(p: Seq<NodeHandle>, visited: Seq<bool>) -> bool {
    forall|i: int| 0 <= i < p.len() - 1 ==> !visited[#[trigger] p[i].index() as int]
}

pub proof fn lemma_reaches_self(dag: &DAG, a: NodeHandle)
    ensures
        reaches(dag, a, a),
{
    let p = seq![a];
    assert(is_path(dag, p) && p[0] == a && p.last() == a);
}

pub proof fn lemma_reaches_step(dag: &DAG, a: NodeHandle, b: NodeHandle, c: NodeHandle)
    requires
        dag.node_valid(a),
        dag.succs(a).contains(b),
        reaches(dag, b, c),
    ensures
        reaches(dag, a, c),
{
    let p = choose|p: Seq<NodeHandle>| is_path(dag, p) && p[0] == b && p.last() == c;
    let q = seq![a] + p;
    assert forall|i: int| 0 <= i < q.len() - 1 implies dag.node_valid(#[trigger] q[i]) && dag.succs(q[i]).contains(q[i + 1]) by {
        if i > 0 {
            assert(q[i] == p[i - 1]);
            assert(q[i + 1] == p[i]);
        }
    }
    assert(q.last() == p.last());
}

/// The last position, at most `hi`, at which `x` occurs in `p`.
pub proof fn last_visit<A>(p: Seq<A>, x: A, hi: int) -> (j: int)
    requires
        0 <= hi < p.len(),
        p[0] == x,
    ensures
        0 <= j <= hi,
        p[j] == x,
        forall|m: int| j < m <= hi ==> p[m] != x,
    decreases hi,
{
    if p[hi] == x {
        hi
    } else {
        last_visit(p, x, hi - 1)
    }
}

impl DAG {
    /// Returns true if the node `to` is reachable from the node `from` by a
    /// path whose nodes, but the last, are not marked in `visited`.
    /// This internal method is used for the verification of the graph.
    fn is_reachable_inner(&self, from: NodeHandle, to: NodeHandle, visited: &mut Vec<bool>) -> (r: bool)
        requires
            self.wf(),
            self.node_valid(from),
            old(visited)@.len() == self.node_count(),
        ensures
            r ==> reaches(self, from, to),
            !r ==> final(visited)@ == old(visited)@,
            !r ==> forall|p: Seq<NodeHandle>| is_path(self, p) && p[0] == from && p.last() == to ==> !avoids(p, old(visited)@),
        decreases unvisited(old(visited)@),
    {
        if from == to {
            proof { lemma_reaches_self(self, from); }
            return true;
        }
        if visited[from.idx] {
            proof {
                assert forall|p: Seq<NodeHandle>| is_path(self, p) && p[0] == from && p.last() == to implies !avoids(p, old(visited)@) by {
                    assert(p.len() >= 2);
                    assert(visited@[p[0].index() as int]);
                }
            }
            return false;
        }
        let ghost v0 = visited@;
        visited.set(from.idx, true);
        proof { lemma_unvisited_update(v0, from.index() as int, true); }
        let n = self.nodes[from.idx].successors.len();
        let mut i: usize = 0;
        while i < n
            invariant
                self.wf(),
                self.node_valid(from),
                from != to,
                n == self.succs(from).len(),
                i <= n,
                !v0[from.index() as int],
                v0 == old(visited)@,
                v0.len() == self.node_count(),
                visited@ == v0.update(from.index() as int, true),
                unvisited(visited@) < unvisited(v0),
                forall|k: int| 0 <= k < i ==> forall|p: Seq<NodeHandle>|
                    is_path(self, p) && p[0] == #[trigger] self.succs(from)[k] && p.last() == to ==> !avoids(p, visited@),
            decreases n - i,
        {
            let e = self.nodes[from.idx].successors[i];
            proof { assert(self.node_valid(self.succs(from)[i as int])); }
            if self.is_reachable_inner(e, to, visited) {
                proof {
                    assert(self.succs(from)[i as int] == e);
                    lemma_reaches_step(self, from, e, to);
                }
                return true;
            }
            i = i + 1;
        }
        visited.set(from.idx, false);
        proof {
            assert(visited@ =~= v0);
            let vv = v0.update(from.index() as int, true);
            assert forall|p: Seq<NodeHandle>| is_path(self, p) && p[0] == from && p.last() == to implies !avoids(p, v0) by {
                if avoids(p, v0) {
                    self.lemma_path_split(p, from, to, v0);
                }
            }
        }
        false
    }

    /// A path from `from` to `to` that avoids `v` has a part, after its last
    /// visit of `from`, that starts at a successor of `from` and avoids `v`
    /// with `from` marked as well.
    proof fn lemma_path_split(&self, p: Seq<NodeHandle>, from: NodeHandle, to: NodeHandle, v: Seq<bool>)
        requires
            self.wf(),
            self.node_valid(from),
            from != to,
            v.len() == self.node_count(),
            is_path(self, p),
            p[0] == from,
            p.last() == to,
            avoids(p, v),
        ensures
            exists|k: int|
                0 <= k < self.succs(from).len() && exists|q: Seq<NodeHandle>|
                    is_path(self, q) && q[0] == #[trigger] self.succs(from)[k] && q.last() == to
                        && avoids(q, v.update(from.index() as int, true)),
    {
        let j = last_visit(p, from, p.len() - 2);
        let q = p.subrange(j + 1, p.len() as int);
        assert(self.succs(from).contains(p[j + 1]));
        let k = choose|k: int| 0 <= k < self.succs(from).len() && self.succs(from)[k] == p[j + 1];
        assert forall|i: int| 0 <= i < q.len() - 1 implies self.node_valid(#[trigger] q[i]) && self.succs(q[i]).contains(q[i + 1]) by {
            assert(q[i] == p[j + 1 + i]);
            assert(q[i + 1] == p[j + 1 + i + 1]);
        }
        let w = v.update(from.index() as int, true);
        assert forall|i: int| 0 <= i < q.len() - 1 implies !w[#[trigger] q[i].index() as int] by {
            assert(q[i] == p[j + 1 + i]);
            assert(p[j + 1 + i] != from);
            assert(!v[p[j + 1 + i].index() as int]);
        }
        assert(is_path(self, q) && q[0] == self.succs(from)[k] && q.last() == to && avoids(q, w));
    }
}


/// A sequence of units that follows the dag's unit edges.
pub open spec fn is_unit_path(dag: &DAG, p: Seq<UnitHandle>) -> bool {
    &&& p.len() >= 1
    &&& forall|i: int| 0 <= i < p.len() - 1 ==> dag.unit_valid(#[trigger] p[i]) && dag.unit_succs(p[i]).contains(p[i + 1])
}

/// There is a path of unit edges from `a` to `b` (every unit reaches itself).
pub open spec fn unit_reaches(dag: &DAG, a: UnitHandle, b: UnitHandle) -> bool {
    exists|p: Seq<UnitHandle>| is_unit_path(dag, p) && p[0] == a && p.last() == b
}

/// Whether `u` is marked: nodes in `vn`, subgraphs in `vs`.
pub open spec fn marked(vn: Seq<bool>, vs: Seq<bool>, u: UnitHandle) -> bool {
    match u {
        UnitHandle::Node(n) => vn[n.index() as int],
        UnitHandle::Subgraph(t) => vs[t.index() as int],
    }
}

/// The units of `p` but its last one are not marked.
pub open spec fn unit_avoids(p: Seq<UnitHandle>, vn: Seq<bool>, vs: Seq<bool>) -> bool {
    forall|i: int| 0 <= i < p.len() - 1 ==> !marked(vn, vs, #[trigger] p[i])
}

pub proof fn lemma_unit_reaches_self(dag: &DAG, a: UnitHandle)
    ensures
        unit_reaches(dag, a, a),
{
    let p = seq![a];
    assert(is_unit_path(dag, p) && p[0] == a && p.last() == a);
}

pub proof fn lemma_unit_reaches_step(dag: &DAG, a: UnitHandle, b: UnitHandle, c: UnitHandle)
    requires
        dag.unit_valid(a),
        dag.unit_succs(a).contains(b),
        unit_reaches(dag, b, c),
    ensures
        unit_reaches(dag, a, c),
{
    let p = choose|p: Seq<UnitHandle>| is_unit_path(dag, p) && p[0] == b && p.last() == c;
    let q = seq![a] + p;
    assert forall|i: int| 0 <= i < q.len() - 1 implies dag.unit_valid(#[trigger] q[i]) && dag.unit_succs(q[i]).contains(q[i + 1]) by {
        if i > 0 {
            assert(q[i] == p[i - 1]);
            assert(q[i + 1] == p[i]);
        }
    }
    assert(q.last() == p.last());
}

/// Marks or unmarks `u`.
pub open spec fn mark_nodes(vn: Seq<bool>, u: UnitHandle, b: bool) -> Seq<bool> {
    match u {
        UnitHandle::Node(n) => vn.update(n.index() as int, b),
        UnitHandle::Subgraph(_) => vn,
    }
}

pub open spec fn mark_subgraphs(vs: Seq<bool>, u: UnitHandle, b: bool) -> Seq<bool> {
    match u {
        UnitHandle::Node(_) => vs,
        UnitHandle::Subgraph(t) => vs.update(t.index() as int, b),
    }
}

impl DAG {
    /// Returns true if the unit `to` is reachable from the unit `from` by a
    /// path whose units, but the last, are not marked.
    fn is_reachable_inner_u(
        &self,
        from: UnitHandle,
        to: UnitHandle,
        vn: &mut Vec<bool>,
        vs: &mut Vec<bool>,
    ) -> (r: bool)
        requires
            self.wf(),
            self.unit_valid(from),
            old(vn)@.len() == self.node_count(),
            old(vs)@.len() == self.subgraph_count(),
        ensures
            r ==> unit_reaches(self, from, to),
            !r ==> final(vn)@ == old(vn)@ && final(vs)@ == old(vs)@,
            !r ==> forall|p: Seq<UnitHandle>| is_unit_path(self, p) && p[0] == from && p.last() == to ==> !unit_avoids(p, old(vn)@, old(vs)@),
        decreases unvisited(old(vn)@) + unvisited(old(vs)@),
    {
        if from == to {
            proof { lemma_unit_reaches_self(self, from); }
            return true;
        }
        let seen = match from {
            UnitHandle::Node(n) => vn[n.idx],
            UnitHandle::Subgraph(t) => vs[t.idx],
        };
        if seen {
            proof {
                assert forall|p: Seq<UnitHandle>| is_unit_path(self, p) && p[0] == from && p.last() == to implies !unit_avoids(p, old(vn)@, old(vs)@) by {
                    assert(p.len() >= 2);
                    assert(marked(old(vn)@, old(vs)@, p[0]));
                }
            }
            return false;
        }
        let ghost n0 = vn@;
        let ghost s0 = vs@;
        match from {
            UnitHandle::Node(n) => {
                vn.set(n.idx, true);
                proof { lemma_unvisited_update(n0, n.index() as int, true); }
            },
            UnitHandle::Subgraph(t) => {
                vs.set(t.idx, true);
                proof { lemma_unvisited_update(s0, t.index() as int, true); }
            },
        }
        let successors = from.successors(self);
        let mut i: usize = 0;
        while i < successors.len()
            invariant
                self.wf(),
                self.unit_valid(from),
                from != to,
                successors@ == self.unit_succs(from),
                i <= successors@.len(),
                !marked(n0, s0, from),
                n0 == old(vn)@,
                s0 == old(vs)@,
                n0.len() == self.node_count(),
                s0.len() == self.subgraph_count(),
                vn@ == mark_nodes(n0, from, true),
                vs@ == mark_subgraphs(s0, from, true),
                unvisited(vn@) + unvisited(vs@) < unvisited(n0) + unvisited(s0),
                forall|k: int| 0 <= k < i ==> forall|p: Seq<UnitHandle>|
                    is_unit_path(self, p) && p[0] == #[trigger] successors@[k] && p.last() == to ==> !unit_avoids(p, vn@, vs@),
            decreases successors@.len() - i,
        {
            let e = successors[i];
            proof { assert(self.unit_valid(self.unit_succs(from)[i as int])); }
            if self.is_reachable_inner_u(e, to, vn, vs) {
                proof {
                    assert(self.unit_succs(from)[i as int] == e);
                    lemma_unit_reaches_step(self, from, e, to);
                }
                return true;
            }
            i = i + 1;
        }
        match from {
            UnitHandle::Node(n) => {
                vn.set(n.idx, false);
            },
            UnitHandle::Subgraph(t) => {
                vs.set(t.idx, false);
            },
        }
        proof {
            assert(vn@ =~= n0);
            assert(vs@ =~= s0);
            assert forall|p: Seq<UnitHandle>| is_unit_path(self, p) && p[0] == from && p.last() == to implies !unit_avoids(p, n0, s0) by {
                if unit_avoids(p, n0, s0) {
                    let j = last_visit(p, from, p.len() - 2);
                    let q = p.subrange(j + 1, p.len() as int);
                    assert(self.unit_succs(from).contains(p[j + 1]));
                    let k = choose|k: int| 0 <= k < self.unit_succs(from).len() && self.unit_succs(from)[k] == p[j + 1];
                    assert forall|ii: int| 0 <= ii < q.len() - 1 implies self.unit_valid(#[trigger] q[ii]) && self.unit_succs(q[ii]).contains(q[ii + 1]) by {
                        assert(q[ii] == p[j + 1 + ii]);
                        assert(q[ii + 1] == p[j + 1 + ii + 1]);
                    }
                    let wn = mark_nodes(n0, from, true);
                    let ws = mark_subgraphs(s0, from, true);
                    assert forall|ii: int| 0 <= ii < q.len() - 1 implies !marked(wn, ws, #[trigger] q[ii]) by {
                        assert(q[ii] == p[j + 1 + ii]);
                        assert(p[j + 1 + ii] != from);
                        assert(!marked(n0, s0, p[j + 1 + ii]));
                    }
                    assert(successors@[k] == q[0]);
                    assert(is_unit_path(self, q) && q.last() == to);
                    assert(!unit_avoids(q, wn, ws));
                }
            }
        }
        false
    }

    /// Returns true if there is a path from `from` to `to`.
    pub fn is_reachable(&self, from: NodeHandle, to: NodeHandle) -> (r: bool)
        requires
            self.wf(),
            from != to ==> self.node_valid(from),
        ensures
            r == reaches(self, from, to),
    {
        if from == to {
            proof { lemma_reaches_self(self, from); }
            return true;
        }
        let visited = false_marks(self.nodes.len());
        let mut visited = visited;
        let r = self.is_reachable_inner(from, to, &mut visited);
        proof {
            if !r && reaches(self, from, to) {
                let p = choose|p: Seq<NodeHandle>| is_path(self, p) && p[0] == from && p.last() == to;
                assert forall|i: int| 0 <= i < p.len() - 1 implies !false_seq(self.node_count())[#[trigger] p[i].index() as int] by {
                    assert(self.node_valid(p[i]));
                }
            }
        }
        r
    }

    /// Returns true if there is a path of unit edges from `from` to `to`.
    pub fn is_reachable_u(&self, from: UnitHandle, to: UnitHandle) -> (r: bool)
        requires
            self.wf(),
            from != to ==> self.unit_valid(from),
        ensures
            r == unit_reaches(self, from, to),
    {
        if from == to {
            proof { lemma_unit_reaches_self(self, from); }
            return true;
        }
        let mut vn = false_marks(self.nodes.len());
        let mut vs = false_marks(self.subgraphs.len());
        let r = self.is_reachable_inner_u(from, to, &mut vn, &mut vs);
        proof {
            if !r && unit_reaches(self, from, to) {
                let p = choose|p: Seq<UnitHandle>| is_unit_path(self, p) && p[0] == from && p.last() == to;
                assert forall|i: int| 0 <= i < p.len() - 1 implies !marked(false_seq(self.node_count()), false_seq(self.subgraph_count()), #[trigger] p[i]) by {
                    assert(self.unit_valid(p[i]));
                }
            }
        }
        r
    }
}

pub open spec fn false_seq(n: nat) -> Seq<bool> {
    Seq::new(n, |i: int| false)
}

/// `n` unmarked entries.
pub fn false_marks(n: usize) -> (r: Vec<bool>)
    ensures
        r@ == false_seq(n as nat),
{
    let mut r: Vec<bool> = Vec::new();
    let mut i: usize = 0;
    while i < n
        invariant
            i <= n,
            r@ == false_seq(i as nat),
        decreases n - i,
    {
        r.push(false);
        i = i + 1;
        proof { assert(r@ =~= false_seq(i as nat)); }
    }
    r
}


impl DAG {
    /// No edge closes a cycle: the source of an edge is not reachable from
    /// its destination, unless the edge is a self loop.
    pub open(crate) spec fn no_back_edges(&self) -> bool {
        forall|n: NodeHandle, j: int|
            #![trigger self.succs(n)[j]]
            self.node_valid(n) && 0 <= j < self.succs(n).len() ==> {
                let d = self.succs(n)[j];
                d == n || !reaches(self, d, n)
            }
    }

    /// What `verify` checks when the dag validates itself.
    pub open(crate) spec fn passes_checks(&self) -> bool {
        self.validating() ==> {
            &&& self.no_back_edges()
            &&& crate::seqs::total_len(self.node_rows()) <= self.node_count()
        }
    }

    /// Checks that the graph is a DAG and that the dag-wide rank holds no
    /// more entries than there are nodes. The checks are proved to hold.
    pub fn verify(&self)
        requires
            self.wf(),
            self.passes_checks(),
    {
        if self.validate {
            let mut i: usize = 0;
            while i < self.nodes.len()
                invariant
                    self.wf(),
                    self.passes_checks(),
                    self.validate,
                    i <= self.node_count(),
                decreases self.node_count() - i,
            {
                let from = NodeHandle::from(i);
                let mut j: usize = 0;
                while j < self.nodes[i].successors.len()
                    invariant
                        self.wf(),
                        self.passes_checks(),
                        self.validate,
                        i < self.node_count(),
                        from == crate::handles::node_handle(i as int),
                        j <= self.succs(from).len(),
                    decreases self.succs(from).len() - j,
                {
                    let dest = self.nodes[i].successors[j];
                    proof { assert(self.node_valid(self.succs(from)[j as int])); }
                    let reachable = self.is_reachable(dest, from) && from != dest;
                    proof { assert(!reachable); }
                    j = j + 1;
                }
                i = i + 1;
            }
            let cnt = self.count_nodes_in_ranks();
            proof { assert(cnt <= self.node_count()); }
        }
    }
}

/// The checks look at the nodes and the dag-wide rank only.
pub(crate) proof fn lemma_checks_same_nodes(new: &DAG, old: &DAG)
    requires
        old.passes_checks(),
        new.nodes@ == old.nodes@,
        new.ranks@ == old.ranks@,
        new.validate == old.validate,
    ensures
        new.passes_checks(),
{
    assert forall|p: Seq<NodeHandle>| #[trigger] is_path(new, p) == is_path(old, p) by {}
    assert forall|a: NodeHandle, b: NodeHandle| #[trigger] reaches(new, a, b) == reaches(old, a, b) by {
        if reaches(new, a, b) {
            let p = choose|p: Seq<NodeHandle>| is_path(new, p) && p[0] == a && p.last() == b;
            assert(is_path(old, p));
        }
        if reaches(old, a, b) {
            let p = choose|p: Seq<NodeHandle>| is_path(old, p) && p[0] == a && p.last() == b;
            assert(is_path(new, p));
        }
    }
    assert(new.node_rows() == old.node_rows());
    if new.validating() {
        assert forall|n: NodeHandle, j: int|
            new.node_valid(n) && 0 <= j < new.succs(n).len() implies {
                let d = #[trigger] new.succs(n)[j];
                d == n || !reaches(new, d, n)
            } by {
            assert(new.succs(n) == old.succs(n));
            assert(old.succs(n)[j] == new.succs(n)[j]);
        }
    }
}

/// A path in `new` that starts at a node of `old` is a path of `old` when
/// `new` only adds nodes without edges.
pub proof fn lemma_reaches_added_nodes(new: &DAG, old: &DAG, a: NodeHandle, b: NodeHandle)
    requires
        old.wf(),
        old.node_count() <= new.node_count(),
        forall|n: NodeHandle| #![trigger new.succs(n)] old.node_valid(n) ==> new.succs(n) == old.succs(n),
        forall|n: NodeHandle| #![trigger new.succs(n)] new.node_valid(n) && !old.node_valid(n) ==> new.succs(n).len() == 0,
        old.node_valid(a),
        reaches(new, a, b),
    ensures
        reaches(old, a, b),
{
    let p = choose|p: Seq<NodeHandle>| is_path(new, p) && p[0] == a && p.last() == b;
    assert forall|i: int| 0 <= i < p.len() implies old.node_valid(#[trigger] p[i]) by {
        lemma_path_prefix_old(new, old, p, i);
    }
    assert forall|i: int| 0 <= i < p.len() - 1 implies old.node_valid(#[trigger] p[i]) && old.succs(p[i]).contains(p[i + 1]) by {
        assert(old.node_valid(p[i]));
        assert(new.succs(p[i]) == old.succs(p[i]));
    }
    assert(is_path(old, p));
}

proof fn lemma_path_prefix_old(new: &DAG, old: &DAG, p: Seq<NodeHandle>, i: int)
    requires
        old.wf(),
        old.node_count() <= new.node_count(),
        forall|n: NodeHandle| #![trigger new.succs(n)] old.node_valid(n) ==> new.succs(n) == old.succs(n),
        is_path(new, p),
        old.node_valid(p[0]),
        0 <= i < p.len(),
    ensures
        old.node_valid(p[i]),
    decreases i,
{
    if i > 0 {
        lemma_path_prefix_old(new, old, p, i - 1);
        assert(new.node_valid(p[i - 1]) && new.succs(p[i - 1]).contains(p[i]));
        assert(new.succs(p[i - 1]) == old.succs(p[i - 1]));
        let q = old.succs(p[i - 1]);
        let k = choose|k: int| 0 <= k < q.len() && #[trigger] q[k] == p[i];
        assert(old.node_valid(q[k]));
    }
}


impl DAG {
    /// Create `n` new nodes in the root subgraph, each placed at the end of
    /// the first row of the root's rank. They are not listed as members of
    /// the root.
    pub fn new_nodes(&mut self, n: usize)
        requires
            old(self).wf(),
            old(self).subgraph_count() > 0,
            old(self).node_count() + n <= usize::MAX,
            old(self).passes_checks(),
        ensures
            final(self).wf(),
            final(self).passes_checks(),
            final(self).node_count() == old(self).node_count() + n,
            final(self).node_list().subrange(0, old(self).node_count() as int) == old(self).node_list(),
            forall|k: int| old(self).node_count() <= k < final(self).node_count() ==>
                (#[trigger] final(self).node_list()[k]).is_fresh(crate::handles::subgraph_handle(0)),
            final(self).node_levels() == old(self).node_levels() + Seq::new(n as nat, |k: int| 0usize),
            final(self).subgraph_count() == old(self).subgraph_count(),
            final(self).node_rows() == old(self).node_rows(),
            final(self).validating() == old(self).validating(),
            ({
                let root = crate::handles::subgraph_handle(0);
                let grown = crate::dag::pad_rows(old(self).rank_of(root).rows(), 1);
                let added = Seq::new(n as nat, |k: int| UnitHandle::Node(crate::handles::node_handle(old(self).node_count() + k)));
                &&& n > 0 ==> final(self).rank_of(root).rows() == grown.update(0, grown[0] + added)
                &&& n == 0 ==> final(self).rank_of(root).rows() == old(self).rank_of(root).rows()
                &&& forall|u: UnitHandle| #[trigger] final(self).rank_of(root).level_map().contains_key(u) <==>
                        old(self).rank_of(root).level_map().contains_key(u) || added.contains(u)
                &&& forall|u: UnitHandle| #[trigger] final(self).rank_of(root).level_map().contains_key(u) ==>
                        final(self).rank_of(root).level_map()[u] == if added.contains(u) { 0 } else { old(self).rank_of(root).level_map()[u] }
                &&& final(self).member_nodes(root) == old(self).member_nodes(root)
                &&& final(self).member_subgraphs(root) == old(self).member_subgraphs(root)
            }),
            forall|t: SubgraphHandle| #![trigger final(self).rank_of(t)]
                final(self).subgraph_valid(t) && t.index() != 0 ==> final(self).same_subgraph(old(self), t),
    {
        let root = SubgraphHandle::new(0);
        let ghost o = *self;
        let ghost grown = crate::dag::pad_rows(o.rank_of(root).rows(), 1);
        let mut i: usize = 0;
        while i < n
            invariant
                self.wf(),
                o.wf(),
                o == *old(self),
                o.subgraph_count() > 0,
                o.node_count() + n <= usize::MAX,
                o.passes_checks(),
                i <= n,
                root.index() == 0,
                grown == crate::dag::pad_rows(o.rank_of(root).rows(), 1),
                self.node_count() == o.node_count() + i,
                self.node_list().subrange(0, o.node_count() as int) == o.node_list(),
                forall|k: int| o.node_count() <= k < self.node_count() ==> (#[trigger] self.node_list()[k]).is_fresh(root),
                self.node_levels() == o.node_levels() + Seq::new(i as nat, |k: int| 0usize),
                self.subgraph_count() == o.subgraph_count(),
                self.node_rows() == o.node_rows(),
                self.validating() == o.validating(),
                i > 0 ==> self.rank_of(root).rows() == grown.update(0, grown[0] + Seq::new(i as nat, |k: int| UnitHandle::Node(crate::handles::node_handle(o.node_count() + k)))),
                i == 0 ==> self.rank_of(root).rows() == o.rank_of(root).rows(),
                forall|u: UnitHandle| #[trigger] self.rank_of(root).level_map().contains_key(u) <==>
                    o.rank_of(root).level_map().contains_key(u) || Seq::new(i as nat, |k: int| UnitHandle::Node(crate::handles::node_handle(o.node_count() + k))).contains(u),
                forall|u: UnitHandle| #[trigger] self.rank_of(root).level_map().contains_key(u) ==>
                    self.rank_of(root).level_map()[u] == if Seq::new(i as nat, |k: int| UnitHandle::Node(crate::handles::node_handle(o.node_count() + k))).contains(u) { 0 } else { o.rank_of(root).level_map()[u] },
                self.member_nodes(root) == o.member_nodes(root),
                self.member_subgraphs(root) == o.member_subgraphs(root),
                forall|k: int| 0 < k < o.subgraph_list().len() ==> #[trigger] self.subgraph_list()[k] == o.subgraph_list()[k],
                forall|m: NodeHandle| #![trigger self.succs(m)] o.node_valid(m) ==> self.succs(m) == o.succs(m),
                forall|m: NodeHandle| #![trigger self.succs(m)] self.node_valid(m) && !o.node_valid(m) ==> self.succs(m).len() == 0,
            decreases n - i,
        {
            let ghost pre = *self;
            let node = self.push_fresh_node(root);
            let ghost mid = *self;
            self.add_element_to_rank_subgraph(UnitHandle::new_node(node), 0, false, root);
            proof {
                self.lemma_same_except_rank_wf(&mid, root);
                let added_pre = Seq::new(i as nat, |k: int| UnitHandle::Node(crate::handles::node_handle(o.node_count() + k)));
                let added = Seq::new((i + 1) as nat, |k: int| UnitHandle::Node(crate::handles::node_handle(o.node_count() + k)));
                assert(added =~= added_pre.push(UnitHandle::Node(node)));
                assert forall|u: UnitHandle| added.contains(u) <==> added_pre.contains(u) || u == UnitHandle::Node(node) by {
                    if added.contains(u) {
                        let k = choose|k: int| 0 <= k < added.len() && added[k] == u;
                        if k < i {
                            assert(added_pre[k] == u);
                        }
                    }
                    if added_pre.contains(u) {
                        let k = choose|k: int| 0 <= k < added_pre.len() && added_pre[k] == u;
                        assert(added[k] == u);
                    }
                    if u == UnitHandle::Node(node) {
                        assert(added[i as int] == u);
                    }
                }
                if i == 0 {
                    assert(mid.rank_of(root).rows() == o.rank_of(root).rows());
                    assert(grown[0] + added =~= grown[0].push(UnitHandle::Node(node)));
                    assert(self.rank_of(root).rows() =~= grown.update(0, grown[0] + added));
                } else {
                    assert(self.rank_of(root).rows() =~= grown.update(0, grown[0] + added));
                }
                assert(self.node_list().subrange(0, o.node_count() as int) =~= o.node_list());
                assert forall|k: int| o.node_count() <= k < self.node_count() implies (#[trigger] self.node_list()[k]).is_fresh(root) by {
                    if k < pre.node_count() {
                        assert(self.node_list()[k] == pre.node_list()[k]);
                    }
                }
                assert(self.node_levels() =~= o.node_levels() + Seq::new((i + 1) as nat, |k: int| 0usize));
                assert forall|k: int| 0 < k < o.subgraph_list().len() implies #[trigger] self.subgraph_list()[k] == o.subgraph_list()[k] by {
                    assert(pre.subgraph_list()[k] == o.subgraph_list()[k]);
                    assert(mid.subgraph_list()[k] == pre.subgraph_list()[k]);
                }
                assert forall|m: NodeHandle| #![trigger self.succs(m)] o.node_valid(m) implies self.succs(m) == o.succs(m) by {
                    assert(self.node_list()[m.index() as int] == pre.node_list()[m.index() as int]);
                }
                assert forall|m: NodeHandle| #![trigger self.succs(m)] self.node_valid(m) && !o.node_valid(m) implies self.succs(m).len() == 0 by {
                    if m != node {
                        assert(self.node_list()[m.index() as int] == pre.node_list()[m.index() as int]);
                    }
                }
            }
            i = i + 1;
        }
        proof {
            if self.validating() {
                assert forall|m: NodeHandle, j: int|
                    #![trigger self.succs(m)[j]]
                    self.node_valid(m) && 0 <= j < self.succs(m).len() implies {
                        let d = self.succs(m)[j];
                        d == m || !reaches(self, d, m)
                    } by {
                    let d = self.succs(m)[j];
                    if o.node_valid(m) {
                        assert(self.succs(m) == o.succs(m));
                        assert(o.succs(m)[j] == d);
                        if d != m && reaches(self, d, m) {
                            assert(o.node_valid(o.succs(m)[j]));
                            lemma_reaches_added_nodes(self, &o, d, m);
                        }
                    }
                }
            }
        }
        self.verify();
        proof {
            assert forall|t: SubgraphHandle|
                self.subgraph_valid(t) && t.index() != 0 implies #[trigger] self.same_subgraph(old(self), t) by {
                assert(0 < t.index() < o.subgraph_list().len());
                assert(self.subgraph_list()[t.index() as int] == o.subgraph_list()[t.index() as int]);
                assert(self.subgraphs@[t.index() as int] == old(self).subgraphs@[t.index() as int]);
            }
        }
    }
}

/// A path from `a` to `b` followed by one from `b` to `c` leads from `a`
/// to `c`.
pub proof fn lemma_reaches_trans(dag: &DAG, a: NodeHandle, b: NodeHandle, c: NodeHandle)
    requires
        reaches(dag, a, b),
        reaches(dag, b, c),
    ensures
        reaches(dag, a, c),
{
    let p = choose|p: Seq<NodeHandle>| is_path(dag, p) && p[0] == a && p.last() == b;
    let q = choose|q: Seq<NodeHandle>| is_path(dag, q) && q[0] == b && q.last() == c;
    let r = p + q.drop_first();
    assert forall|i: int| 0 <= i < r.len() - 1 implies dag.node_valid(#[trigger] r[i]) && dag.succs(r[i]).contains(r[i + 1]) by {
        if i < p.len() - 1 {
            assert(r[i] == p[i] && r[i + 1] == p[i + 1]);
        } else if i == p.len() - 1 {
            assert(r[i] == q[0]);
            assert(r[i + 1] == q[1]);
        } else {
            assert(r[i] == q[i - p.len() + 1]);
            assert(r[i + 1] == q[i - p.len() + 2]);
        }
    }
    if q.len() > 1 {
        assert(r.last() == q.last());
    } else {
        assert(r =~= p);
    }
}

/// The first position at which a path that starts at `a` and ends
/// elsewhere leaves `a`.
proof fn first_departure(p: Seq<NodeHandle>, a: NodeHandle) -> (k: int)
    requires
        p.len() >= 1,
        p[0] == a,
        p.last() != a,
    ensures
        0 <= k < p.len() - 1,
        p[k] == a,
        p[k + 1] != a,
    decreases p.len(),
{
    if p[1] != a {
        0
    } else {
        let k = first_departure(p.drop_first(), a);
        k + 1
    }
}

/// In a dag without back edges, two different nodes never reach each other
/// both ways.
pub proof fn lemma_no_cycle(dag: &DAG, a: NodeHandle, b: NodeHandle)
    requires
        dag.no_back_edges(),
        a != b,
        reaches(dag, a, b),
    ensures
        !reaches(dag, b, a),
{
    if reaches(dag, b, a) {
        let p = choose|p: Seq<NodeHandle>| is_path(dag, p) && p[0] == a && p.last() == b;
        let k = first_departure(p, a);
        let d = p[k + 1];
        let s = p.subrange(k + 1, p.len() as int);
        assert forall|i: int| 0 <= i < s.len() - 1 implies dag.node_valid(#[trigger] s[i]) && dag.succs(s[i]).contains(s[i + 1]) by {
            assert(s[i] == p[i + k + 1] && s[i + 1] == p[i + k + 2]);
        }
        assert(s.last() == p.last());
        assert(reaches(dag, d, b));
        lemma_reaches_trans(dag, d, b, a);
        assert(dag.node_valid(a) && dag.succs(a).contains(d));
        let j = choose|j: int| 0 <= j < dag.succs(a).len() && dag.succs(a)[j] == d;
        assert(dag.succs(a)[j] == d);
    }
}

/// After the edge `from -> to` is added, a node reaches another either as
/// before, or through `from` and then from `to`.
pub proof fn lemma_reaches_after_add(new: &DAG, old: &DAG, from: NodeHandle, to: NodeHandle, x: NodeHandle, y: NodeHandle)
    requires
        new.node_count() == old.node_count(),
        old.node_valid(from),
        forall|n: NodeHandle| #![trigger new.succs(n)] new.node_valid(n) ==>
            new.succs(n) == if n == from { old.succs(n).push(to) } else { old.succs(n) },
        reaches(new, x, y),
    ensures
        reaches(old, x, y) || (reaches(old, x, from) && reaches(new, to, y)),
{
    let p = choose|p: Seq<NodeHandle>| is_path(new, p) && p[0] == x && p.last() == y;
    lemma_path_after_add(new, old, from, to, p);
}

proof fn lemma_path_after_add(new: &DAG, old: &DAG, from: NodeHandle, to: NodeHandle, p: Seq<NodeHandle>)
    requires
        new.node_count() == old.node_count(),
        old.node_valid(from),
        forall|n: NodeHandle| #![trigger new.succs(n)] new.node_valid(n) ==>
            new.succs(n) == if n == from { old.succs(n).push(to) } else { old.succs(n) },
        is_path(new, p),
    ensures
        reaches(old, p[0], p.last()) || (reaches(old, p[0], from) && reaches(new, to, p.last())),
    decreases p.len(),
{
    if p.len() == 1 {
        lemma_reaches_self(old, p[0]);
    } else {
        let q = p.drop_last();
        assert forall|i: int| 0 <= i < q.len() - 1 implies new.node_valid(#[trigger] q[i]) && new.succs(q[i]).contains(q[i + 1]) by {
            assert(q[i] == p[i] && q[i + 1] == p[i + 1]);
        }
        lemma_path_after_add(new, old, from, to, q);
        let z = q.last();
        let y = p.last();
        assert(z == p[p.len() - 2]);
        assert(new.node_valid(z) && new.succs(z).contains(y));
        let j = choose|j: int| 0 <= j < new.succs(z).len() && new.succs(z)[j] == y;
        let old_edge = z != from || j < old.succs(z).len();
        if old_edge {
            assert(old.succs(z)[j] == y);
            assert(old.succs(z).contains(y));
            let e = seq![z, y];
            assert(is_path(old, e) && e[0] == z && e.last() == y);
            let ez = seq![z, y];
            assert forall|i: int| 0 <= i < ez.len() - 1 implies new.node_valid(#[trigger] ez[i]) && new.succs(ez[i]).contains(ez[i + 1]) by {}
            assert(reaches(new, z, y));
            if reaches(old, p[0], z) {
                lemma_reaches_trans(old, p[0], z, y);
            } else {
                lemma_reaches_trans(new, to, z, y);
            }
        } else {
            assert(z == from && y == to);
            lemma_reaches_self(new, to);
            if reaches(old, p[0], z) {
            } else {
            }
        }
    }
}

/// An edge `a -> b` is a path from `a` to `b`.
pub proof fn lemma_reaches_edge(dag: &DAG, a: NodeHandle, b: NodeHandle)
    requires
        dag.node_valid(a),
        dag.succs(a).contains(b),
    ensures
        reaches(dag, a, b),
{
    let e = seq![a, b];
    assert forall|i: int| 0 <= i < e.len() - 1 implies dag.node_valid(#[trigger] e[i]) && dag.succs(e[i]).contains(e[i + 1]) by {}
    assert(is_path(dag, e) && e[0] == a && e.last() == b);
}

/// Adding an edge `from -> to` between different nodes, where `to` does
/// not reach `from`, keeps the dag free of back edges.
pub proof fn lemma_no_back_edges_after_add(new: &DAG, old: &DAG, from: NodeHandle, to: NodeHandle)
    requires
        old.no_back_edges(),
        new.node_count() == old.node_count(),
        old.node_valid(from),
        old.node_valid(to),
        from != to,
        !reaches(old, to, from),
        forall|n: NodeHandle| #![trigger new.succs(n)] new.node_valid(n) ==>
            new.succs(n) == if n == from { old.succs(n).push(to) } else { old.succs(n) },
    ensures
        new.no_back_edges(),
{
    assert forall|n: NodeHandle, j: int|
        #![trigger new.succs(n)[j]]
        new.node_valid(n) && 0 <= j < new.succs(n).len() implies {
            let d = new.succs(n)[j];
            d == n || !reaches(new, d, n)
        } by {
        let d = new.succs(n)[j];
        let fresh = n == from && j == old.succs(n).len();
        if d != n && reaches(new, d, n) {
            if !fresh {
                assert(old.succs(n)[j] == d);
                assert(old.succs(n).contains(d));
            }
            lemma_reaches_after_add(new, old, from, to, d, n);
            if reaches(old, d, n) {
                if fresh {
                    assert(d == to);
                } else {
                    assert(old.succs(n)[j] == d);
                }
            } else {
                lemma_reaches_after_add(new, old, from, to, to, n);
                if reaches(old, to, n) {
                    if fresh {
                        assert(d == to);
                    } else {
                        lemma_reaches_edge(old, n, d);
                        lemma_reaches_trans(old, to, n, d);
                        lemma_reaches_trans(old, to, d, from);
                    }
                }
            }
        }
    }
}

impl DAG {
    /// Whether `verify` would find the dag sound: when the dag validates
    /// itself, no edge leads back to a node that reaches its source, and the
    /// dag-wide rank holds no more entries than there are nodes.
    pub fn checks_pass(&self) -> (r: bool)
        requires
            self.wf(),
        ensures
            r == self.passes_checks(),
    {
        if !self.validate {
            return true;
        }
        let mut i: usize = 0;
        while i < self.nodes.len()
            invariant
                self.wf(),
                self.validate,
                i <= self.node_count(),
                forall|n: NodeHandle, j: int|
                    #![trigger self.succs(n)[j]]
                    self.node_valid(n) && n.index() < i && 0 <= j < self.succs(n).len() ==> {
                        let d = self.succs(n)[j];
                        d == n || !reaches(self, d, n)
                    },
            decreases self.node_count() - i,
        {
            let from = NodeHandle::from(i);
            let mut j: usize = 0;
            while j < self.nodes[i].successors.len()
                invariant
                    self.wf(),
                    self.validate,
                    i < self.node_count(),
                    from == crate::handles::node_handle(i as int),
                    j <= self.succs(from).len(),
                    forall|n: NodeHandle, k: int|
                        #![trigger self.succs(n)[k]]
                        self.node_valid(n) && n.index() < i && 0 <= k < self.succs(n).len() ==> {
                            let d = self.succs(n)[k];
                            d == n || !reaches(self, d, n)
                        },
                    forall|k: int| 0 <= k < j ==> {
                        let d = #[trigger] self.succs(from)[k];
                        d == from || !reaches(self, d, from)
                    },
                decreases self.succs(from).len() - j,
            {
                let dest = self.nodes[i].successors[j];
                proof { assert(self.node_valid(self.succs(from)[j as int])); }
                if dest != from && self.is_reachable(dest, from) {
                    proof {
                        assert(!self.no_back_edges()) by {
                            assert(self.succs(from)[j as int] == dest);
                        }
                    }
                    return false;
                }
                j = j + 1;
            }
            proof {
                assert forall|n: NodeHandle, k: int|
                    #![trigger self.succs(n)[k]]
                    self.node_valid(n) && n.index() < i + 1 && 0 <= k < self.succs(n).len() implies {
                        let d = self.succs(n)[k];
                        d == n || !reaches(self, d, n)
                    } by {
                    if n.index() == i {
                        assert(n == from);
                    }
                }
            }
            i = i + 1;
        }
        proof {
            assert(self.no_back_edges()) by {
                assert forall|n: NodeHandle, k: int|
                    #![trigger self.succs(n)[k]]
                    self.node_valid(n) && 0 <= k < self.succs(n).len() implies {
                        let d = self.succs(n)[k];
                        d == n || !reaches(self, d, n)
                    } by {}
            }
        }
        let nlen = self.nodes.len();
        let mut cnt: usize = 0;
        let mut k: usize = 0;
        let ghost rows = self.node_rows();
        proof {
            assert(rows.take(0) =~= Seq::<Seq<NodeHandle>>::empty());
        }
        while k < self.ranks.len()
            invariant
                rows == self.node_rows(),
                rows.len() == self.ranks@.len(),
                nlen == self.node_count(),
                self.no_back_edges(),
                self.validate,
                k <= rows.len(),
                cnt == crate::seqs::total_len(rows.take(k as int)),
            decreases rows.len() - k,
        {
            let len = self.ranks[k].len();
            proof {
                let t = rows.take(k as int + 1);
                assert(t.drop_last() =~= rows.take(k as int));
                assert(t.last() == rows[k as int]);
                assert(rows[k as int] == self.ranks@[k as int]@);
                crate::dag::lemma_total_len_prefix(rows, k as int + 1);
            }
            match cnt.checked_add(len) {
                Some(c) => {
                    cnt = c;
                },
                None => {
                    return false;
                },
            }
            k = k + 1;
        }
        proof {
            assert(rows.take(rows.len() as int) =~= rows);
        }
        cnt <= self.nodes.len()
    }
}

} // verus!
