//! The Ranked-DAG data structure. It represents the edges between the nodes
//! of the dag as well as the leveling of the nodes. A rank is the ordering of
//! some units along the x-axis. Users of this data structure may change the
//! leveling of nodes, and the only guarantee is that the nodes are assigned to
//! some level.

use vstd::prelude::*;
use crate::handles::{NodeHandle, SubgraphHandle, UnitHandle, node_handle};
use crate::rank::{TraverseRank, max_row_len};
use crate::unit_map::UnitMap;
use crate::seqs::{first_index, lemma_first_index, lemma_first_index_absent, remove_first, flatten, total_len, without};

verus! {

broadcast use vstd::seq_lib::group_to_multiset_ensures;

/// A node of the dag with its edges, both to other nodes and between units.
#[derive(Debug)]
pub struct Node {
    pub(crate) parent_subgraph_idx: SubgraphHandle,
    pub(crate) successors: Vec<NodeHandle>,
    pub(crate) predecessors: Vec<NodeHandle>,
    pub(crate) successors_u: Vec<UnitHandle>,
    pub(crate) predecessors_u: Vec<UnitHandle>,
}

impl Node {
    /// A node of subgraph `parent` with no edges.
    pub open(crate) spec fn is_fresh(&self, parent: SubgraphHandle) -> bool {
        &&& self.parent_subgraph_idx == parent
        &&& self.successors@.len() == 0
        &&& self.predecessors@.len() == 0
        &&& self.successors_u@.len() == 0
        &&& self.predecessors_u@.len() == 0
    }

    pub fn new(subgraph_idx: SubgraphHandle) -> (r: Self)
        ensures
            r.is_fresh(subgraph_idx),
    {
        Node {
            successors: Vec::new(),
            predecessors: Vec::new(),
            successors_u: Vec::new(),
            predecessors_u: Vec::new(),
            parent_subgraph_idx: subgraph_idx,
        }
    }
}

/// A subgraph: its member nodes and subgraphs, its unit edges, the ranks
/// of its members, and the box that its layout takes in the rank of its
/// parent (left column, top row, width and height).
#[derive(Debug)]
pub struct Subgraph {
    pub(crate) nodes: Vec<NodeHandle>,
    pub(crate) subgraphs: Vec<SubgraphHandle>,
    pub(crate) parent_subgraph_idx: SubgraphHandle,
    pub(crate) successors_u: Vec<UnitHandle>,
    pub(crate) predecessors_u: Vec<UnitHandle>,
    pub(crate) ranks: TraverseRank,
    pub(crate) x_0: usize,
    pub(crate) y_0: usize,
    pub(crate) width: usize,
    pub(crate) height: usize,
}

pub type RankType = Vec<Vec<NodeHandle>>;

/// The Ranked-DAG data structure.
#[derive(Debug)]
pub struct DAG {
    /// A list of nodes in the dag.
    pub(crate) nodes: Vec<Node>,
    /// Places nodes in levels.
    pub(crate) ranks: RankType,
    /// levels info
    pub(crate) levels: Vec<usize>,
    /// Perform validation checks.
    pub(crate) validate: bool,
    /// A list of subgraphs in the dag.
    pub(crate) subgraphs: Vec<Subgraph>,
}

/// Node iterator for iterating over nodes in the graph.
#[derive(Debug)]
pub struct NodeIterator {
    pub(crate) curr: usize,
    pub(crate) last: usize,
}

impl NodeIterator {
    pub open(crate) spec fn wf(&self) -> bool {
        self.curr <= self.last
    }

    /// The handles that are still to come, in order.
    pub open(crate) spec fn remaining(&self) -> Seq<NodeHandle> {
        Seq::new((self.last - self.curr) as nat, |i: int| NodeHandle { idx: (self.curr + i) as usize })
    }

    /// The next handle, or `None` when the iteration is over.
    pub fn next(&mut self) -> (r: Option<NodeHandle>)
        requires
            old(self).wf(),
        ensures
            final(self).wf(),
            old(self).remaining().len() == 0 ==> r is None && final(self).remaining() == old(self).remaining(),
            old(self).remaining().len() > 0 ==> r == Some(old(self).remaining()[0])
                && final(self).remaining() == old(self).remaining().drop_first(),
    {
        if self.curr == self.last {
            return None;
        }
        let item = Some(NodeHandle::from(self.curr));
        self.curr += 1;
        proof { assert(self.remaining() =~= old(self).remaining().drop_first()); }
        item
    }
}

/// The number of occurrences of `x` in `s`.
pub open spec fn occ<A>(s: Seq<A>, x: A) -> nat {
    s.to_multiset().count(x)
}

/// Converts a row of units that are all nodes into a row of node handles.
pub open(crate) spec fn unit_to_node(u: UnitHandle) -> NodeHandle {
    match u {
        UnitHandle::Node(n) => n,
        UnitHandle::Subgraph(s) => NodeHandle { idx: s.idx },
    }
}

impl DAG {
    // ---------------------------------------------------------------------
    // The model.
    // ---------------------------------------------------------------------

    pub open(crate) spec fn validating(&self) -> bool {
        self.validate
    }

    pub open(crate) spec fn node_list(&self) -> Seq<Node> {
        self.nodes@
    }

    pub open(crate) spec fn node_levels(&self) -> Seq<usize> {
        self.levels@
    }

    pub open(crate) spec fn subgraph_list(&self) -> Seq<Subgraph> {
        self.subgraphs@
    }

    pub open(crate) spec fn rank_vecs(&self) -> Seq<Vec<NodeHandle>> {
        self.ranks@
    }

    pub open(crate) spec fn node_count(&self) -> nat {
        self.nodes@.len()
    }

    pub open(crate) spec fn subgraph_count(&self) -> nat {
        self.subgraphs@.len()
    }

    pub open(crate) spec fn node_valid(&self, n: NodeHandle) -> bool {
        n.index() < self.node_count()
    }

    pub open(crate) spec fn subgraph_valid(&self, s: SubgraphHandle) -> bool {
        s.index() < self.subgraph_count()
    }

    pub open(crate) spec fn unit_valid(&self, u: UnitHandle) -> bool {
        match u {
            UnitHandle::Node(n) => self.node_valid(n),
            UnitHandle::Subgraph(s) => self.subgraph_valid(s),
        }
    }

    /// The node successors of `n`.
    pub open(crate) spec fn succs(&self, n: NodeHandle) -> Seq<NodeHandle> {
        self.nodes@[n.index() as int].successors@
    }

    /// The node predecessors of `n`.
    pub open(crate) spec fn preds(&self, n: NodeHandle) -> Seq<NodeHandle> {
        self.nodes@[n.index() as int].predecessors@
    }

    /// The unit successors of `u`.
    pub open(crate) spec fn unit_succs(&self, u: UnitHandle) -> Seq<UnitHandle> {
        match u {
            UnitHandle::Node(n) => self.nodes@[n.index() as int].successors_u@,
            UnitHandle::Subgraph(s) => self.subgraphs@[s.index() as int].successors_u@,
        }
    }

    /// The unit predecessors of `u`.
    pub open(crate) spec fn unit_preds(&self, u: UnitHandle) -> Seq<UnitHandle> {
        match u {
            UnitHandle::Node(n) => self.nodes@[n.index() as int].predecessors_u@,
            UnitHandle::Subgraph(s) => self.subgraphs@[s.index() as int].predecessors_u@,
        }
    }

    /// The subgraph that `u` belongs to.
    pub open(crate) spec fn parent_of(&self, u: UnitHandle) -> SubgraphHandle {
        match u {
            UnitHandle::Node(n) => self.nodes@[n.index() as int].parent_subgraph_idx,
            UnitHandle::Subgraph(s) => self.subgraphs@[s.index() as int].parent_subgraph_idx,
        }
    }

    /// The ranks of subgraph `s`.
    pub open(crate) spec fn rank_of(&self, s: SubgraphHandle) -> TraverseRank {
        self.subgraphs@[s.index() as int].ranks
    }

    /// The member nodes of subgraph `s`.
    pub open(crate) spec fn member_nodes(&self, s: SubgraphHandle) -> Seq<NodeHandle> {
        self.subgraphs@[s.index() as int].nodes@
    }

    /// The member subgraphs of subgraph `s`.
    pub open(crate) spec fn member_subgraphs(&self, s: SubgraphHandle) -> Seq<SubgraphHandle> {
        self.subgraphs@[s.index() as int].subgraphs@
    }

    /// The units that are members of subgraph `s`: its nodes, then its subgraphs.
    pub open(crate) spec fn members(&self, s: SubgraphHandle) -> Seq<UnitHandle> {
        self.member_nodes(s).map_values(|n: NodeHandle| UnitHandle::Node(n))
            + self.member_subgraphs(s).map_values(|t: SubgraphHandle| UnitHandle::Subgraph(t))
    }

    /// The rows of the dag-wide rank.
    pub open(crate) spec fn node_rows(&self) -> Seq<Seq<NodeHandle>> {
        self.ranks@.map_values(|r: Vec<NodeHandle>| r@)
    }

    /// The structural invariant kept by every operation but `clear` and the
    /// functions that hand out a mutable edge list.
    pub open(crate) spec fn wf(&self) -> bool {
        &&& self.levels@.len() == self.node_count()
        &&& forall|n: NodeHandle, j: int|
            #![trigger self.succs(n)[j]]
            self.node_valid(n) && 0 <= j < self.succs(n).len() ==> self.node_valid(self.succs(n)[j])
        &&& forall|n: NodeHandle, j: int|
            #![trigger self.preds(n)[j]]
            self.node_valid(n) && 0 <= j < self.preds(n).len() ==> self.node_valid(self.preds(n)[j])
        &&& forall|u: UnitHandle, j: int|
            #![trigger self.unit_succs(u)[j]]
            self.unit_valid(u) && 0 <= j < self.unit_succs(u).len() ==> self.unit_valid(self.unit_succs(u)[j])
        &&& forall|u: UnitHandle, j: int|
            #![trigger self.unit_preds(u)[j]]
            self.unit_valid(u) && 0 <= j < self.unit_preds(u).len() ==> self.unit_valid(self.unit_preds(u)[j])
        &&& forall|n: NodeHandle|
            #![trigger self.parent_of(UnitHandle::Node(n))]
            self.node_valid(n) ==> self.subgraph_valid(self.parent_of(UnitHandle::Node(n)))
        &&& forall|s: SubgraphHandle, j: int|
            #![trigger self.member_nodes(s)[j]]
            self.subgraph_valid(s) && 0 <= j < self.member_nodes(s).len() ==> {
                &&& self.node_valid(self.member_nodes(s)[j])
                &&& self.parent_of(UnitHandle::Node(self.member_nodes(s)[j])) == s
            }
        &&& forall|s: SubgraphHandle, j: int|
            #![trigger self.member_subgraphs(s)[j]]
            self.subgraph_valid(s) && 0 <= j < self.member_subgraphs(s).len() ==> {
                &&& self.subgraph_valid(self.member_subgraphs(s)[j])
                &&& self.parent_of(UnitHandle::Subgraph(self.member_subgraphs(s)[j])) == s
            }
        &&& forall|a: NodeHandle, b: NodeHandle|
            #![trigger occ(self.succs(a), b), occ(self.preds(b), a)]
            self.node_valid(a) && self.node_valid(b) ==> occ(self.succs(a), b) == occ(self.preds(b), a)
        &&& forall|u: UnitHandle, v: UnitHandle|
            #![trigger occ(self.unit_succs(u), v), occ(self.unit_preds(v), u)]
            self.unit_valid(u) && self.unit_valid(v) ==> occ(self.unit_succs(u), v) == occ(self.unit_preds(v), u)
    }
}


/// `rows` with empty rows appended until there are at least `n` of them.
pub open spec fn pad_rows<A>(rows: Seq<Seq<A>>, n: nat) -> Seq<Seq<A>> {
    if rows.len() >= n {
        rows
    } else {
        rows + Seq::new((n - rows.len()) as nat, |i: int| Seq::<A>::empty())
    }
}

/// `row` with `elem` added at its front or at its end.
pub open spec fn add_to_row<A>(row: Seq<A>, elem: A, prepend: bool) -> Seq<A> {
    if prepend {
        seq![elem] + row
    } else {
        row.push(elem)
    }
}

impl DAG {
    /// `self` and `other` agree on everything but the ranks and the box of
    /// subgraph `s`.
    pub open(crate) spec fn same_except_rank(&self, other: &DAG, s: SubgraphHandle) -> bool {
        &&& self.nodes@ == other.nodes@
        &&& self.ranks@ == other.ranks@
        &&& self.levels@ == other.levels@
        &&& self.validate == other.validate
        &&& self.subgraphs@.len() == other.subgraphs@.len()
        &&& forall|t: SubgraphHandle|
            #![trigger self.subgraphs@[t.index() as int]]
            #![trigger other.subgraphs@[t.index() as int]]
            self.subgraph_valid(t) ==> {
                &&& self.subgraphs@[t.index() as int].nodes@ == other.subgraphs@[t.index() as int].nodes@
                &&& self.subgraphs@[t.index() as int].subgraphs@ == other.subgraphs@[t.index() as int].subgraphs@
                &&& self.subgraphs@[t.index() as int].parent_subgraph_idx == other.subgraphs@[t.index() as int].parent_subgraph_idx
                &&& self.subgraphs@[t.index() as int].successors_u@ == other.subgraphs@[t.index() as int].successors_u@
                &&& self.subgraphs@[t.index() as int].predecessors_u@ == other.subgraphs@[t.index() as int].predecessors_u@
                &&& t != s ==> {
                    &&& self.subgraphs@[t.index() as int].x_0 == other.subgraphs@[t.index() as int].x_0
                    &&& self.subgraphs@[t.index() as int].y_0 == other.subgraphs@[t.index() as int].y_0
                    &&& self.subgraphs@[t.index() as int].width == other.subgraphs@[t.index() as int].width
                    &&& self.subgraphs@[t.index() as int].height == other.subgraphs@[t.index() as int].height
                    &&& self.rank_of(t).rows() == other.rank_of(t).rows()
                    &&& self.rank_of(t).level_map() == other.rank_of(t).level_map()
                }
            }
    }

    pub(crate) proof fn lemma_wf_frame(&self, other: &DAG)
        requires
            other.wf(),
            self.nodes@ == other.nodes@,
            self.subgraphs@ == other.subgraphs@,
            self.levels@.len() == other.levels@.len(),
        ensures
            self.wf(),
    {
        assert forall|u: UnitHandle| #[trigger] self.unit_succs(u) == other.unit_succs(u) by {}
        assert forall|u: UnitHandle| #[trigger] self.unit_preds(u) == other.unit_preds(u) by {}
        assert forall|u: UnitHandle| #[trigger] self.parent_of(u) == other.parent_of(u) by {}
        assert forall|n: NodeHandle| #[trigger] self.succs(n) == other.succs(n) by {}
        assert forall|n: NodeHandle| #[trigger] self.preds(n) == other.preds(n) by {}
        assert forall|t: SubgraphHandle| #[trigger] self.member_nodes(t) == other.member_nodes(t) by {}
        assert forall|t: SubgraphHandle| #[trigger] self.member_subgraphs(t) == other.member_subgraphs(t) by {}
    }

    pub(crate) proof fn lemma_same_except_rank_wf(&self, other: &DAG, s: SubgraphHandle)
        requires
            other.wf(),
            self.same_except_rank(other, s),
        ensures
            self.wf(),
            forall|u: UnitHandle| #[trigger] self.unit_succs(u) == other.unit_succs(u) || !self.unit_valid(u),
            forall|u: UnitHandle| #[trigger] self.unit_preds(u) == other.unit_preds(u) || !self.unit_valid(u),
            forall|u: UnitHandle| #[trigger] self.unit_valid(u) == other.unit_valid(u),
            forall|u: UnitHandle| #[trigger] self.parent_of(u) == other.parent_of(u) || !self.unit_valid(u),
    {
        assert forall|u: UnitHandle| #[trigger] self.unit_succs(u) == other.unit_succs(u) || !self.unit_valid(u) by {
            if let UnitHandle::Subgraph(t) = u {
                if self.subgraph_valid(t) {
                    assert(self.subgraphs@[t.index() as int].successors_u@ == other.subgraphs@[t.index() as int].successors_u@);
                }
            }
        }
        assert forall|u: UnitHandle| #[trigger] self.unit_preds(u) == other.unit_preds(u) || !self.unit_valid(u) by {
            if let UnitHandle::Subgraph(t) = u {
                if self.subgraph_valid(t) {
                    assert(self.subgraphs@[t.index() as int].predecessors_u@ == other.subgraphs@[t.index() as int].predecessors_u@);
                }
            }
        }
        assert forall|u: UnitHandle| #[trigger] self.parent_of(u) == other.parent_of(u) || !self.unit_valid(u) by {
            if let UnitHandle::Subgraph(t) = u {
                if self.subgraph_valid(t) {
                    assert(self.subgraphs@[t.index() as int].parent_subgraph_idx == other.subgraphs@[t.index() as int].parent_subgraph_idx);
                }
            }
        }
        assert forall|t: SubgraphHandle, j: int|
            #![trigger self.member_nodes(t)[j]]
            self.subgraph_valid(t) && 0 <= j < self.member_nodes(t).len() implies {
                &&& self.node_valid(self.member_nodes(t)[j])
                &&& self.parent_of(UnitHandle::Node(self.member_nodes(t)[j])) == t
            } by {
            assert(self.subgraphs@[t.index() as int].nodes@ == other.subgraphs@[t.index() as int].nodes@);
            assert(other.member_nodes(t)[j] == self.member_nodes(t)[j]);
        }
        assert forall|t: SubgraphHandle, j: int|
            #![trigger self.member_subgraphs(t)[j]]
            self.subgraph_valid(t) && 0 <= j < self.member_subgraphs(t).len() implies {
                &&& self.subgraph_valid(self.member_subgraphs(t)[j])
                &&& self.parent_of(UnitHandle::Subgraph(self.member_subgraphs(t)[j])) == t
            } by {
            assert(self.subgraphs@[t.index() as int].subgraphs@ == other.subgraphs@[t.index() as int].subgraphs@);
            let m = other.member_subgraphs(t)[j];
            assert(other.parent_of(UnitHandle::Subgraph(m)) == t);
            assert(self.parent_of(UnitHandle::Subgraph(m)) == other.parent_of(UnitHandle::Subgraph(m)));
        }
        assert forall|u: UnitHandle, j: int|
            #![trigger self.unit_succs(u)[j]]
            self.unit_valid(u) && 0 <= j < self.unit_succs(u).len() implies self.unit_valid(self.unit_succs(u)[j]) by {
            assert(self.unit_succs(u) == other.unit_succs(u));
            assert(other.unit_valid(other.unit_succs(u)[j]));
        }
        assert forall|u: UnitHandle, j: int|
            #![trigger self.unit_preds(u)[j]]
            self.unit_valid(u) && 0 <= j < self.unit_preds(u).len() implies self.unit_valid(self.unit_preds(u)[j]) by {
            assert(self.unit_preds(u) == other.unit_preds(u));
            assert(other.unit_valid(other.unit_preds(u)[j]));
        }
        assert forall|u: UnitHandle, v: UnitHandle|
            #![trigger occ(self.unit_succs(u), v), occ(self.unit_preds(v), u)]
            self.unit_valid(u) && self.unit_valid(v) implies occ(self.unit_succs(u), v) == occ(self.unit_preds(v), u) by {
            assert(self.unit_succs(u) == other.unit_succs(u));
            assert(self.unit_preds(v) == other.unit_preds(v));
            assert(occ(other.unit_succs(u), v) == occ(other.unit_preds(v), u));
        }
        assert forall|n: NodeHandle| #[trigger] self.succs(n) == other.succs(n) by {}
        assert forall|n: NodeHandle| #[trigger] self.preds(n) == other.preds(n) by {}
        assert forall|n: NodeHandle|
            #![trigger self.parent_of(UnitHandle::Node(n))]
            self.node_valid(n) implies self.subgraph_valid(self.parent_of(UnitHandle::Node(n))) by {
            assert(other.subgraph_valid(other.parent_of(UnitHandle::Node(n))));
        }
        assert forall|a: NodeHandle, b: NodeHandle|
            #![trigger occ(self.succs(a), b), occ(self.preds(b), a)]
            self.node_valid(a) && self.node_valid(b) implies occ(self.succs(a), b) == occ(self.preds(b), a) by {
            assert(occ(other.succs(a), b) == occ(other.preds(b), a));
        }
    }

    pub(crate) fn add_element_to_rank_subgraph(
        &mut self,
        elem: UnitHandle,
        level: usize,
        prepend: bool,
        subgraph_idx: SubgraphHandle,
    )
        requires
            old(self).subgraph_valid(subgraph_idx),
            level < usize::MAX,
        ensures
            final(self).same_except_rank(old(self), subgraph_idx),
            ({
                let grown = pad_rows(old(self).rank_of(subgraph_idx).rows(), level as nat + 1);
                final(self).rank_of(subgraph_idx).rows() == grown.update(
                    level as int,
                    add_to_row(grown[level as int], elem, prepend),
                )
            }),
            final(self).rank_of(subgraph_idx).level_map() == old(self).rank_of(subgraph_idx).level_map().insert(elem, level),
            forall|i: int| 0 <= i < old(self).subgraphs@.len() && i != subgraph_idx.index() ==>
                #[trigger] final(self).subgraphs@[i] == old(self).subgraphs@[i],
    {
        let ghost old_rows = self.rank_of(subgraph_idx).rows();
        while self.subgraphs[subgraph_idx.idx].ranks.height() < level + 1
            invariant
                self.same_except_rank(old(self), subgraph_idx),
                level < usize::MAX,
                self.subgraph_valid(subgraph_idx),
                self.rank_of(subgraph_idx).rows().len() <= level + 1 ==> self.rank_of(subgraph_idx).rows() == pad_rows(old_rows, self.rank_of(subgraph_idx).rows().len()),
                self.rank_of(subgraph_idx).rows().len() > level + 1 ==> self.rank_of(subgraph_idx).rows() == old_rows,
                self.rank_of(subgraph_idx).level_map() == old(self).rank_of(subgraph_idx).level_map(),
                forall|i: int| 0 <= i < old(self).subgraphs@.len() && i != subgraph_idx.index() ==>
                    #[trigger] self.subgraphs@[i] == old(self).subgraphs@[i],
            decreases level + 1 - self.rank_of(subgraph_idx).rows().len(),
        {
            let ghost prev = self.subgraphs@;
            self.subgraphs[subgraph_idx.idx].ranks.push_row(Vec::new());
            proof {
                assert forall|i: int| 0 <= i < prev.len() && i != subgraph_idx.index() implies #[trigger] self.subgraphs@[i] == prev[i] by {
                    assert(self.subgraphs@ == prev.update(subgraph_idx.index() as int, self.subgraphs@[subgraph_idx.index() as int]));
                }
                assert(self.rank_of(subgraph_idx).rows() =~= pad_rows(old_rows, self.rank_of(subgraph_idx).rows().len()));
            }
        }
        proof {
            assert(self.rank_of(subgraph_idx).rows() =~= pad_rows(old_rows, level as nat + 1));
        }
        let ghost prev = self.subgraphs@;
        self.subgraphs[subgraph_idx.idx].ranks.push(level, elem, prepend);
        proof {
            assert forall|i: int| 0 <= i < prev.len() && i != subgraph_idx.index() implies #[trigger] self.subgraphs@[i] == prev[i] by {
                assert(self.subgraphs@ == prev.update(subgraph_idx.index() as int, self.subgraphs@[subgraph_idx.index() as int]));
            }
        }
    }
}


impl UnitHandle {
    pub(crate) fn successors(&self, dag: &DAG) -> (r: Vec<UnitHandle>)
        requires
            dag.unit_valid(*self),
        ensures
            r@ == dag.unit_succs(*self),
    {
        match self {
            UnitHandle::Node(node) => dag.nodes[node.idx].successors_u.clone(),
            UnitHandle::Subgraph(subgraph) => dag.subgraphs[subgraph.idx].successors_u.clone(),
        }
    }

    pub(crate) fn predecessors(&self, dag: &DAG) -> (r: Vec<UnitHandle>)
        requires
            dag.unit_valid(*self),
        ensures
            r@ == dag.unit_preds(*self),
    {
        match self {
            UnitHandle::Node(node) => dag.nodes[node.idx].predecessors_u.clone(),
            UnitHandle::Subgraph(subgraph) => dag.subgraphs[subgraph.idx].predecessors_u.clone(),
        }
    }
}

impl Default for DAG {
    fn default() -> (r: Self)
        ensures
            r.wf(),
            r.is_empty_dag(),
    {
        Self::new()
    }
}

impl DAG {
    /// An empty dag that validates itself.
    pub open(crate) spec fn is_empty_dag(&self) -> bool {
        &&& self.node_count() == 0
        &&& self.subgraph_count() == 0
        &&& self.node_rows().len() == 0
        &&& self.validate
    }

    pub fn new() -> (r: Self)
        ensures
            r.wf(),
            r.is_empty_dag(),
    {
        DAG { nodes: Vec::new(), ranks: Vec::new(), levels: Vec::new(), subgraphs: Vec::new(), validate: true }
    }

    pub fn set_validate(&mut self, validate: bool)
        ensures
            final(self).validating() == validate,
            final(self).node_list() == old(self).node_list(),
            final(self).rank_vecs() == old(self).rank_vecs(),
            final(self).node_levels() == old(self).node_levels(),
            final(self).subgraph_list() == old(self).subgraph_list(),
            old(self).wf() ==> final(self).wf(),
    {
        self.validate = validate;
        proof {
            if old(self).wf() {
                self.lemma_wf_frame(old(self));
            }
        }
    }

    /// Removes the nodes and the dag-wide rank and levels. The subgraphs are
    /// kept as they are.
    pub fn clear(&mut self)
        ensures
            final(self).node_count() == 0,
            final(self).node_rows().len() == 0,
            final(self).node_levels().len() == 0,
            final(self).validating() == old(self).validating(),
            final(self).subgraph_list() == old(self).subgraph_list(),
    {
        self.nodes.clear();
        self.ranks.clear();
        self.levels.clear();
    }

    pub fn iter(&self) -> (r: NodeIterator)
        ensures
            r.wf(),
            r.remaining() == Seq::new(self.node_count(), |i: int| node_handle(i)),
    {
        let r = NodeIterator { curr: 0, last: self.nodes.len() };
        proof { assert(r.remaining() =~= Seq::new(self.node_count(), |i: int| node_handle(i))); }
        r
    }

    pub fn len(&self) -> (r: usize)
        ensures
            r == self.node_count(),
    {
        self.nodes.len()
    }

    pub fn is_empty(&self) -> (r: bool)
        ensures
            r == (self.node_count() == 0),
    {
        self.nodes.len() == 0
    }

    pub fn parent_subgraph_idx(&self, node: NodeHandle) -> (r: SubgraphHandle)
        requires
            self.node_valid(node),
        ensures
            r == self.parent_of(UnitHandle::Node(node)),
    {
        self.nodes[node.idx].parent_subgraph_idx
    }

    pub fn subgraph_from_unit_handle(&self, handle: UnitHandle) -> (r: SubgraphHandle)
        requires
            self.unit_valid(handle),
        ensures
            r == self.parent_of(handle),
    {
        match handle {
            UnitHandle::Node(node) => self.nodes[node.idx].parent_subgraph_idx,
            UnitHandle::Subgraph(subgraph) => self.subgraphs[subgraph.idx].parent_subgraph_idx,
        }
    }

    pub fn successors(&self, from: NodeHandle) -> (r: &Vec<NodeHandle>)
        requires
            self.node_valid(from),
        ensures
            r@ == self.succs(from),
    {
        &self.nodes[from.idx].successors
    }

    pub fn predecessors(&self, from: NodeHandle) -> (r: &Vec<NodeHandle>)
        requires
            self.node_valid(from),
        ensures
            r@ == self.preds(from),
    {
        &self.nodes[from.idx].predecessors
    }

    pub fn successors_u(&self, from: UnitHandle) -> (r: Vec<UnitHandle>)
        requires
            self.unit_valid(from),
        ensures
            r@ == self.unit_succs(from),
    {
        from.successors(self)
    }

    pub fn predecessors_u(&self, from: UnitHandle) -> (r: Vec<UnitHandle>)
        requires
            self.unit_valid(from),
        ensures
            r@ == self.unit_preds(from),
    {
        from.predecessors(self)
    }

    /// Mutable access to the predecessor list of `from`. The caller takes
    /// over the duty of keeping the edge lists in agreement.
    pub fn predecessors_mut(&mut self, from: NodeHandle) -> (r: &mut Vec<NodeHandle>)
        requires
            old(self).node_valid(from),
        ensures
            r@ == old(self).preds(from),
            final(self).node_list().len() == old(self).node_list().len(),
            forall|i: int| 0 <= i < old(self).node_list().len() && i != from.index() ==> final(self).node_list()[i] == old(self).node_list()[i],
            final(self).preds(from) == final(r)@,
            final(self).succs(from) == old(self).succs(from),
            final(self).unit_succs(UnitHandle::Node(from)) == old(self).unit_succs(UnitHandle::Node(from)),
            final(self).unit_preds(UnitHandle::Node(from)) == old(self).unit_preds(UnitHandle::Node(from)),
            final(self).parent_of(UnitHandle::Node(from)) == old(self).parent_of(UnitHandle::Node(from)),
            final(self).rank_vecs() == old(self).rank_vecs(),
            final(self).node_levels() == old(self).node_levels(),
            final(self).validating() == old(self).validating(),
            final(self).subgraph_list() == old(self).subgraph_list(),
    {
        &mut self.nodes[from.idx].predecessors
    }

    /// Mutable access to the successor list of `from`. The caller takes over
    /// the duty of keeping the edge lists in agreement.
    pub fn successors_mut(&mut self, from: NodeHandle) -> (r: &mut Vec<NodeHandle>)
        requires
            old(self).node_valid(from),
        ensures
            r@ == old(self).succs(from),
            final(self).node_list().len() == old(self).node_list().len(),
            forall|i: int| 0 <= i < old(self).node_list().len() && i != from.index() ==> final(self).node_list()[i] == old(self).node_list()[i],
            final(self).succs(from) == final(r)@,
            final(self).preds(from) == old(self).preds(from),
            final(self).unit_succs(UnitHandle::Node(from)) == old(self).unit_succs(UnitHandle::Node(from)),
            final(self).unit_preds(UnitHandle::Node(from)) == old(self).unit_preds(UnitHandle::Node(from)),
            final(self).parent_of(UnitHandle::Node(from)) == old(self).parent_of(UnitHandle::Node(from)),
            final(self).rank_vecs() == old(self).rank_vecs(),
            final(self).node_levels() == old(self).node_levels(),
            final(self).validating() == old(self).validating(),
            final(self).subgraph_list() == old(self).subgraph_list(),
    {
        &mut self.nodes[from.idx].successors
    }

    pub fn single_pred(&self, from: NodeHandle) -> (r: Option<NodeHandle>)
        requires
            self.node_valid(from),
        ensures
            r == if self.preds(from).len() == 1 { Some(self.preds(from)[0]) } else { None::<NodeHandle> },
    {
        if self.nodes[from.idx].predecessors.len() == 1 {
            return Some(self.nodes[from.idx].predecessors[0]);
        }
        None
    }

    pub fn single_succ(&self, from: NodeHandle) -> (r: Option<NodeHandle>)
        requires
            self.node_valid(from),
        ensures
            r == if self.succs(from).len() == 1 { Some(self.succs(from)[0]) } else { None::<NodeHandle> },
    {
        if self.nodes[from.idx].successors.len() == 1 {
            return Some(self.nodes[from.idx].successors[0]);
        }
        None
    }

    /// The number of rows in the dag-wide rank.
    pub fn num_levels(&self) -> (r: usize)
        ensures
            r == self.node_rows().len(),
    {
        self.ranks.len()
    }

    pub fn num_levels_subgraph(&self, subgraph_idx: SubgraphHandle) -> (r: usize)
        requires
            self.subgraph_valid(subgraph_idx),
        ensures
            r == self.rank_of(subgraph_idx).rows().len(),
    {
        self.subgraphs[subgraph_idx.idx].ranks.height()
    }

    /// A mutable reference to the row at level `level`.
    pub fn row_mut(&mut self, level: usize) -> (r: &mut Vec<NodeHandle>)
        requires
            level < old(self).node_rows().len(),
        ensures
            r@ == old(self).node_rows()[level as int],
            final(self).node_rows() == old(self).node_rows().update(level as int, final(r)@),
            final(self).node_list() == old(self).node_list(),
            final(self).node_levels() == old(self).node_levels(),
            final(self).validating() == old(self).validating(),
            final(self).subgraph_list() == old(self).subgraph_list(),
    {
        proof {
            assert(old(self).node_rows().update(level as int, old(self).ranks@[level as int]@) =~= old(self).node_rows());
        }
        &mut self.ranks[level]
    }

    /// A reference to the row at level `level`.
    pub fn row(&self, level: usize) -> (r: &Vec<NodeHandle>)
        requires
            level < self.node_rows().len(),
        ensures
            r@ == self.node_rows()[level as int],
    {
        &self.ranks[level]
    }

    pub fn row_subgraph(&self, subgraph_idx: SubgraphHandle, level: usize) -> (r: &Vec<UnitHandle>)
        requires
            self.subgraph_valid(subgraph_idx),
            level < self.rank_of(subgraph_idx).rows().len(),
        ensures
            r@ == self.rank_of(subgraph_idx).rows()[level as int],
    {
        self.subgraphs[subgraph_idx.idx].ranks.row(level)
    }

    pub(crate) fn row_subgraph_mut(&mut self, subgraph_idx: SubgraphHandle, level: usize) -> (r: &mut Vec<UnitHandle>)
        requires
            old(self).subgraph_valid(subgraph_idx),
            level < old(self).rank_of(subgraph_idx).rows().len(),
        ensures
            r@ == old(self).rank_of(subgraph_idx).rows()[level as int],
            final(self).same_except_rank(old(self), subgraph_idx),
            final(self).rank_of(subgraph_idx).rows() == old(self).rank_of(subgraph_idx).rows().update(level as int, final(r)@),
            final(self).rank_of(subgraph_idx).level_map() == old(self).rank_of(subgraph_idx).level_map(),
    {
        self.subgraphs[subgraph_idx.idx].ranks.row_mut(level)
    }

    /// A copy of the rank of subgraph `subgraph_idx`.
    pub(crate) fn rank_copy(&self, subgraph_idx: SubgraphHandle) -> (r: TraverseRank)
        requires
            self.subgraph_valid(subgraph_idx),
        ensures
            r.rows() == self.rank_of(subgraph_idx).rows(),
            r.level_map() == self.rank_of(subgraph_idx).level_map(),
    {
        self.subgraphs[subgraph_idx.idx].ranks.duplicate()
    }

    /// Replaces the rank of subgraph `subgraph_idx` with `rank`.
    pub(crate) fn set_rank(&mut self, subgraph_idx: SubgraphHandle, rank: TraverseRank)
        requires
            old(self).subgraph_valid(subgraph_idx),
        ensures
            final(self).same_except_rank(old(self), subgraph_idx),
            final(self).rank_of(subgraph_idx) == rank,
    {
        self.subgraphs[subgraph_idx.idx].ranks = rank;
    }

    /// The whole dag-wide rank.
    pub fn ranks(&self) -> (r: &RankType)
        ensures
            r@.map_values(|v: Vec<NodeHandle>| v@) == self.node_rows(),
    {
        &self.ranks
    }

    /// Mutable access to the whole dag-wide rank.
    pub fn ranks_mut(&mut self) -> (r: &mut RankType)
        ensures
            r@ == old(self).rank_vecs(),
            final(self).rank_vecs() == final(r)@,
            final(self).node_list() == old(self).node_list(),
            final(self).node_levels() == old(self).node_levels(),
            final(self).validating() == old(self).validating(),
            final(self).subgraph_list() == old(self).subgraph_list(),
    {
        &mut self.ranks
    }

    /// Returns true if `elem` is the first node in the row `level`.
    pub fn is_first_in_row(&self, elem: NodeHandle, level: usize) -> (r: bool)
        ensures
            r == (level < self.node_rows().len() && self.node_rows()[level as int].len() > 0
                && self.node_rows()[level as int][0] == elem),
    {
        if level >= self.ranks.len() || self.ranks[level].len() == 0 {
            return false;
        }
        self.ranks[level][0] == elem
    }

    /// Returns true if `elem` is the last node in the row `level`.
    pub fn is_last_in_row(&self, elem: NodeHandle, level: usize) -> (r: bool)
        ensures
            r == (level < self.node_rows().len() && self.node_rows()[level as int].len() > 0
                && self.node_rows()[level as int].last() == elem),
    {
        if level >= self.ranks.len() || self.ranks[level].len() == 0 {
            return false;
        }
        let last_idx = self.ranks[level].len() - 1;
        self.ranks[level][last_idx] == elem
    }

    /// The level of the unit `handle` in the rank of the subgraph it belongs to.
    pub fn level_subgraph(&self, handle: UnitHandle) -> (r: usize)
        requires
            self.unit_valid(handle),
            self.subgraph_valid(self.parent_of(handle)),
            self.rank_of(self.parent_of(handle)).level_map().contains_key(handle),
        ensures
            r == self.rank_of(self.parent_of(handle)).level_map()[handle],
    {
        let subgraph_idx = match handle {
            UnitHandle::Node(node) => self.nodes[node.idx].parent_subgraph_idx,
            UnitHandle::Subgraph(subgraph) => self.subgraphs[subgraph.idx].parent_subgraph_idx,
        };
        self.subgraphs[subgraph_idx.idx].ranks.level(handle)
    }

    /// The level of the node `node` in the dag-wide leveling.
    pub fn level(&self, node: NodeHandle) -> (r: usize)
        requires
            self.wf(),
            self.node_valid(node),
        ensures
            r == self.node_levels()[node.index() as int],
    {
        self.levels[node.get_index()]
    }

    /// The number of nodes that are in the dag-wide rank.
    pub(crate) fn count_nodes_in_ranks(&self) -> (r: usize)
        requires
            total_len(self.node_rows()) <= usize::MAX,
        ensures
            r == total_len(self.node_rows()),
    {
        let mut cnt: usize = 0;
        let mut i: usize = 0;
        while i < self.ranks.len()
            invariant
                i <= self.ranks.len(),
                total_len(self.node_rows()) <= usize::MAX,
                cnt == total_len(self.node_rows().take(i as int)),
            decreases self.ranks.len() - i,
        {
            proof {
                let t = self.node_rows().take(i as int + 1);
                assert(t.drop_last() =~= self.node_rows().take(i as int));
                lemma_total_len_prefix(self.node_rows(), i as int + 1);
            }
            cnt += self.ranks[i].len();
            i = i + 1;
        }
        proof { assert(self.node_rows().take(i as int) =~= self.node_rows()); }
        cnt
    }
}

pub proof fn lemma_total_len_prefix<A>(ss: Seq<Seq<A>>, k: int)
    requires
        0 <= k <= ss.len(),
    ensures
        total_len(ss.take(k)) <= total_len(ss),
    decreases ss.len(),
{
    if k < ss.len() {
        assert(ss.drop_last().take(k) =~= ss.take(k));
        lemma_total_len_prefix(ss.drop_last(), k);
    } else {
        assert(ss.take(k) =~= ss);
    }
}


impl DAG {
    /// Subgraph `t` has the same members, parent, unit edges and ranks in
    /// `self` and in `other`.
    pub open(crate) spec fn same_subgraph(&self, other: &DAG, t: SubgraphHandle) -> bool {
        &&& self.member_nodes(t) == other.member_nodes(t)
        &&& self.member_subgraphs(t) == other.member_subgraphs(t)
        &&& self.parent_of(UnitHandle::Subgraph(t)) == other.parent_of(UnitHandle::Subgraph(t))
        &&& self.unit_succs(UnitHandle::Subgraph(t)) == other.unit_succs(UnitHandle::Subgraph(t))
        &&& self.unit_preds(UnitHandle::Subgraph(t)) == other.unit_preds(UnitHandle::Subgraph(t))
        &&& self.rank_of(t).rows() == other.rank_of(t).rows()
        &&& self.rank_of(t).level_map() == other.rank_of(t).level_map()
    }

    /// `self` and `other` have the same nodes and subgraphs, with the same
    /// parents, members and ranks (the edges may differ).
    pub open(crate) spec fn same_layout(&self, other: &DAG) -> bool {
        &&& self.node_count() == other.node_count()
        &&& self.subgraph_count() == other.subgraph_count()
        &&& self.node_rows() == other.node_rows()
        &&& self.node_levels() == other.node_levels()
        &&& self.validating() == other.validating()
        &&& forall|u: UnitHandle| #[trigger] self.parent_of(u) == other.parent_of(u) || !self.unit_valid(u)
        &&& forall|t: SubgraphHandle|
            #![trigger self.member_nodes(t)]
            #![trigger self.member_subgraphs(t)]
            #![trigger self.rank_of(t)]
            self.subgraph_valid(t) ==> {
                &&& self.member_nodes(t) == other.member_nodes(t)
                &&& self.member_subgraphs(t) == other.member_subgraphs(t)
                &&& self.rank_of(t).rows() == other.rank_of(t).rows()
                &&& self.rank_of(t).level_map() == other.rank_of(t).level_map()
            }
    }

    /// Adds an edge between the nodes `from` and `to`, and between the units
    /// `from_t` and `to_t` that stand for them.
    pub fn add_edge(&mut self, from: NodeHandle, to: NodeHandle, from_t: UnitHandle, to_t: UnitHandle)
        requires
            old(self).wf(),
            old(self).node_valid(from),
            old(self).node_valid(to),
            old(self).unit_valid(from_t),
            old(self).unit_valid(to_t),
        ensures
            final(self).wf(),
            final(self).same_layout(old(self)),
            forall|n: NodeHandle| #![trigger final(self).succs(n)] final(self).node_valid(n) ==>
                final(self).succs(n) == if n == from { old(self).succs(n).push(to) } else { old(self).succs(n) },
            forall|n: NodeHandle| #![trigger final(self).preds(n)] final(self).node_valid(n) ==>
                final(self).preds(n) == if n == to { old(self).preds(n).push(from) } else { old(self).preds(n) },
            forall|u: UnitHandle| #![trigger final(self).unit_succs(u)] final(self).unit_valid(u) ==>
                final(self).unit_succs(u) == if u == from_t { old(self).unit_succs(u).push(to_t) } else { old(self).unit_succs(u) },
            forall|u: UnitHandle| #![trigger final(self).unit_preds(u)] final(self).unit_valid(u) ==>
                final(self).unit_preds(u) == if u == to_t { old(self).unit_preds(u).push(from_t) } else { old(self).unit_preds(u) },
    {
        self.nodes[from.idx].successors.push(to);
        self.nodes[to.idx].predecessors.push(from);
        match from_t {
            UnitHandle::Node(node) => {
                self.nodes[node.idx].successors_u.push(to_t);
            },
            UnitHandle::Subgraph(subgraph) => {
                self.subgraphs[subgraph.idx].successors_u.push(to_t);
            },
        }
        match to_t {
            UnitHandle::Node(node) => {
                self.nodes[node.idx].predecessors_u.push(from_t);
            },
            UnitHandle::Subgraph(subgraph) => {
                self.subgraphs[subgraph.idx].predecessors_u.push(from_t);
            },
        }
        proof {
            let o = old(self);
            assert forall|n: NodeHandle| #![trigger self.succs(n)] self.node_valid(n) implies
                self.succs(n) == if n == from { o.succs(n).push(to) } else { o.succs(n) } by {}
            assert forall|n: NodeHandle| #![trigger self.preds(n)] self.node_valid(n) implies
                self.preds(n) == if n == to { o.preds(n).push(from) } else { o.preds(n) } by {}
            assert forall|u: UnitHandle| #![trigger self.unit_succs(u)] self.unit_valid(u) implies
                self.unit_succs(u) == if u == from_t { o.unit_succs(u).push(to_t) } else { o.unit_succs(u) } by {}
            assert forall|u: UnitHandle| #![trigger self.unit_preds(u)] self.unit_valid(u) implies
                self.unit_preds(u) == if u == to_t { o.unit_preds(u).push(from_t) } else { o.unit_preds(u) } by {}
            assert forall|u: UnitHandle| #[trigger] self.parent_of(u) == o.parent_of(u) || !self.unit_valid(u) by {}
            assert forall|t: SubgraphHandle|
                #![trigger self.member_nodes(t)]
                #![trigger self.member_subgraphs(t)]
                #![trigger self.rank_of(t)]
                self.subgraph_valid(t) implies {
                    &&& self.member_nodes(t) == o.member_nodes(t)
                    &&& self.member_subgraphs(t) == o.member_subgraphs(t)
                    &&& self.rank_of(t).rows() == o.rank_of(t).rows()
                    &&& self.rank_of(t).level_map() == o.rank_of(t).level_map()
                } by {}
            assert(self.node_rows() =~= o.node_rows());
            assert forall|a: NodeHandle, b: NodeHandle|
                #![trigger occ(self.succs(a), b), occ(self.preds(b), a)]
                self.node_valid(a) && self.node_valid(b) implies occ(self.succs(a), b) == occ(self.preds(b), a) by {
                assert(occ(o.succs(a), b) == occ(o.preds(b), a));
            }
            assert forall|u: UnitHandle, v: UnitHandle|
                #![trigger occ(self.unit_succs(u), v), occ(self.unit_preds(v), u)]
                self.unit_valid(u) && self.unit_valid(v) implies occ(self.unit_succs(u), v) == occ(self.unit_preds(v), u) by {
                assert(occ(o.unit_succs(u), v) == occ(o.unit_preds(v), u));
            }
            self.lemma_edges_changed_wf(o);
        }
    }

    /// Everything but the two symmetry conditions of `wf` survives a change
    /// that keeps the layout and only adds valid entries to edge lists.
    pub(crate) proof fn lemma_edges_changed_wf(&self, o: &DAG)
        requires
            o.wf(),
            self.same_layout(o),
            self.levels@.len() == o.levels@.len(),
            forall|n: NodeHandle, j: int| #![trigger self.succs(n)[j]]
                self.node_valid(n) && 0 <= j < self.succs(n).len() ==> self.node_valid(self.succs(n)[j])
                    || (j < o.succs(n).len() && self.succs(n)[j] == o.succs(n)[j]),
            forall|n: NodeHandle, j: int| #![trigger self.preds(n)[j]]
                self.node_valid(n) && 0 <= j < self.preds(n).len() ==> self.node_valid(self.preds(n)[j])
                    || (j < o.preds(n).len() && self.preds(n)[j] == o.preds(n)[j]),
            forall|u: UnitHandle, j: int| #![trigger self.unit_succs(u)[j]]
                self.unit_valid(u) && 0 <= j < self.unit_succs(u).len() ==> self.unit_valid(self.unit_succs(u)[j])
                    || (j < o.unit_succs(u).len() && self.unit_succs(u)[j] == o.unit_succs(u)[j]),
            forall|u: UnitHandle, j: int| #![trigger self.unit_preds(u)[j]]
                self.unit_valid(u) && 0 <= j < self.unit_preds(u).len() ==> self.unit_valid(self.unit_preds(u)[j])
                    || (j < o.unit_preds(u).len() && self.unit_preds(u)[j] == o.unit_preds(u)[j]),
            forall|a: NodeHandle, b: NodeHandle|
                #![trigger occ(self.succs(a), b), occ(self.preds(b), a)]
                self.node_valid(a) && self.node_valid(b) ==> occ(self.succs(a), b) == occ(self.preds(b), a),
            forall|u: UnitHandle, v: UnitHandle|
                #![trigger occ(self.unit_succs(u), v), occ(self.unit_preds(v), u)]
                self.unit_valid(u) && self.unit_valid(v) ==> occ(self.unit_succs(u), v) == occ(self.unit_preds(v), u),
        ensures
            self.wf(),
    {
        assert forall|n: NodeHandle, j: int| #![trigger self.succs(n)[j]]
            self.node_valid(n) && 0 <= j < self.succs(n).len() implies self.node_valid(self.succs(n)[j]) by {
            if !self.node_valid(self.succs(n)[j]) {
                assert(o.node_valid(o.succs(n)[j]));
            }
        }
        assert forall|n: NodeHandle, j: int| #![trigger self.preds(n)[j]]
            self.node_valid(n) && 0 <= j < self.preds(n).len() implies self.node_valid(self.preds(n)[j]) by {
            if !self.node_valid(self.preds(n)[j]) {
                assert(o.node_valid(o.preds(n)[j]));
            }
        }
        assert forall|u: UnitHandle, j: int| #![trigger self.unit_succs(u)[j]]
            self.unit_valid(u) && 0 <= j < self.unit_succs(u).len() implies self.unit_valid(self.unit_succs(u)[j]) by {
            if !self.unit_valid(self.unit_succs(u)[j]) {
                assert(o.unit_valid(o.unit_succs(u)[j]));
            }
        }
        assert forall|u: UnitHandle, j: int| #![trigger self.unit_preds(u)[j]]
            self.unit_valid(u) && 0 <= j < self.unit_preds(u).len() implies self.unit_valid(self.unit_preds(u)[j]) by {
            if !self.unit_valid(self.unit_preds(u)[j]) {
                assert(o.unit_valid(o.unit_preds(u)[j]));
            }
        }
        assert forall|n: NodeHandle|
            #![trigger self.parent_of(UnitHandle::Node(n))]
            self.node_valid(n) implies self.subgraph_valid(self.parent_of(UnitHandle::Node(n))) by {
            assert(self.parent_of(UnitHandle::Node(n)) == o.parent_of(UnitHandle::Node(n)));
        }
        assert forall|t: SubgraphHandle, j: int|
            #![trigger self.member_nodes(t)[j]]
            self.subgraph_valid(t) && 0 <= j < self.member_nodes(t).len() implies {
                &&& self.node_valid(self.member_nodes(t)[j])
                &&& self.parent_of(UnitHandle::Node(self.member_nodes(t)[j])) == t
            } by {
            assert(self.member_nodes(t) == o.member_nodes(t));
            assert(o.member_nodes(t)[j] == self.member_nodes(t)[j]);
            assert(self.parent_of(UnitHandle::Node(self.member_nodes(t)[j])) == o.parent_of(UnitHandle::Node(self.member_nodes(t)[j])));
        }
        assert forall|t: SubgraphHandle, j: int|
            #![trigger self.member_subgraphs(t)[j]]
            self.subgraph_valid(t) && 0 <= j < self.member_subgraphs(t).len() implies {
                &&& self.subgraph_valid(self.member_subgraphs(t)[j])
                &&& self.parent_of(UnitHandle::Subgraph(self.member_subgraphs(t)[j])) == t
            } by {
            assert(self.member_subgraphs(t) == o.member_subgraphs(t));
            let m = o.member_subgraphs(t)[j];
            assert(self.parent_of(UnitHandle::Subgraph(m)) == o.parent_of(UnitHandle::Subgraph(m)));
        }
    }
}


/// The position of the first occurrence of `x` in `v`.
pub(crate) fn position_of(v: &Vec<NodeHandle>, x: NodeHandle) -> (r: Option<usize>)
    ensures
        r is Some <==> v@.contains(x),
        r is Some ==> r->Some_0 == first_index(v@, x) && r->Some_0 < v@.len(),
{
    let mut i: usize = 0;
    while i < v.len()
        invariant
            i <= v.len(),
            forall|j: int| 0 <= j < i ==> v@[j] != x,
        decreases v.len() - i,
    {
        if v[i] == x {
            proof { lemma_first_index(v@, x, i as int); }
            return Some(i);
        }
        i = i + 1;
    }
    None
}

pub proof fn lemma_occ_remove_first<A>(s: Seq<A>, x: A, y: A)
    ensures
        occ(remove_first(s, x), y) == if s.contains(x) && x == y { (occ(s, y) - 1) as nat } else { occ(s, y) },
        s.contains(x) ==> occ(s, x) > 0,
{
    broadcast use vstd::multiset::group_multiset_axioms;
    if s.contains(x) {
        let i = first_index(s, x);
        lemma_first_index_in(s, x);
        assert(s.remove(i).to_multiset() == s.to_multiset().remove(s[i]));
    }
}

pub proof fn lemma_first_index_in<A>(s: Seq<A>, x: A)
    requires
        s.contains(x),
    ensures
        0 <= first_index(s, x) < s.len(),
        s[first_index(s, x)] == x,
    decreases s.len(),
{
    if s[0] != x {
        let k = choose|k: int| 0 <= k < s.len() && s[k] == x;
        assert(s.drop_first()[k - 1] == x);
        lemma_first_index_in(s.drop_first(), x);
    }
}

impl DAG {
    /// Removes one edge from `from` to `to`.
    /// Returns true if an edge was removed.
    pub fn remove_edge(&mut self, from: NodeHandle, to: NodeHandle) -> (r: bool)
        requires
            old(self).wf(),
            old(self).node_valid(from),
            old(self).node_valid(to),
        ensures
            final(self).wf(),
            final(self).same_layout(old(self)),
            r == old(self).succs(from).contains(to),
            r == old(self).preds(to).contains(from),
            forall|n: NodeHandle| #![trigger final(self).succs(n)] final(self).node_valid(n) ==>
                final(self).succs(n) == if n == from { remove_first(old(self).succs(n), to) } else { old(self).succs(n) },
            forall|n: NodeHandle| #![trigger final(self).preds(n)] final(self).node_valid(n) ==>
                final(self).preds(n) == if n == to { remove_first(old(self).preds(n), from) } else { old(self).preds(n) },
            forall|u: UnitHandle| #![trigger final(self).unit_succs(u)] final(self).unit_valid(u) ==>
                final(self).unit_succs(u) == old(self).unit_succs(u),
            forall|u: UnitHandle| #![trigger final(self).unit_preds(u)] final(self).unit_valid(u) ==>
                final(self).unit_preds(u) == old(self).unit_preds(u),
    {
        let ghost o = *self;
        proof {
            lemma_occ_remove_first(o.succs(from), to, to);
            lemma_occ_remove_first(o.preds(to), from, from);
            assert(occ(o.succs(from), to) == occ(o.preds(to), from));
        }
        let mut removed_succ = false;
        if let Some(pos) = position_of(&self.nodes[from.idx].successors, to) {
            self.nodes[from.idx].successors.remove(pos);
            removed_succ = true;
        }
        let mut removed_pred = false;
        if let Some(pos) = position_of(&self.nodes[to.idx].predecessors, from) {
            self.nodes[to.idx].predecessors.remove(pos);
            removed_pred = true;
        }
        proof {
            assert forall|n: NodeHandle| #![trigger self.succs(n)] self.node_valid(n) implies
                self.succs(n) == if n == from { remove_first(o.succs(n), to) } else { o.succs(n) } by {}
            assert forall|n: NodeHandle| #![trigger self.preds(n)] self.node_valid(n) implies
                self.preds(n) == if n == to { remove_first(o.preds(n), from) } else { o.preds(n) } by {}
            assert forall|u: UnitHandle| #![trigger self.unit_succs(u)] self.unit_valid(u) implies
                self.unit_succs(u) == o.unit_succs(u) by {}
            assert forall|u: UnitHandle| #![trigger self.unit_preds(u)] self.unit_valid(u) implies
                self.unit_preds(u) == o.unit_preds(u) by {}
            assert forall|u: UnitHandle| #[trigger] self.parent_of(u) == o.parent_of(u) || !self.unit_valid(u) by {}
            assert forall|t: SubgraphHandle|
                #![trigger self.member_nodes(t)]
                #![trigger self.member_subgraphs(t)]
                #![trigger self.rank_of(t)]
                self.subgraph_valid(t) implies {
                    &&& self.member_nodes(t) == o.member_nodes(t)
                    &&& self.member_subgraphs(t) == o.member_subgraphs(t)
                    &&& self.rank_of(t).rows() == o.rank_of(t).rows()
                    &&& self.rank_of(t).level_map() == o.rank_of(t).level_map()
                } by {}
            assert(self.node_rows() =~= o.node_rows());
            assert forall|n: NodeHandle, j: int| #![trigger self.succs(n)[j]]
                self.node_valid(n) && 0 <= j < self.succs(n).len() implies self.node_valid(self.succs(n)[j]) by {
                if n == from && o.succs(n).contains(to) {
                    let i = first_index(o.succs(n), to);
                    lemma_first_index_in(o.succs(n), to);
                    if j < i {
                        assert(self.succs(n)[j] == o.succs(n)[j]);
                    } else {
                        assert(self.succs(n)[j] == o.succs(n)[j + 1]);
                    }
                }
            }
            assert forall|n: NodeHandle, j: int| #![trigger self.preds(n)[j]]
                self.node_valid(n) && 0 <= j < self.preds(n).len() implies self.node_valid(self.preds(n)[j]) by {
                if n == to && o.preds(n).contains(from) {
                    let i = first_index(o.preds(n), from);
                    lemma_first_index_in(o.preds(n), from);
                    if j < i {
                        assert(self.preds(n)[j] == o.preds(n)[j]);
                    } else {
                        assert(self.preds(n)[j] == o.preds(n)[j + 1]);
                    }
                }
            }
            assert forall|a: NodeHandle, b: NodeHandle|
                #![trigger occ(self.succs(a), b), occ(self.preds(b), a)]
                self.node_valid(a) && self.node_valid(b) implies occ(self.succs(a), b) == occ(self.preds(b), a) by {
                assert(occ(o.succs(a), b) == occ(o.preds(b), a));
                lemma_occ_remove_first(o.succs(a), to, b);
                lemma_occ_remove_first(o.preds(b), from, a);
            }
            assert forall|u: UnitHandle, v: UnitHandle|
                #![trigger occ(self.unit_succs(u), v), occ(self.unit_preds(v), u)]
                self.unit_valid(u) && self.unit_valid(v) implies occ(self.unit_succs(u), v) == occ(self.unit_preds(v), u) by {
                assert(occ(o.unit_succs(u), v) == occ(o.unit_preds(v), u));
            }
            self.lemma_edges_changed_wf(&o);
        }
        removed_pred
    }
}


impl DAG {
    /// All the entries of the edge lists of `self` are valid handles of `self`,
    /// so a handle that is not valid occurs in none of them.
    pub(crate) proof fn lemma_invalid_not_listed(&self, n: NodeHandle, u: UnitHandle)
        requires
            self.wf(),
            !self.node_valid(n),
            !self.unit_valid(u),
        ensures
            forall|a: NodeHandle| #![trigger self.succs(a)] self.node_valid(a) ==> occ(self.succs(a), n) == 0,
            forall|a: NodeHandle| #![trigger self.preds(a)] self.node_valid(a) ==> occ(self.preds(a), n) == 0,
            forall|v: UnitHandle| #![trigger self.unit_succs(v)] self.unit_valid(v) ==> occ(self.unit_succs(v), u) == 0,
            forall|v: UnitHandle| #![trigger self.unit_preds(v)] self.unit_valid(v) ==> occ(self.unit_preds(v), u) == 0,
    {
        self.lemma_invalid_unit_not_listed(u);
        assert forall|a: NodeHandle| #![trigger self.succs(a)] self.node_valid(a) implies occ(self.succs(a), n) == 0 by {
            if self.succs(a).contains(n) {
                let j = choose|j: int| 0 <= j < self.succs(a).len() && self.succs(a)[j] == n;
                assert(self.node_valid(self.succs(a)[j]));
            }
        }
        assert forall|a: NodeHandle| #![trigger self.preds(a)] self.node_valid(a) implies occ(self.preds(a), n) == 0 by {
            if self.preds(a).contains(n) {
                let j = choose|j: int| 0 <= j < self.preds(a).len() && self.preds(a)[j] == n;
                assert(self.node_valid(self.preds(a)[j]));
            }
        }
    }

    pub(crate) proof fn lemma_invalid_unit_not_listed(&self, u: UnitHandle)
        requires
            self.wf(),
            !self.unit_valid(u),
        ensures
            forall|v: UnitHandle| #![trigger self.unit_succs(v)] self.unit_valid(v) ==> occ(self.unit_succs(v), u) == 0,
            forall|v: UnitHandle| #![trigger self.unit_preds(v)] self.unit_valid(v) ==> occ(self.unit_preds(v), u) == 0,
    {
        assert forall|v: UnitHandle| #![trigger self.unit_succs(v)] self.unit_valid(v) implies occ(self.unit_succs(v), u) == 0 by {
            if self.unit_succs(v).contains(u) {
                let j = choose|j: int| 0 <= j < self.unit_succs(v).len() && self.unit_succs(v)[j] == u;
                assert(self.unit_valid(self.unit_succs(v)[j]));
            }
        }
        assert forall|v: UnitHandle| #![trigger self.unit_preds(v)] self.unit_valid(v) implies occ(self.unit_preds(v), u) == 0 by {
            if self.unit_preds(v).contains(u) {
                let j = choose|j: int| 0 <= j < self.unit_preds(v).len() && self.unit_preds(v)[j] == u;
                assert(self.unit_valid(self.unit_preds(v)[j]));
            }
        }
    }

    /// Pushes a node with no edges, in subgraph `parent`, with level 0.
    pub(crate) fn push_fresh_node(&mut self, parent: SubgraphHandle) -> (r: NodeHandle)
        requires
            old(self).wf(),
            old(self).subgraph_valid(parent),
            old(self).node_count() < usize::MAX,
        ensures
            final(self).wf(),
            r == node_handle(old(self).node_count() as int),
            final(self).node_list() == old(self).node_list().push(final(self).node_list().last()),
            final(self).node_list().last().is_fresh(parent),
            final(self).node_levels() == old(self).node_levels().push(0),
            final(self).subgraph_list() == old(self).subgraph_list(),
            final(self).rank_vecs() == old(self).rank_vecs(),
            final(self).validating() == old(self).validating(),
    {
        let ghost o = *self;
        let nn = Node::new(parent);
        self.nodes.push(nn);
        self.levels.push(0);
        let r = NodeHandle::new(self.nodes.len() - 1);
        proof {
            o.lemma_invalid_not_listed(r, UnitHandle::Node(r));
            assert forall|n: NodeHandle| #![trigger self.succs(n)] self.node_valid(n) && n != r implies self.succs(n) == o.succs(n) by {
                assert(self.nodes@[n.index() as int] == o.nodes@[n.index() as int]);
            }
            assert forall|n: NodeHandle| #![trigger self.preds(n)] self.node_valid(n) && n != r implies self.preds(n) == o.preds(n) by {
                assert(self.nodes@[n.index() as int] == o.nodes@[n.index() as int]);
            }
            assert forall|u: UnitHandle| #![trigger self.unit_succs(u)] self.unit_valid(u) && u != UnitHandle::Node(r) implies self.unit_succs(u) == o.unit_succs(u) by {
                if let UnitHandle::Node(n) = u {
                    assert(self.nodes@[n.index() as int] == o.nodes@[n.index() as int]);
                }
            }
            assert forall|u: UnitHandle| #![trigger self.unit_preds(u)] self.unit_valid(u) && u != UnitHandle::Node(r) implies self.unit_preds(u) == o.unit_preds(u) by {
                if let UnitHandle::Node(n) = u {
                    assert(self.nodes@[n.index() as int] == o.nodes@[n.index() as int]);
                }
            }
            assert forall|u: UnitHandle| #[trigger] self.parent_of(u) == o.parent_of(u) || !o.unit_valid(u) by {
                if let UnitHandle::Node(n) = u {
                    if o.node_valid(n) {
                        assert(self.nodes@[n.index() as int] == o.nodes@[n.index() as int]);
                    }
                }
            }
            assert(self.succs(r).len() == 0);
            assert(self.preds(r).len() == 0);
            assert(self.unit_succs(UnitHandle::Node(r)).len() == 0);
            assert(self.unit_preds(UnitHandle::Node(r)).len() == 0);
            assert forall|n: NodeHandle, j: int| #![trigger self.succs(n)[j]]
                self.node_valid(n) && 0 <= j < self.succs(n).len() implies self.node_valid(self.succs(n)[j]) by {
                assert(o.node_valid(o.succs(n)[j]));
            }
            assert forall|n: NodeHandle, j: int| #![trigger self.preds(n)[j]]
                self.node_valid(n) && 0 <= j < self.preds(n).len() implies self.node_valid(self.preds(n)[j]) by {
                assert(o.node_valid(o.preds(n)[j]));
            }
            assert forall|u: UnitHandle, j: int| #![trigger self.unit_succs(u)[j]]
                self.unit_valid(u) && 0 <= j < self.unit_succs(u).len() implies self.unit_valid(self.unit_succs(u)[j]) by {
                assert(o.unit_valid(o.unit_succs(u)[j]));
            }
            assert forall|u: UnitHandle, j: int| #![trigger self.unit_preds(u)[j]]
                self.unit_valid(u) && 0 <= j < self.unit_preds(u).len() implies self.unit_valid(self.unit_preds(u)[j]) by {
                assert(o.unit_valid(o.unit_preds(u)[j]));
            }
            assert forall|n: NodeHandle|
                #![trigger self.parent_of(UnitHandle::Node(n))]
                self.node_valid(n) implies self.subgraph_valid(self.parent_of(UnitHandle::Node(n))) by {
                if n != r {
                    assert(o.subgraph_valid(o.parent_of(UnitHandle::Node(n))));
                }
            }
            assert forall|t: SubgraphHandle, j: int|
                #![trigger self.member_nodes(t)[j]]
                self.subgraph_valid(t) && 0 <= j < self.member_nodes(t).len() implies {
                    &&& self.node_valid(self.member_nodes(t)[j])
                    &&& self.parent_of(UnitHandle::Node(self.member_nodes(t)[j])) == t
                } by {
                assert(o.member_nodes(t)[j] == self.member_nodes(t)[j]);
                assert(o.node_valid(o.member_nodes(t)[j]));
            }
            assert forall|t: SubgraphHandle, j: int|
                #![trigger self.member_subgraphs(t)[j]]
                self.subgraph_valid(t) && 0 <= j < self.member_subgraphs(t).len() implies {
                    &&& self.subgraph_valid(self.member_subgraphs(t)[j])
                    &&& self.parent_of(UnitHandle::Subgraph(self.member_subgraphs(t)[j])) == t
                } by {
                assert(o.member_subgraphs(t)[j] == self.member_subgraphs(t)[j]);
                assert(o.subgraph_valid(o.member_subgraphs(t)[j]));
            }
            assert forall|a: NodeHandle, b: NodeHandle|
                #![trigger occ(self.succs(a), b), occ(self.preds(b), a)]
                self.node_valid(a) && self.node_valid(b) implies occ(self.succs(a), b) == occ(self.preds(b), a) by {
                if a != r && b != r {
                    assert(occ(o.succs(a), b) == occ(o.preds(b), a));
                }
            }
            assert forall|u: UnitHandle, v: UnitHandle|
                #![trigger occ(self.unit_succs(u), v), occ(self.unit_preds(v), u)]
                self.unit_valid(u) && self.unit_valid(v) implies occ(self.unit_succs(u), v) == occ(self.unit_preds(v), u) by {
                if u != UnitHandle::Node(r) && v != UnitHandle::Node(r) {
                    assert(occ(o.unit_succs(u), v) == occ(o.unit_preds(v), u));
                }
            }
        }
        r
    }

    /// Create a new node in subgraph `subgraph_idx`, placed at the end of the
    /// first row of that subgraph's rank.
    pub fn new_node(&mut self, subgraph_idx: SubgraphHandle) -> (r: NodeHandle)
        requires
            old(self).wf(),
            old(self).subgraph_valid(subgraph_idx),
            old(self).node_count() < usize::MAX,
        ensures
            final(self).wf(),
            r == node_handle(old(self).node_count() as int),
            final(self).node_count() == old(self).node_count() + 1,
            final(self).subgraph_count() == old(self).subgraph_count(),
            final(self).node_list().subrange(0, old(self).node_count() as int) == old(self).node_list(),
            final(self).node_list().last().is_fresh(subgraph_idx),
            final(self).node_levels() == old(self).node_levels().push(0),
            final(self).node_rows() == old(self).node_rows(),
            final(self).validating() == old(self).validating(),
            final(self).member_nodes(subgraph_idx) == old(self).member_nodes(subgraph_idx).push(r),
            ({
                let grown = pad_rows(old(self).rank_of(subgraph_idx).rows(), 1);
                final(self).rank_of(subgraph_idx).rows() == grown.update(0, grown[0].push(UnitHandle::Node(r)))
            }),
            final(self).rank_of(subgraph_idx).level_map() == old(self).rank_of(subgraph_idx).level_map().insert(UnitHandle::Node(r), 0),
            forall|t: SubgraphHandle| #![trigger final(self).rank_of(t)]
                final(self).subgraph_valid(t) && t != subgraph_idx ==> final(self).same_subgraph(old(self), t),
            final(self).member_subgraphs(subgraph_idx) == old(self).member_subgraphs(subgraph_idx),
            final(self).unit_succs(UnitHandle::Subgraph(subgraph_idx)) == old(self).unit_succs(UnitHandle::Subgraph(subgraph_idx)),
            final(self).unit_preds(UnitHandle::Subgraph(subgraph_idx)) == old(self).unit_preds(UnitHandle::Subgraph(subgraph_idx)),
            final(self).parent_of(UnitHandle::Subgraph(subgraph_idx)) == old(self).parent_of(UnitHandle::Subgraph(subgraph_idx)),
    {
        let node = self.push_fresh_node(subgraph_idx);
        let ghost mid = *self;
        self.subgraphs[subgraph_idx.idx].nodes.push(node);
        proof {
            assert(self.member_nodes(subgraph_idx) == mid.member_nodes(subgraph_idx).push(node));
            assert forall|u: UnitHandle| #[trigger] self.parent_of(u) == mid.parent_of(u) || !self.unit_valid(u) by {}
            assert forall|t: SubgraphHandle, j: int|
                #![trigger self.member_nodes(t)[j]]
                self.subgraph_valid(t) && 0 <= j < self.member_nodes(t).len() implies {
                    &&& self.node_valid(self.member_nodes(t)[j])
                    &&& self.parent_of(UnitHandle::Node(self.member_nodes(t)[j])) == t
                } by {
                if t != subgraph_idx || j < mid.member_nodes(t).len() {
                    assert(mid.member_nodes(t)[j] == self.member_nodes(t)[j]);
                }
            }
            assert forall|t: SubgraphHandle, j: int|
                #![trigger self.member_subgraphs(t)[j]]
                self.subgraph_valid(t) && 0 <= j < self.member_subgraphs(t).len() implies {
                    &&& self.subgraph_valid(self.member_subgraphs(t)[j])
                    &&& self.parent_of(UnitHandle::Subgraph(self.member_subgraphs(t)[j])) == t
                } by {
                assert(mid.member_subgraphs(t)[j] == self.member_subgraphs(t)[j]);
            }
            assert forall|u: UnitHandle| #[trigger] self.unit_succs(u) == mid.unit_succs(u) || !self.unit_valid(u) by {}
            assert forall|u: UnitHandle| #[trigger] self.unit_preds(u) == mid.unit_preds(u) || !self.unit_valid(u) by {}
            assert forall|n: NodeHandle| #[trigger] self.succs(n) == mid.succs(n) by {}
            assert forall|n: NodeHandle| #[trigger] self.preds(n) == mid.preds(n) by {}
            assert forall|u: UnitHandle, j: int| #![trigger self.unit_succs(u)[j]]
                self.unit_valid(u) && 0 <= j < self.unit_succs(u).len() implies self.unit_valid(self.unit_succs(u)[j]) by {
                assert(mid.unit_valid(mid.unit_succs(u)[j]));
            }
            assert forall|u: UnitHandle, j: int| #![trigger self.unit_preds(u)[j]]
                self.unit_valid(u) && 0 <= j < self.unit_preds(u).len() implies self.unit_valid(self.unit_preds(u)[j]) by {
                assert(mid.unit_valid(mid.unit_preds(u)[j]));
            }
            assert forall|u: UnitHandle, v: UnitHandle|
                #![trigger occ(self.unit_succs(u), v), occ(self.unit_preds(v), u)]
                self.unit_valid(u) && self.unit_valid(v) implies occ(self.unit_succs(u), v) == occ(self.unit_preds(v), u) by {
                assert(occ(mid.unit_succs(u), v) == occ(mid.unit_preds(v), u));
            }
            assert forall|n: NodeHandle|
                #![trigger self.parent_of(UnitHandle::Node(n))]
                self.node_valid(n) implies self.subgraph_valid(self.parent_of(UnitHandle::Node(n))) by {
                assert(mid.subgraph_valid(mid.parent_of(UnitHandle::Node(n))));
            }
        }
        let ghost mid2 = *self;
        self.add_element_to_rank_subgraph(UnitHandle::new_node(node), 0, false, subgraph_idx);
        proof {
            self.lemma_same_except_rank_wf(&mid2, subgraph_idx);
            assert(self.node_list().subrange(0, old(self).node_count() as int) =~= old(self).node_list());
            assert(self.node_rows() =~= old(self).node_rows());
        }
        node
    }
}


impl DAG {
    /// Subgraph `t` of `self` has no members, no unit edges and empty ranks.
    pub open(crate) spec fn subgraph_is_bare(&self, t: SubgraphHandle) -> bool {
        &&& self.member_nodes(t).len() == 0
        &&& self.member_subgraphs(t).len() == 0
        &&& self.unit_succs(UnitHandle::Subgraph(t)).len() == 0
        &&& self.unit_preds(UnitHandle::Subgraph(t)).len() == 0
        &&& self.rank_of(t).rows().len() == 0
        &&& self.rank_of(t).level_map() == Map::<UnitHandle, usize>::empty()
    }

    /// Create a new subgraph inside subgraph `subgraph_idx`. The first
    /// subgraph that is created is the root: it is placed in no other subgraph.
    pub fn new_subgraph(&mut self, subgraph_idx: SubgraphHandle) -> (r: SubgraphHandle)
        requires
            old(self).wf(),
            old(self).subgraph_count() < usize::MAX,
            old(self).subgraph_count() > 0 ==> subgraph_idx.index() <= old(self).subgraph_count(),
        ensures
            final(self).wf(),
            r.index() == old(self).subgraph_count(),
            final(self).subgraph_count() == old(self).subgraph_count() + 1,
            final(self).node_list() == old(self).node_list(),
            final(self).node_levels() == old(self).node_levels(),
            final(self).node_rows() == old(self).node_rows(),
            final(self).validating() == old(self).validating(),
            final(self).parent_of(UnitHandle::Subgraph(r)) == subgraph_idx,
            final(self).member_nodes(r).len() == 0,
            final(self).unit_succs(UnitHandle::Subgraph(r)).len() == 0,
            final(self).unit_preds(UnitHandle::Subgraph(r)).len() == 0,
            old(self).subgraph_count() == 0 ==> final(self).subgraph_is_bare(r),
            old(self).subgraph_count() > 0 ==> {
                let base_members = if subgraph_idx == r { Seq::empty() } else { old(self).member_subgraphs(subgraph_idx) };
                let base_rows = if subgraph_idx == r { Seq::empty() } else { old(self).rank_of(subgraph_idx).rows() };
                let base_levels = if subgraph_idx == r { Map::empty() } else { old(self).rank_of(subgraph_idx).level_map() };
                let grown = pad_rows(base_rows, 1);
                &&& final(self).member_subgraphs(subgraph_idx) == base_members.push(r)
                &&& final(self).rank_of(subgraph_idx).rows() == grown.update(0, grown[0].push(UnitHandle::Subgraph(r)))
                &&& final(self).rank_of(subgraph_idx).level_map() == base_levels.insert(UnitHandle::Subgraph(r), 0)
                &&& subgraph_idx != r ==> final(self).subgraph_is_bare(r)
            },
            forall|t: SubgraphHandle| #![trigger final(self).rank_of(t)]
                old(self).subgraph_valid(t) && t != subgraph_idx ==> final(self).same_subgraph(old(self), t),
            forall|u: UnitHandle| #[trigger] old(self).unit_valid(u) ==>
                final(self).unit_succs(u) == old(self).unit_succs(u) && final(self).unit_preds(u) == old(self).unit_preds(u),
    {
        let ghost o = *self;
        let subgraph = Subgraph {
            nodes: Vec::new(),
            subgraphs: Vec::new(),
            successors_u: Vec::new(),
            predecessors_u: Vec::new(),
            parent_subgraph_idx: subgraph_idx,
            ranks: TraverseRank::new(),
            x_0: 0,
            y_0: 0,
            width: 0,
            height: 0,
        };
        self.subgraphs.push(subgraph);
        let subgraph_handle = SubgraphHandle::new(self.subgraphs.len() - 1);
        proof {
            let r = subgraph_handle;
            o.lemma_invalid_unit_not_listed(UnitHandle::Subgraph(r));
            assert forall|u: UnitHandle| #![trigger self.unit_succs(u)] self.unit_valid(u) && u != UnitHandle::Subgraph(r) implies self.unit_succs(u) == o.unit_succs(u) by {
                if let UnitHandle::Subgraph(t) = u {
                    assert(self.subgraphs@[t.index() as int] == o.subgraphs@[t.index() as int]);
                }
            }
            assert forall|u: UnitHandle| #![trigger self.unit_preds(u)] self.unit_valid(u) && u != UnitHandle::Subgraph(r) implies self.unit_preds(u) == o.unit_preds(u) by {
                if let UnitHandle::Subgraph(t) = u {
                    assert(self.subgraphs@[t.index() as int] == o.subgraphs@[t.index() as int]);
                }
            }
            assert forall|u: UnitHandle| #[trigger] self.parent_of(u) == o.parent_of(u) || !o.unit_valid(u) by {
                if let UnitHandle::Subgraph(t) = u {
                    if o.subgraph_valid(t) {
                        assert(self.subgraphs@[t.index() as int] == o.subgraphs@[t.index() as int]);
                    }
                }
            }
            assert forall|t: SubgraphHandle| #![trigger self.rank_of(t)] o.subgraph_valid(t) implies self.same_subgraph(&o, t) by {
                assert(self.subgraphs@[t.index() as int] == o.subgraphs@[t.index() as int]);
            }
            assert(self.subgraph_is_bare(r)) by {
                assert(self.rank_of(r).level_map() =~= Map::<UnitHandle, usize>::empty());
            }
            assert forall|n: NodeHandle| #[trigger] self.succs(n) == o.succs(n) by {}
            assert forall|n: NodeHandle| #[trigger] self.preds(n) == o.preds(n) by {}
            assert forall|u: UnitHandle, j: int| #![trigger self.unit_succs(u)[j]]
                self.unit_valid(u) && 0 <= j < self.unit_succs(u).len() implies self.unit_valid(self.unit_succs(u)[j]) by {
                assert(o.unit_valid(o.unit_succs(u)[j]));
            }
            assert forall|u: UnitHandle, j: int| #![trigger self.unit_preds(u)[j]]
                self.unit_valid(u) && 0 <= j < self.unit_preds(u).len() implies self.unit_valid(self.unit_preds(u)[j]) by {
                assert(o.unit_valid(o.unit_preds(u)[j]));
            }
            assert forall|n: NodeHandle, j: int| #![trigger self.succs(n)[j]]
                self.node_valid(n) && 0 <= j < self.succs(n).len() implies self.node_valid(self.succs(n)[j]) by {
                assert(o.node_valid(o.succs(n)[j]));
            }
            assert forall|n: NodeHandle, j: int| #![trigger self.preds(n)[j]]
                self.node_valid(n) && 0 <= j < self.preds(n).len() implies self.node_valid(self.preds(n)[j]) by {
                assert(o.node_valid(o.preds(n)[j]));
            }
            assert forall|n: NodeHandle|
                #![trigger self.parent_of(UnitHandle::Node(n))]
                self.node_valid(n) implies self.subgraph_valid(self.parent_of(UnitHandle::Node(n))) by {
                assert(o.subgraph_valid(o.parent_of(UnitHandle::Node(n))));
            }
            assert forall|t: SubgraphHandle, j: int|
                #![trigger self.member_nodes(t)[j]]
                self.subgraph_valid(t) && 0 <= j < self.member_nodes(t).len() implies {
                    &&& self.node_valid(self.member_nodes(t)[j])
                    &&& self.parent_of(UnitHandle::Node(self.member_nodes(t)[j])) == t
                } by {
                if t != r {
                    assert(o.member_nodes(t)[j] == self.member_nodes(t)[j]);
                }
            }
            assert forall|t: SubgraphHandle, j: int|
                #![trigger self.member_subgraphs(t)[j]]
                self.subgraph_valid(t) && 0 <= j < self.member_subgraphs(t).len() implies {
                    &&& self.subgraph_valid(self.member_subgraphs(t)[j])
                    &&& self.parent_of(UnitHandle::Subgraph(self.member_subgraphs(t)[j])) == t
                } by {
                if t != r {
                    assert(o.member_subgraphs(t)[j] == self.member_subgraphs(t)[j]);
                    assert(o.subgraph_valid(o.member_subgraphs(t)[j]));
                }
            }
            assert forall|a: NodeHandle, b: NodeHandle|
                #![trigger occ(self.succs(a), b), occ(self.preds(b), a)]
                self.node_valid(a) && self.node_valid(b) implies occ(self.succs(a), b) == occ(self.preds(b), a) by {
                assert(occ(o.succs(a), b) == occ(o.preds(b), a));
            }
            assert forall|u: UnitHandle, v: UnitHandle|
                #![trigger occ(self.unit_succs(u), v), occ(self.unit_preds(v), u)]
                self.unit_valid(u) && self.unit_valid(v) implies occ(self.unit_succs(u), v) == occ(self.unit_preds(v), u) by {
                if u != UnitHandle::Subgraph(r) && v != UnitHandle::Subgraph(r) {
                    assert(occ(o.unit_succs(u), v) == occ(o.unit_preds(v), u));
                }
            }
        }
        if self.subgraphs.len() > 1 {
            let ghost mid = *self;
            self.subgraphs[subgraph_idx.idx].subgraphs.push(subgraph_handle);
            proof {
                let r = subgraph_handle;
                assert forall|u: UnitHandle| #[trigger] self.parent_of(u) == mid.parent_of(u) || !self.unit_valid(u) by {}
                assert forall|u: UnitHandle| #[trigger] self.unit_succs(u) == mid.unit_succs(u) || !self.unit_valid(u) by {}
                assert forall|u: UnitHandle| #[trigger] self.unit_preds(u) == mid.unit_preds(u) || !self.unit_valid(u) by {}
                assert forall|n: NodeHandle| #[trigger] self.succs(n) == mid.succs(n) by {}
                assert forall|n: NodeHandle| #[trigger] self.preds(n) == mid.preds(n) by {}
                assert forall|t: SubgraphHandle, j: int|
                    #![trigger self.member_nodes(t)[j]]
                    self.subgraph_valid(t) && 0 <= j < self.member_nodes(t).len() implies {
                        &&& self.node_valid(self.member_nodes(t)[j])
                        &&& self.parent_of(UnitHandle::Node(self.member_nodes(t)[j])) == t
                    } by {
                    assert(mid.member_nodes(t)[j] == self.member_nodes(t)[j]);
                }
                assert forall|t: SubgraphHandle, j: int|
                    #![trigger self.member_subgraphs(t)[j]]
                    self.subgraph_valid(t) && 0 <= j < self.member_subgraphs(t).len() implies {
                        &&& self.subgraph_valid(self.member_subgraphs(t)[j])
                        &&& self.parent_of(UnitHandle::Subgraph(self.member_subgraphs(t)[j])) == t
                    } by {
                    if t != subgraph_idx || j < mid.member_subgraphs(t).len() {
                        assert(mid.member_subgraphs(t)[j] == self.member_subgraphs(t)[j]);
                    }
                }
                assert forall|u: UnitHandle, j: int| #![trigger self.unit_succs(u)[j]]
                    self.unit_valid(u) && 0 <= j < self.unit_succs(u).len() implies self.unit_valid(self.unit_succs(u)[j]) by {
                    assert(mid.unit_valid(mid.unit_succs(u)[j]));
                }
                assert forall|u: UnitHandle, j: int| #![trigger self.unit_preds(u)[j]]
                    self.unit_valid(u) && 0 <= j < self.unit_preds(u).len() implies self.unit_valid(self.unit_preds(u)[j]) by {
                    assert(mid.unit_valid(mid.unit_preds(u)[j]));
                }
                assert forall|u: UnitHandle, v: UnitHandle|
                    #![trigger occ(self.unit_succs(u), v), occ(self.unit_preds(v), u)]
                    self.unit_valid(u) && self.unit_valid(v) implies occ(self.unit_succs(u), v) == occ(self.unit_preds(v), u) by {
                    assert(occ(mid.unit_succs(u), v) == occ(mid.unit_preds(v), u));
                }
                assert forall|n: NodeHandle|
                    #![trigger self.parent_of(UnitHandle::Node(n))]
                    self.node_valid(n) implies self.subgraph_valid(self.parent_of(UnitHandle::Node(n))) by {
                    assert(mid.subgraph_valid(mid.parent_of(UnitHandle::Node(n))));
                }
                assert forall|t: SubgraphHandle| #![trigger self.rank_of(t)] o.subgraph_valid(t) && t != subgraph_idx implies self.same_subgraph(&o, t) by {
                    assert(mid.same_subgraph(&o, t));
                }
            }
            let ghost mid2 = *self;
            self.add_element_to_rank_subgraph(UnitHandle::new_subgraph(subgraph_handle), 0, false, subgraph_idx);
            proof {
                self.lemma_same_except_rank_wf(&mid2, subgraph_idx);
                assert forall|t: SubgraphHandle| #![trigger self.rank_of(t)] o.subgraph_valid(t) && t != subgraph_idx implies self.same_subgraph(&o, t) by {
                    assert(mid2.same_subgraph(&o, t));
                }
                if subgraph_idx != subgraph_handle {
                    assert(mid2.subgraph_is_bare(subgraph_handle));
                }
            }
        }
        SubgraphHandle::new(self.subgraphs.len() - 1)
    }
}


impl DAG {
    /// Appends empty rows to the rank of subgraph `s` until it has at least
    /// `n` rows.
    pub(crate) fn grow_rank(&mut self, s: SubgraphHandle, n: usize)
        requires
            old(self).subgraph_valid(s),
        ensures
            final(self).same_except_rank(old(self), s),
            final(self).rank_of(s).rows() == pad_rows(old(self).rank_of(s).rows(), n as nat),
            final(self).rank_of(s).level_map() == old(self).rank_of(s).level_map(),
            forall|i: int| 0 <= i < old(self).subgraphs@.len() && i != s.index() ==>
                #[trigger] final(self).subgraphs@[i] == old(self).subgraphs@[i],
    {
        let ghost old_rows = self.rank_of(s).rows();
        while self.subgraphs[s.idx].ranks.height() < n
            invariant
                self.same_except_rank(old(self), s),
                self.subgraph_valid(s),
                self.rank_of(s).rows().len() <= n ==> self.rank_of(s).rows() == pad_rows(old_rows, self.rank_of(s).rows().len()),
                self.rank_of(s).rows().len() > n ==> self.rank_of(s).rows() == old_rows,
                old_rows == old(self).rank_of(s).rows(),
                self.rank_of(s).level_map() == old(self).rank_of(s).level_map(),
                forall|i: int| 0 <= i < old(self).subgraphs@.len() && i != s.index() ==>
                    #[trigger] self.subgraphs@[i] == old(self).subgraphs@[i],
            decreases n - self.rank_of(s).rows().len(),
        {
            let ghost prev = self.subgraphs@;
            self.subgraphs[s.idx].ranks.push_row(Vec::new());
            proof {
                assert forall|i: int| 0 <= i < prev.len() && i != s.index() implies #[trigger] self.subgraphs@[i] == prev[i] by {
                    assert(self.subgraphs@ == prev.update(s.index() as int, self.subgraphs@[s.index() as int]));
                }
                assert(self.rank_of(s).rows() =~= pad_rows(old_rows, self.rank_of(s).rows().len()));
            }
        }
        proof {
            assert(self.rank_of(s).rows() =~= pad_rows(old_rows, n as nat));
        }
    }

    /// Move the unit `node` to level `new_level` of the rank of subgraph
    /// `subgraph_idx`: it is taken out of every row of the rank and placed
    /// just before `insert_before` when that is given, else at the end of
    /// the row.
    pub fn update_node_rank_level(
        &mut self,
        node: UnitHandle,
        new_level: usize,
        insert_before: Option<UnitHandle>,
        subgraph_idx: SubgraphHandle,
    )
        requires
            old(self).subgraph_valid(subgraph_idx),
            new_level < usize::MAX,
            insert_before is Some ==> insert_before->Some_0 != node
                && pad_rows(old(self).rank_of(subgraph_idx).rows(), new_level as nat + 1)[new_level as int].contains(insert_before->Some_0),
            old(self).unit_valid(node),
            old(self).subgraph_valid(old(self).parent_of(node)),
            old(self).parent_of(node) != subgraph_idx ==> old(self).rank_of(old(self).parent_of(node)).level_map().contains_key(node)
                && old(self).rank_of(old(self).parent_of(node)).level_map()[node] == new_level,
        ensures
            final(self).same_except_rank(old(self), subgraph_idx),
            final(self).rank_of(subgraph_idx).rows() == moved_rows(old(self).rank_of(subgraph_idx).rows(), node, new_level as nat, insert_before),
            final(self).rank_of(subgraph_idx).level_map() == old(self).rank_of(subgraph_idx).level_map().insert(node, new_level),
    {
        let ghost o = *self;
        self.grow_rank(subgraph_idx, new_level + 1);
        let ghost g = self.rank_of(subgraph_idx).rows();
        let ghost prev0 = self.subgraphs@;
        let ghost mid0 = *self;
        self.subgraphs[subgraph_idx.idx].ranks.take_out(node);
        proof {
            assert forall|i: int| 0 <= i < prev0.len() && i != subgraph_idx.index() implies #[trigger] self.subgraphs@[i] == prev0[i] by {
                assert(self.subgraphs@ == prev0.update(subgraph_idx.index() as int, self.subgraphs@[subgraph_idx.index() as int]));
            }
        }
        let ghost cleared = self.rank_of(subgraph_idx).rows();
        if let Option::Some(marker) = insert_before {
            proof {
                crate::seqs::lemma_without_contains(g[new_level as int], node, marker);
                assert(cleared[new_level as int] == without(g[new_level as int], node));
            }
            let ghost prev = self.subgraphs@;
            self.subgraphs[subgraph_idx.idx].ranks.insert_before(new_level, node, marker, true);
            proof {
                assert forall|i: int| 0 <= i < prev.len() && i != subgraph_idx.index() implies #[trigger] self.subgraphs@[i] == prev[i] by {
                    assert(self.subgraphs@ == prev.update(subgraph_idx.index() as int, self.subgraphs@[subgraph_idx.index() as int]));
                }
            }
        } else {
            let ghost prev = self.subgraphs@;
            self.subgraphs[subgraph_idx.idx].ranks.push(new_level, node, false);
            proof {
                assert forall|i: int| 0 <= i < prev.len() && i != subgraph_idx.index() implies #[trigger] self.subgraphs@[i] == prev[i] by {
                    assert(self.subgraphs@ == prev.update(subgraph_idx.index() as int, self.subgraphs@[subgraph_idx.index() as int]));
                }
            }
        }
        proof {
            assert(self.same_except_rank(&o, subgraph_idx)) by {
                assert forall|t: SubgraphHandle|
                    #![trigger self.subgraphs@[t.index() as int]]
                    #![trigger o.subgraphs@[t.index() as int]]
                    self.subgraph_valid(t) && t != subgraph_idx implies self.subgraphs@[t.index() as int] == o.subgraphs@[t.index() as int] by {
                    assert(mid0.subgraphs@[t.index() as int] == o.subgraphs@[t.index() as int]);
                    assert(prev0[t.index() as int] == mid0.subgraphs@[t.index() as int]);
                }
            }
            assert(self.rank_of(subgraph_idx).rows() =~= moved_rows(o.rank_of(subgraph_idx).rows(), node, new_level as nat, insert_before));
        }
        let l = self.level_subgraph(node);
        proof { assert(l == new_level); }
    }
}

/// Moving a unit to a level of the rank of its own subgraph makes that
/// level the one that reads back for it (as `level_subgraph` reads it).
pub proof fn lemma_moved_level_reads_back(new: &DAG, old: &DAG, node: UnitHandle, l: usize, s: SubgraphHandle)
    requires
        new.same_except_rank(old, s),
        new.rank_of(s).level_map() == old.rank_of(s).level_map().insert(node, l),
        old.unit_valid(node),
        old.subgraph_valid(s),
        old.parent_of(node) == s,
    ensures
        new.rank_of(new.parent_of(node)).level_map().contains_key(node),
        new.rank_of(new.parent_of(node)).level_map()[node] == l,
{
    if let UnitHandle::Subgraph(t) = node {
        assert(new.subgraph_valid(t));
        assert(new.subgraphs@[t.index() as int].parent_subgraph_idx == old.subgraphs@[t.index() as int].parent_subgraph_idx);
    }
    assert(new.parent_of(node) == s);
}

/// Adding edges, removing them, or anything else that keeps the layout
/// keeps the parent of every unit.
pub proof fn lemma_layout_keeps_parents(new: &DAG, old: &DAG, u: UnitHandle)
    requires
        new.same_layout(old),
        old.unit_valid(u),
    ensures
        new.parent_of(u) == old.parent_of(u),
{
    assert(new.unit_valid(u));
}

/// `rows` after the unit `node` is moved to row `level`: padded with empty
/// rows up to that row, with `node` taken out of every row, then placed
/// just before `before` when that is given, else at the end of the row.
pub open spec fn moved_rows(rows: Seq<Seq<UnitHandle>>, node: UnitHandle, level: nat, before: Option<UnitHandle>) -> Seq<Seq<UnitHandle>> {
    let cleared = pad_rows(rows, level + 1).map_values(|r: Seq<UnitHandle>| without(r, node));
    let row = cleared[level as int];
    cleared.update(level as int, match before {
        Some(m) => row.insert(first_index(row, m), node),
        None => row.push(node),
    })
}


/// The rows with each unit replaced by the node it stands for.
pub open(crate) spec fn node_rows_of(rows: Seq<Seq<UnitHandle>>) -> Seq<Seq<NodeHandle>> {
    rows.map_values(|r: Seq<UnitHandle>| r.map_values(|u: UnitHandle| unit_to_node(u)))
}

impl DAG {
    /// Every unit in `rows` is a node of this dag.
    pub open(crate) spec fn rows_hold_nodes(&self, rows: Seq<Seq<UnitHandle>>) -> bool {
        forall|i: int, j: int| 0 <= i < rows.len() && 0 <= j < rows[i].len() ==>
            (#[trigger] rows[i][j] is Node) && self.node_valid(unit_to_node(rows[i][j]))
    }

    /// Copy the rank of the root subgraph, which must hold nodes only, into
    /// the dag-wide rank, and record the row of each node as its level.
    pub fn last_rank_expansion(&mut self)
        requires
            old(self).wf(),
            old(self).subgraph_count() > 0,
            old(self).rows_hold_nodes(old(self).rank_of(crate::handles::subgraph_handle(0)).rows()),
        ensures
            final(self).wf(),
            final(self).node_list() == old(self).node_list(),
            final(self).subgraph_list() == old(self).subgraph_list(),
            final(self).validating() == old(self).validating(),
            final(self).node_rows() == node_rows_of(old(self).rank_of(crate::handles::subgraph_handle(0)).rows()),
            final(self).node_levels().len() == old(self).node_levels().len(),
            forall|k: int| 0 <= k < old(self).node_count() ==> {
                let rows = old(self).rank_of(crate::handles::subgraph_handle(0)).rows();
                let u = UnitHandle::Node(crate::handles::node_handle(k));
                if exists|i: int| 0 <= i < rows.len() && rows[i].contains(u) {
                    &&& 0 <= #[trigger] final(self).node_levels()[k] < rows.len()
                    &&& rows[final(self).node_levels()[k] as int].contains(u)
                    &&& forall|i: int| final(self).node_levels()[k] < i < rows.len() ==> !rows[i].contains(u)
                } else {
                    final(self).node_levels()[k] == old(self).node_levels()[k]
                }
            },
    {
        let ghost o = *self;
        let ghost rows = o.rank_of(crate::handles::subgraph_handle(0)).rows();
        let nl = self.nodes.len();
        proof { assert(node_rows_of(rows.take(0)) =~= Seq::<Seq<NodeHandle>>::empty()); }
        self.ranks.clear();
        let h = self.subgraphs[0].ranks.height();
        let mut i: usize = 0;
        while i < h
            invariant
                o.wf(),
                self.nodes@ == o.nodes@,
                self.subgraphs@ == o.subgraphs@,
                self.validate == o.validate,
                o.subgraph_count() > 0,
                rows == o.rank_of(crate::handles::subgraph_handle(0)).rows(),
                o.rows_hold_nodes(rows),
                nl == o.node_count(),
                h == rows.len(),
                i <= h,
                self.levels@.len() == o.levels@.len(),
                self.node_rows() == node_rows_of(rows.take(i as int)),
                forall|k: int| 0 <= k < o.node_count() ==> {
                    let u = UnitHandle::Node(crate::handles::node_handle(k));
                    if exists|ii: int| 0 <= ii < i && rows[ii].contains(u) {
                        &&& 0 <= #[trigger] self.levels@[k] < i
                        &&& rows[self.levels@[k] as int].contains(u)
                        &&& forall|ii: int| self.levels@[k] < ii < i ==> !rows[ii].contains(u)
                    } else {
                        self.levels@[k] == o.levels@[k]
                    }
                },
            decreases h - i,
        {
            let mut new_rank: Vec<NodeHandle> = Vec::new();
            let w = self.subgraphs[0].ranks.row(i).len();
            let mut j: usize = 0;
            while j < w
                invariant
                    o.wf(),
                    self.nodes@ == o.nodes@,
                    self.subgraphs@ == o.subgraphs@,
                    self.validate == o.validate,
                    o.subgraph_count() > 0,
                    rows == o.rank_of(crate::handles::subgraph_handle(0)).rows(),
                    o.rows_hold_nodes(rows),
                    nl == o.node_count(),
                    h == rows.len(),
                    i < h,
                    w == rows[i as int].len(),
                    j <= w,
                    self.levels@.len() == o.levels@.len(),
                    self.node_rows() == node_rows_of(rows.take(i as int)),
                    new_rank@ == rows[i as int].take(j as int).map_values(|u: UnitHandle| unit_to_node(u)),
                    forall|k: int| 0 <= k < o.node_count() ==> {
                        let u = UnitHandle::Node(crate::handles::node_handle(k));
                        if rows[i as int].take(j as int).contains(u) {
                            #[trigger] self.levels@[k] == i
                        } else if exists|ii: int| 0 <= ii < i && rows[ii].contains(u) {
                            &&& 0 <= self.levels@[k] < i
                            &&& rows[self.levels@[k] as int].contains(u)
                            &&& forall|ii: int| self.levels@[k] < ii < i ==> !rows[ii].contains(u)
                        } else {
                            self.levels@[k] == o.levels@[k]
                        }
                    },
                decreases w - j,
            {
                let hh = self.subgraphs[0].ranks.row(i)[j];
                proof { assert(rows[i as int][j as int] == hh); }
                match hh {
                    UnitHandle::Node(n) => {
                        new_rank.push(n);
                        let ghost lv = self.levels@;
                        self.levels.set(n.get_index(), i);
                        proof {
                            let t = rows[i as int].take(j as int + 1);
                            assert(t =~= rows[i as int].take(j as int).push(hh));
                            assert(new_rank@ =~= t.map_values(|u: UnitHandle| unit_to_node(u)));
                            assert forall|k: int| 0 <= k < o.node_count() implies {
                                let u = UnitHandle::Node(crate::handles::node_handle(k));
                                if t.contains(u) {
                                    #[trigger] self.levels@[k] == i
                                } else if exists|ii: int| 0 <= ii < i && rows[ii].contains(u) {
                                    &&& 0 <= self.levels@[k] < i
                                    &&& rows[self.levels@[k] as int].contains(u)
                                    &&& forall|ii: int| self.levels@[k] < ii < i ==> !rows[ii].contains(u)
                                } else {
                                    self.levels@[k] == o.levels@[k]
                                }
                            } by {
                                let u = UnitHandle::Node(crate::handles::node_handle(k));
                                if k == n.index() {
                                    assert(t[j as int] == u);
                                } else {
                                    assert(self.levels@[k] == lv[k]);
                                    assert(crate::handles::node_handle(k).index() == k);
                                    assert(u != hh);
                                    if t.contains(u) {
                                        let m = choose|m: int| 0 <= m < t.len() && t[m] == u;
                                        assert(m != j);
                                        assert(rows[i as int].take(j as int)[m] == u);
                                    }
                                    if rows[i as int].take(j as int).contains(u) {
                                        let m = choose|m: int| 0 <= m < j && rows[i as int].take(j as int)[m] == u;
                                        assert(t[m] == u);
                                    }
                                }
                            }
                        }
                    },
                    UnitHandle::Subgraph(_) => {
                        proof { assert(false); }
                    },
                }
                j = j + 1;
            }
            let ghost pre_rows = self.ranks@;
            self.ranks.push(new_rank);
            proof {
                assert(rows[i as int].take(w as int) =~= rows[i as int]);
                assert(new_rank@ =~= rows[i as int].map_values(|u: UnitHandle| unit_to_node(u)));
                assert(self.ranks@ == pre_rows.push(new_rank));
                assert(rows.take(i as int + 1) =~= rows.take(i as int).push(rows[i as int]));
                assert(self.node_rows().len() == i + 1);
                assert forall|q: int| 0 <= q < i + 1 implies #[trigger] self.node_rows()[q] == node_rows_of(rows.take(i as int + 1))[q] by {
                    if q < i {
                        assert(self.ranks@[q] == pre_rows[q]);
                        assert(rows.take(i as int + 1)[q] == rows.take(i as int)[q]);
                        assert(pre_rows.map_values(|r: Vec<NodeHandle>| r@)[q] == pre_rows[q]@);
                        assert(node_rows_of(rows.take(i as int))[q] == pre_rows[q]@);
                    } else {
                        assert(self.ranks@[q] == new_rank);
                        assert(rows.take(i as int + 1)[q] == rows[i as int]);
                    }
                }
                assert(self.node_rows() =~= node_rows_of(rows.take(i as int + 1)));
                assert forall|k: int| 0 <= k < o.node_count() implies {
                    let u = UnitHandle::Node(crate::handles::node_handle(k));
                    if exists|ii: int| 0 <= ii < i + 1 && rows[ii].contains(u) {
                        &&& 0 <= #[trigger] self.levels@[k] < i + 1
                        &&& rows[self.levels@[k] as int].contains(u)
                        &&& forall|ii: int| self.levels@[k] < ii < i + 1 ==> !rows[ii].contains(u)
                    } else {
                        self.levels@[k] == o.levels@[k]
                    }
                } by {
                    let u = UnitHandle::Node(crate::handles::node_handle(k));
                    if rows[i as int].contains(u) {
                        assert(self.levels@[k] == i);
                    } else if exists|ii: int| 0 <= ii < i && rows[ii].contains(u) {
                    } else {
                        if exists|ii: int| 0 <= ii < i + 1 && rows[ii].contains(u) {
                            let ii = choose|ii: int| 0 <= ii < i + 1 && rows[ii].contains(u);
                            assert(ii < i || ii == i);
                        }
                    }
                }
            }
            i = i + 1;
        }
        proof {
            assert(rows.take(h as int) =~= rows);
            self.lemma_wf_frame(&o);
        }
    }
}


/// The length of the longest common prefix of `a` and `b` that is at least `i` long,
/// given that they agree before `i`.
pub open spec fn common_prefix_from(a: Seq<SubgraphHandle>, b: Seq<SubgraphHandle>, i: nat) -> nat
    decreases a.len() - i,
{
    if i < a.len() && i < b.len() && a[i as int] == b[i as int] {
        common_prefix_from(a, b, i + 1)
    } else {
        i
    }
}

/// The position of the deepest subgraph shared by the two paths: the last
/// position of their common prefix, or 0 when they share none.
pub open spec fn deepest_common(a: Seq<SubgraphHandle>, b: Seq<SubgraphHandle>) -> int {
    let k = common_prefix_from(a, b, 0);
    if k == 0 { 0 } else { k - 1 }
}

/// The unit of `path` just below the deepest common subgraph at position `idx`:
/// the node itself when the path ends there.
pub open spec fn unit_below(path: Seq<SubgraphHandle>, node: NodeHandle, idx: int) -> UnitHandle {
    if idx == path.len() - 1 {
        UnitHandle::Node(node)
    } else {
        UnitHandle::Subgraph(path[idx + 1])
    }
}

/// Given the paths of subgraphs, from the root, that contain `from_node` and
/// `to_node`, find the units that stand for the two nodes inside their deepest
/// common subgraph.
pub fn find_common_subgraph(
    from: &Vec<SubgraphHandle>,
    from_node: NodeHandle,
    to: &Vec<SubgraphHandle>,
    to_node: NodeHandle,
) -> (r: (UnitHandle, UnitHandle))
    requires
        from@.len() > 0,
        to@.len() > 0,
    ensures
        r.0 == unit_below(from@, from_node, deepest_common(from@, to@)),
        r.1 == unit_below(to@, to_node, deepest_common(from@, to@)),
{
    let mut subgraph_idx: usize = 0;
    let m = if from.len() < to.len() { from.len() } else { to.len() };
    let mut i: usize = 0;
    while i < m && from[i] == to[i]
        invariant
            m as int == if from@.len() < to@.len() { from@.len() } else { to@.len() },
            i <= m,
            forall|k: int| 0 <= k < i ==> from@[k] == to@[k],
            subgraph_idx == if i == 0 { 0 } else { i - 1 },
        decreases m - i,
    {
        subgraph_idx = i;
        i = i + 1;
    }
    proof {
        lemma_common_prefix(from@, to@, 0, i as nat);
    }
    let from_output = if subgraph_idx == from.len() - 1 {
        UnitHandle::new_node(from_node)
    } else {
        UnitHandle::new_subgraph(from[subgraph_idx + 1])
    };
    let to_output = if subgraph_idx == to.len() - 1 {
        UnitHandle::new_node(to_node)
    } else {
        UnitHandle::new_subgraph(to[subgraph_idx + 1])
    };
    (from_output, to_output)
}

pub proof fn lemma_common_prefix(a: Seq<SubgraphHandle>, b: Seq<SubgraphHandle>, i: nat, k: nat)
    requires
        i <= k <= a.len(),
        k <= b.len(),
        forall|j: int| 0 <= j < k ==> a[j] == b[j],
        k == a.len() || k == b.len() || a[k as int] != b[k as int],
    ensures
        common_prefix_from(a, b, i) == k,
    decreases k - i,
{
    if i < k {
        lemma_common_prefix(a, b, i + 1, k);
    }
}


/// Where a node was placed, if it was: `placed` maps nodes to `None` (not yet
/// placed) or to their `(x, y)` position.
pub open(crate) spec fn placed_level(placed: Map<UnitHandle, Option<(usize, usize)>>, n: NodeHandle) -> Option<usize> {
    let u = UnitHandle::Node(n);
    if placed.contains_key(u) && placed[u] is Some {
        Some(placed[u]->Some_0.1)
    } else {
        None
    }
}

/// The row of the first node of `cands` that was placed.
pub open(crate) spec fn first_placed(cands: Seq<NodeHandle>, placed: Map<UnitHandle, Option<(usize, usize)>>) -> Option<usize>
    decreases cands.len(),
{
    if cands.len() == 0 {
        None
    } else if placed_level(placed, cands[0]) is Some {
        placed_level(placed, cands[0])
    } else {
        first_placed(cands.drop_first(), placed)
    }
}

impl DAG {
    /// The predecessors of `u` when it is a node, nothing otherwise.
    pub open(crate) spec fn unit_node_preds(&self, u: UnitHandle) -> Seq<NodeHandle> {
        match u {
            UnitHandle::Node(n) => self.preds(n),
            UnitHandle::Subgraph(_) => Seq::empty(),
        }
    }

    /// The predecessors of the nodes of `row`, in order.
    pub open(crate) spec fn row_cands(&self, row: Seq<UnitHandle>) -> Seq<NodeHandle> {
        flatten(row.map_values(|u: UnitHandle| self.unit_node_preds(u)))
    }

    /// The predecessors of the nodes of `rows`, row by row.
    pub open(crate) spec fn rows_cands(&self, rows: Seq<Seq<UnitHandle>>) -> Seq<NodeHandle> {
        flatten(rows.map_values(|row: Seq<UnitHandle>| self.row_cands(row)))
    }

    /// The nodes whose placement decides where `u` goes: the predecessors of
    /// a node, or those of the nodes in a subgraph's rank.
    pub open(crate) spec fn placement_cands(&self, u: UnitHandle) -> Seq<NodeHandle> {
        match u {
            UnitHandle::Node(n) => self.preds(n),
            UnitHandle::Subgraph(t) => self.rows_cands(self.rank_of(t).rows()),
        }
    }

    /// Every node that stands in the rank of subgraph `t` is a node of the dag.
    pub open(crate) spec fn rank_nodes_valid(&self, t: SubgraphHandle) -> bool {
        forall|i: int, j: int|
            0 <= i < self.rank_of(t).rows().len() && 0 <= j < self.rank_of(t).rows()[i].len()
                && (#[trigger] self.rank_of(t).rows()[i][j]) is Node ==> self.node_valid(unit_to_node(self.rank_of(t).rows()[i][j]))
    }

    /// Every row recorded in `placed` can be followed by another one.
    pub open spec fn placed_rows_bounded(placed: Map<UnitHandle, Option<(usize, usize)>>) -> bool {
        forall|u: UnitHandle| #![trigger placed[u]] placed.contains_key(u) && placed[u] is Some ==> placed[u]->Some_0.1 < usize::MAX - 1
    }

    /// Decide where the unit `unit_handle` goes in the rank of subgraph
    /// `subgraph_idx`: one row below the first placed node among its
    /// candidates (see `placement_cands`), at the end of that row; when none
    /// was placed, in row 0 after the widest row. The rank is given enough
    /// rows for the chosen position.
    pub fn determine_loc_nodehandle(
        &mut self,
        subgraph_idx: SubgraphHandle,
        unit_handle: UnitHandle,
        placed: &UnitMap<Option<(usize, usize)>>,
    ) -> (r: (usize, usize))
        requires
            old(self).wf(),
            old(self).subgraph_valid(subgraph_idx),
            old(self).unit_valid(unit_handle),
            unit_handle is Subgraph ==> old(self).rank_nodes_valid(unit_to_subgraph(unit_handle)),
            DAG::placed_rows_bounded(placed@),
        ensures
            final(self).wf(),
            final(self).same_except_rank(old(self), subgraph_idx),
            final(self).rank_of(subgraph_idx).level_map() == old(self).rank_of(subgraph_idx).level_map(),
            match first_placed(old(self).placement_cands(unit_handle), placed@) {
                Some(y) => {
                    let rows = pad_rows(old(self).rank_of(subgraph_idx).rows(), y as nat + 2);
                    &&& final(self).rank_of(subgraph_idx).rows() == rows
                    &&& r == (rows[y + 1].len() as usize, (y + 1) as usize)
                },
                None => {
                    &&& final(self).rank_of(subgraph_idx).rows() == old(self).rank_of(subgraph_idx).rows()
                    &&& r == (max_row_len(old(self).rank_of(subgraph_idx).rows()) as usize, 0usize)
                },
            },
    {
        let ghost o = *self;
        let ghost pm = placed@;
        match unit_handle {
            UnitHandle::Node(node) => {
                let preds = self.nodes[node.idx].predecessors.clone();
                proof {
                    assert(preds@ =~= o.preds(node));
                    assert(preds@.skip(0) =~= preds@);
                }
                let mut k: usize = 0;
                while k < preds.len()
                    invariant
                        *self == o,
                        o == *old(self),
                        o.wf(),
                        o.subgraph_valid(subgraph_idx),
                        unit_handle == UnitHandle::Node(node),
                        preds@ == o.preds(node),
                        pm == placed@,
                        DAG::placed_rows_bounded(pm),
                        k <= preds@.len(),
                        first_placed(preds@, pm) == first_placed(preds@.skip(k as int), pm),
                    decreases preds@.len() - k,
                {
                    let p = preds[k];
                    proof { assert(preds@.skip(k as int)[0] == p); }
                    if let Some(placed_node) = placed.get(UnitHandle::Node(p)) {
                        if let Some((_x, y0)) = placed_node {
                            proof {
                                assert(pm[UnitHandle::Node(p)] == Some((_x, y0)));
                                assert(placed_level(pm, p) == Some(y0));
                                assert(first_placed(preds@.skip(k as int), pm) == Some(y0));
                                assert(first_placed(o.placement_cands(unit_handle), pm) == Some(y0));
                            }
                            let y = y0 + 1;
                            let ghost before = *self;
                            self.grow_rank(subgraph_idx, y + 1);
                            proof { self.lemma_same_except_rank_wf(&before, subgraph_idx); }
                            let x = self.subgraphs[subgraph_idx.idx].ranks.row(y).len();
                            return (x, y);
                        }
                    }
                    proof { assert(preds@.skip(k as int).drop_first() =~= preds@.skip(k as int + 1)); }
                    k = k + 1;
                }
                proof { assert(preds@.skip(k as int) =~= Seq::<NodeHandle>::empty()); }
            },
            UnitHandle::Subgraph(subgraph) => {
                let h = self.subgraphs[subgraph.idx].ranks.height();
                let ghost rows = o.rank_of(subgraph).rows();
                let ghost total = o.rows_cands(rows);
                proof { assert(rows.skip(0) =~= rows); }
                let mut i: usize = 0;
                while i < h
                    invariant
                        *self == o,
                        o == *old(self),
                        o.wf(),
                        o.subgraph_valid(subgraph),
                        o.rank_nodes_valid(subgraph),
                        o.subgraph_valid(subgraph_idx),
                        pm == placed@,
                        DAG::placed_rows_bounded(pm),
                        rows == o.rank_of(subgraph).rows(),
                        total == o.rows_cands(rows),
                        unit_handle == UnitHandle::Subgraph(subgraph),
                        h == rows.len(),
                        i <= h,
                        first_placed(total, pm) == first_placed(o.rows_cands(rows.skip(i as int)), pm),
                    decreases h - i,
                {
                    let w = self.subgraphs[subgraph.idx].ranks.row(i).len();
                    let ghost row = rows[i as int];
                    let ghost rest = o.rows_cands(rows.skip(i as int + 1));
                    proof {
                        o.lemma_rows_cands_skip(rows, i as int);
                        assert(row.skip(0) =~= row);
                    }
                    let mut j: usize = 0;
                    while j < w
                        invariant
                            *self == o,
                            o == *old(self),
                            o.wf(),
                            o.subgraph_valid(subgraph),
                            o.rank_nodes_valid(subgraph),
                            o.subgraph_valid(subgraph_idx),
                            pm == placed@,
                            DAG::placed_rows_bounded(pm),
                            rows == o.rank_of(subgraph).rows(),
                            total == o.rows_cands(rows),
                            unit_handle == UnitHandle::Subgraph(subgraph),
                            h == rows.len(),
                            i < h,
                            row == rows[i as int],
                            w == row.len(),
                            j <= w,
                            first_placed(total, pm) == first_placed(o.row_cands(row.skip(j as int)) + rest, pm),
                        decreases w - j,
                    {
                        let elem = self.subgraphs[subgraph.idx].ranks.row(i)[j];
                        proof {
                            assert(row[j as int] == elem);
                            o.lemma_row_cands_skip(row, j as int);
                        }
                        if let UnitHandle::Node(nd) = elem {
                            proof { assert(o.node_valid(unit_to_node(rows[i as int][j as int]))); }
                            let preds = self.nodes[nd.idx].predecessors.clone();
                            let ghost tail = o.row_cands(row.skip(j as int + 1)) + rest;
                            proof {
                                assert(preds@ =~= o.preds(nd));
                                assert(preds@.skip(0) =~= preds@);
                                assert(o.unit_node_preds(elem) == preds@);
                                assert(o.row_cands(row.skip(j as int)) + rest =~= preds@.skip(0) + tail);
                            }
                            let mut k: usize = 0;
                            while k < preds.len()
                                invariant
                                    *self == o,
                                    o == *old(self),
                                    o.wf(),
                                    o.subgraph_valid(subgraph_idx),
                                    pm == placed@,
                                    DAG::placed_rows_bounded(pm),
                                    k <= preds@.len(),
                                    total == o.rows_cands(rows),
                                    rows == o.rank_of(subgraph).rows(),
                                    unit_handle == UnitHandle::Subgraph(subgraph),
                                    first_placed(total, pm) == first_placed(preds@.skip(k as int) + tail, pm),
                                decreases preds@.len() - k,
                            {
                                let p = preds[k];
                                proof { assert((preds@.skip(k as int) + tail)[0] == p); }
                                if let Some(placed_node) = placed.get(UnitHandle::Node(p)) {
                                    if let Some((_x, y0)) = placed_node {
                                        proof {
                                            assert(pm[UnitHandle::Node(p)] == Some((_x, y0)));
                                            assert(placed_level(pm, p) == Some(y0));
                                            assert(first_placed(preds@.skip(k as int) + tail, pm) == Some(y0));
                                            assert(first_placed(o.placement_cands(unit_handle), pm) == Some(y0));
                                        }
                                        let y = y0 + 1;
                                        let ghost before = *self;
                                        self.grow_rank(subgraph_idx, y + 1);
                                        proof { self.lemma_same_except_rank_wf(&before, subgraph_idx); }
                                        let x = self.subgraphs[subgraph_idx.idx].ranks.row(y).len();
                                        return (x, y);
                                    }
                                }
                                proof { assert((preds@.skip(k as int) + tail).drop_first() =~= preds@.skip(k as int + 1) + tail); }
                                k = k + 1;
                            }
                            proof { assert(preds@.skip(k as int) + tail =~= tail); }
                        } else {
                            proof {
                                assert(o.unit_node_preds(elem) == Seq::<NodeHandle>::empty());
                                assert(o.row_cands(row.skip(j as int)) + rest =~= o.row_cands(row.skip(j as int + 1)) + rest);
                            }
                        }
                        j = j + 1;
                    }
                    proof { assert(o.row_cands(row.skip(j as int)) + rest =~= rest); }
                    i = i + 1;
                }
                proof { assert(o.rows_cands(rows.skip(i as int)) =~= Seq::<NodeHandle>::empty()); }
            },
        }
        let x = self.subgraphs[subgraph_idx.idx].ranks.width();
        (x, 0)
    }

    pub(crate) proof fn lemma_row_cands_skip(&self, row: Seq<UnitHandle>, j: int)
        requires
            0 <= j < row.len(),
        ensures
            self.row_cands(row.skip(j)) == self.unit_node_preds(row[j]) + self.row_cands(row.skip(j + 1)),
    {
        let m = row.skip(j).map_values(|u: UnitHandle| self.unit_node_preds(u));
        assert(m.drop_first() =~= row.skip(j + 1).map_values(|u: UnitHandle| self.unit_node_preds(u)));
    }

    pub(crate) proof fn lemma_rows_cands_skip(&self, rows: Seq<Seq<UnitHandle>>, i: int)
        requires
            0 <= i < rows.len(),
        ensures
            self.rows_cands(rows.skip(i)) == self.row_cands(rows[i]) + self.rows_cands(rows.skip(i + 1)),
    {
        let m = rows.skip(i).map_values(|row: Seq<UnitHandle>| self.row_cands(row));
        assert(m.drop_first() =~= rows.skip(i + 1).map_values(|row: Seq<UnitHandle>| self.row_cands(row)));
    }
}

/// The subgraph that a unit stands for (only meaningful for subgraph units).
pub open(crate) spec fn unit_to_subgraph(u: UnitHandle) -> SubgraphHandle {
    match u {
        UnitHandle::Subgraph(s) => s,
        UnitHandle::Node(n) => SubgraphHandle { idx: n.idx },
    }
}


/// What `move_subgraph` keeps track of: the rows and levels of the parent's
/// rank, and the placement map.
pub struct MoveState {
    pub rows: Seq<Seq<UnitHandle>>,
    pub levels: Map<UnitHandle, usize>,
    pub placed: Map<UnitHandle, Option<(usize, usize)>>,
}

/// Appends unit `e` to the row at level `t`, records its level and where it
/// was placed.
pub open spec fn move_one(st: MoveState, e: UnitHandle, t: nat) -> MoveState {
    let grown = pad_rows(st.rows, t + 1);
    let row = grown[t as int].push(e);
    MoveState {
        rows: grown.update(t as int, row),
        levels: st.levels.insert(e, t as usize),
        placed: st.placed.insert(e, Some((row.len() as usize, t as usize))),
    }
}

/// Moves the nodes of `row`, in order, each to its level in `child_levels`
/// shifted by `off`.
pub open spec fn move_row(st: MoveState, row: Seq<UnitHandle>, child_levels: Map<UnitHandle, usize>, off: nat) -> MoveState
    decreases row.len(),
{
    if row.len() == 0 {
        st
    } else {
        let before = move_row(st, row.drop_last(), child_levels, off);
        let e = row.last();
        if e is Node {
            move_one(before, e, (child_levels[e] + off) as nat)
        } else {
            before
        }
    }
}

/// Moves the nodes of `rows`, row by row.
pub open spec fn move_rows(st: MoveState, rows: Seq<Seq<UnitHandle>>, child_levels: Map<UnitHandle, usize>, off: nat) -> MoveState
    decreases rows.len(),
{
    if rows.len() == 0 {
        st
    } else {
        move_row(move_rows(st, rows.drop_last(), child_levels, off), rows.last(), child_levels, off)
    }
}

impl DAG {
    /// Every node in the rank of `t` has a level there, and that level shifted
    /// by `off` leaves room for one more row.
    pub open(crate) spec fn child_levels_fit(&self, t: SubgraphHandle, off: nat) -> bool {
        forall|i: int, j: int|
            0 <= i < self.rank_of(t).rows().len() && 0 <= j < self.rank_of(t).rows()[i].len()
                && (#[trigger] self.rank_of(t).rows()[i][j]) is Node ==> {
                &&& self.rank_of(t).level_map().contains_key(self.rank_of(t).rows()[i][j])
                &&& self.rank_of(t).level_map()[self.rank_of(t).rows()[i][j]] + off < usize::MAX
            }
    }

    /// Move the nodes of subgraph `subgraph_idx`'s rank into the rank of
    /// `parent_subgraph_idx`, shifted down by `y_offset` rows, and record
    /// where each one was placed.
    pub(crate) fn move_subgraph(
        &mut self,
        parent_subgraph_idx: SubgraphHandle,
        subgraph_idx: SubgraphHandle,
        _x_offset: usize,
        y_offset: usize,
        placed: &mut UnitMap<Option<(usize, usize)>>,
    )
        requires
            old(self).wf(),
            old(self).subgraph_valid(parent_subgraph_idx),
            old(self).subgraph_valid(subgraph_idx),
            old(self).child_levels_fit(subgraph_idx, y_offset as nat),
        ensures
            final(self).wf(),
            final(self).same_except_rank(old(self), parent_subgraph_idx),
            ({
                let st = move_rows(
                    MoveState {
                        rows: old(self).rank_of(parent_subgraph_idx).rows(),
                        levels: old(self).rank_of(parent_subgraph_idx).level_map(),
                        placed: old(placed)@,
                    },
                    old(self).rank_of(subgraph_idx).rows(),
                    old(self).rank_of(subgraph_idx).level_map(),
                    y_offset as nat,
                );
                &&& final(self).rank_of(parent_subgraph_idx).rows() == st.rows
                &&& final(self).rank_of(parent_subgraph_idx).level_map() == st.levels
                &&& final(placed)@ == st.placed
            }),
    {
        let ghost o = *self;
        let ghost rows = o.rank_of(subgraph_idx).rows();
        let ghost cl = o.rank_of(subgraph_idx).level_map();
        let ghost off = y_offset as nat;
        let child = self.subgraphs[subgraph_idx.idx].ranks.duplicate();
        let h = child.height();
        let mut i: usize = 0;
        proof {
            assert(rows.take(0) =~= Seq::<Seq<UnitHandle>>::empty());
        }
        while i < h
            invariant
                o.wf(),
                o == *old(self),
                o.subgraph_valid(parent_subgraph_idx),
                o.subgraph_valid(subgraph_idx),
                o.child_levels_fit(subgraph_idx, off),
                off == y_offset as nat,
                child.rows() == rows,
                child.level_map() == cl,
                rows == o.rank_of(subgraph_idx).rows(),
                cl == o.rank_of(subgraph_idx).level_map(),
                h == rows.len(),
                i <= h,
                self.wf(),
                self.same_except_rank(&o, parent_subgraph_idx),
                self.subgraph_valid(parent_subgraph_idx),
                ({
                    let st = move_rows(
                        MoveState { rows: o.rank_of(parent_subgraph_idx).rows(), levels: o.rank_of(parent_subgraph_idx).level_map(), placed: old(placed)@ },
                        rows.take(i as int), cl, off);
                    &&& self.rank_of(parent_subgraph_idx).rows() == st.rows
                    &&& self.rank_of(parent_subgraph_idx).level_map() == st.levels
                    &&& placed@ == st.placed
                }),
            decreases h - i,
        {
            let ghost st0 = move_rows(
                MoveState { rows: o.rank_of(parent_subgraph_idx).rows(), levels: o.rank_of(parent_subgraph_idx).level_map(), placed: old(placed)@ },
                rows.take(i as int), cl, off);
            let w = child.row(i).len();
            let mut j: usize = 0;
            proof { assert(rows[i as int].take(0) =~= Seq::<UnitHandle>::empty()); }
            while j < w
                invariant
                    o.wf(),
                    o == *old(self),
                    o.subgraph_valid(parent_subgraph_idx),
                    o.subgraph_valid(subgraph_idx),
                    o.child_levels_fit(subgraph_idx, off),
                    off == y_offset as nat,
                    child.rows() == rows,
                    child.level_map() == cl,
                    rows == o.rank_of(subgraph_idx).rows(),
                    cl == o.rank_of(subgraph_idx).level_map(),
                    h == rows.len(),
                    i < h,
                    w == rows[i as int].len(),
                    j <= w,
                    self.wf(),
                    self.same_except_rank(&o, parent_subgraph_idx),
                    self.subgraph_valid(parent_subgraph_idx),
                    ({
                        let st = move_row(st0, rows[i as int].take(j as int), cl, off);
                        &&& self.rank_of(parent_subgraph_idx).rows() == st.rows
                        &&& self.rank_of(parent_subgraph_idx).level_map() == st.levels
                        &&& placed@ == st.placed
                    }),
                decreases w - j,
            {
                let elem = child.row(i)[j];
                let ghost stj = move_row(st0, rows[i as int].take(j as int), cl, off);
                proof {
                    assert(rows[i as int][j as int] == elem);
                    assert(rows[i as int].take(j as int + 1).drop_last() =~= rows[i as int].take(j as int));
                    assert(rows[i as int].take(j as int + 1).last() == elem);
                }
                if let UnitHandle::Node(node) = elem {
                    let level = child.level(elem);
                    let ghost before = *self;
                    self.add_element_to_rank_subgraph(UnitHandle::new_node(node), level + y_offset, false, parent_subgraph_idx);
                    proof {
                        self.lemma_same_except_rank_wf(&before, parent_subgraph_idx);
                        assert(self.same_except_rank(&o, parent_subgraph_idx)) by {
                            assert forall|t: SubgraphHandle| #![trigger self.subgraphs@[t.index() as int]]
                                self.subgraph_valid(t) && t != parent_subgraph_idx implies
                                self.subgraphs@[t.index() as int] == before.subgraphs@[t.index() as int] by {}
                        }
                    }
                    let x = self.subgraphs[parent_subgraph_idx.idx].ranks.row(level + y_offset).len();
                    placed.insert(UnitHandle::Node(node), Some((x, level + y_offset)));
                    proof {
                        let nxt = move_one(stj, elem, (cl[elem] + off) as nat);
                        assert(self.rank_of(parent_subgraph_idx).rows() == nxt.rows);
                        assert(placed@ == nxt.placed);
                    }
                }
                j = j + 1;
            }
            proof {
                assert(rows[i as int].take(w as int) =~= rows[i as int]);
                assert(rows.take(i as int + 1).drop_last() =~= rows.take(i as int));
                assert(rows.take(i as int + 1).last() == rows[i as int]);
            }
            i = i + 1;
        }
        proof {
            assert(rows.take(h as int) =~= rows);
        }
    }
}

} // verus!
