//! Handles that name the nodes and the subgraphs of a ranked DAG.

use vstd::prelude::*;

verus! {

/// Used by users to keep track of nodes that are saved in the DAG.
#[derive(Copy, Clone, Default, PartialEq, Eq, Structural, PartialOrd, Ord, Hash, Debug)]
pub struct NodeHandle {
    pub(crate) idx: usize,
}

/// A handle to a subgraph of the DAG.
#[derive(Copy, Clone, Default, PartialEq, Eq, Structural, PartialOrd, Ord, Hash, Debug)]
pub struct SubgraphHandle {
    pub(crate) idx: usize,
}

/// A unit of layout: either a single node or a whole subgraph.
#[derive(Copy, Clone, PartialEq, Eq, Structural, PartialOrd, Ord, Hash, Debug)]
pub enum UnitHandle {
    /// A handle to a node.
    Node(NodeHandle),
    /// A handle to a subgraph.
    Subgraph(SubgraphHandle),
}

/// The handle of the node at position `i`.
pub open(crate) spec fn node_handle(i: int) -> NodeHandle {
    NodeHandle { idx: i as usize }
}

/// The handle of the subgraph at position `i`.
pub open(crate) spec fn subgraph_handle(i: int) -> SubgraphHandle {
    SubgraphHandle { idx: i as usize }
}

impl NodeHandle {
    /// The position of the node in the DAG's node list.
    pub open(crate) spec fn index(self) -> nat {
        self.idx as nat
    }

    pub fn new(x: usize) -> (r: Self)
        ensures
            r.index() == x,
    {
        NodeHandle { idx: x }
    }

    pub fn get_index(&self) -> (r: usize)
        ensures
            r == self.index(),
    {
        self.idx
    }
}

impl SubgraphHandle {
    /// The position of the subgraph in the DAG's subgraph list.
    pub open(crate) spec fn index(self) -> nat {
        self.idx as nat
    }

    pub fn new(x: usize) -> (r: Self)
        ensures
            r.index() == x,
    {
        SubgraphHandle { idx: x }
    }

    pub fn get_index(&self) -> (r: usize)
        ensures
            r == self.index(),
    {
        self.idx
    }
}

impl From<usize> for NodeHandle {
    fn from(idx: usize) -> (r: Self) {
        NodeHandle { idx }
    }
}

impl vstd::std_specs::convert::FromSpecImpl<usize> for NodeHandle {
    open spec fn obeys_from_spec() -> bool {
        true
    }

    open(crate) spec fn from_spec(v: usize) -> Self {
        NodeHandle { idx: v }
    }
}

impl UnitHandle {
    pub fn new_node(node: NodeHandle) -> (r: Self)
        ensures
            r == UnitHandle::Node(node),
    {
        UnitHandle::Node(node)
    }

    pub fn new_subgraph(subgraph: SubgraphHandle) -> (r: Self)
        ensures
            r == UnitHandle::Subgraph(subgraph),
    {
        UnitHandle::Subgraph(subgraph)
    }
}

} // verus!
