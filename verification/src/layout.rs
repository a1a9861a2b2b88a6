//! The visual graph: the shapes and arrows to lay out, over a ranked DAG
//! that holds their relations, and the lowering of arrows into edges that
//! connect neighbouring levels.

use vstd::prelude::*;
use crate::base::Orientation;
use crate::handles::{NodeHandle, SubgraphHandle, UnitHandle, node_handle};
use crate::dag::{DAG, NodeIterator, pad_rows, occ, lemma_occ_remove_first, lemma_first_index_in};
use crate::seqs::{remove_first, first_index, without};
use crate::inter::has_level_check;
use crate::levels::computed_levels;
use crate::reach::{reaches, unit_reaches, lemma_no_cycle, lemma_no_back_edges_after_add};
use crate::optimizer::{RankOptimizer, EdgeCrossOptimizer, crossing_ready};

verus! {

/// How a shape or an arrow is drawn.
#[derive(Debug)]
pub struct StyleAttr {
    pub line_color: String,
    pub line_width: usize,
    pub fill_color: Option<String>,
    pub rounded: usize,
    pub font_size: usize,
}

impl StyleAttr {
    pub fn new(line_color: String, line_width: usize, fill_color: Option<String>, rounded: usize, font_size: usize) -> (r: Self)
        ensures
            r.line_color == line_color,
            r.line_width == line_width,
            r.fill_color == fill_color,
            r.rounded == rounded,
            r.font_size == font_size,
    {
        StyleAttr { line_color, line_width, fill_color, rounded, font_size }
    }

    /// A copy of the style.
    pub fn duplicate(&self) -> (r: Self)
        ensures
            r == *self,
    {
        let fill_color = match &self.fill_color {
            Some(c) => Some(c.clone()),
            None => None,
        };
        StyleAttr {
            line_color: self.line_color.clone(),
            line_width: self.line_width,
            fill_color,
            rounded: self.rounded,
            font_size: self.font_size,
        }
    }
}

/// What the end of an arrow looks like.
#[derive(Copy, Clone, PartialEq, Eq, Structural, Debug)]
pub enum LineEnd {
    Plain,
    Arrow,
}

/// An arrow between two shapes, with an optional label.
#[derive(Debug)]
pub struct Arrow {
    pub start: LineEnd,
    pub end: LineEnd,
    pub text: String,
    pub look: StyleAttr,
}

impl Arrow {
    pub fn new(start: LineEnd, end: LineEnd, text: String, look: StyleAttr) -> (r: Self)
        ensures
            r == (Arrow { start, end, text, look }),
    {
        Arrow { start, end, text, look }
    }

    /// The same arrow pointing the other way.
    pub fn reverse(self) -> (r: Self)
        ensures
            r == (Arrow { start: self.end, end: self.start, text: self.text, look: self.look }),
    {
        Arrow { start: self.end, end: self.start, text: self.text, look: self.look }
    }

    /// A copy of the arrow.
    pub fn duplicate(&self) -> (r: Self)
        ensures
            r == *self,
    {
        Arrow { start: self.start, end: self.end, text: self.text.clone(), look: self.look.duplicate() }
    }
}

/// The kind of a shape.
#[derive(Debug)]
pub enum ShapeKind {
    /// Takes room and shows nothing.
    Empty,
    /// A box with a label.
    Box(String),
    /// A circle with a label.
    Circle(String),
    /// A point that an edge passes through, with the label of the edge if
    /// it has one.
    Connector(Option<String>),
    /// The frame of a subgraph, with its name.
    Subgraph(String),
}

/// A shape of the graph.
#[derive(Debug)]
pub struct Element {
    pub shape: ShapeKind,
    pub orientation: Orientation,
    pub look: StyleAttr,
}

impl Element {
    pub fn create(shape: ShapeKind, look: StyleAttr, orientation: Orientation) -> (r: Self)
        ensures
            r == (Element { shape, orientation, look }),
    {
        Element { shape, orientation, look }
    }

    /// A connector that carries the label `label`.
    pub fn create_connector(label: &String, look: &StyleAttr, dir: Orientation) -> (r: Self)
        ensures
            r.shape == ShapeKind::Connector(Some(*label)),
            r.look == *look,
            r.orientation == dir,
    {
        Element { shape: ShapeKind::Connector(Some(label.clone())), orientation: dir, look: look.duplicate() }
    }

    /// A connector without a label.
    pub fn empty_connector(dir: Orientation) -> (r: Self)
        ensures
            r.shape == ShapeKind::Connector(None),
            r.orientation == dir,
    {
        Element { shape: ShapeKind::Connector(None), orientation: dir, look: StyleAttr::new("black".to_owned(), 1, None, 0, 0) }
    }

    /// A shape that only takes room.
    pub fn placeholder(dir: Orientation) -> (r: Self)
        ensures
            r.shape == ShapeKind::Empty,
            r.orientation == dir,
    {
        Element { shape: ShapeKind::Empty, orientation: dir, look: StyleAttr::new("black".to_owned(), 1, None, 0, 0) }
    }

    /// The frame of the subgraph `name`.
    pub fn create_subgraph(dir: Orientation, name: String, look: &StyleAttr) -> (r: Self)
        ensures
            r.shape == ShapeKind::Subgraph(name),
            r.orientation == dir,
            r.look == *look,
    {
        Element { shape: ShapeKind::Subgraph(name), orientation: dir, look: look.duplicate() }
    }

    pub fn is_connector(&self) -> (r: bool)
        ensures
            r == (self.shape is Connector),
    {
        match self.shape {
            ShapeKind::Connector(_) => true,
            _ => false,
        }
    }
}

/// An arrow with the nodes it passes through and the units that stand for
/// them.
pub type EdgeEntry = (Arrow, Vec<NodeHandle>, Vec<UnitHandle>);

/// The shapes and arrows of a graph, over the ranked DAG that relates them.
#[derive(Debug)]
pub struct VisualGraph {
    pub(crate) nodes: Vec<Element>,
    pub(crate) subgraphs: Vec<Element>,
    pub(crate) edges: Vec<EdgeEntry>,
    pub(crate) self_edges: Vec<(Arrow, NodeHandle, UnitHandle)>,
    pub dag: DAG,
    pub(crate) orientation: Orientation,
}

impl VisualGraph {
    pub open(crate) spec fn elements(&self) -> Seq<Element> {
        self.nodes@
    }

    pub open(crate) spec fn subgraph_elements(&self) -> Seq<Element> {
        self.subgraphs@
    }

    pub open(crate) spec fn edge_list(&self) -> Seq<EdgeEntry> {
        self.edges@
    }

    pub open(crate) spec fn self_edge_list(&self) -> Seq<(Arrow, NodeHandle, UnitHandle)> {
        self.self_edges@
    }

    pub open(crate) spec fn graph_dag(&self) -> DAG {
        self.dag
    }

    pub open(crate) spec fn layout_orientation(&self) -> Orientation {
        self.orientation
    }

    /// The arrow `e` runs through at least two valid nodes, and names at
    /// least two units.
    pub open(crate) spec fn edge_ok(&self, e: EdgeEntry) -> bool {
        &&& e.2@.len() >= 2
        &&& e.1@.len() >= 2
        &&& forall|k: int| 0 <= k < e.1@.len() ==> self.dag.node_valid(#[trigger] e.1@[k])
    }

    /// The structural invariant: a well-formed dag with one element per node
    /// and per subgraph, and arrows over valid nodes and units.
    pub open(crate) spec fn graph_wf(&self) -> bool {
        &&& self.dag.wf()
        &&& self.nodes@.len() == self.dag.node_count()
        &&& self.subgraphs@.len() == self.dag.subgraph_count()
        &&& forall|k: int| 0 <= k < self.edges@.len() ==> self.edge_ok(#[trigger] self.edges@[k])
        &&& forall|k: int| 0 <= k < self.self_edges@.len() ==> {
            &&& self.graph_dag().node_valid((#[trigger] self.self_edges@[k]).1)
            &&& self.graph_dag().unit_valid(self.self_edges@[k].2)
        }
    }

    pub fn new(orientation: Orientation) -> (r: Self)
        ensures
            r.graph_wf(),
            r.graph_dag().is_empty_dag(),
            r.elements().len() == 0,
            r.subgraph_elements().len() == 0,
            r.edge_list().len() == 0,
            r.self_edge_list().len() == 0,
            r.layout_orientation() == orientation,
    {
        VisualGraph {
            nodes: Vec::new(),
            subgraphs: Vec::new(),
            edges: Vec::new(),
            self_edges: Vec::new(),
            dag: DAG::new(),
            orientation,
        }
    }

    pub fn orientation(&self) -> (r: Orientation)
        ensures
            r == self.layout_orientation(),
    {
        self.orientation
    }

    pub fn num_nodes(&self) -> (r: usize)
        ensures
            r == self.graph_dag().node_count(),
    {
        self.dag.len()
    }

    pub fn iter_nodes(&self) -> (r: NodeIterator)
        ensures
            r.wf(),
            r.remaining() == Seq::new(self.graph_dag().node_count(), |i: int| node_handle(i)),
    {
        self.dag.iter()
    }

    pub fn succ(&self, node: NodeHandle) -> (r: &Vec<NodeHandle>)
        requires
            self.graph_dag().node_valid(node),
        ensures
            r@ == self.graph_dag().succs(node),
    {
        self.dag.successors(node)
    }

    pub fn preds(&self, node: NodeHandle) -> (r: &Vec<NodeHandle>)
        requires
            self.graph_dag().node_valid(node),
        ensures
            r@ == self.graph_dag().preds(node),
    {
        self.dag.predecessors(node)
    }

    pub fn is_connector(&self, n: NodeHandle) -> (r: bool)
        requires
            n.index() < self.elements().len(),
        ensures
            r == (self.elements()[n.index() as int].shape is Connector),
    {
        self.element(n).is_connector()
    }

    pub fn element(&self, node: NodeHandle) -> (r: &Element)
        requires
            node.index() < self.elements().len(),
        ensures
            *r == self.elements()[node.index() as int],
    {
        &self.nodes[node.get_index()]
    }

    pub fn element_mut(&mut self, node: NodeHandle) -> (r: &mut Element)
        requires
            node.index() < old(self).elements().len(),
        ensures
            *r == old(self).elements()[node.index() as int],
            final(self).elements() == old(self).elements().update(node.index() as int, *final(r)),
            final(self).subgraph_elements() == old(self).subgraph_elements(),
            final(self).edge_list() == old(self).edge_list(),
            final(self).self_edge_list() == old(self).self_edge_list(),
            final(self).graph_dag() == old(self).graph_dag(),
            final(self).layout_orientation() == old(self).layout_orientation(),
    {
        proof {
            assert(old(self).nodes@.update(node.index() as int, old(self).nodes@[node.index() as int]) =~= old(self).nodes@);
        }
        &mut self.nodes[node.get_index()]
    }
}

impl DAG {
    /// `self` is `old` with the fresh node `r` added to subgraph `s`, as
    /// `new_node` adds it.
    pub open(crate) spec fn node_added(&self, old: &DAG, s: SubgraphHandle, r: NodeHandle) -> bool {
        &&& self.wf()
        &&& r == node_handle(old.node_count() as int)
        &&& self.node_count() == old.node_count() + 1
        &&& self.subgraph_count() == old.subgraph_count()
        &&& self.node_list().subrange(0, old.node_count() as int) == old.node_list()
        &&& self.node_list().last().is_fresh(s)
        &&& self.node_levels() == old.node_levels().push(0)
        &&& self.node_rows() == old.node_rows()
        &&& self.validating() == old.validating()
        &&& self.member_nodes(s) == old.member_nodes(s).push(r)
        &&& ({
            let grown = pad_rows(old.rank_of(s).rows(), 1);
            self.rank_of(s).rows() == grown.update(0, grown[0].push(UnitHandle::Node(r)))
        })
        &&& self.rank_of(s).level_map() == old.rank_of(s).level_map().insert(UnitHandle::Node(r), 0)
        &&& self.member_subgraphs(s) == old.member_subgraphs(s)
        &&& self.unit_succs(UnitHandle::Subgraph(s)) == old.unit_succs(UnitHandle::Subgraph(s))
        &&& self.unit_preds(UnitHandle::Subgraph(s)) == old.unit_preds(UnitHandle::Subgraph(s))
        &&& self.parent_of(UnitHandle::Subgraph(s)) == old.parent_of(UnitHandle::Subgraph(s))
        &&& forall|t: SubgraphHandle| #[trigger] self.parent_of(UnitHandle::Subgraph(t)) == old.parent_of(UnitHandle::Subgraph(t))
            || !old.subgraph_valid(t)
        &&& forall|n: NodeHandle| #[trigger] self.parent_of(UnitHandle::Node(n)) == old.parent_of(UnitHandle::Node(n))
            || !old.node_valid(n)
        &&& forall|t: SubgraphHandle| #![trigger self.rank_of(t)] old.subgraph_valid(t) && t != s ==>
            self.rank_of(t).rows() == old.rank_of(t).rows() && self.rank_of(t).level_map() == old.rank_of(t).level_map()
    }

    /// `self` is `old` with the empty subgraph `r` added under subgraph
    /// `s`, as `new_subgraph` adds it.
    pub open(crate) spec fn subgraph_added(&self, old: &DAG, s: SubgraphHandle, r: SubgraphHandle) -> bool {
        &&& self.wf()
        &&& r.index() == old.subgraph_count()
        &&& self.subgraph_count() == old.subgraph_count() + 1
        &&& self.node_list() == old.node_list()
        &&& self.node_levels() == old.node_levels()
        &&& self.node_rows() == old.node_rows()
        &&& self.validating() == old.validating()
        &&& self.parent_of(UnitHandle::Subgraph(r)) == s
        &&& self.member_nodes(r).len() == 0
        &&& self.unit_succs(UnitHandle::Subgraph(r)).len() == 0
        &&& self.unit_preds(UnitHandle::Subgraph(r)).len() == 0
        &&& old.subgraph_count() == 0 ==> self.subgraph_is_bare(r)
        &&& old.subgraph_count() > 0 ==> {
            let base_members = if s == r { Seq::empty() } else { old.member_subgraphs(s) };
            let base_rows = if s == r { Seq::empty() } else { old.rank_of(s).rows() };
            let base_levels = if s == r { Map::empty() } else { old.rank_of(s).level_map() };
            let grown = pad_rows(base_rows, 1);
            &&& self.member_subgraphs(s) == base_members.push(r)
            &&& self.rank_of(s).rows() == grown.update(0, grown[0].push(UnitHandle::Subgraph(r)))
            &&& self.rank_of(s).level_map() == base_levels.insert(UnitHandle::Subgraph(r), 0)
            &&& s != r ==> self.subgraph_is_bare(r)
        }
    }
}

/// A node added to subgraph `s` has `s` as its parent, and every node that
/// was there keeps its parent.
pub proof fn lemma_added_node_parent(new: &DAG, old: &DAG, s: SubgraphHandle, r: NodeHandle, n: NodeHandle)
    requires
        new.node_added(old, s, r),
        old.node_count() < usize::MAX,
    ensures
        new.parent_of(UnitHandle::Node(r)) == s,
        old.node_valid(n) ==> new.parent_of(UnitHandle::Node(n)) == old.parent_of(UnitHandle::Node(n)),
{
    assert(new.node_list().last() == new.node_list()[r.index() as int]);
    assert(new.parent_of(UnitHandle::Node(n)) == old.parent_of(UnitHandle::Node(n)) || !old.node_valid(n));
}

impl VisualGraph {
    /// Adds the shape `elem` as a node of subgraph `idx`, and returns its
    /// handle.
    pub fn add_node(&mut self, elem: Element, idx: SubgraphHandle) -> (r: NodeHandle)
        requires
            old(self).graph_wf(),
            old(self).graph_dag().subgraph_valid(idx),
            old(self).graph_dag().node_count() < usize::MAX,
        ensures
            final(self).graph_wf(),
            final(self).graph_dag().node_added(&old(self).graph_dag(), idx, r),
            final(self).graph_dag().nesting_kept(&old(self).graph_dag()),
            forall|u: UnitHandle| #[trigger] old(self).graph_dag().unit_valid(u) ==>
                final(self).graph_dag().unit_succs(u) == old(self).graph_dag().unit_succs(u)
                && final(self).graph_dag().unit_preds(u) == old(self).graph_dag().unit_preds(u),
            final(self).elements() == old(self).elements().push(elem),
            final(self).subgraph_elements() == old(self).subgraph_elements(),
            final(self).edge_list() == old(self).edge_list(),
            final(self).self_edge_list() == old(self).self_edge_list(),
            final(self).layout_orientation() == old(self).layout_orientation(),
    {
        let ghost d0 = self.dag;
        let res = self.dag.new_node(idx);
        proof {
            assert forall|t: SubgraphHandle| #[trigger] self.dag.parent_of(UnitHandle::Subgraph(t)) == d0.parent_of(UnitHandle::Subgraph(t))
                || !d0.subgraph_valid(t) by {
                if d0.subgraph_valid(t) && t != idx {
                    assert(self.dag.subgraphs@[t.index() as int].ranks == self.dag.rank_of(t));
                    assert(self.dag.same_subgraph(&d0, t));
                }
            }
            assert forall|u: UnitHandle| #[trigger] d0.unit_valid(u) implies
                self.dag.unit_succs(u) == d0.unit_succs(u) && self.dag.unit_preds(u) == d0.unit_preds(u) by {
                match u {
                    UnitHandle::Node(n) => {
                        assert(self.dag.node_list().subrange(0, d0.node_count() as int)[n.index() as int] == self.dag.node_list()[n.index() as int]);
                    },
                    UnitHandle::Subgraph(t) => {
                        if t != idx {
                            assert(self.dag.subgraphs@[t.index() as int].ranks == self.dag.rank_of(t));
                            assert(self.dag.same_subgraph(&d0, t));
                        }
                    },
                }
            }
            assert forall|t: SubgraphHandle| d0.subgraph_valid(t) implies #[trigger] self.dag.member_subgraphs(t) == d0.member_subgraphs(t) by {
                if t != idx {
                    assert(self.dag.subgraphs@[t.index() as int].ranks == self.dag.rank_of(t));
                    assert(self.dag.same_subgraph(&d0, t));
                }
            }
            assert forall|t: SubgraphHandle| #![trigger self.dag.rank_of(t)] d0.subgraph_valid(t) && t != idx implies
                self.dag.rank_of(t).rows() == d0.rank_of(t).rows() && self.dag.rank_of(t).level_map() == d0.rank_of(t).level_map() by {
                assert(self.dag.subgraphs@[t.index() as int].ranks == self.dag.rank_of(t));
                assert(self.dag.same_subgraph(&d0, t));
            }
            assert forall|n: NodeHandle| #[trigger] self.dag.parent_of(UnitHandle::Node(n)) == d0.parent_of(UnitHandle::Node(n))
                || !d0.node_valid(n) by {
                if d0.node_valid(n) {
                    assert(self.dag.node_list().subrange(0, d0.node_count() as int)[n.index() as int] == self.dag.node_list()[n.index() as int]);
                }
            }
        }
        self.nodes.push(elem);
        proof {
            assert forall|k: int| 0 <= k < self.edges@.len() implies self.edge_ok(#[trigger] self.edges@[k]) by {
                assert(old(self).edge_ok(self.edges@[k]));
            }
            assert forall|k: int| 0 <= k < self.self_edges@.len() implies {
                &&& self.dag.node_valid((#[trigger] self.self_edges@[k]).1)
                &&& self.dag.unit_valid(self.self_edges@[k].2)
            } by {
                assert(old(self).dag.node_valid(self.self_edges@[k].1));
                assert(old(self).dag.unit_valid(self.self_edges@[k].2));
            }
        }
        res
    }

    /// Adds an arrow from `from` to `to`; `from_u` and `to_u` are the units
    /// that stand for them.
    pub fn add_edge(&mut self, arrow: Arrow, from: NodeHandle, from_u: UnitHandle, to: NodeHandle, to_u: UnitHandle)
        requires
            old(self).graph_wf(),
            from.index() < old(self).elements().len(),
            to.index() < old(self).elements().len(),
        ensures
            final(self).graph_wf(),
            final(self).edge_list().len() == old(self).edge_list().len() + 1,
            final(self).edge_list().drop_last() == old(self).edge_list(),
            final(self).edge_list().last().0 == arrow,
            final(self).edge_list().last().1@ == seq![from, to],
            final(self).edge_list().last().2@ == seq![from_u, to_u],
            final(self).elements() == old(self).elements(),
            final(self).subgraph_elements() == old(self).subgraph_elements(),
            final(self).self_edge_list() == old(self).self_edge_list(),
            final(self).graph_dag() == old(self).graph_dag(),
            final(self).layout_orientation() == old(self).layout_orientation(),
    {
        let lst = vec![from, to];
        let lst_u = vec![from_u, to_u];
        self.edges.push((arrow, lst, lst_u));
        proof {
            assert(self.edges@.drop_last() =~= old(self).edges@);
            assert(self.edges@.last().1@ =~= seq![from, to]);
            assert(self.edges@.last().2@ =~= seq![from_u, to_u]);
            assert forall|k: int| 0 <= k < self.edges@.len() implies self.edge_ok(#[trigger] self.edges@[k]) by {
                if k < old(self).edges@.len() {
                    assert(old(self).edge_ok(old(self).edges@[k]));
                }
            }
        }
    }

    /// Adds subgraph `name`, drawn in direction `orientation`, under
    /// subgraph `idx`, and returns its handle.
    pub fn add_subgraph(&mut self, orientation: Orientation, name: String, idx: SubgraphHandle) -> (r: SubgraphHandle)
        requires
            old(self).graph_wf(),
            old(self).graph_dag().subgraph_count() < usize::MAX,
            old(self).graph_dag().subgraph_count() > 0 ==> idx.index() <= old(self).graph_dag().subgraph_count(),
        ensures
            final(self).graph_wf(),
            final(self).graph_dag().subgraph_added(&old(self).graph_dag(), idx, r),
            final(self).subgraph_elements().len() == old(self).subgraph_elements().len() + 1,
            final(self).subgraph_elements().drop_last() == old(self).subgraph_elements(),
            final(self).subgraph_elements().last().shape == ShapeKind::Subgraph(name),
            final(self).subgraph_elements().last().orientation == orientation,
            final(self).elements() == old(self).elements(),
            final(self).edge_list() == old(self).edge_list(),
            final(self).self_edge_list() == old(self).self_edge_list(),
            final(self).layout_orientation() == old(self).layout_orientation(),
    {
        let look = StyleAttr::new("black".to_owned(), 1, None, 0, 0);
        let elem = Element::create_subgraph(orientation, name, &look);
        let res = self.dag.new_subgraph(idx);
        self.subgraphs.push(elem);
        proof {
            assert(self.subgraphs@.drop_last() =~= old(self).subgraphs@);
            assert forall|k: int| 0 <= k < self.edges@.len() implies self.edge_ok(#[trigger] self.edges@[k]) by {
                assert(old(self).edge_ok(self.edges@[k]));
            }
        }
        res
    }
}

/// The arrows of `edges` whose two ends are the same node, as self edges.
pub open spec fn self_loops(edges: Seq<EdgeEntry>) -> Seq<(Arrow, NodeHandle, UnitHandle)>
    decreases edges.len(),
{
    if edges.len() == 0 {
        Seq::empty()
    } else {
        let e = edges.last();
        self_loops(edges.drop_last()) + if e.1@[0] == e.1@[1] { seq![(e.0, e.1@[0], e.2@[0])] } else { Seq::empty() }
    }
}

/// The arrows of `edges` whose two ends are different nodes.
pub open spec fn proper_edges(edges: Seq<EdgeEntry>) -> Seq<EdgeEntry>
    decreases edges.len(),
{
    if edges.len() == 0 {
        Seq::empty()
    } else {
        let e = edges.last();
        proper_edges(edges.drop_last()) + if e.1@[0] != e.1@[1] { seq![e] } else { Seq::empty() }
    }
}

/// The second node of each arrow of `edges` whose first node is `n`.
pub open spec fn targets_from(edges: Seq<EdgeEntry>, n: NodeHandle) -> Seq<NodeHandle>
    decreases edges.len(),
{
    if edges.len() == 0 {
        Seq::empty()
    } else {
        let e = edges.last();
        targets_from(edges.drop_last(), n) + if e.1@[0] == n { seq![e.1@[1]] } else { Seq::empty() }
    }
}

/// The first node of each arrow of `edges` whose second node is `n`.
pub open spec fn sources_to(edges: Seq<EdgeEntry>, n: NodeHandle) -> Seq<NodeHandle>
    decreases edges.len(),
{
    if edges.len() == 0 {
        Seq::empty()
    } else {
        let e = edges.last();
        sources_to(edges.drop_last(), n) + if e.1@[1] == n { seq![e.1@[0]] } else { Seq::empty() }
    }
}

/// The second unit of each arrow of `edges` whose first unit is `u`.
pub open spec fn unit_targets_from(edges: Seq<EdgeEntry>, u: UnitHandle) -> Seq<UnitHandle>
    decreases edges.len(),
{
    if edges.len() == 0 {
        Seq::empty()
    } else {
        let e = edges.last();
        unit_targets_from(edges.drop_last(), u) + if e.2@[0] == u { seq![e.2@[1]] } else { Seq::empty() }
    }
}

/// The first unit of each arrow of `edges` whose second unit is `u`.
pub open spec fn unit_sources_to(edges: Seq<EdgeEntry>, u: UnitHandle) -> Seq<UnitHandle>
    decreases edges.len(),
{
    if edges.len() == 0 {
        Seq::empty()
    } else {
        let e = edges.last();
        unit_sources_to(edges.drop_last(), u) + if e.2@[1] == u { seq![e.2@[0]] } else { Seq::empty() }
    }
}

/// `out` is the two-node arrow `inp`, either as it is or turned around
/// (the arrow reversed with its nodes); its units are those of `inp`, in
/// either order.
pub open spec fn same_or_reversed(out: EdgeEntry, inp: EdgeEntry) -> bool {
    &&& out.1@.len() == 2
    &&& out.2@.len() == 2
    &&& ((out.0 == inp.0 && out.1@ == inp.1@)
        || (out.0 == (Arrow { start: inp.0.end, end: inp.0.start, text: inp.0.text, look: inp.0.look })
            && out.1@ == seq![inp.1@[1], inp.1@[0]]))
    &&& (out.2@ == seq![inp.2@[0], inp.2@[1]] || out.2@ == seq![inp.2@[1], inp.2@[0]])
}

/// A path over the edges of `dag` and the arrows `extra`.
pub open spec fn is_path_with(dag: &DAG, extra: Seq<EdgeEntry>, p: Seq<NodeHandle>) -> bool {
    &&& p.len() >= 1
    &&& forall|i: int| 0 <= i < p.len() - 1 ==>
        dag.node_valid(#[trigger] p[i]) && (dag.succs(p[i]) + targets_from(extra, p[i])).contains(p[i + 1])
}

/// `b` can be reached from `a` over the edges of `dag` and the arrows
/// `extra` (every node reaches itself).
pub open spec fn reaches_with(dag: &DAG, extra: Seq<EdgeEntry>, a: NodeHandle, b: NodeHandle) -> bool {
    exists|p: Seq<NodeHandle>| is_path_with(dag, extra, p) && p[0] == a && p.last() == b
}

/// A path over the unit edges of `dag` and the units of the arrows `extra`.
pub open spec fn is_unit_path_with(dag: &DAG, extra: Seq<EdgeEntry>, p: Seq<UnitHandle>) -> bool {
    &&& p.len() >= 1
    &&& forall|i: int| 0 <= i < p.len() - 1 ==>
        dag.unit_valid(#[trigger] p[i]) && (dag.unit_succs(p[i]) + unit_targets_from(extra, p[i])).contains(p[i + 1])
}

/// `b` can be reached from `a` over the unit edges of `dag` and the units of
/// the arrows `extra` (every unit reaches itself).
pub open spec fn unit_reaches_with(dag: &DAG, extra: Seq<EdgeEntry>, a: UnitHandle, b: UnitHandle) -> bool {
    exists|p: Seq<UnitHandle>| is_unit_path_with(dag, extra, p) && p[0] == a && p.last() == b
}

/// The arrow `out` that `to_valid_dag` makes of `inp`, over `dag` and the
/// arrows `done` made before it: it is flipped when its second node reaches
/// its first, and its units are swapped when its second unit reaches its
/// first.
pub open spec fn valid_dag_arrow(dag: &DAG, done: Seq<EdgeEntry>, inp: EdgeEntry, out: EdgeEntry) -> bool {
    let flip = reaches_with(dag, done, inp.1@[1], inp.1@[0]);
    let uflip = unit_reaches_with(dag, done, inp.2@[1], inp.2@[0]);
    &&& out.0 == if flip { Arrow { start: inp.0.end, end: inp.0.start, text: inp.0.text, look: inp.0.look } } else { inp.0 }
    &&& out.1@ == if flip { seq![inp.1@[1], inp.1@[0]] } else { seq![inp.1@[0], inp.1@[1]] }
    &&& out.2@ == if uflip { seq![inp.2@[1], inp.2@[0]] } else { seq![inp.2@[0], inp.2@[1]] }
}

/// Reaching over a dag whose edges are those of `od` and the arrows `extra`
/// is reaching over `od` and `extra`.
pub proof fn lemma_reaches_with(dag: &DAG, od: &DAG, extra: Seq<EdgeEntry>, a: NodeHandle, b: NodeHandle)
    requires
        dag.node_count() == od.node_count(),
        forall|n: NodeHandle| #![trigger dag.succs(n)] dag.node_valid(n) ==> dag.succs(n) == od.succs(n) + targets_from(extra, n),
    ensures
        reaches(dag, a, b) == reaches_with(od, extra, a, b),
{
    assert forall|p: Seq<NodeHandle>| #[trigger] crate::reach::is_path(dag, p) == is_path_with(od, extra, p) by {
        if crate::reach::is_path(dag, p) {
            assert forall|i: int| 0 <= i < p.len() - 1 implies
                od.node_valid(#[trigger] p[i]) && (od.succs(p[i]) + targets_from(extra, p[i])).contains(p[i + 1]) by {
                assert(dag.node_valid(p[i]) && dag.succs(p[i]).contains(p[i + 1]));
            }
        }
        if is_path_with(od, extra, p) {
            assert forall|i: int| 0 <= i < p.len() - 1 implies
                dag.node_valid(#[trigger] p[i]) && dag.succs(p[i]).contains(p[i + 1]) by {
                assert(od.node_valid(p[i]) && (od.succs(p[i]) + targets_from(extra, p[i])).contains(p[i + 1]));
            }
        }
    }
    if reaches(dag, a, b) {
        let p = choose|p: Seq<NodeHandle>| crate::reach::is_path(dag, p) && p[0] == a && p.last() == b;
        assert(is_path_with(od, extra, p));
    }
    if reaches_with(od, extra, a, b) {
        let p = choose|p: Seq<NodeHandle>| is_path_with(od, extra, p) && p[0] == a && p.last() == b;
        assert(crate::reach::is_path(dag, p));
    }
}

/// Reaching over a dag whose unit edges are those of `od` and the units of
/// the arrows `extra` is reaching over `od` and `extra`.
pub proof fn lemma_unit_reaches_with(dag: &DAG, od: &DAG, extra: Seq<EdgeEntry>, a: UnitHandle, b: UnitHandle)
    requires
        dag.node_count() == od.node_count(),
        dag.subgraph_count() == od.subgraph_count(),
        forall|u: UnitHandle| #![trigger dag.unit_succs(u)] dag.unit_valid(u) ==> dag.unit_succs(u) == od.unit_succs(u) + unit_targets_from(extra, u),
    ensures
        unit_reaches(dag, a, b) == unit_reaches_with(od, extra, a, b),
{
    assert forall|p: Seq<UnitHandle>| #[trigger] crate::reach::is_unit_path(dag, p) == is_unit_path_with(od, extra, p) by {
        if crate::reach::is_unit_path(dag, p) {
            assert forall|i: int| 0 <= i < p.len() - 1 implies
                od.unit_valid(#[trigger] p[i]) && (od.unit_succs(p[i]) + unit_targets_from(extra, p[i])).contains(p[i + 1]) by {
                assert(dag.unit_valid(p[i]) && dag.unit_succs(p[i]).contains(p[i + 1]));
            }
        }
        if is_unit_path_with(od, extra, p) {
            assert forall|i: int| 0 <= i < p.len() - 1 implies
                dag.unit_valid(#[trigger] p[i]) && dag.unit_succs(p[i]).contains(p[i + 1]) by {
                assert(od.unit_valid(p[i]) && (od.unit_succs(p[i]) + unit_targets_from(extra, p[i])).contains(p[i + 1]));
            }
        }
    }
    if unit_reaches(dag, a, b) {
        let p = choose|p: Seq<UnitHandle>| crate::reach::is_unit_path(dag, p) && p[0] == a && p.last() == b;
        assert(is_unit_path_with(od, extra, p));
    }
    if unit_reaches_with(od, extra, a, b) {
        let p = choose|p: Seq<UnitHandle>| is_unit_path_with(od, extra, p) && p[0] == a && p.last() == b;
        assert(crate::reach::is_unit_path(dag, p));
    }
}

impl VisualGraph {
    /// Every arrow joins two nodes, through two valid units.
    pub open(crate) spec fn edges_are_pairs(&self) -> bool {
        forall|k: int| 0 <= k < self.edges@.len() ==> {
            &&& (#[trigger] self.edges@[k]).1@.len() == 2
            &&& self.dag.unit_valid(self.edges@[k].2@[0])
            &&& self.dag.unit_valid(self.edges@[k].2@[1])
        }
    }

    /// Flips the arrows that would close a cycle and enters the arrows in
    /// the dag: an arrow from a node to itself is set aside as a self edge;
    /// an arrow whose head already reaches its tail is turned around (and
    /// the same for its units, by unit reachability). The dag stays free of
    /// back edges.
    #[verifier::rlimit(50)]
    pub fn to_valid_dag(&mut self)
        requires
            old(self).graph_wf(),
            old(self).edges_are_pairs(),
            old(self).graph_dag().passes_checks(),
        ensures
            final(self).graph_wf(),
            final(self).graph_dag().passes_checks(),
            old(self).graph_dag().no_back_edges() ==> final(self).graph_dag().no_back_edges(),
            final(self).graph_dag().same_layout(&old(self).graph_dag()),
            final(self).self_edge_list() == old(self).self_edge_list() + self_loops(old(self).edge_list()),
            final(self).edge_list().len() == proper_edges(old(self).edge_list()).len(),
            forall|j: int| 0 <= j < final(self).edge_list().len() ==>
                same_or_reversed(#[trigger] final(self).edge_list()[j], proper_edges(old(self).edge_list())[j]),
            forall|j: int| 0 <= j < final(self).edge_list().len() ==>
                valid_dag_arrow(&old(self).graph_dag(), final(self).edge_list().take(j), proper_edges(old(self).edge_list())[j],
                    #[trigger] final(self).edge_list()[j]),
            forall|n: NodeHandle| #![trigger final(self).graph_dag().succs(n)] final(self).graph_dag().node_valid(n) ==>
                final(self).graph_dag().succs(n) == old(self).graph_dag().succs(n) + targets_from(final(self).edge_list(), n),
            forall|n: NodeHandle| #![trigger final(self).graph_dag().preds(n)] final(self).graph_dag().node_valid(n) ==>
                final(self).graph_dag().preds(n) == old(self).graph_dag().preds(n) + sources_to(final(self).edge_list(), n),
            forall|u: UnitHandle| #![trigger final(self).graph_dag().unit_succs(u)] final(self).graph_dag().unit_valid(u) ==>
                final(self).graph_dag().unit_succs(u) == old(self).graph_dag().unit_succs(u) + unit_targets_from(final(self).edge_list(), u),
            forall|u: UnitHandle| #![trigger final(self).graph_dag().unit_preds(u)] final(self).graph_dag().unit_valid(u) ==>
                final(self).graph_dag().unit_preds(u) == old(self).graph_dag().unit_preds(u) + unit_sources_to(final(self).edge_list(), u),
            final(self).elements() == old(self).elements(),
            final(self).subgraph_elements() == old(self).subgraph_elements(),
            final(self).layout_orientation() == old(self).layout_orientation(),
    {
        let ghost o = *old(self);
        let ghost od = old(self).dag;
        let mut edges: Vec<EdgeEntry> = Vec::new();
        std::mem::swap(&mut edges, &mut self.edges);
        let ghost input = edges@;
        let mut i: usize = 0;
        proof {
            assert(input.take(0) =~= Seq::<EdgeEntry>::empty());
            assert(self.self_edges@ =~= o.self_edges@ + self_loops(input.take(0)));
        }
        while i < edges.len()
            invariant
                input == edges@,
                input == o.edges@,
                o.graph_wf(),
                o.edges_are_pairs(),
                od == o.dag,
                i <= input.len(),
                self.dag.wf(),
                self.dag.passes_checks(),
                od.no_back_edges() ==> self.dag.no_back_edges(),
                self.dag.same_layout(&od),
                self.nodes@ == o.nodes@,
                self.subgraphs@ == o.subgraphs@,
                self.orientation == o.orientation,
                self.self_edges@ == o.self_edges@ + self_loops(input.take(i as int)),
                forall|k: int| 0 <= k < self.self_edges@.len() ==> {
                    &&& self.dag.node_valid((#[trigger] self.self_edges@[k]).1)
                    &&& self.dag.unit_valid(self.self_edges@[k].2)
                },
                self.edges@.len() == proper_edges(input.take(i as int)).len(),
                forall|j: int| 0 <= j < self.edges@.len() ==>
                    same_or_reversed(#[trigger] self.edges@[j], proper_edges(input.take(i as int))[j]),
                forall|j: int| 0 <= j < self.edges@.len() ==>
                    valid_dag_arrow(&od, self.edges@.take(j), proper_edges(input.take(i as int))[j], #[trigger] self.edges@[j]),
                forall|j: int| 0 <= j < self.edges@.len() ==> {
                    &&& self.dag.node_valid((#[trigger] self.edges@[j]).1@[0])
                    &&& self.dag.node_valid(self.edges@[j].1@[1])
                },
                forall|n: NodeHandle| #![trigger self.dag.succs(n)] self.dag.node_valid(n) ==>
                    self.dag.succs(n) == od.succs(n) + targets_from(self.edges@, n),
                forall|n: NodeHandle| #![trigger self.dag.preds(n)] self.dag.node_valid(n) ==>
                    self.dag.preds(n) == od.preds(n) + sources_to(self.edges@, n),
                forall|u: UnitHandle| #![trigger self.dag.unit_succs(u)] self.dag.unit_valid(u) ==>
                    self.dag.unit_succs(u) == od.unit_succs(u) + unit_targets_from(self.edges@, u),
                forall|u: UnitHandle| #![trigger self.dag.unit_preds(u)] self.dag.unit_valid(u) ==>
                    self.dag.unit_preds(u) == od.unit_preds(u) + unit_sources_to(self.edges@, u),
            decreases input.len() - i,
        {
            proof {
                assert(o.edge_ok(input[i as int]));
                assert(input[i as int].1@.len() == 2);
            }
            let mut arrow = edges[i].0.duplicate();
            let mut from = edges[i].1[0];
            let mut to = edges[i].1[1];
            let mut from_u = edges[i].2[0];
            let mut to_u = edges[i].2[1];
            let ghost e = input[i as int];
            proof {
                let t = input.take(i as int + 1);
                assert(t.drop_last() =~= input.take(i as int));
                assert(t.last() == e);
                assert(od.node_valid(e.1@[0]) && od.node_valid(e.1@[1]));
                assert(od.unit_valid(e.2@[0]) && od.unit_valid(e.2@[1]));
            }
            if from == to {
                self.self_edges.push((arrow, from, from_u));
                proof {
                    assert(self.self_edges@ =~= o.self_edges@ + self_loops(input.take(i as int + 1)));
                    assert(proper_edges(input.take(i as int + 1)) =~= proper_edges(input.take(i as int)));
                }
                i = i + 1;
                continue;
            }
            let ghost before = self.dag;
            let ghost before_edges = self.edges@;
            let ghost mut flipped = false;
            proof {
                assert(arrow == e.0);
                assert(from == e.1@[0] && to == e.1@[1]);
                assert(from_u == e.2@[0] && to_u == e.2@[1]);
            }
            let flip = self.dag.is_reachable(to, from);
            if flip {
                std::mem::swap(&mut from, &mut to);
                arrow = arrow.reverse();
                proof {
                    flipped = true;
                }
            }
            let uflip = self.dag.is_reachable_u(to_u, from_u);
            if uflip {
                std::mem::swap(&mut from_u, &mut to_u);
            }
            proof {
                lemma_reaches_with(&before, &od, before_edges, e.1@[1], e.1@[0]);
                lemma_unit_reaches_with(&before, &od, before_edges, e.2@[1], e.2@[0]);
                assert(flip == reaches_with(&od, before_edges, e.1@[1], e.1@[0]));
                assert(uflip == unit_reaches_with(&od, before_edges, e.2@[1], e.2@[0]));
            }
            proof {
                assert(!flipped ==> arrow == e.0 && from == e.1@[0] && to == e.1@[1]);
                assert(flipped ==> arrow == (Arrow { start: e.0.end, end: e.0.start, text: e.0.text, look: e.0.look })
                    && from == e.1@[1] && to == e.1@[0]);
                assert((from_u == e.2@[0] && to_u == e.2@[1]) || (from_u == e.2@[1] && to_u == e.2@[0]));
            }
            proof {
                if before.no_back_edges() {
                    if reaches(&before, e.1@[1], e.1@[0]) {
                        lemma_no_cycle(&before, e.1@[1], e.1@[0]);
                    }
                    assert(!reaches(&before, to, from));
                }
            }
            self.dag.add_edge(from, to, from_u, to_u);
            proof {
                if before.no_back_edges() {
                    lemma_no_back_edges_after_add(&self.dag, &before, from, to);
                }
                assert(self.dag.node_rows() == before.node_rows());
            }
            let lst = vec![from, to];
            let lst_u = vec![from_u, to_u];
            self.edges.push((arrow, lst, lst_u));
            proof {
                let ne = self.edges@.last();
                assert(self.edges@.drop_last() =~= before_edges);
                assert(ne.1@ =~= seq![from, to]);
                assert(ne.2@ =~= seq![from_u, to_u]);
                assert(e.1@ =~= seq![e.1@[0], e.1@[1]]);
                assert(same_or_reversed(ne, e));
                assert forall|j: int| 0 <= j < self.edges@.len() implies
                    same_or_reversed(#[trigger] self.edges@[j], proper_edges(input.take(i as int + 1))[j]) by {
                    if j < before_edges.len() {
                        assert(self.edges@[j] == before_edges[j]);
                    }
                }
                assert(proper_edges(input.take(i as int + 1)) =~= proper_edges(input.take(i as int)).push(e));
                assert forall|j: int| 0 <= j < self.edges@.len() implies
                    valid_dag_arrow(&od, self.edges@.take(j), proper_edges(input.take(i as int + 1))[j], #[trigger] self.edges@[j]) by {
                    if j < before_edges.len() {
                        assert(self.edges@[j] == before_edges[j]);
                        assert(self.edges@.take(j) =~= before_edges.take(j));
                        assert(proper_edges(input.take(i as int + 1))[j] == proper_edges(input.take(i as int))[j]);
                    } else {
                        assert(self.edges@.take(j) =~= before_edges);
                        assert(proper_edges(input.take(i as int + 1))[j] == e);
                        assert(ne.1@ =~= seq![from, to]);
                        if flip {
                            assert(ne.1@ =~= seq![e.1@[1], e.1@[0]]);
                        } else {
                            assert(ne.1@ =~= seq![e.1@[0], e.1@[1]]);
                        }
                        if uflip {
                            assert(ne.2@ =~= seq![e.2@[1], e.2@[0]]);
                        } else {
                            assert(ne.2@ =~= seq![e.2@[0], e.2@[1]]);
                        }
                    }
                }
                assert(proper_edges(input.take(i as int + 1)) =~= proper_edges(input.take(i as int)).push(e));
                assert(self.self_edges@ =~= o.self_edges@ + self_loops(input.take(i as int + 1)));
                assert forall|n: NodeHandle| #![trigger self.dag.succs(n)] self.dag.node_valid(n) implies
                    self.dag.succs(n) == od.succs(n) + targets_from(self.edges@, n) by {
                    assert(targets_from(self.edges@, n) =~= targets_from(before_edges, n) + if from == n { seq![to] } else { Seq::empty() });
                    assert(before.succs(n) == od.succs(n) + targets_from(before_edges, n));
                }
                assert forall|n: NodeHandle| #![trigger self.dag.preds(n)] self.dag.node_valid(n) implies
                    self.dag.preds(n) == od.preds(n) + sources_to(self.edges@, n) by {
                    assert(sources_to(self.edges@, n) =~= sources_to(before_edges, n) + if to == n { seq![from] } else { Seq::empty() });
                    assert(before.preds(n) == od.preds(n) + sources_to(before_edges, n));
                }
                assert forall|u: UnitHandle| #![trigger self.dag.unit_succs(u)] self.dag.unit_valid(u) implies
                    self.dag.unit_succs(u) == od.unit_succs(u) + unit_targets_from(self.edges@, u) by {
                    assert(unit_targets_from(self.edges@, u) =~= unit_targets_from(before_edges, u) + if from_u == u { seq![to_u] } else { Seq::empty() });
                    assert(before.unit_succs(u) == od.unit_succs(u) + unit_targets_from(before_edges, u));
                }
                assert forall|u: UnitHandle| #![trigger self.dag.unit_preds(u)] self.dag.unit_valid(u) implies
                    self.dag.unit_preds(u) == od.unit_preds(u) + unit_sources_to(self.edges@, u) by {
                    assert(unit_sources_to(self.edges@, u) =~= unit_sources_to(before_edges, u) + if to_u == u { seq![from_u] } else { Seq::empty() });
                    assert(before.unit_preds(u) == od.unit_preds(u) + unit_sources_to(before_edges, u));
                }
            }
            self.dag.verify();
            i = i + 1;
        }
        proof {
            assert(input.take(input.len() as int) =~= input);
            assert forall|k: int| 0 <= k < self.edges@.len() implies self.edge_ok(#[trigger] self.edges@[k]) by {
                assert(self.dag.node_valid(self.edges@[k].1@[0]) && self.dag.node_valid(self.edges@[k].1@[1]));
                assert forall|q: int| 0 <= q < self.edges@[k].1@.len() implies self.dag.node_valid(#[trigger] self.edges@[k].1@[q]) by {}
            }
        }
    }
}

/// The arrow has a label.
pub open spec fn has_text(e: EdgeEntry) -> bool {
    e.0.text@.len() > 0
}

/// The number of labelled arrows in `edges`.
pub open spec fn text_count(edges: Seq<EdgeEntry>) -> nat
    decreases edges.len(),
{
    if edges.len() == 0 {
        0
    } else {
        text_count(edges.drop_last()) + if has_text(edges.last()) { 1nat } else { 0nat }
    }
}

/// The number of labelled arrows in `edges` from `a` to `b`.
pub open spec fn text_pairs(edges: Seq<EdgeEntry>, a: NodeHandle, b: NodeHandle) -> nat
    decreases edges.len(),
{
    if edges.len() == 0 {
        0
    } else {
        let e = edges[0];
        (if has_text(e) && e.1@[0] == a && e.1@[1] == b { 1nat } else { 0nat }) + text_pairs(edges.drop_first(), a, b)
    }
}

/// The connector shapes that stand for the labels of `edges`, in order: a
/// connector with the label and the look of the arrow, drawn in the
/// direction of the arrow's first shape in `elems`.
pub open spec fn text_connectors(elems: Seq<Element>, edges: Seq<EdgeEntry>) -> Seq<Element>
    decreases edges.len(),
{
    if edges.len() == 0 {
        Seq::empty()
    } else {
        let e = edges.last();
        text_connectors(elems, edges.drop_last()) + if has_text(e) {
            seq![Element {
                shape: ShapeKind::Connector(Some(e.0.text)),
                orientation: elems[e.1@[0].index() as int].orientation,
                look: e.0.look,
            }]
        } else {
            Seq::empty()
        }
    }
}

/// `out` is the arrow `inp` after its label moved to the connector `conn`:
/// the arrow has no label and runs through `conn`, as a node and as a
/// unit.
pub open spec fn text_split(out: EdgeEntry, inp: EdgeEntry, conn: NodeHandle) -> bool {
    &&& out.0.start == inp.0.start
    &&& out.0.end == inp.0.end
    &&& out.0.look == inp.0.look
    &&& out.0.text@.len() == 0
    &&& out.1@ == seq![inp.1@[0], conn, inp.1@[1]]
    &&& out.2@ == seq![inp.2@[0], UnitHandle::Node(conn), inp.2@[1]]
}

/// In `dag`, the connector `conn` of the labelled arrow `e` belongs to the
/// subgraph of the arrow's first unit in `od`, and stands in the first row
/// of that subgraph's rank, at level 0.
pub open spec fn connector_placed(dag: &DAG, od: &DAG, e: EdgeEntry, conn: NodeHandle) -> bool {
    let p = od.parent_of(e.2@[0]);
    &&& dag.parent_of(UnitHandle::Node(conn)) == p
    &&& dag.rank_of(p).rows().len() > 0
    &&& dag.rank_of(p).rows()[0].contains(UnitHandle::Node(conn))
    &&& level_is(dag.rank_of(p).level_map(), UnitHandle::Node(conn), 0)
}

/// In `dag`, the connector `conn` of the labelled arrow `e` has one edge in,
/// from the arrow's first node and unit, and one edge out, to its second.
pub open spec fn connector_edges(dag: &DAG, e: EdgeEntry, conn: NodeHandle) -> bool {
    &&& dag.succs(conn) == seq![e.1@[1]]
    &&& dag.preds(conn) == seq![e.1@[0]]
    &&& dag.unit_succs(UnitHandle::Node(conn)) == seq![e.2@[1]]
    &&& dag.unit_preds(UnitHandle::Node(conn)) == seq![e.2@[0]]
}

impl VisualGraph {
    /// Every labelled arrow starts at a unit whose subgraph is a subgraph
    /// of the dag, and the dag holds an edge for each of them.
    pub open(crate) spec fn text_edges_ready(&self) -> bool {
        &&& forall|k: int| 0 <= k < self.edges@.len() && has_text(#[trigger] self.edges@[k]) ==>
            self.dag.subgraph_valid(self.dag.parent_of(self.edges@[k].2@[0]))
        &&& forall|a: NodeHandle, b: NodeHandle| self.dag.node_valid(a) && self.dag.node_valid(b) ==>
            #[trigger] text_pairs(self.edges@, a, b) <= occ(self.dag.succs(a), b)
    }

    /// Turns every labelled arrow into one through a new connector node that
    /// carries the label: the connector joins the subgraph of the arrow's
    /// first unit, the dag edge is replaced by two through the connector,
    /// and the arrow loses its label.
    #[verifier::rlimit(50)]
    pub fn split_text_edges(&mut self)
        requires
            old(self).graph_wf(),
            old(self).edges_are_pairs(),
            old(self).text_edges_ready(),
            old(self).graph_dag().node_count() + text_count(old(self).edge_list()) <= usize::MAX,
        ensures
            final(self).graph_wf(),
            final(self).graph_dag().node_count() == old(self).graph_dag().node_count() + text_count(old(self).edge_list()),
            final(self).graph_dag().validating() == old(self).graph_dag().validating(),
            final(self).elements() == old(self).elements() + text_connectors(old(self).elements(), old(self).edge_list()),
            final(self).edge_list().len() == old(self).edge_list().len(),
            forall|k: int| 0 <= k < old(self).edge_list().len() ==> {
                let e = old(self).edge_list()[k];
                if has_text(e) {
                    text_split(#[trigger] final(self).edge_list()[k], e,
                        node_handle((old(self).graph_dag().node_count() + text_count(old(self).edge_list().take(k))) as int)
                    )
                } else {
                    final(self).edge_list()[k] == e
                }
            },
            forall|k: int| 0 <= k < old(self).edge_list().len() && has_text(#[trigger] old(self).edge_list()[k]) ==>
                connector_edges(&final(self).graph_dag(), old(self).edge_list()[k],
                    node_handle((old(self).graph_dag().node_count() + text_count(old(self).edge_list().take(k))) as int)),
            forall|k: int| 0 <= k < old(self).edge_list().len() && has_text(#[trigger] old(self).edge_list()[k]) ==>
                connector_placed(&final(self).graph_dag(), &old(self).graph_dag(), old(self).edge_list()[k],
                    node_handle((old(self).graph_dag().node_count() + text_count(old(self).edge_list().take(k))) as int)),
            forall|a: NodeHandle, b: NodeHandle| old(self).graph_dag().node_valid(a) && old(self).graph_dag().node_valid(b) ==>
                #[trigger] occ(final(self).graph_dag().succs(a), b) + text_pairs(old(self).edge_list(), a, b) == occ(old(self).graph_dag().succs(a), b),
            forall|u: UnitHandle, v: UnitHandle| old(self).graph_dag().unit_valid(u) && old(self).graph_dag().unit_valid(v) ==>
                #[trigger] occ(final(self).graph_dag().unit_succs(u), v) == occ(old(self).graph_dag().unit_succs(u), v),
            (forall|k: int| 0 <= k < old(self).edge_list().len() ==> !has_text(#[trigger] old(self).edge_list()[k]))
                ==> final(self).graph_dag() == old(self).graph_dag(),
            final(self).subgraph_elements() == old(self).subgraph_elements(),
            final(self).self_edge_list() == old(self).self_edge_list(),
            final(self).layout_orientation() == old(self).layout_orientation(),
    {
        let ghost o = *old(self);
        let mut edges: Vec<EdgeEntry> = Vec::new();
        std::mem::swap(&mut edges, &mut self.edges);
        let ghost input = edges@;
        let ghost n0 = o.dag.node_count();
        let mut k: usize = 0;
        proof {
            assert(input.take(0) =~= Seq::<EdgeEntry>::empty());
            assert(self.nodes@ =~= o.nodes@ + text_connectors(o.nodes@, input.take(0)));
            assert(input.subrange(0, input.len() as int) =~= input);
        }
        while k < edges.len()
            invariant
                input == o.edges@,
                edges@.len() == input.len(),
                o.graph_wf(),
                o.edges_are_pairs(),
                o.text_edges_ready(),
                n0 == o.dag.node_count(),
                n0 + text_count(input) <= usize::MAX,
                k <= input.len(),
                self.graph_wf(),
                self.edges@.len() == 0,
                self.dag.node_count() == n0 + text_count(input.take(k as int)),
                self.dag.subgraph_count() == o.dag.subgraph_count(),
                self.dag.validating() == o.dag.validating(),
                forall|n: NodeHandle| #[trigger] self.dag.parent_of(UnitHandle::Node(n)) == o.dag.parent_of(UnitHandle::Node(n)) || !o.dag.node_valid(n),
                forall|t: SubgraphHandle| #[trigger] self.dag.parent_of(UnitHandle::Subgraph(t)) == o.dag.parent_of(UnitHandle::Subgraph(t)) || !o.dag.subgraph_valid(t),
                self.nodes@ == o.nodes@ + text_connectors(o.nodes@, input.take(k as int)),
                self.subgraphs@ == o.subgraphs@,
                self.self_edges@ == o.self_edges@,
                self.orientation == o.orientation,
                forall|a: NodeHandle, b: NodeHandle| o.dag.node_valid(a) && o.dag.node_valid(b) ==>
                    #[trigger] text_pairs(input.subrange(k as int, input.len() as int), a, b) <= occ(self.dag.succs(a), b),
                forall|a: NodeHandle, b: NodeHandle| o.dag.node_valid(a) && o.dag.node_valid(b) ==>
                    #[trigger] occ(self.dag.succs(a), b) + text_pairs(input, a, b) == occ(o.dag.succs(a), b) + text_pairs(input.subrange(k as int, input.len() as int), a, b),
                forall|u: UnitHandle, v: UnitHandle| o.dag.unit_valid(u) && o.dag.unit_valid(v) ==>
                    #[trigger] occ(self.dag.unit_succs(u), v) == occ(o.dag.unit_succs(u), v),
                forall|j: int| 0 <= j < k && has_text(#[trigger] input[j]) ==>
                    connector_edges(&self.dag, input[j], node_handle((n0 + text_count(input.take(j))) as int)),
                forall|j: int| 0 <= j < k && has_text(#[trigger] input[j]) ==>
                    connector_placed(&self.dag, &o.dag, input[j], node_handle((n0 + text_count(input.take(j))) as int)),
                forall|j: int| k <= j < input.len() ==> #[trigger] edges@[j] == input[j],
                (forall|j: int| 0 <= j < k ==> !has_text(#[trigger] input[j])) ==> self.dag == o.dag,
                forall|j: int| 0 <= j < k ==> {
                    let e = input[j];
                    if has_text(e) {
                        text_split(#[trigger] edges@[j], e, node_handle((n0 + text_count(input.take(j))) as int))
                    } else {
                        edges@[j] == e
                    }
                },
                forall|j: int| 0 <= j < k ==> self.edge_ok(#[trigger] edges@[j]),
            decreases input.len() - k,
        {
            let ghost e = input[k as int];
            proof {
                assert(o.edge_ok(e));
                let t = input.take(k as int + 1);
                assert(t.drop_last() =~= input.take(k as int));
                assert(t.last() == e);
                let rest = input.subrange(k as int, input.len() as int);
                assert(rest[0] == e);
                assert(rest.drop_first() =~= input.subrange(k as int + 1, input.len() as int));
                lemma_text_count_prefix(input, k as int + 1);
            }
            let from = edges[k].1[0];
            let to = edges[k].1[1];
            let from_u = edges[k].2[0];
            let to_u = edges[k].2[1];
            if edges[k].0.text.as_str().is_empty() {
                proof {
                    assert(self.nodes@ =~= o.nodes@ + text_connectors(o.nodes@, input.take(k as int + 1)));
                    assert forall|a: NodeHandle, b: NodeHandle| o.dag.node_valid(a) && o.dag.node_valid(b) implies
                        #[trigger] text_pairs(input.subrange(k as int + 1, input.len() as int), a, b) <= occ(self.dag.succs(a), b) by {
                        assert(text_pairs(input.subrange(k as int, input.len() as int), a, b) <= occ(self.dag.succs(a), b));
                    }
                    assert forall|a: NodeHandle, b: NodeHandle| o.dag.node_valid(a) && o.dag.node_valid(b) implies
                        #[trigger] occ(self.dag.succs(a), b) + text_pairs(input, a, b) == occ(o.dag.succs(a), b) + text_pairs(input.subrange(k as int + 1, input.len() as int), a, b) by {
                        assert(text_pairs(input.subrange(k as int, input.len() as int), a, b) == text_pairs(input.subrange(k as int + 1, input.len() as int), a, b));
                    }
                    assert(self.edge_ok(edges@[k as int])) by {
                        assert forall|q: int| 0 <= q < e.1@.len() implies self.dag.node_valid(#[trigger] e.1@[q]) by {
                            assert(o.dag.node_valid(e.1@[q]));
                        }
                    }
                }
                k = k + 1;
                continue;
            }
            let text = edges[k].0.text.clone();
            proof {
                assert(o.dag.unit_valid(e.2@[0]));
                assert(o.dag.subgraph_valid(o.dag.parent_of(e.2@[0])));
                if let UnitHandle::Node(nn) = e.2@[0] {
                    assert(self.dag.parent_of(UnitHandle::Node(nn)) == o.dag.parent_of(UnitHandle::Node(nn)));
                } else if let UnitHandle::Subgraph(tt) = e.2@[0] {
                    assert(self.dag.parent_of(UnitHandle::Subgraph(tt)) == o.dag.parent_of(UnitHandle::Subgraph(tt)));
                }
                assert(o.dag.node_valid(from) && o.dag.node_valid(to));
            }
            let subgraph_idx = self.dag.subgraph_from_unit_handle(from_u);
            let dir = self.element(from).orientation;
            let conn_elem = Element::create_connector(&text, &edges[k].0.look, dir);
            let ghost before = self.dag;
            let conn = self.add_node(conn_elem, subgraph_idx);
            let conn_u = UnitHandle::new_node(conn);
            let new_arrow = Arrow {
                start: edges[k].0.start,
                end: edges[k].0.end,
                text: String::new(),
                look: edges[k].0.look.duplicate(),
            };
            let new_entry = (new_arrow, vec![from, conn, to], vec![from_u, conn_u, to_u]);
            edges.set(k, new_entry);
            let ghost mid = self.dag;
            proof {
                assert(text_pairs(input.subrange(k as int, input.len() as int), from, to) >= 1);
                assert(occ(before.succs(from), to) >= 1);
                assert(mid.succs(from) == before.succs(from));
                mid.succs(from).to_multiset_ensures();
            }
            let res = self.dag.remove_edge(from, to);
            let ghost d1 = self.dag;
            self.dag.add_edge(from, conn, from_u, conn_u);
            let ghost d2 = self.dag;
            self.dag.add_edge(conn, to, conn_u, to_u);
            proof {
                assert(res);
                let c = node_handle((n0 + text_count(input.take(k as int))) as int);
                assert(conn == c);
                assert(before.node_count() == n0 + text_count(input.take(k as int)));
                assert(!before.node_valid(conn));
                assert(from != conn && to != conn);
                assert(self.dag.succs(conn) =~= seq![to]);
                assert(self.dag.preds(conn) =~= seq![from]);
                assert(self.dag.unit_succs(conn_u) =~= seq![to_u]);
                assert(self.dag.unit_preds(conn_u) =~= seq![from_u]);
                assert(connector_edges(&self.dag, e, c));
                let p = o.dag.parent_of(e.2@[0]);
                assert(subgraph_idx == p);
                lemma_added_node_parent(&mid, &before, subgraph_idx, conn, conn);
                assert(mid.rank_of(p).rows()[0].last() == UnitHandle::Node(conn));
                assert(mid.rank_of(p).rows()[0].contains(UnitHandle::Node(conn)));
                assert(self.dag.rank_of(p) == self.dag.rank_of(p));
                assert(d1.rank_of(p).rows() == mid.rank_of(p).rows());
                assert(d2.rank_of(p).rows() == d1.rank_of(p).rows());
                assert(self.dag.rank_of(p).rows() == d2.rank_of(p).rows());
                assert(d1.rank_of(p).level_map() == mid.rank_of(p).level_map());
                assert(d2.rank_of(p).level_map() == d1.rank_of(p).level_map());
                assert(self.dag.rank_of(p).level_map() == d2.rank_of(p).level_map());
                assert(mid.node_valid(conn));
                assert(self.dag.parent_of(UnitHandle::Node(conn)) == mid.parent_of(UnitHandle::Node(conn)));
                assert(connector_placed(&self.dag, &o.dag, e, c));
                assert forall|j: int| 0 <= j < k + 1 && has_text(#[trigger] input[j]) implies
                    connector_placed(&self.dag, &o.dag, input[j], node_handle((n0 + text_count(input.take(j))) as int)) by {
                    if j < k {
                        let cj = node_handle((n0 + text_count(input.take(j))) as int);
                        let pj = o.dag.parent_of(input[j].2@[0]);
                        assert(connector_placed(&before, &o.dag, input[j], cj));
                        lemma_text_count_prefix(input.take(k as int), j + 1);
                        assert(input.take(k as int).take(j + 1) =~= input.take(j + 1));
                        assert(input.take(j + 1).drop_last() =~= input.take(j));
                        assert(input.take(j + 1).last() == input[j]);
                        lemma_text_count_prefix(input, j);
                        assert(cj.index() < before.node_count());
                        assert(before.node_valid(cj));
                        assert(UnitHandle::Node(cj) != UnitHandle::Node(conn));
                        assert(o.dag.unit_valid(input[j].2@[0]));
                        assert(before.subgraph_valid(pj));
                        if pj == p {
                            let r0 = before.rank_of(p).rows()[0];
                            let q = choose|q: int| 0 <= q < r0.len() && r0[q] == UnitHandle::Node(cj);
                            assert(mid.rank_of(p).rows()[0][q] == UnitHandle::Node(cj));
                        } else {
                            assert(mid.rank_of(pj).rows() == before.rank_of(pj).rows());
                            assert(mid.rank_of(pj).level_map() == before.rank_of(pj).level_map());
                        }
                        assert(mid.rank_of(pj).rows()[0].contains(UnitHandle::Node(cj)));
                        assert(d1.rank_of(pj).rows() == mid.rank_of(pj).rows());
                        assert(d2.rank_of(pj).rows() == d1.rank_of(pj).rows());
                        assert(self.dag.rank_of(pj).rows() == d2.rank_of(pj).rows());
                        assert(d1.rank_of(pj).level_map() == mid.rank_of(pj).level_map());
                        assert(d2.rank_of(pj).level_map() == d1.rank_of(pj).level_map());
                        assert(self.dag.rank_of(pj).level_map() == d2.rank_of(pj).level_map());
                        assert(mid.parent_of(UnitHandle::Node(cj)) == before.parent_of(UnitHandle::Node(cj)));
                        assert(self.dag.parent_of(UnitHandle::Node(cj)) == mid.parent_of(UnitHandle::Node(cj)));
                    }
                }
                assert forall|j: int| 0 <= j < k + 1 && has_text(#[trigger] input[j]) implies
                    connector_edges(&self.dag, input[j], node_handle((n0 + text_count(input.take(j))) as int)) by {
                    if j < k {
                        let cj = node_handle((n0 + text_count(input.take(j))) as int);
                        assert(connector_edges(&before, input[j], cj));
                        lemma_text_count_prefix(input.take(k as int), j + 1);
                        assert(input.take(k as int).take(j + 1) =~= input.take(j + 1));
                        assert(input.take(j + 1).drop_last() =~= input.take(j));
                        assert(input.take(j + 1).last() == input[j]);
                        lemma_text_count_prefix(input, j);
                        assert(cj.index() < before.node_count());
                        assert(cj != from && cj != to && cj != conn);
                        assert(o.dag.unit_valid(e.2@[0]) && o.dag.unit_valid(e.2@[1]));
                        assert(UnitHandle::Node(cj) != from_u && UnitHandle::Node(cj) != to_u);
                        assert(before.node_valid(cj));
                        assert(mid.succs(cj) == before.succs(cj));
                        assert(mid.preds(cj) == before.preds(cj));
                        assert(mid.unit_succs(UnitHandle::Node(cj)) == before.unit_succs(UnitHandle::Node(cj)));
                        assert(mid.unit_preds(UnitHandle::Node(cj)) == before.unit_preds(UnitHandle::Node(cj)));
                    }
                }
                assert forall|u: UnitHandle, v: UnitHandle| o.dag.unit_valid(u) && o.dag.unit_valid(v) implies
                    #[trigger] occ(self.dag.unit_succs(u), v) == occ(o.dag.unit_succs(u), v) by {
                    assert(before.unit_valid(u));
                    assert(mid.unit_succs(u) == before.unit_succs(u));
                    assert(d1.unit_succs(u) == mid.unit_succs(u));
                    assert(u != conn_u);
                    assert(v != conn_u);
                    assert(self.dag.unit_succs(u) == d2.unit_succs(u));
                    if u == from_u {
                        lemma_occ_push_any(d1.unit_succs(u), conn_u, v);
                    }
                }
                assert forall|a: NodeHandle, b: NodeHandle| o.dag.node_valid(a) && o.dag.node_valid(b) implies
                    #[trigger] occ(self.dag.succs(a), b) + text_pairs(input, a, b) == occ(o.dag.succs(a), b) + text_pairs(input.subrange(k as int + 1, input.len() as int), a, b) by {
                    assert(mid.succs(a) == before.succs(a));
                    lemma_occ_remove_first(mid.succs(from), to, b);
                    assert(b != conn);
                    if a == from {
                        lemma_occ_push(remove_first(mid.succs(from), to), conn, b);
                    }
                }
                assert forall|a: NodeHandle, b: NodeHandle| o.dag.node_valid(a) && o.dag.node_valid(b) implies
                    #[trigger] text_pairs(input.subrange(k as int + 1, input.len() as int), a, b) <= occ(self.dag.succs(a), b) by {
                    assert(text_pairs(input.subrange(k as int, input.len() as int), a, b) <= occ(before.succs(a), b));
                    assert(mid.succs(a) == before.succs(a));
                    lemma_occ_remove_first(mid.succs(from), to, b);
                    if a == from {
                        lemma_occ_push(remove_first(mid.succs(from), to), conn, b);
                    }
                }
                assert(self.nodes@ =~= o.nodes@ + text_connectors(o.nodes@, input.take(k as int + 1)));
                assert(edges@[k as int].1@ =~= seq![e.1@[0], conn, e.1@[1]]);
                assert(self.edge_ok(edges@[k as int])) by {
                    assert forall|q: int| 0 <= q < edges@[k as int].1@.len() implies self.dag.node_valid(#[trigger] edges@[k as int].1@[q]) by {}
                }
                assert forall|j: int| 0 <= j < k implies self.edge_ok(#[trigger] edges@[j]) by {
                    assert(before.node_count() <= self.dag.node_count());
                    assert forall|q: int| 0 <= q < edges@[j].1@.len() implies self.dag.node_valid(#[trigger] edges@[j].1@[q]) by {
                        assert(mid.node_valid(edges@[j].1@[q]) || before.node_valid(edges@[j].1@[q]));
                    }
                }
            }
            k = k + 1;
        }
        std::mem::swap(&mut edges, &mut self.edges);
        proof {
            assert(input.take(input.len() as int) =~= input);
            assert(input.subrange(input.len() as int, input.len() as int) =~= Seq::<EdgeEntry>::empty());
        }
    }
}

pub proof fn lemma_occ_push_any<A>(s: Seq<A>, x: A, y: A)
    ensures
        occ(s.push(x), y) == occ(s, y) + if x == y { 1nat } else { 0nat },
{
    s.to_multiset_ensures();
    s.push(x).to_multiset_ensures();
}

pub proof fn lemma_occ_push(s: Seq<NodeHandle>, x: NodeHandle, y: NodeHandle)
    ensures
        occ(s.push(x), y) == occ(s, y) + if x == y { 1nat } else { 0nat },
{
    s.to_multiset_ensures();
    s.push(x).to_multiset_ensures();
}

pub proof fn lemma_text_count_prefix(edges: Seq<EdgeEntry>, k: int)
    requires
        0 <= k <= edges.len(),
    ensures
        text_count(edges.take(k)) <= text_count(edges),
    decreases edges.len(),
{
    if k < edges.len() {
        assert(edges.drop_last().take(k) =~= edges.take(k));
        lemma_text_count_prefix(edges.drop_last(), k);
    } else {
        assert(edges.take(k) =~= edges);
    }
}

/// `rows` after the connector `c` is moved to row `level`, just before
/// `marker` (as `update_node_rank_level` places a unit with a marker).
pub open spec fn connector_step(rows: Seq<Seq<UnitHandle>>, level: nat, marker: UnitHandle, c: UnitHandle) -> Seq<Seq<UnitHandle>> {
    crate::dag::moved_rows(rows, c, level, Some(marker))
}

/// The level map `m` places `u` at level `l`.
pub open spec fn level_is(m: Map<UnitHandle, usize>, u: UnitHandle, l: usize) -> bool {
    m.contains_key(u) && m[u] == l
}

/// `u` is a subgraph, or a node numbered below `base`.
pub open spec fn below(u: UnitHandle, base: nat) -> bool {
    match u {
        UnitHandle::Node(n) => n.index() < base,
        UnitHandle::Subgraph(_) => true,
    }
}

/// `rows` after the connectors of the self edges `ses` are placed: the
/// connector of the `k`-th is node `base + k`, placed in the row of the
/// level of its node (`levels`), just before the unit of the edge.
pub open spec fn place_self_connectors(
    rows: Seq<Seq<UnitHandle>>,
    ses: Seq<(Arrow, NodeHandle, UnitHandle)>,
    levels: Seq<usize>,
    base: nat,
) -> Seq<Seq<UnitHandle>>
    decreases ses.len(),
{
    if ses.len() == 0 {
        rows
    } else {
        let prev = place_self_connectors(rows, ses.drop_last(), levels, base);
        let se = ses.last();
        let c = UnitHandle::Node(node_handle(base + ses.len() - 1));
        connector_step(add_fresh(prev, c), levels[se.1.index() as int] as nat, se.2, c)
    }
}

/// `rows` after a new unit `c` is added at the end of its first row (as
/// `new_node` adds a node).
pub open spec fn add_fresh(rows: Seq<Seq<UnitHandle>>, c: UnitHandle) -> Seq<Seq<UnitHandle>> {
    let grown = pad_rows(rows, 1);
    grown.update(0, grown[0].push(c))
}

pub proof fn lemma_add_fresh_keeps(rows: Seq<Seq<UnitHandle>>, c: UnitHandle, l: int, x: UnitHandle)
    requires
        0 <= l < rows.len(),
        rows[l].contains(x),
    ensures
        add_fresh(rows, c).len() >= rows.len(),
        add_fresh(rows, c)[l].contains(x),
{
    let grown = pad_rows(rows, 1);
    assert(grown[l] == rows[l]);
    let j = choose|j: int| 0 <= j < rows[l].len() && rows[l][j] == x;
    if l == 0 {
        assert(grown[0].push(c)[j] == x);
    }
}

pub proof fn lemma_place_keeps(
    rows: Seq<Seq<UnitHandle>>,
    ses: Seq<(Arrow, NodeHandle, UnitHandle)>,
    levels: Seq<usize>,
    base: nat,
    l: int,
    x: UnitHandle,
)
    requires
        0 <= l < rows.len(),
        rows[l].contains(x),
        below(x, base),
        base + ses.len() <= usize::MAX,
        forall|j: int| 0 <= j < ses.len() ==> {
            let lv = levels[(#[trigger] ses[j]).1.index() as int];
            &&& lv < rows.len()
            &&& rows[lv as int].contains(ses[j].2)
            &&& below(ses[j].2, base)
        },
    ensures
        place_self_connectors(rows, ses, levels, base).len() >= rows.len(),
        place_self_connectors(rows, ses, levels, base)[l].contains(x),
    decreases ses.len(),
{
    if ses.len() > 0 {
        let d = ses.drop_last();
        assert forall|j: int| 0 <= j < d.len() implies {
            let lv = levels[(#[trigger] d[j]).1.index() as int];
            &&& lv < rows.len()
            &&& rows[lv as int].contains(d[j].2)
            &&& below(d[j].2, base)
        } by {
            assert(d[j] == ses[j]);
        }
        lemma_place_keeps(rows, d, levels, base, l, x);
        let prev = place_self_connectors(rows, d, levels, base);
        let se = ses.last();
        let lv = levels[se.1.index() as int];
        assert(ses[ses.len() - 1] == se);
        lemma_place_keeps(rows, d, levels, base, lv as int, se.2);
        let c = UnitHandle::Node(node_handle(base + ses.len() - 1));
        assert(below(se.2, base));
        assert(c != se.2 && c != x);
        lemma_add_fresh_keeps(prev, c, l, x);
        lemma_add_fresh_keeps(prev, c, lv as int, se.2);
        lemma_connector_step_keeps(add_fresh(prev, c), lv as nat, se.2, c, l, x);
    }
}

/// The arrows that the self edges `ses` become: each runs from its node
/// through its connector (node `base + k`) back to its node, without
/// label.
pub open spec fn self_edge_arrows_ok(out: Seq<EdgeEntry>, ses: Seq<(Arrow, NodeHandle, UnitHandle)>, base: nat) -> bool {
    &&& out.len() == ses.len()
    &&& forall|k: int| 0 <= k < ses.len() ==> {
        let se = ses[k];
        let c = node_handle(base + k);
        &&& (#[trigger] out[k]).0.start == se.0.start
        &&& out[k].0.end == se.0.end
        &&& out[k].0.look == se.0.look
        &&& out[k].0.text@.len() == 0
        &&& out[k].1@ == seq![se.1, c, se.1]
        &&& out[k].2@ == seq![se.2, UnitHandle::Node(c), se.2]
    }
}

/// The connector shapes for the self edges `ses`, labelled with their
/// text, in the direction of their node's shape in `elems`.
pub open spec fn self_edge_connectors(elems: Seq<Element>, ses: Seq<(Arrow, NodeHandle, UnitHandle)>) -> Seq<Element> {
    ses.map_values(|se: (Arrow, NodeHandle, UnitHandle)| Element {
        shape: ShapeKind::Connector(Some(se.0.text)),
        orientation: elems[se.1.index() as int].orientation,
        look: se.0.look,
    })
}

pub proof fn lemma_connector_step_keeps(rows: Seq<Seq<UnitHandle>>, level: nat, marker: UnitHandle, c: UnitHandle, l: int, x: UnitHandle)
    requires
        0 <= l < rows.len(),
        rows[l].contains(x),
        level < rows.len(),
        rows[level as int].contains(marker),
        x != c,
        marker != c,
    ensures
        connector_step(rows, level, marker, c).len() >= rows.len(),
        connector_step(rows, level, marker, c)[l].contains(x),
{
    let cleared = pad_rows(rows, level + 1).map_values(|r: Seq<UnitHandle>| without(r, c));
    assert(pad_rows(rows, level + 1) == rows);
    crate::seqs::lemma_without_contains(rows[l], c, x);
    crate::seqs::lemma_without_contains(rows[level as int], c, marker);
    assert(cleared[l] == without(rows[l], c));
    assert(cleared[level as int] == without(rows[level as int], c));
    let row = cleared[level as int];
    if l == level {
        lemma_first_index_in(row, marker);
        let ins = first_index(row, marker);
        let r1 = row.insert(ins, c);
        let j = choose|j: int| 0 <= j < row.len() && row[j] == x;
        if j < ins {
            assert(r1[j] == x);
        } else {
            assert(r1[j + 1] == x);
        }
    }
}

impl VisualGraph {
    /// The self edges can be expanded into subgraph `s`: the level of each
    /// one's node is a row of `s` that holds the self edge's unit.
    pub open(crate) spec fn self_edges_ready(&self, s: SubgraphHandle) -> bool {
        forall|k: int| 0 <= k < self.self_edges@.len() ==> {
            let se = #[trigger] self.self_edges@[k];
            let l = self.dag.node_levels()[se.1.index() as int];
            &&& l < usize::MAX
            &&& l < self.dag.rank_of(s).rows().len()
            &&& self.dag.rank_of(s).rows()[l as int].contains(se.2)
        }
    }

    /// Turns every self edge into an arrow from its node through a new
    /// connector back to the node; the connector carries the label, joins
    /// subgraph `subgraph_idx`, and is placed in the row of the node's level
    /// just before the edge's unit. The self edges are then cleared.
    #[verifier::rlimit(50)]
    pub fn expand_self_edges(&mut self, subgraph_idx: SubgraphHandle)
        requires
            old(self).graph_wf(),
            old(self).graph_dag().subgraph_valid(subgraph_idx),
            old(self).self_edges_ready(subgraph_idx),
            old(self).graph_dag().node_count() + old(self).self_edge_list().len() <= usize::MAX,
        ensures
            final(self).graph_wf(),
            final(self).self_edge_list().len() == 0,
            final(self).graph_dag().levels_kept(&old(self).graph_dag()),
            final(self).graph_dag().nesting_kept(&old(self).graph_dag()),
            final(self).graph_dag().node_parents_kept(&old(self).graph_dag()),
            forall|k: int| 0 <= k < old(self).self_edge_list().len() ==>
                level_is(final(self).graph_dag().rank_of(subgraph_idx).level_map(), UnitHandle::Node(node_handle(old(self).graph_dag().node_count() + k)),
                    old(self).graph_dag().node_levels()[(#[trigger] old(self).self_edge_list()[k]).1.index() as int]),
            final(self).graph_dag().validating() == old(self).graph_dag().validating(),
            final(self).graph_dag().subgraph_count() == old(self).graph_dag().subgraph_count(),
            final(self).graph_dag().node_count() == old(self).graph_dag().node_count() + old(self).self_edge_list().len(),
            final(self).elements() == old(self).elements() + self_edge_connectors(old(self).elements(), old(self).self_edge_list()),
            final(self).edge_list().len() == old(self).edge_list().len() + old(self).self_edge_list().len(),
            final(self).edge_list().subrange(0, old(self).edge_list().len() as int) == old(self).edge_list(),
            self_edge_arrows_ok(final(self).edge_list().subrange(old(self).edge_list().len() as int, final(self).edge_list().len() as int),
                old(self).self_edge_list(), old(self).graph_dag().node_count()),
            final(self).graph_dag().rank_of(subgraph_idx).rows() == place_self_connectors(
                old(self).graph_dag().rank_of(subgraph_idx).rows(), old(self).self_edge_list(),
                old(self).graph_dag().node_levels(), old(self).graph_dag().node_count()),
            final(self).subgraph_elements() == old(self).subgraph_elements(),
            final(self).layout_orientation() == old(self).layout_orientation(),
    {
        let ghost o = *old(self);
        let ghost n0 = o.dag.node_count();
        let ghost e0 = o.edges@.len();
        let mut ses: Vec<(Arrow, NodeHandle, UnitHandle)> = Vec::new();
        std::mem::swap(&mut ses, &mut self.self_edges);
        let ghost input = ses@;
        let mut k: usize = 0;
        proof {
            self.dag.lemma_nesting_refl();
            assert(self.nodes@ =~= o.nodes@ + self_edge_connectors(o.nodes@, input.take(0)));
            assert(self.edges@.subrange(0, e0 as int) =~= o.edges@);
        }
        while k < ses.len()
            invariant
                input == ses@,
                input == o.self_edges@,
                o.graph_wf(),
                o.dag.subgraph_valid(subgraph_idx),
                o.self_edges_ready(subgraph_idx),
                n0 == o.dag.node_count(),
                e0 == o.edges@.len(),
                n0 + input.len() <= usize::MAX,
                k <= input.len(),
                self.graph_wf(),
                self.self_edges@.len() == 0,
                self.dag.levels_kept(&o.dag),
                self.dag.nesting_kept(&o.dag),
                self.dag.node_parents_kept(&o.dag),
                forall|j: int| 0 <= j < k ==>
                    level_is(self.dag.rank_of(subgraph_idx).level_map(), UnitHandle::Node(node_handle(n0 + j)),
                        o.dag.node_levels()[(#[trigger] input[j]).1.index() as int]),
                self.dag.validating() == o.dag.validating(),
                self.dag.node_count() == n0 + k,
                self.dag.subgraph_count() == o.dag.subgraph_count(),
                self.dag.node_levels().subrange(0, n0 as int) == o.dag.node_levels(),
                self.nodes@ == o.nodes@ + self_edge_connectors(o.nodes@, input.take(k as int)),
                self.subgraphs@ == o.subgraphs@,
                self.orientation == o.orientation,
                self.edges@.len() == e0 + k,
                self.edges@.subrange(0, e0 as int) == o.edges@,
                forall|j: int| 0 <= j < k ==> {
                    let se = input[j];
                    let c = node_handle(n0 + j);
                    &&& (#[trigger] self.edges@[e0 + j]).0.start == se.0.start
                    &&& self.edges@[e0 + j].0.end == se.0.end
                    &&& self.edges@[e0 + j].0.look == se.0.look
                    &&& self.edges@[e0 + j].0.text@.len() == 0
                    &&& self.edges@[e0 + j].1@ == seq![se.1, c, se.1]
                    &&& self.edges@[e0 + j].2@ == seq![se.2, UnitHandle::Node(c), se.2]
                },
                self.dag.rank_of(subgraph_idx).rows() == place_self_connectors(
                    o.dag.rank_of(subgraph_idx).rows(), input.take(k as int), o.dag.node_levels(), n0),
            decreases input.len() - k,
        {
            let ghost se = input[k as int];
            proof {
                assert(o.dag.node_valid(se.1) && o.dag.unit_valid(se.2));
            }
            let node = ses[k].1;
            let node_u = ses[k].2;
            let level = self.dag.level(node);
            let text = ses[k].0.text.clone();
            let dir = self.element(node).orientation;
            let conn_elem = Element::create_connector(&text, &ses[k].0.look, dir);
            let ghost before = *self;
            let conn = self.add_node(conn_elem, subgraph_idx);
            let conn_u = UnitHandle::new_node(conn);
            proof {
                let rows0 = o.dag.rank_of(subgraph_idx).rows();
                let l = o.dag.node_levels()[se.1.index() as int];
                assert(level == l) by {
                    assert(before.dag.node_levels().subrange(0, n0 as int)[se.1.index() as int] == before.dag.node_levels()[se.1.index() as int]);
                }
                assert(rows0[l as int].contains(se.2));
                assert forall|j: int| 0 <= j < input.take(k as int).len() implies {
                    let lv = o.dag.node_levels()[(#[trigger] input.take(k as int)[j]).1.index() as int];
                    &&& lv < rows0.len()
                    &&& rows0[lv as int].contains(input.take(k as int)[j].2)
                    &&& below(input.take(k as int)[j].2, n0 as nat)
                } by {
                    assert(input.take(k as int)[j] == input[j]);
                    assert(o.self_edges@[j] == input[j]);
                    assert(o.dag.unit_valid(input[j].2));
                }
                assert(o.dag.unit_valid(se.2));
                assert(below(se.2, n0 as nat));
                assert(se.2 != conn_u);
                lemma_place_keeps(rows0, input.take(k as int), o.dag.node_levels(), n0, l as int, se.2);
                lemma_add_fresh_keeps(before.dag.rank_of(subgraph_idx).rows(), conn_u, l as int, se.2);
                assert(self.dag.rank_of(subgraph_idx).rows() == add_fresh(before.dag.rank_of(subgraph_idx).rows(), conn_u));
                assert(pad_rows(self.dag.rank_of(subgraph_idx).rows(), level as nat + 1) == self.dag.rank_of(subgraph_idx).rows());
                assert(self.dag.parent_of(conn_u) == subgraph_idx);
            }
            let ghost mid = self.dag;
            self.dag.update_node_rank_level(conn_u, level, Some(node_u), subgraph_idx);
            proof {
                mid.lemma_node_added_levels(&before.dag, subgraph_idx, conn);
                self.dag.lemma_placed_levels(&mid, subgraph_idx, conn_u, level);
                assert(!before.dag.has_level(conn_u));
                self.dag.lemma_levels_kept_but_trans(&mid, &before.dag, conn_u);
                self.dag.lemma_levels_kept_trans(&before.dag, &o.dag);
                self.dag.lemma_nesting_same_except_rank(&mid, subgraph_idx);
                self.dag.lemma_nesting_trans(&mid, &before.dag);
                self.dag.lemma_nesting_trans(&before.dag, &o.dag);
                assert forall|x: NodeHandle| #[trigger] self.dag.parent_of(UnitHandle::Node(x)) == o.dag.parent_of(UnitHandle::Node(x)) || !o.dag.node_valid(x) by {
                    if o.dag.node_valid(x) {
                        assert(before.dag.parent_of(UnitHandle::Node(x)) == o.dag.parent_of(UnitHandle::Node(x)));
                        assert(mid.parent_of(UnitHandle::Node(x)) == before.dag.parent_of(UnitHandle::Node(x)));
                    }
                }
                assert forall|j: int| 0 <= j < k + 1 implies
                    level_is(self.dag.rank_of(subgraph_idx).level_map(), UnitHandle::Node(node_handle(n0 + j)),
                        o.dag.node_levels()[(#[trigger] input[j]).1.index() as int]) by {
                    if j < k {
                        let c = UnitHandle::Node(node_handle(n0 + j));
                        let lj = o.dag.node_levels()[input[j].1.index() as int];
                        assert(level_is(before.dag.rank_of(subgraph_idx).level_map(), c, lj));
                        assert(before.dag.rank_of(subgraph_idx).level_map().contains_key(c));
                        assert(before.dag.rank_of(subgraph_idx).level_map()[c] == lj);
                        assert(c != conn_u);
                        assert(mid.rank_of(subgraph_idx).level_map()[c] == lj);
                    } else {
                        assert(conn == node_handle(n0 + k));
                    }
                }
            }
            let arrow = Arrow {
                start: ses[k].0.start,
                end: ses[k].0.end,
                text: String::new(),
                look: ses[k].0.look.duplicate(),
            };
            let ghost edges_before = self.edges@;
            self.edges.push((arrow, vec![node, conn, node], vec![node_u, conn_u, node_u]));
            proof {
                self.dag.lemma_same_except_rank_wf(&mid, subgraph_idx);
                let t = input.take(k as int + 1);
                assert(t.drop_last() =~= input.take(k as int));
                assert(t.last() == se);
                assert(self.nodes@ =~= o.nodes@ + self_edge_connectors(o.nodes@, input.take(k as int + 1)));
                assert(self.dag.node_levels().subrange(0, n0 as int) =~= o.dag.node_levels()) by {
                    assert(mid.node_levels() == before.dag.node_levels().push(0));
                    assert(before.dag.node_levels().subrange(0, n0 as int) == o.dag.node_levels());
                }
                assert(self.edges@.subrange(0, e0 as int) =~= o.edges@) by {
                    assert(edges_before.subrange(0, e0 as int) == o.edges@);
                }
                let ne = self.edges@[e0 + k];
                assert(ne.1@ =~= seq![se.1, conn, se.1]);
                assert(ne.2@ =~= seq![se.2, UnitHandle::Node(conn), se.2]);
                assert forall|j: int| 0 <= j < k + 1 implies {
                    let se2 = input[j];
                    let c = node_handle(n0 + j);
                    &&& (#[trigger] self.edges@[e0 + j]).0.start == se2.0.start
                    &&& self.edges@[e0 + j].0.end == se2.0.end
                    &&& self.edges@[e0 + j].0.look == se2.0.look
                    &&& self.edges@[e0 + j].0.text@.len() == 0
                    &&& self.edges@[e0 + j].1@ == seq![se2.1, c, se2.1]
                    &&& self.edges@[e0 + j].2@ == seq![se2.2, UnitHandle::Node(c), se2.2]
                } by {
                    if j < k {
                        assert(self.edges@[e0 + j] == edges_before[e0 + j]);
                    }
                }
                assert forall|q: int| 0 <= q < self.edges@.len() implies self.edge_ok(#[trigger] self.edges@[q]) by {
                    if q < edges_before.len() {
                        assert(before.edge_ok(edges_before[q]));
                        assert forall|r: int| 0 <= r < self.edges@[q].1@.len() implies self.dag.node_valid(#[trigger] self.edges@[q].1@[r]) by {
                            assert(before.dag.node_valid(edges_before[q].1@[r]));
                        }
                    } else {
                        assert forall|r: int| 0 <= r < self.edges@[q].1@.len() implies self.dag.node_valid(#[trigger] self.edges@[q].1@[r]) by {}
                    }
                }
            }
            k = k + 1;
        }
        proof {
            assert(input.take(input.len() as int) =~= input);
            let out = self.edges@.subrange(e0 as int, self.edges@.len() as int);
            assert forall|j: int| 0 <= j < input.len() implies {
                let se2 = input[j];
                let c = node_handle(n0 + j);
                &&& (#[trigger] out[j]).0.start == se2.0.start
                &&& out[j].0.end == se2.0.end
                &&& out[j].0.look == se2.0.look
                &&& out[j].0.text@.len() == 0
                &&& out[j].1@ == seq![se2.1, c, se2.1]
                &&& out[j].2@ == seq![se2.2, UnitHandle::Node(c), se2.2]
            } by {
                assert(out[j] == self.edges@[e0 + j]);
            }
        }
    }
}

/// `rows` after a placeholder `c` is added to the subgraph (at the end of
/// its first row, as every new node is) and moved to the end of row `i`.
pub open spec fn placeholder_step(rows: Seq<Seq<UnitHandle>>, i: nat, c: UnitHandle) -> Seq<Seq<UnitHandle>> {
    crate::dag::moved_rows(add_fresh(rows, c), c, i, None)
}

/// One placeholder step: every row loses `c`, and row `i` gets it at its
/// end.
pub proof fn lemma_placeholder_step(rows: Seq<Seq<UnitHandle>>, i: nat, c: UnitHandle, j: int)
    requires
        i < rows.len(),
        0 <= j < rows.len(),
    ensures
        placeholder_step(rows, i, c).len() == rows.len(),
        j != i ==> placeholder_step(rows, i, c)[j] == without(rows[j], c),
        placeholder_step(rows, i, c)[i as int] == without(rows[i as int], c).push(c),
{
    let af = add_fresh(rows, c);
    assert(pad_rows(rows, 1) == rows);
    assert(pad_rows(af, i + 1) == af);
    assert(rows[0].push(c).drop_last() =~= rows[0]);
    assert(without(rows[0].push(c), c) == without(rows[0], c));
    assert(af[j] == if j == 0 { rows[0].push(c) } else { rows[j] });
    assert(without(af[j], c) == without(rows[j], c));
    assert(without(af[i as int], c) == without(rows[i as int], c));
}

/// `rows` after `m` placeholders, nodes `base`, `base + 1`, ..., are placed
/// at row `i`.
pub open spec fn fill_row(rows: Seq<Seq<UnitHandle>>, i: nat, m: nat, base: nat) -> Seq<Seq<UnitHandle>>
    decreases m,
{
    if m == 0 {
        rows
    } else {
        placeholder_step(fill_row(rows, i, (m - 1) as nat, base), i, UnitHandle::Node(node_handle(base + m - 1)))
    }
}

/// The rows, and the number of placeholders added, after rows `0 .. i` of
/// `rows` were filled up to `width` with placeholders numbered from `base`.
pub open spec fn fill_rows(rows: Seq<Seq<UnitHandle>>, width: nat, i: nat, base: nat) -> (Seq<Seq<UnitHandle>>, nat)
    decreases i,
{
    if i == 0 {
        (rows, 0)
    } else {
        let (r, n) = fill_rows(rows, width, (i - 1) as nat, base);
        let m = (width - r[i - 1].len()) as nat;
        (fill_row(r, (i - 1) as nat, m, base + n), n + m)
    }
}

pub proof fn lemma_fill_row_other(rows: Seq<Seq<UnitHandle>>, i: nat, m: nat, base: nat, j: int)
    requires
        i < rows.len(),
        0 <= j < rows.len(),
        j != i,
    ensures
        fill_row(rows, i, m, base).len() == rows.len(),
        fill_row(rows, i, m, base)[j].len() <= rows[j].len(),
    decreases m,
{
    if m > 0 {
        lemma_fill_row_other(rows, i, (m - 1) as nat, base, j);
        let prev = fill_row(rows, i, (m - 1) as nat, base);
        let c = UnitHandle::Node(node_handle(base + m - 1));
        lemma_placeholder_step(prev, i, c, j);
        crate::seqs::lemma_without_contains(prev[j], c, c);
    }
}

pub proof fn lemma_fill_rows_other(rows: Seq<Seq<UnitHandle>>, width: nat, i: nat, base: nat, j: int)
    requires
        i <= rows.len(),
        i <= j < rows.len(),
    ensures
        fill_rows(rows, width, i, base).0.len() == rows.len(),
        fill_rows(rows, width, i, base).0[j].len() <= rows[j].len(),
    decreases i,
{
    if i > 0 {
        lemma_fill_rows_other(rows, width, (i - 1) as nat, base, j);
        let (r, n) = fill_rows(rows, width, (i - 1) as nat, base);
        let m = (width - r[i - 1].len()) as nat;
        lemma_fill_row_other(r, (i - 1) as nat, m, base + n, j);
    }
}

/// Every unit in `rows` is a subgraph or a node numbered below `b`.
pub open spec fn rows_below(rows: Seq<Seq<UnitHandle>>, b: nat) -> bool {
    forall|q: int, k: int| 0 <= q < rows.len() && 0 <= k < rows[q].len() ==> below(#[trigger] rows[q][k], b)
}

/// Filling row `i` with `m` fresh placeholders leaves the other rows as
/// they are and makes row `i` longer by `m`.
pub proof fn lemma_fill_row_exact(rows: Seq<Seq<UnitHandle>>, i: nat, m: nat, base: nat)
    requires
        i < rows.len(),
        rows_below(rows, base),
        base + m <= usize::MAX,
    ensures
        fill_row(rows, i, m, base).len() == rows.len(),
        forall|q: int| 0 <= q < rows.len() && q != i ==> #[trigger] fill_row(rows, i, m, base)[q] == rows[q],
        fill_row(rows, i, m, base)[i as int].len() == rows[i as int].len() + m,
        rows_below(fill_row(rows, i, m, base), base + m),
    decreases m,
{
    if m > 0 {
        lemma_fill_row_exact(rows, i, (m - 1) as nat, base);
        let prev = fill_row(rows, i, (m - 1) as nat, base);
        let c = UnitHandle::Node(node_handle(base + m - 1));
        assert forall|q: int| 0 <= q < prev.len() implies !(#[trigger] prev[q]).contains(c) by {
            if prev[q].contains(c) {
                let k = choose|k: int| 0 <= k < prev[q].len() && prev[q][k] == c;
                assert(below(prev[q][k], (base + m - 1) as nat));
            }
        }
        let next = fill_row(rows, i, m, base);
        assert forall|q: int| 0 <= q < prev.len() implies #[trigger] next[q] == if q == i { prev[q].push(c) } else { prev[q] } by {
            lemma_placeholder_step(prev, i, c, q);
            crate::seqs::lemma_without_absent(prev[q], c);
        }
        assert forall|q: int, k: int| 0 <= q < next.len() && 0 <= k < next[q].len() implies below(#[trigger] next[q][k], base + m) by {
            if q == i && k == prev[q].len() {
                assert(next[q][k] == c);
            } else {
                assert(next[q][k] == prev[q][k]);
                assert(below(prev[q][k], (base + m - 1) as nat));
            }
        }
    }
}

/// Filling the first `i` rows, on rows that hold no placeholder yet,
/// makes each of them `width` long and leaves the others as they are.
pub proof fn lemma_fill_rows_exact(rows: Seq<Seq<UnitHandle>>, width: nat, i: nat, base: nat)
    requires
        i <= rows.len(),
        rows_below(rows, base),
        forall|q: int| 0 <= q < rows.len() ==> #[trigger] rows[q].len() <= width,
        base + fill_rows(rows, width, i, base).1 <= usize::MAX,
    ensures
        fill_rows(rows, width, i, base).0.len() == rows.len(),
        forall|q: int| 0 <= q < i ==> #[trigger] fill_rows(rows, width, i, base).0[q].len() == width,
        forall|q: int| i <= q < rows.len() ==> #[trigger] fill_rows(rows, width, i, base).0[q] == rows[q],
        rows_below(fill_rows(rows, width, i, base).0, base + fill_rows(rows, width, i, base).1),
    decreases i,
{
    if i > 0 {
        lemma_fill_rows_exact(rows, width, (i - 1) as nat, base);
        let (r, n) = fill_rows(rows, width, (i - 1) as nat, base);
        assert(r[i - 1] == rows[i - 1]);
        let m = (width - r[i - 1].len()) as nat;
        lemma_fill_row_exact(r, (i - 1) as nat, m, base + n);
    }
}

impl VisualGraph {
    /// Fills every row of subgraph `subgraph_idx` with placeholder nodes up
    /// to the length of its longest row, so that the rank is rectangular:
    /// each placeholder is added to the subgraph and moved to the end of the
    /// row it fills.
    #[verifier::rlimit(50)]
    pub fn subgraph_into_rectangular(&mut self, subgraph_idx: SubgraphHandle)
        requires
            old(self).graph_wf(),
            old(self).graph_dag().subgraph_valid(subgraph_idx),
            ({
                let rows = old(self).graph_dag().rank_of(subgraph_idx).rows();
                old(self).graph_dag().node_count() + fill_rows(rows, crate::rank::max_row_len(rows), rows.len(), old(self).graph_dag().node_count()).1 <= usize::MAX
            }),
        ensures
            final(self).graph_wf(),
            ({
                let rows = old(self).graph_dag().rank_of(subgraph_idx).rows();
                let res = fill_rows(rows, crate::rank::max_row_len(rows), rows.len(), old(self).graph_dag().node_count());
                &&& final(self).graph_dag().rank_of(subgraph_idx).rows() == res.0
                &&& final(self).graph_dag().node_count() == old(self).graph_dag().node_count() + res.1
                &&& final(self).elements().len() == old(self).elements().len() + res.1
            }),
            ({
                let rows = old(self).graph_dag().rank_of(subgraph_idx).rows();
                let frows = final(self).graph_dag().rank_of(subgraph_idx).rows();
                (forall|q: int, k: int| 0 <= q < rows.len() && 0 <= k < rows[q].len() ==> old(self).graph_dag().unit_valid(#[trigger] rows[q][k])) ==> {
                    &&& frows.len() == rows.len()
                    &&& forall|q: int| 0 <= q < rows.len() ==> #[trigger] frows[q].len() == crate::rank::max_row_len(rows)
                }
            }),
            final(self).elements().subrange(0, old(self).elements().len() as int) == old(self).elements(),
            forall|k: int| old(self).elements().len() <= k < final(self).elements().len() ==> {
                &&& (#[trigger] final(self).elements()[k]).shape == ShapeKind::Empty
                &&& final(self).elements()[k].orientation == old(self).layout_orientation()
            },
            final(self).edge_list() == old(self).edge_list(),
            final(self).self_edge_list() == old(self).self_edge_list(),
            final(self).subgraph_elements() == old(self).subgraph_elements(),
            final(self).layout_orientation() == old(self).layout_orientation(),
    {
        let ghost o = *old(self);
        let ghost rows0 = o.dag.rank_of(subgraph_idx).rows();
        let ghost n0 = o.dag.node_count();
        let width = self.dag.subgraphs[subgraph_idx.idx].ranks.width();
        let height = self.dag.subgraphs[subgraph_idx.idx].ranks.height();
        proof {
            crate::rank::lemma_max_row_len(rows0);
        }
        let mut i: usize = 0;
        while i < height
            invariant
                o.graph_wf(),
                rows0 == o.dag.rank_of(subgraph_idx).rows(),
                n0 == o.dag.node_count(),
                width == crate::rank::max_row_len(rows0),
                height == rows0.len(),
                forall|q: int| 0 <= q < rows0.len() ==> #[trigger] rows0[q].len() <= width,
                n0 + fill_rows(rows0, width as nat, height as nat, n0).1 <= usize::MAX,
                i <= height,
                self.graph_wf(),
                self.dag.subgraph_valid(subgraph_idx),
                self.dag.rank_of(subgraph_idx).rows() == fill_rows(rows0, width as nat, i as nat, n0).0,
                self.dag.node_count() == n0 + fill_rows(rows0, width as nat, i as nat, n0).1,
                self.nodes@.len() == self.dag.node_count(),
                self.nodes@.subrange(0, o.nodes@.len() as int) == o.nodes@,
                forall|k: int| o.nodes@.len() <= k < self.nodes@.len() ==> {
                    &&& (#[trigger] self.nodes@[k]).shape == ShapeKind::Empty
                    &&& self.nodes@[k].orientation == o.orientation
                },
                self.edges@ == o.edges@,
                self.self_edges@ == o.self_edges@,
                self.subgraphs@ == o.subgraphs@,
                self.orientation == o.orientation,
            decreases height - i,
        {
            let ghost ri = fill_rows(rows0, width as nat, i as nat, n0);
            proof {
                lemma_fill_rows_other(rows0, width as nat, i as nat, n0, i as int);
                assert(ri.0[i as int].len() <= width);
                lemma_fill_rows_monotone(rows0, width as nat, i as nat, height as nat, n0);
            }
            let rank_width = self.dag.subgraphs[subgraph_idx.idx].ranks.row(i).len();
            let num_nodes = width - rank_width;
            let mut j: usize = 0;
            while j < num_nodes
                invariant
                    o.graph_wf(),
                    self.graph_wf(),
                    self.dag.subgraph_valid(subgraph_idx),
                    i < height,
                    height == rows0.len(),
                    ri == fill_rows(rows0, width as nat, i as nat, n0),
                    num_nodes == width - ri.0[i as int].len(),
                    n0 + ri.1 + num_nodes <= usize::MAX,
                    j <= num_nodes,
                    self.dag.rank_of(subgraph_idx).rows() == fill_row(ri.0, i as nat, j as nat, n0 + ri.1),
                    self.dag.node_count() == n0 + ri.1 + j,
                    self.nodes@.len() == self.dag.node_count(),
                    self.nodes@.subrange(0, o.nodes@.len() as int) == o.nodes@,
                    forall|k: int| o.nodes@.len() <= k < self.nodes@.len() ==> {
                        &&& (#[trigger] self.nodes@[k]).shape == ShapeKind::Empty
                        &&& self.nodes@[k].orientation == o.orientation
                    },
                    self.edges@ == o.edges@,
                    self.self_edges@ == o.self_edges@,
                    self.subgraphs@ == o.subgraphs@,
                    self.orientation == o.orientation,
                    o.nodes@.len() == n0,
                decreases num_nodes - j,
            {
                let elem = Element::placeholder(self.orientation);
                let ghost before = *self;
                let empty_node = self.add_node(elem, subgraph_idx);
                let empty_u = UnitHandle::new_node(empty_node);
                proof {
                    assert(self.dag.parent_of(empty_u) == subgraph_idx);
                }
                let ghost mid = self.dag;
                self.dag.update_node_rank_level(empty_u, i, None, subgraph_idx);
                proof {
                    self.dag.lemma_same_except_rank_wf(&mid, subgraph_idx);
                    assert(self.nodes@.subrange(0, n0 as int) =~= o.nodes@) by {
                        assert(before.nodes@.subrange(0, n0 as int) == o.nodes@);
                    }
                    assert forall|q: int| 0 <= q < self.edges@.len() implies self.edge_ok(#[trigger] self.edges@[q]) by {
                        assert(before.edge_ok(self.edges@[q]));
                        assert forall|r: int| 0 <= r < self.edges@[q].1@.len() implies self.dag.node_valid(#[trigger] self.edges@[q].1@[r]) by {
                            assert(before.dag.node_valid(self.edges@[q].1@[r]));
                        }
                    }
                    assert forall|q: int| 0 <= q < self.self_edges@.len() implies {
                        &&& self.dag.node_valid((#[trigger] self.self_edges@[q]).1)
                        &&& self.dag.unit_valid(self.self_edges@[q].2)
                    } by {
                        assert(before.dag.node_valid(self.self_edges@[q].1));
                        assert(before.dag.unit_valid(self.self_edges@[q].2));
                    }
                }
                j = j + 1;
            }
            i = i + 1;
        }
        proof {
            assert(self.nodes@.subrange(0, o.nodes@.len() as int) == o.nodes@);
            if forall|q: int, k: int| 0 <= q < rows0.len() && 0 <= k < rows0[q].len() ==> o.dag.unit_valid(#[trigger] rows0[q][k]) {
                assert forall|q: int, k: int| 0 <= q < rows0.len() && 0 <= k < rows0[q].len() implies below(#[trigger] rows0[q][k], n0 as nat) by {
                    assert(o.dag.unit_valid(rows0[q][k]));
                }
                lemma_fill_rows_exact(rows0, width as nat, height as nat, n0 as nat);
            }
        }
    }
}

pub proof fn lemma_fill_rows_monotone(rows: Seq<Seq<UnitHandle>>, width: nat, i: nat, h: nat, base: nat)
    requires
        i < h,
        h <= rows.len(),
        forall|q: int| 0 <= q < rows.len() ==> #[trigger] rows[q].len() <= width,
    ensures
        fill_rows(rows, width, i, base).1 + (width - fill_rows(rows, width, i, base).0[i as int].len()) <= fill_rows(rows, width, h, base).1,
        fill_rows(rows, width, i, base).0[i as int].len() <= width,
    decreases h - i,
{
    lemma_fill_rows_other(rows, width, i, base, i as int);
    if i + 1 < h {
        lemma_fill_rows_monotone(rows, width, i + 1, h, base);
        lemma_fill_rows_count_grows(rows, width, i + 1, h, base);
    } else {
    }
}

pub proof fn lemma_fill_rows_count_grows(rows: Seq<Seq<UnitHandle>>, width: nat, i: nat, h: nat, base: nat)
    requires
        i <= h,
    ensures
        fill_rows(rows, width, i, base).1 <= fill_rows(rows, width, h, base).1,
    decreases h - i,
{
    if i < h {
        lemma_fill_rows_count_grows(rows, width, i + 1, h, base);
    }
}

impl DAG {
    /// `self` has the subgraphs of `old`, each with the same member
    /// subgraphs.
    pub open(crate) spec fn nesting_kept(&self, old: &DAG) -> bool {
        &&& self.subgraph_count() == old.subgraph_count()
        &&& forall|t: SubgraphHandle|
            #![trigger self.member_subgraphs(t)]
            #![trigger old.member_subgraphs(t)]
            old.subgraph_valid(t) ==> self.member_subgraphs(t) == old.member_subgraphs(t)
    }

    pub proof fn lemma_nesting_refl(&self)
        ensures
            self.nesting_kept(self),
    {
    }

    pub proof fn lemma_nesting_trans(&self, mid: &DAG, old: &DAG)
        requires
            self.nesting_kept(mid),
            mid.nesting_kept(old),
        ensures
            self.nesting_kept(old),
    {
        assert forall|t: SubgraphHandle| old.subgraph_valid(t) implies #[trigger] self.member_subgraphs(t) == old.member_subgraphs(t) by {
            assert(mid.subgraph_valid(t));
            assert(self.member_subgraphs(t) == mid.member_subgraphs(t));
        }
    }

    /// A dag that differs from `old` in the rank of one subgraph keeps the
    /// nesting.
    pub proof fn lemma_nesting_same_except_rank(&self, old: &DAG, s: SubgraphHandle)
        requires
            self.same_except_rank(old, s),
        ensures
            self.nesting_kept(old),
    {
        assert forall|t: SubgraphHandle| old.subgraph_valid(t) implies #[trigger] self.member_subgraphs(t) == old.member_subgraphs(t) by {
            assert(self.subgraph_valid(t));
            assert(self.subgraphs@[t.index() as int].subgraphs@ == old.subgraphs@[t.index() as int].subgraphs@);
        }
    }

    /// A dag with the same layout as `old` keeps the nesting.
    pub proof fn lemma_nesting_same_layout(&self, old: &DAG)
        requires
            self.same_layout(old),
        ensures
            self.nesting_kept(old),
    {
        assert forall|t: SubgraphHandle| old.subgraph_valid(t) implies #[trigger] self.member_subgraphs(t) == old.member_subgraphs(t) by {
            assert(self.subgraph_valid(t));
        }
    }

    /// Every unit that has a level in `old` has the same level in `self`.
    pub open(crate) spec fn levels_kept(&self, old: &DAG) -> bool {
        forall|u: UnitHandle| #[trigger] old.has_level(u) ==> self.has_level(u) && self.level_of(u) == old.level_of(u)
    }

    /// Every unit but `c` that has a level in `old` has the same level in
    /// `self`.
    pub open(crate) spec fn levels_kept_but(&self, old: &DAG, c: UnitHandle) -> bool {
        forall|u: UnitHandle| #[trigger] old.has_level(u) && u != c ==> self.has_level(u) && self.level_of(u) == old.level_of(u)
    }

    pub proof fn lemma_levels_kept_but_trans(&self, b: &DAG, a: &DAG, c: UnitHandle)
        requires
            b.levels_kept(a),
            self.levels_kept_but(b, c),
            !a.has_level(c),
        ensures
            self.levels_kept(a),
    {
        assert forall|u: UnitHandle| #[trigger] a.has_level(u) implies self.has_level(u) && self.level_of(u) == a.level_of(u) by {
            assert(b.has_level(u));
            assert(u != c);
        }
    }

    /// Each unit that the sources of `s` reach in `old` has, in `self`, the
    /// level that `compute_levels` gives it along `order`, or, where the
    /// levels were `raised`, one no lower.
    pub open(crate) spec fn levels_along(&self, old: &DAG, s: SubgraphHandle, raised: bool, order: Seq<UnitHandle>) -> bool {
        &&& old.is_reach_order(s, order)
        &&& order == crate::toposort::walk_result(old, Seq::empty(), false, crate::toposort::walk_start(old, s))
        &&& old.units_acyclic(s) ==> old.is_topological(order)
        &&& forall|v: UnitHandle| #[trigger] old.from_source(s, v) ==> {
            &&& self.has_level(v)
            &&& if raised {
                self.level_of(v) >= computed_levels(old, order)[v].0
            } else {
                self.level_of(v) == computed_levels(old, order)[v].0
            }
        }
    }

    /// The levels of the units that the sources of `s` reach in `old` are
    /// those that `recompute_node_ranks` gives them (see `levels_along`),
    /// along the order of `topological_sort_subgraph` on `old`.
    pub open(crate) spec fn levels_recomputed(&self, old: &DAG, s: SubgraphHandle, raised: bool) -> bool {
        exists|order: Seq<UnitHandle>| #[trigger] self.levels_along(old, s, raised, order)
    }

    pub proof fn lemma_levels_recomputed_kept(&self, mid: &DAG, old: &DAG, s: SubgraphHandle, raised: bool)
        requires
            mid.levels_recomputed(old, s, raised),
            self.levels_kept(mid),
        ensures
            self.levels_recomputed(old, s, raised),
    {
        let order = choose|order: Seq<UnitHandle>| #[trigger] mid.levels_along(old, s, raised, order);
        assert forall|v: UnitHandle| #[trigger] old.from_source(s, v) implies {
            &&& self.has_level(v)
            &&& if raised {
                self.level_of(v) >= computed_levels(old, order)[v].0
            } else {
                self.level_of(v) == computed_levels(old, order)[v].0
            }
        } by {
            assert(mid.has_level(v));
        }
        assert(self.levels_along(old, s, raised, order));
    }

    pub proof fn lemma_levels_kept_refl(&self)
        ensures
            self.levels_kept(self),
    {
    }

    pub proof fn lemma_levels_kept_trans(&self, b: &DAG, c: &DAG)
        requires
            self.levels_kept(b),
            b.levels_kept(c),
        ensures
            self.levels_kept(c),
    {
        assert forall|u: UnitHandle| #[trigger] c.has_level(u) implies self.has_level(u) && self.level_of(u) == c.level_of(u) by {
            assert(b.has_level(u));
        }
    }

    /// Every node of `old` has the same parent subgraph in `self`.
    pub open(crate) spec fn node_parents_kept(&self, old: &DAG) -> bool {
        forall|n: NodeHandle| #[trigger] self.parent_of(UnitHandle::Node(n)) == old.parent_of(UnitHandle::Node(n)) || !old.node_valid(n)
    }

    /// Adding a node keeps the levels.
    pub proof fn lemma_node_added_levels(&self, old: &DAG, s: SubgraphHandle, r: NodeHandle)
        requires
            old.wf(),
            old.subgraph_valid(s),
            old.node_count() < usize::MAX,
            self.node_added(old, s, r),
        ensures
            self.levels_kept(old),
    {
        assert forall|u: UnitHandle| #[trigger] old.has_level(u) implies self.has_level(u) && self.level_of(u) == old.level_of(u) by {
            let p = old.parent_of(u);
            match u {
                UnitHandle::Node(n) => { assert(self.parent_of(UnitHandle::Node(n)) == old.parent_of(UnitHandle::Node(n))); },
                UnitHandle::Subgraph(t) => { assert(self.parent_of(UnitHandle::Subgraph(t)) == old.parent_of(UnitHandle::Subgraph(t))); },
            }
            assert(self.parent_of(u) == p);
            if p != s {
                assert(self.rank_of(p).level_map() == old.rank_of(p).level_map());
            } else {
                assert(u != UnitHandle::Node(r));
            }
        }
    }

    /// Changing the edges alone keeps the levels.
    pub proof fn lemma_same_layout_levels(&self, old: &DAG)
        requires
            old.wf(),
            self.same_layout(old),
        ensures
            self.levels_kept(old),
    {
        assert forall|u: UnitHandle| #[trigger] old.has_level(u) implies self.has_level(u) && self.level_of(u) == old.level_of(u) by {
            assert(self.parent_of(u) == old.parent_of(u) || !self.unit_valid(u));
            assert(self.rank_of(old.parent_of(u)).level_map() == old.rank_of(old.parent_of(u)).level_map());
        }
    }

    /// Placing a new unit `c` in the ranks of `s` keeps the levels of the
    /// units that had one.
    pub proof fn lemma_placed_levels(&self, old: &DAG, s: SubgraphHandle, c: UnitHandle, l: usize)
        requires
            old.wf(),
            self.same_except_rank(old, s),
            self.rank_of(s).level_map() == old.rank_of(s).level_map().insert(c, l),
            old.unit_valid(c),
            old.subgraph_valid(s),
            old.parent_of(c) == s,
        ensures
            self.levels_kept_but(old, c),
            self.has_level(c),
            self.level_of(c) == l,
    {
        self.lemma_same_except_rank_wf(old, s);
        assert forall|u: UnitHandle| #[trigger] old.has_level(u) && u != c implies self.has_level(u) && self.level_of(u) == old.level_of(u) by {
            let p = old.parent_of(u);
            assert(self.parent_of(u) == p);
            if p != s {
                assert(self.subgraphs@[p.index() as int].ranks == self.rank_of(p));
            } else {
                assert(u != c);
            }
        }
    }
}

/// The units `us` go up one level at each step, along the first `n` of
/// them.
pub open spec fn steps_by_one(dag: &DAG, us: Seq<UnitHandle>, n: int) -> bool {
    &&& n <= us.len()
    &&& forall|i: int| 0 <= i < n ==> dag.has_level(#[trigger] us[i])
    &&& forall|i: int| 1 <= i < n ==> dag.level_of(#[trigger] us[i]) == dag.level_of(us[i - 1]) + 1
}

/// Step `j` of the units `us` does not go up one level or more: its unit
/// has no level, or its level is not above that of the unit before it.
pub open spec fn step_fails(dag: &DAG, us: Seq<UnitHandle>, j: int) -> bool {
    ||| !dag.has_level(us[j])
    ||| dag.level_of(us[j - 1]) >= dag.level_of(us[j])
}

/// The chain of an arrow, its nodes `ns` and units `us`, cannot be split
/// in `dag`: there are fewer units than nodes, the first unit has no
/// level, a later step of the chain does not go up, or the dag has no room
/// for another node.
pub open spec fn chain_fails(dag: &DAG, ns: Seq<NodeHandle>, us: Seq<UnitHandle>) -> bool {
    ||| us.len() < ns.len()
    ||| !dag.has_level(us[0])
    ||| dag.node_count() == usize::MAX
    ||| exists|j: int| 1 <= j < ns.len() && j < us.len() && #[trigger] step_fails(dag, us, j)
}

/// The arrow `e` stands between nodes only, and its first unit is not a
/// node of `dag`, or it starts in subgraph `s` and its chain cannot be
/// split.
pub open spec fn chain_stuck(dag: &DAG, e: EdgeEntry, s: SubgraphHandle) -> bool {
    &&& forall|i: int| 0 <= i < e.2@.len() ==> (#[trigger] e.2@[i]) is Node
    &&& {
        ||| !dag.unit_valid(e.2@[0])
        ||| dag.parent_of(e.2@[0]) == s && chain_fails(dag, e.1@, e.2@)
    }
}

impl VisualGraph {
    /// What lowering the arrows of subgraph `s` without optimizations needs
    /// to succeed: no self edges, unit edges of `s` that close no cycle,
    /// every arrow between nodes starting at a node of the dag, and each one
    /// that starts in `s` a single unit edge, from a unit that a source of
    /// `s` reaches, to another unit; and room for a connector per level and
    /// arrow.
    pub open(crate) spec fn split_ready(&self, s: SubgraphHandle) -> bool {
        &&& self.self_edges@.len() == 0
        &&& self.dag.units_acyclic(s)
        &&& forall|k: int| 0 <= k < self.edges@.len() && (forall|i: int| 0 <= i < self.edges@[k].2@.len() ==> (#[trigger] self.edges@[k].2@[i]) is Node) ==> {
            let e = #[trigger] self.edges@[k];
            &&& self.dag.unit_valid(e.2@[0])
            &&& self.dag.parent_of(e.2@[0]) == s ==> {
                &&& e.1@.len() == 2
                &&& e.2@.len() == 2
                &&& self.dag.unit_succs(e.2@[0]).contains(e.2@[1])
                &&& e.2@[1] != e.2@[0]
                &&& self.dag.from_source(s, e.2@[0])
            }
        }
        &&& self.dag.node_count() + self.edges@.len() * (self.dag.members(s).len() + 1) <= usize::MAX
    }
}

impl VisualGraph {
    /// Why lowering the arrows of subgraph `s` stops, read in the graph it
    /// leaves: an arrow between nodes is stuck, the dag fails its checks or
    /// its rows are not fit for reordering (where optimizations are on), a
    /// self edge's unit is not in the row of its node's level, or the self
    /// edges do not fit beside the nodes.
    pub open(crate) spec fn split_stopped(&self, s: SubgraphHandle, disable_optimizations: bool) -> bool {
        ||| exists|k: int| 0 <= k < self.edges@.len() && #[trigger] chain_stuck(&self.dag, self.edges@[k], s)
        ||| !disable_optimizations && !self.dag.passes_checks()
        ||| !disable_optimizations && !self.dag.can_optimize_crossings(s)
        ||| !self.self_edges_ready(s)
        ||| self.self_edges@.len() + self.dag.node_count() > usize::MAX
    }
}

impl VisualGraph {
    /// Splits the chain of one arrow, its nodes `lst` and units `lst_u`, so
    /// that consecutive units are one level apart: between two units whose
    /// levels differ by more, connector nodes of subgraph `subgraph_idx` are
    /// placed at each level in between, and the dag edge is rerouted through
    /// them. Returns the new chain, or `None` where a unit has no level, a
    /// level does not grow along the chain, the units run out before the
    /// nodes, or no node can be added (the graph is then partly changed).
    fn split_chain(&mut self, subgraph_idx: SubgraphHandle, lst: &Vec<NodeHandle>, lst_u: &Vec<UnitHandle>)
        -> (r: Option<(Vec<NodeHandle>, Vec<UnitHandle>)>)
        requires
            old(self).graph_wf(),
            old(self).graph_dag().subgraph_valid(subgraph_idx),
            lst@.len() >= 2,
            lst_u@.len() >= 1,
            forall|k: int| 0 <= k < lst@.len() ==> old(self).graph_dag().node_valid(#[trigger] lst@[k]),
        ensures
            final(self).graph_wf(),
            final(self).graph_dag().levels_kept(&old(self).graph_dag()),
            final(self).graph_dag().subgraph_count() == old(self).graph_dag().subgraph_count(),
            final(self).graph_dag().node_count() >= old(self).graph_dag().node_count(),
            final(self).graph_dag().validating() == old(self).graph_dag().validating(),
            final(self).edge_list() == old(self).edge_list(),
            final(self).self_edge_list() == old(self).self_edge_list(),
            final(self).subgraph_elements() == old(self).subgraph_elements(),
            final(self).layout_orientation() == old(self).layout_orientation(),
            final(self).elements().subrange(0, old(self).elements().len() as int) == old(self).elements(),
            final(self).graph_dag().node_parents_kept(&old(self).graph_dag()),
            r is Some ==> {
                let (a, b) = r->Some_0;
                &&& a@.len() >= lst@.len()
                &&& b@.len() - a@.len() == lst_u@.len() - lst@.len()
                &&& a@[0] == lst@[0]
                &&& a@.last() == lst@.last()
                &&& steps_by_one(&final(self).graph_dag(), b@, a@.len() as int)
                &&& forall|k: int| 0 <= k < a@.len() ==> final(self).graph_dag().node_valid(#[trigger] a@[k])
            },
            r is None ==> chain_fails(&final(self).graph_dag(), lst@, lst_u@),
            final(self).graph_dag().nesting_kept(&old(self).graph_dag()),
            r is Some ==> final(self).graph_dag().node_count() + lst@.len() == old(self).graph_dag().node_count() + r->Some_0.0@.len(),
            r is Some ==> forall|i: int| 0 <= i < r->Some_0.0@.len() ==>
                chain_node_ok(#[trigger] r->Some_0.0@[i], lst@, old(self).graph_dag().node_count(), &final(self).graph_dag(), subgraph_idx),
            one_step_fits(&old(self).graph_dag(), lst@, lst_u@) ==> r is Some
                && final(self).graph_dag().node_count() + 1 + old(self).graph_dag().level_of(lst_u@[0])
                    == old(self).graph_dag().node_count() + old(self).graph_dag().level_of(lst_u@[1]),
    {
        let ghost o = *old(self);
        let ghost good = one_step_fits(&o.dag, lst@, lst_u@);
        let n = lst.len();
        let mut a: Vec<NodeHandle> = Vec::new();
        let mut b: Vec<UnitHandle> = Vec::new();
        a.push(lst[0]);
        b.push(lst_u[0]);
        proof {
            self.dag.lemma_nesting_refl();
        }
        if !has_level_check(&self.dag, lst_u[0]) {
            return None;
        }
        let mut j: usize = 1;
        proof {
            if good {
                assert(self.dag == o.dag);
            }
        }
        while j < n
            invariant
                o == *old(self),
                o.graph_wf(),
                o.dag.subgraph_valid(subgraph_idx),
                n == lst@.len(),
                1 <= j <= n,
                j <= lst_u@.len(),
                lst_u@.len() >= 1,
                forall|k: int| 0 <= k < lst@.len() ==> o.dag.node_valid(#[trigger] lst@[k]),
                self.graph_wf(),
                self.dag.levels_kept(&o.dag),
                self.dag.subgraph_valid(subgraph_idx),
                self.dag.subgraph_count() == o.dag.subgraph_count(),
                self.dag.node_count() >= o.dag.node_count(),
                self.dag.validating() == o.dag.validating(),
                self.edges@ == o.edges@,
                self.self_edges@ == o.self_edges@,
                self.subgraphs@ == o.subgraphs@,
                self.orientation == o.orientation,
                self.nodes@.subrange(0, o.nodes@.len() as int) == o.nodes@,
                self.dag.node_parents_kept(&o.dag),
                self.dag.nesting_kept(&o.dag),
                good == one_step_fits(&o.dag, lst@, lst_u@),
                good ==> j == 1 ==> self.dag == o.dag,
                good ==> j == 2 ==> self.dag.node_count() + 1 + o.dag.level_of(lst_u@[0]) == o.dag.node_count() + o.dag.level_of(lst_u@[1]),
                a@.len() >= j,
                a@.len() == b@.len(),
                a@[0] == lst@[0],
                a@.last() == lst@[j - 1],
                b@.last() == lst_u@[j - 1],
                b@.len() + (lst_u@.len() - j) == lst_u@.len() + (a@.len() - j),
                steps_by_one(&self.dag, b@, a@.len() as int),
                forall|k: int| 0 <= k < a@.len() ==> self.dag.node_valid(#[trigger] a@[k]),
                forall|i: int| 0 <= i < a@.len() ==> chain_node_ok(#[trigger] a@[i], lst@, o.dag.node_count(), &self.dag, subgraph_idx),
                self.dag.node_count() + j == o.dag.node_count() + a@.len(),
            decreases n - j,
        {
            if j >= lst_u.len() {
                return None;
            }
            let curr = lst[j];
            let curr_u = lst_u[j];
            if !has_level_check(&self.dag, curr_u) {
                proof {
                    assert(step_fails(&self.dag, lst_u@, j as int));
                }
                return None;
            }
            let prev = a[a.len() - 1];
            let prev_u = b[b.len() - 1];
            let prev_level = self.dag.level_subgraph(prev_u);
            let curr_level = self.dag.level_subgraph(curr_u);
            if prev_level >= curr_level {
                proof {
                    assert(step_fails(&self.dag, lst_u@, j as int));
                }
                return None;
            }
            let ghost prefix_len = a@.len();
            let mut last = prev;
            let mut last_u = prev_u;
            let mut lv = prev_level;
            while lv + 1 < curr_level
                invariant
                    o == *old(self),
                    o.graph_wf(),
                    o.dag.subgraph_valid(subgraph_idx),
                    n == lst@.len(),
                    1 <= j < n,
                    j < lst_u@.len(),
                    curr == lst@[j as int],
                    curr_u == lst_u@[j as int],
                    forall|k: int| 0 <= k < lst@.len() ==> o.dag.node_valid(#[trigger] lst@[k]),
                    self.graph_wf(),
                    self.dag.levels_kept(&o.dag),
                    self.dag.subgraph_valid(subgraph_idx),
                    self.dag.subgraph_count() == o.dag.subgraph_count(),
                    self.dag.node_count() >= o.dag.node_count(),
                    self.dag.validating() == o.dag.validating(),
                    self.edges@ == o.edges@,
                    self.self_edges@ == o.self_edges@,
                    self.subgraphs@ == o.subgraphs@,
                    self.orientation == o.orientation,
                    self.nodes@.subrange(0, o.nodes@.len() as int) == o.nodes@,
                    self.dag.node_parents_kept(&o.dag),
                    self.dag.nesting_kept(&o.dag),
                    good == one_step_fits(&o.dag, lst@, lst_u@),
                    good ==> j == 1 && prev_level == o.dag.level_of(lst_u@[0]) && curr_level == o.dag.level_of(lst_u@[1]),
                    good ==> self.dag.node_count() + prev_level == o.dag.node_count() + lv,
                self.dag.nesting_kept(&o.dag),
                    self.dag.has_level(curr_u),
                    self.dag.level_of(curr_u) == curr_level,
                    self.dag.unit_valid(curr_u),
                    self.dag.node_valid(curr),
                    prev_level < curr_level,
                    prev_level <= lv < curr_level,
                    a@.len() == b@.len(),
                    a@.len() >= prefix_len,
                    a@.len() >= 1,
                    a@[0] == lst@[0],
                    a@.last() == last,
                    b@.last() == last_u,
                    self.dag.has_level(last_u),
                    self.dag.level_of(last_u) == lv,
                    self.dag.unit_valid(last_u),
                    self.dag.node_valid(last),
                    b@.len() + (lst_u@.len() - j) == lst_u@.len() + (a@.len() - j),
                    steps_by_one(&self.dag, b@, a@.len() as int),
                    forall|k: int| 0 <= k < a@.len() ==> self.dag.node_valid(#[trigger] a@[k]),
                    forall|i: int| 0 <= i < a@.len() ==> chain_node_ok(#[trigger] a@[i], lst@, o.dag.node_count(), &self.dag, subgraph_idx),
                    self.dag.node_count() + j == o.dag.node_count() + a@.len(),
                decreases curr_level - lv,
            {
                if self.dag.len() == usize::MAX {
                    return None;
                }
                let dir = self.element(last).orientation;
                let conn_elem = Element::empty_connector(dir);
                let ghost d0 = self.dag;
                let conn = self.add_node(conn_elem, subgraph_idx);
                let conn_u = UnitHandle::new_node(conn);
                proof {
                    self.dag.lemma_node_added_levels(&d0, subgraph_idx, conn);
                }
                let ghost d1 = self.dag;
                self.dag.remove_edge(last, curr);
                let ghost d2 = self.dag;
                self.dag.add_edge(last, conn, last_u, conn_u);
                let ghost d3 = self.dag;
                self.dag.add_edge(conn, curr, conn_u, curr_u);
                let ghost d4 = self.dag;
                proof {
                    d2.lemma_same_layout_levels(&d1);
                    d3.lemma_same_layout_levels(&d2);
                    d4.lemma_same_layout_levels(&d3);
                    d4.lemma_levels_kept_trans(&d3, &d2);
                    d4.lemma_levels_kept_trans(&d2, &d1);
                    assert(!d4.has_level(conn_u) || d4.has_level(conn_u));
                    assert(d4.parent_of(conn_u) == subgraph_idx);
                }
                self.dag.update_node_rank_level(conn_u, lv + 1, None, subgraph_idx);
                let ghost b0 = b@;
                let ghost a0 = a@;
                a.push(conn);
                b.push(conn_u);
                proof {
                    let d5 = self.dag;
                    lemma_added_node_parent(&d1, &d0, subgraph_idx, conn, conn);
                    assert forall|x: NodeHandle| #[trigger] d0.node_valid(x) || x == conn implies
                        d5.parent_of(UnitHandle::Node(x)) == d1.parent_of(UnitHandle::Node(x)) by {
                        assert(d1.node_valid(x));
                        assert(d2.parent_of(UnitHandle::Node(x)) == d1.parent_of(UnitHandle::Node(x)));
                        assert(d3.parent_of(UnitHandle::Node(x)) == d2.parent_of(UnitHandle::Node(x)));
                        assert(d4.parent_of(UnitHandle::Node(x)) == d3.parent_of(UnitHandle::Node(x)));
                    }
                    assert forall|i: int| 0 <= i < a@.len() implies chain_node_ok(#[trigger] a@[i], lst@, o.dag.node_count(), &d5, subgraph_idx) by {
                        if i < a0.len() {
                            assert(a@[i] == a0[i]);
                            assert(chain_node_ok(a0[i], lst@, o.dag.node_count(), &d0, subgraph_idx));
                            assert(d0.node_valid(a0[i]));
                            assert(d1.parent_of(UnitHandle::Node(a0[i])) == d0.parent_of(UnitHandle::Node(a0[i])));
                            assert(d5.parent_of(UnitHandle::Node(a0[i])) == d1.parent_of(UnitHandle::Node(a0[i])));
                        } else {
                            assert(a@[i] == conn);
                            assert(d5.parent_of(UnitHandle::Node(conn)) == d1.parent_of(UnitHandle::Node(conn)));
                        }
                    }
                    d2.lemma_nesting_same_layout(&d1);
                    d3.lemma_nesting_same_layout(&d2);
                    d4.lemma_nesting_same_layout(&d3);
                    d5.lemma_nesting_same_except_rank(&d4, subgraph_idx);
                    d2.lemma_nesting_trans(&d1, &d0);
                    d3.lemma_nesting_trans(&d2, &d0);
                    d4.lemma_nesting_trans(&d3, &d0);
                    d5.lemma_nesting_trans(&d4, &d0);
                    d5.lemma_nesting_trans(&d0, &o.dag);
                    d5.lemma_placed_levels(&d4, subgraph_idx, conn_u, (lv + 1) as usize);
                    d4.lemma_levels_kept_trans(&d1, &d0);
                    assert(!d0.has_level(conn_u));
                    d5.lemma_levels_kept_but_trans(&d4, &d0, conn_u);
                    d5.lemma_levels_kept_trans(&d0, &o.dag);
                    d5.lemma_same_except_rank_wf(&d4, subgraph_idx);
                    assert forall|n: NodeHandle| #[trigger] d5.parent_of(UnitHandle::Node(n)) == o.dag.parent_of(UnitHandle::Node(n)) || !o.dag.node_valid(n) by {
                        if o.dag.node_valid(n) {
                            assert(d0.parent_of(UnitHandle::Node(n)) == o.dag.parent_of(UnitHandle::Node(n)));
                            assert(d1.parent_of(UnitHandle::Node(n)) == d0.parent_of(UnitHandle::Node(n)));
                            assert(d2.parent_of(UnitHandle::Node(n)) == d1.parent_of(UnitHandle::Node(n)));
                            assert(d3.parent_of(UnitHandle::Node(n)) == d2.parent_of(UnitHandle::Node(n)));
                            assert(d4.parent_of(UnitHandle::Node(n)) == d3.parent_of(UnitHandle::Node(n)));
                        }
                    }
                    assert forall|i: int| 0 <= i < b@.len() implies d5.has_level(#[trigger] b@[i]) by {
                        if i < b0.len() {
                            assert(b@[i] == b0[i]);
                            assert(d0.has_level(b0[i]));
                        }
                    }
                    assert forall|i: int| 1 <= i < b@.len() implies d5.level_of(#[trigger] b@[i]) == d5.level_of(b@[i - 1]) + 1 by {
                        if i < b0.len() {
                            assert(b@[i] == b0[i] && b@[i - 1] == b0[i - 1]);
                            assert(d0.has_level(b0[i]) && d0.has_level(b0[i - 1]));
                        } else {
                            assert(b@[i - 1] == last_u);
                            assert(d0.has_level(last_u));
                        }
                    }
                    assert(d0.has_level(curr_u));
                    assert forall|k: int| 0 <= k < a@.len() implies d5.node_valid(#[trigger] a@[k]) by {}
                    assert forall|q: int| 0 <= q < self.edges@.len() implies self.edge_ok(#[trigger] self.edges@[q]) by {
                        assert(d4.node_count() == d5.node_count());
                        assert forall|r: int| 0 <= r < self.edges@[q].1@.len() implies self.dag.node_valid(#[trigger] self.edges@[q].1@[r]) by {
                            assert(o.dag.node_valid(self.edges@[q].1@[r]));
                        }
                    }
                    assert forall|q: int| 0 <= q < self.self_edges@.len() implies {
                        &&& self.dag.node_valid((#[trigger] self.self_edges@[q]).1)
                        &&& self.dag.unit_valid(self.self_edges@[q].2)
                    } by {
                        assert(o.dag.node_valid(self.self_edges@[q].1));
                        assert(o.dag.unit_valid(self.self_edges@[q].2));
                    }
                }
                last = conn;
                last_u = conn_u;
                lv = lv + 1;
            }
            let ghost b0 = b@;
            let ghost a0 = a@;
            a.push(curr);
            b.push(curr_u);
            proof {
                assert forall|i: int| 0 <= i < a@.len() implies chain_node_ok(#[trigger] a@[i], lst@, o.dag.node_count(), &self.dag, subgraph_idx) by {
                    if i < a0.len() {
                        assert(a@[i] == a0[i]);
                    } else {
                        assert(lst@[j as int] == curr);
                    }
                }
                assert forall|i: int| 0 <= i < b@.len() implies self.dag.has_level(#[trigger] b@[i]) by {
                    if i < b0.len() {
                        assert(b@[i] == b0[i]);
                    }
                }
                assert forall|i: int| 1 <= i < b@.len() implies self.dag.level_of(#[trigger] b@[i]) == self.dag.level_of(b@[i - 1]) + 1 by {
                    if i < b0.len() {
                        assert(b@[i] == b0[i] && b@[i - 1] == b0[i - 1]);
                    } else {
                        assert(b@[i - 1] == last_u);
                    }
                }
            }
            j = j + 1;
        }
        let ghost a_len = a@.len();
        let mut t = n;
        while t < lst_u.len()
            invariant
                n <= t <= lst_u@.len(),
                a@.len() == a_len,
                b@.len() >= a_len,
                b@.len() + (lst_u@.len() - t) == lst_u@.len() + (a@.len() - n),
                steps_by_one(&self.dag, b@, a@.len() as int),
            decreases lst_u@.len() - t,
        {
            let ghost b0 = b@;
            b.push(lst_u[t]);
            proof {
                assert forall|i: int| 0 <= i < a@.len() implies #[trigger] b@[i] == b0[i] by {}
            }
            t = t + 1;
        }
        Some((a, b))
    }
}

/// Rearranging the rows of one subgraph keeps the levels.
pub proof fn lemma_rearranged_levels(new: &DAG, old: &DAG, s: SubgraphHandle)
    requires
        old.wf(),
        new.same_except_rank(old, s),
        new.rank_of(s).level_map() == old.rank_of(s).level_map(),
    ensures
        new.levels_kept(old),
{
    new.lemma_same_except_rank_wf(old, s);
    assert forall|u: UnitHandle| #[trigger] old.has_level(u) implies new.has_level(u) && new.level_of(u) == old.level_of(u) by {
        let p = old.parent_of(u);
        assert(new.parent_of(u) == p);
        if p != s {
            assert(new.subgraphs@[p.index() as int].ranks == new.rank_of(p));
        }
    }
}

/// Levels that step by one stay so while the levels are kept.
pub proof fn lemma_steps_kept(new: &DAG, old: &DAG, us: Seq<UnitHandle>, n: int)
    requires
        steps_by_one(old, us, n),
        new.levels_kept(old),
    ensures
        steps_by_one(new, us, n),
{
    assert forall|i: int| 0 <= i < n implies new.has_level(#[trigger] us[i]) by {
        assert(old.has_level(us[i]));
    }
    assert forall|i: int| 1 <= i < n implies new.level_of(#[trigger] us[i]) == new.level_of(us[i - 1]) + 1 by {
        assert(old.has_level(us[i]) && old.has_level(us[i - 1]));
    }
}

/// What `recompute_node_ranks` leaves in `d` for subgraph `s` of `o`:
/// each unit that a source reaches has a level below `bound`, and, where
/// the unit edges of `s` close no cycle, each edge to a node goes down.
pub open spec fn rec_facts(d: &DAG, o: &DAG, s: SubgraphHandle, bound: nat) -> bool {
    &&& forall|v: UnitHandle| #[trigger] o.from_source(s, v) ==> {
        &&& d.has_level(v)
        &&& d.level_of(v) < bound
    }
    &&& o.units_acyclic(s) ==>
        forall|u: UnitHandle, v: UnitHandle|
            #![trigger d.rank_of(s).level_map()[u], o.unit_succs(u).contains(v)]
            d.rank_of(s).level_map().contains_key(u) && o.unit_succs(u).contains(v) && v != u && v is Node ==> {
                &&& d.rank_of(s).level_map().contains_key(v)
                &&& d.rank_of(s).level_map()[v] >= d.rank_of(s).level_map()[u] + 1
            }
}

/// The node `x` of a split chain is one of the nodes `lst` of the chain it
/// came from, or a new node (numbered from `n0`) of subgraph `s` in `dag`.
pub open spec fn chain_node_ok(x: NodeHandle, lst: Seq<NodeHandle>, n0: nat, dag: &DAG, s: SubgraphHandle) -> bool {
    ||| lst.contains(x)
    ||| x.index() >= n0 && dag.parent_of(UnitHandle::Node(x)) == s
}

/// The arrow `new` is the arrow `old` with its chain split: the same arrow,
/// from the same first node to the same last node, through nodes of the
/// old chain or new nodes of subgraph `s`.
pub open spec fn chain_rel(new: EdgeEntry, old: EdgeEntry, n0: nat, dag: &DAG, s: SubgraphHandle) -> bool {
    &&& new.0 == old.0
    &&& new.1@.len() >= 1
    &&& new.1@[0] == old.1@[0]
    &&& new.1@.last() == old.1@.last()
    &&& forall|i: int| 0 <= i < new.1@.len() ==> chain_node_ok(#[trigger] new.1@[i], old.1@, n0, dag, s)
}

/// The arrow `e` is not split in subgraph `s` of `dag`: one of its units is
/// a subgraph, or its first unit is a unit of `dag` outside `s`.
pub open spec fn chain_out(dag: &DAG, e: EdgeEntry, s: SubgraphHandle) -> bool {
    ||| exists|i: int| 0 <= i < e.2@.len() && (#[trigger] e.2@[i]) is Subgraph
    ||| dag.unit_valid(e.2@[0]) && dag.parent_of(e.2@[0]) != s
}

/// The first `k` arrows of `old` became those of `new`: each arrow between
/// nodes that starts in `s` (in `od`) is split (see `chain_rel`), and each
/// arrow that is not split (see `chain_out`) is kept. (An arrow whose first
/// unit names a node that `od` does not hold yet is split when an earlier
/// split adds that node.)
pub open spec fn arrows_split(new: Seq<EdgeEntry>, old: Seq<EdgeEntry>, od: &DAG, n0: nat, dag: &DAG, s: SubgraphHandle, k: int) -> bool {
    forall|j: int| 0 <= j < k ==> {
        &&& chain_in(od, #[trigger] old[j], s) ==> chain_rel(new[j], old[j], n0, dag, s)
        &&& chain_out(od, old[j], s) ==> new[j] == old[j]
    }
}

/// The number of nodes that the first `k` arrows gained from `old` to `new`.
pub open spec fn nodes_gained(new: Seq<EdgeEntry>, old: Seq<EdgeEntry>, k: int) -> int
    decreases k,
{
    if k <= 0 {
        0
    } else {
        nodes_gained(new, old, k - 1) + new[k - 1].1@.len() - old[k - 1].1@.len()
    }
}

pub proof fn lemma_nodes_gained_frame(new1: Seq<EdgeEntry>, new2: Seq<EdgeEntry>, old: Seq<EdgeEntry>, k: int)
    requires
        forall|j: int| 0 <= j < k ==> #[trigger] new1[j] == new2[j],
    ensures
        nodes_gained(new1, old, k) == nodes_gained(new2, old, k),
    decreases k,
{
    if k > 0 {
        lemma_nodes_gained_frame(new1, new2, old, k - 1);
        assert(new1[k - 1] == new2[k - 1]);
    }
}

/// Split arrows stay split while the parents of their nodes are kept.
pub proof fn lemma_arrows_split_kept(new: Seq<EdgeEntry>, old: Seq<EdgeEntry>, od: &DAG, n0: nat, d1: &DAG, d2: &DAG, s: SubgraphHandle, k: int)
    requires
        arrows_split(new, old, od, n0, d1, s, k),
        k <= new.len(),
        forall|j: int, i: int| 0 <= j < k && 0 <= i < new[j].1@.len() ==> d1.node_valid(#[trigger] new[j].1@[i]),
        forall|x: NodeHandle| #[trigger] d1.node_valid(x) ==> d2.parent_of(UnitHandle::Node(x)) == d1.parent_of(UnitHandle::Node(x)),
    ensures
        arrows_split(new, old, od, n0, d2, s, k),
{
    assert forall|j: int| 0 <= j < k implies {
        &&& chain_in(od, #[trigger] old[j], s) ==> chain_rel(new[j], old[j], n0, d2, s)
        &&& chain_out(od, old[j], s) ==> new[j] == old[j]
    } by {
        if chain_in(od, old[j], s) {
            assert(chain_rel(new[j], old[j], n0, d1, s));
            assert forall|i: int| 0 <= i < new[j].1@.len() implies chain_node_ok(#[trigger] new[j].1@[i], old[j].1@, n0, d2, s) by {
                assert(chain_node_ok(new[j].1@[i], old[j].1@, n0, d1, s));
                assert(d1.node_valid(new[j].1@[i]));
            }
        }
    }
}

/// The chain of an arrow, its nodes `ns` and units `us`, is one step
/// between two units that have levels in `dag`, going down, with room in
/// the dag for the connectors of the levels it skips.
pub open spec fn one_step_fits(dag: &DAG, ns: Seq<NodeHandle>, us: Seq<UnitHandle>) -> bool {
    &&& ns.len() == 2
    &&& us.len() == 2
    &&& dag.has_level(us[0])
    &&& dag.has_level(us[1])
    &&& dag.level_of(us[0]) < dag.level_of(us[1])
    &&& dag.node_count() + dag.level_of(us[1]) - dag.level_of(us[0]) <= usize::MAX
}

/// The arrow `e` stands between nodes only and starts in subgraph `s`:
/// the arrows that `split_long_edges` splits.
pub open spec fn chain_in(dag: &DAG, e: EdgeEntry, s: SubgraphHandle) -> bool {
    &&& forall|i: int| 0 <= i < e.2@.len() ==> (#[trigger] e.2@[i]) is Node
    &&& dag.unit_valid(e.2@[0])
    &&& dag.parent_of(e.2@[0]) == s
}

impl VisualGraph {
    /// Whether the self edges can be expanded into subgraph `s`.
    pub fn self_edges_ready_check(&self, s: SubgraphHandle) -> (r: bool)
        requires
            self.graph_wf(),
            self.graph_dag().subgraph_valid(s),
        ensures
            r == self.self_edges_ready(s),
    {
        let h = self.dag.num_levels_subgraph(s);
        let mut k: usize = 0;
        while k < self.self_edges.len()
            invariant
                self.graph_wf(),
                self.dag.subgraph_valid(s),
                h == self.dag.rank_of(s).rows().len(),
                k <= self.self_edges@.len(),
                forall|q: int| 0 <= q < k ==> {
                    let se = #[trigger] self.self_edges@[q];
                    let l = self.dag.node_levels()[se.1.index() as int];
                    &&& l < usize::MAX
                    &&& l < self.dag.rank_of(s).rows().len()
                    &&& self.dag.rank_of(s).rows()[l as int].contains(se.2)
                },
            decreases self.self_edges@.len() - k,
        {
            let node = self.self_edges[k].1;
            let unit = self.self_edges[k].2;
            let l = self.dag.level(node);
            if l == usize::MAX || l >= h {
                return false;
            }
            let row = self.dag.row_subgraph(s, l);
            let mut found = false;
            let mut t: usize = 0;
            while t < row.len()
                invariant
                    t <= row@.len(),
                    found == row@.take(t as int).contains(unit),
                decreases row@.len() - t,
            {
                proof {
                    let a = row@.take(t as int);
                    let b = row@.take(t as int + 1);
                    assert(b =~= a.push(row@[t as int]));
                    if a.contains(unit) {
                        let i = choose|i: int| 0 <= i < a.len() && a[i] == unit;
                        assert(b[i] == unit);
                    }
                    if row@[t as int] == unit {
                        assert(b[t as int] == unit);
                    }
                    if b.contains(unit) && !a.contains(unit) {
                        let i = choose|i: int| 0 <= i < b.len() && b[i] == unit;
                        if i < t {
                            assert(a[i] == unit);
                        }
                    }
                }
                if row[t] == unit {
                    found = true;
                }
                t = t + 1;
            }
            proof {
                assert(row@.take(row@.len() as int) =~= row@);
            }
            if !found {
                return false;
            }
            k = k + 1;
        }
        true
    }

    /// Lowers the arrows of subgraph `subgraph_idx` so that each joins
    /// neighbouring levels: the ranks of the subgraph are recomputed, nodes
    /// are sunk (unless optimizations are disabled), each arrow between
    /// nodes that starts in the subgraph gets a connector node at every
    /// level it skips, the rows are reordered to reduce crossings (unless
    /// optimizations are disabled), and the self edges are expanded.
    /// Returns `false`, with the graph partly lowered, where a check fails:
    /// a unit without a level or a level that does not grow along an arrow,
    /// too few units for the nodes of an arrow, a dag that fails its
    /// checks, rows not fit for reordering, a self edge whose unit is not in
    /// the row of its level, or too many nodes. Without optimizations it
    /// succeeds on a graph that is ready for it (see `split_ready`).
    #[verifier::rlimit(80)]
    pub fn split_long_edges(&mut self, subgraph_idx: SubgraphHandle, disable_optimizations: bool) -> (r: bool)
        requires
            old(self).graph_wf(),
            old(self).graph_dag().passes_checks(),
            old(self).graph_dag().node_count() > 0,
            old(self).graph_dag().subgraph_valid(subgraph_idx),
            old(self).graph_dag().subgraph_closed(subgraph_idx),
            old(self).graph_dag().members(subgraph_idx).len() < usize::MAX,
            forall|v: UnitHandle| #[trigger] old(self).graph_dag().from_source(subgraph_idx, v) ==>
                old(self).graph_dag().unit_preds(v).len() + old(self).graph_dag().unit_succs(v).len() <= usize::MAX,
        ensures
            final(self).graph_wf(),
            final(self).graph_dag().subgraph_count() == old(self).graph_dag().subgraph_count(),
            final(self).edge_list().len() >= old(self).edge_list().len(),
            r ==> final(self).self_edge_list().len() == 0,
            r ==> forall|k: int| 0 <= k < old(self).edge_list().len() && chain_in(&old(self).graph_dag(), #[trigger] old(self).edge_list()[k], subgraph_idx) ==>
                steps_by_one(&final(self).graph_dag(), final(self).edge_list()[k].2@, final(self).edge_list()[k].1@.len() as int),
            !r ==> final(self).split_stopped(subgraph_idx, disable_optimizations),
            final(self).graph_dag().nesting_kept(&old(self).graph_dag()),
            final(self).graph_dag().levels_recomputed(&old(self).graph_dag(), subgraph_idx, !disable_optimizations),
            disable_optimizations && old(self).split_ready(subgraph_idx) ==> r,
            r ==> final(self).edge_list().len() == old(self).edge_list().len() + old(self).self_edge_list().len(),
            r ==> final(self).graph_dag().node_count() == old(self).graph_dag().node_count()
                + nodes_gained(final(self).edge_list(), old(self).edge_list(), old(self).edge_list().len() as int)
                + old(self).self_edge_list().len(),
            r ==> arrows_split(final(self).edge_list(), old(self).edge_list(), &old(self).graph_dag(), old(self).graph_dag().node_count(),
                &final(self).graph_dag(), subgraph_idx, old(self).edge_list().len() as int),
    {
        let ghost o = *old(self);
        self.dag.recompute_node_ranks(subgraph_idx);
        let ghost d_rec = self.dag;
        proof {
            assert(exists|order: Seq<UnitHandle>| {
                &&& #[trigger] o.dag.is_reach_order(subgraph_idx, order)
                &&& order == crate::toposort::walk_result(&o.dag, Seq::empty(), false, crate::toposort::walk_start(&o.dag, subgraph_idx))
                &&& o.dag.units_acyclic(subgraph_idx) ==> o.dag.is_topological(order)
                &&& forall|u: UnitHandle| #[trigger] d_rec.rank_of(subgraph_idx).level_map().contains_key(u) <==> order.contains(u)
                &&& forall|u: UnitHandle| #[trigger] d_rec.rank_of(subgraph_idx).level_map().contains_key(u) ==>
                    d_rec.rank_of(subgraph_idx).level_map()[u] == computed_levels(&o.dag, order)[u].0
            });
        }
        let ghost rec_order = choose|order: Seq<UnitHandle>| {
            &&& #[trigger] o.dag.is_reach_order(subgraph_idx, order)
            &&& order == crate::toposort::walk_result(&o.dag, Seq::empty(), false, crate::toposort::walk_start(&o.dag, subgraph_idx))
            &&& o.dag.units_acyclic(subgraph_idx) ==> o.dag.is_topological(order)
            &&& forall|u: UnitHandle| #[trigger] d_rec.rank_of(subgraph_idx).level_map().contains_key(u) <==> order.contains(u)
            &&& forall|u: UnitHandle| #[trigger] d_rec.rank_of(subgraph_idx).level_map().contains_key(u) ==>
                d_rec.rank_of(subgraph_idx).level_map()[u] == computed_levels(&o.dag, order)[u].0
        };
        proof {
            assert forall|v: UnitHandle| #[trigger] o.dag.from_source(subgraph_idx, v) implies {
                &&& d_rec.has_level(v)
                &&& d_rec.level_of(v) == computed_levels(&o.dag, rec_order)[v].0
            } by {
                o.dag.lemma_reach_member(subgraph_idx, v);
                o.dag.lemma_member_parent(subgraph_idx, v);
                d_rec.lemma_same_except_rank_wf(&o.dag, subgraph_idx);
                assert(d_rec.parent_of(v) == o.dag.parent_of(v)) by {
                    if let UnitHandle::Subgraph(t) = v {
                        assert(d_rec.subgraphs@[t.index() as int].parent_subgraph_idx == o.dag.subgraphs@[t.index() as int].parent_subgraph_idx);
                    }
                }
                assert(rec_order.contains(v));
            }
            assert(d_rec.levels_along(&o.dag, subgraph_idx, false, rec_order));
            assert forall|v: UnitHandle| #[trigger] o.dag.from_source(subgraph_idx, v) implies {
                &&& d_rec.has_level(v)
                &&& d_rec.level_of(v) < o.dag.members(subgraph_idx).len() + 1
            } by {
                o.dag.lemma_reach_member(subgraph_idx, v);
                o.dag.lemma_member_parent(subgraph_idx, v);
                assert(d_rec.parent_of(v) == o.dag.parent_of(v)) by {
                    if let UnitHandle::Subgraph(t) = v {
                        assert(d_rec.subgraphs@[t.index() as int].parent_subgraph_idx == o.dag.subgraphs@[t.index() as int].parent_subgraph_idx);
                    }
                }
            }
        }
        proof {
            self.dag.lemma_same_except_rank_wf(&o.dag, subgraph_idx);
            self.dag.lemma_same_except_rank_reach(&o.dag, subgraph_idx, subgraph_idx);
            crate::reach::lemma_checks_same_nodes(&self.dag, &o.dag);
        }
        self.dag.verify();
        if !disable_optimizations {
            proof {
                let d = self.dag;
                assert forall|v: UnitHandle| #[trigger] d.from_source(subgraph_idx, v) implies {
                    &&& d.rank_of(subgraph_idx).level_map().contains_key(v)
                    &&& d.rank_of(subgraph_idx).level_map()[v] < usize::MAX
                    &&& d.unit_preds(v).len() + d.unit_succs(v).len() <= usize::MAX
                } by {
                    assert(o.dag.from_source(subgraph_idx, v));
                    o.dag.lemma_reach_member(subgraph_idx, v);
                    o.dag.lemma_member_valid(subgraph_idx, v);
                }
                assert(d.can_optimize_ranks(subgraph_idx));
            }
            let ghost before_opt = self.dag;
            let mut opt = RankOptimizer::new(&mut self.dag);
            opt.optimize(subgraph_idx);
            proof {
                self.dag.lemma_same_except_rank_wf(&before_opt, subgraph_idx);
                self.dag.lemma_same_except_rank_trans(&before_opt, &o.dag, subgraph_idx);
                crate::reach::lemma_checks_same_nodes(&self.dag, &o.dag);
                let d = self.dag;
                assert(before_opt == d_rec);
                assert forall|v: UnitHandle| #[trigger] o.dag.from_source(subgraph_idx, v) implies {
                    &&& d.has_level(v)
                    &&& d.level_of(v) >= computed_levels(&o.dag, rec_order)[v].0
                } by {
                    assert(d_rec.has_level(v));
                    assert(d_rec.parent_of(v) == subgraph_idx) by {
                        o.dag.lemma_reach_member(subgraph_idx, v);
                        o.dag.lemma_member_parent(subgraph_idx, v);
                    }
                    assert(d.parent_of(v) == d_rec.parent_of(v)) by {
                        if let UnitHandle::Subgraph(t) = v {
                            assert(d.subgraphs@[t.index() as int].parent_subgraph_idx == d_rec.subgraphs@[t.index() as int].parent_subgraph_idx);
                        }
                    }
                    assert(d_rec.rank_of(subgraph_idx).level_map().contains_key(v));
                }
                assert(d.levels_along(&o.dag, subgraph_idx, true, rec_order));
            }
        }
        let ghost d_mid = self.dag;
        proof {
            if disable_optimizations {
                assert(d_mid.levels_along(&o.dag, subgraph_idx, false, rec_order));
            }
            assert(d_mid.levels_recomputed(&o.dag, subgraph_idx, !disable_optimizations));
        }
        proof {
            self.dag.lemma_same_except_rank_wf(&o.dag, subgraph_idx);
            self.dag.lemma_nesting_same_except_rank(&o.dag, subgraph_idx);
            self.dag.lemma_levels_kept_refl();
            assert forall|n: NodeHandle| #[trigger] self.dag.parent_of(UnitHandle::Node(n)) == o.dag.parent_of(UnitHandle::Node(n)) || !o.dag.node_valid(n) by {
                assert(self.dag.unit_valid(UnitHandle::Node(n)) == o.dag.unit_valid(UnitHandle::Node(n)));
            }
            assert(self.dag.node_parents_kept(&o.dag));
        }
        let mut edges: Vec<EdgeEntry> = Vec::new();
        std::mem::swap(&mut edges, &mut self.edges);
        let ghost input = edges@;
        let ghost ready = disable_optimizations && o.split_ready(subgraph_idx);
        let ghost mm = o.dag.members(subgraph_idx).len() + 1;
        let mut k: usize = 0;
        proof {
            if ready {
                assert(d_mid == d_rec);
            }
            assert(rec_facts(&d_rec, &o.dag, subgraph_idx, mm));
        }
        while k < edges.len()
            invariant
                o == *old(self),
                input == o.edges@,
                edges@.len() == input.len(),
                k <= input.len(),
                self.graph_wf(),
                self.edges@.len() == 0,
                self.dag.subgraph_valid(subgraph_idx),
                self.dag.validating() == o.dag.validating(),
                self.dag.levels_kept(&d_mid),
                d_mid.levels_recomputed(&o.dag, subgraph_idx, !disable_optimizations),
                ready == (disable_optimizations && o.split_ready(subgraph_idx)),
                mm == o.dag.members(subgraph_idx).len() + 1,
                ready ==> d_mid == d_rec,
                rec_facts(&d_rec, &o.dag, subgraph_idx, mm),
                o.dag.wf(),
                o.dag.subgraph_valid(subgraph_idx),
                o.dag.subgraph_closed(subgraph_idx),
                d_rec.same_except_rank(&o.dag, subgraph_idx),
                ready ==> self.dag.node_count() <= o.dag.node_count() + k * mm,
                arrows_split(edges@, input, &o.dag, o.dag.node_count(), &self.dag, subgraph_idx, k as int),
                self.dag.node_count() == o.dag.node_count() + nodes_gained(edges@, input, k as int),
                self.dag.subgraph_count() == o.dag.subgraph_count(),
                self.dag.node_parents_kept(&o.dag),
                self.dag.nesting_kept(&o.dag),
                self.dag.node_count() >= o.dag.node_count(),
                forall|j: int| 0 <= j < edges@.len() ==> self.edge_ok(#[trigger] edges@[j]),
                forall|j: int| k <= j < input.len() ==> #[trigger] edges@[j] == input[j],
                forall|j: int| 0 <= j < k && chain_in(&o.dag, #[trigger] input[j], subgraph_idx) ==>
                    steps_by_one(&self.dag, edges@[j].2@, edges@[j].1@.len() as int),
                self.self_edges@ == o.self_edges@,
            decreases input.len() - k,
        {
            let mut to_skip = false;
            let mut q: usize = 0;
            while q < edges[k].2.len()
                invariant
                    k < edges@.len(),
                    q <= edges@[k as int].2@.len(),
                    !to_skip ==> forall|i: int| 0 <= i < q ==> (#[trigger] edges@[k as int].2@[i]) is Node,
                    to_skip ==> exists|i: int| 0 <= i < edges@[k as int].2@.len() && (#[trigger] edges@[k as int].2@[i]) is Subgraph,
                ensures
                    !to_skip ==> forall|i: int| 0 <= i < edges@[k as int].2@.len() ==> (#[trigger] edges@[k as int].2@[i]) is Node,
                    to_skip ==> exists|i: int| 0 <= i < edges@[k as int].2@.len() && (#[trigger] edges@[k as int].2@[i]) is Subgraph,
                decreases edges@[k as int].2@.len() - q,
            {
                match edges[k].2[q] {
                    UnitHandle::Subgraph(_) => {
                        to_skip = true;
                        break;
                    },
                    UnitHandle::Node(_) => {},
                }
                q = q + 1;
            }
            if to_skip {
                proof {
                    assert(edges@[k as int] == input[k as int]);
                    assert((k + 1) * mm == k * mm + mm) by (nonlinear_arith);
                    assert(nodes_gained(edges@, input, k + 1) == nodes_gained(edges@, input, k as int));
                }
                k = k + 1;
                continue;
            }
            proof {
                assert(self.edge_ok(edges@[k as int]));
                assert(edges@[k as int].2@[0] is Node);
            }
            let u0 = edges[k].2[0];
            let n0 = match u0 {
                UnitHandle::Node(n) => n,
                UnitHandle::Subgraph(_) => { proof { assert(false); } NodeHandle::new(0) },
            };
            proof {
                if ready {
                    assert(edges@[k as int] == input[k as int]);
                    assert(o.dag.unit_valid(u0));
                }
            }
            if n0.get_index() >= self.dag.len() {
                std::mem::swap(&mut edges, &mut self.edges);
                proof {
                    assert(chain_stuck(&self.dag, self.edges@[k as int], subgraph_idx));
                    self.dag.lemma_levels_recomputed_kept(&d_mid, &o.dag, subgraph_idx, !disable_optimizations);
                }
                return false;
            }
            let sg_e = self.dag.subgraph_from_unit_handle(u0);
            if sg_e != subgraph_idx {
                proof {
                    assert(edges@[k as int] == input[k as int]);
                    if o.dag.unit_valid(u0) {
                        assert(self.dag.parent_of(UnitHandle::Node(n0)) == o.dag.parent_of(UnitHandle::Node(n0)));
                    }
                    if chain_in(&o.dag, input[k as int], subgraph_idx) {
                        assert(false);
                    }
                    assert(nodes_gained(edges@, input, k + 1) == nodes_gained(edges@, input, k as int));
                    assert((k + 1) * mm == k * mm + mm) by (nonlinear_arith);
                }
                k = k + 1;
                continue;
            }
            let ghost before = self.dag;
            let ghost before_g = *self;
            let ghost e_k = edges@[k as int];
            proof {
                if ready {
                    assert(rec_facts(&d_rec, &o.dag, subgraph_idx, mm));
                    let e = input[k as int];
                    assert(e_k == e);
                    assert(o.dag.parent_of(u0) == self.dag.parent_of(u0));
                    let fu = e.2@[0];
                    let tu = e.2@[1];
                    assert(o.dag.from_source(subgraph_idx, fu));
                    o.dag.lemma_reach_member(subgraph_idx, fu);
                    o.dag.lemma_member_valid(subgraph_idx, fu);
                    crate::toposort::lemma_unit_reaches_after(&o.dag, subgraph_idx, fu, tu);
                    assert(d_rec.has_level(fu) && d_rec.has_level(tu));
                    assert(d_rec.parent_of(fu) == subgraph_idx) by {
                        o.dag.lemma_member_parent(subgraph_idx, fu);
                        assert(d_rec.parent_of(fu) == o.dag.parent_of(fu));
                    }
                    assert(d_rec.parent_of(tu) == subgraph_idx) by {
                        o.dag.lemma_reach_member(subgraph_idx, tu);
                        o.dag.lemma_member_parent(subgraph_idx, tu);
                        if let UnitHandle::Subgraph(t) = tu {
                            assert(d_rec.subgraphs@[t.index() as int].parent_subgraph_idx == o.dag.subgraphs@[t.index() as int].parent_subgraph_idx);
                        }
                    }
                    assert(tu is Node);
                    assert(d_rec.rank_of(subgraph_idx).level_map()[tu] >= d_rec.rank_of(subgraph_idx).level_map()[fu] + 1);
                    assert(self.dag.has_level(fu) && self.dag.has_level(tu));
                    assert(self.dag.level_of(fu) == d_rec.level_of(fu));
                    assert(self.dag.level_of(tu) == d_rec.level_of(tu));
                    assert(k + 1 <= input.len());
                    assert((k + 1) * mm <= input.len() * mm) by (nonlinear_arith)
                        requires k + 1 <= input.len(), mm >= 0;
                    assert((k + 1) * mm == k * mm + mm) by (nonlinear_arith);
                    assert(one_step_fits(&self.dag, edges@[k as int].1@, edges@[k as int].2@));
                }
            }
            let ghost edges_before = edges@;
            let res = self.split_chain(subgraph_idx, &edges[k].1, &edges[k].2);
            match res {
                None => {
                    std::mem::swap(&mut edges, &mut self.edges);
                    proof {
                        self.dag.lemma_nesting_trans(&before, &o.dag);
                        self.dag.lemma_levels_kept_trans(&before, &d_mid);
                        self.dag.lemma_levels_recomputed_kept(&d_mid, &o.dag, subgraph_idx, !disable_optimizations);
                        assert(self.dag.parent_of(u0) == before.parent_of(u0));
                        assert(chain_stuck(&self.dag, self.edges@[k as int], subgraph_idx));
                    }
                    return false;
                },
                Some((a, b)) => {
                    let arrow = edges[k].0.duplicate();
                    edges.set(k, (arrow, a, b));
                },
            }
            proof {
                self.dag.lemma_nesting_trans(&before, &o.dag);
                self.dag.lemma_levels_kept_trans(&before, &d_mid);
                assert forall|j: int, i: int| 0 <= j < k && 0 <= i < edges@[j].1@.len() implies before.node_valid(#[trigger] edges@[j].1@[i]) by {
                    assert(before_g.edge_ok(edges@[j]));
                }
                assert forall|x: NodeHandle| #[trigger] before.node_valid(x) implies self.dag.parent_of(UnitHandle::Node(x)) == before.parent_of(UnitHandle::Node(x)) by {}
                lemma_arrows_split_kept(edges@, input, &o.dag, o.dag.node_count(), &before, &self.dag, subgraph_idx, k as int);
                assert(e_k == input[k as int]);
                lemma_nodes_gained_frame(edges@, edges_before, input, k as int);
                assert(nodes_gained(edges@, input, k + 1) == nodes_gained(edges@, input, k as int) + edges@[k as int].1@.len() - input[k as int].1@.len());
                assert(!chain_out(&o.dag, input[k as int], subgraph_idx)) by {
                    if o.dag.unit_valid(u0) {
                        assert(before.parent_of(u0) == o.dag.parent_of(u0));
                    }
                }
                assert forall|i: int| 0 <= i < edges@[k as int].1@.len() implies
                    chain_node_ok(#[trigger] edges@[k as int].1@[i], input[k as int].1@, o.dag.node_count(), &self.dag, subgraph_idx) by {
                    assert(chain_node_ok(edges@[k as int].1@[i], e_k.1@, before.node_count(), &self.dag, subgraph_idx));
                }
                assert(chain_rel(edges@[k as int], input[k as int], o.dag.node_count(), &self.dag, subgraph_idx));
                assert forall|j: int| 0 <= j < k + 1 implies {
                    &&& chain_in(&o.dag, #[trigger] input[j], subgraph_idx) ==> chain_rel(edges@[j], input[j], o.dag.node_count(), &self.dag, subgraph_idx)
                    &&& chain_out(&o.dag, input[j], subgraph_idx) ==> edges@[j] == input[j]
                } by {
                    if j < k {
                        assert(arrows_split(edges@, input, &o.dag, o.dag.node_count(), &self.dag, subgraph_idx, k as int));
                    }
                }
                if ready {
                    assert((k + 1) * mm == k * mm + mm) by (nonlinear_arith);
                    let e = input[k as int];
                    assert(before.level_of(e.2@[1]) < mm);
                }
                assert forall|n: NodeHandle| #[trigger] self.dag.parent_of(UnitHandle::Node(n)) == o.dag.parent_of(UnitHandle::Node(n)) || !o.dag.node_valid(n) by {
                    if o.dag.node_valid(n) {
                        assert(before.parent_of(UnitHandle::Node(n)) == o.dag.parent_of(UnitHandle::Node(n)));
                        assert(self.dag.parent_of(UnitHandle::Node(n)) == before.parent_of(UnitHandle::Node(n)));
                    }
                }
                assert forall|j: int| 0 <= j < edges@.len() implies self.edge_ok(#[trigger] edges@[j]) by {
                    if j != k {
                        assert(before_g.edge_ok(edges@[j]));
                        assert forall|r: int| 0 <= r < edges@[j].1@.len() implies self.dag.node_valid(#[trigger] edges@[j].1@[r]) by {
                            assert(before.node_valid(edges@[j].1@[r]));
                        }
                    } else {
                        assert(before_g.edge_ok(e_k));
                    }
                }
                assert forall|j: int| 0 <= j < k + 1 && chain_in(&o.dag, #[trigger] input[j], subgraph_idx) implies
                    steps_by_one(&self.dag, edges@[j].2@, edges@[j].1@.len() as int) by {
                    if j < k {
                        lemma_steps_kept(&self.dag, &before, edges@[j].2@, edges@[j].1@.len() as int);
                    }
                }
            }
            k = k + 1;
        }
        std::mem::swap(&mut edges, &mut self.edges);
        assert(self.edges@.len() == o.edges@.len());
        proof {
            self.dag.lemma_levels_recomputed_kept(&d_mid, &o.dag, subgraph_idx, !disable_optimizations);
        }
        if !disable_optimizations {
            if !self.dag.checks_pass() {
                return false;
            }
            if !crossing_ready(&self.dag, subgraph_idx) {
                return false;
            }
            let ghost before_cross = self.dag;
            let mut opt = EdgeCrossOptimizer::new(&mut self.dag);
            opt.optimize(subgraph_idx);
            proof {
                lemma_rearranged_levels(&self.dag, &before_cross, subgraph_idx);
                self.dag.lemma_levels_recomputed_kept(&before_cross, &o.dag, subgraph_idx, !disable_optimizations);
                self.dag.lemma_nesting_same_except_rank(&before_cross, subgraph_idx);
                self.dag.lemma_nesting_trans(&before_cross, &o.dag);
                assert forall|j: int| 0 <= j < input.len() && chain_in(&o.dag, #[trigger] input[j], subgraph_idx) implies
                    steps_by_one(&self.dag, self.edges@[j].2@, self.edges@[j].1@.len() as int) by {
                    lemma_steps_kept(&self.dag, &before_cross, self.edges@[j].2@, self.edges@[j].1@.len() as int);
                }
            }
        }
        if !self.self_edges_ready_check(subgraph_idx) {
            return false;
        }
        if self.self_edges.len() > usize::MAX - self.dag.len() {
            return false;
        }
        let ghost before_self = *self;
        self.expand_self_edges(subgraph_idx);
        proof {
            assert forall|j: int| 0 <= j < input.len() implies #[trigger] self.edges@[j] == before_self.edges@[j] by {
                assert(self.edges@[j] == self.edges@.subrange(0, before_self.edges@.len() as int)[j]);
            }
            lemma_nodes_gained_frame(self.edges@, before_self.edges@, input, input.len() as int);
            self.dag.lemma_nesting_trans(&before_self.dag, &o.dag);
            self.dag.lemma_levels_recomputed_kept(&before_self.dag, &o.dag, subgraph_idx, !disable_optimizations);
            assert forall|j: int| 0 <= j < input.len() && chain_in(&o.dag, #[trigger] input[j], subgraph_idx) implies
                steps_by_one(&self.dag, self.edges@[j].2@, self.edges@[j].1@.len() as int) by {
                assert(self.edges@[j] == self.edges@.subrange(0, before_self.edges@.len() as int)[j]);
                lemma_steps_kept(&self.dag, &before_self.dag, before_self.edges@[j].2@, before_self.edges@[j].1@.len() as int);
            }
        }
        true
    }
}

} // verus!
