use layout::base::Orientation;
use layout::dag::DAG;
use layout::handles::{NodeHandle, SubgraphHandle, UnitHandle};
use layout::inter::has_level_check;
use layout::layout::{Arrow, Element, LineEnd, ShapeKind, StyleAttr, VisualGraph};
use layout::lowering::{contains_unit, text_count_exec};
use layout::reach::false_marks;
use layout::rank::copy_row;
use layout::toposort::reversed;

fn u(n: NodeHandle) -> UnitHandle {
    UnitHandle::new_node(n)
}

fn style() -> StyleAttr {
    StyleAttr::new("black".to_string(), 1, None, 0, 12)
}

fn arrow(text: &str) -> Arrow {
    Arrow::new(LineEnd::Plain, LineEnd::Arrow, text.to_string(), style())
}

/// A root subgraph with an inner subgraph; two nodes in the root, one in the
/// inner subgraph.
fn nested() -> (DAG, SubgraphHandle, SubgraphHandle, Vec<NodeHandle>) {
    let mut dag = DAG::new();
    let root = dag.new_subgraph(SubgraphHandle::new(0));
    let inner = dag.new_subgraph(root);
    let a = dag.new_node(root);
    let b = dag.new_node(root);
    let x = dag.new_node(inner);
    (dag, root, inner, vec![a, b, x])
}

#[test]
fn members_are_nodes_then_subgraphs() {
    let (dag, root, inner, n) = nested();
    assert_eq!(dag.member_units(root), vec![u(n[0]), u(n[1]), UnitHandle::new_subgraph(inner)]);
    assert_eq!(dag.member_units(inner), vec![u(n[2])]);
}

#[test]
fn a_subgraph_is_closed_when_its_edges_stay_inside() {
    let (mut dag, root, inner, n) = nested();
    dag.add_edge(n[0], n[1], u(n[0]), u(n[1]));
    assert!(dag.closed_check(root));
    // An edge from a root node to the node inside leaves the root.
    dag.add_edge(n[0], n[2], u(n[0]), u(n[2]));
    assert!(!dag.closed_check(root));
    assert!(dag.closed_check(inner));
    // Without a place in the walk, the root cannot be laid out.
    assert!(!dag.place_subgraph(root));
}

#[test]
fn successors_must_stand_in_the_rank() {
    let (mut dag, root, inner, n) = nested();
    dag.add_edge(n[0], n[1], u(n[0]), u(n[1]));
    assert!(dag.succs_ranked_check(root));
    dag.add_edge(n[0], n[2], u(n[0]), UnitHandle::new_subgraph(inner));
    assert!(dag.succs_ranked_check(root));
    assert!(dag.members_fit_check(root));
}

#[test]
fn a_subgraph_rank_of_valid_nodes_can_be_placed() {
    let (dag, root, inner, n) = nested();
    assert!(dag.rank_valid_nodes_check(inner));
    // The root's rank holds the inner subgraph.
    assert!(!dag.rank_valid_nodes_check(root));
    assert!(dag.placeable_check(root, UnitHandle::new_subgraph(inner)));
    assert!(!dag.placeable_check(root, UnitHandle::new_subgraph(root)));
    assert!(!dag.placeable_check(inner, UnitHandle::new_subgraph(root)));
    assert!(dag.placeable_check(root, u(n[2])));
    assert!(!dag.placeable_check(root, u(NodeHandle::new(9))));
    assert!(dag.child_levels_fit_check(inner, 5));
    assert!(!dag.child_levels_fit_check(inner, usize::MAX));
}

#[test]
fn place_subgraph_lays_out_the_inner_subgraph_below_its_predecessor() {
    let (mut dag, root, inner, n) = nested();
    dag.add_edge(n[0], n[2], u(n[0]), UnitHandle::new_subgraph(inner));
    dag.recompute_node_ranks(inner);
    dag.recompute_node_ranks(root);
    assert!(dag.place_subgraph(root));
    // Both root nodes stay in row 0; the node of the inner subgraph goes to
    // the row below its predecessor.
    assert_eq!(dag.num_levels_subgraph(root), 2);
    assert_eq!(dag.row_subgraph(root, 1), &vec![u(n[2])]);
    assert!(dag.row_subgraph(root, 0).contains(&u(n[0])));
    assert!(dag.row_subgraph(root, 0).contains(&u(n[1])));
    assert_eq!(dag.row_subgraph(root, 0).len(), 2);
}

#[test]
fn levels_are_found_only_where_recorded() {
    let (mut dag, root, _, n) = nested();
    assert!(has_level_check(&dag, u(n[0])));
    assert!(!has_level_check(&dag, u(NodeHandle::new(7))));
    dag.recompute_node_ranks(root);
    assert!(has_level_check(&dag, u(n[1])));
}

#[test]
fn arrows_are_pairs_when_built_by_add_edge() {
    let mut vg = VisualGraph::new(Orientation::TopToBottom);
    let root = vg.add_subgraph(Orientation::TopToBottom, "root".to_string(), SubgraphHandle::new(0));
    let a = vg.add_node(Element::create(ShapeKind::Circle("a".to_string()), style(), Orientation::TopToBottom), root);
    let b = vg.add_node(Element::create(ShapeKind::Circle("b".to_string()), style(), Orientation::TopToBottom), root);
    vg.add_edge(arrow("t"), a, u(a), b, u(b));
    assert!(vg.edges_are_pairs_check());
    assert!(vg.text_parents_check());
    vg.add_edge(arrow(""), a, u(a), b, u(NodeHandle::new(5)));
    assert!(!vg.edges_are_pairs_check());
}

#[test]
fn labelled_arrows_are_counted() {
    let mut vg = VisualGraph::new(Orientation::TopToBottom);
    let root = vg.add_subgraph(Orientation::TopToBottom, "root".to_string(), SubgraphHandle::new(0));
    let a = vg.add_node(Element::create(ShapeKind::Box("a".to_string()), style(), Orientation::TopToBottom), root);
    let b = vg.add_node(Element::create(ShapeKind::Box("b".to_string()), style(), Orientation::TopToBottom), root);
    vg.add_edge(arrow("one"), a, u(a), b, u(b));
    vg.add_edge(arrow(""), a, u(a), b, u(b));
    vg.add_edge(arrow("two"), b, u(b), a, u(a));
    let edges = vec![
        (arrow("one"), vec![a, b], vec![u(a), u(b)]),
        (arrow(""), vec![a, b], vec![u(a), u(b)]),
        (arrow("two"), vec![b, a], vec![u(b), u(a)]),
    ];
    assert_eq!(text_count_exec(&edges), 2);
    // Each labelled arrow runs through its connector, as a node and as a
    // unit, so lowering goes through.
    assert!(vg.lower(true));
    // Two label connectors were added (the arrow from b back to a was
    // flipped), and a third connector splits the plain arrow, which skips
    // the level of the label connectors.
    assert_eq!(vg.num_nodes(), 5);
    assert_eq!(vg.succ(a), &vec![NodeHandle::new(2), NodeHandle::new(3), NodeHandle::new(4)]);
    assert!(vg.is_connector(NodeHandle::new(2)));
    assert!(vg.is_connector(NodeHandle::new(3)));
    assert!(vg.is_connector(NodeHandle::new(4)));
}

#[test]
fn small_helpers() {
    let v = vec![u(NodeHandle::new(1)), u(NodeHandle::new(2))];
    assert!(contains_unit(&v, u(NodeHandle::new(2))));
    assert!(!contains_unit(&v, u(NodeHandle::new(3))));
    assert_eq!(reversed(&v), vec![u(NodeHandle::new(2)), u(NodeHandle::new(1))]);
    assert_eq!(copy_row(&v), v);
    assert_eq!(false_marks(3), vec![false, false, false]);
}
