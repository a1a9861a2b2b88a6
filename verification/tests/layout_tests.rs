use layout::base::{Direction, Orientation};
use layout::dag::DAG;
use layout::handles::{NodeHandle, SubgraphHandle, UnitHandle};
use layout::layout::{Arrow, Element, LineEnd, ShapeKind, StyleAttr, VisualGraph};
use layout::optimizer::{EdgeCrossOptimizer, RankOptimizer};
use layout::placer::Placer;

fn style() -> StyleAttr {
    StyleAttr::new("black".to_string(), 1, None, 0, 12)
}

fn boxed(name: &str) -> Element {
    Element::create(ShapeKind::Box(name.to_string()), style(), Orientation::TopToBottom)
}

fn arrow(text: &str) -> Arrow {
    Arrow::new(LineEnd::Plain, LineEnd::Arrow, text.to_string(), style())
}

fn u(n: NodeHandle) -> UnitHandle {
    UnitHandle::new_node(n)
}

/// A graph with a root subgraph and `n` boxes in it.
fn graph(n: usize) -> (VisualGraph, SubgraphHandle, Vec<NodeHandle>) {
    let mut vg = VisualGraph::new(Orientation::TopToBottom);
    let root = vg.add_subgraph(Orientation::TopToBottom, "root".to_string(), SubgraphHandle::new(0));
    let mut nodes = Vec::new();
    for i in 0..n {
        nodes.push(vg.add_node(boxed(&format!("n{}", i)), root));
    }
    (vg, root, nodes)
}

fn edge(vg: &mut VisualGraph, a: NodeHandle, b: NodeHandle, text: &str) {
    vg.add_edge(arrow(text), a, u(a), b, u(b));
}

#[test]
fn elements_are_kept_in_order() {
    let (vg, _, n) = graph(2);
    assert_eq!(vg.num_nodes(), 2);
    assert!(matches!(&vg.element(n[1]).shape, ShapeKind::Box(s) if s == "n1"));
    assert!(!vg.is_connector(n[0]));
    assert_eq!(vg.orientation(), Orientation::TopToBottom);
    let mut it = vg.iter_nodes();
    assert_eq!(it.next(), Some(n[0]));
    assert_eq!(it.next(), Some(n[1]));
    assert_eq!(it.next(), None);
}

#[test]
fn element_constructors() {
    assert!(Element::empty_connector(Orientation::LeftToRight).is_connector());
    let c = Element::create_connector(&"x".to_string(), &style(), Orientation::TopToBottom);
    assert!(matches!(&c.shape, ShapeKind::Connector(Some(s)) if s == "x"));
    assert!(matches!(Element::placeholder(Orientation::TopToBottom).shape, ShapeKind::Empty));
    let g = Element::create_subgraph(Orientation::LeftToRight, "g".to_string(), &style());
    assert!(matches!(&g.shape, ShapeKind::Subgraph(s) if s == "g"));
    assert_eq!(g.orientation, Orientation::LeftToRight);
}

#[test]
fn arrow_reverse_swaps_the_ends() {
    let a = arrow("t").reverse();
    assert_eq!(a.start, LineEnd::Arrow);
    assert_eq!(a.end, LineEnd::Plain);
    assert_eq!(a.text, "t");
    let b = a.duplicate();
    assert_eq!(b.start, LineEnd::Arrow);
    assert_eq!(b.look.font_size, 12);
}

#[test]
fn directions() {
    assert!(Orientation::TopToBottom.is_top_to_bottom());
    assert!(Orientation::LeftToRight.is_left_right());
    assert!(Direction::Both.is_up() && Direction::Both.is_down());
    assert!(!Direction::Up.is_down());
    assert!(!Direction::Down.is_up());
}

#[test]
fn to_valid_dag_enters_forward_edges() {
    let (mut vg, _, n) = graph(3);
    edge(&mut vg, n[0], n[1], "");
    edge(&mut vg, n[1], n[2], "");
    vg.to_valid_dag();
    assert_eq!(vg.succ(n[0]), &vec![n[1]]);
    assert_eq!(vg.preds(n[2]), &vec![n[1]]);
    assert!(vg.dag.checks_pass());
}

#[test]
fn to_valid_dag_flips_edges_that_close_a_cycle() {
    let (mut vg, _, n) = graph(3);
    edge(&mut vg, n[0], n[1], "");
    edge(&mut vg, n[1], n[2], "");
    edge(&mut vg, n[2], n[0], "");
    vg.to_valid_dag();
    assert_eq!(vg.succ(n[0]), &vec![n[1], n[2]]);
    assert!(vg.succ(n[2]).is_empty());
    assert!(!vg.dag.is_reachable(n[2], n[0]));
    assert!(vg.dag.checks_pass());
}

#[test]
fn self_loops_become_connector_arrows() {
    let (mut vg, root, n) = graph(1);
    edge(&mut vg, n[0], n[0], "loop");
    vg.to_valid_dag();
    assert!(vg.succ(n[0]).is_empty());
    assert!(vg.self_edges_ready_check(root));
    vg.expand_self_edges(root);
    assert_eq!(vg.num_nodes(), 2);
    let c = NodeHandle::new(1);
    assert!(matches!(&vg.element(c).shape, ShapeKind::Connector(Some(s)) if s == "loop"));
    // The connector is placed once, just before the node.
    assert_eq!(vg.dag.row_subgraph(root, 0), &vec![u(c), u(n[0])]);
}

#[test]
fn labels_get_a_connector_node() {
    let (mut vg, _, n) = graph(2);
    edge(&mut vg, n[0], n[1], "label");
    vg.to_valid_dag();
    vg.split_text_edges();
    assert_eq!(vg.num_nodes(), 3);
    let c = NodeHandle::new(2);
    assert!(vg.is_connector(c));
    assert!(matches!(&vg.element(c).shape, ShapeKind::Connector(Some(s)) if s == "label"));
    assert_eq!(vg.succ(n[0]), &vec![c]);
    assert_eq!(vg.succ(c), &vec![n[1]]);
    assert_eq!(vg.preds(n[1]), &vec![c]);
    // The unit edges go through the connector too (removing the node edge
    // leaves the unit edges as they were).
    assert_eq!(vg.dag.successors_u(u(n[0])), vec![u(n[1]), u(c)]);
    assert_eq!(vg.dag.successors_u(u(c)), vec![u(n[1])]);
    assert_eq!(vg.dag.predecessors_u(u(c)), vec![u(n[0])]);
    assert_eq!(vg.dag.predecessors_u(u(n[1])), vec![u(n[0]), u(c)]);
}

#[test]
fn unlabelled_edges_are_left_alone() {
    let (mut vg, _, n) = graph(2);
    edge(&mut vg, n[0], n[1], "");
    vg.to_valid_dag();
    vg.split_text_edges();
    assert_eq!(vg.num_nodes(), 2);
    assert_eq!(vg.succ(n[0]), &vec![n[1]]);
}

/// a -> b -> c and a -> c.
fn diamond() -> (VisualGraph, SubgraphHandle, Vec<NodeHandle>) {
    let (mut vg, root, n) = graph(3);
    edge(&mut vg, n[0], n[1], "");
    edge(&mut vg, n[1], n[2], "");
    edge(&mut vg, n[0], n[2], "");
    vg.to_valid_dag();
    (vg, root, n)
}

#[test]
fn long_edges_are_split_into_steps() {
    for disable in [true, false] {
        let (mut vg, root, n) = diamond();
        assert!(vg.split_long_edges(root, disable));
        assert_eq!(vg.num_nodes(), 4);
        let c = NodeHandle::new(3);
        assert!(vg.is_connector(c));
        assert_eq!(vg.dag.level_subgraph(u(n[0])), 0);
        assert_eq!(vg.dag.level_subgraph(u(n[1])), 1);
        assert_eq!(vg.dag.level_subgraph(u(c)), 1);
        assert_eq!(vg.dag.level_subgraph(u(n[2])), 2);
        assert_eq!(vg.succ(n[0]), &vec![n[1], c]);
        assert_eq!(vg.succ(c), &vec![n[2]]);
    }
}

#[test]
fn lower_lays_out_the_root() {
    for disable in [true, false] {
        let (mut vg, root, n) = graph(3);
        edge(&mut vg, n[0], n[1], "");
        edge(&mut vg, n[1], n[2], "");
        edge(&mut vg, n[0], n[2], "");
        assert!(vg.lower(disable));
        assert_eq!(vg.num_nodes(), 4);
        assert!(vg.dag.rank_valid_nodes_check(root));
        vg.dag.last_rank_expansion();
        assert_eq!(vg.dag.num_levels(), 3);
        assert_eq!(vg.dag.row(0), &vec![n[0]]);
        assert_eq!(vg.dag.row(1).len(), 2);
        assert!(vg.dag.row(1).contains(&n[1]));
        assert!(vg.dag.row(1).contains(&NodeHandle::new(3)));
        assert_eq!(vg.dag.row(2), &vec![n[2]]);
        // Columns 0 and 1, rows 0 to 2, and a margin of 30 columns.
        assert_eq!(vg.dag.subgraph_box(root), (0, 0, 31, 3));
    }
}

#[test]
fn lower_moves_a_nested_subgraph_under_its_predecessor() {
    for disable in [true, false] {
        let mut vg = VisualGraph::new(Orientation::TopToBottom);
        let root = vg.add_subgraph(Orientation::TopToBottom, "root".to_string(), SubgraphHandle::new(0));
        let inner = vg.add_subgraph(Orientation::TopToBottom, "inner".to_string(), root);
        let a = vg.add_node(boxed("a"), root);
        let x = vg.add_node(boxed("x"), inner);
        let y = vg.add_node(boxed("y"), inner);
        vg.add_edge(arrow(""), x, u(x), y, u(y));
        vg.add_edge(arrow(""), a, u(a), x, UnitHandle::new_subgraph(inner));
        assert!(vg.lower(disable));
        assert_eq!(vg.dag.subgraph_box(inner), (0, 0, 30, 2));
        assert_eq!(vg.dag.subgraph_box(root), (0, 0, 30, 2));
        vg.dag.last_rank_expansion();
        assert_eq!(vg.dag.num_levels(), 3);
        assert_eq!(vg.dag.row(0), &vec![a]);
        assert_eq!(vg.dag.row(1), &vec![x]);
        assert_eq!(vg.dag.row(2), &vec![y]);
    }
}

#[test]
fn lower_of_a_single_node() {
    let (mut vg, root, n) = graph(1);
    assert!(vg.lower(true));
    assert_eq!(vg.dag.row_subgraph(root, 0), &vec![u(n[0])]);
    assert_eq!(vg.dag.subgraph_box(root), (0, 0, 30, 1));
}

#[test]
fn lower_fails_on_a_graph_without_nodes() {
    let (mut vg, _, _) = graph(0);
    assert!(!vg.lower(true));
}

#[test]
fn place_in_order_puts_nodes_below_their_predecessors() {
    let mut dag = DAG::new();
    let root = dag.new_subgraph(SubgraphHandle::new(0));
    let a = dag.new_node(root);
    let b = dag.new_node(root);
    let c = dag.new_node(root);
    dag.add_edge(a, b, u(a), u(b));
    dag.add_edge(a, c, u(a), u(c));
    assert!(dag.place_in_order(root, &vec![u(a), u(b), u(c)]));
    assert_eq!(dag.num_levels_subgraph(root), 2);
    assert_eq!(dag.row_subgraph(root, 0), &vec![u(a)]);
    assert_eq!(dag.row_subgraph(root, 1), &vec![u(b), u(c)]);
    assert_eq!(dag.level_subgraph(u(c)), 1);
    assert_eq!(dag.subgraph_box(root), (0, 0, 31, 2));
    // A unit with no placed predecessor goes to row 0, after the widest row.
    assert!(dag.place_in_order(root, &vec![u(b), u(c), u(a)]));
    assert_eq!(dag.row_subgraph(root, 0), &vec![u(b), u(c), u(a)]);
    assert_eq!(dag.subgraph_box(root), (0, 0, 32, 1));
    assert!(!dag.place_in_order(root, &Vec::new()));
}

#[test]
fn rectangular_subgraph_rows_are_padded() {
    let (mut vg, root, n) = graph(3);
    edge(&mut vg, n[0], n[2], "");
    edge(&mut vg, n[1], n[2], "");
    vg.to_valid_dag();
    vg.dag.recompute_node_ranks(root);
    assert_eq!(vg.dag.row_subgraph(root, 1), &vec![u(n[2])]);
    vg.subgraph_into_rectangular(root);
    assert_eq!(vg.num_nodes(), 4);
    let p = NodeHandle::new(3);
    assert!(matches!(vg.element(p).shape, ShapeKind::Empty));
    // Every row is as wide as the widest.
    assert_eq!(vg.dag.row_subgraph(root, 0), &vec![u(n[0]), u(n[1])]);
    assert_eq!(vg.dag.row_subgraph(root, 1), &vec![u(n[2]), u(p)]);
}

#[test]
fn a_node_sinks_to_just_above_its_successor() {
    let mut dag = DAG::new();
    let root = dag.new_subgraph(SubgraphHandle::new(0));
    let a = dag.new_node(root);
    let b = dag.new_node(root);
    dag.add_edge(a, b, u(a), u(b));
    dag.update_node_rank_level(u(b), 2, None, root);
    let mut opt = RankOptimizer::new(&mut dag);
    assert!(opt.try_to_sink_node(u(a), root));
    assert!(!opt.try_to_sink_node(u(a), root));
    assert_eq!(dag.level_subgraph(u(a)), 1);
}

#[test]
fn rank_optimizer_sinks_sources() {
    let mut dag = DAG::new();
    let root = dag.new_subgraph(SubgraphHandle::new(0));
    let n: Vec<NodeHandle> = (0..5).map(|_| dag.new_node(root)).collect();
    // n0 -> n1 -> n2 -> n3, and n4 -> n3 with n4 a source at the top.
    for (a, b) in [(0, 1), (1, 2), (2, 3), (4, 3)] {
        dag.add_edge(n[a], n[b], u(n[a]), u(n[b]));
    }
    dag.recompute_node_ranks(root);
    assert_eq!(dag.level_subgraph(u(n[4])), 0);
    assert_eq!(dag.level_subgraph(u(n[3])), 3);
    RankOptimizer::new(&mut dag).optimize(root);
    assert_eq!(dag.level_subgraph(u(n[4])), 2);
    assert_eq!(dag.level_subgraph(u(n[3])), 3);
    assert_eq!(dag.level_subgraph(u(n[0])), 0);
}

#[test]
fn perturb_and_rotate_reorder_rows() {
    let mut dag = DAG::new();
    let root = dag.new_subgraph(SubgraphHandle::new(0));
    let mut ns = Vec::new();
    for _ in 0..5 {
        ns.push(dag.new_node(root));
    }
    let mut opt = EdgeCrossOptimizer::new(&mut dag);
    opt.perturb_rank(root);
    opt.rotate_rank(root);
    let expect: Vec<UnitHandle> = [3, 4, 1, 2, 0].iter().map(|&i| u(ns[i])).collect();
    assert_eq!(dag.row_subgraph(root, 0), &expect);
}

#[test]
fn crossing_optimizer_untangles_two_edges() {
    let mut dag = DAG::new();
    let root = dag.new_subgraph(SubgraphHandle::new(0));
    let n: Vec<NodeHandle> = (0..4).map(|_| dag.new_node(root)).collect();
    // n0 -> n3 and n1 -> n2.
    dag.add_edge(n[0], n[3], u(n[0]), u(n[3]));
    dag.add_edge(n[1], n[2], u(n[1]), u(n[2]));
    dag.recompute_node_ranks(root);
    assert!(layout::optimizer::crossing_ready(&dag, root));
    EdgeCrossOptimizer::new(&mut dag).optimize(root);
    let r0 = dag.row_subgraph(root, 0).clone();
    let r1 = dag.row_subgraph(root, 1).clone();
    let pos = |r: &Vec<UnitHandle>, x: NodeHandle| r.iter().position(|&y| y == u(x)).unwrap();
    assert_eq!(r0.len(), 2);
    assert_eq!(r1.len(), 2);
    // The two edges do not cross.
    assert_eq!(pos(&r0, n[0]) < pos(&r0, n[1]), pos(&r1, n[3]) < pos(&r1, n[2]));
}

#[test]
fn placer_holds_the_graph() {
    let (mut vg, _, _) = graph(2);
    let p = Placer::new(&mut vg);
    assert_eq!(p.vg.num_nodes(), 2);
}

#[test]
fn sinking_keeps_edges_down_and_no_longer() {
    let mut dag = DAG::new();
    let root = dag.new_subgraph(SubgraphHandle::new(0));
    let p = dag.new_node(root);
    let x = dag.new_node(root);
    let f1 = dag.new_node(root);
    let f2 = dag.new_node(root);
    dag.add_edge(p, x, u(p), u(x));
    dag.add_edge(x, f1, u(x), u(f1));
    dag.add_edge(x, f2, u(x), u(f2));
    dag.update_node_rank_level(u(x), 1, None, root);
    dag.update_node_rank_level(u(f1), 4, None, root);
    dag.update_node_rank_level(u(f2), 4, None, root);
    let span = |d: &DAG| {
        let lx = d.level_subgraph(u(x)) as i64;
        (lx - d.level_subgraph(u(p)) as i64)
            + (d.level_subgraph(u(f1)) as i64 - lx)
            + (d.level_subgraph(u(f2)) as i64 - lx)
    };
    assert_eq!(span(&dag), 7);
    let mut opt = RankOptimizer::new(&mut dag);
    assert!(opt.try_to_sink_node(u(x), root));
    assert_eq!(dag.level_subgraph(u(x)), 3);
    assert!(dag.level_subgraph(u(p)) < 3 && 3 < dag.level_subgraph(u(f1)));
    assert_eq!(span(&dag), 5);
}

#[test]
fn a_node_level_is_its_longest_path() {
    let mut dag = DAG::new();
    let root = dag.new_subgraph(SubgraphHandle::new(0));
    let n: Vec<NodeHandle> = (0..4).map(|_| dag.new_node(root)).collect();
    // n0 -> n3 directly, and n0 -> n1 -> n2 -> n3.
    for (a, b) in [(0, 3), (0, 1), (1, 2), (2, 3)] {
        dag.add_edge(n[a], n[b], u(n[a]), u(n[b]));
    }
    dag.recompute_node_ranks(root);
    assert_eq!(dag.level_subgraph(u(n[0])), 0);
    assert_eq!(dag.level_subgraph(u(n[1])), 1);
    assert_eq!(dag.level_subgraph(u(n[2])), 2);
    assert_eq!(dag.level_subgraph(u(n[3])), 3);
}
