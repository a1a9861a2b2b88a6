use layout::dag::{DAG, find_common_subgraph};
use layout::handles::{NodeHandle, SubgraphHandle, UnitHandle};
use layout::rank::TraverseRank;
use layout::unit_map::UnitMap;

fn node(i: usize) -> NodeHandle {
    NodeHandle::new(i)
}

fn unode(i: usize) -> UnitHandle {
    UnitHandle::new_node(NodeHandle::new(i))
}

/// A dag with a root subgraph and `n` nodes in it.
fn dag_with_nodes(n: usize) -> (DAG, SubgraphHandle) {
    let mut dag = DAG::new();
    let root = dag.new_subgraph(SubgraphHandle::new(0));
    for _ in 0..n {
        dag.new_node(root);
    }
    (dag, root)
}

fn link(dag: &mut DAG, a: usize, b: usize) {
    dag.add_edge(node(a), node(b), unode(a), unode(b));
}

#[test]
fn new_dag_is_empty() {
    let dag = DAG::new();
    assert_eq!(dag.len(), 0);
    assert!(dag.is_empty());
    let d: DAG = Default::default();
    assert!(d.is_empty());
    assert_eq!(d.num_levels(), 0);
}

#[test]
fn new_node_joins_row_zero_of_its_subgraph() {
    let (dag, root) = dag_with_nodes(3);
    assert_eq!(dag.len(), 3);
    assert!(!dag.is_empty());
    assert_eq!(dag.num_levels_subgraph(root), 1);
    assert_eq!(dag.row_subgraph(root, 0), &vec![unode(0), unode(1), unode(2)]);
    assert_eq!(dag.level_subgraph(unode(1)), 0);
    assert_eq!(dag.parent_subgraph_idx(node(2)), root);
    assert_eq!(dag.subgraph_from_unit_handle(unode(2)), root);
}

#[test]
fn nested_subgraph_is_a_unit_of_its_parent() {
    let mut dag = DAG::new();
    let root = dag.new_subgraph(SubgraphHandle::new(0));
    let inner = dag.new_subgraph(root);
    assert_eq!(inner.get_index(), 1);
    assert_eq!(dag.subgraph_from_unit_handle(UnitHandle::new_subgraph(inner)), root);
    assert_eq!(dag.row_subgraph(root, 0), &vec![UnitHandle::new_subgraph(inner)]);
    let n = dag.new_node(inner);
    assert_eq!(dag.parent_subgraph_idx(n), inner);
    assert_eq!(dag.num_levels_subgraph(inner), 1);
}

#[test]
fn edges_are_listed_both_ways() {
    let (mut dag, _) = dag_with_nodes(3);
    link(&mut dag, 0, 1);
    link(&mut dag, 0, 2);
    assert_eq!(dag.successors(node(0)), &vec![node(1), node(2)]);
    assert_eq!(dag.predecessors(node(2)), &vec![node(0)]);
    assert_eq!(dag.successors_u(unode(0)), vec![unode(1), unode(2)]);
    assert_eq!(dag.predecessors_u(unode(1)), vec![unode(0)]);
    assert_eq!(dag.single_pred(node(1)), Some(node(0)));
    assert_eq!(dag.single_succ(node(0)), None);
    assert_eq!(dag.single_succ(node(1)), None);
    assert_eq!(dag.single_pred(node(0)), None);
}

#[test]
fn remove_edge_reports_whether_it_removed() {
    let (mut dag, _) = dag_with_nodes(2);
    link(&mut dag, 0, 1);
    link(&mut dag, 0, 1);
    assert!(dag.remove_edge(node(0), node(1)));
    assert_eq!(dag.successors(node(0)), &vec![node(1)]);
    assert!(dag.remove_edge(node(0), node(1)));
    assert!(!dag.remove_edge(node(0), node(1)));
    assert!(dag.successors(node(0)).is_empty());
    assert!(dag.predecessors(node(1)).is_empty());
}

#[test]
fn reachability_follows_paths() {
    let (mut dag, _) = dag_with_nodes(4);
    link(&mut dag, 0, 1);
    link(&mut dag, 1, 2);
    assert!(dag.is_reachable(node(0), node(2)));
    assert!(dag.is_reachable(node(1), node(1)));
    assert!(!dag.is_reachable(node(2), node(0)));
    assert!(!dag.is_reachable(node(0), node(3)));
    assert!(dag.is_reachable_u(unode(0), unode(2)));
    assert!(!dag.is_reachable_u(unode(3), unode(0)));
}

#[test]
fn checks_pass_on_an_acyclic_dag() {
    let (mut dag, _) = dag_with_nodes(3);
    link(&mut dag, 0, 1);
    link(&mut dag, 1, 2);
    assert!(dag.checks_pass());
    dag.verify();
}

#[test]
fn checks_fail_on_a_cycle() {
    let (mut dag, _) = dag_with_nodes(2);
    link(&mut dag, 0, 1);
    link(&mut dag, 1, 0);
    assert!(!dag.checks_pass());
    dag.set_validate(false);
    assert!(dag.checks_pass());
}

#[test]
fn new_nodes_adds_nodes_in_the_root() {
    let (mut dag, root) = dag_with_nodes(1);
    dag.new_nodes(2);
    assert_eq!(dag.len(), 3);
    assert_eq!(dag.parent_subgraph_idx(node(2)), root);
    let mut seen = Vec::new();
    let mut it = dag.iter();
    while let Some(n) = it.next() {
        seen.push(n);
    }
    assert_eq!(seen, vec![node(0), node(1), node(2)]);
}

#[test]
fn recompute_places_each_node_below_its_predecessors() {
    let (mut dag, root) = dag_with_nodes(3);
    link(&mut dag, 0, 1);
    link(&mut dag, 1, 2);
    link(&mut dag, 0, 2);
    dag.recompute_node_ranks(root);
    assert_eq!(dag.num_levels_subgraph(root), 3);
    assert_eq!(dag.level_subgraph(unode(0)), 0);
    assert_eq!(dag.level_subgraph(unode(1)), 1);
    assert_eq!(dag.level_subgraph(unode(2)), 2);
    assert_eq!(dag.row_subgraph(root, 1), &vec![unode(1)]);
}

#[test]
fn update_node_rank_level_moves_a_node() {
    let (mut dag, root) = dag_with_nodes(3);
    dag.update_node_rank_level(unode(2), 2, None, root);
    assert_eq!(dag.num_levels_subgraph(root), 3);
    assert_eq!(dag.level_subgraph(unode(2)), 2);
    assert_eq!(dag.row_subgraph(root, 2), &vec![unode(2)]);
    assert_eq!(dag.row_subgraph(root, 1), &Vec::<UnitHandle>::new());
    assert_eq!(dag.row_subgraph(root, 0), &vec![unode(0), unode(1)]);
    // The node leaves its old row and goes just before the marker.
    dag.update_node_rank_level(unode(1), 2, Some(unode(2)), root);
    assert_eq!(dag.row_subgraph(root, 2), &vec![unode(1), unode(2)]);
    assert_eq!(dag.row_subgraph(root, 0), &vec![unode(0)]);
}

#[test]
fn last_rank_expansion_copies_the_root_rank() {
    let (mut dag, root) = dag_with_nodes(3);
    link(&mut dag, 0, 1);
    link(&mut dag, 0, 2);
    dag.recompute_node_ranks(root);
    dag.last_rank_expansion();
    assert_eq!(dag.num_levels(), 2);
    assert_eq!(dag.row(0), &vec![node(0)]);
    assert_eq!(dag.level(node(2)), 1);
    assert!(dag.is_first_in_row(node(0), 0));
    assert!(dag.is_last_in_row(node(0), 0));
    assert!(!dag.is_first_in_row(node(0), 1));
    assert!(!dag.is_last_in_row(node(0), 5));
}

#[test]
fn common_subgraph_of_two_paths() {
    let s = |i: usize| SubgraphHandle::new(i);
    let (a, b) = find_common_subgraph(&vec![s(0), s(1), s(2)], node(7), &vec![s(0), s(1), s(3)], node(8));
    assert_eq!(a, UnitHandle::new_subgraph(s(2)));
    assert_eq!(b, UnitHandle::new_subgraph(s(3)));
    let (a, b) = find_common_subgraph(&vec![s(0), s(1)], node(7), &vec![s(0), s(1), s(3)], node(8));
    assert_eq!(a, unode(7));
    assert_eq!(b, UnitHandle::new_subgraph(s(3)));
    let (a, b) = find_common_subgraph(&vec![s(0)], node(7), &vec![s(0)], node(8));
    assert_eq!(a, unode(7));
    assert_eq!(b, unode(8));
}

#[test]
fn location_follows_the_first_placed_predecessor() {
    let (mut dag, root) = dag_with_nodes(3);
    link(&mut dag, 0, 2);
    link(&mut dag, 1, 2);
    let mut placed: UnitMap<Option<(usize, usize)>> = UnitMap::new();
    // No predecessor is placed: row 0, after the widest row.
    assert_eq!(dag.determine_loc_nodehandle(root, unode(2), &placed), (3, 0));
    placed.insert(unode(0), None);
    placed.insert(unode(1), Some((0, 4)));
    // Node 1 is the first placed predecessor, in row 4.
    assert_eq!(dag.determine_loc_nodehandle(root, unode(2), &placed), (0, 5));
    assert_eq!(dag.num_levels_subgraph(root), 6);
}

#[test]
fn traverse_rank_rows_and_levels() {
    let mut rank = TraverseRank::new();
    assert_eq!(rank.height(), 0);
    assert_eq!(rank.width(), 0);
    rank.push_row(Vec::new());
    rank.push_row(Vec::new());
    rank.push(0, unode(1), false);
    rank.push(0, unode(2), true);
    rank.push(1, unode(3), false);
    assert_eq!(rank.row(0), &vec![unode(2), unode(1)]);
    assert_eq!(rank.level(unode(3)), 1);
    rank.insert_before(1, unode(4), unode(3), false);
    assert_eq!(rank.row(1), &vec![unode(3), unode(4)]);
    assert_eq!(rank.width(), 2);
    assert_eq!(rank.height(), 2);
    let copy = rank.duplicate();
    assert_eq!(copy.row(1), rank.row(1));
    rank.clear();
    assert_eq!(rank.height(), 0);
}

#[test]
fn unit_map_insert_and_get() {
    let mut m: UnitMap<usize> = UnitMap::new();
    assert!(!m.contains(unode(3)));
    m.insert(unode(3), 7);
    m.insert(UnitHandle::new_subgraph(SubgraphHandle::new(3)), 9);
    assert_eq!(m.get(unode(3)), Some(7));
    assert_eq!(m.get(UnitHandle::new_subgraph(SubgraphHandle::new(3))), Some(9));
    assert_eq!(m.get(unode(2)), None);
    m.clear();
    assert!(!m.contains(unode(3)));
}

#[test]
fn handles_keep_their_index() {
    assert_eq!(NodeHandle::new(5).get_index(), 5);
    assert_eq!(NodeHandle::from(6).get_index(), 6);
    assert_eq!(SubgraphHandle::new(2).get_index(), 2);
    assert_eq!(UnitHandle::new_node(NodeHandle::new(1)), UnitHandle::Node(NodeHandle::new(1)));
}
