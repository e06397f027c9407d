use algorithms::graph::{
    dfs_finish_ord, dfs_finish_time, has_id, irrel, Direction, Graph, Node, Visit,
};
use std::collections::VecDeque;

#[test]
fn test_toposort_dfs() {
    // A simple graph with 4 vertices
    let mut graph: Graph<usize> = Graph::new();
    graph.add_edge(1, 2);
    graph.add_edge(1, 3);
    graph.add_edge(3, 4);
    graph.add_edge(2, 4);
    let trajectories: Vec<VecDeque<usize>> = vec![
        vec![1, 2, 3, 4],
        vec![1, 3, 2, 4],
        vec![4, 1, 2, 3],
        vec![2, 3, 1, 4],
    ]
    .into_iter()
    .map(|v| v.into_iter().collect())
    .collect();

    for trajectory in trajectories {
        let (_, processed) = dfs_finish_ord(&mut graph, &trajectory, Direction::Outgoing, irrel);
        assert!(processed.get(&1).unwrap() == &0);
        assert!(processed.get(&2).unwrap() == &1 || processed.get(&3).unwrap() == &1);
        assert!(processed.get(&2).unwrap() == &2 || processed.get(&3).unwrap() == &2);
        assert!(processed.get(&4).unwrap() == &3);
    }
}

#[test]
fn test_toposort_dfs_terminates() {
    // Cyclic graph with 3 nodes
    let mut graph: Graph<usize> = Graph::new();
    graph.add_edge(1, 2);
    graph.add_edge(2, 3);
    graph.add_edge(3, 1);
    let trajectory: VecDeque<usize> = graph.nodes.keys().cloned().collect();
    let (result, _) = dfs_finish_ord(&mut graph, &trajectory, Direction::Outgoing, irrel);
    assert!(result.is_none());
}

#[test]
fn node_new_starts_unvisited() {
    let node = Node::new(7usize, vec![1, 2], vec![3]);
    assert_eq!(node.id, 7);
    assert_eq!(node.edges, vec![1, 2]);
    assert_eq!(node.inverse_edges, vec![3]);
    assert_eq!(node.state, Visit::Unvisited);
    assert_eq!(irrel(&node), None);
}

#[test]
fn add_node_is_idempotent() {
    let mut graph: Graph<usize> = Graph::new();
    graph.add_node(&5);
    graph.add_edge(5, 6);
    graph.add_node(&5);
    graph.new_node(6);
    assert_eq!(graph.nodes.len(), 2);
    assert_eq!(graph.nodes.get(&5).unwrap().edges, vec![6]);
    assert_eq!(graph.nodes.get(&6).unwrap().inverse_edges, vec![5]);
    assert!(graph.nodes.get(&6).unwrap().edges.is_empty());
}

#[test]
fn add_edge_records_self_loops_and_repeats() {
    let mut graph: Graph<usize> = Graph::new();
    graph.add_edge(1, 1);
    graph.add_edge(1, 2);
    graph.add_edge(1, 2);
    assert_eq!(graph.nodes.len(), 2);
    assert_eq!(graph.nodes.get(&1).unwrap().edges, vec![1, 2, 2]);
    assert_eq!(graph.nodes.get(&1).unwrap().inverse_edges, vec![1]);
    assert_eq!(graph.nodes.get(&2).unwrap().inverse_edges, vec![1, 1]);
    assert_eq!(graph.nodes.get(&1).unwrap().id, 1);
}

#[test]
fn finish_times_of_a_chain() {
    let mut graph: Graph<u32> = Graph::new();
    graph.add_edge(10, 20);
    graph.add_edge(20, 30);
    let trajectory: VecDeque<u32> = vec![10, 20, 30].into_iter().collect();
    let (found, times) = dfs_finish_time(&mut graph, &trajectory, Direction::Outgoing, irrel);
    assert!(found.is_none());
    assert_eq!(times.len(), 3);
    assert_eq!(times.get(&30), Some(&0));
    assert_eq!(times.get(&20), Some(&1));
    assert_eq!(times.get(&10), Some(&2));
    let (_, back) = dfs_finish_time(&mut graph, &trajectory, Direction::Incoming, irrel);
    assert_eq!(back.get(&10), Some(&0));
    assert_eq!(back.get(&20), Some(&1));
    assert_eq!(back.get(&30), Some(&2));
}

#[test]
fn finish_order_is_a_permutation() {
    let mut graph: Graph<usize> = Graph::new();
    for (from, to) in [(1, 2), (2, 3), (3, 1), (3, 4), (5, 4), (6, 6), (4, 7), (7, 4)] {
        graph.add_edge(from, to);
    }
    let trajectory: VecDeque<usize> = graph.nodes.keys().cloned().collect();
    let (_, order) = dfs_finish_ord(&mut graph, &trajectory, Direction::Outgoing, irrel);
    let mut values: Vec<i64> = order.values().cloned().collect();
    values.sort();
    assert_eq!(values, vec![0, 1, 2, 3, 4, 5, 6]);
}

#[test]
fn partial_trajectory_reaches_what_it_can() {
    let mut graph: Graph<usize> = Graph::new();
    graph.add_edge(1, 2);
    graph.add_edge(3, 1);
    let trajectory: VecDeque<usize> = vec![1].into_iter().collect();
    let (_, times) = dfs_finish_time(&mut graph, &trajectory, Direction::Outgoing, irrel);
    assert_eq!(times.len(), 2);
    assert_eq!(times.get(&2), Some(&0));
    assert_eq!(times.get(&1), Some(&1));
    assert!(times.get(&3).is_none());
    let (_, order) = dfs_finish_ord(&mut graph, &trajectory, Direction::Outgoing, irrel);
    assert_eq!(order.get(&2), Some(&2));
    assert_eq!(order.get(&1), Some(&1));
    assert_eq!(graph.state_of(&3), Visit::Unvisited);
    assert_eq!(graph.state_of(&1), Visit::Finished);
}

#[test]
fn empty_trajectory_finishes_nothing() {
    let mut graph: Graph<usize> = Graph::new();
    graph.add_edge(1, 2);
    let trajectory: VecDeque<usize> = VecDeque::new();
    let (found, times) = dfs_finish_time(&mut graph, &trajectory, Direction::Outgoing, irrel);
    assert!(found.is_none());
    assert!(times.is_empty());
}

fn is_two(node: &Node<usize>) -> Option<usize> {
    if node.id == 2 {
        Some(node.edges.len())
    } else {
        None
    }
}

#[test]
fn search_stops_the_traversal() {
    let mut graph: Graph<usize> = Graph::new();
    graph.add_edge(1, 2);
    graph.add_edge(2, 3);
    graph.add_edge(4, 1);
    let trajectory: VecDeque<usize> = vec![1, 4].into_iter().collect();
    let (found, times) = dfs_finish_time(&mut graph, &trajectory, Direction::Outgoing, is_two);
    assert_eq!(found, Some(1));
    assert_eq!(times.len(), 2);
    assert_eq!(times.get(&3), Some(&0));
    assert_eq!(times.get(&2), Some(&1));
    assert_eq!(graph.state_of(&1), Visit::Discovered);
    assert_eq!(graph.state_of(&4), Visit::Unvisited);
}

#[test]
fn traversals_start_afresh() {
    let mut graph: Graph<usize> = Graph::new();
    graph.add_edge(1, 2);
    graph.add_edge(2, 1);
    let trajectory: VecDeque<usize> = vec![2, 1].into_iter().collect();
    let (_, first) = dfs_finish_time(&mut graph, &trajectory, Direction::Outgoing, irrel);
    let (_, second) = dfs_finish_time(&mut graph, &trajectory, Direction::Outgoing, irrel);
    assert_eq!(first, second);
    assert_eq!(first.get(&1), Some(&0));
    graph.reset_visits();
    assert_eq!(graph.state_of(&1), Visit::Unvisited);
    graph.set_state(&1, Visit::Discovered);
    assert_eq!(graph.state_of(&1), Visit::Discovered);
    assert_eq!(graph.state_of(&2), Visit::Unvisited);
}

#[test]
fn from_nodes_keeps_the_table() {
    let mut built: Graph<usize> = Graph::new();
    built.add_edge(1, 2);
    let graph = Graph::from_nodes(built.nodes);
    assert_eq!(graph.nodes.len(), 2);
}

#[test]
fn well_formed_graphs_are_told_apart() {
    let mut graph: Graph<usize> = Graph::new();
    assert!(graph.is_well_formed());
    graph.add_edge(1, 2);
    graph.add_edge(2, 2);
    graph.add_edge(1, 2);
    assert!(graph.is_well_formed());
    // an edge to a node that is not there
    graph.nodes.get_mut(&1).unwrap().edges.push(9);
    assert!(!graph.is_well_formed());
    graph.nodes.get_mut(&1).unwrap().edges.pop();
    assert!(graph.is_well_formed());
    // an edge that its target does not know of
    graph.nodes.get_mut(&2).unwrap().edges.push(1);
    assert!(!graph.is_well_formed());
    graph.nodes.get_mut(&1).unwrap().inverse_edges.push(2);
    assert!(graph.is_well_formed());
    // a node filed under another number
    graph.nodes.get_mut(&1).unwrap().id = 3;
    assert!(!graph.is_well_formed());
    assert!(has_id(&vec![4, 5], 5));
    assert!(!has_id(&vec![4, 5], 6));
}
