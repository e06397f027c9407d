use algorithms::graph::{Direction, Graph};
use algorithms::kosaraju::{dfs_scc, kosaraju};
use std::collections::VecDeque;

fn sizes(sccs: &[Graph<usize>]) -> Vec<usize> {
    let mut sorted = sccs.iter().map(|x| x.nodes.len()).collect::<Vec<usize>>();
    sorted.sort();
    sorted
}

fn members(sccs: &[Graph<usize>]) -> Vec<Vec<usize>> {
    let mut parts: Vec<Vec<usize>> = sccs
        .iter()
        .map(|g| {
            let mut ids: Vec<usize> = g.nodes.keys().cloned().collect();
            ids.sort();
            ids
        })
        .collect();
    parts.sort();
    parts
}

#[test]
fn test_orion_is_scc_2() {
    let mut graph: Graph<usize> = Graph::new();
    graph.add_edge(2, 1);
    graph.add_edge(1, 3);
    graph.add_edge(3, 4);
    graph.add_edge(4, 2);
    graph.add_edge(5, 4);
    let sccs = kosaraju(&mut graph);
    let mut outcome_sorted = sccs.iter().map(|x| x.nodes.len()).collect::<Vec<usize>>();
    outcome_sorted.sort();
    let outcome = outcome_sorted.into_iter().rev().collect::<Vec<usize>>();
    assert_eq!(outcome, vec![4, 1])
}

#[test]
fn test_8_16() {
    let mut graph: Graph<usize> = Graph::new();
    graph.add_edge(1, 3);
    graph.add_edge(2, 4);
    graph.add_edge(2, 10);
    graph.add_edge(3, 5);
    graph.add_edge(3, 11);
    graph.add_edge(4, 7);
    graph.add_edge(5, 1);
    graph.add_edge(5, 7);
    graph.add_edge(5, 9);
    graph.add_edge(6, 10);
    graph.add_edge(7, 9);
    graph.add_edge(8, 6);
    graph.add_edge(9, 2);
    graph.add_edge(9, 4);
    graph.add_edge(9, 8);
    graph.add_edge(10, 8);
    graph.add_edge(11, 6);
    graph.add_edge(11, 8);
    let sccs = kosaraju(&mut graph);
    assert_eq!(sccs.len(), 4);
    let mut outcome_sorted = sccs.iter().map(|x| x.nodes.len()).collect::<Vec<usize>>();
    outcome_sorted.sort();
    assert_eq!(outcome_sorted, vec![1, 3, 3, 4]);
}

#[test]
fn test_you_got_me_well_on_a_bidirectional_node() {
    let mut graph: Graph<usize> = Graph::new();
    graph.add_edge(1, 2);
    graph.add_edge(2, 1);
    let sccs = kosaraju(&mut graph);
    assert_eq!(sccs.len(), 1);
    assert_eq!(sccs[0].nodes.len(), 2);
}

#[test]
fn test_complex_bidirectional() {
    let mut graph: Graph<usize> = Graph::new();
    graph.add_edge(1, 2);
    graph.add_edge(2, 3);
    graph.add_edge(3, 1);
    graph.add_edge(1, 3);
    graph.add_edge(3, 4);
    graph.add_edge(4, 3);
    graph.add_edge(4, 4);
    graph.add_edge(4, 5);
    graph.add_edge(5, 4);
    let sccs = kosaraju(&mut graph);
    assert_eq!(sccs.len(), 1);
}

#[test]
fn triangle_is_one_component() {
    let mut graph: Graph<usize> = Graph::new();
    graph.add_edge(1, 2);
    graph.add_edge(2, 3);
    graph.add_edge(3, 1);
    let sccs = kosaraju(&mut graph);
    assert_eq!(sizes(&sccs), vec![3]);
    assert_eq!(members(&sccs), vec![vec![1, 2, 3]]);
}

#[test]
fn dag_has_singleton_components() {
    let mut graph: Graph<usize> = Graph::new();
    graph.add_edge(1, 2);
    graph.add_edge(1, 3);
    graph.add_edge(2, 4);
    graph.add_edge(3, 4);
    let sccs = kosaraju(&mut graph);
    assert_eq!(sizes(&sccs), vec![1, 1, 1, 1]);
    assert_eq!(members(&sccs), vec![vec![1], vec![2], vec![3], vec![4]]);
}

#[test]
fn components_hold_nodes_without_edges() {
    let mut graph: Graph<usize> = Graph::new();
    graph.add_edge(1, 2);
    graph.add_edge(2, 1);
    graph.add_edge(2, 3);
    let sccs = kosaraju(&mut graph);
    for scc in &sccs {
        for (id, node) in scc.nodes.iter() {
            assert_eq!(&node.id, id);
            assert!(node.edges.is_empty());
            assert!(node.inverse_edges.is_empty());
        }
    }
    // the graph itself keeps its edges
    assert_eq!(graph.nodes.get(&2).unwrap().edges, vec![1, 3]);
}

#[test]
fn sizes_add_up_to_the_node_count() {
    let mut graph: Graph<usize> = Graph::new();
    for (from, to) in [(1, 2), (2, 3), (3, 1), (3, 4), (4, 5), (5, 4), (6, 7), (8, 8), (9, 1)] {
        graph.add_edge(from, to);
    }
    let sccs = kosaraju(&mut graph);
    let total: usize = sccs.iter().map(|g| g.nodes.len()).sum();
    assert_eq!(total, graph.nodes.len());
    assert_eq!(total, 9);
    let mut all: Vec<usize> = sccs.iter().flat_map(|g| g.nodes.keys().cloned()).collect();
    all.sort();
    assert_eq!(all, vec![1, 2, 3, 4, 5, 6, 7, 8, 9]);
    assert_eq!(
        members(&sccs),
        vec![vec![1, 2, 3], vec![4, 5], vec![6], vec![7], vec![8], vec![9]]
    );
}

#[test]
fn second_run_gives_the_same_components() {
    let mut graph: Graph<usize> = Graph::new();
    for (from, to) in [(1, 2), (2, 1), (2, 3), (3, 4), (4, 3), (5, 5)] {
        graph.add_edge(from, to);
    }
    let first = kosaraju(&mut graph);
    let second = kosaraju(&mut graph);
    assert_eq!(first.len(), second.len());
    assert_eq!(members(&first), members(&second));
    assert_eq!(members(&first), vec![vec![1, 2], vec![3, 4], vec![5]]);
}

#[test]
fn self_loop_alone_is_a_singleton() {
    let mut graph: Graph<usize> = Graph::new();
    graph.add_edge(1, 1);
    graph.add_edge(2, 1);
    graph.add_edge(2, 1);
    let sccs = kosaraju(&mut graph);
    assert_eq!(members(&sccs), vec![vec![1], vec![2]]);
}

#[test]
fn empty_graph_has_no_components() {
    let mut graph: Graph<usize> = Graph::new();
    let sccs = kosaraju(&mut graph);
    assert!(sccs.is_empty());
}

#[test]
fn trees_follow_the_trajectory() {
    // 1 -> 2 -> 3, roots taken as 2, 1, 3
    let mut graph: Graph<usize> = Graph::new();
    graph.add_edge(1, 2);
    graph.add_edge(2, 3);
    let trajectory: VecDeque<usize> = vec![2, 1, 3].into_iter().collect();
    let trees = dfs_scc(&mut graph, &trajectory, Direction::Outgoing);
    assert_eq!(trees.len(), 2);
    let mut first: Vec<usize> = trees[0].nodes.keys().cloned().collect();
    first.sort();
    assert_eq!(first, vec![2, 3]);
    let second: Vec<usize> = trees[1].nodes.keys().cloned().collect();
    assert_eq!(second, vec![1]);
    let against = dfs_scc(&mut graph, &trajectory, Direction::Incoming);
    assert_eq!(against.len(), 2);
    let mut up: Vec<usize> = against[0].nodes.keys().cloned().collect();
    up.sort();
    assert_eq!(up, vec![1, 2]);
}
