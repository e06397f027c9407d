use algorithms::karger::{is_removed, neighbours_of, Graph, Node};

fn triangle_graph() -> Graph {
    let mut graph = Graph::new();
    graph.nodes.push(Node { id: 0, edges: vec![1, 2] });
    graph.nodes.push(Node { id: 1, edges: vec![0, 2] });
    graph.nodes.push(Node { id: 2, edges: vec![0, 1] });
    graph
}

#[test]
fn triangle() {
    let graph = triangle_graph();
    let mut rng = rand::thread_rng();
    let (min, a, b) = graph.clone().min_cut(&mut rng);
    assert_eq!(min, 2);
    assert!((a.len() == 1 && b.len() == 2) || (a.len() == 2 && b.len() == 1));
    let mut triangle_from_text = Graph::new();
    triangle_from_text.load_from_text("1 2 3\n2 1 3\n3 1 2\n").unwrap();
    // the graph read from text should be the same as graph:
    assert_eq!(triangle_from_text, graph.clone());
}

#[test]
fn contraction_merges_and_renames() {
    // a square 0-1-2-3 with the diagonal 0-2
    let mut graph = Graph::new();
    graph.load_from_text("1 2 4 3\n2 1 3\n3 2 4 1\n4 3 1\n").unwrap();
    assert!(graph.is_valid());
    assert_eq!(graph.live_nodes(), vec![0, 1, 2, 3]);
    graph.contract(0, 2);
    assert_eq!(graph.nodes[0].edges, vec![1, 3, 1, 3]);
    assert!(graph.nodes[2].edges.is_empty());
    assert_eq!(graph.nodes[1].edges, vec![0, 0]);
    assert_eq!(graph.nodes[3].edges, vec![0, 0]);
    assert_eq!(graph.live_nodes(), vec![0, 1, 3]);
    assert!(graph.is_valid());
}

#[test]
fn two_squares_joined_by_two_edges() {
    // nodes 0..3 and 4..7 are complete graphs; 0-4 and 1-5 join them
    let mut graph = Graph::new();
    for id in 0..8usize {
        let base = id / 4 * 4;
        let mut edges: Vec<usize> = (base..base + 4).filter(|other| *other != id).collect();
        match id {
            0 => edges.push(4),
            4 => edges.push(0),
            1 => edges.push(5),
            5 => edges.push(1),
            _ => {}
        }
        graph.nodes.push(Node { id, edges });
    }
    let mut rng = rand::thread_rng();
    let mut min = usize::MAX;
    for _ in 0..200 {
        let mut run = graph.clone();
        let (cut, removed, retained) = run.min_cut(&mut rng);
        assert_eq!(removed.len(), 6);
        assert_eq!(retained.len(), 2);
        let mut all: Vec<usize> = removed.iter().chain(retained.iter()).cloned().collect();
        all.sort();
        assert_eq!(all, vec![0, 1, 2, 3, 4, 5, 6, 7]);
        assert!(cut >= 2);
        min = min.min(cut);
    }
    assert_eq!(min, 2);
}

#[test]
fn a_graph_without_edges_is_left_alone() {
    let mut graph = Graph::new();
    graph.load_from_text("1\n2\n3\n").unwrap();
    let mut rng = rand::thread_rng();
    let (cut, removed, retained) = graph.min_cut(&mut rng);
    assert_eq!(cut, 0);
    assert!(removed.is_empty());
    assert_eq!(retained, vec![0, 1, 2]);
}

#[test]
fn malformed_adjacency_is_refused() {
    let mut graph = Graph::new();
    assert!(graph.load_from_text("1 2\nx 1\n").is_err());
    assert_eq!(graph.nodes.len(), 1);
    assert!(Graph::new().load_from_text("1 0\n").is_err());
    assert!(Graph::new().load_from_text("\n").is_err());
    assert_eq!(neighbours_of(&vec![9, 3, 1]), Some(vec![2, 0]));
    assert_eq!(neighbours_of(&vec![]), None);
    assert!(is_removed(&vec![3, 1], 1));
    assert!(!is_removed(&vec![3, 1], 2));
    let mut dangling = Graph::new();
    dangling.load_from_text("1 5\n").unwrap();
    assert!(!dangling.is_valid());
}
