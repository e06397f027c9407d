use algorithms::graph::Graph;
use algorithms::loader::{is_blank_byte, parse_line, parse_number, MalformedInputError, Shape};

#[test]
fn edge_list_is_read_line_by_line() {
    let mut graph: Graph<usize> = Graph::new();
    assert_eq!(graph.load_from_edge_list("1 2\n2 3\n3 1\n"), Ok(()));
    assert_eq!(graph.nodes.len(), 3);
    assert_eq!(graph.nodes.get(&1).unwrap().edges, vec![2]);
    assert_eq!(graph.nodes.get(&1).unwrap().inverse_edges, vec![3]);
    assert_eq!(graph.nodes.get(&3).unwrap().edges, vec![1]);
}

#[test]
fn edge_list_takes_tabs_carriage_returns_and_no_final_line_feed() {
    let mut graph: Graph<usize> = Graph::new();
    assert_eq!(graph.load_from_edge_list("  7\t8 \r\n+9   007"), Ok(()));
    assert_eq!(graph.nodes.len(), 3);
    assert_eq!(graph.nodes.get(&7).unwrap().edges, vec![8]);
    assert_eq!(graph.nodes.get(&9).unwrap().edges, vec![7]);
    assert_eq!(graph.nodes.get(&7).unwrap().inverse_edges, vec![9]);
}

#[test]
fn malformed_line_stops_the_load() {
    let mut graph: Graph<usize> = Graph::new();
    let done = graph.load_from_edge_list("1 2\n3 x\n5 6\n");
    assert_eq!(done, Err(MalformedInputError { line: 1 }));
    // what came before the bad line is there, what comes after is not
    assert_eq!(graph.nodes.len(), 2);
    assert!(graph.nodes.get(&5).is_none());
    let mut other: Graph<usize> = Graph::new();
    assert_eq!(other.load_from_edge_list("1 2\n\n3 4\n"), Err(MalformedInputError { line: 1 }));
    assert_eq!(other.load_from_edge_list("4\n"), Err(MalformedInputError { line: 0 }));
    assert_eq!(other.load_from_edge_list("1 -2\n"), Err(MalformedInputError { line: 0 }));
    assert_eq!(other.load_from_edge_list("1 2 three\n"), Err(MalformedInputError { line: 0 }));
    assert_eq!(other.load_from_edge_list(""), Ok(()));
}

#[test]
fn extra_numbers_on_an_edge_line_are_not_used() {
    let mut graph: Graph<usize> = Graph::new();
    assert_eq!(graph.load(" 1 2 3 4", Shape::Pairs), Ok(()));
    assert_eq!(graph.nodes.len(), 2);
}

#[test]
fn adjacency_lists_name_a_node_and_its_targets() {
    let mut graph: Graph<usize> = Graph::new();
    assert_eq!(graph.load_from_adjacency_lists("1\t2\t3\n2\t1\n4\n"), Ok(()));
    assert_eq!(graph.nodes.len(), 4);
    assert_eq!(graph.nodes.get(&1).unwrap().edges, vec![2, 3]);
    assert_eq!(graph.nodes.get(&1).unwrap().inverse_edges, vec![2]);
    assert!(graph.nodes.get(&4).unwrap().edges.is_empty());
    assert_eq!(
        graph.load_from_adjacency_lists("5 6\n \n"),
        Err(MalformedInputError { line: 1 })
    );
    assert!(graph.add_line(Shape::Lists, &vec![9]));
    assert!(!graph.add_line(Shape::Lists, &vec![]));
    assert!(!graph.add_line(Shape::Pairs, &vec![9]));
    assert_eq!(graph.nodes.len(), 7);
}

#[test]
fn numbers_are_decimal_and_fit() {
    let text = b"12 +7 + 1a 18446744073709551615 18446744073709551616 00";
    assert_eq!(parse_number(text, 0, 2), Some(12));
    assert_eq!(parse_number(text, 3, 5), Some(7));
    assert_eq!(parse_number(text, 6, 7), None);
    assert_eq!(parse_number(text, 8, 10), None);
    assert_eq!(parse_number(text, 11, 31), Some(usize::MAX));
    assert_eq!(parse_number(text, 32, 52), None);
    assert_eq!(parse_number(text, 53, 55), Some(0));
    assert_eq!(parse_number(text, 4, 4), None);
    assert_eq!(parse_line(text, 0, 5), Some(vec![12, 7]));
    assert_eq!(parse_line(text, 0, 10), None);
    assert_eq!(parse_line(text, 2, 3), Some(vec![]));
    assert!(is_blank_byte(b' ') && is_blank_byte(b'\n') && !is_blank_byte(b'0'));
}

#[test]
fn loaded_graph_decomposes() {
    let mut graph: Graph<usize> = Graph::new();
    graph.load_from_edge_list("1 2\n2 1\n2 3\n").unwrap();
    let sccs = algorithms::kosaraju::kosaraju(&mut graph);
    let mut sizes: Vec<usize> = sccs.iter().map(|g| g.nodes.len()).collect();
    sizes.sort();
    assert_eq!(sizes, vec![1, 2]);
}
