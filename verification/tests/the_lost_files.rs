use algorithms::codingame::puzzle::the_lost_files::{
    mut_register_edge, solve, world_to_adj_list_graph, Continents, Edge, Level, Tiles, VertexId,
    World,
};
use std::collections::HashMap;

#[test]
fn borders_count_both_ways() {
    let w = World::new(vec![
        Edge(VertexId(1), VertexId(2)),
        Edge(VertexId(2), VertexId(3)),
        Edge(VertexId(1), VertexId(1)),
    ]);
    assert_eq!(w.len(), 3);
    assert_eq!(w.edge(1), Edge(VertexId(2), VertexId(3)));
    let g = world_to_adj_list_graph(w);
    assert_eq!(g.len(), 3);
    assert_eq!(g[&1], vec![VertexId(2), VertexId(1), VertexId(1)]);
    assert_eq!(g[&2], vec![VertexId(1), VertexId(3)]);
    assert_eq!(g[&3], vec![VertexId(2)]);
}

#[test]
fn register_edge_appends() {
    let mut g: HashMap<i32, Vec<VertexId>> = HashMap::new();
    mut_register_edge(&mut g, VertexId(4), VertexId(5));
    mut_register_edge(&mut g, VertexId(4), VertexId(6));
    assert_eq!(g.len(), 1);
    assert_eq!(g[&4], vec![VertexId(5), VertexId(6)]);
    assert!(Continents(2) > Continents(1));
    assert!(Tiles(4) == Tiles(4));
    assert!(Level(0) < Level(1));
}

fn world(borders: &[(i32, i32)]) -> World {
    World::new(borders.iter().map(|(a, b)| Edge(VertexId(*a), VertexId(*b))).collect())
}

#[test]
fn a_triangle_is_one_continent_with_one_tile() {
    assert_eq!(solve(world(&[(1, 2), (2, 3), (3, 1)])), (Continents(1), Tiles(1)));
}

#[test]
fn a_tree_has_no_tile() {
    assert_eq!(solve(world(&[(1, 2), (2, 3), (2, 4)])), (Continents(1), Tiles(0)));
    assert_eq!(solve(world(&[])), (Continents(0), Tiles(0)));
}

#[test]
fn continents_and_tiles_add_up() {
    // a square with one diagonal, and a triangle apart from it
    let w = world(&[(1, 2), (2, 3), (3, 4), (4, 1), (1, 3), (10, 11), (11, 12), (12, 10)]);
    assert_eq!(solve(w), (Continents(2), Tiles(3)));
}

#[test]
fn a_border_named_twice_or_onto_itself_adds_no_tile() {
    assert_eq!(solve(world(&[(1, 2), (2, 1), (1, 2), (-5, -5)])), (Continents(2), Tiles(0)));
    assert_eq!(solve(world(&[(i32::MIN, i32::MAX), (i32::MAX, 0), (0, i32::MIN)])), (Continents(1), Tiles(1)));
}
