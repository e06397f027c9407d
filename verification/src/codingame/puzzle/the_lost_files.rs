//! Continents and tiles of a world that is known only by its borders: the
//! world is an undirected graph, given as a list of edges.

use crate::decomposition::{is_decomposition, lemma_undirected_decomposes};
use crate::forest::{inhabited, total_size};
use crate::fx::{fx_keys, fx_len, fx_set_insert};
use crate::graph::{
    lemma_same_shape, lemma_with_edge_well_formed, well_formed, with_edge, Direction, Graph, GraphView,
};
use crate::kosaraju::{dfs_scc, node_sets};
use crate::reach::{lemma_successors_mirrored, successors};
use fxhash::FxHashSet;
use std::collections::HashMap;
use vstd::prelude::*;

verus! {

/// A vertex of the world, by its number.
#[derive(Debug, Hash, PartialEq, Eq, PartialOrd, Ord, Clone, Copy, Structural)]
pub struct VertexId(pub i32);

/// How far down a walk a vertex was met.
#[derive(Debug, Hash, PartialEq, Eq, PartialOrd, Ord, Clone, Copy, Structural)]
pub struct Level(pub i32);

/// A border between two vertices.
#[derive(Debug, Hash, PartialEq, Eq, PartialOrd, Ord, Clone, Copy, Structural)]
pub struct Edge(pub VertexId, pub VertexId);

/// A number of continents.
#[derive(Debug, PartialEq, Eq, PartialOrd, Ord, Clone, Copy, Structural)]
pub struct Continents(pub i32);

/// A number of tiles.
#[derive(Debug, PartialEq, Eq, PartialOrd, Ord, Clone, Copy, Structural)]
pub struct Tiles(pub i32);

/// A world: its borders, in the order in which they were read.
#[derive(Debug)]
pub struct World {
    edges: Vec<Edge>,
}

impl View for World {
    type V = Seq<Edge>;

    closed spec fn view(&self) -> Seq<Edge> {
        self.edges@
    }
}

impl World {
    /// The world with the given borders.
    pub fn new(edges: Vec<Edge>) -> (world: World)
        ensures
            world@ == edges@,
    {
        World { edges }
    }

    /// How many borders the world has.
    pub fn len(&self) -> (n: usize)
        ensures
            n == self@.len(),
    {
        self.edges.len()
    }

    /// The `i`-th border.
    pub fn edge(&self, i: usize) -> (e: Edge)
        requires
            i < self@.len(),
        ensures
            e == self@[i as int],
    {
        self.edges[i]
    }
}

/// The neighbours of each vertex, by the vertex's number, in the order in
/// which the borders name them.
pub type Neighbours = Map<i32, Seq<VertexId>>;

/// `g` with `to` appended to the neighbours of `from`.
pub open spec fn registered(g: Neighbours, from: VertexId, to: VertexId) -> Neighbours {
    if g.contains_key(from.0) {
        g.insert(from.0, g[from.0].push(to))
    } else {
        g.insert(from.0, seq![to])
    }
}

/// The neighbours after the first `n` borders: each border counts both ways.
pub open spec fn adjacency(edges: Seq<Edge>, n: nat) -> Neighbours
    decreases n,
{
    if n == 0 {
        Map::empty()
    } else {
        let e = edges[n - 1];
        registered(registered(adjacency(edges, (n - 1) as nat), e.0, e.1), e.1, e.0)
    }
}

/// What a table of neighbours holds.
pub open spec fn table(g: HashMap<i32, Vec<VertexId>>) -> Neighbours {
    Map::new(|k: i32| g@.contains_key(k), |k: i32| g@[k]@)
}

/// Appends `to` to the neighbours of `from`.
pub fn mut_register_edge(g: &mut HashMap<i32, Vec<VertexId>>, from: VertexId, to: VertexId)
    ensures
        table(*final(g)) == registered(table(*old(g)), from, to),
{
    let mut adj_list = match g.remove(&from.0) {
        Some(list) => list,
        None => Vec::new(),
    };
    adj_list.push(to);
    g.insert(from.0, adj_list);
    assert(table(*g) =~= registered(table(*old(g)), from, to));
}

/// The neighbours of every vertex of the world.
pub fn world_to_adj_list_graph(w: World) -> (g: HashMap<i32, Vec<VertexId>>)
    ensures
        table(g) == adjacency(w@, w@.len()),
{
    let mut res: HashMap<i32, Vec<VertexId>> = HashMap::new();
    assert(table(res) =~= adjacency(w@, 0));
    let mut i: usize = 0;
    while i < w.len()
        invariant
            i <= w@.len(),
            table(res) == adjacency(w@, i as nat),
        decreases w@.len() - i,
    {
        let e = w.edge(i);
        mut_register_edge(&mut res, e.0, e.1);
        mut_register_edge(&mut res, e.1, e.0);
        i += 1;
    }
    res
}

/// The world as a graph after the first `n` borders: each border is an
/// edge in both directions.
pub open spec fn world_graph(edges: Seq<Edge>, n: nat) -> GraphView<i32>
    decreases n,
{
    if n == 0 {
        Map::empty()
    } else {
        let e = edges[n - 1];
        with_edge(with_edge(world_graph(edges, (n - 1) as nat), e.0.0, e.1.0), e.1.0, e.0.0)
    }
}

/// A number for the pair of two vertices, whichever comes first: no two
/// pairs have the same.
pub open spec fn pair_code(a: i32, b: i32) -> u64 {
    if a <= b {
        ((a + 0x8000_0000) * 0x1_0000_0000 + (b + 0x8000_0000)) as u64
    } else {
        ((b + 0x8000_0000) * 0x1_0000_0000 + (a + 0x8000_0000)) as u64
    }
}

/// Different pairs have different numbers.
pub proof fn lemma_pair_code(a: i32, b: i32, c: i32, d: i32)
    requires
        a <= b,
        c <= d,
        pair_code(a, b) == pair_code(c, d),
    ensures
        a == c,
        b == d,
{
    let x = (a + 0x8000_0000) * 0x1_0000_0000 + (b + 0x8000_0000);
    let y = (c + 0x8000_0000) * 0x1_0000_0000 + (d + 0x8000_0000);
    assert(0 <= x <= u64::MAX && 0 <= y <= u64::MAX);
    if a < c {
        assert((a + 0x8000_0000) * 0x1_0000_0000 + 0x1_0000_0000 <= (c + 0x8000_0000) * 0x1_0000_0000);
    } else if c < a {
        assert((c + 0x8000_0000) * 0x1_0000_0000 + 0x1_0000_0000 <= (a + 0x8000_0000) * 0x1_0000_0000);
    }
}

/// The pairs of different vertices that the first `n` borders join.
pub open spec fn pair_codes(edges: Seq<Edge>, n: nat) -> Set<u64>
    decreases n,
{
    if n == 0 {
        Set::empty()
    } else {
        let e = edges[n - 1];
        if e.0.0 == e.1.0 {
            pair_codes(edges, (n - 1) as nat)
        } else {
            pair_codes(edges, (n - 1) as nat).insert(pair_code(e.0.0, e.1.0))
        }
    }
}

/// The numbers of continents and tiles of a world. A continent is a set of
/// vertices that borders connect, and that no border connects with others.
/// The tiles of a continent are the borders that can go without its
/// falling apart: as many as there are joined pairs of vertices, less the
/// vertices, plus one.
pub open spec fn is_answer(edges: Seq<Edge>, continents: int, tiles: int) -> bool {
    let adj = successors(world_graph(edges, edges.len()), Direction::Outgoing);
    exists|parts: Seq<Set<i32>>| #[trigger]
        is_decomposition(adj, parts) && continents == parts.len() && tiles == pair_codes(
            edges,
            edges.len(),
        ).len() - adj.dom().len() + parts.len()
}

/// Every node has the same edges in both directions.
pub open spec fn two_way(g: GraphView<i32>) -> bool {
    forall|k: i32| #[trigger] g.contains_key(k) ==> g[k].edges == g[k].inverse_edges
}

/// An edge in both directions keeps a graph two-way, and adds no node but
/// the two that it joins.
pub proof fn lemma_two_way(g: GraphView<i32>, a: i32, b: i32)
    requires
        two_way(g),
        well_formed(g),
    ensures
        two_way(with_edge(with_edge(g, a, b), b, a)),
        well_formed(with_edge(with_edge(g, a, b), b, a)),
        with_edge(with_edge(g, a, b), b, a).dom() == g.dom().insert(a).insert(b),
{
    let h = with_edge(g, a, b);
    lemma_with_edge_well_formed(g, a, b);
    lemma_with_edge_well_formed(h, b, a);
    let t = with_edge(h, b, a);
    assert(t.dom() =~= g.dom().insert(a).insert(b));
    assert forall|k: i32| #[trigger] t.contains_key(k) implies t[k].edges == t[k].inverse_edges by {
        if g.contains_key(k) {
            assert(g[k].edges == g[k].inverse_edges);
        }
        assert(t[k].edges =~= t[k].inverse_edges);
    }
}

/// There are no more parts than nodes in them.
pub proof fn lemma_parts_count(parts: Seq<Set<i32>>, whole: Set<i32>)
    requires
        whole.finite(),
        forall|k: int| 0 <= k < parts.len() ==> #[trigger] inhabited(parts[k]),
        forall|k: int| 0 <= k < parts.len() ==> (#[trigger] parts[k]).subset_of(whole),
    ensures
        parts.len() <= total_size(parts),
    decreases parts.len(),
{
    if parts.len() > 0 {
        let rest = parts.skip(1);
        assert forall|k: int| 0 <= k < rest.len() implies #[trigger] inhabited(rest[k]) by {
            assert(inhabited(parts[k + 1]));
        }
        assert forall|k: int| 0 <= k < rest.len() implies (#[trigger] rest[k]).subset_of(whole) by {
            assert(parts[k + 1].subset_of(whole));
        }
        lemma_parts_count(rest, whole);
        assert(inhabited(parts[0]));
        let u = choose|u: i32| parts[0].contains(u);
        assert(parts[0].subset_of(whole));
        vstd::set_lib::lemma_len_subset(parts[0], whole);
        if parts[0].len() == 0 {
            assert(parts[0].finite());
            assert(parts[0] =~= Set::<i32>::empty());
        }
    }
}

/// The numbers of continents and tiles of a world.
pub fn solve(w: World) -> (out: (Continents, Tiles))
    requires
        w@.len() <= 0x0fff_ffff,
    ensures
        is_answer(w@, out.0.0 as int, out.1.0 as int),
{
    let mut graph: Graph<i32> = Graph::new();
    let mut codes: FxHashSet<u64> = FxHashSet::default();
    let mut joined: usize = 0;
    let mut i: usize = 0;
    while i < w.len()
        invariant
            i <= w@.len() <= 0x0fff_ffff,
            graph@ == world_graph(w@, i as nat),
            graph.wf(),
            two_way(graph@),
            graph@.dom().len() <= 2 * i,
            codes@ == pair_codes(w@, i as nat),
            codes@.finite(),
            joined == codes@.len(),
            joined <= i,
        decreases w@.len() - i,
    {
        let e = w.edge(i);
        let a = e.0.0;
        let b = e.1.0;
        proof {
            lemma_two_way(graph@, a, b);
        }
        graph.add_edge(a, b);
        graph.add_edge(b, a);
        if a != b {
            let (lo, hi) = if a <= b {
                (a, b)
            } else {
                (b, a)
            };
            let code: u64 = ((lo as i64 + 0x8000_0000) as u64) * 0x1_0000_0000 + ((hi as i64
                + 0x8000_0000) as u64);
            assert(code == pair_code(a, b));
            if fx_set_insert(&mut codes, code) {
                joined += 1;
            }
        }
        i += 1;
    }
    let ghost world = graph@;
    let ghost adj = successors(world, Direction::Outgoing);
    assert(graph.nodes@.dom() =~= world.dom());
    let trajectory = fx_keys(&graph.nodes);
    proof {
        lemma_successors_mirrored(world);
        assert(adj =~= successors(world, Direction::Incoming));
        assert(adj.dom() =~= world.dom());
        assert forall|k: int| 0 <= k < trajectory@.len() implies world.contains_key(
            #[trigger] trajectory@[k],
        ) by {
            assert(trajectory@.to_set().contains(trajectory@[k]));
        }
        lemma_undirected_decomposes(adj, trajectory@);
    }
    let trees = dfs_scc(&mut graph, &trajectory, Direction::Outgoing);
    assert(graph.nodes@.dom() =~= world.dom());
    let nodes = fx_len(&graph.nodes);
    let continents = trees.len();
    proof {
        let parts = node_sets(trees@);
        assert forall|k: int| 0 <= k < parts.len() implies (#[trigger] parts[k]).subset_of(adj.dom()) by {
            assert forall|u: i32| parts[k].contains(u) implies adj.dom().contains(u) by {
                assert(crate::forest::union_of(parts).contains(u));
            }
        }
        lemma_parts_count(parts, adj.dom());
    }
    let tiles = joined as i64 - nodes as i64 + continents as i64;
    (Continents(continents as i32), Tiles(tiles as i32))
}

} // verus!
