//! A directed graph keyed by caller-chosen node identifiers.

use crate::fx::{fx_contains_key, fx_get, fx_insert, fx_keys, fx_len, fx_remove};
use crate::reach::{closed, lemma_reach_nodes, lemma_successors_mirrored, successors, Adjacency};
use crate::traversal::{
    finish_times, is_numbering, is_time_of_some, lemma_close, lemma_discover, lemma_drop_top, lemma_finale,
    lemma_finish, lemma_partial, lemma_pass_neighbour, lemma_pass_root, lemma_push_neighbour,
    lemma_start, lemma_take_root, handed_out_after, partial_finish_times, rooted, traversed, Walk,
};
use fxhash::FxHashMap;
use std::collections::VecDeque;
use std::hash::Hash;
use vstd::prelude::*;
use vstd::std_specs::hash::obeys_key_model;

verus! {

/// Where a node stands in a depth-first traversal.
#[derive(Clone, Copy, Debug, PartialEq, Eq, Structural)]
pub enum Visit {
    /// Not reached yet.
    Unvisited,
    /// Reached; its descendants are still being explored.
    Discovered,
    /// Reached, and so is everything that was explored from it.
    Finished,
}

/// Which of a node's two adjacency lists a traversal follows.
#[derive(Clone, Copy, Debug, PartialEq, Eq, Structural)]
pub enum Direction {
    /// Along the edges: from a node to the targets of its `edges`.
    Outgoing,
    /// Against the edges: from a node to the sources in its `inverse_edges`.
    Incoming,
}

impl Direction {
    /// The other direction.
    pub open spec fn turned(self) -> Direction {
        match self {
            Direction::Outgoing => Direction::Incoming,
            Direction::Incoming => Direction::Outgoing,
        }
    }
}

/// One vertex with both of its adjacency lists.
#[derive(Debug)]
pub struct Node<T> {
    pub id: T,
    pub edges: Vec<T>,
    pub inverse_edges: Vec<T>,
    pub state: Visit,
}

/// What a `Node` holds, as mathematical values.
pub struct NodeView<T> {
    pub id: T,
    pub edges: Seq<T>,
    pub inverse_edges: Seq<T>,
    pub state: Visit,
}

impl<T> View for Node<T> {
    type V = NodeView<T>;

    open spec fn view(&self) -> NodeView<T> {
        NodeView {
            id: self.id,
            edges: self.edges@,
            inverse_edges: self.inverse_edges@,
            state: self.state,
        }
    }
}

impl<T> NodeView<T> {
    /// A node without edges that no traversal has touched.
    pub open spec fn isolated(id: T) -> Self {
        NodeView { id, edges: Seq::empty(), inverse_edges: Seq::empty(), state: Visit::Unvisited }
    }

    /// The adjacency list that `dir` selects.
    pub open spec fn neighbours(self, dir: Direction) -> Seq<T> {
        match dir {
            Direction::Outgoing => self.edges,
            Direction::Incoming => self.inverse_edges,
        }
    }
}

impl<T> Node<T> {
    /// A node that no traversal has touched.
    pub fn new(id: T, edges: Vec<T>, inverse_edges: Vec<T>) -> (node: Self)
        ensures
            node.id == id,
            node.edges == edges,
            node.inverse_edges == inverse_edges,
            node.state == Visit::Unvisited,
    {
        Self { id, edges, inverse_edges, state: Visit::Unvisited }
    }
}

/// The model of a graph: each node's contents by its identifier.
pub type GraphView<T> = Map<T, NodeView<T>>;

/// `g` with a node `id` in it: added without edges if it was missing.
pub open spec fn with_node<T>(g: GraphView<T>, id: T) -> GraphView<T> {
    if g.contains_key(id) {
        g
    } else {
        g.insert(id, NodeView::isolated(id))
    }
}

/// `g` with `to` appended to the outgoing list of the node `from`.
pub open spec fn with_outgoing<T>(g: GraphView<T>, from: T, to: T) -> GraphView<T> {
    g.insert(from, NodeView { edges: g[from].edges.push(to), ..g[from] })
}

/// `g` with `from` appended to the incoming list of the node `to`.
pub open spec fn with_incoming<T>(g: GraphView<T>, from: T, to: T) -> GraphView<T> {
    g.insert(to, NodeView { inverse_edges: g[to].inverse_edges.push(from), ..g[to] })
}

/// `g` with one more edge from `from` to `to`, both endpoints created on demand.
pub open spec fn with_edge<T>(g: GraphView<T>, from: T, to: T) -> GraphView<T> {
    with_incoming(with_outgoing(with_node(with_node(g, from), to), from, to), from, to)
}

/// Every node is filed under its own identifier, every edge ends at a node,
/// and the two adjacency lists mirror each other.
pub open spec fn well_formed<T>(g: GraphView<T>) -> bool {
    &&& g.dom().finite()
    &&& forall|k: T| #[trigger] g.contains_key(k) ==> g[k].id == k
    &&& forall|k: T, i: int|
        g.contains_key(k) && 0 <= i < g[k].edges.len() ==> g.contains_key(#[trigger] g[k].edges[i])
            && g[g[k].edges[i]].inverse_edges.contains(k)
    &&& forall|k: T, i: int|
        g.contains_key(k) && 0 <= i < g[k].inverse_edges.len() ==> g.contains_key(
            #[trigger] g[k].inverse_edges[i],
        ) && g[g[k].inverse_edges[i]].edges.contains(k)
}

/// Adding a node keeps a graph well formed.
pub proof fn lemma_with_node_well_formed<T>(g: GraphView<T>, id: T)
    requires
        well_formed(g),
    ensures
        well_formed(with_node(g, id)),
        with_node(g, id).contains_key(id),
{
    let h = with_node(g, id);
    if !g.contains_key(id) {
        assert forall|k: T, i: int|
            h.contains_key(k) && 0 <= i < h[k].edges.len() implies h.contains_key(
            #[trigger] h[k].edges[i],
        ) && h[h[k].edges[i]].inverse_edges.contains(k) by {
            assert(g.contains_key(k));
            assert(g.contains_key(g[k].edges[i]));
        }
        assert forall|k: T, i: int|
            h.contains_key(k) && 0 <= i < h[k].inverse_edges.len() implies h.contains_key(
            #[trigger] h[k].inverse_edges[i],
        ) && h[h[k].inverse_edges[i]].edges.contains(k) by {
            assert(g.contains_key(k));
            assert(g.contains_key(g[k].inverse_edges[i]));
        }
    }
}

/// Adding an edge keeps a graph well formed.
pub proof fn lemma_with_edge_well_formed<T>(g: GraphView<T>, from: T, to: T)
    requires
        well_formed(g),
    ensures
        well_formed(with_edge(g, from, to)),
        with_edge(g, from, to).dom() == g.dom().insert(from).insert(to),
{
    lemma_with_node_well_formed(g, from);
    let g1 = with_node(g, from);
    lemma_with_node_well_formed(g1, to);
    let g2 = with_node(g1, to);
    let g3 = with_outgoing(g2, from, to);
    let h = with_incoming(g3, from, to);
    assert(h == with_edge(g, from, to));
    assert(h.dom() =~= g.dom().insert(from).insert(to));
    assert(g3[from].edges.last() == to);
    assert(h[to].inverse_edges.last() == from);
    assert(h[from].edges.last() == to);
    assert forall|k: T, i: int|
        h.contains_key(k) && 0 <= i < h[k].edges.len() implies h.contains_key(
        #[trigger] h[k].edges[i],
    ) && h[h[k].edges[i]].inverse_edges.contains(k) by {
        let v = h[k].edges[i];
        if k == from && i == h[k].edges.len() - 1 {
            assert(v == to);
            assert(h[to].inverse_edges[h[to].inverse_edges.len() - 1] == from);
        } else {
            assert(g2[k].edges[i] == v);
            assert(g2.contains_key(v));
            let back = g2[v].inverse_edges;
            let j = choose|j: int| 0 <= j < back.len() && (#[trigger] back[j]) == k;
            assert(h[v].inverse_edges[j] == k);
        }
    }
    assert forall|k: T, i: int|
        h.contains_key(k) && 0 <= i < h[k].inverse_edges.len() implies h.contains_key(
        #[trigger] h[k].inverse_edges[i],
    ) && h[h[k].inverse_edges[i]].edges.contains(k) by {
        let v = h[k].inverse_edges[i];
        if k == to && i == h[k].inverse_edges.len() - 1 {
            assert(v == from);
            assert(h[from].edges[h[from].edges.len() - 1] == to);
        } else {
            assert(g2[k].inverse_edges[i] == v);
            assert(g2.contains_key(v));
            let forth = g2[v].edges;
            let j = choose|j: int| 0 <= j < forth.len() && (#[trigger] forth[j]) == k;
            assert(h[v].edges[j] == k);
        }
    }
}

/// A directed graph: its nodes, each filed under its identifier.
///
/// Identifiers must hash and compare consistently; the functions that touch
/// the table ask for that as `obeys_key_model::<T>()`.
#[derive(Debug)]
pub struct Graph<T: Copy + Eq + Hash> {
    pub nodes: FxHashMap<T, Node<T>>,
}

impl<T: Copy + Eq + Hash> View for Graph<T> {
    type V = GraphView<T>;

    open spec fn view(&self) -> GraphView<T> {
        Map::new(|k: T| self.nodes@.contains_key(k), |k: T| self.nodes@[k]@)
    }
}

impl<T: Copy + Eq + Hash> Graph<T> {
    /// The invariant of a graph built by `new`, `add_node` and `add_edge`.
    pub open spec fn wf(&self) -> bool {
        well_formed(self@)
    }

    /// An empty graph.
    pub fn new() -> (g: Self)
        ensures
            g@ == Map::<T, NodeView<T>>::empty(),
            g.wf(),
    {
        let g = Self { nodes: FxHashMap::default() };
        assert(g@ =~= Map::<T, NodeView<T>>::empty());
        g
    }

    /// A graph over a table of nodes that the caller filled.
    pub fn from_nodes(nodes: FxHashMap<T, Node<T>>) -> (g: Self)
        ensures
            g.nodes == nodes,
    {
        Self { nodes }
    }

    /// Inserts a node without edges under `id`, unless `id` is taken.
    pub fn new_node(&mut self, id: T)
        requires
            obeys_key_model::<T>(),
        ensures
            final(self)@ == with_node(old(self)@, id),
    {
        if !fx_contains_key(&self.nodes, &id) {
            fx_insert(&mut self.nodes, id, Node::new(id, Vec::new(), Vec::new()));
        }
        assert(self@ =~= with_node(old(self)@, id));
    }

    /// Inserts a node without edges under `*node`, unless it is there already.
    pub fn add_node(&mut self, node: &T)
        requires
            obeys_key_model::<T>(),
        ensures
            final(self)@ == with_node(old(self)@, *node),
    {
        self.new_node(*node);
    }

    /// Records an edge from `from` to `to`, creating either endpoint if it is
    /// missing. Self-loops and repeated edges are recorded as given.
    pub fn add_edge(&mut self, from: T, to: T)
        requires
            obeys_key_model::<T>(),
        ensures
            final(self)@ == with_edge(old(self)@, from, to),
            old(self).wf() ==> final(self).wf(),
    {
        self.new_node(from);
        self.new_node(to);
        let ghost g2 = self@;
        assert(g2.contains_key(from) && g2.contains_key(to));
        assert(self.nodes@.contains_key(from));
        let mut source = fx_remove(&mut self.nodes, &from).unwrap();
        source.edges.push(to);
        fx_insert(&mut self.nodes, from, source);
        assert(self@ =~= with_outgoing(g2, from, to));
        let ghost g3 = self@;
        assert(g3.contains_key(to));
        assert(self.nodes@.contains_key(to));
        let mut target = fx_remove(&mut self.nodes, &to).unwrap();
        target.inverse_edges.push(from);
        fx_insert(&mut self.nodes, to, target);
        assert(self@ =~= with_incoming(g3, from, to));
        proof {
            if old(self).wf() {
                lemma_with_edge_well_formed(old(self)@, from, to);
            }
        }
    }
}

/// `g` and `h` have the same nodes and edges; traversal states may differ.
pub open spec fn same_shape<T>(g: GraphView<T>, h: GraphView<T>) -> bool {
    &&& g.dom() == h.dom()
    &&& forall|k: T| #[trigger]
        g.contains_key(k) ==> g[k].id == h[k].id && g[k].edges == h[k].edges && g[k].inverse_edges
            == h[k].inverse_edges
}

/// The traversal state of each node.
pub open spec fn colors<T>(g: GraphView<T>) -> Map<T, Visit> {
    Map::new(|k: T| g.contains_key(k), |k: T| g[k].state)
}

/// Graphs of the same shape have the same adjacency lists, and are well
/// formed together.
pub proof fn lemma_same_shape<T>(g: GraphView<T>, h: GraphView<T>, dir: Direction)
    requires
        same_shape(g, h),
    ensures
        successors(g, dir) == successors(h, dir),
        well_formed(g) ==> well_formed(h),
{
    assert(successors(g, dir) =~= successors(h, dir));
    if well_formed(g) {
        assert forall|k: T, i: int|
            h.contains_key(k) && 0 <= i < h[k].edges.len() implies h.contains_key(
            #[trigger] h[k].edges[i],
        ) && h[h[k].edges[i]].inverse_edges.contains(k) by {
            assert(g.contains_key(k));
            assert(g.contains_key(g[k].edges[i]));
        }
        assert forall|k: T, i: int|
            h.contains_key(k) && 0 <= i < h[k].inverse_edges.len() implies h.contains_key(
            #[trigger] h[k].inverse_edges[i],
        ) && h[h[k].inverse_edges[i]].edges.contains(k) by {
            assert(g.contains_key(k));
            assert(g.contains_key(g[k].inverse_edges[i]));
        }
    }
}

impl<T: Copy + Eq + Hash> Graph<T> {
    /// The traversal state of the node `id`.
    pub fn state_of(&self, id: &T) -> (state: Visit)
        requires
            obeys_key_model::<T>(),
            self@.contains_key(*id),
        ensures
            state == self@[*id].state,
    {
        assert(self.nodes@.contains_key(*id));
        fx_get(&self.nodes, id).unwrap().state
    }

    /// Sets the traversal state of the node `id`, and nothing else.
    pub fn set_state(&mut self, id: &T, state: Visit)
        requires
            obeys_key_model::<T>(),
            old(self)@.contains_key(*id),
        ensures
            final(self)@ == old(self)@.insert(*id, (NodeView { state, ..old(self)@[*id] })),
            final(self).nodes@.dom() == old(self).nodes@.dom(),
            forall|k: T|
                k != *id && old(self).nodes@.contains_key(k) ==> #[trigger] final(self).nodes@[k]
                    == old(self).nodes@[k],
    {
        assert(self.nodes@.contains_key(*id));
        let mut node = fx_remove(&mut self.nodes, id).unwrap();
        node.state = state;
        fx_insert(&mut self.nodes, *id, node);
        assert(self@ =~= old(self)@.insert(*id, (NodeView { state, ..old(self)@[*id] })));
        assert(self.nodes@.dom() =~= old(self).nodes@.dom());
    }

    /// Puts every node back to `Unvisited`; nodes and edges stay as they are.
    pub fn reset_visits(&mut self)
        requires
            obeys_key_model::<T>(),
        ensures
            same_shape(old(self)@, final(self)@),
            forall|k: T| #[trigger] final(self)@.contains_key(k) ==> final(self)@[k].state == Visit::Unvisited,
            final(self)@.dom().finite(),
    {
        let keys = fx_keys(&self.nodes);
        assert(keys@.to_set() =~= self@.dom());
        let mut i: usize = 0;
        while i < keys.len()
            invariant
                obeys_key_model::<T>(),
                i <= keys.len(),
                same_shape(old(self)@, self@),
                keys@.to_set() == self@.dom(),
                forall|j: int| 0 <= j < i ==> self@[#[trigger] keys@[j]].state == Visit::Unvisited,
            decreases keys.len() - i,
        {
            let id = keys[i];
            assert(keys@.to_set().contains(keys@[i as int]));
            let ghost before = self@;
            self.set_state(&id, Visit::Unvisited);
            assert(self@.dom() =~= before.dom());
            assert forall|j: int| 0 <= j < i + 1 implies self@[#[trigger] keys@[j]].state
                == Visit::Unvisited by {
                assert(keys@.to_set().contains(keys@[j]));
            }
            i += 1;
        }
        assert forall|k: T| #[trigger] self@.contains_key(k) implies self@[k].state
            == Visit::Unvisited by {
            assert(keys@.to_set().contains(k));
            let j = choose|j: int| 0 <= j < keys@.len() && keys@[j] == k;
            assert(self@[keys@[j]].state == Visit::Unvisited);
        }
        proof {
            vstd::seq_lib::seq_to_set_is_finite(keys@);
        }
    }
}

/// Whether `id` is among `ids`.
pub fn has_id(ids: &Vec<usize>, id: usize) -> (found: bool)
    ensures
        found == ids@.contains(id),
{
    let mut i: usize = 0;
    while i < ids.len()
        invariant
            i <= ids@.len(),
            forall|k: int| 0 <= k < i ==> ids@[k] != id,
        decreases ids@.len() - i,
    {
        if ids[i] == id {
            return true;
        }
        i += 1;
    }
    false
}

impl Graph<usize> {
    /// Whether every entry of a list of `id` in the direction `dir` is a
    /// node that lists `id` in the other direction.
    fn list_mirrored(&self, id: usize, dir: Direction) -> (ok: bool)
        requires
            self@.contains_key(id),
        ensures
            ok == forall|i: int|
                0 <= i < self@[id].neighbours(dir).len() ==> self@.contains_key(
                    #[trigger] self@[id].neighbours(dir)[i],
                ) && self@[self@[id].neighbours(dir)[i]].neighbours(dir.turned()).contains(id),
    {
        assert(self.nodes@.contains_key(id));
        let node = fx_get(&self.nodes, &id).unwrap();
        let list = match dir {
            Direction::Outgoing => &node.edges,
            Direction::Incoming => &node.inverse_edges,
        };
        let mut i: usize = 0;
        while i < list.len()
            invariant
                i <= list@.len(),
                list@ == self@[id].neighbours(dir),
                forall|k: int|
                    0 <= k < i ==> self@.contains_key(#[trigger] list@[k]) && self@[list@[k]].neighbours(
                        dir.turned(),
                    ).contains(id),
            decreases list@.len() - i,
        {
            let other = list[i];
            match fx_get(&self.nodes, &other) {
                Some(back) => {
                    let found = match dir {
                        Direction::Outgoing => has_id(&back.inverse_edges, id),
                        Direction::Incoming => has_id(&back.edges, id),
                    };
                    if !found {
                        return false;
                    }
                },
                None => {
                    assert(!self@.contains_key(list@[i as int]));
                    return false;
                },
            }
            i += 1;
        }
        true
    }

    /// Whether the graph is well formed: what `add_node` and `add_edge`
    /// keep, and what a table of nodes filled by hand may lack.
    pub fn is_well_formed(&self) -> (ok: bool)
        ensures
            ok == self.wf(),
    {
        let keys = fx_keys(&self.nodes);
        assert(keys@.to_set() =~= self@.dom());
        proof {
            vstd::seq_lib::seq_to_set_is_finite(keys@);
        }
        let mut i: usize = 0;
        while i < keys.len()
            invariant
                i <= keys@.len(),
                keys@.to_set() == self@.dom(),
                forall|j: int| 0 <= j < i ==> self@[#[trigger] keys@[j]].id == keys@[j],
                forall|j: int, n: int|
                    0 <= j < i && 0 <= n < self@[keys@[j]].edges.len() ==> self@.contains_key(
                        #[trigger] self@[keys@[j]].edges[n],
                    ) && self@[self@[keys@[j]].edges[n]].inverse_edges.contains(keys@[j]),
                forall|j: int, n: int|
                    0 <= j < i && 0 <= n < self@[keys@[j]].inverse_edges.len() ==> self@.contains_key(
                        #[trigger] self@[keys@[j]].inverse_edges[n],
                    ) && self@[self@[keys@[j]].inverse_edges[n]].edges.contains(keys@[j]),
            decreases keys@.len() - i,
        {
            let id = keys[i];
            assert(keys@.to_set().contains(keys@[i as int]));
            assert(self.nodes@.contains_key(id));
            let node = fx_get(&self.nodes, &id).unwrap();
            if node.id != id {
                return false;
            }
            if !self.list_mirrored(id, Direction::Outgoing) {
                proof {
                    if well_formed(self@) {
                        assert forall|n: int| 0 <= n < self@[id].edges.len() implies self@.contains_key(
                            #[trigger] self@[id].edges[n],
                        ) && self@[self@[id].edges[n]].inverse_edges.contains(id) by {}
                    }
                }
                return false;
            }
            if !self.list_mirrored(id, Direction::Incoming) {
                proof {
                    if well_formed(self@) {
                        assert forall|n: int|
                            0 <= n < self@[id].inverse_edges.len() implies self@.contains_key(
                            #[trigger] self@[id].inverse_edges[n],
                        ) && self@[self@[id].inverse_edges[n]].edges.contains(id) by {}
                    }
                }
                return false;
            }
            i += 1;
        }
        proof {
            let g = self@;
            assert forall|k: usize| #[trigger] g.contains_key(k) implies g[k].id == k by {
                assert(keys@.to_set().contains(k));
                let j = choose|j: int| 0 <= j < keys@.len() && keys@[j] == k;
                assert(g[keys@[j]].id == keys@[j]);
            }
            assert forall|k: usize, n: int|
                g.contains_key(k) && 0 <= n < g[k].edges.len() implies g.contains_key(
                #[trigger] g[k].edges[n],
            ) && g[g[k].edges[n]].inverse_edges.contains(k) by {
                assert(keys@.to_set().contains(k));
                let j = choose|j: int| 0 <= j < keys@.len() && keys@[j] == k;
                assert(g.contains_key(g[keys@[j]].edges[n]));
            }
            assert forall|k: usize, n: int|
                g.contains_key(k) && 0 <= n < g[k].inverse_edges.len() implies g.contains_key(
                #[trigger] g[k].inverse_edges[n],
            ) && g[g[k].inverse_edges[n]].edges.contains(k) by {
                assert(keys@.to_set().contains(k));
                let j = choose|j: int| 0 <= j < keys@.len() && keys@[j] == k;
                assert(g.contains_key(g[keys@[j]].inverse_edges[n]));
            }
        }
        true
    }
}

/// A finish check that never finds anything.
pub fn irrel<T>(_node: &Node<T>) -> (found: Option<bool>)
    ensures
        found is None,
{
    None
}

/// What the finish check said of each finished node: nothing, but for the
/// node finished last where the traversal stopped on a find.
pub open spec fn search_outcome<T, Y, F: Fn(&Node<T>) -> Option<Y>>(
    search: F,
    nodes: Map<T, Node<T>>,
    times: Map<T, i64>,
    found: Option<Y>,
) -> bool {
    &&& found is Some ==> times.dom().len() > 0
    &&& forall|u: T| #[trigger]
        times.contains_key(u) ==> call_ensures(
            search,
            (&nodes[u],),
            if found is Some && times[u] == times.dom().len() - 1 {
                found
            } else {
                None
            },
        )
}

/// The traversal state of every node after a traversal: `Finished` where it
/// has a finish time, and `Unvisited` elsewhere if the traversal ran to its end.
pub open spec fn states_match<T, Y>(g: GraphView<T>, times: Map<T, i64>, found: Option<Y>) -> bool {
    forall|u: T| #[trigger]
        g.contains_key(u) ==> (g[u].state == Visit::Finished <==> times.contains_key(u)) && (found is None
            ==> g[u].state != Visit::Discovered)
}

/// The ghost model `w` describes the traversal's variables.
pub open spec fn tracks<T>(
    w: Walk<T>,
    adj: Adjacency<T>,
    g: GraphView<T>,
    times: Map<T, i64>,
    time: i64,
    stack: Seq<T>,
    traj: Seq<T>,
    cursor: usize,
) -> bool {
    &&& w.inv()
    &&& w.adj == adj
    &&& w.color == colors(g)
    &&& w.times == times
    &&& w.clock == time
    &&& w.stack == stack
    &&& w.traj == traj
    &&& w.cursor == cursor
}

/// Depth-first traversal with an explicit stack.
///
/// Root candidates are taken from `trajectory` front to back; one that has
/// been reached already is passed over. From each node the traversal follows
/// the adjacency list that `dir` selects. A node gets the next finish time,
/// counted from zero, when everything explored from it is finished; `search`
/// is then asked about it, and the first answer other than `None` ends the
/// traversal and is returned with the finish times handed out so far.
///
/// Every traversal starts from unvisited nodes: the traversal states that an
/// earlier one left are cleared first.
pub fn dfs_finish_time<T, Y, F>(
    graph: &mut Graph<T>,
    trajectory: &VecDeque<T>,
    dir: Direction,
    search: F,
) -> (out: (Option<Y>, FxHashMap<T, i64>)) where T: Copy + Eq + Hash, F: Fn(&Node<T>) -> Option<Y>
    requires
        obeys_key_model::<T>(),
        old(graph).wf(),
        old(graph)@.dom().len() <= i64::MAX,
        forall|i: int|
            0 <= i < trajectory@.len() ==> old(graph)@.contains_key(#[trigger] trajectory@[i]),
        forall|n: Node<T>| #[trigger] call_requires(search, (&n,)),
    ensures
        same_shape(old(graph)@, final(graph)@),
        traversed(successors(old(graph)@, dir), trajectory@, out.1@, out.0 is None),
        partial_finish_times(successors(old(graph)@, dir), trajectory@, out.1@),
        out.0 is None ==> finish_times(successors(old(graph)@, dir), trajectory@, out.1@),
        search_outcome(search, final(graph).nodes@, out.1@, out.0),
        states_match(final(graph)@, out.1@, out.0),
{
    let ghost adj = successors(old(graph)@, dir);
    let ghost begin = Walk::start(adj, trajectory@);
    let ghost mut steps: nat = 0;
    graph.reset_visits();
    let mut times: FxHashMap<T, i64> = FxHashMap::default();
    let mut time: i64 = 0;
    let mut stack: Vec<T> = Vec::new();
    let mut cursor: usize = 0;
    let ghost mut w = begin;
    proof {
        lemma_successors_mirrored(old(graph)@);
        assert(adj.dom() =~= old(graph)@.dom());
        lemma_start(adj, trajectory@);
        assert(w.color =~= colors(graph@));
    }
    loop
        invariant
            obeys_key_model::<T>(),
            same_shape(old(graph)@, graph@),
            adj == successors(old(graph)@, dir),
            adj.dom().len() <= i64::MAX,
            tracks(w, adj, graph@, times@, time, stack@, trajectory@, cursor),
            w.open_at == -1,
            begin == Walk::start(adj, trajectory@),
            w == begin.after(steps),
            forall|n: Node<T>| #[trigger] call_requires(search, (&n,)),
            forall|u: T| #[trigger]
                times@.contains_key(u) ==> call_ensures(search, (&graph.nodes@[u],), None::<Y>),
        decreases w.whites().len(), trajectory.len() - cursor, stack.len(),
    {
        if stack.len() == 0 {
            if cursor >= trajectory.len() {
                proof {
                    lemma_finale(w);
                    assert(handed_out_after(adj, trajectory@, times@, true, steps));
                    assert forall|u: T| #[trigger] graph@.contains_key(u) implies (graph@[u].state
                        == Visit::Finished <==> times@.contains_key(u)) && graph@[u].state
                        != Visit::Discovered by {
                        assert(w.black(u) <==> times@.contains_key(u));
                        assert(!w.gray(u));
                    }
                }
                return (None, times);
            }
            let root = trajectory[cursor];
            cursor += 1;
            if graph.state_of(&root) == Visit::Unvisited {
                stack.push(root);
                proof {
                    lemma_take_root(w);
                    assert(w.step() == w.take_root());
                    w = w.take_root();
                    steps = steps + 1;
                    assert(w.stack =~= stack@);
                }
            } else {
                proof {
                    lemma_pass_root(w);
                    assert(w.step() == w.pass_root());
                    w = w.pass_root();
                    steps = steps + 1;
                }
            }
        } else {
            let id = stack[stack.len() - 1];
            assert(adj.contains_key(w.stack[stack.len() - 1]));
            match graph.state_of(&id) {
                Visit::Unvisited => {
                    let ghost nodes_before = graph.nodes@;
                    graph.set_state(&id, Visit::Discovered);
                    proof {
                        lemma_discover(w);
                        assert(w.step() == w.discover());
                        w = w.discover();
                        steps = steps + 1;
                        assert(w.color =~= colors(graph@));
                        assert(!times@.contains_key(id));
                    }
                    let ghost top = stack.len() - 1;
                    let ghost left = w.whites();
                    assert(graph.nodes@.contains_key(id));
                    let node = fx_get(&graph.nodes, &id).unwrap();
                    let list = match dir {
                        Direction::Outgoing => &node.edges,
                        Direction::Incoming => &node.inverse_edges,
                    };
                    assert(list@ == adj[id]);
                    let mut n: usize = 0;
                    while n < list.len()
                        invariant
                            obeys_key_model::<T>(),
                            same_shape(old(graph)@, graph@),
                            tracks(w, adj, graph@, times@, time, stack@, trajectory@, cursor),
                            w.open_at == top,
                            w.open_done == n,
                            0 <= top < stack.len(),
                            stack@[top] == id,
                            list@ == adj[id],
                            n <= list.len(),
                            w.whites() == left,
                            w == begin.after(steps),
                        decreases list.len() - n,
                    {
                        let next = list[n];
                        assert(closed(adj));
                        assert(adj.contains_key(adj[id][n as int]));
                        if graph.state_of(&next) == Visit::Unvisited {
                            stack.push(next);
                            proof {
                                lemma_push_neighbour(w);
                                assert(w.step() == w.push_neighbour());
                                w = w.push_neighbour();
                                steps = steps + 1;
                                assert(w.whites() =~= left);
                            }
                        } else {
                            proof {
                                lemma_pass_neighbour(w);
                                assert(w.step() == w.pass_neighbour());
                                w = w.pass_neighbour();
                                steps = steps + 1;
                                assert(w.whites() =~= left);
                            }
                        }
                        n += 1;
                    }
                    proof {
                        lemma_close(w);
                        assert(w.step() == w.close());
                        w = w.close();
                        steps = steps + 1;
                        assert(w.whites() =~= left);
                    }
                },
                Visit::Discovered => {
                    stack.pop();
                    assert(graph.nodes@.contains_key(id));
                    let mut node = fx_remove(&mut graph.nodes, &id).unwrap();
                    node.state = Visit::Finished;
                    let found = search(&node);
                    fx_insert(&mut graph.nodes, id, node);
                    fx_insert(&mut times, id, time);
                    proof {
                        lemma_finish(w);
                        assert(w.step() == w.finish());
                        w = w.finish();
                        steps = steps + 1;
                        assert(w.color =~= colors(graph@));
                        assert(w.stack =~= stack@);
                    }
                    time += 1;
                    if found.is_some() {
                        proof {
                            lemma_partial(w);
                            assert(handed_out_after(adj, trajectory@, times@, false, steps));
                        }
                        return (found, times);
                    }
                },
                Visit::Finished => {
                    stack.pop();
                    proof {
                        lemma_drop_top(w);
                        assert(w.step() == w.drop_top());
                        w = w.drop_top();
                        steps = steps + 1;
                        assert(w.stack =~= stack@);
                    }
                },
            }
        }
    }
}

/// The finish times behind a finish order over `n` nodes: the node of order
/// zero finished last, at time `n - 1`.
pub open spec fn times_of_order<T>(order: Map<T, i64>, n: int) -> Map<T, i64> {
    Map::new(|u: T| order.contains_key(u), |u: T| (n - 1 - order[u]) as i64)
}

/// Finish times that number all `n` nodes turn into a finish order that
/// numbers them too: every value from `0` to `n - 1` is taken by one node.
pub proof fn lemma_order_is_numbering<T>(order: Map<T, i64>, n: int)
    requires
        is_numbering(times_of_order(order, n)),
        order.dom().len() == n,
        n <= i64::MAX,
        forall|u: T| #[trigger] order.contains_key(u) ==> 0 <= order[u] < n,
    ensures
        is_numbering(order),
{
    let times = times_of_order(order, n);
    assert(times.dom() =~= order.dom());
    assert forall|u: T, v: T|
        order.contains_key(u) && order.contains_key(v) && #[trigger] order[u] == #[trigger] order[v]
        implies u == v by {
        assert(times.contains_key(u) && times.contains_key(v));
        assert(times[u] == times[v]);
    }
    assert forall|m: int| 0 <= m < order.dom().len() implies #[trigger] is_time_of_some(order, m) by {
        assert(is_time_of_some(times, n - 1 - m));
        let u = choose|u: T| times.contains_key(u) && #[trigger] times[u] == n - 1 - m;
        assert(order.contains_key(u) && order[u] == m);
    }
}

/// Depth-first traversal that reports the finish order in place of the
/// finish time: over a graph of `n` nodes, a node finished at time `t` has
/// the order `n - 1 - t`, so the node finished last comes first.
///
/// Where the root candidates reach every node and nothing is found, the
/// orders are the numbers from `0` to `n - 1`, each taken once.
pub fn dfs_finish_ord<T, Y, F>(
    graph: &mut Graph<T>,
    trajectory: &VecDeque<T>,
    dir: Direction,
    search: F,
) -> (out: (Option<Y>, FxHashMap<T, i64>)) where T: Copy + Eq + Hash, F: Fn(&Node<T>) -> Option<Y>
    requires
        obeys_key_model::<T>(),
        old(graph).wf(),
        old(graph)@.dom().len() <= i64::MAX,
        forall|i: int|
            0 <= i < trajectory@.len() ==> old(graph)@.contains_key(#[trigger] trajectory@[i]),
        forall|n: Node<T>| #[trigger] call_requires(search, (&n,)),
    ensures
        same_shape(old(graph)@, final(graph)@),
        forall|u: T| #[trigger] out.1@.contains_key(u) ==> 0 <= out.1@[u] < old(graph)@.dom().len(),
        traversed(
            successors(old(graph)@, dir),
            trajectory@,
            times_of_order(out.1@, old(graph)@.dom().len() as int),
            out.0 is None,
        ),
        partial_finish_times(
            successors(old(graph)@, dir),
            trajectory@,
            times_of_order(out.1@, old(graph)@.dom().len() as int),
        ),
        out.0 is None ==> finish_times(
            successors(old(graph)@, dir),
            trajectory@,
            times_of_order(out.1@, old(graph)@.dom().len() as int),
        ),
        search_outcome(
            search,
            final(graph).nodes@,
            times_of_order(out.1@, old(graph)@.dom().len() as int),
            out.0,
        ),
        states_match(final(graph)@, out.1@, out.0),
        out.0 is None && (forall|u: T| #[trigger]
            old(graph)@.contains_key(u) ==> rooted(
                successors(old(graph)@, dir),
                trajectory@,
                trajectory@.len() as int,
                u,
            )) ==> is_numbering(out.1@) && out.1@.dom() == old(graph)@.dom(),
{
    let ghost adj = successors(old(graph)@, dir);
    let ghost count = old(graph)@.dom().len() as int;
    let (found, times) = dfs_finish_time(graph, trajectory, dir, search);
    assert(graph.nodes@.dom() =~= old(graph)@.dom());
    let total = fx_len(&graph.nodes) as i64;
    proof {
        lemma_successors_mirrored(old(graph)@);
        assert(adj.dom() =~= old(graph)@.dom());
        assert(times@.dom().subset_of(adj.dom())) by {
            assert forall|u: T| times@.dom().contains(u) implies adj.dom().contains(u) by {
                assert(times@.contains_key(u));
                let c = choose|c: int|
                    0 <= c < trajectory@.len() && crate::reach::reach(adj, #[trigger] trajectory@[c], u);
                lemma_reach_nodes(adj, trajectory@[c], u);
            }
        }
        vstd::set_lib::lemma_len_subset(times@.dom(), adj.dom());
    }
    let keys = fx_keys(&times);
    let mut order: FxHashMap<T, i64> = FxHashMap::default();
    let mut i: usize = 0;
    while i < keys.len()
        invariant
            obeys_key_model::<T>(),
            i <= keys.len(),
            keys@.to_set() == times@.dom(),
            is_numbering(times@),
            times@.dom().len() <= total == count,
            forall|u: T| #[trigger] order@.contains_key(u) <==> exists|j: int| 0 <= j < i && keys@[j] == u,
            forall|u: T| #[trigger] order@.contains_key(u) ==> order@[u] == total - 1 - times@[u],
        decreases keys.len() - i,
    {
        let id = keys[i];
        assert(keys@.to_set().contains(keys@[i as int]));
        assert(times@.contains_key(id));
        let at = *fx_get(&times, &id).unwrap();
        fx_insert(&mut order, id, total - at - 1);
        assert forall|u: T| #[trigger] order@.contains_key(u) <==> exists|j: int|
            0 <= j < i + 1 && keys@[j] == u by {
            if u == id {
                assert(keys@[i as int] == u);
            }
        }
        i += 1;
    }
    proof {
        assert(times_of_order(order@, count) =~= times@) by {
            assert forall|u: T| order@.contains_key(u) <==> times@.contains_key(u) by {
                if times@.contains_key(u) {
                    assert(keys@.to_set().contains(u));
                    let j = choose|j: int| 0 <= j < keys@.len() && keys@[j] == u;
                    assert(order@.contains_key(u));
                }
                if order@.contains_key(u) {
                    let j = choose|j: int| 0 <= j < i && keys@[j] == u;
                    assert(keys@.to_set().contains(keys@[j]));
                }
            }
        }
        assert(order@.dom() =~= times@.dom());
        assert forall|u: T| #[trigger] graph@.contains_key(u) implies (graph@[u].state
            == Visit::Finished <==> order@.contains_key(u)) && (found is None ==> graph@[u].state
            != Visit::Discovered) by {
            assert(times@.contains_key(u) <==> order@.contains_key(u));
        }
        if found is None && (forall|u: T| #[trigger]
            old(graph)@.contains_key(u) ==> rooted(adj, trajectory@, trajectory@.len() as int, u)) {
            assert(times@.dom() =~= old(graph)@.dom()) by {
                assert forall|u: T| old(graph)@.contains_key(u) implies times@.contains_key(u) by {
                    assert(rooted(adj, trajectory@, trajectory@.len() as int, u));
                }
            }
            lemma_order_is_numbering(order@, count);
        }
    }
    (found, order)
}

} // verus!
