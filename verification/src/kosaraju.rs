//! Strongly connected components by two depth-first passes.

use crate::decomposition::{is_decomposition, lemma_listed_at, lemma_roots_fall, lemma_second_pass};
use crate::forest::{forest, lemma_forest_pass, lemma_forest_take};
use crate::fx::{fx_get, fx_insert, fx_keys, fx_len};
use crate::graph::{
    colors, dfs_finish_ord, irrel, lemma_same_shape, same_shape, times_of_order, Direction, Graph,
    GraphView, NodeView, Visit,
};
use crate::reach::{
    closed, is_edge, lemma_path_avoiding_of, lemma_reach_avoiding_refl, lemma_reach_avoiding_step,
    lemma_reach_refl, lemma_successors_mirrored, reach, reach_avoiding, successors,
    tree, Adjacency,
};
use crate::traversal::{
    crowns_components, is_numbering, is_time_of_some,
    lemma_black_closed, lemma_finale, rooted, lemma_close, lemma_discover, lemma_drop_top, lemma_finish, lemma_pass_neighbour,
    lemma_pass_root, lemma_push_neighbour, lemma_start, lemma_take_root, Walk,
};
use fxhash::FxHashMap;
use std::collections::VecDeque;
use std::hash::Hash;
use vstd::prelude::*;
use vstd::std_specs::hash::obeys_key_model;

verus! {

/// The node sets of a sequence of graphs.
pub open spec fn node_sets<T: Copy + Eq + Hash>(parts: Seq<Graph<T>>) -> Seq<Set<T>> {
    Seq::new(parts.len(), |k: int| parts[k]@.dom())
}

/// A graph of nodes without edges.
pub open spec fn edgeless<T>(g: GraphView<T>) -> bool {
    forall|k: T| #[trigger] g.contains_key(k) ==> g[k] == NodeView::isolated(k)
}

/// The finished nodes of a traversal.
pub open spec fn blacks<T>(w: Walk<T>) -> Set<T> {
    Set::new(|u: T| w.black(u))
}

/// What holds while the tree of `root` grows over the nodes `base` that
/// earlier trees hold.
pub open spec fn growing<T>(w: Walk<T>, base: Set<T>, root: T, grown: Set<T>) -> bool {
    &&& forall|u: T| #[trigger] base.contains(u) ==> w.black(u)
    &&& forall|u: T| #[trigger]
        w.adj.contains_key(u) ==> w.white(u) || base.contains(u) || reach_avoiding(w.adj, base, root, u)
    &&& forall|j: int|
        0 <= j < w.stack.len() ==> reach_avoiding(w.adj, base, root, #[trigger] w.stack[j])
    &&& forall|u: T| #[trigger] grown.contains(u) <==> w.black(u) && !base.contains(u)
}

/// Once the stack is empty, the nodes finished since `root` was taken are
/// the tree of `root`.
pub proof fn lemma_tree_grown<T>(w: Walk<T>, base: Set<T>, root: T, grown: Set<T>)
    requires
        w.inv(),
        w.stack.len() == 0,
        growing(w, base, root, grown),
        w.adj.contains_key(root),
        !w.white(root),
        !base.contains(root),
    ensures
        grown == tree(w.adj, base, root),
        blacks(w) == base.union(grown),
{
    assert forall|g: T| !w.gray(g) by {
        if w.gray(g) {
            assert(w.has_mark(g));
            reveal(Walk::has_mark);
        }
    }
    assert(!w.gray(root));
    assert(w.black(root));
    assert forall|u: T| grown.contains(u) <==> tree(w.adj, base, root).contains(u) by {
        if grown.contains(u) {
            assert(w.adj.contains_key(u));
        }
        if reach_avoiding(w.adj, base, root, u) {
            let p = lemma_path_avoiding_of(w.adj, base, root, u);
            lemma_black_closed(w, p, p.len() - 1);
            assert(!base.contains(p[p.len() - 1]));
        }
    }
    assert(grown =~= tree(w.adj, base, root));
    assert(blacks(w) =~= base.union(grown));
}

/// The trees of a depth-first traversal, each as a graph of its nodes.
///
/// Root candidates are taken from `trajectory` front to back. One that an
/// earlier tree holds is passed over; any other starts a tree, which takes
/// every node that the root reaches, along the lists that `dir` selects,
/// without passing through an earlier tree. The graphs come in the order in
/// which the trees were started, and hold nodes only, no edges.
pub fn dfs_scc<T>(graph: &mut Graph<T>, trajectory: &VecDeque<T>, dir: Direction) -> (sccs: Vec<
    Graph<T>,
>) where T: Copy + Eq + Hash
    requires
        obeys_key_model::<T>(),
        old(graph).wf(),
        old(graph)@.dom().len() <= i64::MAX,
        forall|i: int|
            0 <= i < trajectory@.len() ==> old(graph)@.contains_key(#[trigger] trajectory@[i]),
    ensures
        same_shape(old(graph)@, final(graph)@),
        node_sets(sccs@) == forest(successors(old(graph)@, dir), trajectory@, Set::empty()),
        forall|k: int| 0 <= k < sccs@.len() ==> edgeless(#[trigger] sccs@[k]@),
        forall|u: T| #[trigger]
            final(graph)@.contains_key(u) ==> final(graph)@[u].state == (if rooted(
                successors(old(graph)@, dir),
                trajectory@,
                trajectory@.len() as int,
                u,
            ) {
                Visit::Finished
            } else {
                Visit::Unvisited
            }),
{
    let ghost adj = successors(old(graph)@, dir);
    graph.reset_visits();
    let mut sccs: Vec<Graph<T>> = Vec::new();
    let mut stack: Vec<T> = Vec::new();
    let mut cursor: usize = 0;
    let ghost mut w = Walk::start(adj, trajectory@);
    proof {
        lemma_successors_mirrored(old(graph)@);
        assert(adj.dom() =~= old(graph)@.dom());
        lemma_start(adj, trajectory@);
        assert(w.color =~= colors(graph@));
        assert(blacks(w) =~= Set::<T>::empty());
        assert(trajectory@.skip(0) =~= trajectory@);
        assert(node_sets(sccs@) =~= Seq::<Set<T>>::empty());
    }
    while cursor < trajectory.len()
        invariant
            obeys_key_model::<T>(),
            same_shape(old(graph)@, graph@),
            adj == successors(old(graph)@, dir),
            adj.dom().len() <= i64::MAX,
            held(w, adj, graph@, stack@, trajectory@, cursor),
            w.open_at == -1,
            stack@.len() == 0,
            cursor <= trajectory.len(),
            forest(adj, trajectory@, Set::empty()) == node_sets(sccs@) + forest(
                adj,
                trajectory@.skip(cursor as int),
                blacks(w),
            ),
            forall|k: int| 0 <= k < sccs@.len() ==> edgeless(#[trigger] sccs@[k]@),
        decreases trajectory.len() - cursor,
    {
        let root = trajectory[cursor];
        let ghost base = blacks(w);
        let ghost before = sccs@;
        proof {
            assert(adj.contains_key(w.traj[cursor as int]));
            assert forall|g: T| !w.gray(g) by {
                if w.gray(g) {
                    assert(w.has_mark(g));
                    reveal(Walk::has_mark);
                }
            }
        }
        if graph.state_of(&root) != Visit::Unvisited {
            proof {
                assert(!w.gray(root));
                assert(base.contains(root));
                lemma_forest_pass(adj, trajectory@, base, cursor as int);
                lemma_pass_root(w);
                w = w.pass_root();
                assert(blacks(w) =~= base);
            }
            cursor += 1;
        } else {
            let mut current: Graph<T> = Graph::new();
            proof {
                lemma_forest_take(adj, trajectory@, base, cursor as int);
                lemma_take_root(w);
                assert forall|u: T| #[trigger] adj.contains_key(u) implies w.white(u) || base.contains(
                    u,
                ) by {
                    assert(!w.gray(u));
                }
                w = w.take_root();
                lemma_reach_avoiding_refl(adj, base, root);
            }
            stack.push(root);
            cursor += 1;
            assert(w.stack =~= stack@);
            while stack.len() > 0
                invariant
                    obeys_key_model::<T>(),
                    same_shape(old(graph)@, graph@),
                    adj == successors(old(graph)@, dir),
                    adj.dom().len() <= i64::MAX,
                    held(w, adj, graph@, stack@, trajectory@, cursor),
                    w.open_at == -1,
                    growing(w, base, root, current@.dom()),
                    edgeless(current@),
                    current.wf(),
                    adj.contains_key(root),
                    !base.contains(root),
                    cursor > 0,
                    root == trajectory@[cursor - 1],
                decreases w.whites().len(), stack.len(),
            {
                let id = stack[stack.len() - 1];
                assert(adj.contains_key(w.stack[stack.len() - 1]));
                match graph.state_of(&id) {
                    Visit::Unvisited => {
                        graph.set_state(&id, Visit::Discovered);
                        proof {
                            lemma_discover(w);
                            w = w.discover();
                            assert(w.color =~= colors(graph@));
                        }
                        let ghost top = stack.len() - 1;
                        let ghost left = w.whites();
                        assert(graph.nodes@.contains_key(id));
                        let node = fx_get(&graph.nodes, &id).unwrap();
                        let list = match dir {
                            Direction::Outgoing => &node.edges,
                            Direction::Incoming => &node.inverse_edges,
                        };
                        assert(list@ == adj[id]);
                        let mut n: usize = 0;
                        while n < list.len()
                            invariant
                                obeys_key_model::<T>(),
                                same_shape(old(graph)@, graph@),
                                held(w, adj, graph@, stack@, trajectory@, cursor),
                                growing(w, base, root, current@.dom()),
                                w.open_at == top,
                                w.open_done == n,
                                0 <= top < stack.len(),
                                stack@[top] == id,
                                list@ == adj[id],
                                n <= list.len(),
                                w.whites() == left,
                            decreases list.len() - n,
                        {
                            let next = list[n];
                            assert(closed(adj));
                            assert(adj.contains_key(adj[id][n as int]));
                            if graph.state_of(&next) == Visit::Unvisited {
                                stack.push(next);
                                proof {
                                    assert(is_edge(adj, id, next));
                                    assert(!base.contains(next));
                                    lemma_reach_avoiding_step(adj, base, root, id, next);
                                    lemma_push_neighbour(w);
                                    w = w.push_neighbour();
                                    assert(w.whites() =~= left);
                                }
                            } else {
                                proof {
                                    lemma_pass_neighbour(w);
                                    w = w.pass_neighbour();
                                    assert(w.whites() =~= left);
                                }
                            }
                            n += 1;
                        }
                        proof {
                            lemma_close(w);
                            w = w.close();
                            assert(w.whites() =~= left);
                        }
                    },
                    Visit::Discovered => {
                        stack.pop();
                        graph.set_state(&id, Visit::Finished);
                        current.add_node(&id);
                        proof {
                            lemma_finish(w);
                            w = w.finish();
                            assert(w.color =~= colors(graph@));
                            assert(w.stack =~= stack@);
                            crate::graph::lemma_with_node_well_formed(current@, id);
                        }
                    },
                    Visit::Finished => {
                        stack.pop();
                        proof {
                            lemma_drop_top(w);
                            w = w.drop_top();
                            assert(w.stack =~= stack@);
                        }
                    },
                }
            }
            proof {
                assert(!w.white(w.traj[cursor - 1]) || w.stack.contains(w.traj[cursor - 1]));
                lemma_tree_grown(w, base, root, current@.dom());
                let grown = tree(adj, base, root);
                let rest = forest(adj, trajectory@.skip(cursor as int), base.union(grown));
                assert(node_sets(before.push(current)) =~= node_sets(before) + seq![grown]);
                assert((node_sets(before) + seq![grown]) + rest =~= node_sets(before) + (seq![grown]
                    + rest));
            }
            sccs.push(current);
        }
    }
    proof {
        assert(trajectory@.skip(cursor as int) =~= Seq::<T>::empty());
        assert(node_sets(sccs@) + Seq::<Set<T>>::empty() =~= node_sets(sccs@));
        lemma_finale(w);
        assert forall|u: T| #[trigger] graph@.contains_key(u) implies graph@[u].state == (if rooted(
            adj,
            trajectory@,
            trajectory@.len() as int,
            u,
        ) {
            Visit::Finished
        } else {
            Visit::Unvisited
        }) by {
            assert(w.times.contains_key(u) <==> w.black(u));
            assert(!w.gray(u));
        }
    }
    sccs
}

/// The ghost model `w` describes the variables of a traversal that keeps no
/// finish times of its own.
pub open spec fn held<T>(
    w: Walk<T>,
    adj: Adjacency<T>,
    g: GraphView<T>,
    stack: Seq<T>,
    traj: Seq<T>,
    cursor: usize,
) -> bool {
    &&& w.inv()
    &&& w.adj == adj
    &&& w.color == colors(g)
    &&& w.stack == stack
    &&& w.traj == traj
    &&& w.cursor == cursor
}

/// The first pass: a traversal against the edges, from every node, that
/// gives each node its finish order.
fn reverse_pass(graph: &mut Graph<usize>) -> (order: FxHashMap<usize, i64>)
    requires
        old(graph).wf(),
        old(graph)@.dom().len() <= i64::MAX,
    ensures
        same_shape(old(graph)@, final(graph)@),
        is_numbering(order@),
        order@.dom() == old(graph)@.dom(),
        is_numbering(times_of_order(order@, old(graph)@.dom().len() as int)),
        crowns_components(
            successors(old(graph)@, Direction::Incoming),
            times_of_order(order@, old(graph)@.dom().len() as int),
        ),
{
    let ghost rev = successors(old(graph)@, Direction::Incoming);
    let ghost count = old(graph)@.dom().len() as int;
    assert(graph.nodes@.dom() =~= old(graph)@.dom());
    let trajectory = fx_keys(&graph.nodes);
    proof {
        lemma_successors_mirrored(old(graph)@);
        assert(rev.dom() =~= old(graph)@.dom());
        assert forall|i: int| 0 <= i < trajectory@.len() implies old(graph)@.contains_key(
            #[trigger] trajectory@[i],
        ) by {
            assert(trajectory@.to_set().contains(trajectory@[i]));
        }
        assert forall|u: usize| #[trigger] old(graph)@.contains_key(u) implies rooted(
            rev,
            trajectory@,
            trajectory@.len() as int,
            u,
        ) by {
            assert(trajectory@.to_set().contains(u));
            let c = choose|c: int| 0 <= c < trajectory@.len() && trajectory@[c] == u;
            lemma_reach_refl(rev, u);
            assert(reach(rev, trajectory@[c], u));
        }
    }
    let (found, order) = dfs_finish_ord(graph, &trajectory, Direction::Incoming, irrel);
    proof {
        let times = times_of_order(order@, count);
        if found is Some {
            assert(is_time_of_some(times, times.dom().len() - 1));
            let u = choose|u: usize| times.contains_key(u) && #[trigger] times[u] == times.dom().len() - 1;
            assert(times.contains_key(u));
        }
    }
    order
}

/// The nodes in the order of their finish order: the node of order zero first.
fn roots_by_order(order: &FxHashMap<usize, i64>, total: usize) -> (trajectory: VecDeque<usize>)
    requires
        is_numbering(order@),
        order@.dom().len() == total <= i64::MAX,
    ensures
        trajectory@.len() == total,
        forall|j: int|
            0 <= j < total ==> order@.contains_key(#[trigger] trajectory@[j]) && order@[trajectory@[j]]
                == j,
{
    let keys = fx_keys(order);
    let mut by_order: FxHashMap<i64, usize> = FxHashMap::default();
    let mut i: usize = 0;
    while i < keys.len()
        invariant
            i <= keys.len(),
            keys@.to_set() == order@.dom(),
            forall|m: i64| #[trigger]
                by_order@.contains_key(m) ==> order@.contains_key(by_order@[m]) && order@[by_order@[m]]
                    == m,
            forall|j: int| 0 <= j < i ==> by_order@.contains_key(order@[#[trigger] keys@[j]]),
        decreases keys.len() - i,
    {
        let id = keys[i];
        assert(keys@.to_set().contains(keys@[i as int]));
        let at = *fx_get(order, &id).unwrap();
        fx_insert(&mut by_order, at, id);
        i += 1;
    }
    let mut trajectory: VecDeque<usize> = VecDeque::new();
    let mut rank: usize = 0;
    while rank < total
        invariant
            rank <= total <= i64::MAX,
            is_numbering(order@),
            order@.dom().len() == total,
            keys@.to_set() == order@.dom(),
            trajectory@.len() == rank,
            forall|m: i64| #[trigger]
                by_order@.contains_key(m) ==> order@.contains_key(by_order@[m]) && order@[by_order@[m]]
                    == m,
            forall|j: int| 0 <= j < keys@.len() ==> by_order@.contains_key(order@[#[trigger] keys@[j]]),
            forall|j: int|
                0 <= j < rank ==> order@.contains_key(#[trigger] trajectory@[j]) && order@[trajectory@[j]]
                    == j,
        decreases total - rank,
    {
        let at = rank as i64;
        proof {
            assert(is_time_of_some(order@, rank as int));
            let u = choose|u: usize| order@.contains_key(u) && #[trigger] order@[u] == rank as int;
            assert(keys@.to_set().contains(u));
            let j = choose|j: int| 0 <= j < keys@.len() && keys@[j] == u;
            assert(by_order@.contains_key(order@[keys@[j]]));
        }
        let id = *fx_get(&by_order, &at).unwrap();
        trajectory.push_back(id);
        rank += 1;
    }
    trajectory
}

/// The strongly connected components of a graph, each as a graph of its
/// nodes, without edges.
///
/// A first traversal against the edges gives every node a finish order; a
/// second one along the edges takes its roots by that order, and each of
/// its trees is one component.
pub fn kosaraju(graph: &mut Graph<usize>) -> (sccs: Vec<Graph<usize>>)
    requires
        old(graph).wf(),
        old(graph)@.dom().len() <= i64::MAX,
    ensures
        same_shape(old(graph)@, final(graph)@),
        is_decomposition(successors(old(graph)@, Direction::Outgoing), node_sets(sccs@)),
        forall|k: int| 0 <= k < sccs@.len() ==> edgeless(#[trigger] sccs@[k]@),
        forall|u: usize| #[trigger] final(graph)@.contains_key(u) ==> final(graph)@[u].state == Visit::Finished,
{
    let order = reverse_pass(graph);
    assert(graph.nodes@.dom() =~= old(graph)@.dom());
    let total = fx_len(&graph.nodes);
    let trajectory = roots_by_order(&order, total);
    let ghost fwd = successors(old(graph)@, Direction::Outgoing);
    proof {
        lemma_same_shape(old(graph)@, graph@, Direction::Outgoing);
        assert forall|i: int| 0 <= i < trajectory@.len() implies graph@.contains_key(
            #[trigger] trajectory@[i],
        ) by {
            assert(order@.contains_key(trajectory@[i]));
        }
        lemma_second_pass(old(graph)@, order@, trajectory@);
        lemma_roots_fall(order@, trajectory@);
        lemma_successors_mirrored(old(graph)@);
        assert(fwd.dom() =~= old(graph)@.dom());
        assert forall|u: usize| old(graph)@.contains_key(u) implies rooted(
            fwd,
            trajectory@,
            trajectory@.len() as int,
            u,
        ) by {
            assert(order@.contains_key(u));
            let c = lemma_listed_at(trajectory@, u);
            lemma_reach_refl(fwd, u);
            assert(reach(fwd, trajectory@[c], u));
        }
    }
    dfs_scc(graph, &trajectory, Direction::Outgoing)
}

} // verus!
