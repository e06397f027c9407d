//! What it means to split a graph into its strongly connected components,
//! and why the trees of the second traversal do so.

use crate::forest::{
    all_components, by_falling_time, forest, holds_root, inhabited, lemma_forest_partition,
    lemma_total_size, lemma_trees_are_components, pairwise_disjoint, spread, total_size, union_of,
};
use crate::graph::{lemma_same_shape, same_shape, times_of_order, well_formed, Direction, GraphView};
use crate::reach::{
    closed, lemma_reach_nodes, lemma_reach_refl, lemma_successors_mirrored, reach, successors,
    Adjacency,
};
use crate::traversal::{crowns_components, is_numbering, rooted};
use vstd::prelude::*;

verus! {

/// `parts` splits the nodes of `adj` into its strongly connected components:
/// every part is the component of each of its nodes, no part is empty, no
/// node lies in two parts, every node lies in one, and the sizes of the
/// parts add up to the number of nodes.
pub open spec fn is_decomposition<T>(adj: Adjacency<T>, parts: Seq<Set<T>>) -> bool {
    &&& all_components(adj, parts)
    &&& forall|k: int| 0 <= k < parts.len() ==> #[trigger] inhabited(parts[k])
    &&& pairwise_disjoint(parts)
    &&& union_of(parts) == adj.dom()
    &&& total_size(parts) == adj.dom().len()
}

/// Two decompositions of one graph hold the same parts, and equally many:
/// they differ at most in the order of the parts.
pub proof fn lemma_decomposition_unique<T>(adj: Adjacency<T>, a: Seq<Set<T>>, b: Seq<Set<T>>)
    requires
        is_decomposition(adj, a),
        is_decomposition(adj, b),
    ensures
        a.to_set() == b.to_set(),
        a.len() == b.len(),
{
    lemma_parts_found(adj, a, b);
    lemma_parts_found(adj, b, a);
    assert(a.to_set() =~= b.to_set());
    lemma_parts_distinct(adj, a);
    lemma_parts_distinct(adj, b);
    a.unique_seq_to_set();
    b.unique_seq_to_set();
}

/// Decomposing a graph again gives the same parts, whatever states the
/// traversals before have left on its nodes.
pub proof fn lemma_rerun_same_parts<T>(g: GraphView<T>, h: GraphView<T>, a: Seq<Set<T>>, b: Seq<Set<T>>)
    requires
        same_shape(g, h),
        is_decomposition(successors(g, Direction::Outgoing), a),
        is_decomposition(successors(h, Direction::Outgoing), b),
    ensures
        a.to_set() == b.to_set(),
        a.len() == b.len(),
{
    lemma_same_shape(g, h, Direction::Outgoing);
    lemma_decomposition_unique(successors(g, Direction::Outgoing), a, b);
}

/// Every part of one decomposition is a part of any other.
pub proof fn lemma_parts_found<T>(adj: Adjacency<T>, a: Seq<Set<T>>, b: Seq<Set<T>>)
    requires
        is_decomposition(adj, a),
        is_decomposition(adj, b),
    ensures
        forall|p: Set<T>| a.to_set().contains(p) ==> b.to_set().contains(p),
{
    assert forall|p: Set<T>| a.to_set().contains(p) implies b.to_set().contains(p) by {
        let k = choose|k: int| 0 <= k < a.len() && a[k] == p;
        assert(inhabited(a[k]));
        let u = choose|u: T| a[k].contains(u);
        assert(union_of(a).contains(u));
        assert(union_of(b).contains(u));
        let j = choose|j: int| 0 <= j < b.len() && #[trigger] b[j].contains(u);
        assert(b[j] == p);
    }
}

/// The parts of a decomposition are pairwise different.
pub proof fn lemma_parts_distinct<T>(adj: Adjacency<T>, a: Seq<Set<T>>)
    requires
        is_decomposition(adj, a),
    ensures
        a.no_duplicates(),
{
    assert forall|i: int, j: int| 0 <= i < a.len() && 0 <= j < a.len() && i != j implies a[i]
        != a[j] by {
        assert(inhabited(a[i]));
        let u = choose|u: T| a[i].contains(u);
        if i < j {
            assert(!a[j].contains(u));
        } else {
            assert(a[j].contains(u) ==> !a[i].contains(u));
        }
    }
}

/// `u` is one of the root candidates.
#[verifier::opaque]
pub open spec fn lists<T>(traj: Seq<T>, u: T) -> bool {
    exists|c: int| 0 <= c < traj.len() && #[trigger] traj[c] == u
}

/// Where `u` stands among the root candidates.
pub proof fn lemma_listed_at<T>(traj: Seq<T>, u: T) -> (c: int)
    requires
        lists(traj, u),
    ensures
        0 <= c < traj.len(),
        traj[c] == u,
{
    reveal(lists);
    choose|c: int| 0 <= c < traj.len() && #[trigger] traj[c] == u
}

/// Each root candidate is one.
pub proof fn lemma_lists<T>(traj: Seq<T>, c: int)
    requires
        0 <= c < traj.len(),
    ensures
        lists(traj, traj[c]),
{
    reveal(lists);
}

/// Roots that list every node reach every node, and nothing else.
pub proof fn lemma_roots_cover<T>(adj: Adjacency<T>, traj: Seq<T>)
    requires
        closed(adj),
        forall|c: int| 0 <= c < traj.len() ==> adj.contains_key(#[trigger] traj[c]),
        forall|u: T| #[trigger] adj.contains_key(u) ==> lists(traj, u),
    ensures
        spread(adj, traj, Set::empty()) == adj.dom(),
{
    let none = Set::<T>::empty();
    assert forall|u: T| spread(adj, traj, none).contains(u) <==> adj.dom().contains(u) by {
        if adj.dom().contains(u) {
            assert(lists(traj, u));
            let c = lemma_listed_at(traj, u);
            lemma_reach_refl(adj, u);
            assert(reach(adj, traj[c], u));
        }
        if rooted(adj, traj, traj.len() as int, u) {
            let c = choose|c: int| 0 <= c < traj.len() && reach(adj, #[trigger] traj[c], u);
            lemma_reach_nodes(adj, traj[c], u);
        }
    }
    assert(spread(adj, traj, none) =~= adj.dom());
}

/// The trees grown from roots that list every node hold every node once,
/// and none of them is empty.
pub proof fn lemma_forest_covers<T>(adj: Adjacency<T>, traj: Seq<T>)
    requires
        closed(adj),
        forall|c: int| 0 <= c < traj.len() ==> adj.contains_key(#[trigger] traj[c]),
        forall|u: T| #[trigger] adj.contains_key(u) ==> lists(traj, u),
    ensures
        pairwise_disjoint(forest(adj, traj, Set::empty())),
        union_of(forest(adj, traj, Set::empty())) == adj.dom(),
        forall|k: int|
            0 <= k < forest(adj, traj, Set::empty()).len() ==> #[trigger] inhabited(
                forest(adj, traj, Set::empty())[k],
            ),
{
    let none = Set::<T>::empty();
    let parts = forest(adj, traj, none);
    lemma_forest_partition(adj, traj, none);
    lemma_roots_cover(adj, traj);
    assert(none.union(union_of(parts)) =~= union_of(parts));
    assert forall|k: int| 0 <= k < parts.len() implies #[trigger] inhabited(parts[k]) by {
        assert(holds_root(parts[k], traj));
        let c = choose|c: int| 0 <= c < traj.len() && parts[k].contains(#[trigger] traj[c]);
        assert(parts[k].contains(traj[c]));
    }
}

/// The sizes of pairwise disjoint sets that together hold every node add
/// up to the number of nodes.
pub proof fn lemma_sizes_add_up<T>(whole: Set<T>, parts: Seq<Set<T>>)
    requires
        whole.finite(),
        pairwise_disjoint(parts),
        union_of(parts) == whole,
    ensures
        total_size(parts) == whole.len(),
{
    assert forall|k: int| 0 <= k < parts.len() implies (#[trigger] parts[k]).subset_of(whole) by {
        assert forall|u: T| parts[k].contains(u) implies whole.contains(u) by {
            assert(union_of(parts).contains(u));
        }
    }
    lemma_total_size(parts, whole);
}

/// Trees that are components and come from roots that list every node are
/// the decomposition of the graph.
pub proof fn lemma_forest_decomposes<T>(adj: Adjacency<T>, traj: Seq<T>)
    requires
        closed(adj),
        adj.dom().finite(),
        forall|c: int| 0 <= c < traj.len() ==> adj.contains_key(#[trigger] traj[c]),
        forall|u: T| #[trigger] adj.contains_key(u) ==> lists(traj, u),
        all_components(adj, forest(adj, traj, Set::empty())),
    ensures
        is_decomposition(adj, forest(adj, traj, Set::empty())),
{
    lemma_forest_covers(adj, traj);
    lemma_sizes_add_up(adj.dom(), forest(adj, traj, Set::empty()));
}

/// The trees of a traversal of a graph whose edges run both ways, from
/// roots that list every node, are the decomposition of the graph.
pub proof fn lemma_undirected_decomposes<T>(adj: Adjacency<T>, traj: Seq<T>)
    requires
        crate::reach::mirrored(adj, adj),
        closed(adj),
        adj.dom().finite(),
        traj.to_set() == adj.dom(),
    ensures
        is_decomposition(adj, forest(adj, traj, Set::empty())),
{
    assert forall|c: int| 0 <= c < traj.len() implies adj.contains_key(#[trigger] traj[c]) by {
        assert(traj.to_set().contains(traj[c]));
    }
    assert forall|u: T| #[trigger] adj.contains_key(u) implies lists(traj, u) by {
        assert(traj.to_set().contains(u));
        let c = choose|c: int| 0 <= c < traj.len() && traj[c] == u;
        lemma_lists(traj, c);
    }
    assert(traj.skip(0) =~= traj);
    crate::forest::lemma_undirected_trees(adj, traj, 0, Set::empty());
    lemma_forest_decomposes(adj, traj);
}

/// Roots taken by finish order are roots taken by falling finish time, and
/// list every node.
pub proof fn lemma_roots_fall<T>(order: Map<T, i64>, traj: Seq<T>)
    requires
        traj.len() == order.dom().len(),
        traj.len() <= i64::MAX,
        is_numbering(times_of_order(order, traj.len() as int)),
        forall|j: int|
            0 <= j < traj.len() ==> order.contains_key(#[trigger] traj[j]) && order[traj[j]] == j,
    ensures
        by_falling_time(traj, times_of_order(order, traj.len() as int)),
        forall|u: T| #[trigger] order.contains_key(u) ==> lists(traj, u),
{
    let times = times_of_order(order, traj.len() as int);
    assert(times.dom() =~= order.dom());
    assert forall|i: int| 0 <= i < traj.len() implies times.contains_key(#[trigger] traj[i])
        && times[traj[i]] == traj.len() - 1 - i by {
        assert(order.contains_key(traj[i]));
    }
    assert forall|u: T| #[trigger] order.contains_key(u) implies lists(traj, u) by {
        assert(times.contains_key(u));
        let at = traj.len() - 1 - times[u];
        assert(order.contains_key(traj[at]));
        assert(times.contains_key(traj[at]) && times[traj[at]] == times[u]);
        assert(traj[at] == u);
        lemma_lists(traj, at);
    }
}

/// The trees of the second pass are the decomposition of the graph.
pub proof fn lemma_second_pass<T>(g: GraphView<T>, order: Map<T, i64>, traj: Seq<T>)
    requires
        well_formed(g),
        g.dom().len() <= i64::MAX,
        order.dom() == g.dom(),
        is_numbering(times_of_order(order, g.dom().len() as int)),
        crowns_components(
            successors(g, Direction::Incoming),
            times_of_order(order, g.dom().len() as int),
        ),
        traj.len() == g.dom().len(),
        forall|j: int|
            0 <= j < traj.len() ==> order.contains_key(#[trigger] traj[j]) && order[traj[j]] == j,
    ensures
        is_decomposition(
            successors(g, Direction::Outgoing),
            forest(successors(g, Direction::Outgoing), traj, Set::empty()),
        ),
{
    let fwd = successors(g, Direction::Outgoing);
    let rev = successors(g, Direction::Incoming);
    let times = times_of_order(order, g.dom().len() as int);
    let none = Set::<T>::empty();
    lemma_successors_mirrored(g);
    assert(fwd.dom() =~= g.dom());
    assert(times.dom() =~= fwd.dom());
    lemma_roots_fall(order, traj);
    assert(traj.skip(0) =~= traj);
    lemma_trees_are_components(fwd, rev, times, traj, 0, none);
    assert forall|c: int| 0 <= c < traj.len() implies fwd.contains_key(#[trigger] traj[c]) by {
        assert(order.contains_key(traj[c]));
    }
    lemma_forest_decomposes(fwd, traj);
}

} // verus!
