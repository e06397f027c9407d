//! The trees that a depth-first traversal grows, as sets of nodes, and what
//! makes each of them a strongly connected component.

use crate::reach::{
    avoids, closed, component, is_edge, is_path, lemma_mutual_trans, lemma_path_of,
    lemma_path_reaches_avoiding, lemma_path_suffix, lemma_reach_avoiding_refl,
    lemma_reach_avoiding_step, lemma_reach_avoiding_weaken, lemma_reach_mirrored, lemma_reach_nodes,
    mirrored, mutual, reach, reach_avoiding, step_at, tree, Adjacency,
};
use crate::traversal::{crowns_components, is_numbering, outlasted, rooted};
use vstd::prelude::*;

verus! {

/// The trees of a traversal that takes its roots from `traj`, front to back,
/// and has reached `seen` before: a root candidate in `seen` is passed over,
/// any other grows the tree of all that it reaches outside `seen`, which is
/// then added to `seen`.
pub open spec fn forest<T>(adj: Adjacency<T>, traj: Seq<T>, seen: Set<T>) -> Seq<Set<T>>
    decreases traj.len(),
{
    if traj.len() == 0 {
        Seq::empty()
    } else if seen.contains(traj[0]) {
        forest(adj, traj.skip(1), seen)
    } else {
        seq![tree(adj, seen, traj[0])] + forest(
            adj,
            traj.skip(1),
            seen.union(tree(adj, seen, traj[0])),
        )
    }
}

/// The union of all the sets in `parts`.
pub open spec fn union_of<T>(parts: Seq<Set<T>>) -> Set<T> {
    Set::new(|u: T| exists|k: int| 0 <= k < parts.len() && #[trigger] parts[k].contains(u))
}

/// No node lies in two of the sets in `parts`.
pub open spec fn pairwise_disjoint<T>(parts: Seq<Set<T>>) -> bool {
    forall|i: int, j: int, u: T|
        0 <= i < j < parts.len() && #[trigger] parts[i].contains(u) ==> !#[trigger] parts[j].contains(u)
}

/// The sizes of the sets in `parts`, added up.
pub open spec fn total_size<T>(parts: Seq<Set<T>>) -> nat
    decreases parts.len(),
{
    if parts.len() == 0 {
        0
    } else {
        parts[0].len() + total_size(parts.skip(1))
    }
}

/// `part` holds one of the root candidates.
pub open spec fn holds_root<T>(part: Set<T>, traj: Seq<T>) -> bool {
    exists|c: int| 0 <= c < traj.len() && part.contains(#[trigger] traj[c])
}

/// `part` holds a node.
pub open spec fn inhabited<T>(part: Set<T>) -> bool {
    exists|u: T| part.contains(u)
}

/// No step leads out of `seen`.
pub open spec fn sealed<T>(adj: Adjacency<T>, seen: Set<T>) -> bool {
    forall|u: T, v: T| seen.contains(u) && #[trigger] is_edge(adj, u, v) ==> seen.contains(v)
}

/// The forest from the `c`-th root candidate on, where that candidate has
/// been reached before.
pub proof fn lemma_forest_pass<T>(adj: Adjacency<T>, traj: Seq<T>, seen: Set<T>, c: int)
    requires
        0 <= c < traj.len(),
        seen.contains(traj[c]),
    ensures
        forest(adj, traj.skip(c), seen) == forest(adj, traj.skip(c + 1), seen),
{
    assert(traj.skip(c).skip(1) =~= traj.skip(c + 1));
}

/// The forest from the `c`-th root candidate on, where that candidate starts a tree.
pub proof fn lemma_forest_take<T>(adj: Adjacency<T>, traj: Seq<T>, seen: Set<T>, c: int)
    requires
        0 <= c < traj.len(),
        !seen.contains(traj[c]),
    ensures
        forest(adj, traj.skip(c), seen) == seq![tree(adj, seen, traj[c])] + forest(
            adj,
            traj.skip(c + 1),
            seen.union(tree(adj, seen, traj[c])),
        ),
{
    assert(traj.skip(c).skip(1) =~= traj.skip(c + 1));
}

/// Whatever a node of a sealed set reaches lies in the set.
pub proof fn lemma_sealed_reach<T>(adj: Adjacency<T>, seen: Set<T>, p: Seq<T>, i: int)
    requires
        sealed(adj, seen),
        is_path(adj, p),
        seen.contains(p[0]),
        0 <= i < p.len(),
    ensures
        seen.contains(p[i]),
    decreases i,
{
    if i > 0 {
        lemma_sealed_reach(adj, seen, p, i - 1);
        assert(step_at(adj, p, i - 1));
    }
}

/// A sealed set stays sealed when the tree of a root outside it is added.
pub proof fn lemma_sealed_grows<T>(adj: Adjacency<T>, seen: Set<T>, root: T)
    requires
        sealed(adj, seen),
    ensures
        sealed(adj, seen.union(tree(adj, seen, root))),
{
    let grown = seen.union(tree(adj, seen, root));
    assert forall|u: T, v: T| grown.contains(u) && #[trigger] is_edge(adj, u, v) implies grown.contains(
        v,
    ) by {
        if !seen.contains(u) && !seen.contains(v) {
            lemma_reach_avoiding_step(adj, seen, root, u, v);
        }
    }
}

/// From outside a sealed set, a node is reached around the set or not at all.
pub proof fn lemma_reach_around<T>(adj: Adjacency<T>, seen: Set<T>, x: T, y: T)
    requires
        closed(adj),
        sealed(adj, seen),
        reach(adj, x, y),
        !seen.contains(y),
    ensures
        reach_avoiding(adj, seen, x, y),
{
    let p = lemma_path_of(adj, x, y);
    assert(avoids(p, seen)) by {
        assert forall|i: int| 0 <= i < p.len() implies !seen.contains(#[trigger] p[i]) by {
            if seen.contains(p[i]) {
                let q = p.skip(i);
                lemma_path_suffix(adj, p, i);
                lemma_sealed_reach(adj, seen, q, q.len() - 1);
            }
        }
    }
    lemma_path_reaches_avoiding(adj, seen, p, p.len() - 1);
}

/// What the first `upto` root candidates reach, added to `seen`.
pub open spec fn spread<T>(adj: Adjacency<T>, traj: Seq<T>, seen: Set<T>) -> Set<T> {
    Set::new(|u: T| seen.contains(u) || rooted(adj, traj, traj.len() as int, u))
}

/// The trees of a traversal are pairwise disjoint, none is empty or holds a
/// node reached before, and together with the nodes reached before they hold
/// exactly what the root candidates reach.
pub proof fn lemma_forest_partition<T>(adj: Adjacency<T>, traj: Seq<T>, seen: Set<T>)
    requires
        closed(adj),
        sealed(adj, seen),
        forall|c: int| 0 <= c < traj.len() ==> adj.contains_key(#[trigger] traj[c]),
    ensures
        pairwise_disjoint(forest(adj, traj, seen)),
        forall|k: int, u: T|
            0 <= k < forest(adj, traj, seen).len() && #[trigger] forest(adj, traj, seen)[k].contains(u)
                ==> !seen.contains(u) && adj.contains_key(u),
        forall|k: int|
            0 <= k < forest(adj, traj, seen).len() ==> #[trigger] holds_root(
                forest(adj, traj, seen)[k],
                traj,
            ),
        seen.union(union_of(forest(adj, traj, seen))) == spread(adj, traj, seen),
    decreases traj.len(),
{
    let f = forest(adj, traj, seen);
    if traj.len() == 0 {
        assert(seen.union(union_of(f)) =~= spread(adj, traj, seen));
    } else {
        let r = traj[0];
        let rest = traj.skip(1);
        if seen.contains(r) {
            lemma_forest_partition(adj, rest, seen);
            assert forall|k: int| 0 <= k < f.len() implies #[trigger] holds_root(f[k], traj) by {
                assert(holds_root(f[k], rest));
                let c = choose|c: int| 0 <= c < rest.len() && f[k].contains(#[trigger] rest[c]);
                assert(f[k].contains(traj[c + 1]));
            }
            assert forall|u: T| spread(adj, traj, seen).contains(u) <==> spread(
                adj,
                rest,
                seen,
            ).contains(u) by {
                if rooted(adj, traj, traj.len() as int, u) && !seen.contains(u) {
                    let c = choose|c: int| 0 <= c < traj.len() && reach(adj, #[trigger] traj[c], u);
                    if c == 0 {
                        let p = lemma_path_of(adj, r, u);
                        lemma_sealed_reach(adj, seen, p, p.len() - 1);
                    } else {
                        assert(reach(adj, rest[c - 1], u));
                    }
                }
                if rooted(adj, rest, rest.len() as int, u) {
                    let c = choose|c: int| 0 <= c < rest.len() && reach(adj, #[trigger] rest[c], u);
                    assert(reach(adj, traj[c + 1], u));
                }
            }
            assert(seen.union(union_of(f)) =~= spread(adj, traj, seen));
        } else {
            let t = tree(adj, seen, r);
            let more = seen.union(t);
            let g = forest(adj, rest, more);
            lemma_sealed_grows(adj, seen, r);
            lemma_forest_partition(adj, rest, more);
            lemma_reach_avoiding_refl(adj, seen, r);
            assert(f == seq![t] + g);
            assert forall|k: int, u: T| 0 <= k < f.len() && #[trigger] f[k].contains(u)
                implies !seen.contains(u) && adj.contains_key(u) by {
                if k == 0 {
                    lemma_reach_avoiding_weaken(adj, seen, r, u);
                    lemma_reach_nodes(adj, r, u);
                } else {
                    assert(g[k - 1].contains(u));
                }
            }
            assert forall|i: int, j: int, u: T|
                0 <= i < j < f.len() && #[trigger] f[i].contains(u) implies !#[trigger] f[j].contains(
                u,
            ) by {
                if f[j].contains(u) {
                    assert(g[j - 1].contains(u));
                    if i > 0 {
                        assert(g[i - 1].contains(u));
                    }
                }
            }
            assert forall|k: int| 0 <= k < f.len() implies #[trigger] holds_root(f[k], traj) by {
                if k == 0 {
                    assert(f[0].contains(traj[0]));
                } else {
                    assert(holds_root(g[k - 1], rest));
                    let c = choose|c: int| 0 <= c < rest.len() && g[k - 1].contains(#[trigger] rest[c]);
                    assert(f[k].contains(traj[c + 1]));
                }
            }
            assert forall|u: T| seen.union(union_of(f)).contains(u) <==> spread(
                adj,
                traj,
                seen,
            ).contains(u) by {
                if union_of(f).contains(u) {
                    let k = choose|k: int| 0 <= k < f.len() && #[trigger] f[k].contains(u);
                    if k == 0 {
                        lemma_reach_avoiding_weaken(adj, seen, r, u);
                        assert(reach(adj, traj[0], u));
                    } else {
                        assert(g[k - 1].contains(u));
                        assert(union_of(g).contains(u));
                        assert(more.union(union_of(g)).contains(u));
                        assert(spread(adj, rest, more).contains(u));
                        let c = choose|c: int| 0 <= c < rest.len() && reach(adj, #[trigger] rest[c], u);
                        assert(reach(adj, traj[c + 1], u));
                    }
                }
                if rooted(adj, traj, traj.len() as int, u) && !seen.contains(u) {
                    let c = choose|c: int| 0 <= c < traj.len() && reach(adj, #[trigger] traj[c], u);
                    if c == 0 {
                        lemma_reach_around(adj, seen, r, u);
                        assert(f[0].contains(u));
                    } else {
                        assert(reach(adj, rest[c - 1], u));
                        assert(spread(adj, rest, more).contains(u));
                        assert(more.union(union_of(g)).contains(u));
                        if t.contains(u) {
                            assert(f[0].contains(u));
                        } else {
                            let k = choose|k: int| 0 <= k < g.len() && #[trigger] g[k].contains(u);
                            assert(f[k + 1].contains(u));
                        }
                    }
                }
            }
            assert(seen.union(union_of(f)) =~= spread(adj, traj, seen));
        }
    }
}

/// The sizes of pairwise disjoint sets add up to the size of their union.
pub proof fn lemma_total_size<T>(parts: Seq<Set<T>>, whole: Set<T>)
    requires
        whole.finite(),
        pairwise_disjoint(parts),
        forall|k: int| 0 <= k < parts.len() ==> (#[trigger] parts[k]).subset_of(whole),
    ensures
        total_size(parts) == union_of(parts).len(),
        union_of(parts).finite(),
    decreases parts.len(),
{
    if parts.len() == 0 {
        assert(union_of(parts) =~= Set::<T>::empty());
    } else {
        let rest = parts.skip(1);
        assert forall|k: int| 0 <= k < rest.len() implies (#[trigger] rest[k]).subset_of(whole) by {
            assert(rest[k] == parts[k + 1]);
        }
        assert(pairwise_disjoint(rest)) by {
            assert forall|i: int, j: int, u: T|
                0 <= i < j < rest.len() && #[trigger] rest[i].contains(u) implies !#[trigger] rest[j].contains(
                u,
            ) by {
                assert(parts[i + 1].contains(u));
                assert(!parts[j + 1].contains(u));
            }
        }
        lemma_total_size(rest, whole);
        assert(parts[0].subset_of(whole));
        vstd::set_lib::lemma_len_subset(parts[0], whole);
        assert(parts[0].disjoint(union_of(rest))) by {
            assert forall|u: T| parts[0].contains(u) implies !union_of(rest).contains(u) by {
                if union_of(rest).contains(u) {
                    let k = choose|k: int| 0 <= k < rest.len() && #[trigger] rest[k].contains(u);
                    assert(parts[k + 1].contains(u));
                }
            }
        }
        assert(union_of(parts) =~= parts[0] + union_of(rest)) by {
            assert forall|u: T| union_of(parts).contains(u) <==> (parts[0] + union_of(rest)).contains(
                u,
            ) by {
                if union_of(parts).contains(u) {
                    let k = choose|k: int| 0 <= k < parts.len() && #[trigger] parts[k].contains(u);
                    if k > 0 {
                        assert(rest[k - 1].contains(u));
                    }
                }
                if union_of(rest).contains(u) {
                    let k = choose|k: int| 0 <= k < rest.len() && #[trigger] rest[k].contains(u);
                    assert(parts[k + 1].contains(u));
                }
                if parts[0].contains(u) {
                }
            }
        }
        vstd::set_lib::lemma_set_disjoint_lens(parts[0], union_of(rest));
    }
}

/// `traj` lists the nodes by falling finish time: the node finished last first.
pub open spec fn by_falling_time<T>(traj: Seq<T>, times: Map<T, i64>) -> bool {
    &&& traj.len() == times.dom().len()
    &&& forall|i: int|
        0 <= i < traj.len() ==> times.contains_key(#[trigger] traj[i]) && times[traj[i]] == traj.len()
            - 1 - i
}

/// Each set in `parts` is the strongly connected component of each of its nodes.
pub open spec fn all_components<T>(adj: Adjacency<T>, parts: Seq<Set<T>>) -> bool {
    forall|k: int, u: T|
        0 <= k < parts.len() && #[trigger] parts[k].contains(u) ==> parts[k] == component(adj, u)
}

/// Where the roots are taken by falling finish time of a traversal against
/// the edges, every tree of the traversal along the edges is one strongly
/// connected component.
pub proof fn lemma_trees_are_components<T>(
    fwd: Adjacency<T>,
    rev: Adjacency<T>,
    times: Map<T, i64>,
    traj: Seq<T>,
    c: int,
    seen: Set<T>,
)
    requires
        mirrored(fwd, rev),
        mirrored(rev, fwd),
        closed(fwd),
        closed(rev),
        is_numbering(times),
        times.dom() == fwd.dom(),
        crowns_components(rev, times),
        by_falling_time(traj, times),
        0 <= c <= traj.len(),
        sealed(fwd, seen),
        forall|i: int| 0 <= i < c ==> seen.contains(#[trigger] traj[i]),
    ensures
        all_components(fwd, forest(fwd, traj.skip(c), seen)),
    decreases traj.len() - c,
{
    let f = forest(fwd, traj.skip(c), seen);
    if c == traj.len() {
        assert(traj.skip(c) =~= Seq::<T>::empty());
    } else {
        let r = traj[c];
        assert(times.contains_key(traj[c]));
        assert(fwd.contains_key(r));
        if seen.contains(r) {
            lemma_forest_pass(fwd, traj, seen, c);
            lemma_trees_are_components(fwd, rev, times, traj, c + 1, seen);
        } else {
            let t = tree(fwd, seen, r);
            let more = seen.union(t);
            lemma_forest_take(fwd, traj, seen, c);
            lemma_sealed_grows(fwd, seen, r);
            lemma_reach_avoiding_refl(fwd, seen, r);
            lemma_trees_are_components(fwd, rev, times, traj, c + 1, more);
            let g = forest(fwd, traj.skip(c + 1), more);
            assert(f == seq![t] + g);
            assert forall|y: T| t.contains(y) <==> mutual(fwd, r, y) by {
                if t.contains(y) {
                    lemma_root_component(fwd, rev, times, traj, c, seen, y);
                }
                if mutual(fwd, r, y) {
                    if seen.contains(y) {
                        let p = lemma_path_of(fwd, y, r);
                        lemma_sealed_reach(fwd, seen, p, p.len() - 1);
                    }
                    lemma_reach_around(fwd, seen, r, y);
                }
            }
            assert forall|k: int, u: T| 0 <= k < f.len() && #[trigger] f[k].contains(u) implies f[k]
                == component(fwd, u) by {
                if k == 0 {
                    assert(mutual(fwd, r, u));
                    assert forall|y: T| t.contains(y) <==> component(fwd, u).contains(y) by {
                        if t.contains(y) {
                            lemma_mutual_trans(fwd, u, r, y);
                        }
                        if mutual(fwd, u, y) {
                            lemma_mutual_trans(fwd, r, u, y);
                        }
                    }
                    assert(t =~= component(fwd, u));
                } else {
                    assert(g[k - 1].contains(u));
                }
            }
        }
    }
}

/// A node of the tree of the `c`-th root shares the root's component.
pub proof fn lemma_root_component<T>(
    fwd: Adjacency<T>,
    rev: Adjacency<T>,
    times: Map<T, i64>,
    traj: Seq<T>,
    c: int,
    seen: Set<T>,
    y: T,
)
    requires
        mirrored(fwd, rev),
        mirrored(rev, fwd),
        closed(fwd),
        closed(rev),
        is_numbering(times),
        times.dom() == fwd.dom(),
        crowns_components(rev, times),
        by_falling_time(traj, times),
        0 <= c < traj.len(),
        sealed(fwd, seen),
        forall|i: int| 0 <= i < c ==> seen.contains(#[trigger] traj[i]),
        reach_avoiding(fwd, seen, traj[c], y),
    ensures
        mutual(fwd, traj[c], y),
{
    let r = traj[c];
    let n = traj.len() as int;
    lemma_reach_avoiding_weaken(fwd, seen, r, y);
    lemma_reach_nodes(fwd, r, y);
    lemma_reach_mirrored(fwd, rev, r, y);
    assert(times.contains_key(y));
    assert(reach(rev, y, r));
    assert(outlasted(rev, times, y, r));
    assert(exists|z: T| times.contains_key(z) && mutual(rev, y, z) && times[z] >= times[r]) by {
        reveal(outlasted);
    }
    let z = choose|z: T| times.contains_key(z) && mutual(rev, y, z) && times[z] >= times[r];
    let i = n - 1 - times[z];
    assert(times.contains_key(traj[c]));
    assert(0 <= i <= c);
    assert(times.contains_key(traj[i]) && times[traj[i]] == times[z]);
    assert(traj[i] == z);
    lemma_reach_mirrored(rev, fwd, y, z);
    lemma_reach_mirrored(rev, fwd, z, y);
    if i < c {
        assert(seen.contains(traj[i]));
        let p = lemma_path_of(fwd, z, y);
        lemma_sealed_reach(fwd, seen, p, p.len() - 1);
    }
}

/// Where every edge runs both ways, every tree of a traversal is one
/// strongly connected component, whatever the order of the roots.
pub proof fn lemma_undirected_trees<T>(adj: Adjacency<T>, traj: Seq<T>, c: int, seen: Set<T>)
    requires
        mirrored(adj, adj),
        closed(adj),
        0 <= c <= traj.len(),
        sealed(adj, seen),
        forall|i: int| 0 <= i < traj.len() ==> adj.contains_key(#[trigger] traj[i]),
    ensures
        all_components(adj, forest(adj, traj.skip(c), seen)),
    decreases traj.len() - c,
{
    let f = forest(adj, traj.skip(c), seen);
    if c == traj.len() {
        assert(traj.skip(c) =~= Seq::<T>::empty());
    } else {
        let r = traj[c];
        if seen.contains(r) {
            lemma_forest_pass(adj, traj, seen, c);
            lemma_undirected_trees(adj, traj, c + 1, seen);
        } else {
            let t = tree(adj, seen, r);
            let more = seen.union(t);
            lemma_forest_take(adj, traj, seen, c);
            lemma_sealed_grows(adj, seen, r);
            lemma_undirected_trees(adj, traj, c + 1, more);
            let g = forest(adj, traj.skip(c + 1), more);
            assert(f == seq![t] + g);
            assert forall|y: T| t.contains(y) <==> mutual(adj, r, y) by {
                if t.contains(y) {
                    lemma_reach_avoiding_weaken(adj, seen, r, y);
                    lemma_reach_mirrored(adj, adj, r, y);
                }
                if mutual(adj, r, y) {
                    if seen.contains(y) {
                        let p = lemma_path_of(adj, y, r);
                        lemma_sealed_reach(adj, seen, p, p.len() - 1);
                    }
                    lemma_reach_around(adj, seen, r, y);
                }
            }
            assert forall|k: int, u: T| 0 <= k < f.len() && #[trigger] f[k].contains(u) implies f[k]
                == component(adj, u) by {
                if k == 0 {
                    assert(mutual(adj, r, u));
                    assert forall|y: T| t.contains(y) <==> component(adj, u).contains(y) by {
                        if t.contains(y) {
                            lemma_mutual_trans(adj, u, r, y);
                        }
                        if mutual(adj, u, y) {
                            lemma_mutual_trans(adj, r, u, y);
                        }
                    }
                    assert(t =~= component(adj, u));
                } else {
                    assert(g[k - 1].contains(u));
                }
            }
        }
    }
}

} // verus!
