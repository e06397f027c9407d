//! Paths and reachability over adjacency lists.

use crate::graph::{well_formed, Direction, GraphView};
use vstd::prelude::*;

verus! {

/// For each node, the nodes that one step leads to.
pub type Adjacency<T> = Map<T, Seq<T>>;

/// The adjacency lists of `g` in the direction `dir`.
pub open spec fn successors<T>(g: GraphView<T>, dir: Direction) -> Adjacency<T> {
    Map::new(|k: T| g.contains_key(k), |k: T| g[k].neighbours(dir))
}

/// One step leads from `u` to `v`.
pub open spec fn is_edge<T>(adj: Adjacency<T>, u: T, v: T) -> bool {
    adj.contains_key(u) && adj[u].contains(v)
}

/// Every step ends at a node.
pub open spec fn closed<T>(adj: Adjacency<T>) -> bool {
    forall|u: T, i: int|
        adj.contains_key(u) && 0 <= i < adj[u].len() ==> adj.contains_key(#[trigger] adj[u][i])
}

/// One step leads from the `i`-th element of `p` to the next.
pub open spec fn step_at<T>(adj: Adjacency<T>, p: Seq<T>, i: int) -> bool {
    is_edge(adj, p[i], p[i + 1])
}

/// `p` starts at a node and each of its elements is one step from the one before.
pub open spec fn is_path<T>(adj: Adjacency<T>, p: Seq<T>) -> bool {
    &&& p.len() > 0
    &&& adj.contains_key(p[0])
    &&& forall|i: int| 0 <= i < p.len() - 1 ==> #[trigger] step_at(adj, p, i)
}

/// `p` is a path from `x` to `y`.
pub open spec fn path_between<T>(adj: Adjacency<T>, p: Seq<T>, x: T, y: T) -> bool {
    is_path(adj, p) && p[0] == x && p[p.len() - 1] == y
}

/// No element of `p` lies in `avoid`.
pub open spec fn avoids<T>(p: Seq<T>, avoid: Set<T>) -> bool {
    forall|i: int| 0 <= i < p.len() ==> !avoid.contains(#[trigger] p[i])
}

/// Some path leads from `x` to `y`; a node reaches itself.
#[verifier::opaque]
pub open spec fn reach<T>(adj: Adjacency<T>, x: T, y: T) -> bool {
    exists|p: Seq<T>| path_between(adj, p, x, y)
}

/// Some path that stays out of `avoid` leads from `x` to `y`.
#[verifier::opaque]
pub open spec fn reach_avoiding<T>(adj: Adjacency<T>, avoid: Set<T>, x: T, y: T) -> bool {
    exists|p: Seq<T>| path_between(adj, p, x, y) && avoids(p, avoid)
}

/// Each of `x` and `y` reaches the other.
pub open spec fn mutual<T>(adj: Adjacency<T>, x: T, y: T) -> bool {
    reach(adj, x, y) && reach(adj, y, x)
}

/// The nodes that `root` reaches without entering `avoid`.
pub open spec fn tree<T>(adj: Adjacency<T>, avoid: Set<T>, root: T) -> Set<T> {
    Set::new(|y: T| reach_avoiding(adj, avoid, root, y))
}

/// The strongly connected component of `x`.
pub open spec fn component<T>(adj: Adjacency<T>, x: T) -> Set<T> {
    Set::new(|y: T| mutual(adj, x, y))
}

/// `rev` has exactly the edges of `adj`, each turned round.
pub open spec fn mirrored<T>(adj: Adjacency<T>, rev: Adjacency<T>) -> bool {
    &&& adj.dom() == rev.dom()
    &&& forall|u: T, v: T| is_edge(adj, u, v) <==> is_edge(rev, v, u)
}

/// A path from `x` to `y`, where `x` reaches `y`.
pub proof fn lemma_path_of<T>(adj: Adjacency<T>, x: T, y: T) -> (p: Seq<T>)
    requires
        reach(adj, x, y),
    ensures
        path_between(adj, p, x, y),
{
    reveal(reach);
    choose|p: Seq<T>| path_between(adj, p, x, y)
}

/// A path from `x` to `y` outside `avoid`, where `x` reaches `y` outside it.
pub proof fn lemma_path_avoiding_of<T>(adj: Adjacency<T>, avoid: Set<T>, x: T, y: T) -> (p: Seq<T>)
    requires
        reach_avoiding(adj, avoid, x, y),
    ensures
        path_between(adj, p, x, y),
        avoids(p, avoid),
{
    reveal(reach_avoiding);
    choose|p: Seq<T>| path_between(adj, p, x, y) && avoids(p, avoid)
}

/// The start of a path is a path.
pub proof fn lemma_path_prefix<T>(adj: Adjacency<T>, p: Seq<T>, i: int)
    requires
        is_path(adj, p),
        0 <= i < p.len(),
    ensures
        is_path(adj, p.take(i + 1)),
{
    let q = p.take(i + 1);
    assert forall|k: int| 0 <= k < q.len() - 1 implies #[trigger] step_at(adj, q, k) by {
        assert(step_at(adj, p, k));
    }
}

/// The end of a path is a path.
pub proof fn lemma_path_suffix<T>(adj: Adjacency<T>, p: Seq<T>, i: int)
    requires
        closed(adj),
        is_path(adj, p),
        0 <= i < p.len(),
    ensures
        is_path(adj, p.skip(i)),
{
    let q = p.skip(i);
    lemma_path_nodes(adj, p, i);
    assert forall|k: int| 0 <= k < q.len() - 1 implies #[trigger] step_at(adj, q, k) by {
        assert(step_at(adj, p, i + k));
    }
}

/// The start of a path reaches each of its elements.
pub proof fn lemma_path_reaches<T>(adj: Adjacency<T>, p: Seq<T>, i: int)
    requires
        is_path(adj, p),
        0 <= i < p.len(),
    ensures
        reach(adj, p[0], p[i]),
{
    lemma_path_prefix(adj, p, i);
    reveal(reach);
    assert(path_between(adj, p.take(i + 1), p[0], p[i]));
}

/// The start of a path outside `avoid` reaches each of its elements outside it.
pub proof fn lemma_path_reaches_avoiding<T>(adj: Adjacency<T>, avoid: Set<T>, p: Seq<T>, i: int)
    requires
        is_path(adj, p),
        avoids(p, avoid),
        0 <= i < p.len(),
    ensures
        reach_avoiding(adj, avoid, p[0], p[i]),
{
    lemma_path_prefix(adj, p, i);
    reveal(reach_avoiding);
    let q = p.take(i + 1);
    assert(avoids(q, avoid)) by {
        assert forall|k: int| 0 <= k < q.len() implies !avoid.contains(#[trigger] q[k]) by {
            assert(!avoid.contains(p[k]));
        }
    }
    assert(path_between(adj, q, p[0], p[i]));
}

/// Every element of a path is a node.
pub proof fn lemma_path_nodes<T>(adj: Adjacency<T>, p: Seq<T>, i: int)
    requires
        closed(adj),
        is_path(adj, p),
        0 <= i < p.len(),
    ensures
        adj.contains_key(p[i]),
    decreases i,
{
    if i > 0 {
        lemma_path_nodes(adj, p, i - 1);
        assert(step_at(adj, p, i - 1));
        let next = adj[p[i - 1]];
        let k = choose|k: int| 0 <= k < next.len() && (#[trigger] next[k]) == p[i];
        assert(adj.contains_key(adj[p[i - 1]][k]));
    }
}

/// Whoever reaches, and whoever is reached, is a node.
pub proof fn lemma_reach_nodes<T>(adj: Adjacency<T>, x: T, y: T)
    requires
        closed(adj),
        reach(adj, x, y),
    ensures
        adj.contains_key(x),
        adj.contains_key(y),
{
    let p = lemma_path_of(adj, x, y);
    lemma_path_nodes(adj, p, p.len() - 1);
}

/// A node reaches itself.
pub proof fn lemma_reach_refl<T>(adj: Adjacency<T>, x: T)
    requires
        adj.contains_key(x),
    ensures
        reach(adj, x, x),
        mutual(adj, x, x),
{
    reveal(reach);
    assert(path_between(adj, seq![x], x, x));
}

/// A node outside `avoid` reaches itself outside it.
pub proof fn lemma_reach_avoiding_refl<T>(adj: Adjacency<T>, avoid: Set<T>, x: T)
    requires
        adj.contains_key(x),
        !avoid.contains(x),
    ensures
        reach_avoiding(adj, avoid, x, x),
{
    reveal(reach_avoiding);
    let p = seq![x];
    assert(path_between(adj, p, x, x) && avoids(p, avoid));
}

/// A path goes on by one step.
pub proof fn lemma_path_push<T>(adj: Adjacency<T>, p: Seq<T>, z: T)
    requires
        is_path(adj, p),
        is_edge(adj, p[p.len() - 1], z),
    ensures
        is_path(adj, p.push(z)),
{
    let q = p.push(z);
    assert forall|i: int| 0 <= i < q.len() - 1 implies #[trigger] step_at(adj, q, i) by {
        if i < p.len() - 1 {
            assert(step_at(adj, p, i));
        }
    }
}

/// Who reaches a node reaches what one step leads to from there.
pub proof fn lemma_reach_step<T>(adj: Adjacency<T>, x: T, y: T, z: T)
    requires
        reach(adj, x, y),
        is_edge(adj, y, z),
    ensures
        reach(adj, x, z),
{
    let p = lemma_path_of(adj, x, y);
    lemma_path_push(adj, p, z);
    lemma_path_reaches(adj, p.push(z), p.len() as int);
}

/// Who reaches a node outside `avoid` reaches, outside it, what one step
/// leads to from there, if that lies outside too.
pub proof fn lemma_reach_avoiding_step<T>(adj: Adjacency<T>, avoid: Set<T>, x: T, y: T, z: T)
    requires
        reach_avoiding(adj, avoid, x, y),
        is_edge(adj, y, z),
        !avoid.contains(z),
    ensures
        reach_avoiding(adj, avoid, x, z),
{
    let p = lemma_path_avoiding_of(adj, avoid, x, y);
    lemma_path_push(adj, p, z);
    let q = p.push(z);
    assert(avoids(q, avoid)) by {
        assert forall|k: int| 0 <= k < q.len() implies !avoid.contains(#[trigger] q[k]) by {
            if k < p.len() {
                assert(!avoid.contains(p[k]));
            }
        }
    }
    lemma_path_reaches_avoiding(adj, avoid, q, p.len() as int);
}

/// Two paths, the second from where the first ends, make one.
pub proof fn lemma_path_concat<T>(adj: Adjacency<T>, p: Seq<T>, q: Seq<T>)
    requires
        is_path(adj, p),
        is_path(adj, q),
        p[p.len() - 1] == q[0],
    ensures
        is_path(adj, p + q.skip(1)),
        (p + q.skip(1))[0] == p[0],
        (p + q.skip(1))[(p + q.skip(1)).len() - 1] == q[q.len() - 1],
{
    let r = p + q.skip(1);
    assert forall|i: int| 0 <= i < r.len() - 1 implies #[trigger] step_at(adj, r, i) by {
        if i < p.len() - 1 {
            assert(step_at(adj, p, i));
        } else {
            let j = i - p.len() + 1;
            assert(step_at(adj, q, j));
        }
    }
}

/// Who reaches a node reaches what that node reaches.
pub proof fn lemma_reach_trans<T>(adj: Adjacency<T>, x: T, y: T, z: T)
    requires
        reach(adj, x, y),
        reach(adj, y, z),
    ensures
        reach(adj, x, z),
{
    let p = lemma_path_of(adj, x, y);
    let q = lemma_path_of(adj, y, z);
    lemma_path_concat(adj, p, q);
    let r = p + q.skip(1);
    lemma_path_reaches(adj, r, r.len() - 1);
}

/// Sharing a component carries over.
pub proof fn lemma_mutual_trans<T>(adj: Adjacency<T>, x: T, y: T, z: T)
    requires
        mutual(adj, x, y),
        mutual(adj, y, z),
    ensures
        mutual(adj, x, z),
{
    lemma_reach_trans(adj, x, y, z);
    lemma_reach_trans(adj, z, y, x);
}

/// Reaching outside `avoid` is reaching, between nodes outside `avoid`.
pub proof fn lemma_reach_avoiding_weaken<T>(adj: Adjacency<T>, avoid: Set<T>, x: T, y: T)
    requires
        reach_avoiding(adj, avoid, x, y),
    ensures
        reach(adj, x, y),
        !avoid.contains(x),
        !avoid.contains(y),
{
    let p = lemma_path_avoiding_of(adj, avoid, x, y);
    lemma_path_reaches(adj, p, p.len() - 1);
    assert(!avoid.contains(p[0]));
    assert(!avoid.contains(p[p.len() - 1]));
}

/// A path read backwards is a path of the mirrored lists.
pub proof fn lemma_path_reverse<T>(adj: Adjacency<T>, rev: Adjacency<T>, p: Seq<T>)
    requires
        mirrored(adj, rev),
        closed(adj),
        is_path(adj, p),
    ensures
        is_path(rev, p.reverse()),
{
    let q = p.reverse();
    lemma_path_nodes(adj, p, p.len() - 1);
    assert(q[0] == p[p.len() - 1]);
    assert forall|i: int| 0 <= i < q.len() - 1 implies #[trigger] step_at(rev, q, i) by {
        let j = p.len() - 2 - i;
        assert(q[i] == p[j + 1]);
        assert(q[i + 1] == p[j]);
        assert(step_at(adj, p, j));
    }
}

/// Reaching along the mirrored lists is being reached along the lists.
pub proof fn lemma_reach_mirrored<T>(adj: Adjacency<T>, rev: Adjacency<T>, x: T, y: T)
    requires
        mirrored(adj, rev),
        closed(adj),
        reach(adj, x, y),
    ensures
        reach(rev, y, x),
{
    let p = lemma_path_of(adj, x, y);
    lemma_path_reverse(adj, rev, p);
    let q = p.reverse();
    lemma_path_reaches(rev, q, q.len() - 1);
}

/// The two adjacency directions of a well-formed graph mirror each other, and
/// every step in either ends at a node.
pub proof fn lemma_successors_mirrored<T>(g: GraphView<T>)
    requires
        well_formed(g),
    ensures
        mirrored(successors(g, Direction::Outgoing), successors(g, Direction::Incoming)),
        mirrored(successors(g, Direction::Incoming), successors(g, Direction::Outgoing)),
        closed(successors(g, Direction::Outgoing)),
        closed(successors(g, Direction::Incoming)),
{
    let out = successors(g, Direction::Outgoing);
    let inc = successors(g, Direction::Incoming);
    assert(out.dom() =~= inc.dom());
    assert forall|u: T, v: T| is_edge(out, u, v) <==> is_edge(inc, v, u) by {
        if is_edge(out, u, v) {
            let next = out[u];
            let i = choose|i: int| 0 <= i < next.len() && (#[trigger] next[i]) == v;
            assert(g.contains_key(g[u].edges[i]));
            assert(g[g[u].edges[i]].inverse_edges.contains(u));
        }
        if is_edge(inc, v, u) {
            let next = inc[v];
            let i = choose|i: int| 0 <= i < next.len() && (#[trigger] next[i]) == u;
            assert(g.contains_key(g[v].inverse_edges[i]));
            assert(g[g[v].inverse_edges[i]].edges.contains(v));
        }
    }
    assert forall|u: T, i: int| out.contains_key(u) && 0 <= i < out[u].len() implies out.contains_key(
        #[trigger] out[u][i],
    ) by {
        assert(g.contains_key(g[u].edges[i]));
    }
    assert forall|u: T, i: int| inc.contains_key(u) && 0 <= i < inc[u].len() implies inc.contains_key(
        #[trigger] inc[u][i],
    ) by {
        assert(g.contains_key(g[u].inverse_edges[i]));
    }
}

} // verus!
