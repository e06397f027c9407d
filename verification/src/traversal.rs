//! The state of a depth-first traversal as a mathematical value, what holds
//! of it between any two steps, and why each step keeps it so.

use crate::graph::Visit;
use crate::reach::{
    closed, is_edge, is_path, lemma_mutual_trans, lemma_path_of, lemma_path_reaches,
    lemma_reach_refl, lemma_reach_step, lemma_reach_trans, mutual, reach, step_at, Adjacency,
};
use vstd::set_lib::lemma_len_subset;
use vstd::prelude::*;

verus! {

/// A traversal in progress.
#[verifier::reject_recursive_types(T)]
pub struct Walk<T> {
    /// The adjacency lists that the traversal follows.
    pub adj: Adjacency<T>,
    /// Where each node stands.
    pub color: Map<T, Visit>,
    /// The finish time of each finished node.
    pub times: Map<T, i64>,
    /// The next finish time to hand out.
    pub clock: int,
    /// The explicit stack, bottom first.
    pub stack: Seq<T>,
    /// For each stack entry, whether it is the entry that a discovered node
    /// was put back under, to be finished when it is popped again.
    pub marks: Seq<bool>,
    /// The root candidates.
    pub traj: Seq<T>,
    /// How many root candidates have been taken.
    pub cursor: int,
    /// The stack entry whose neighbours are being pushed, or `-1`.
    pub open_at: int,
    /// How many neighbours of that entry have been looked at.
    pub open_done: int,
}

impl<T> Walk<T> {
    /// `u` is a node that has not been reached.
    pub open spec fn white(self, u: T) -> bool {
        self.adj.contains_key(u) && self.color[u] == Visit::Unvisited
    }

    /// `u` is a node that is being explored.
    pub open spec fn gray(self, u: T) -> bool {
        self.adj.contains_key(u) && self.color[u] == Visit::Discovered
    }

    /// `u` is a node that is finished.
    pub open spec fn black(self, u: T) -> bool {
        self.adj.contains_key(u) && self.color[u] == Visit::Finished
    }

    /// The marked entry `i` lies below the entry `j`.
    pub open spec fn above(self, i: int, j: int) -> bool {
        0 <= i < j < self.stack.len() && self.marks[i]
    }

    /// The entry `j` is the marked entry of `u`.
    pub open spec fn marked_at(self, j: int, u: T) -> bool {
        0 <= j < self.stack.len() && self.marks[j] && self.stack[j] == u
    }

    /// `u` has a marked entry.
    #[verifier::opaque]
    pub open spec fn has_mark(self, u: T) -> bool {
        exists|j: int| self.marked_at(j, u)
    }

    /// The entry `k` lies above the entry `j` and holds `v`.
    pub open spec fn sits_above(self, j: int, k: int, v: T) -> bool {
        j < k < self.stack.len() && self.stack[k] == v
    }

    /// `v` has been reached, or waits on the stack above the entry `j`.
    #[verifier::opaque]
    pub open spec fn covered(self, j: int, v: T) -> bool {
        !self.white(v) || exists|k: int| self.sits_above(j, k, v)
    }

    /// The `n`-th neighbour of the marked entry `j` has been looked at.
    pub open spec fn looked_at(self, j: int, n: int) -> bool {
        &&& 0 <= j < self.stack.len()
        &&& self.marks[j]
        &&& 0 <= n < (if j == self.open_at {
            self.open_done
        } else {
            self.adj[self.stack[j]].len() as int
        })
    }

    /// `u` is finished and has an `n`-th neighbour.
    pub open spec fn out_edge(self, u: T, n: int) -> bool {
        self.black(u) && 0 <= n < self.adj[u].len()
    }

    /// `v` finished before `u`, or leads back to `u`.
    pub open spec fn edge_ok(self, u: T, v: T) -> bool {
        (self.black(v) && self.times[v] < self.times[u]) || reach(self.adj, v, u)
    }

    /// Some node finished at time `t`.
    #[verifier::opaque]
    pub open spec fn handed_out(self, t: int) -> bool {
        exists|u: T| self.times.contains_key(u) && #[trigger] self.times[u] == t
    }

    /// Some root candidate taken so far reaches `u`.
    #[verifier::opaque]
    pub open spec fn sourced(self, u: T) -> bool {
        exists|c: int| 0 <= c < self.cursor && reach(self.adj, #[trigger] self.traj[c], u)
    }

    /// `x` shares its component with a node that is still being explored.
    #[verifier::opaque]
    pub open spec fn tied(self, x: T) -> bool {
        exists|g: T| self.gray(g) && mutual(self.adj, x, g)
    }

    /// `y` is finished, and no later than some finished node of the component of `x`.
    #[verifier::opaque]
    pub open spec fn dominated(self, x: T, y: T) -> bool {
        self.black(y) && exists|z: T|
            self.black(z) && mutual(self.adj, x, z) && self.times[z] >= self.times[y]
    }

    /// The variables fit together: nodes only on the stack and among the root
    /// candidates, a mark for every stack entry, and the open entry, if
    /// there is one, is the topmost marked one.
    pub open spec fn inv_base(self) -> bool {
        &&& self.adj.dom().finite()
        &&& closed(self.adj)
        &&& self.color.dom() == self.adj.dom()
        &&& 0 <= self.cursor <= self.traj.len()
        &&& forall|c: int| 0 <= c < self.traj.len() ==> self.adj.contains_key(#[trigger] self.traj[c])
        &&& self.marks.len() == self.stack.len()
        &&& forall|j: int| 0 <= j < self.stack.len() ==> self.adj.contains_key(#[trigger] self.stack[j])
        &&& -1 <= self.open_at < self.stack.len()
        &&& self.open_at >= 0 ==> {
            &&& self.marks[self.open_at]
            &&& 0 <= self.open_done <= self.adj[self.stack[self.open_at]].len()
            &&& forall|k: int| self.open_at < k < self.stack.len() ==> !#[trigger] self.marks[k]
        }
    }

    /// The marked entries hold the nodes that are being explored, each once
    /// and above no other entry of its node, and each reaches every entry above it.
    pub open spec fn inv_marks(self) -> bool {
        &&& forall|j: int| 0 <= j < self.stack.len() && #[trigger] self.marks[j] ==> self.gray(self.stack[j])
        &&& forall|u: T| #[trigger] self.gray(u) ==> self.has_mark(u)
        &&& forall|i: int, j: int| #[trigger]
            self.above(i, j) ==> self.stack[i] != self.stack[j] && reach(
                self.adj,
                self.stack[i],
                self.stack[j],
            )
    }

    /// Every neighbour of a marked entry that has been looked at is reached
    /// or waits above the entry.
    pub open spec fn inv_cover(self) -> bool {
        forall|j: int, n: int| #[trigger]
            self.looked_at(j, n) ==> self.covered(j, self.adj[self.stack[j]][n])
    }

    /// Every neighbour of a finished node is reached, and finished before
    /// the node or leads back to it.
    pub open spec fn inv_edges(self) -> bool {
        forall|u: T, n: int| #[trigger]
            self.out_edge(u, n) ==> !self.white(self.adj[u][n]) && self.edge_ok(u, self.adj[u][n])
    }

    /// The finish times number the finished nodes from zero without
    /// repeats or gaps.
    pub open spec fn inv_times(self) -> bool {
        &&& 0 <= self.clock
        &&& self.times.dom().finite()
        &&& self.clock == self.times.dom().len()
        &&& forall|u: T| #[trigger] self.times.contains_key(u) <==> self.black(u)
        &&& forall|u: T| #[trigger] self.times.contains_key(u) ==> 0 <= self.times[u] < self.clock
        &&& forall|u: T, v: T|
            self.times.contains_key(u) && self.times.contains_key(v) && #[trigger] self.times[u]
                == #[trigger] self.times[v] ==> u == v
        &&& forall|t: int| 0 <= t < self.clock ==> #[trigger] self.handed_out(t)
    }

    /// A finished node shares its component with a node that is being
    /// explored, or whatever it reaches is finished no later than some
    /// finished node of its component.
    pub open spec fn inv_tied(self) -> bool {
        forall|x: T, y: T|
            self.black(x) && #[trigger] reach(self.adj, x, y) ==> self.tied(x) || self.dominated(x, y)
    }

    /// Every node reached, and every stack entry, is reached from a root
    /// candidate; every root candidate taken is reached or waits on the stack.
    pub open spec fn inv_source(self) -> bool {
        &&& forall|u: T| #[trigger] self.adj.contains_key(u) ==> self.white(u) || self.sourced(u)
        &&& forall|j: int| 0 <= j < self.stack.len() ==> self.sourced(#[trigger] self.stack[j])
        &&& forall|c: int|
            0 <= c < self.cursor ==> !self.white(#[trigger] self.traj[c]) || self.stack.contains(
                self.traj[c],
            )
    }

    /// The nodes that the traversal has not reached.
    pub open spec fn whites(self) -> Set<T> {
        self.adj.dom().filter(|u: T| self.color[u] == Visit::Unvisited)
    }

    /// What holds of a traversal between any two of its steps.
    pub open spec fn inv(self) -> bool {
        &&& self.inv_base()
        &&& self.inv_marks()
        &&& self.inv_cover()
        &&& self.inv_edges()
        &&& self.inv_times()
        &&& self.inv_tied()
        &&& self.inv_source()
    }

    /// The traversal before its first step: nothing reached, nothing taken.
    pub open spec fn start(adj: Adjacency<T>, traj: Seq<T>) -> Self {
        Walk {
            adj,
            color: Map::new(|u: T| adj.contains_key(u), |u: T| Visit::Unvisited),
            times: Map::empty(),
            clock: 0,
            stack: Seq::empty(),
            marks: Seq::empty(),
            traj,
            cursor: 0,
            open_at: -1,
            open_done: 0,
        }
    }

    /// The next root candidate is passed over.
    pub open spec fn pass_root(self) -> Self {
        Walk { cursor: self.cursor + 1, ..self }
    }

    /// The next root candidate starts a tree.
    pub open spec fn take_root(self) -> Self {
        Walk {
            cursor: self.cursor + 1,
            stack: seq![self.traj[self.cursor]],
            marks: seq![false],
            ..self
        }
    }

    /// The top entry, already finished, is dropped.
    pub open spec fn drop_top(self) -> Self {
        Walk { stack: self.stack.drop_last(), marks: self.marks.drop_last(), ..self }
    }

    /// The top entry is discovered: it stays, marked, and its neighbours are next.
    pub open spec fn discover(self) -> Self {
        let top = self.stack.len() - 1;
        Walk {
            color: self.color.insert(self.stack[top], Visit::Discovered),
            marks: self.marks.update(top, true),
            open_at: top,
            open_done: 0,
            ..self
        }
    }

    /// The neighbour that is looked at next.
    pub open spec fn next_neighbour(self) -> T {
        self.adj[self.stack[self.open_at]][self.open_done]
    }

    /// The next neighbour, not yet reached, is pushed.
    pub open spec fn push_neighbour(self) -> Self {
        Walk {
            stack: self.stack.push(self.next_neighbour()),
            marks: self.marks.push(false),
            open_done: self.open_done + 1,
            ..self
        }
    }

    /// The next neighbour, reached before, is passed over.
    pub open spec fn pass_neighbour(self) -> Self {
        Walk { open_done: self.open_done + 1, ..self }
    }

    /// All neighbours of the open entry have been looked at.
    pub open spec fn close(self) -> Self {
        Walk { open_at: -1, open_done: 0, ..self }
    }

    /// The top entry, discovered earlier, is popped and finished.
    pub open spec fn finish(self) -> Self {
        let u = self.stack.last();
        Walk {
            color: self.color.insert(u, Visit::Finished),
            times: self.times.insert(u, self.clock as i64),
            clock: self.clock + 1,
            stack: self.stack.drop_last(),
            marks: self.marks.drop_last(),
            ..self
        }
    }
}

impl<T> Walk<T> {
    /// Nothing is left to do: the stack is empty and every root candidate
    /// has been taken.
    pub open spec fn done(self) -> bool {
        self.open_at < 0 && self.stack.len() == 0 && self.cursor >= self.traj.len()
    }

    /// The traversal one step on. While the neighbours of an entry are
    /// being pushed, the next of them is pushed or passed over. Else, with
    /// an empty stack, the next root candidate is taken or passed over;
    /// with entries on the stack, the top one is discovered if it has not
    /// been reached, finished if it is being explored, and dropped if it
    /// is finished.
    pub open spec fn step(self) -> Self {
        if self.open_at >= 0 {
            if self.open_done < self.adj[self.stack[self.open_at]].len() {
                if self.white(self.next_neighbour()) {
                    self.push_neighbour()
                } else {
                    self.pass_neighbour()
                }
            } else {
                self.close()
            }
        } else if self.stack.len() == 0 {
            if self.cursor < self.traj.len() {
                if self.white(self.traj[self.cursor]) {
                    self.take_root()
                } else {
                    self.pass_root()
                }
            } else {
                self
            }
        } else if self.white(self.stack.last()) {
            self.discover()
        } else if self.gray(self.stack.last()) {
            self.finish()
        } else {
            self.drop_top()
        }
    }

    /// The traversal `n` steps on.
    pub open spec fn after(self, n: nat) -> Self
        decreases n,
    {
        if n == 0 {
            self
        } else {
            self.after((n - 1) as nat).step()
        }
    }
}

/// `times` are the finish times that the traversal of `adj` from the root
/// candidates `traj` has handed out after `n` steps, the last of them if
/// the traversal is `complete`.
pub open spec fn handed_out_after<T>(
    adj: Adjacency<T>,
    traj: Seq<T>,
    times: Map<T, i64>,
    complete: bool,
    n: nat,
) -> bool {
    Walk::start(adj, traj).after(n).times == times && (complete ==> Walk::start(adj, traj).after(n).done())
}

/// `times` are the finish times that the traversal of `adj` from the root
/// candidates `traj` hands out, step by step: all of them if the traversal
/// is `complete`, else those up to some step.
pub open spec fn traversed<T>(adj: Adjacency<T>, traj: Seq<T>, times: Map<T, i64>, complete: bool) -> bool {
    exists|n: nat| handed_out_after(adj, traj, times, complete, n)
}

/// A traversal that is done stays as it is.
pub proof fn lemma_done_stays<T>(w: Walk<T>, n: nat, m: nat)
    requires
        w.after(n).done(),
        n <= m,
    ensures
        w.after(m) == w.after(n),
    decreases m - n,
{
    if n < m {
        lemma_done_stays(w, n, (m - 1) as nat);
    }
}

/// The finish times of a complete traversal are determined by the
/// adjacency lists and the root candidates.
pub proof fn lemma_traversal_determined<T>(adj: Adjacency<T>, traj: Seq<T>, a: Map<T, i64>, b: Map<T, i64>)
    requires
        traversed(adj, traj, a, true),
        traversed(adj, traj, b, true),
    ensures
        a == b,
{
    let n = choose|n: nat| handed_out_after(adj, traj, a, true, n);
    let m = choose|m: nat| handed_out_after(adj, traj, b, true, m);
    let w = Walk::start(adj, traj);
    if n <= m {
        lemma_done_stays(w, n, m);
    } else {
        lemma_done_stays(w, m, n);
    }
}

/// The invariant holds before the first step.
pub proof fn lemma_start<T>(adj: Adjacency<T>, traj: Seq<T>)
    requires
        adj.dom().finite(),
        closed(adj),
        forall|c: int| 0 <= c < traj.len() ==> adj.contains_key(#[trigger] traj[c]),
    ensures
        Walk::start(adj, traj).inv(),
{
    let s = Walk::start(adj, traj);
    assert(s.color.dom() =~= adj.dom());
    assert(s.times.dom() =~= Set::<T>::empty());
}

/// A mark that is there stays there while the stack only grows or keeps its
/// entries up to that mark.
pub proof fn lemma_mark_kept<T>(s: Walk<T>, t: Walk<T>, u: T)
    requires
        s.has_mark(u),
        forall|j: int| s.marked_at(j, u) ==> t.marked_at(j, u),
    ensures
        t.has_mark(u),
{
    reveal(Walk::has_mark);
    let j = choose|j: int| s.marked_at(j, u);
    assert(t.marked_at(j, u));
}

/// A node sourced before stays sourced as more root candidates are taken.
pub proof fn lemma_sourced_kept<T>(s: Walk<T>, t: Walk<T>, u: T)
    requires
        s.sourced(u),
        t.adj == s.adj,
        t.traj == s.traj,
        t.cursor >= s.cursor,
    ensures
        t.sourced(u),
{
    reveal(Walk::sourced);
    let c = choose|c: int| 0 <= c < s.cursor && reach(s.adj, #[trigger] s.traj[c], u);
    assert(0 <= c < t.cursor && reach(t.adj, t.traj[c], u));
}

/// While colours only move forward and finish times are only added, what
/// is dominated stays so.
pub proof fn lemma_dominated_kept<T>(s: Walk<T>, t: Walk<T>, x: T, y: T)
    requires
        s.dominated(x, y),
        t.adj == s.adj,
        forall|u: T| s.black(u) ==> t.black(u) && t.times[u] == s.times[u],
    ensures
        t.dominated(x, y),
{
    reveal(Walk::dominated);
    let z = choose|z: T| s.black(z) && mutual(s.adj, x, z) && s.times[z] >= s.times[y];
    assert(t.black(z) && mutual(t.adj, x, z) && t.times[z] >= t.times[y]);
}

/// While every node that is being explored stays so, what is tied stays so.
pub proof fn lemma_tied_kept<T>(s: Walk<T>, t: Walk<T>, x: T)
    requires
        s.tied(x),
        t.adj == s.adj,
        forall|u: T| s.gray(u) ==> t.gray(u),
    ensures
        t.tied(x),
{
    reveal(Walk::tied);
    let g = choose|g: T| s.gray(g) && mutual(s.adj, x, g);
    assert(t.gray(g) && mutual(t.adj, x, g));
}

/// What is covered stays so while no node turns unvisited and the stack
/// keeps its entries.
pub proof fn lemma_covered_kept<T>(s: Walk<T>, t: Walk<T>, j: int, v: T)
    requires
        s.covered(j, v),
        t.adj == s.adj,
        !s.white(v) ==> !t.white(v),
        forall|k: int| s.sits_above(j, k, v) ==> t.sits_above(j, k, v) || !t.white(v),
    ensures
        t.covered(j, v),
{
    reveal(Walk::covered);
    if s.white(v) {
        let k = choose|k: int| s.sits_above(j, k, v);
        assert(t.sits_above(j, k, v) || !t.white(v));
    }
}

/// A finish time handed out stays handed out while finish times are only added.
pub proof fn lemma_handed_out_kept<T>(s: Walk<T>, t: Walk<T>, n: int)
    requires
        s.handed_out(n),
        forall|u: T| s.times.contains_key(u) ==> t.times.contains_key(u) && t.times[u] == s.times[u],
    ensures
        t.handed_out(n),
{
    reveal(Walk::handed_out);
    let u = choose|u: T| s.times.contains_key(u) && #[trigger] s.times[u] == n;
    assert(t.times.contains_key(u) && t.times[u] == n);
}

/// Passing over a root candidate keeps the invariant.
pub proof fn lemma_pass_root<T>(s: Walk<T>)
    requires
        s.inv(),
        s.stack.len() == 0,
        s.cursor < s.traj.len(),
        !s.white(s.traj[s.cursor]),
    ensures
        s.pass_root().inv(),
{
    let t = s.pass_root();
    assert(t.inv_marks()) by {
        assert forall|u: T| #[trigger] t.gray(u) implies t.has_mark(u) by {
            assert(s.gray(u));
            lemma_mark_kept(s, t, u);
        }
        assert forall|i: int, j: int| #[trigger] t.above(i, j) implies t.stack[i] != t.stack[j]
            && reach(t.adj, t.stack[i], t.stack[j]) by {
            assert(s.above(i, j));
        }
    }
    assert(t.inv_cover()) by {
        assert forall|j: int, n: int| #[trigger] t.looked_at(j, n) implies t.covered(
            j,
            t.adj[t.stack[j]][n],
        ) by {
            assert(s.looked_at(j, n));
        }
    }
    lemma_colours_kept(s, t);
    assert(t.inv_source()) by {
        assert forall|u: T| #[trigger] t.adj.contains_key(u) implies t.white(u) || t.sourced(u) by {
            if !s.white(u) {
                lemma_sourced_kept(s, t, u);
            }
        }
        assert forall|c: int| 0 <= c < t.cursor implies !t.white(#[trigger] t.traj[c])
            || t.stack.contains(t.traj[c]) by {
            if c < s.cursor {
                assert(!s.white(s.traj[c]) || s.stack.contains(s.traj[c]));
            }
        }
    }
}

/// Taking a root candidate keeps the invariant.
pub proof fn lemma_take_root<T>(s: Walk<T>)
    requires
        s.inv(),
        s.stack.len() == 0,
        s.cursor < s.traj.len(),
        s.white(s.traj[s.cursor]),
    ensures
        s.take_root().inv(),
{
    let t = s.take_root();
    let r = s.traj[s.cursor];
    assert(t.inv_marks()) by {
        assert forall|u: T| #[trigger] t.gray(u) implies t.has_mark(u) by {
            assert(s.gray(u));
            assert(s.has_mark(u));
            reveal(Walk::has_mark);
        }
    }
    lemma_colours_kept(s, t);
    assert(t.inv_source()) by {
        assert forall|u: T| #[trigger] t.adj.contains_key(u) implies t.white(u) || t.sourced(u) by {
            if !s.white(u) {
                lemma_sourced_kept(s, t, u);
            }
        }
        assert forall|j: int| 0 <= j < t.stack.len() implies t.sourced(#[trigger] t.stack[j]) by {
            lemma_reach_refl(s.adj, r);
            reveal(Walk::sourced);
            assert(reach(t.adj, t.traj[s.cursor], r));
        }
        assert forall|c: int| 0 <= c < t.cursor implies !t.white(#[trigger] t.traj[c])
            || t.stack.contains(t.traj[c]) by {
            if c < s.cursor {
                assert(!s.white(s.traj[c]) || s.stack.contains(s.traj[c]));
            } else {
                assert(t.stack[0] == r);
            }
        }
    }
}

/// Dropping a finished top entry keeps the invariant.
pub proof fn lemma_drop_top<T>(s: Walk<T>)
    requires
        s.inv(),
        s.stack.len() > 0,
        s.open_at == -1,
        s.black(s.stack.last()),
    ensures
        s.drop_top().inv(),
{
    let t = s.drop_top();
    let top = s.stack.len() - 1;
    assert(!s.marks[top]);
    assert(t.inv_marks()) by {
        assert forall|u: T| #[trigger] t.gray(u) implies t.has_mark(u) by {
            assert(s.gray(u));
            lemma_mark_kept(s, t, u);
        }
        assert forall|i: int, j: int| #[trigger] t.above(i, j) implies t.stack[i] != t.stack[j]
            && reach(t.adj, t.stack[i], t.stack[j]) by {
            assert(s.above(i, j));
        }
    }
    assert(t.inv_cover()) by {
        assert forall|j: int, n: int| #[trigger] t.looked_at(j, n) implies t.covered(
            j,
            t.adj[t.stack[j]][n],
        ) by {
            assert(s.looked_at(j, n));
            lemma_covered_kept(s, t, j, s.adj[s.stack[j]][n]);
        }
    }
    lemma_colours_kept(s, t);
    assert(t.inv_source()) by {
        assert forall|u: T| #[trigger] t.adj.contains_key(u) implies t.white(u) || t.sourced(u) by {
            if !s.white(u) {
                lemma_sourced_kept(s, t, u);
            }
        }
        assert forall|j: int| 0 <= j < t.stack.len() implies t.sourced(#[trigger] t.stack[j]) by {
            lemma_sourced_kept(s, t, s.stack[j]);
        }
        assert forall|c: int| 0 <= c < t.cursor implies !t.white(#[trigger] t.traj[c])
            || t.stack.contains(t.traj[c]) by {
            if s.white(s.traj[c]) {
                assert(s.stack.contains(s.traj[c]));
                let i = choose|i: int| 0 <= i < s.stack.len() && s.stack[i] == s.traj[c];
                assert(i < top);
                assert(t.stack[i] == t.traj[c]);
            }
        }
    }
}

/// Discovering the top entry keeps the invariant, and leaves one node
/// fewer unreached.
pub proof fn lemma_discover<T>(s: Walk<T>)
    requires
        s.inv(),
        s.stack.len() > 0,
        s.open_at == -1,
        s.white(s.stack.last()),
    ensures
        s.discover().inv(),
        s.discover().whites().len() < s.whites().len(),
{
    let t = s.discover();
    let top = s.stack.len() - 1;
    let u = s.stack[top];
    assert(t.whites() =~= s.whites().remove(u));
    s.adj.dom().lemma_len_filter(|u: T| s.color[u] == Visit::Unvisited);
    assert(s.whites().contains(u));
    assert(t.color.dom() =~= s.color.dom());
    assert(t.inv_base());
    assert(t.inv_marks()) by {
        assert forall|j: int| 0 <= j < t.stack.len() && #[trigger] t.marks[j] implies t.gray(
            t.stack[j],
        ) by {
            if j != top {
                assert(s.marks[j]);
                assert(s.gray(s.stack[j]));
            }
        }
        assert forall|v: T| #[trigger] t.gray(v) implies t.has_mark(v) by {
            if v == u {
                reveal(Walk::has_mark);
                assert(t.marked_at(top, u));
            } else {
                assert(s.gray(v));
                lemma_mark_kept(s, t, v);
            }
        }
        assert forall|i: int, j: int| #[trigger] t.above(i, j) implies t.stack[i] != t.stack[j]
            && reach(t.adj, t.stack[i], t.stack[j]) by {
            assert(s.above(i, j));
        }
    }
    assert(t.inv_cover()) by {
        assert forall|j: int, n: int| #[trigger] t.looked_at(j, n) implies t.covered(
            j,
            t.adj[t.stack[j]][n],
        ) by {
            assert(j != top);
            assert(s.looked_at(j, n));
            lemma_covered_kept(s, t, j, s.adj[s.stack[j]][n]);
        }
    }
    assert(t.inv_edges()) by {
        assert forall|x: T, n: int| #[trigger] t.out_edge(x, n) implies !t.white(t.adj[x][n])
            && t.edge_ok(x, t.adj[x][n]) by {
            assert(s.out_edge(x, n));
            let v = s.adj[x][n];
            assert(s.edge_ok(x, v));
            assert(s.black(v) ==> t.black(v));
        }
    }
    assert(t.inv_times()) by {
        assert forall|v: T| #[trigger] t.times.contains_key(v) <==> t.black(v) by {
            assert(s.times.contains_key(v) <==> s.black(v));
        }
        assert forall|n: int| 0 <= n < t.clock implies #[trigger] t.handed_out(n) by {
            lemma_handed_out_kept(s, t, n);
        }
    }
    assert(t.inv_tied()) by {
        assert forall|x: T, y: T| t.black(x) && #[trigger] reach(t.adj, x, y) implies t.tied(x)
            || t.dominated(x, y) by {
            assert(s.black(x));
            if s.tied(x) {
                lemma_tied_kept(s, t, x);
            } else {
                lemma_dominated_kept(s, t, x, y);
            }
        }
    }
    assert(t.inv_source()) by {
        assert forall|v: T| #[trigger] t.adj.contains_key(v) implies t.white(v) || t.sourced(v) by {
            if v == u {
                assert(s.sourced(s.stack[top]));
                lemma_sourced_kept(s, t, v);
            } else if !s.white(v) {
                lemma_sourced_kept(s, t, v);
            }
        }
        assert forall|j: int| 0 <= j < t.stack.len() implies t.sourced(#[trigger] t.stack[j]) by {
            lemma_sourced_kept(s, t, s.stack[j]);
        }
        assert forall|c: int| 0 <= c < t.cursor implies !t.white(#[trigger] t.traj[c])
            || t.stack.contains(t.traj[c]) by {
            assert(!s.white(s.traj[c]) || s.stack.contains(s.traj[c]));
        }
    }
}

/// Pushing an unreached neighbour of the open entry keeps the invariant.
pub proof fn lemma_push_neighbour<T>(s: Walk<T>)
    requires
        s.inv(),
        s.open_at >= 0,
        s.open_done < s.adj[s.stack[s.open_at]].len(),
        s.white(s.next_neighbour()),
    ensures
        s.push_neighbour().inv(),
{
    let t = s.push_neighbour();
    let at = s.open_at;
    let u = s.stack[at];
    let v = s.next_neighbour();
    let new = s.stack.len() as int;
    assert(is_edge(s.adj, u, v));
    assert(t.inv_base());
    assert(t.inv_marks()) by {
        assert forall|j: int| 0 <= j < t.stack.len() && #[trigger] t.marks[j] implies t.gray(
            t.stack[j],
        ) by {
            assert(s.marks[j]);
        }
        assert forall|w: T| #[trigger] t.gray(w) implies t.has_mark(w) by {
            assert(s.gray(w));
            lemma_mark_kept(s, t, w);
        }
        assert forall|i: int, j: int| #[trigger] t.above(i, j) implies t.stack[i] != t.stack[j]
            && reach(t.adj, t.stack[i], t.stack[j]) by {
            if j < new {
                assert(s.above(i, j));
            } else {
                assert(s.marks[i]);
                assert(s.gray(s.stack[i]));
                if i == at {
                    lemma_reach_refl(s.adj, u);
                } else {
                    assert(i < at);
                    assert(s.above(i, at));
                }
                lemma_reach_step(s.adj, s.stack[i], u, v);
            }
        }
    }
    assert(t.inv_cover()) by {
        assert forall|j: int, n: int| #[trigger] t.looked_at(j, n) implies t.covered(
            j,
            t.adj[t.stack[j]][n],
        ) by {
            assert(j <= at);
            if j == at && n == s.open_done {
                reveal(Walk::covered);
                assert(t.sits_above(j, new, v));
            } else {
                assert(s.looked_at(j, n));
                lemma_covered_kept(s, t, j, s.adj[s.stack[j]][n]);
            }
        }
    }
    lemma_colours_kept(s, t);
    assert(t.inv_source()) by {
        assert forall|w: T| #[trigger] t.adj.contains_key(w) implies t.white(w) || t.sourced(w) by {
            if !s.white(w) {
                lemma_sourced_kept(s, t, w);
            }
        }
        assert forall|j: int| 0 <= j < t.stack.len() implies t.sourced(#[trigger] t.stack[j]) by {
            if j < new {
                lemma_sourced_kept(s, t, s.stack[j]);
            } else {
                assert(s.sourced(s.stack[at]));
                reveal(Walk::sourced);
                let c = choose|c: int| 0 <= c < s.cursor && reach(s.adj, #[trigger] s.traj[c], u);
                lemma_reach_step(s.adj, s.traj[c], u, v);
                assert(reach(t.adj, t.traj[c], v));
            }
        }
        assert forall|c: int| 0 <= c < t.cursor implies !t.white(#[trigger] t.traj[c])
            || t.stack.contains(t.traj[c]) by {
            if s.white(s.traj[c]) {
                assert(s.stack.contains(s.traj[c]));
                let i = choose|i: int| 0 <= i < s.stack.len() && s.stack[i] == s.traj[c];
                assert(t.stack[i] == t.traj[c]);
            }
        }
    }
}

/// Passing over a reached neighbour of the open entry keeps the invariant.
pub proof fn lemma_pass_neighbour<T>(s: Walk<T>)
    requires
        s.inv(),
        s.open_at >= 0,
        s.open_done < s.adj[s.stack[s.open_at]].len(),
        !s.white(s.next_neighbour()),
    ensures
        s.pass_neighbour().inv(),
{
    let t = s.pass_neighbour();
    assert(t.inv_marks()) by {
        assert forall|w: T| #[trigger] t.gray(w) implies t.has_mark(w) by {
            assert(s.gray(w));
            lemma_mark_kept(s, t, w);
        }
        assert forall|i: int, j: int| #[trigger] t.above(i, j) implies t.stack[i] != t.stack[j]
            && reach(t.adj, t.stack[i], t.stack[j]) by {
            assert(s.above(i, j));
        }
    }
    assert(t.inv_cover()) by {
        assert forall|j: int, n: int| #[trigger] t.looked_at(j, n) implies t.covered(
            j,
            t.adj[t.stack[j]][n],
        ) by {
            if j == s.open_at && n == s.open_done {
                reveal(Walk::covered);
            } else {
                assert(s.looked_at(j, n));
                lemma_covered_kept(s, t, j, s.adj[s.stack[j]][n]);
            }
        }
    }
    lemma_colours_kept(s, t);
    lemma_source_kept(s, t);
}

/// Closing the open entry, all of whose neighbours have been looked at,
/// keeps the invariant.
pub proof fn lemma_close<T>(s: Walk<T>)
    requires
        s.inv(),
        s.open_at >= 0,
        s.open_done == s.adj[s.stack[s.open_at]].len(),
    ensures
        s.close().inv(),
{
    let t = s.close();
    assert(t.inv_marks()) by {
        assert forall|w: T| #[trigger] t.gray(w) implies t.has_mark(w) by {
            assert(s.gray(w));
            lemma_mark_kept(s, t, w);
        }
        assert forall|i: int, j: int| #[trigger] t.above(i, j) implies t.stack[i] != t.stack[j]
            && reach(t.adj, t.stack[i], t.stack[j]) by {
            assert(s.above(i, j));
        }
    }
    assert(t.inv_cover()) by {
        assert forall|j: int, n: int| #[trigger] t.looked_at(j, n) implies t.covered(
            j,
            t.adj[t.stack[j]][n],
        ) by {
            assert(s.looked_at(j, n));
            lemma_covered_kept(s, t, j, s.adj[s.stack[j]][n]);
        }
    }
    lemma_colours_kept(s, t);
    lemma_source_kept(s, t);
}

/// A step that changes no colour and no finish time keeps what depends on
/// those alone.
pub proof fn lemma_colours_kept<T>(s: Walk<T>, t: Walk<T>)
    requires
        s.inv(),
        t.adj == s.adj,
        t.color == s.color,
        t.times == s.times,
        t.clock == s.clock,
    ensures
        t.inv_edges(),
        t.inv_times(),
        t.inv_tied(),
{
    assert(t.inv_edges()) by {
        assert forall|x: T, n: int| #[trigger] t.out_edge(x, n) implies !t.white(t.adj[x][n])
            && t.edge_ok(x, t.adj[x][n]) by {
            assert(s.out_edge(x, n));
        }
    }
    assert(t.inv_times()) by {
        assert forall|n: int| 0 <= n < t.clock implies #[trigger] t.handed_out(n) by {
            lemma_handed_out_kept(s, t, n);
        }
    }
    assert(t.inv_tied()) by {
        assert forall|x: T, y: T| t.black(x) && #[trigger] reach(t.adj, x, y) implies t.tied(x)
            || t.dominated(x, y) by {
            assert(s.black(x));
            if s.tied(x) {
                lemma_tied_kept(s, t, x);
            } else {
                lemma_dominated_kept(s, t, x, y);
            }
        }
    }
}

/// A step that changes neither stack nor cursor keeps what is known of
/// where the nodes were reached from.
pub proof fn lemma_source_kept<T>(s: Walk<T>, t: Walk<T>)
    requires
        s.inv(),
        t.adj == s.adj,
        t.color == s.color,
        t.stack == s.stack,
        t.traj == s.traj,
        t.cursor == s.cursor,
    ensures
        t.inv_source(),
{
    assert forall|w: T| #[trigger] t.adj.contains_key(w) implies t.white(w) || t.sourced(w) by {
        if !s.white(w) {
            lemma_sourced_kept(s, t, w);
        }
    }
    assert forall|j: int| 0 <= j < t.stack.len() implies t.sourced(#[trigger] t.stack[j]) by {
        lemma_sourced_kept(s, t, s.stack[j]);
    }
    assert forall|c: int| 0 <= c < t.cursor implies !t.white(#[trigger] t.traj[c])
        || t.stack.contains(t.traj[c]) by {
        assert(!s.white(s.traj[c]) || s.stack.contains(s.traj[c]));
    }
}

/// The top entry, if its node is being explored, is that node's marked entry.
pub proof fn lemma_top_marked<T>(s: Walk<T>)
    requires
        s.inv(),
        s.stack.len() > 0,
        s.gray(s.stack.last()),
    ensures
        s.marks.last(),
{
    let top = s.stack.len() - 1;
    let u = s.stack[top];
    assert(s.has_mark(u));
    reveal(Walk::has_mark);
    let j = choose|j: int| s.marked_at(j, u);
    if j < top {
        assert(s.above(j, top));
    }
}

/// Fewer nodes are finished than there are nodes while one is being explored.
pub proof fn lemma_clock_bound<T>(s: Walk<T>, u: T)
    requires
        s.inv(),
        !s.black(u),
        s.adj.contains_key(u),
    ensures
        s.clock < s.adj.dom().len(),
{
    let done = s.times.dom().insert(u);
    assert(!s.times.contains_key(u));
    assert(done.subset_of(s.adj.dom())) by {
        assert forall|w: T| done.contains(w) implies s.adj.dom().contains(w) by {
            if w != u {
                assert(s.times.contains_key(w));
                assert(s.black(w));
            }
        }
    }
    lemma_len_subset(done, s.adj.dom());
}

/// From a finished node that reaches no node still being explored, every
/// path stays among finished nodes.
pub proof fn lemma_black_closed<T>(s: Walk<T>, p: Seq<T>, i: int)
    requires
        s.inv_base(),
        s.inv_edges(),
        is_path(s.adj, p),
        s.black(p[0]),
        forall|g: T| s.gray(g) ==> !reach(s.adj, p[0], g),
        0 <= i < p.len(),
    ensures
        s.black(p[i]),
    decreases i,
{
    if i > 0 {
        lemma_black_closed(s, p, i - 1);
        let a = p[i - 1];
        let b = p[i];
        assert(step_at(s.adj, p, i - 1));
        let next = s.adj[a];
        let n = choose|n: int| 0 <= n < next.len() && (#[trigger] next[n]) == b;
        assert(s.out_edge(a, n));
        assert(!s.white(b));
        assert(s.adj.contains_key(s.adj[a][n]));
        lemma_path_reaches(s.adj, p, i);
        assert(!s.gray(b));
    }
}

/// Finishing the top entry keeps the invariant; the clock stays within
/// what a finish time holds.
pub proof fn lemma_finish<T>(s: Walk<T>)
    requires
        s.inv(),
        s.stack.len() > 0,
        s.open_at == -1,
        s.gray(s.stack.last()),
        s.adj.dom().len() <= i64::MAX,
    ensures
        s.finish().inv(),
        s.clock < i64::MAX,
        s.whites() == s.finish().whites(),
{
    let t = s.finish();
    let top = s.stack.len() - 1;
    let u = s.stack[top];
    lemma_top_marked(s);
    lemma_clock_bound(s, u);
    assert(t.whites() =~= s.whites());
    assert(t.color.dom() =~= s.color.dom());
    assert(t.inv_base());
    assert forall|j: int| 0 <= j < top && s.marks[j] implies s.stack[j] != u && reach(
        s.adj,
        s.stack[j],
        u,
    ) by {
        assert(s.above(j, top));
    }
    assert(t.inv_marks()) by {
        assert forall|j: int| 0 <= j < t.stack.len() && #[trigger] t.marks[j] implies t.gray(
            t.stack[j],
        ) by {
            assert(s.marks[j]);
            assert(s.gray(s.stack[j]));
        }
        assert forall|w: T| #[trigger] t.gray(w) implies t.has_mark(w) by {
            assert(s.gray(w));
            lemma_mark_kept(s, t, w);
        }
        assert forall|i: int, j: int| #[trigger] t.above(i, j) implies t.stack[i] != t.stack[j]
            && reach(t.adj, t.stack[i], t.stack[j]) by {
            assert(s.above(i, j));
        }
    }
    assert(t.inv_cover()) by {
        assert forall|j: int, n: int| #[trigger] t.looked_at(j, n) implies t.covered(
            j,
            t.adj[t.stack[j]][n],
        ) by {
            assert(s.looked_at(j, n));
            lemma_covered_kept(s, t, j, s.adj[s.stack[j]][n]);
        }
    }
    assert(t.inv_times()) by {
        assert(t.times.dom() =~= s.times.dom().insert(u));
        assert(!s.times.contains_key(u));
        assert forall|w: T| #[trigger] t.times.contains_key(w) <==> t.black(w) by {
            assert(s.times.contains_key(w) <==> s.black(w));
        }
        assert forall|n: int| 0 <= n < t.clock implies #[trigger] t.handed_out(n) by {
            if n < s.clock {
                lemma_handed_out_kept(s, t, n);
            } else {
                reveal(Walk::handed_out);
                assert(t.times.contains_key(u) && t.times[u] == n);
            }
        }
    }
    assert(t.inv_edges()) by {
        assert forall|x: T, n: int| #[trigger] t.out_edge(x, n) implies !t.white(t.adj[x][n])
            && t.edge_ok(x, t.adj[x][n]) by {
            let v = s.adj[x][n];
            if x == u {
                assert(s.looked_at(top, n));
                assert(s.covered(top, v));
                reveal(Walk::covered);
                assert(!s.white(v));
                assert(s.adj.contains_key(s.adj[x][n]));
                if s.black(v) {
                    assert(s.times.contains_key(v));
                } else if v == u {
                    lemma_reach_refl(s.adj, u);
                } else {
                    assert(s.gray(v));
                    assert(s.has_mark(v));
                    reveal(Walk::has_mark);
                    let j = choose|j: int| s.marked_at(j, v);
                    assert(reach(s.adj, v, u));
                }
            } else {
                assert(s.out_edge(x, n));
                assert(s.edge_ok(x, v));
                if s.black(v) {
                    assert(s.times.contains_key(v));
                }
            }
        }
    }
    assert(t.inv_tied()) by {
        assert forall|x: T, y: T| t.black(x) && #[trigger] reach(t.adj, x, y) implies t.tied(x)
            || t.dominated(x, y) by {
            lemma_finish_tied(s, x, y);
        }
    }
    assert(t.inv_source()) by {
        assert forall|w: T| #[trigger] t.adj.contains_key(w) implies t.white(w) || t.sourced(w) by {
            if !s.white(w) {
                lemma_sourced_kept(s, t, w);
            }
        }
        assert forall|j: int| 0 <= j < t.stack.len() implies t.sourced(#[trigger] t.stack[j]) by {
            lemma_sourced_kept(s, t, s.stack[j]);
        }
        assert forall|c: int| 0 <= c < t.cursor implies !t.white(#[trigger] t.traj[c])
            || t.stack.contains(t.traj[c]) by {
            if s.white(s.traj[c]) {
                assert(s.stack.contains(s.traj[c]));
                let i = choose|i: int| 0 <= i < s.stack.len() && s.stack[i] == s.traj[c];
                assert(i < top);
                assert(t.stack[i] == t.traj[c]);
            }
        }
    }
}

/// Finishing the top node keeps every finished node tied or dominated.
pub proof fn lemma_finish_tied<T>(s: Walk<T>, x: T, y: T)
    requires
        s.inv(),
        s.stack.len() > 0,
        s.open_at == -1,
        s.gray(s.stack.last()),
        s.finish().inv_base(),
        s.finish().inv_edges(),
        s.clock < i64::MAX,
        s.finish().black(x),
        reach(s.adj, x, y),
    ensures
        s.finish().tied(x) || s.finish().dominated(x, y),
{
    let t = s.finish();
    let top = s.stack.len() - 1;
    let u = s.stack[top];
    lemma_top_marked(s);
    assert forall|w: T| s.black(w) implies t.black(w) && t.times[w] == s.times[w] by {
        assert(s.times.contains_key(w));
    }
    if t.tied(x) {
    } else {
        // no node still being explored shares the component of `x`
        let with_u = x == u || (s.black(x) && s.tied(x));
        if with_u {
            assert(mutual(s.adj, x, u)) by {
                if x == u {
                    lemma_reach_refl(s.adj, u);
                } else {
                    reveal(Walk::tied);
                    let g = choose|g: T| s.gray(g) && mutual(s.adj, x, g);
                    if g != u {
                        assert(t.gray(g));
                        assert(t.tied(x));
                    }
                }
            }
            assert forall|g: T| t.gray(g) implies !reach(s.adj, u, g) by {
                if reach(s.adj, u, g) {
                    assert(s.gray(g));
                    assert(s.has_mark(g));
                    reveal(Walk::has_mark);
                    let j = choose|j: int| s.marked_at(j, g);
                    assert(j != top);
                    assert(s.above(j, top));
                    assert(mutual(s.adj, u, g));
                    lemma_mutual_trans(s.adj, x, u, g);
                    reveal(Walk::tied);
                    assert(t.tied(x));
                }
            }
            lemma_reach_trans(s.adj, u, x, y);
            let p = lemma_path_of(s.adj, u, y);
            lemma_black_closed(t, p, p.len() - 1);
            assert(t.black(y));
            reveal(Walk::dominated);
            assert(t.black(u) && mutual(t.adj, x, u) && t.times[u] >= t.times[y]) by {
                if y != u {
                    assert(s.black(y));
                    assert(s.times.contains_key(y));
                }
            }
        } else {
            assert(s.black(x));
            assert(s.dominated(x, y));
            lemma_dominated_kept(s, t, x, y);
        }
    }
}

/// The finish times number the finished nodes from zero without repeats or gaps.
pub open spec fn is_numbering<T>(times: Map<T, i64>) -> bool {
    &&& times.dom().finite()
    &&& forall|u: T| #[trigger] times.contains_key(u) ==> 0 <= times[u] < times.dom().len()
    &&& forall|u: T, v: T|
        times.contains_key(u) && times.contains_key(v) && #[trigger] times[u] == #[trigger] times[v]
            ==> u == v
    &&& forall|n: int| 0 <= n < times.dom().len() ==> #[trigger] is_time_of_some(times, n)
}

/// Some key of `times` has the number `n`.
pub open spec fn is_time_of_some<T>(times: Map<T, i64>, n: int) -> bool {
    exists|u: T| times.contains_key(u) && #[trigger] times[u] == n
}

/// Each neighbour of a finished node finished before it, or leads back to it.
pub open spec fn respects_edges<T>(adj: Adjacency<T>, times: Map<T, i64>) -> bool {
    forall|u: T, n: int|
        times.contains_key(u) && 0 <= n < adj[u].len() ==> {
            let v = #[trigger] adj[u][n];
            (times.contains_key(v) && times[v] < times[u]) || reach(adj, v, u)
        }
}

/// Whatever a finished node reaches is finished, and no later than the last
/// node of that node's strongly connected component.
pub open spec fn crowns_components<T>(adj: Adjacency<T>, times: Map<T, i64>) -> bool {
    forall|x: T, y: T|
        times.contains_key(x) && #[trigger] reach(adj, x, y) ==> times.contains_key(y) && outlasted(
            adj,
            times,
            x,
            y,
        )
}

/// Some node of the strongly connected component of `x` finished no earlier than `y`.
#[verifier::opaque]
pub open spec fn outlasted<T>(adj: Adjacency<T>, times: Map<T, i64>, x: T, y: T) -> bool {
    exists|z: T| times.contains_key(z) && mutual(adj, x, z) && times[z] >= times[y]
}

/// `u` is reached from one of the first `upto` root candidates.
pub open spec fn rooted<T>(adj: Adjacency<T>, traj: Seq<T>, upto: int, u: T) -> bool {
    exists|c: int| 0 <= c < upto && reach(adj, #[trigger] traj[c], u)
}

/// What holds of the finish times however far the traversal got.
pub open spec fn partial_finish_times<T>(adj: Adjacency<T>, traj: Seq<T>, times: Map<T, i64>) -> bool {
    &&& is_numbering(times)
    &&& respects_edges(adj, times)
    &&& forall|u: T| #[trigger] times.contains_key(u) ==> rooted(adj, traj, traj.len() as int, u)
}

/// What holds of the finish times of a traversal that ran to its end: the
/// finished nodes are those that some root candidate reaches.
pub open spec fn finish_times<T>(adj: Adjacency<T>, traj: Seq<T>, times: Map<T, i64>) -> bool {
    &&& partial_finish_times(adj, traj, times)
    &&& forall|u: T| rooted(adj, traj, traj.len() as int, u) ==> #[trigger] times.contains_key(u)
    &&& crowns_components(adj, times)
}

/// What the invariant says of the finish times handed out so far.
pub proof fn lemma_partial<T>(s: Walk<T>)
    requires
        s.inv(),
    ensures
        partial_finish_times(s.adj, s.traj, s.times),
{
    assert forall|n: int| 0 <= n < s.times.dom().len() implies #[trigger] is_time_of_some(
        s.times,
        n,
    ) by {
        assert(s.handed_out(n));
        reveal(Walk::handed_out);
    }
    assert forall|u: T, n: int| s.times.contains_key(u) && 0 <= n < s.adj[u].len() implies {
        let v = #[trigger] s.adj[u][n];
        (s.times.contains_key(v) && s.times[v] < s.times[u]) || reach(s.adj, v, u)
    } by {
        assert(s.out_edge(u, n));
        assert(s.edge_ok(u, s.adj[u][n]));
    }
    assert forall|u: T| #[trigger] s.times.contains_key(u) implies rooted(
        s.adj,
        s.traj,
        s.traj.len() as int,
        u,
    ) by {
        assert(s.black(u));
        assert(s.sourced(u));
        reveal(Walk::sourced);
        let c = choose|c: int| 0 <= c < s.cursor && reach(s.adj, #[trigger] s.traj[c], u);
        assert(0 <= c < s.traj.len() && reach(s.adj, s.traj[c], u));
    }
}

/// What the invariant says once the stack is empty and every root
/// candidate has been taken.
pub proof fn lemma_finale<T>(s: Walk<T>)
    requires
        s.inv(),
        s.stack.len() == 0,
        s.cursor == s.traj.len(),
    ensures
        finish_times(s.adj, s.traj, s.times),
        forall|u: T| s.adj.contains_key(u) ==> !s.gray(u),
{
    lemma_partial(s);
    assert forall|g: T| !s.gray(g) by {
        if s.gray(g) {
            assert(s.has_mark(g));
            reveal(Walk::has_mark);
        }
    }
    assert forall|u: T| rooted(s.adj, s.traj, s.traj.len() as int, u) implies #[trigger] s.times.contains_key(
        u,
    ) by {
        let c = choose|c: int| 0 <= c < s.traj.len() && reach(s.adj, #[trigger] s.traj[c], u);
        let r = s.traj[c];
        assert(!s.white(r) || s.stack.contains(r));
        assert(!s.white(r));
        assert(s.adj.contains_key(r));
        assert(!s.gray(r));
        assert(s.black(r));
        let p = lemma_path_of(s.adj, r, u);
        lemma_black_closed(s, p, p.len() - 1);
    }
    assert forall|x: T, y: T| s.times.contains_key(x) && #[trigger] reach(s.adj, x, y) implies s.times.contains_key(
        y,
    ) && outlasted(s.adj, s.times, x, y) by {
        assert(s.black(x));
        assert(s.tied(x) || s.dominated(x, y));
        reveal(Walk::tied);
        reveal(Walk::dominated);
        reveal(outlasted);
        let z = choose|z: T| s.black(z) && mutual(s.adj, x, z) && s.times[z] >= s.times[y];
        assert(s.times.contains_key(z));
        assert(s.times.contains_key(y));
    }
}

} // verus!
