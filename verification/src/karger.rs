//! Random contraction of an undirected multigraph, down to two nodes: the
//! edges that are left between the two are a cut of the graph.

use crate::loader::{line_end, line_starts, numbers, parse_line, words, MalformedInputError};
use rand::rngs::ThreadRng;
use rand::Rng;
use vstd::prelude::*;
use vstd::string::StringSliceAdditionalSpecFns;

verus! {

/// `rand::rngs::ThreadRng`, carried through as an opaque value.
#[verifier::external_type_specification]
#[verifier::external_body]
pub struct ExThreadRng(ThreadRng);

/// `Rng::gen_range` on `0..n`: some number below `n`. Which one depends on
/// the generator's state, of which nothing is claimed.
#[verifier::external_body]
pub(crate) fn pick(rng: &mut ThreadRng, n: usize) -> (k: usize)
    requires
        n > 0,
    ensures
        k < n,
{
    rng.gen_range(0..n)
}

/// A node, and the nodes at the other ends of its edges: its number is its
/// place in the graph; an edge that occurs twice is two edges.
#[derive(Clone, Debug, PartialEq, Eq)]
pub struct Node {
    pub id: usize,
    pub edges: Vec<usize>,
}

/// An undirected multigraph.
#[derive(Clone, Debug, PartialEq, Eq)]
pub struct Graph {
    pub nodes: Vec<Node>,
}

/// The elements of `s` other than `a` and `b`, in their order.
pub open spec fn without(s: Seq<usize>, a: usize, b: usize) -> Seq<usize>
    decreases s.len(),
{
    if s.len() == 0 {
        s
    } else if s.last() == a || s.last() == b {
        without(s.drop_last(), a, b)
    } else {
        without(s.drop_last(), a, b).push(s.last())
    }
}

/// `s` with every `b` turned into `a`.
pub open spec fn renamed(s: Seq<usize>, b: usize, a: usize) -> Seq<usize> {
    Seq::new(
        s.len(),
        |i: int|
            if s[i] == b {
                a
            } else {
                s[i]
            },
    )
}

/// The edges of `a` once `b` is merged into it: those of both, without the
/// edges between the two and the loops.
pub open spec fn merged(rows: Seq<Seq<usize>>, a: usize, b: usize) -> Seq<usize> {
    without(rows[a as int] + without(rows[b as int], a, a), b, a)
}

/// The edge lists once `b` is merged into `a`: `b` has no edges left, `a`
/// has the merged ones, and every neighbour of `a` names `a` where it
/// named `b`.
pub open spec fn contracted(rows: Seq<Seq<usize>>, a: usize, b: usize) -> Seq<Seq<usize>> {
    Seq::new(
        rows.len(),
        |j: int|
            if j == b {
                Seq::empty()
            } else if j == a {
                merged(rows, a, b)
            } else if merged(rows, a, b).contains(j as usize) {
                renamed(rows[j], b, a)
            } else {
                rows[j]
            },
    )
}

/// Every edge in `rows` ends at one of `n` nodes.
pub open spec fn in_range(rows: Seq<Seq<usize>>, n: int) -> bool {
    forall|j: int, k: int| 0 <= j < rows.len() && 0 <= k < rows[j].len() ==> #[trigger] rows[j][k] < n
}

/// What is left of a sequence holds neither of the two elements, and only
/// elements of the sequence.
pub proof fn lemma_without(s: Seq<usize>, a: usize, b: usize)
    ensures
        forall|k: int|
            0 <= k < without(s, a, b).len() ==> (#[trigger] without(s, a, b)[k]) != a && without(
                s,
                a,
                b,
            )[k] != b && s.contains(without(s, a, b)[k]),
        without(s, a, b).len() <= s.len(),
    decreases s.len(),
{
    if s.len() > 0 {
        let front = s.drop_last();
        lemma_without(front, a, b);
        let w = without(s, a, b);
        assert forall|k: int| 0 <= k < w.len() implies (#[trigger] w[k]) != a && w[k] != b && s.contains(
            w[k],
        ) by {
            if k < without(front, a, b).len() {
                let v = without(front, a, b)[k];
                assert(front.contains(v));
                let i = choose|i: int| 0 <= i < front.len() && front[i] == v;
                assert(s[i] == v);
            } else {
                assert(s[s.len() - 1] == w[k]);
            }
        }
    }
}

impl Graph {
    /// The edge lists, node by node.
    pub open spec fn rows(&self) -> Seq<Seq<usize>> {
        Seq::new(self.nodes@.len(), |j: int| self.nodes@[j].edges@)
    }

    /// Every node's number is its place, and every edge ends at a node.
    pub open spec fn valid(&self) -> bool {
        &&& forall|j: int| 0 <= j < self.nodes@.len() ==> (#[trigger] self.nodes@[j]).id == j
        &&& in_range(self.rows(), self.nodes@.len() as int)
    }

    /// A graph without nodes.
    pub fn new() -> (g: Self)
        ensures
            g.nodes@.len() == 0,
            g.valid(),
    {
        Self { nodes: Vec::new() }
    }

    /// Whether the graph is valid.
    pub fn is_valid(&self) -> (valid: bool)
        ensures
            valid == self.valid(),
    {
        let n = self.nodes.len();
        let mut j: usize = 0;
        while j < n
            invariant
                j <= n == self.nodes@.len(),
                forall|i: int| 0 <= i < j ==> (#[trigger] self.nodes@[i]).id == i,
                forall|i: int, k: int|
                    0 <= i < j && 0 <= k < self.rows()[i].len() ==> #[trigger] self.rows()[i][k] < n,
            decreases n - j,
        {
            if self.nodes[j].id != j {
                return false;
            }
            let mut k: usize = 0;
            while k < self.nodes[j].edges.len()
                invariant
                    j < n == self.nodes@.len(),
                    k <= self.nodes@[j as int].edges@.len(),
                    forall|i: int| 0 <= i < k ==> self.nodes@[j as int].edges@[i] < n,
                decreases self.nodes@[j as int].edges@.len() - k,
            {
                if self.nodes[j].edges[k] >= n {
                    assert(!(self.rows()[j as int][k as int] < n));
                    return false;
                }
                k += 1;
            }
            j += 1;
        }
        true
    }

    /// The nodes that have an edge, in rising order.
    pub fn live_nodes(&self) -> (live: Vec<usize>)
        ensures
            forall|k: int| 0 <= k < live@.len() ==> (#[trigger] live@[k]) < self.nodes@.len()
                && self.nodes@[live@[k] as int].edges@.len() > 0,
            forall|j: int|
                0 <= j < self.nodes@.len() && (#[trigger] self.nodes@[j]).edges@.len() > 0
                    ==> live@.contains(j as usize),
    {
        let mut live: Vec<usize> = Vec::new();
        let mut j: usize = 0;
        while j < self.nodes.len()
            invariant
                j <= self.nodes@.len(),
                forall|k: int| 0 <= k < live@.len() ==> (#[trigger] live@[k]) < self.nodes@.len()
                    && self.nodes@[live@[k] as int].edges@.len() > 0,
                forall|i: int|
                    0 <= i < j && (#[trigger] self.nodes@[i]).edges@.len() > 0 ==> live@.contains(
                        i as usize,
                    ),
            decreases self.nodes@.len() - j,
        {
            if self.nodes[j].edges.len() > 0 {
                let ghost before = live@;
                live.push(j);
                proof {
                    assert(live@[live@.len() - 1] == j);
                    assert forall|i: int|
                        0 <= i < j + 1 && (#[trigger] self.nodes@[i]).edges@.len() > 0 implies live@.contains(
                        i as usize,
                    ) by {
                        if i < j {
                            assert(before.contains(i as usize));
                            let k = choose|k: int| 0 <= k < before.len() && before[k] == i as usize;
                            assert(live@[k] == i as usize);
                        }
                    }
                }
            }
            j += 1;
        }
        live
    }

    /// Merges the node `node2_id` into the node `node_id`.
    pub fn contract(&mut self, node_id: usize, node2_id: usize)
        requires
            old(self).valid(),
            node_id < old(self).nodes@.len(),
            node2_id < old(self).nodes@.len(),
        ensures
            final(self).valid(),
            final(self).nodes@.len() == old(self).nodes@.len(),
            final(self).rows() == contracted(old(self).rows(), node_id, node2_id),
    {
        let n = self.nodes.len();
        let ghost rows0 = self.rows();
        // the edges of node2 that do not lead to node
        let mut joined: Vec<usize> = Vec::new();
        let mut k: usize = 0;
        while k < self.nodes[node_id].edges.len()
            invariant
                node_id < self.nodes@.len(),
                k <= self.nodes@[node_id as int].edges@.len(),
                joined@ == self.nodes@[node_id as int].edges@.take(k as int),
            decreases self.nodes@[node_id as int].edges@.len() - k,
        {
            joined.push(self.nodes[node_id].edges[k]);
            assert(joined@ =~= self.nodes@[node_id as int].edges@.take(k + 1));
            k += 1;
        }
        assert(joined@ =~= rows0[node_id as int]);
        let ghost own = rows0[node_id as int];
        let ghost other = rows0[node2_id as int];
        k = 0;
        while k < self.nodes[node2_id].edges.len()
            invariant
                node2_id < self.nodes@.len(),
                self.rows() == rows0,
                other == rows0[node2_id as int],
                k <= other.len(),
                joined@ == own + without(other.take(k as int), node_id, node_id),
            decreases other.len() - k,
        {
            let edge = self.nodes[node2_id].edges[k];
            proof {
                assert(other.take(k + 1).drop_last() =~= other.take(k as int));
                assert(other.take(k + 1).last() == edge);
            }
            if edge != node_id {
                joined.push(edge);
                assert(joined@ =~= own + without(other.take(k + 1), node_id, node_id));
            }
            k += 1;
        }
        assert(other.take(other.len() as int) =~= other);
        let ghost all = joined@;
        let mut kept: Vec<usize> = Vec::new();
        k = 0;
        while k < joined.len()
            invariant
                k <= joined@.len(),
                joined@ == all,
                kept@ == without(all.take(k as int), node2_id, node_id),
            decreases joined@.len() - k,
        {
            let edge = joined[k];
            proof {
                assert(all.take(k + 1).drop_last() =~= all.take(k as int));
                assert(all.take(k + 1).last() == edge);
            }
            if edge != node2_id && edge != node_id {
                kept.push(edge);
            }
            k += 1;
        }
        assert(all.take(all.len() as int) =~= all);
        let ghost merged_row = merged(rows0, node_id, node2_id);
        assert(kept@ == merged_row);
        proof {
            lemma_without(all, node2_id, node_id);
            lemma_without(other, node_id, node_id);
            assert forall|i: int| 0 <= i < merged_row.len() implies (#[trigger] merged_row[i]) < n by {
                let v = merged_row[i];
                assert(all.contains(v));
                let p = choose|p: int| 0 <= p < all.len() && all[p] == v;
                if p < own.len() {
                    assert(rows0[node_id as int][p] < n);
                } else {
                    let w = without(other, node_id, node_id);
                    assert(w[p - own.len()] == v);
                    assert(other.contains(v));
                    let q = choose|q: int| 0 <= q < other.len() && other[q] == v;
                    assert(rows0[node2_id as int][q] < n);
                }
            }
        }
        // every neighbour names node where it named node2
        k = 0;
        while k < kept.len()
            invariant
                k <= kept@.len(),
                kept@ == merged_row,
                n == self.nodes@.len() == rows0.len(),
                node_id < n,
                node2_id < n,
                old(self).valid(),
                rows0 == old(self).rows(),
                forall|j: int| 0 <= j < n ==> (#[trigger] self.nodes@[j]).id == j,
                forall|i: int| 0 <= i < merged_row.len() ==> (#[trigger] merged_row[i]) < n,
                forall|i: int| 0 <= i < merged_row.len() ==> (#[trigger] merged_row[i]) != node_id
                    && merged_row[i] != node2_id,
                forall|j: int|
                    0 <= j < n ==> #[trigger] self.rows()[j] == (if merged_row.take(k as int).contains(
                        j as usize,
                    ) {
                        renamed(rows0[j], node2_id, node_id)
                    } else {
                        rows0[j]
                    }),
            decreases kept@.len() - k,
        {
            let node_j = kept[k];
            let ghost before = self.rows();
            let mut e: usize = 0;
            while e < self.nodes[node_j].edges.len()
                invariant
                    node_j < n == self.nodes@.len(),
                    e <= self.nodes@[node_j as int].edges@.len(),
                    self.nodes@[node_j as int].edges@.len() == before[node_j as int].len(),
                    before.len() == n,
                    forall|j: int| 0 <= j < n ==> (#[trigger] self.nodes@[j]).id == j,
                    forall|j: int| 0 <= j < n && j != node_j ==> #[trigger] self.rows()[j] == before[j],
                    forall|i: int|
                        0 <= i < before[node_j as int].len() ==> #[trigger] self.nodes@[node_j as int].edges@[i]
                            == (if i < e && before[node_j as int][i] == node2_id {
                            node_id
                        } else {
                            before[node_j as int][i]
                        }),
                decreases self.nodes@[node_j as int].edges@.len() - e,
            {
                if self.nodes[node_j].edges[e] == node2_id {
                    let ghost mid = self.rows();
                    self.nodes[node_j].edges[e] = node_id;
                    proof {
                        assert forall|j: int| 0 <= j < n && j != node_j implies #[trigger] self.rows()[j]
                            == before[j] by {
                            assert(self.rows()[j] == mid[j]);
                        }
                    }
                }
                e += 1;
            }
            proof {
                let done_before = merged_row.take(k as int);
                let done = merged_row.take(k + 1);
                assert(merged_row[k as int] == node_j);
                assert(self.rows()[node_j as int] =~= renamed(before[node_j as int], node2_id, node_id));
                assert(renamed(renamed(rows0[node_j as int], node2_id, node_id), node2_id, node_id)
                    =~= renamed(rows0[node_j as int], node2_id, node_id));
                assert forall|j: int| 0 <= j < n implies #[trigger] self.rows()[j] == (if done.contains(
                    j as usize,
                ) {
                    renamed(rows0[j], node2_id, node_id)
                } else {
                    rows0[j]
                }) by {
                    assert(before[j] == (if done_before.contains(j as usize) {
                        renamed(rows0[j], node2_id, node_id)
                    } else {
                        rows0[j]
                    }));
                    if done_before.contains(j as usize) {
                        let p = choose|p: int| 0 <= p < done_before.len() && done_before[p] == j as usize;
                        assert(done[p] == j as usize);
                    }
                    if done.contains(j as usize) && j != node_j {
                        let p = choose|p: int| 0 <= p < done.len() && done[p] == j as usize;
                        assert(done_before[p] == j as usize);
                    }
                    if j == node_j {
                        assert(done[k as int] == j as usize);
                    }
                }
            }
            k += 1;
        }
        assert(merged_row.take(merged_row.len() as int) =~= merged_row);
        let ghost mid = self.rows();
        self.nodes[node_id].edges = kept;
        self.nodes[node2_id].edges = Vec::new();
        proof {
            let rows1 = self.rows();
            let want = contracted(rows0, node_id, node2_id);
            assert forall|j: int| 0 <= j < n implies rows1[j] == want[j] by {
                if j != node_id && j != node2_id {
                    assert(rows1[j] == mid[j]);
                }
            }
            assert(rows1 =~= want);
            assert forall|j: int, i: int| 0 <= j < rows1.len() && 0 <= i < rows1[j].len()
                implies #[trigger] rows1[j][i] < n by {
                if j == node2_id {
                } else if j == node_id {
                    assert(merged_row[i] < n);
                } else {
                    assert(rows0[j][i] < n);
                }
            }
        }
    }

    /// Contracts edges picked at random until two nodes are left, or no
    /// edge is. Returns the number of edges at the node into which the last
    /// one was merged, the nodes that were merged away, in the order in
    /// which they went, and the nodes that were not, in rising order.
    pub fn min_cut(&mut self, rng: &mut ThreadRng) -> (cut: (usize, Vec<usize>, Vec<usize>))
        requires
            old(self).valid(),
            old(self).nodes@.len() > 0,
        ensures
            final(self).valid(),
            final(self).nodes@.len() == old(self).nodes@.len(),
            cut.1@.len() <= old(self).nodes@.len(),
            forall|k: int| 0 <= k < cut.1@.len() ==> (#[trigger] cut.1@[k]) < old(self).nodes@.len(),
            old(self).nodes@.len() - cut.1@.len() <= 2 || forall|j: int|
                0 <= j < final(self).nodes@.len() ==> (#[trigger] final(self).nodes@[j]).edges@.len()
                    == 0,
            cut.2@ == unremoved(cut.1@, old(self).nodes@.len() as nat),
            exists|j: int| 0 <= j < final(self).nodes@.len() && cut.0 == final(self).rows()[j].len(),
    {
        let n = self.nodes.len();
        let mut removed: Vec<usize> = Vec::new();
        let mut last_known: usize = 0;
        let mut stuck = false;
        while n - removed.len() > 2 && !stuck
            invariant
                self.valid(),
                n == self.nodes@.len(),
                n > 0,
                removed@.len() <= n,
                last_known < n,
                forall|k: int| 0 <= k < removed@.len() ==> (#[trigger] removed@[k]) < n,
                stuck ==> forall|j: int|
                    0 <= j < self.nodes@.len() ==> (#[trigger] self.nodes@[j]).edges@.len() == 0,
            decreases n - removed@.len(), (if stuck { 0int } else { 1int }),
        {
            let live = self.live_nodes();
            if live.len() == 0 {
                stuck = true;
                proof {
                    assert forall|j: int| 0 <= j < self.nodes@.len() implies (#[trigger] self.nodes@[j]).edges@.len()
                        == 0 by {
                        if self.nodes@[j].edges@.len() > 0 {
                            assert(live@.contains(j as usize));
                        }
                    }
                }
            } else {
                let node_id = live[pick(rng, live.len())];
                let rand_edge_id = pick(rng, self.nodes[node_id].edges.len());
                let node2_id = self.nodes[node_id].edges[rand_edge_id];
                assert(self.rows()[node_id as int][rand_edge_id as int] < n);
                self.contract(node_id, node2_id);
                removed.push(node2_id);
                last_known = node_id;
            }
        }
        let mut retained: Vec<usize> = Vec::new();
        let mut id: usize = 0;
        while id < n
            invariant
                id <= n,
                retained@ == unremoved(removed@, id as nat),
            decreases n - id,
        {
            if !is_removed(&removed, id) {
                retained.push(id);
            }
            id += 1;
        }
        let cut = self.nodes[last_known].edges.len();
        assert(cut == self.rows()[last_known as int].len());
        (cut, removed, retained)
    }

    /// Reads a graph from adjacency lists, one node to a line: the number
    /// of the node, which is not used, then the numbers of its neighbours,
    /// counted from one. The node of the first line becomes the next node
    /// of the graph. Reading stops at the first line that is malformed,
    /// which the error names; the nodes of the lines before it stay.
    pub fn load_from_text(&mut self, text: &str) -> (done: Result<(), MalformedInputError>)
        ensures
            match done {
                Ok(_) => rows_read(text.spec_bytes(), 0) == Some(final(self).rows().skip(
                    old(self).nodes@.len() as int,
                )) && final(self).nodes@.len() >= old(self).nodes@.len(),
                Err(e) => rows_read(text.spec_bytes(), 0) is None,
            },
            forall|j: int| 0 <= j < old(self).nodes@.len() ==> final(self).nodes@[j] == old(self).nodes@[j],
    {
        let bytes = text.as_bytes();
        let ghost s = bytes@;
        let ghost base = self.nodes@.len();
        let mut i: usize = 0;
        let mut line: usize = 0;
        while i < bytes.len()
            invariant
                i <= bytes@.len(),
                s == bytes@,
                s == text.spec_bytes(),
                line <= i,
                i < s.len() ==> i == 0 || s[i - 1] == 10,
                self.nodes@.len() >= base,
                forall|j: int| 0 <= j < base ==> self.nodes@[j] == old(self).nodes@[j],
                base == old(self).nodes@.len(),
                match rows_read(s, i as int) {
                    Some(rest) => rows_read(s, 0) == Some(self.rows().skip(base as int) + rest),
                    None => rows_read(s, 0) is None,
                },
            decreases bytes@.len() - i,
        {
            let start = i;
            while i < bytes.len() && bytes[i] != 10
                invariant
                    start <= i <= bytes@.len(),
                    s == bytes@,
                    line_end(s, i as int) == line_end(s, start as int),
                    forall|k: int| start <= k < i ==> #[trigger] s[k] != 10,
                decreases bytes@.len() - i,
            {
                i += 1;
            }
            proof {
                assert(line_starts(s, start as int));
                assert(line_end(s, i as int) == i);
            }
            let edges = match parse_line(bytes, start, i) {
                Some(nums) => neighbours_of(&nums),
                None => None,
            };
            let ghost next = if i < s.len() {
                i + 1
            } else {
                i as int
            };
            proof {
                assert forall|k: int| start + 1 <= k < next implies !line_starts(s, k) by {
                    assert(s[k - 1] != 10);
                }
                lemma_rows_skip(s, start + 1, next);
            }
            match edges {
                Some(edges) => {
                    let ghost before = self.rows().skip(base as int);
                    let id = self.nodes.len();
                    self.nodes.push(Node { id, edges });
                    proof {
                        let rest = rows_read(s, next)->0;
                        if rows_read(s, next) is Some {
                            assert(self.rows().skip(base as int) + rest =~= before + (seq![edges@] + rest));
                        }
                    }
                },
                None => {
                    assert(rows_read(s, start as int) is None);
                    return Err(MalformedInputError { line });
                },
            }
            if i < bytes.len() {
                i += 1;
            }
            line += 1;
        }
        proof {
            assert(self.rows().skip(base as int) + Seq::<Seq<usize>>::empty() =~= self.rows().skip(
                base as int,
            ));
        }
        Ok(())
    }
}

/// The neighbours that a line of numbers names: all numbers but the first,
/// each less one. There must be a first number, and no zero after it.
pub open spec fn row_of(nums: Seq<usize>) -> Option<Seq<usize>> {
    if nums.len() >= 1 && forall|k: int| 1 <= k < nums.len() ==> #[trigger] nums[k] >= 1 {
        Some(Seq::new((nums.len() - 1) as nat, |k: int| (nums[k + 1] - 1) as usize))
    } else {
        None
    }
}

/// The edge lists that the lines of `s` from `i` on give, if every line is
/// well formed.
pub open spec fn rows_read(s: Seq<u8>, i: int) -> Option<Seq<Seq<usize>>>
    decreases s.len() - i,
{
    if i < 0 || i >= s.len() {
        Some(Seq::empty())
    } else if line_starts(s, i) {
        match numbers(words(s.subrange(i, line_end(s, i)), 0)) {
            Some(nums) => match (row_of(nums), rows_read(s, i + 1)) {
                (Some(row), Some(rest)) => Some(seq![row] + rest),
                _ => None,
            },
            None => None,
        }
    } else {
        rows_read(s, i + 1)
    }
}

/// Inside a line no line begins.
pub proof fn lemma_rows_skip(s: Seq<u8>, i: int, j: int)
    requires
        0 <= i <= j <= s.len(),
        forall|k: int| i <= k < j ==> !line_starts(s, k),
    ensures
        rows_read(s, i) == rows_read(s, j),
    decreases j - i,
{
    if i < j {
        lemma_rows_skip(s, i + 1, j);
    }
}

/// The neighbours that a line of numbers names.
pub fn neighbours_of(nums: &Vec<usize>) -> (row: Option<Vec<usize>>)
    ensures
        match row {
            Some(v) => row_of(nums@) == Some(v@),
            None => row_of(nums@) is None,
        },
{
    if nums.len() < 1 {
        return None;
    }
    let mut row: Vec<usize> = Vec::new();
    let mut k: usize = 1;
    while k < nums.len()
        invariant
            1 <= k <= nums@.len(),
            row@.len() == k - 1,
            forall|i: int| 1 <= i < k ==> #[trigger] nums@[i] >= 1,
            forall|i: int| 0 <= i < k - 1 ==> #[trigger] row@[i] == (nums@[i + 1] - 1) as usize,
        decreases nums@.len() - k,
    {
        if nums[k] == 0 {
            return None;
        }
        row.push(nums[k] - 1);
        k += 1;
    }
    assert(row@ =~= Seq::new((nums@.len() - 1) as nat, |k: int| (nums@[k + 1] - 1) as usize));
    Some(row)
}

/// The numbers below `n` that are not among `removed`, in rising order.
pub open spec fn unremoved(removed: Seq<usize>, n: nat) -> Seq<usize>
    decreases n,
{
    if n == 0 {
        Seq::empty()
    } else if removed.contains((n - 1) as usize) {
        unremoved(removed, (n - 1) as nat)
    } else {
        unremoved(removed, (n - 1) as nat).push((n - 1) as usize)
    }
}

/// Whether `id` is among `removed`.
pub fn is_removed(removed: &Vec<usize>, id: usize) -> (found: bool)
    ensures
        found == removed@.contains(id),
{
    let mut k: usize = 0;
    while k < removed.len()
        invariant
            k <= removed@.len(),
            forall|i: int| 0 <= i < k ==> removed@[i] != id,
        decreases removed@.len() - k,
    {
        if removed[k] == id {
            return true;
        }
        k += 1;
    }
    false
}

} // verus!
