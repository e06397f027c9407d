//! A die tipped from square to square over a grid of scores: on its n-th
//! move the score grows by n times the face that comes up, and a square can
//! be entered only with exactly the score written on it.

use vstd::prelude::*;

verus! {

/// The rows of a grid.
pub open spec fn grid_rows(g: Seq<Vec<i32>>) -> Seq<Seq<int>> {
    Seq::new(g.len(), |i: int| Seq::new(g[i]@.len(), |j: int| g[i]@[j] as int))
}

/// The puzzle grid as printed, top row first.
pub open spec fn printed_grid() -> Seq<Seq<int>> {
    seq![
        seq![57int, 33, 132, 268, 492, 732],
        seq![81int, 123, 240, 443, 353, 508],
        seq![186int, 42, 195, 704, 452, 228],
        seq![-7int, 2, 357, 452, 317, 395],
        seq![5int, 23, -4, 592, 445, 620],
        seq![0int, 77, 32, 403, 337, 452],
    ]
}

/// The tiny grid of three rows.
pub open spec fn tiny_rows() -> Seq<Seq<int>> {
    seq![seq![0int, 8, 8], seq![-13int, 84, 32], seq![0int, 89, 503]]
}

/// The puzzle grid as printed, top row first.
pub fn grid_spec() -> (g: Vec<Vec<i32>>)
    ensures
        grid_rows(g@) == printed_grid(),
{
    let g = vec![
        vec![57, 33, 132, 268, 492, 732],
        vec![81, 123, 240, 443, 353, 508],
        vec![186, 42, 195, 704, 452, 228],
        vec![-7, 2, 357, 452, 317, 395],
        vec![5, 23, -4, 592, 445, 620],
        vec![0, 77, 32, 403, 337, 452],
    ];
    assert(grid_rows(g@) =~= printed_grid()) by {
        assert forall|i: int| 0 <= i < 6 implies #[trigger] grid_rows(g@)[i] =~= printed_grid()[i] by {}
    }
    g
}

/// The puzzle grid with the start in the first row: the printed grid upside down.
pub fn grid() -> (g: Vec<Vec<i32>>)
    ensures
        grid_rows(g@) == printed_grid().reverse(),
{
    let g = vec![
        vec![0, 77, 32, 403, 337, 452],
        vec![5, 23, -4, 592, 445, 620],
        vec![-7, 2, 357, 452, 317, 395],
        vec![186, 42, 195, 704, 452, 228],
        vec![81, 123, 240, 443, 353, 508],
        vec![57, 33, 132, 268, 492, 732],
    ];
    assert(grid_rows(g@) =~= printed_grid().reverse()) by {
        assert forall|i: int| 0 <= i < 6 implies #[trigger] grid_rows(g@)[i] =~= printed_grid().reverse()[i] by {}
    }
    g
}

/// A grid of three rows that has a way through.
pub fn tiny_grid() -> (g: Vec<Vec<i32>>)
    ensures
        grid_rows(g@) == tiny_rows(),
{
    let g = vec![vec![0, 8, 8], vec![-13, 84, 32], vec![0, 89, 503]];
    assert(grid_rows(g@) =~= tiny_rows()) by {
        assert forall|i: int| 0 <= i < 3 implies #[trigger] grid_rows(g@)[i] =~= tiny_rows()[i] by {}
    }
    g
}

/// A die on a grid, with what is known of its journey.
#[derive(Debug)]
pub struct Die {
    pub grid: Vec<Vec<i32>>,
    pub x: usize,
    pub y: usize,
    pub face: i32,
    pub score: i32,
    pub known_faces: Vec<i32>,
    pub squares_visited: Vec<(usize, usize)>,
}

/// The squares next to `(x, y)` on a grid of `rows` rows of `cols` columns:
/// left, right, below, above, as far as they exist.
pub open spec fn neighbours(x: usize, y: usize, rows: int, cols: int) -> Seq<(usize, usize)> {
    (if x > 0 {
        seq![((x - 1) as usize, y)]
    } else {
        Seq::empty()
    }) + (if x < rows - 1 {
        seq![((x + 1) as usize, y)]
    } else {
        Seq::empty()
    }) + (if y > 0 {
        seq![(x, (y - 1) as usize)]
    } else {
        Seq::empty()
    }) + (if y < cols - 1 {
        seq![(x, (y + 1) as usize)]
    } else {
        Seq::empty()
    })
}

/// The face that must come up for the score to reach `target` on the move
/// after `moves` moves: the whole difference on the first move, else the
/// difference divided by the number of moves made, rounded towards zero.
pub open spec fn face_needed(target: int, score: int, moves: int) -> int {
    let diff = target - score;
    if moves == 0 {
        diff
    } else if diff >= 0 {
        diff / moves
    } else {
        -((-diff) / moves)
    }
}

impl Die {
    /// A die in the corner `(0, 0)`, no face known, no move made.
    pub fn new(grid: Vec<Vec<i32>>) -> (die: Die)
        ensures
            die.grid == grid,
            die.x == 0,
            die.y == 0,
            die.face == -1,
            die.score == 0,
            die.known_faces@ == Seq::<i32>::empty(),
            die.squares_visited@ == Seq::<(usize, usize)>::empty(),
    {
        Die {
            grid,
            x: 0,
            y: 0,
            face: -1,
            score: 0,
            known_faces: Vec::new(),
            squares_visited: Vec::new(),
        }
    }

    /// Where the die stands.
    pub fn position(&self) -> (at: (usize, usize))
        ensures
            at == (self.x, self.y),
    {
        (self.x, self.y)
    }

    /// The grid has a first row, and that row a first square.
    pub open spec fn has_squares(&self) -> bool {
        self.grid@.len() > 0 && self.grid@[0]@.len() > 0
    }

    /// Whether the die stands in the corner opposite to the start.
    pub fn is_at_goal(&self) -> (at_goal: bool)
        requires
            self.has_squares(),
        ensures
            at_goal == (self.x == self.grid@.len() - 1 && self.y == self.grid@[0]@.len() - 1),
    {
        self.x == self.grid.len() - 1 && self.y == self.grid[0].len() - 1
    }

    /// The squares that one tip leads to.
    pub fn adjacent(&self) -> (adjacent: Vec<(usize, usize)>)
        requires
            self.has_squares(),
        ensures
            adjacent@ == neighbours(
                self.x,
                self.y,
                self.grid@.len() as int,
                self.grid@[0]@.len() as int,
            ),
    {
        let mut adjacent: Vec<(usize, usize)> = Vec::new();
        if self.x > 0 {
            adjacent.push((self.x - 1, self.y));
        }
        if self.x < self.grid.len() - 1 {
            adjacent.push((self.x + 1, self.y));
        }
        if self.y > 0 {
            adjacent.push((self.x, self.y - 1));
        }
        if self.y < self.grid[0].len() - 1 {
            adjacent.push((self.x, self.y + 1));
        }
        assert(adjacent@ =~= neighbours(
            self.x,
            self.y,
            self.grid@.len() as int,
            self.grid@[0]@.len() as int,
        ));
        adjacent
    }

    /// Tips the die onto the square `(tx, ty)`, if the face that this takes
    /// is a new one and fewer than six faces are known. The die then stands
    /// there with the square's score, the face and the square are noted, and
    /// `true` is returned. Otherwise nothing changes and `false` is returned.
    pub fn move_to(&mut self, tx: usize, ty: usize) -> (moved: bool)
        requires
            ty < old(self).grid@.len(),
            tx < old(self).grid@[ty as int]@.len(),
            old(self).squares_visited@.len() <= i32::MAX,
            i32::MIN < old(self).grid@[ty as int]@[tx as int] - old(self).score <= i32::MAX,
        ensures
            moved == (!old(self).known_faces@.contains(
                face_needed(
                    old(self).grid@[ty as int]@[tx as int] as int,
                    old(self).score as int,
                    old(self).squares_visited@.len() as int,
                ) as i32,
            ) && old(self).known_faces@.len() != 6),
            !moved ==> *final(self) == *old(self),
            moved ==> final(self).grid == old(self).grid && final(self).x == tx && final(self).y == ty
                && final(self).face == old(self).face && final(self).score == old(self).grid@[ty as int]@[tx as int]
                && final(self).known_faces@ == old(self).known_faces@.push(
                face_needed(
                    old(self).grid@[ty as int]@[tx as int] as int,
                    old(self).score as int,
                    old(self).squares_visited@.len() as int,
                ) as i32,
            ) && final(self).squares_visited@ == old(self).squares_visited@.push((tx, ty)),
    {
        let target = self.grid[ty][tx];
        let new_face_helper = target - self.score;
        let moves = self.squares_visited.len();
        let new_face = if moves == 0 {
            new_face_helper
        } else {
            tip(new_face_helper, moves as i32)
        };
        if has_face(&self.known_faces, new_face) {
            return false;
        }
        if self.known_faces.len() == 6 {
            return false;
        }
        self.known_faces.push(new_face);
        self.x = tx;
        self.y = ty;
        self.squares_visited.push((tx, ty));
        self.score = target;
        true
    }
}

/// `diff` divided by `moves`, rounded towards zero.
pub fn tip(diff: i32, moves: i32) -> (face: i32)
    requires
        moves > 0,
        diff > i32::MIN,
    ensures
        face == face_needed(diff as int, 0, moves as int),
{
    if diff >= 0 {
        diff / moves
    } else {
        -((-diff) / moves)
    }
}

/// Whether `face` is among `faces`.
pub fn has_face(faces: &Vec<i32>, face: i32) -> (found: bool)
    ensures
        found == faces@.contains(face),
{
    let mut i: usize = 0;
    while i < faces.len()
        invariant
            i <= faces.len(),
            forall|k: int| 0 <= k < i ==> faces@[k] != face,
        decreases faces.len() - i,
    {
        if faces[i] == face {
            return true;
        }
        i += 1;
    }
    false
}

/// What a die holds, as mathematical values.
pub struct DieView {
    pub grid: Seq<Seq<i32>>,
    pub x: usize,
    pub y: usize,
    pub face: i32,
    pub score: i32,
    pub known_faces: Seq<i32>,
    pub squares_visited: Seq<(usize, usize)>,
}

impl View for Die {
    type V = DieView;

    open spec fn view(&self) -> DieView {
        DieView {
            grid: Seq::new(self.grid@.len(), |i: int| self.grid@[i]@),
            x: self.x,
            y: self.y,
            face: self.face,
            score: self.score,
            known_faces: self.known_faces@,
            squares_visited: self.squares_visited@,
        }
    }
}

impl DieView {
    /// The die stands in the corner opposite to the start.
    pub open spec fn at_goal(self) -> bool {
        self.x == self.grid.len() - 1 && self.y == self.grid[0].len() - 1
    }

    /// The face that a tip onto `(tx, ty)` takes.
    pub open spec fn face_for(self, tx: usize, ty: usize) -> i32 {
        face_needed(
            self.grid[ty as int][tx as int] as int,
            self.score as int,
            self.squares_visited.len() as int,
        ) as i32
    }

    /// The die after a tip onto `(tx, ty)`.
    pub open spec fn tipped(self, tx: usize, ty: usize) -> DieView {
        DieView {
            x: tx,
            y: ty,
            score: self.grid[ty as int][tx as int],
            known_faces: self.known_faces.push(self.face_for(tx, ty)),
            squares_visited: self.squares_visited.push((tx, ty)),
            ..self
        }
    }

    /// The search tips the die onto `(tx, ty)`: the square is new to the
    /// die, its score is not one of the known faces, the face that the tip
    /// takes is new, and fewer than six faces are known.
    pub open spec fn may_tip(self, tx: usize, ty: usize) -> bool {
        &&& !self.squares_visited.contains((tx, ty))
        &&& !self.known_faces.contains(self.grid[ty as int][tx as int])
        &&& !self.known_faces.contains(self.face_for(tx, ty))
        &&& self.known_faces.len() != 6
    }

    /// One tip of the search leads from this die to `next`.
    pub open spec fn steps_to(self, next: DieView) -> bool {
        exists|k: int|
            0 <= k < self.around().len() && self.may_tip((#[trigger] self.around()[k]).0, self.around()[k].1)
                && next == self.tipped(self.around()[k].0, self.around()[k].1)
    }

    /// The squares next to the die.
    pub open spec fn around(self) -> Seq<(usize, usize)> {
        neighbours(self.x, self.y, self.grid.len() as int, self.grid[0].len() as int)
    }

    /// Some number of tips of the search leads from this die to `goal`.
    pub open spec fn reaches(self, goal: DieView) -> bool {
        exists|way: Seq<DieView>| is_way(way, self, goal)
    }

    /// The grid is square, the die stands on it, no more than six faces are
    /// known, and every tip can be computed: no two scores of the grid, nor
    /// the die's score and one of the grid, lie further apart than an `i32`
    /// holds, and the moves ahead can be counted in one.
    pub open spec fn fit(self) -> bool {
        &&& self.grid.len() > 0
        &&& forall|i: int| 0 <= i < self.grid.len() ==> (#[trigger] self.grid[i]).len() == self.grid.len()
        &&& self.x < self.grid.len()
        &&& self.y < self.grid.len()
        &&& self.known_faces.len() <= 6
        &&& self.squares_visited.len() + 6 - self.known_faces.len() <= i32::MAX
        &&& forall|i: int, j: int|
            0 <= i < self.grid.len() && 0 <= j < self.grid.len() ==> i32::MIN < (#[trigger] self.grid[i][j])
                - self.score <= i32::MAX
        &&& forall|i: int, j: int, k: int, l: int|
            0 <= i < self.grid.len() && 0 <= j < self.grid.len() && 0 <= k < self.grid.len() && 0 <= l
                < self.grid.len() ==> i32::MIN < (#[trigger] self.grid[i][j]) - (#[trigger] self.grid[k][l])
                <= i32::MAX
    }
}

/// One tip of the search leads from the `i`-th die of `way` to the next.
pub open spec fn tip_at(way: Seq<DieView>, i: int) -> bool {
    way[i].steps_to(way[i + 1])
}

/// `way` lists the dice of a search from `from` to `goal`, tip by tip.
pub open spec fn is_way(way: Seq<DieView>, from: DieView, goal: DieView) -> bool {
    &&& way.len() > 0
    &&& way[0] == from
    &&& way[way.len() - 1] == goal
    &&& forall|i: int| 0 <= i < way.len() - 1 ==> #[trigger] tip_at(way, i)
}

/// Every die reaches itself, without a tip.
pub proof fn lemma_reaches_self(a: DieView)
    ensures
        a.reaches(a),
{
    assert(is_way(seq![a], a, a));
}

/// A way goes on by one tip.
pub proof fn lemma_reaches_more(a: DieView, b: DieView, c: DieView)
    requires
        a.reaches(b),
        b.steps_to(c),
    ensures
        a.reaches(c),
{
    let way = choose|way: Seq<DieView>| is_way(way, a, b);
    let longer = way.push(c);
    assert forall|i: int| 0 <= i < longer.len() - 1 implies #[trigger] tip_at(longer, i) by {
        if i < way.len() - 1 {
            assert(tip_at(way, i));
        }
    }
    assert(is_way(longer, a, c));
}

/// Whoever is reached from a die other than itself is reached from one of
/// the dice that it steps to.
pub proof fn lemma_reaches_through(a: DieView, g: DieView) -> (next: DieView)
    requires
        a.reaches(g),
        a != g,
    ensures
        a.steps_to(next),
        next.reaches(g),
{
    let way = choose|way: Seq<DieView>| is_way(way, a, g);
    let rest = way.skip(1);
    assert(tip_at(way, 0));
    assert forall|i: int| 0 <= i < rest.len() - 1 implies #[trigger] tip_at(rest, i) by {
        assert(tip_at(way, i + 1));
    }
    assert(is_way(rest, way[1], g));
    way[1]
}

/// The weight of a die in the search: it outweighs the four dice that it
/// can step to taken together.
pub open spec fn weight(v: DieView) -> nat {
    vstd::arithmetic::power::pow(5, (6 - v.known_faces.len()) as nat) as nat
}

/// The weights of the dice, added up.
pub open spec fn load(q: Seq<Die>) -> nat
    decreases q.len(),
{
    if q.len() == 0 {
        0
    } else {
        load(q.drop_last()) + weight(q.last()@)
    }
}

/// The load of a queue is that of its first die and that of the rest.
pub proof fn lemma_load_without_first(q: Seq<Die>)
    requires
        q.len() > 0,
    ensures
        load(q) == load(q.drop_first()) + weight(q.first()@),
    decreases q.len(),
{
    if q.len() == 1 {
        assert(q.drop_first() =~= q.drop_last());
        assert(load(q.drop_last()) == 0);
    } else {
        lemma_load_without_first(q.drop_last());
        assert(q.drop_first().drop_last() =~= q.drop_last().drop_first());
        assert(q.drop_first().last() == q.last());
        assert(q.drop_last().first() == q.first());
    }
}

/// A die that has stepped weighs a fifth of what it weighed.
pub proof fn lemma_weight_steps(a: DieView, c: DieView)
    requires
        a.known_faces.len() < 6,
        c.known_faces.len() == a.known_faces.len() + 1,
    ensures
        5 * weight(c) == weight(a),
        weight(c) >= 1,
{
    let e = (6 - c.known_faces.len()) as nat;
    vstd::arithmetic::power::lemma_pow_positive(5, e);
    reveal(vstd::arithmetic::power::pow);
    assert(vstd::arithmetic::power::pow(5, e + 1) == 5 * vstd::arithmetic::power::pow(5, e));
}

/// A copy of a die.
pub fn copy_die(die: &Die) -> (copy: Die)
    ensures
        copy@ == die@,
{
    let mut grid: Vec<Vec<i32>> = Vec::new();
    let mut i: usize = 0;
    while i < die.grid.len()
        invariant
            i <= die.grid@.len(),
            grid@.len() == i,
            forall|k: int| 0 <= k < i ==> (#[trigger] grid@[k])@ == die.grid@[k]@,
        decreases die.grid@.len() - i,
    {
        let mut row: Vec<i32> = Vec::new();
        let mut j: usize = 0;
        while j < die.grid[i].len()
            invariant
                i < die.grid@.len(),
                j <= die.grid@[i as int]@.len(),
                row@ == die.grid@[i as int]@.take(j as int),
            decreases die.grid@[i as int]@.len() - j,
        {
            row.push(die.grid[i][j]);
            assert(row@ =~= die.grid@[i as int]@.take(j + 1));
            j += 1;
        }
        assert(row@ =~= die.grid@[i as int]@);
        grid.push(row);
        i += 1;
    }
    let mut known_faces: Vec<i32> = Vec::new();
    let mut k: usize = 0;
    while k < die.known_faces.len()
        invariant
            k <= die.known_faces@.len(),
            known_faces@ == die.known_faces@.take(k as int),
        decreases die.known_faces@.len() - k,
    {
        known_faces.push(die.known_faces[k]);
        assert(known_faces@ =~= die.known_faces@.take(k + 1));
        k += 1;
    }
    assert(known_faces@ =~= die.known_faces@);
    let mut squares_visited: Vec<(usize, usize)> = Vec::new();
    k = 0;
    while k < die.squares_visited.len()
        invariant
            k <= die.squares_visited@.len(),
            squares_visited@ == die.squares_visited@.take(k as int),
        decreases die.squares_visited@.len() - k,
    {
        squares_visited.push(die.squares_visited[k]);
        assert(squares_visited@ =~= die.squares_visited@.take(k + 1));
        k += 1;
    }
    assert(squares_visited@ =~= die.squares_visited@);
    let copy = Die {
        grid,
        x: die.x,
        y: die.y,
        face: die.face,
        score: die.score,
        known_faces,
        squares_visited,
    };
    assert(copy@.grid =~= die@.grid);
    copy
}

/// Whether `(x, y)` is among `squares`.
pub fn has_square(squares: &Vec<(usize, usize)>, x: usize, y: usize) -> (found: bool)
    ensures
        found == squares@.contains((x, y)),
{
    let mut i: usize = 0;
    while i < squares.len()
        invariant
            i <= squares.len(),
            forall|k: int| 0 <= k < i ==> squares@[k] != (x, y),
        decreases squares.len() - i,
    {
        if squares[i].0 == x && squares[i].1 == y {
            return true;
        }
        i += 1;
    }
    false
}

/// The dice that one tip of the search leads to from `die`, in the order
/// of the squares around it.
pub fn tips(die: &Die) -> (next: Vec<Die>)
    requires
        die@.fit(),
    ensures
        next@.len() <= 4,
        forall|k: int| 0 <= k < next@.len() ==> die@.steps_to(#[trigger] next@[k]@) && next@[k]@.fit()
            && next@[k]@.known_faces.len() == die@.known_faces.len() + 1,
        forall|c: DieView| die@.steps_to(c) ==> exists|k: int| 0 <= k < next@.len() && #[trigger] next@[k]@ == c,
{
    let ghost v = die@;
    assert(v.grid[0] == die.grid@[0]@);
    assert(v.grid[0].len() == v.grid.len());
    let around = die.adjacent();
    assert(around@ == v.around());
    let mut next: Vec<Die> = Vec::new();
    let mut i: usize = 0;
    while i < around.len()
        invariant
            i <= around@.len() <= 4,
            v == die@,
            v.fit(),
            around@ == v.around(),
            next@.len() <= i,
            forall|k: int| 0 <= k < next@.len() ==> v.steps_to(#[trigger] next@[k]@) && next@[k]@.fit()
                && next@[k]@.known_faces.len() == v.known_faces.len() + 1,
            forall|j: int|
                0 <= j < i && v.may_tip((#[trigger] around@[j]).0, around@[j].1) ==> exists|k: int|
                    0 <= k < next@.len() && #[trigger] next@[k]@ == v.tipped(around@[j].0, around@[j].1),
        decreases around@.len() - i,
    {
        let (x, y) = around[i];
        assert(x < v.grid.len() && y < v.grid.len()) by {
            assert(v.grid[0].len() == v.grid.len());
        }
        assert(die.grid@[y as int]@ == v.grid[y as int]);
        let ghost before = next@;
        let mut pushed = false;
        if !has_square(&die.squares_visited, x, y) {
            let target = die.grid[y][x];
            if !has_face(&die.known_faces, target) {
                let mut new_die = copy_die(die);
                assert(new_die.grid@[y as int]@ == new_die@.grid[y as int]);
                if new_die.move_to(x, y) {
                    proof {
                        assert(new_die@.grid =~= v.grid);
                        assert(new_die@ == v.tipped(x, y));
                        assert(v.steps_to(new_die@));
                        assert(new_die@.fit());
                    }
                    next.push(new_die);
                    pushed = true;
                }
            }
        }
        proof {
            assert(pushed == v.may_tip(x, y));
            assert forall|j: int|
                0 <= j < i + 1 && v.may_tip((#[trigger] around@[j]).0, around@[j].1) implies exists|k: int|
                0 <= k < next@.len() && #[trigger] next@[k]@ == v.tipped(around@[j].0, around@[j].1) by {
                if j < i {
                    let k = choose|k: int|
                        0 <= k < before.len() && #[trigger] before[k]@ == v.tipped(around@[j].0, around@[j].1);
                    assert(next@[k]@ == v.tipped(around@[j].0, around@[j].1));
                } else {
                    assert(next@[next@.len() - 1]@ == v.tipped(x, y));
                }
            }
        }
        i += 1;
    }
    proof {
        assert forall|c: DieView| v.steps_to(c) implies exists|k: int|
            0 <= k < next@.len() && #[trigger] next@[k]@ == c by {
            let j = choose|j: int|
                0 <= j < v.around().len() && v.may_tip((#[trigger] v.around()[j]).0, v.around()[j].1) && c
                    == v.tipped(v.around()[j].0, v.around()[j].1);
            assert(v.may_tip(around@[j].0, around@[j].1));
        }
    }
    next
}

/// Breadth-first search for a way to the goal: the first die found there,
/// with the squares it took and the faces that came up; `None` if no way
/// of tips leads to the goal.
pub fn bfs(die: Die) -> (found: Option<Die>)
    requires
        die@.fit(),
    ensures
        match found {
            Some(d) => d@.at_goal() && die@.reaches(d@),
            None => forall|g: DieView| die@.reaches(g) ==> !g.at_goal(),
        },
{
    let ghost start = die@;
    let mut queue: Vec<Die> = Vec::new();
    queue.push(die);
    proof {
        lemma_reaches_self(start);
        assert forall|g: DieView| start.reaches(g) && g.at_goal() implies exists|k: int|
            0 <= k < queue@.len() && (#[trigger] queue@[k])@.reaches(g) by {
            assert(queue@[0]@.reaches(g));
        }
    }
    while queue.len() > 0
        invariant
            start == die@,
            forall|k: int| 0 <= k < queue@.len() ==> (#[trigger] queue@[k])@.fit() && start.reaches(queue@[k]@),
            forall|g: DieView|
                start.reaches(g) && g.at_goal() ==> exists|k: int|
                    0 <= k < queue@.len() && (#[trigger] queue@[k])@.reaches(g),
        decreases load(queue@),
    {
        let ghost before = queue@;
        let current = queue.remove(0);
        let ghost v = current@;
        let ghost rest = queue@;
        proof {
            assert(rest =~= before.drop_first());
            lemma_load_without_first(before);
            assert(before[0] == current);
            assert(v.fit() && start.reaches(v));
            assert(v.grid[0] == current.grid@[0]@);
            assert(v.grid[0].len() == v.grid.len());
        }
        if current.is_at_goal() {
            return Some(current);
        }
        let mut next = tips(&current);
        let ghost added = next@;
        proof {
            lemma_load_of_tips(v, added);
        }
        queue.append(&mut next);
        proof {
            assert(queue@ =~= rest + added);
            lemma_load_concat(rest, added);
            assert forall|k: int| 0 <= k < queue@.len() implies (#[trigger] queue@[k])@.fit() && start.reaches(
                queue@[k]@,
            ) by {
                if k < rest.len() {
                    assert(before[k + 1] == queue@[k]);
                } else {
                    let c = added[k - rest.len()];
                    lemma_reaches_more(start, v, c@);
                }
            }
            assert forall|g: DieView| start.reaches(g) && g.at_goal() implies exists|k: int|
                0 <= k < queue@.len() && (#[trigger] queue@[k])@.reaches(g) by {
                let k = choose|k: int| 0 <= k < before.len() && (#[trigger] before[k])@.reaches(g);
                if k == 0 {
                    let c = lemma_reaches_through(v, g);
                    let j = choose|j: int| 0 <= j < added.len() && #[trigger] added[j]@ == c;
                    assert(queue@[rest.len() + j]@.reaches(g));
                } else {
                    assert(queue@[k - 1]@.reaches(g));
                }
            }
        }
    }
    assert forall|g: DieView| start.reaches(g) implies !g.at_goal() by {
        if g.at_goal() {
            let k = choose|k: int| 0 <= k < queue@.len() && (#[trigger] queue@[k])@.reaches(g);
        }
    }
    None
}

/// The load of two queues in a row is the load of both.
pub proof fn lemma_load_concat(a: Seq<Die>, b: Seq<Die>)
    ensures
        load(a + b) == load(a) + load(b),
    decreases b.len(),
{
    if b.len() == 0 {
        assert(a + b =~= a);
    } else {
        assert((a + b).drop_last() =~= a + b.drop_last());
        lemma_load_concat(a, b.drop_last());
    }
}

/// Dice of one weight weigh as much as one of them, times their number.
pub proof fn lemma_load_uniform(next: Seq<Die>, unit: nat)
    requires
        forall|k: int| 0 <= k < next.len() ==> weight((#[trigger] next[k])@) == unit,
    ensures
        load(next) == next.len() * unit,
    decreases next.len(),
{
    if next.len() > 0 {
        lemma_load_uniform(next.drop_last(), unit);
        assert((next.len() - 1) * unit + unit == next.len() * unit) by (nonlinear_arith);
    }
}

/// The dice that a die steps to weigh less than the die, taken together.
pub proof fn lemma_load_of_tips(v: DieView, next: Seq<Die>)
    requires
        next.len() <= 4,
        v.known_faces.len() <= 6,
        forall|k: int| 0 <= k < next.len() ==> (#[trigger] next[k])@.known_faces.len() == v.known_faces.len()
            + 1 && next[k]@.known_faces.len() <= 6,
    ensures
        load(next) < weight(v),
{
    vstd::arithmetic::power::lemma_pow_positive(5, (6 - v.known_faces.len()) as nat);
    if next.len() == 0 {
        assert(load(next) == 0);
    } else {
        let unit = weight(next[0]@);
        lemma_weight_steps(v, next[0]@);
        assert forall|k: int| 0 <= k < next.len() implies weight((#[trigger] next[k])@) == unit by {
            lemma_weight_steps(v, next[k]@);
        }
        lemma_load_uniform(next, unit);
        assert(next.len() * unit <= 4 * unit) by (nonlinear_arith)
            requires
                next.len() <= 4,
                unit >= 0,
        ;
    }
}

} // verus!
