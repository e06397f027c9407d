//! Shadows cast by rocks on a text canvas: each line of the picture throws a
//! deep shadow one step down and right and a light shadow two steps down
//! and right; where layers overlap, the stronger cell wins.

use crate::text::string_push;
use vstd::prelude::*;
use vstd::string::StringExecFns;

verus! {

/// One cell of the canvas, weakest first.
#[derive(Debug, PartialEq, Eq, PartialOrd, Ord, Clone, Copy, Structural)]
pub enum Cell {
    Empty,
    LightShadow,
    DeepShadow,
    Rock,
}

/// How strong a cell is: the stronger of two cells covers the other.
pub open spec fn rank(c: Cell) -> int {
    match c {
        Cell::Empty => 0,
        Cell::LightShadow => 1,
        Cell::DeepShadow => 2,
        Cell::Rock => 3,
    }
}

/// The stronger of two cells.
pub open spec fn stronger(a: Cell, b: Cell) -> Cell {
    if rank(a) >= rank(b) {
        a
    } else {
        b
    }
}

/// The characters that stand for a cell.
pub open spec fn is_cell_char(c: char) -> bool {
    c == '#' || c == '-' || c == '`' || c == ' '
}

/// The cell that a character stands for.
pub open spec fn cell_of(c: char) -> Cell {
    if c == '#' {
        Cell::Rock
    } else if c == '-' {
        Cell::DeepShadow
    } else if c == '`' {
        Cell::LightShadow
    } else {
        Cell::Empty
    }
}

/// The character that stands for a cell.
pub open spec fn char_of(c: Cell) -> char {
    match c {
        Cell::Rock => '#',
        Cell::DeepShadow => '-',
        Cell::LightShadow => '`',
        Cell::Empty => ' ',
    }
}

/// Reading a cell's character gives the cell back, and the other way round.
pub proof fn lemma_cell_chars(cell: Cell, c: char)
    ensures
        is_cell_char(char_of(cell)),
        cell_of(char_of(cell)) == cell,
        is_cell_char(c) ==> char_of(cell_of(c)) == c,
{
}

/// Two rows laid over each other: the stronger cell where both have one,
/// the only cell where one row is longer.
pub open spec fn merged_row(a: Seq<Cell>, b: Seq<Cell>) -> Seq<Cell> {
    Seq::new(
        if a.len() >= b.len() {
            a.len()
        } else {
            b.len()
        },
        |i: int|
            if i < a.len() && i < b.len() {
                stronger(a[i], b[i])
            } else if i < a.len() {
                a[i]
            } else {
                b[i]
            },
    )
}

/// The rows of a world.
pub open spec fn rows(w: Seq<Vec<Cell>>) -> Seq<Seq<Cell>> {
    Seq::new(w.len(), |i: int| w[i]@)
}

/// A taller world with a shorter one laid over its last rows.
pub open spec fn merged_world(tall: Seq<Seq<Cell>>, short: Seq<Seq<Cell>>) -> Seq<Seq<Cell>> {
    Seq::new(
        tall.len(),
        |i: int|
            if i < tall.len() - short.len() {
                tall[i]
            } else {
                merged_row(tall[i], short[i - (tall.len() - short.len())])
            },
    )
}

/// The shadow in a row below a line: `lead` empty cells, then `shade` under
/// every rock and an empty cell under anything else.
pub open spec fn shadow_row(line: Seq<Cell>, lead: nat, shade: Cell) -> Seq<Cell> {
    Seq::new(
        lead + line.len(),
        |i: int|
            if i >= lead && line[i - lead] == Cell::Rock {
                shade
            } else {
                Cell::Empty
            },
    )
}

/// A line with the two rows of shadow that it casts.
pub open spec fn shadow_of(line: Seq<Cell>) -> Seq<Seq<Cell>> {
    seq![line, shadow_row(line, 1, Cell::DeepShadow), shadow_row(line, 2, Cell::LightShadow)]
}

/// The characters of the rows, with a line feed between two rows.
pub open spec fn rendered(w: Seq<Seq<Cell>>) -> Seq<char>
    decreases w.len(),
{
    if w.len() == 0 {
        Seq::empty()
    } else if w.len() == 1 {
        w[0].map_values(|c: Cell| char_of(c))
    } else {
        rendered(w.drop_last()) + seq!['\n'] + w.last().map_values(|c: Cell| char_of(c))
    }
}

/// The cell that a character stands for.
pub fn char_to_cell(c: char) -> (cell: Cell)
    requires
        is_cell_char(c),
    ensures
        cell == cell_of(c),
{
    if c == '#' {
        Cell::Rock
    } else if c == '-' {
        Cell::DeepShadow
    } else if c == '`' {
        Cell::LightShadow
    } else {
        Cell::Empty
    }
}

/// The character that stands for a cell.
pub fn cell_to_char(c: Cell) -> (ch: char)
    ensures
        ch == char_of(c),
{
    match c {
        Cell::Rock => '#',
        Cell::DeepShadow => '-',
        Cell::LightShadow => '`',
        Cell::Empty => ' ',
    }
}

/// The stronger of two cells.
pub fn max_cell(a: Cell, b: Cell) -> (c: Cell)
    ensures
        c == stronger(a, b),
{
    let ra: u8 = match a {
        Cell::Empty => 0,
        Cell::LightShadow => 1,
        Cell::DeepShadow => 2,
        Cell::Rock => 3,
    };
    let rb: u8 = match b {
        Cell::Empty => 0,
        Cell::LightShadow => 1,
        Cell::DeepShadow => 2,
        Cell::Rock => 3,
    };
    if ra >= rb {
        a
    } else {
        b
    }
}

/// Lays `cells1` over `cells0`.
pub fn merge_cells(cells0: &mut Vec<Cell>, cells1: &Vec<Cell>)
    ensures
        final(cells0)@ == merged_row(old(cells0)@, cells1@),
{
    let c0l = cells0.len();
    let c1l = cells1.len();
    let mut i: usize = 0;
    while i < c1l
        invariant
            i <= c1l == cells1.len(),
            c0l == old(cells0).len(),
            cells0.len() == (if i <= c0l {
                c0l
            } else {
                i
            }),
            forall|k: int|
                0 <= k < cells0.len() ==> #[trigger] cells0@[k] == (if k < i && k < c0l {
                    stronger(old(cells0)@[k], cells1@[k])
                } else if k < c0l {
                    old(cells0)@[k]
                } else {
                    cells1@[k]
                }),
        decreases c1l - i,
    {
        if c0l > i {
            let m = max_cell(cells0[i], cells1[i]);
            cells0[i] = m;
        } else {
            cells0.push(cells1[i]);
        }
        i += 1;
    }
    assert(cells0@ =~= merged_row(old(cells0)@, cells1@));
}

/// Lays the shorter world `w1` over the last rows of `w0`.
pub fn merge_larger_world_with_smaller_world(w0: &mut Vec<Vec<Cell>>, w1: &Vec<Vec<Cell>>)
    requires
        old(w0).len() >= w1.len(),
    ensures
        rows(final(w0)@) == merged_world(rows(old(w0)@), rows(w1@)),
{
    let skip = w0.len() - w1.len();
    let mut i: usize = 0;
    while i < w1.len()
        invariant
            i <= w1.len(),
            w0.len() == old(w0).len(),
            skip == w0.len() - w1.len(),
            forall|k: int|
                0 <= k < w0.len() ==> (#[trigger] w0@[k])@ == (if skip <= k < skip + i {
                    merged_row(old(w0)@[k]@, w1@[k - skip]@)
                } else {
                    old(w0)@[k]@
                }),
        decreases w1.len() - i,
    {
        let ghost before = w0@;
        let mut row = Vec::new();
        std::mem::swap(&mut row, &mut w0[skip + i]);
        merge_cells(&mut row, &w1[i]);
        w0[skip + i] = row;
        i += 1;
    }
    assert(rows(w0@) =~= merged_world(rows(old(w0)@), rows(w1@)));
}

/// A copy of a world.
pub fn copy_world(w: &Vec<Vec<Cell>>) -> (copy: Vec<Vec<Cell>>)
    ensures
        rows(copy@) == rows(w@),
{
    let mut copy: Vec<Vec<Cell>> = Vec::new();
    let mut i: usize = 0;
    while i < w.len()
        invariant
            i <= w.len(),
            copy.len() == i,
            forall|k: int| 0 <= k < i ==> (#[trigger] copy@[k])@ == w@[k]@,
        decreases w.len() - i,
    {
        let mut row: Vec<Cell> = Vec::new();
        let mut j: usize = 0;
        while j < w[i].len()
            invariant
                i < w.len(),
                j <= w@[i as int].len(),
                row@ == w@[i as int]@.take(j as int),
            decreases w@[i as int].len() - j,
        {
            row.push(w[i][j]);
            assert(row@ =~= w@[i as int]@.take(j + 1));
            j += 1;
        }
        assert(row@ =~= w@[i as int]@);
        copy.push(row);
        i += 1;
    }
    assert(rows(copy@) =~= rows(w@));
    copy
}

/// Lays the shorter of two worlds over the last rows of the taller, in
/// place, and returns a copy of the result. Of two worlds of one height the
/// first is the one that is changed.
pub fn merge_worlds(w0: &mut Vec<Vec<Cell>>, w1: &mut Vec<Vec<Cell>>) -> (merged: Vec<Vec<Cell>>)
    ensures
        old(w0).len() >= old(w1).len() ==> rows(merged@) == merged_world(
            rows(old(w0)@),
            rows(old(w1)@),
        ) && rows(final(w0)@) == rows(merged@) && final(w1)@ == old(w1)@,
        old(w0).len() < old(w1).len() ==> rows(merged@) == merged_world(
            rows(old(w1)@),
            rows(old(w0)@),
        ) && rows(final(w1)@) == rows(merged@) && final(w0)@ == old(w0)@,
{
    if w0.len() >= w1.len() {
        merge_larger_world_with_smaller_world(w0, w1);
        copy_world(w0)
    } else {
        merge_larger_world_with_smaller_world(w1, w0);
        copy_world(w1)
    }
}

/// A line of the picture with the two rows of shadow that it casts: a deep
/// shadow one step down and right of each rock, a light one two steps down
/// and right.
pub fn mk_shadow(world_line: Vec<Cell>) -> (world: Vec<Vec<Cell>>)
    ensures
        rows(world@) == shadow_of(world_line@),
{
    let mut deep: Vec<Cell> = Vec::new();
    deep.push(Cell::Empty);
    let mut light: Vec<Cell> = Vec::new();
    light.push(Cell::Empty);
    light.push(Cell::Empty);
    let mut i: usize = 0;
    while i < world_line.len()
        invariant
            i <= world_line.len(),
            deep@ == shadow_row(world_line@.take(i as int), 1, Cell::DeepShadow),
            light@ == shadow_row(world_line@.take(i as int), 2, Cell::LightShadow),
        decreases world_line.len() - i,
    {
        match world_line[i] {
            Cell::Rock => {
                deep.push(Cell::DeepShadow);
                light.push(Cell::LightShadow);
            },
            _ => {
                deep.push(Cell::Empty);
                light.push(Cell::Empty);
            },
        }
        assert(deep@ =~= shadow_row(world_line@.take(i + 1), 1, Cell::DeepShadow));
        assert(light@ =~= shadow_row(world_line@.take(i + 1), 2, Cell::LightShadow));
        i += 1;
    }
    assert(world_line@.take(world_line.len() as int) =~= world_line@);
    let mut res: Vec<Vec<Cell>> = Vec::new();
    res.push(world_line);
    res.push(deep);
    res.push(light);
    assert(rows(res@) =~= shadow_of(world_line@));
    res
}

/// The picture as text: one line per row, a line feed between two lines.
pub fn render_world(w: Vec<Vec<Cell>>) -> (text: String)
    ensures
        text@ == rendered(rows(w@)),
{
    let mut text = String::new();
    let mut i: usize = 0;
    while i < w.len()
        invariant
            i <= w.len(),
            text@ == rendered(rows(w@).take(i as int)),
        decreases w.len() - i,
    {
        let ghost done = rows(w@).take(i as int);
        let ghost row = w@[i as int]@;
        if i > 0 {
            text.append("\n");
            proof {
                reveal_strlit("\n");
                assert("\n"@ =~= seq!['\n']);
            }
        }
        let ghost start = text@;
        let mut j: usize = 0;
        while j < w[i].len()
            invariant
                i < w.len(),
                j <= w@[i as int].len(),
                row == w@[i as int]@,
                text@ == start + row.take(j as int).map_values(|c: Cell| char_of(c)),
            decreases w@[i as int].len() - j,
        {
            let ch = cell_to_char(w[i][j]);
            string_push(&mut text, ch);
            assert(row.take(j + 1).map_values(|c: Cell| char_of(c)) =~= row.take(
                j as int,
            ).map_values(|c: Cell| char_of(c)).push(ch));
            assert(text@ =~= start + row.take(j + 1).map_values(|c: Cell| char_of(c)));
            j += 1;
        }
        proof {
            assert(row.take(row.len() as int) =~= row);
            let next = rows(w@).take(i + 1);
            assert(next.drop_last() =~= done);
            assert(next.last() == row);
            if i == 0 {
                assert(start =~= Seq::<char>::empty());
                assert(text@ =~= row.map_values(|c: Cell| char_of(c)));
            }
        }
        i += 1;
    }
    assert(rows(w@).take(w.len() as int) =~= rows(w@));
    text
}

/// The canvas after the first `n` lines of the picture: three empty rows
/// to begin with; each line lays itself and its shadow over the last three
/// rows, and a new empty row is added below.
pub open spec fn canvas(problem: Seq<Seq<Cell>>, n: nat) -> Seq<Seq<Cell>>
    decreases n,
{
    if n == 0 {
        seq![Seq::empty(), Seq::empty(), Seq::empty()]
    } else {
        merged_world(canvas(problem, (n - 1) as nat), shadow_of(problem[n - 1])).push(Seq::empty())
    }
}

/// The canvas has three rows more than lines were laid on it.
pub proof fn lemma_canvas_len(problem: Seq<Seq<Cell>>, n: nat)
    ensures
        canvas(problem, n).len() == n + 3,
    decreases n,
{
    if n > 0 {
        lemma_canvas_len(problem, (n - 1) as nat);
    }
}

/// The picture with all its shadows, one line below the other.
pub fn cast_shadows(problem: &Vec<Vec<Cell>>) -> (res: Vec<Vec<Cell>>)
    ensures
        rows(res@) == canvas(rows(problem@), problem@.len()),
{
    let mut res: Vec<Vec<Cell>> = Vec::new();
    res.push(Vec::new());
    res.push(Vec::new());
    res.push(Vec::new());
    assert(rows(res@) =~= canvas(rows(problem@), 0));
    let mut i: usize = 0;
    while i < problem.len()
        invariant
            i <= problem@.len(),
            rows(res@) == canvas(rows(problem@), i as nat),
        decreases problem@.len() - i,
    {
        let mut line: Vec<Cell> = Vec::new();
        let mut j: usize = 0;
        while j < problem[i].len()
            invariant
                i < problem@.len(),
                j <= problem@[i as int]@.len(),
                line@ == problem@[i as int]@.take(j as int),
            decreases problem@[i as int]@.len() - j,
        {
            line.push(problem[i][j]);
            assert(line@ =~= problem@[i as int]@.take(j + 1));
            j += 1;
        }
        assert(line@ =~= problem@[i as int]@);
        let mut shadow = mk_shadow(line);
        proof {
            lemma_canvas_len(rows(problem@), i as nat);
        }
        let ghost before = rows(res@);
        merge_worlds(&mut res, &mut shadow);
        res.push(Vec::new());
        assert(rows(res@) =~= merged_world(before, shadow_of(problem@[i as int]@)).push(Seq::empty()));
        i += 1;
    }
    res
}

} // verus!
