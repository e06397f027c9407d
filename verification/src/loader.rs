//! Graphs read from text: one line per edge, or one line per node with the
//! targets of its edges.

use crate::graph::{lemma_with_node_well_formed, well_formed};
use crate::graph::{with_edge, with_node, Graph, GraphView};
use vstd::prelude::*;
use vstd::string::StringSliceAdditionalSpecFns;

verus! {

/// A line of the text did not consist of node numbers, or of too few.
#[derive(Debug, PartialEq, Eq, Clone, Copy, Structural)]
pub struct MalformedInputError {
    /// The line, counted from zero.
    pub line: usize,
}

/// What the lines of a text mean.
#[derive(Debug, PartialEq, Eq, Clone, Copy, Structural)]
pub enum Shape {
    /// Each line names an edge: its source, then its target. What follows
    /// on the line must be numbers too, and is not used.
    Pairs,
    /// Each line names a node, then the targets of its edges.
    Lists,
}

/// Space, tab, line feed, vertical tab, form feed and carriage return.
pub open spec fn is_blank(b: u8) -> bool {
    b == 32 || 9 <= b <= 13
}

/// The byte is a decimal digit.
pub open spec fn is_digit(b: u8) -> bool {
    48 <= b <= 57
}

/// A word begins at `i`: a byte that is not blank, at the start of the line
/// or after a blank.
pub open spec fn word_starts(s: Seq<u8>, i: int) -> bool {
    0 <= i < s.len() && !is_blank(s[i]) && (i == 0 || is_blank(s[i - 1]))
}

/// Where the word that covers `i` ends: the next blank, or the end.
pub open spec fn word_end(s: Seq<u8>, i: int) -> int
    decreases s.len() - i,
{
    if i < 0 || i >= s.len() || is_blank(s[i]) {
        i
    } else {
        word_end(s, i + 1)
    }
}

/// The words of `s` from `i` on.
pub open spec fn words(s: Seq<u8>, i: int) -> Seq<Seq<u8>>
    decreases s.len() - i,
{
    if i < 0 || i >= s.len() {
        Seq::empty()
    } else if word_starts(s, i) {
        seq![s.subrange(i, word_end(s, i))] + words(s, i + 1)
    } else {
        words(s, i + 1)
    }
}

/// Every byte is a decimal digit.
pub open spec fn all_digits(s: Seq<u8>) -> bool {
    forall|i: int| 0 <= i < s.len() ==> is_digit(#[trigger] s[i])
}

/// The number that decimal digits stand for.
pub open spec fn digits_value(s: Seq<u8>) -> nat
    decreases s.len(),
{
    if s.len() == 0 {
        0
    } else {
        (digits_value(s.drop_last()) * 10 + (s.last() - 48)) as nat
    }
}

/// The digits of a word: the word without a leading plus sign.
pub open spec fn digits_of(word: Seq<u8>) -> Seq<u8> {
    if word.len() > 0 && word[0] == 43 {
        word.skip(1)
    } else {
        word
    }
}

/// The node number that a word stands for: decimal digits, at least one,
/// after at most one plus sign, of a value that a `usize` holds.
pub open spec fn number(word: Seq<u8>) -> Option<usize> {
    let digits = digits_of(word);
    if digits.len() > 0 && all_digits(digits) && digits_value(digits) <= usize::MAX {
        Some(digits_value(digits) as usize)
    } else {
        None
    }
}

/// The numbers that the words stand for, if each of them stands for one.
pub open spec fn numbers(words: Seq<Seq<u8>>) -> Option<Seq<usize>> {
    if forall|k: int| 0 <= k < words.len() ==> (#[trigger] number(words[k])) is Some {
        Some(Seq::new(words.len(), |k: int| number(words[k])->0))
    } else {
        None
    }
}

/// `g` with an edge from `from` to each of the first `n` of `targets`.
pub open spec fn with_edges_to(g: GraphView<usize>, from: usize, targets: Seq<usize>, n: nat) -> GraphView<
    usize,
>
    decreases n,
{
    if n == 0 {
        g
    } else {
        with_edge(with_edges_to(g, from, targets, (n - 1) as nat), from, targets[n - 1])
    }
}

/// `g` after a line of the given numbers, if they are enough for the shape.
pub open spec fn with_line(g: GraphView<usize>, shape: Shape, nums: Seq<usize>) -> Option<
    GraphView<usize>,
> {
    match shape {
        Shape::Pairs => if nums.len() >= 2 {
            Some(with_edge(g, nums[0], nums[1]))
        } else {
            None
        },
        Shape::Lists => if nums.len() >= 1 {
            Some(
                with_edges_to(with_node(g, nums[0]), nums[0], nums.skip(1), (nums.len() - 1) as nat),
            )
        } else {
            None
        },
    }
}

/// A line begins at `i`: at the start of the text or after a line feed.
pub open spec fn line_starts(s: Seq<u8>, i: int) -> bool {
    0 <= i < s.len() && (i == 0 || s[i - 1] == 10)
}

/// Where the line that covers `i` ends: the next line feed, or the end.
pub open spec fn line_end(s: Seq<u8>, i: int) -> int
    decreases s.len() - i,
{
    if i < 0 || i >= s.len() || s[i] == 10 {
        i
    } else {
        line_end(s, i + 1)
    }
}

/// `g` after the line that begins at `i`, if the line is well formed.
pub open spec fn after_line(g: GraphView<usize>, shape: Shape, s: Seq<u8>, i: int) -> Option<
    GraphView<usize>,
> {
    match numbers(words(s.subrange(i, line_end(s, i)), 0)) {
        Some(nums) => with_line(g, shape, nums),
        None => None,
    }
}

/// The graph after the lines of `s` from `i` on, the first of which is line
/// `line`, and the line at which reading stopped, if one was malformed.
pub open spec fn loaded(g: GraphView<usize>, shape: Shape, s: Seq<u8>, i: int, line: nat) -> (
    GraphView<usize>,
    Option<nat>,
)
    decreases s.len() - i,
{
    if i < 0 || i >= s.len() {
        (g, None)
    } else if line_starts(s, i) {
        match after_line(g, shape, s, i) {
            Some(next) => loaded(next, shape, s, i + 1, line + 1),
            None => (g, Some(line)),
        }
    } else {
        loaded(g, shape, s, i + 1, line)
    }
}

/// A word ends at the first blank after its start, or at the end.
pub proof fn lemma_word_end(s: Seq<u8>, i: int)
    requires
        0 <= i <= s.len(),
    ensures
        i <= word_end(s, i) <= s.len(),
        forall|k: int| i <= k < word_end(s, i) ==> !is_blank(#[trigger] s[k]),
        word_end(s, i) < s.len() ==> is_blank(s[word_end(s, i)]),
    decreases s.len() - i,
{
    if i < s.len() && !is_blank(s[i]) {
        lemma_word_end(s, i + 1);
    }
}

/// Inside a word, and in a run of blanks, no word begins.
pub proof fn lemma_words_skip(s: Seq<u8>, i: int, j: int)
    requires
        0 <= i <= j <= s.len(),
        forall|k: int| i <= k < j ==> !word_starts(s, k),
    ensures
        words(s, i) == words(s, j),
    decreases j - i,
{
    if i < j {
        lemma_words_skip(s, i + 1, j);
    }
}

/// A line ends at the first line feed after its start, or at the end.
pub proof fn lemma_line_end(s: Seq<u8>, i: int)
    requires
        0 <= i <= s.len(),
    ensures
        i <= line_end(s, i) <= s.len(),
        forall|k: int| i <= k < line_end(s, i) ==> #[trigger] s[k] != 10,
        line_end(s, i) < s.len() ==> s[line_end(s, i)] == 10,
    decreases s.len() - i,
{
    if i < s.len() && s[i] != 10 {
        lemma_line_end(s, i + 1);
    }
}

/// Inside a line no line begins.
pub proof fn lemma_loaded_skip(g: GraphView<usize>, shape: Shape, s: Seq<u8>, i: int, j: int, line: nat)
    requires
        0 <= i <= j <= s.len(),
        forall|k: int| i <= k < j ==> !line_starts(s, k),
    ensures
        loaded(g, shape, s, i, line) == loaded(g, shape, s, j, line),
    decreases j - i,
{
    if i < j {
        lemma_loaded_skip(g, shape, s, i + 1, j, line);
    }
}

/// Digits read so far only grow in value as more digits follow.
pub proof fn lemma_digits_grow(s: Seq<u8>, k: int)
    requires
        all_digits(s),
        0 <= k <= s.len(),
    ensures
        digits_value(s.take(k)) <= digits_value(s),
    decreases s.len() - k,
{
    if k < s.len() {
        let longer = s.take(k + 1);
        assert(longer.drop_last() =~= s.take(k));
        assert(is_digit(s[k]));
        assert(longer.last() == s[k]);
        lemma_digits_grow(s, k + 1);
    } else {
        assert(s.take(k) =~= s);
    }
}

/// The node number that the bytes from `from` to `to` stand for.
pub fn parse_number(bytes: &[u8], from: usize, to: usize) -> (n: Option<usize>)
    requires
        from <= to <= bytes@.len(),
    ensures
        n == number(bytes@.subrange(from as int, to as int)),
{
    let ghost word = bytes@.subrange(from as int, to as int);
    let mut i = from;
    if i < to && bytes[i] == 43 {
        i += 1;
    }
    let ghost digits = digits_of(word);
    assert(digits =~= bytes@.subrange(i as int, to as int));
    if i == to {
        return None;
    }
    let first = i;
    let mut value: usize = 0;
    while i < to
        invariant
            first <= i <= to <= bytes@.len(),
            from <= first,
            digits == bytes@.subrange(first as int, to as int),
            digits == digits_of(bytes@.subrange(from as int, to as int)),
            all_digits(digits.take(i - first)),
            value == digits_value(digits.take(i - first)),
        decreases to - i,
    {
        let b = bytes[i];
        if b < 48 || b > 57 {
            assert(!is_digit(digits[i - first]));
            return None;
        }
        let d = (b - 48) as usize;
        let ghost longer = digits.take(i - first + 1);
        proof {
            assert(longer.drop_last() =~= digits.take(i - first));
            assert(longer.last() == b);
            assert forall|k: int| 0 <= k < longer.len() implies is_digit(#[trigger] longer[k]) by {
                if k < i - first {
                    assert(digits.take(i - first)[k] == longer[k]);
                }
            }
        }
        if value > (usize::MAX - d) / 10 {
            proof {
                assert(digits_value(longer) > usize::MAX);
                if all_digits(digits) {
                    lemma_digits_grow(digits, i - first + 1);
                }
            }
            return None;
        }
        value = value * 10 + d;
        i += 1;
    }
    assert(digits.take(to - first) =~= digits);
    Some(value)
}

/// The node numbers on the line from `from` to `to`, if every word of the
/// line stands for one.
pub fn parse_line(bytes: &[u8], from: usize, to: usize) -> (nums: Option<Vec<usize>>)
    requires
        from <= to <= bytes@.len(),
    ensures
        match nums {
            Some(v) => numbers(words(bytes@.subrange(from as int, to as int), 0)) == Some(v@),
            None => numbers(words(bytes@.subrange(from as int, to as int), 0)) is None,
        },
{
    let ghost line = bytes@.subrange(from as int, to as int);
    let mut nums: Vec<usize> = Vec::new();
    let ghost mut done: Seq<Seq<u8>> = Seq::empty();
    let mut i = from;
    loop
        invariant
            from <= i <= to <= bytes@.len(),
            line == bytes@.subrange(from as int, to as int),
            words(line, 0) == done + words(line, i - from),
            i < to && !is_blank(line[i - from]) ==> i == from || is_blank(line[i - from - 1]),
            nums@.len() == done.len(),
            forall|k: int| 0 <= k < done.len() ==> number(#[trigger] done[k]) == Some(nums@[k]),
        decreases to - i,
    {
        if i >= to {
            proof {
                assert(words(line, 0) =~= done);
                assert(nums@ =~= Seq::new(done.len(), |k: int| number(done[k])->0));
            }
            return Some(nums);
        }
        if is_blank_byte(bytes[i]) {
            i += 1;
        } else {
            let start = i;
            while i < to && !is_blank_byte(bytes[i])
                invariant
                    start <= i <= to <= bytes@.len(),
                    from <= start,
                    line == bytes@.subrange(from as int, to as int),
                    word_end(line, i - from) == word_end(line, start - from),
                    forall|k: int| start <= k < i ==> !is_blank(#[trigger] line[k - from]),
                decreases to - i,
            {
                i += 1;
            }
            let ghost word = line.subrange(start - from, i - from);
            proof {
                assert(word_starts(line, start - from));
                assert(word_end(line, i - from) == i - from);
                assert(word =~= bytes@.subrange(start as int, i as int));
                assert forall|k: int| start - from + 1 <= k < i - from implies !word_starts(line, k) by {
                    assert(!is_blank(line[(k - 1 + from) - from]));
                }
                lemma_words_skip(line, start - from + 1, i - from);
                assert(done + (seq![word] + words(line, i - from)) =~= done.push(word) + words(
                    line,
                    i - from,
                ));
            }
            match parse_number(bytes, start, i) {
                Some(n) => {
                    nums.push(n);
                    proof {
                        done = done.push(word);
                    }
                },
                None => {
                    proof {
                        let all = words(line, 0);
                        assert(all[done.len() as int] == word);
                        assert(number(all[done.len() as int]) is None);
                    }
                    return None;
                },
            }
        }
    }
}

/// Whether the byte is blank.
pub fn is_blank_byte(b: u8) -> (blank: bool)
    ensures
        blank == is_blank(b),
{
    b == 32 || (9 <= b && b <= 13)
}

impl Graph<usize> {
    /// Adds what the line of numbers `nums` means, if they are enough for
    /// the shape; says whether they were.
    pub fn add_line(&mut self, shape: Shape, nums: &Vec<usize>) -> (added: bool)
        ensures
            match with_line(old(self)@, shape, nums@) {
                Some(g) => added && final(self)@ == g,
                None => !added && final(self)@ == old(self)@,
            },
            old(self).wf() ==> final(self).wf(),
    {
        match shape {
            Shape::Pairs => {
                if nums.len() < 2 {
                    return false;
                }
                self.add_edge(nums[0], nums[1]);
                true
            },
            Shape::Lists => {
                if nums.len() < 1 {
                    return false;
                }
                let source = nums[0];
                self.add_node(&source);
                proof {
                    if old(self).wf() {
                        lemma_with_node_well_formed(old(self)@, source);
                    }
                }
                let ghost base = self@;
                let ghost targets = nums@.skip(1);
                let mut k: usize = 1;
                while k < nums.len()
                    invariant
                        1 <= k <= nums.len(),
                        targets == nums@.skip(1),
                        source == nums@[0],
                        self@ == with_edges_to(base, source, targets, (k - 1) as nat),
                        well_formed(base) ==> self.wf(),
                    decreases nums.len() - k,
                {
                    self.add_edge(source, nums[k]);
                    k += 1;
                }
                true
            },
        }
    }

    /// Reads the lines of `text` into the graph, each as `shape` says.
    /// Node numbers are decimal, separated by blanks; nodes are created as
    /// they are named. Reading stops at the first line that is malformed:
    /// the graph then holds what the lines before it gave, and the error
    /// names the line.
    pub fn load(&mut self, text: &str, shape: Shape) -> (done: Result<(), MalformedInputError>)
        ensures
            final(self)@ == loaded(old(self)@, shape, text.spec_bytes(), 0, 0).0,
            match done {
                Ok(_) => loaded(old(self)@, shape, text.spec_bytes(), 0, 0).1 is None,
                Err(e) => loaded(old(self)@, shape, text.spec_bytes(), 0, 0).1 == Some(e.line as nat),
            },
            old(self).wf() ==> final(self).wf(),
    {
        let bytes = text.as_bytes();
        let ghost s = bytes@;
        let mut i: usize = 0;
        let mut line: usize = 0;
        while i < bytes.len()
            invariant
                i <= bytes@.len(),
                s == bytes@,
                s == text.spec_bytes(),
                line <= i,
                i < s.len() ==> i == 0 || s[i - 1] == 10,
                loaded(old(self)@, shape, s, 0, 0) == loaded(self@, shape, s, i as int, line as nat),
                old(self).wf() ==> self.wf(),
            decreases bytes@.len() - i,
        {
            let start = i;
            while i < bytes.len() && bytes[i] != 10
                invariant
                    start <= i <= bytes@.len(),
                    s == bytes@,
                    line_end(s, i as int) == line_end(s, start as int),
                    forall|k: int| start <= k < i ==> #[trigger] s[k] != 10,
                decreases bytes@.len() - i,
            {
                i += 1;
            }
            proof {
                assert(line_starts(s, start as int));
                assert(line_end(s, i as int) == i);
            }
            let ghost before = self@;
            let added = match parse_line(bytes, start, i) {
                Some(nums) => self.add_line(shape, &nums),
                None => false,
            };
            if !added {
                return Err(MalformedInputError { line });
            }
            proof {
                let next = if i < s.len() {
                    i + 1
                } else {
                    i as int
                };
                assert forall|k: int| start + 1 <= k < next implies !line_starts(s, k) by {
                    assert(s[k - 1] != 10);
                }
                lemma_loaded_skip(self@, shape, s, start + 1, next, (line + 1) as nat);
            }
            if i < bytes.len() {
                i += 1;
            }
            line += 1;
        }
        Ok(())
    }

    /// Reads a text of edges, one to a line: the number of the source, then
    /// the number of the target.
    pub fn load_from_edge_list(&mut self, text: &str) -> (done: Result<(), MalformedInputError>)
        ensures
            final(self)@ == loaded(old(self)@, Shape::Pairs, text.spec_bytes(), 0, 0).0,
            match done {
                Ok(_) => loaded(old(self)@, Shape::Pairs, text.spec_bytes(), 0, 0).1 is None,
                Err(e) => loaded(old(self)@, Shape::Pairs, text.spec_bytes(), 0, 0).1 == Some(
                    e.line as nat,
                ),
            },
            old(self).wf() ==> final(self).wf(),
    {
        self.load(text, Shape::Pairs)
    }

    /// Reads a text of adjacency lists, one node to a line: the number of
    /// the node, then the numbers of the targets of its edges.
    pub fn load_from_adjacency_lists(&mut self, text: &str) -> (done: Result<
        (),
        MalformedInputError,
    >)
        ensures
            final(self)@ == loaded(old(self)@, Shape::Lists, text.spec_bytes(), 0, 0).0,
            match done {
                Ok(_) => loaded(old(self)@, Shape::Lists, text.spec_bytes(), 0, 0).1 is None,
                Err(e) => loaded(old(self)@, Shape::Lists, text.spec_bytes(), 0, 0).1 == Some(
                    e.line as nat,
                ),
            },
            old(self).wf() ==> final(self).wf(),
    {
        self.load(text, Shape::Lists)
    }
}

} // verus!
