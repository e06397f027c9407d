//! Weighted graphs read from adjacency lists, with their nodes renumbered
//! from zero without gaps.

use crate::fx::{fx_contains_key, fx_get, fx_insert, fx_keys};
use crate::loader::{
    all_digits, digits_value, is_blank, is_blank_byte, is_digit, lemma_digits_grow, line_end,
    line_starts, number, parse_number, word_end, word_starts, words, lemma_words_skip, MalformedInputError,
};
use fxhash::FxHashMap;
use vstd::prelude::*;
use vstd::string::StringSliceAdditionalSpecFns;

verus! {

/// An edge to a node, with its weight.
pub type Arc = (usize, i32);

/// Where the part of a word that begins at `i` ends: the next comma, or the end.
pub open spec fn part_end(word: Seq<u8>, i: int) -> int
    decreases word.len() - i,
{
    if i < 0 || i >= word.len() || word[i] == 44 {
        i
    } else {
        part_end(word, i + 1)
    }
}

/// The weight that a part of a word stands for: decimal digits, at least
/// one, after at most one sign, of a value that an `i32` holds.
pub open spec fn weight_of(part: Seq<u8>) -> Option<i32> {
    let minus = part.len() > 0 && part[0] == 45;
    let digits = if part.len() > 0 && (part[0] == 43 || part[0] == 45) {
        part.skip(1)
    } else {
        part
    };
    if digits.len() > 0 && all_digits(digits) && (if minus {
        digits_value(digits) <= 0x8000_0000
    } else {
        digits_value(digits) <= 0x7fff_ffff
    }) {
        Some(
            (if minus {
                -(digits_value(digits) as int)
            } else {
                digits_value(digits) as int
            }) as i32,
        )
    } else {
        None
    }
}

/// The edge that a word stands for: the number of the target, counted from
/// one, a comma, and the weight; what follows a second comma is not used.
pub open spec fn arc_of(word: Seq<u8>) -> Option<Arc> {
    let c = part_end(word, 0);
    if c >= word.len() {
        None
    } else {
        match (number(word.take(c)), weight_of(word.subrange(c + 1, part_end(word, c + 1)))) {
            (Some(target), Some(weight)) => if target >= 1 {
                Some(((target - 1) as usize, weight))
            } else {
                None
            },
            _ => None,
        }
    }
}

/// The edges that the words stand for, if each of them stands for one.
pub open spec fn arcs_of(words: Seq<Seq<u8>>) -> Option<Seq<Arc>> {
    if forall|k: int| 0 <= k < words.len() ==> (#[trigger] arc_of(words[k])) is Some {
        Some(Seq::new(words.len(), |k: int| arc_of(words[k])->0))
    } else {
        None
    }
}

/// The node and the edges that a line stands for: the number of the node,
/// counted from one, then its edges.
pub open spec fn entry_of(line: Seq<u8>) -> Option<(usize, Seq<Arc>)> {
    let ws = words(line, 0);
    if ws.len() == 0 {
        None
    } else {
        match (number(ws[0]), arcs_of(ws.skip(1))) {
            (Some(node), Some(arcs)) => if node >= 1 {
                Some(((node - 1) as usize, arcs))
            } else {
                None
            },
            _ => None,
        }
    }
}

/// The entries that the lines of `s` from `i` on stand for, if every line
/// is well formed.
pub open spec fn entries_read(s: Seq<u8>, i: int) -> Option<Seq<(usize, Seq<Arc>)>>
    decreases s.len() - i,
{
    if i < 0 || i >= s.len() {
        Some(Seq::empty())
    } else if line_starts(s, i) {
        match (entry_of(s.subrange(i, line_end(s, i))), entries_read(s, i + 1)) {
            (Some(entry), Some(rest)) => Some(seq![entry] + rest),
            _ => None,
        }
    } else {
        entries_read(s, i + 1)
    }
}

/// Inside a line no line begins.
pub proof fn lemma_entries_skip(s: Seq<u8>, i: int, j: int)
    requires
        0 <= i <= j <= s.len(),
        forall|k: int| i <= k < j ==> !line_starts(s, k),
    ensures
        entries_read(s, i) == entries_read(s, j),
    decreases j - i,
{
    if i < j {
        lemma_entries_skip(s, i + 1, j);
    }
}

/// The weight that the bytes from `from` to `to` stand for.
pub fn parse_weight(bytes: &[u8], from: usize, to: usize) -> (w: Option<i32>)
    requires
        from <= to <= bytes@.len(),
    ensures
        w == weight_of(bytes@.subrange(from as int, to as int)),
{
    let ghost part = bytes@.subrange(from as int, to as int);
    let mut i = from;
    let mut minus = false;
    if i < to && (bytes[i] == 43 || bytes[i] == 45) {
        minus = bytes[i] == 45;
        i += 1;
    }
    let ghost digits = bytes@.subrange(i as int, to as int);
    assert(digits =~= if part.len() > 0 && (part[0] == 43 || part[0] == 45) {
        part.skip(1)
    } else {
        part
    });
    if i == to {
        return None;
    }
    let first = i;
    let limit: u32 = if minus {
        0x8000_0000
    } else {
        0x7fff_ffff
    };
    let mut value: u32 = 0;
    while i < to
        invariant
            from <= first <= i <= to <= bytes@.len(),
            part == bytes@.subrange(from as int, to as int),
            digits == bytes@.subrange(first as int, to as int),
            digits == (if part.len() > 0 && (part[0] == 43 || part[0] == 45) {
                part.skip(1)
            } else {
                part
            }),
            minus == (part.len() > 0 && part[0] == 45),
            limit == (if minus {
                0x8000_0000u32
            } else {
                0x7fff_ffffu32
            }),
            all_digits(digits.take(i - first)),
            value == digits_value(digits.take(i - first)),
            value <= limit,
        decreases to - i,
    {
        let b = bytes[i];
        if b < 48 || b > 57 {
            assert(!is_digit(digits[i - first]));
            return None;
        }
        let d = (b - 48) as u32;
        let ghost longer = digits.take(i - first + 1);
        proof {
            assert(longer.drop_last() =~= digits.take(i - first));
            assert(longer.last() == b);
            assert forall|k: int| 0 <= k < longer.len() implies is_digit(#[trigger] longer[k]) by {
                if k < i - first {
                    assert(digits.take(i - first)[k] == longer[k]);
                }
            }
        }
        if value > (limit - d) / 10 {
            proof {
                assert(digits_value(longer) > limit);
                if all_digits(digits) {
                    lemma_digits_grow(digits, i - first + 1);
                }
            }
            return None;
        }
        value = value * 10 + d;
        i += 1;
    }
    assert(digits.take(to - first) =~= digits);
    if minus {
        if value == 0x8000_0000 {
            Some(i32::MIN)
        } else {
            Some(-(value as i32))
        }
    } else {
        Some(value as i32)
    }
}

/// The edge that the bytes from `from` to `to` stand for.
pub fn parse_arc(bytes: &[u8], from: usize, to: usize) -> (arc: Option<Arc>)
    requires
        from <= to <= bytes@.len(),
    ensures
        arc == arc_of(bytes@.subrange(from as int, to as int)),
{
    let ghost word = bytes@.subrange(from as int, to as int);
    let mut c = from;
    while c < to && bytes[c] != 44
        invariant
            from <= c <= to <= bytes@.len(),
            word == bytes@.subrange(from as int, to as int),
            part_end(word, c - from) == part_end(word, 0),
        decreases to - c,
    {
        c += 1;
    }
    assert(part_end(word, c - from) == c - from);
    if c >= to {
        return None;
    }
    let mut e = c + 1;
    while e < to && bytes[e] != 44
        invariant
            c < e <= to <= bytes@.len(),
            from <= c,
            word == bytes@.subrange(from as int, to as int),
            part_end(word, e - from) == part_end(word, c + 1 - from),
        decreases to - e,
    {
        e += 1;
    }
    assert(part_end(word, e - from) == e - from);
    assert(word.take(c - from) =~= bytes@.subrange(from as int, c as int));
    assert(word.subrange(c + 1 - from, e - from) =~= bytes@.subrange(c + 1, e as int));
    let target = parse_number(bytes, from, c);
    let weight = parse_weight(bytes, c + 1, e);
    match (target, weight) {
        (Some(target), Some(weight)) => {
            if target >= 1 {
                Some((target - 1, weight))
            } else {
                None
            }
        },
        _ => None,
    }
}

/// The node and the edges that the line from `from` to `to` stands for.
pub fn parse_entry(bytes: &[u8], from: usize, to: usize) -> (entry: Option<(usize, Vec<Arc>)>)
    requires
        from <= to <= bytes@.len(),
    ensures
        match entry {
            Some((node, arcs)) => entry_of(bytes@.subrange(from as int, to as int)) == Some((node, arcs@)),
            None => entry_of(bytes@.subrange(from as int, to as int)) is None,
        },
{
    let ghost line = bytes@.subrange(from as int, to as int);
    let mut node: Option<usize> = None;
    let mut arcs: Vec<Arc> = Vec::new();
    let ghost mut done: Seq<Seq<u8>> = Seq::empty();
    let mut i = from;
    loop
        invariant
            from <= i <= to <= bytes@.len(),
            line == bytes@.subrange(from as int, to as int),
            words(line, 0) == done + words(line, i - from),
            i < to && !is_blank(line[i - from]) ==> i == from || is_blank(line[i - from - 1]),
            done.len() == 0 ==> node is None && arcs@.len() == 0,
            done.len() > 0 ==> node is Some && node->0 >= 1 && number(done[0]) == node && arcs@.len()
                == done.len() - 1,
            forall|k: int| 1 <= k < done.len() ==> arc_of(#[trigger] done[k]) == Some(arcs@[k - 1]),
        decreases to - i,
    {
        if i >= to {
            proof {
                assert(words(line, 0) =~= done);
                if done.len() > 0 {
                    let rest = done.skip(1);
                    assert forall|k: int| 0 <= k < rest.len() implies (#[trigger] arc_of(rest[k])) is Some by {
                        assert(rest[k] == done[k + 1]);
                    }
                    assert(arcs@ =~= Seq::new(rest.len(), |k: int| arc_of(rest[k])->0)) by {
                        assert forall|k: int| 0 <= k < rest.len() implies arcs@[k] == arc_of(rest[k])->0 by {
                            assert(rest[k] == done[k + 1]);
                        }
                    }
                }
            }
            return match node {
                Some(n) => Some((n - 1, arcs)),
                None => None,
            };
        }
        if is_blank_byte(bytes[i]) {
            i += 1;
        } else {
            let start = i;
            while i < to && !is_blank_byte(bytes[i])
                invariant
                    start <= i <= to <= bytes@.len(),
                    from <= start,
                    line == bytes@.subrange(from as int, to as int),
                    word_end(line, i - from) == word_end(line, start - from),
                    forall|k: int| start <= k < i ==> !is_blank(#[trigger] line[k - from]),
                decreases to - i,
            {
                i += 1;
            }
            let ghost word = line.subrange(start - from, i - from);
            proof {
                assert(word_starts(line, start - from));
                assert(word_end(line, i - from) == i - from);
                assert(word =~= bytes@.subrange(start as int, i as int));
                assert forall|k: int| start - from + 1 <= k < i - from implies !word_starts(line, k) by {
                    assert(!is_blank(line[(k - 1 + from) - from]));
                }
                lemma_words_skip(line, start - from + 1, i - from);
                assert(done + (seq![word] + words(line, i - from)) =~= done.push(word) + words(
                    line,
                    i - from,
                ));
            }
            let ghost all = words(line, 0);
            if node.is_none() {
                match parse_number(bytes, start, i) {
                    Some(n) => {
                        if n < 1 {
                            proof {
                                assert(all[0] == word);
                            }
                            return None;
                        }
                        node = Some(n);
                    },
                    None => {
                        proof {
                            assert(all[0] == word);
                        }
                        return None;
                    },
                }
            } else {
                match parse_arc(bytes, start, i) {
                    Some(arc) => {
                        arcs.push(arc);
                    },
                    None => {
                        proof {
                            assert(all[done.len() as int] == word);
                            assert(all.skip(1)[done.len() - 1] == word);
                            assert(arc_of(all.skip(1)[done.len() - 1]) is None);
                        }
                        return None;
                    },
                }
            }
            proof {
                done = done.push(word);
            }
        }
    }
}

/// The node and the edges of every line of `text`, in the order of the lines.
pub fn parse_entries(text: &str) -> (entries: Result<Vec<(usize, Vec<Arc>)>, MalformedInputError>)
    ensures
        match entries {
            Ok(v) => entries_read(text.spec_bytes(), 0) == Some(entry_views(v@)),
            Err(e) => entries_read(text.spec_bytes(), 0) is None,
        },
{
    let bytes = text.as_bytes();
    let ghost s = bytes@;
    let mut entries: Vec<(usize, Vec<Arc>)> = Vec::new();
    let mut i: usize = 0;
    let mut line: usize = 0;
    proof {
        assert(entry_views(entries@) =~= Seq::empty());
    }
    while i < bytes.len()
        invariant
            i <= bytes@.len(),
            s == bytes@,
            s == text.spec_bytes(),
            line <= i,
            i < s.len() ==> i == 0 || s[i - 1] == 10,
            match entries_read(s, i as int) {
                Some(rest) => entries_read(s, 0) == Some(entry_views(entries@) + rest),
                None => entries_read(s, 0) is None,
            },
        decreases bytes@.len() - i,
    {
        let start = i;
        while i < bytes.len() && bytes[i] != 10
            invariant
                start <= i <= bytes@.len(),
                s == bytes@,
                line_end(s, i as int) == line_end(s, start as int),
                forall|k: int| start <= k < i ==> #[trigger] s[k] != 10,
            decreases bytes@.len() - i,
        {
            i += 1;
        }
        let ghost next = if i < s.len() {
            i + 1
        } else {
            i as int
        };
        proof {
            assert(line_starts(s, start as int));
            assert(line_end(s, i as int) == i);
            assert forall|k: int| start + 1 <= k < next implies !line_starts(s, k) by {
                assert(s[k - 1] != 10);
            }
            lemma_entries_skip(s, start + 1, next);
        }
        match parse_entry(bytes, start, i) {
            Some(entry) => {
                let ghost before = entry_views(entries@);
                let ghost view = (entry.0, entry.1@);
                entries.push(entry);
                proof {
                    assert(entry_views(entries@) =~= before.push(view));
                    if entries_read(s, next) is Some {
                        let rest = entries_read(s, next)->0;
                        assert(before.push(view) + rest =~= before + (seq![view] + rest));
                    }
                }
            },
            None => {
                assert(entries_read(s, start as int) is None);
                return Err(MalformedInputError { line });
            },
        }
        if i < bytes.len() {
            i += 1;
        }
        line += 1;
    }
    proof {
        assert(entry_views(entries@) + Seq::empty() =~= entry_views(entries@));
    }
    Ok(entries)
}

/// What a list of entries holds.
pub open spec fn entry_views(entries: Seq<(usize, Vec<Arc>)>) -> Seq<(usize, Seq<Arc>)> {
    Seq::new(entries.len(), |k: int| (entries[k].0, entries[k].1@))
}

/// The edges of each node after the first `n` entries: a later entry for a
/// node takes the place of an earlier one.
pub open spec fn table(entries: Seq<(usize, Seq<Arc>)>, n: nat) -> Map<usize, Seq<Arc>>
    decreases n,
{
    if n == 0 {
        Map::empty()
    } else {
        table(entries, (n - 1) as nat).insert(entries[n - 1].0, entries[n - 1].1)
    }
}

/// Every element is greater than the one before.
pub open spec fn climbing(keys: Seq<usize>) -> bool {
    forall|i: int, j: int| 0 <= i < j < keys.len() ==> keys[i] < keys[j]
}

/// `i` is the place of `t` in `keys`.
pub open spec fn placed(keys: Seq<usize>, t: usize, i: int) -> bool {
    0 <= i < keys.len() && keys[i] == t
}

/// The new number of the node `t`: its place among the nodes that have an
/// entry, and `t` itself if it has none.
pub open spec fn new_label(keys: Seq<usize>, t: usize) -> usize {
    if exists|i: int| placed(keys, t, i) {
        (choose|i: int| placed(keys, t, i)) as usize
    } else {
        t
    }
}

/// The edges with new numbers for their targets.
pub open spec fn relabelled(arcs: Seq<Arc>, keys: Seq<usize>) -> Seq<Arc> {
    Seq::new(arcs.len(), |k: int| (new_label(keys, arcs[k].0), arcs[k].1))
}

/// The edge lists of a list of vectors.
pub open spec fn arc_rows(out: Seq<Vec<Arc>>) -> Seq<Seq<Arc>> {
    Seq::new(out.len(), |i: int| out[i]@)
}

/// `out` holds the edges of the nodes that have an entry, in the order of
/// their old numbers, each under its new number and with the new numbers
/// of its targets.
pub open spec fn renumbers(entries: Seq<(usize, Seq<Arc>)>, out: Seq<Seq<Arc>>) -> bool {
    exists|keys: Seq<usize>| #[trigger]
        climbing(keys) && keys.to_set() == table(entries, entries.len()).dom() && out.len() == keys.len()
            && forall|i: int|
            0 <= i < keys.len() ==> #[trigger] out[i] == relabelled(
                table(entries, entries.len())[keys[i]],
                keys,
            )
}

/// Puts `key` in its place among `keys`.
pub fn insert_climbing(keys: &mut Vec<usize>, key: usize)
    requires
        climbing(old(keys)@),
        !old(keys)@.contains(key),
    ensures
        climbing(final(keys)@),
        final(keys)@.to_set() == old(keys)@.to_set().insert(key),
        final(keys)@.len() == old(keys)@.len() + 1,
{
    let mut at: usize = 0;
    while at < keys.len() && keys[at] < key
        invariant
            at <= keys@.len(),
            keys@ == old(keys)@,
            forall|k: int| 0 <= k < at ==> keys@[k] < key,
        decreases keys@.len() - at,
    {
        at += 1;
    }
    keys.insert(at, key);
    proof {
        let s = old(keys)@;
        let t = keys@;
        assert forall|i: int, j: int| 0 <= i < j < t.len() implies t[i] < t[j] by {
            if j < at {
                assert(s[i] < s[j]);
            } else if j == at {
            } else if i < at {
                assert(s[i] < s[j - 1]);
            } else if i == at {
                assert(s.contains(s[at as int]));
                assert(s[at as int] <= s[j - 1]) by {
                    if at < j - 1 {
                        assert(s[at as int] < s[j - 1]);
                    }
                }
            } else {
                assert(s[i - 1] < s[j - 1]);
            }
        }
        assert(t.to_set() =~= s.to_set().insert(key)) by {
            assert forall|v: usize| t.to_set().contains(v) <==> s.to_set().insert(key).contains(v) by {
                if t.contains(v) {
                    let k = choose|k: int| 0 <= k < t.len() && t[k] == v;
                    if k < at {
                        assert(s[k] == v);
                    } else if k > at {
                        assert(s[k - 1] == v);
                    }
                }
                if s.contains(v) {
                    let k = choose|k: int| 0 <= k < s.len() && s[k] == v;
                    if k < at {
                        assert(t[k] == v);
                    } else {
                        assert(t[k + 1] == v);
                    }
                }
                if v == key {
                    assert(t[at as int] == v);
                }
            }
        }
    }
}

/// The edges of the nodes, renumbered from zero without gaps in the order
/// of their numbers, with the targets renumbered likewise.
pub fn renumber(entries: &Vec<(usize, Vec<Arc>)>) -> (out: Vec<Vec<Arc>>)
    ensures
        renumbers(entry_views(entries@), arc_rows(out@)),
{
    let ghost views = entry_views(entries@);
    // the table, by old number
    let mut by_node: FxHashMap<usize, Vec<Arc>> = FxHashMap::default();
    let mut n: usize = 0;
    proof {
        assert(lists(by_node@) =~= table(views, 0));
    }
    while n < entries.len()
        invariant
            n <= entries@.len(),
            views == entry_views(entries@),
            lists(by_node@) == table(views, n as nat),
        decreases entries@.len() - n,
    {
        let mut arcs: Vec<Arc> = Vec::new();
        let mut k: usize = 0;
        while k < entries[n].1.len()
            invariant
                n < entries@.len(),
                k <= entries@[n as int].1@.len(),
                arcs@ == entries@[n as int].1@.take(k as int),
            decreases entries@[n as int].1@.len() - k,
        {
            arcs.push(entries[n].1[k]);
            assert(arcs@ =~= entries@[n as int].1@.take(k + 1));
            k += 1;
        }
        assert(arcs@ =~= entries@[n as int].1@);
        let ghost before = by_node@;
        fx_insert(&mut by_node, entries[n].0, arcs);
        assert(lists(by_node@) =~= lists(before).insert(views[n as int].0, views[n as int].1));
        n += 1;
    }
    let ghost full = table(views, views.len());
    // the old numbers, climbing
    let found = fx_keys(&by_node);
    let mut keys: Vec<usize> = Vec::new();
    let mut i: usize = 0;
    assert(found@.take(0).to_set() =~= keys@.to_set());
    while i < found.len()
        invariant
            i <= found@.len(),
            found@.no_duplicates(),
            climbing(keys@),
            keys@.to_set() == found@.take(i as int).to_set(),
            keys@.len() == i,
        decreases found@.len() - i,
    {
        let key = found[i];
        proof {
            let seen = found@.take(i as int);
            if keys@.contains(key) {
                assert(seen.to_set().contains(key));
                let k = choose|k: int| 0 <= k < seen.len() && seen[k] == key;
                assert(found@[k] == found@[i as int]);
            }
            assert(found@.take(i + 1).to_set() =~= seen.to_set().insert(key)) by {
                let next = found@.take(i + 1);
                assert forall|v: usize| next.to_set().contains(v) <==> seen.to_set().insert(key).contains(
                    v,
                ) by {
                    if next.contains(v) {
                        let k = choose|k: int| 0 <= k < next.len() && next[k] == v;
                        if k < i {
                            assert(seen[k] == v);
                        }
                    }
                    if seen.contains(v) {
                        let k = choose|k: int| 0 <= k < seen.len() && seen[k] == v;
                        assert(next[k] == v);
                    }
                    if v == key {
                        assert(next[i as int] == v);
                    }
                }
            }
        }
        insert_climbing(&mut keys, key);
        i += 1;
    }
    proof {
        assert(found@.take(found@.len() as int) =~= found@);
        assert(keys@.to_set() =~= full.dom());
    }
    // the new number of each old one
    let mut rank: FxHashMap<usize, usize> = FxHashMap::default();
    i = 0;
    while i < keys.len()
        invariant
            i <= keys@.len(),
            climbing(keys@),
            forall|t: usize| #[trigger] rank@.contains_key(t) ==> placed(keys@, t, rank@[t] as int),
            forall|k: int| 0 <= k < i ==> rank@.contains_key(#[trigger] keys@[k]),
            forall|t: usize| #[trigger] rank@.contains_key(t) ==> rank@[t] < i,
        decreases keys@.len() - i,
    {
        fx_insert(&mut rank, keys[i], i);
        i += 1;
    }
    let mut out: Vec<Vec<Arc>> = Vec::new();
    i = 0;
    while i < keys.len()
        invariant
            i <= keys@.len(),
            climbing(keys@),
            keys@.to_set() == full.dom(),
            lists(by_node@) == full,
            forall|t: usize| #[trigger] rank@.contains_key(t) ==> placed(keys@, t, rank@[t] as int),
            forall|k: int| 0 <= k < keys@.len() ==> rank@.contains_key(#[trigger] keys@[k]),
            out@.len() == i,
            forall|k: int| 0 <= k < i ==> (#[trigger] out@[k])@ == relabelled(full[keys@[k]], keys@),
        decreases keys@.len() - i,
    {
        let key = keys[i];
        assert(keys@.to_set().contains(keys@[i as int]));
        assert(by_node@.contains_key(key));
        let arcs = fx_get(&by_node, &key).unwrap();
        assert(arcs@ == full[key]);
        let mut row: Vec<Arc> = Vec::new();
        let mut k: usize = 0;
        while k < arcs.len()
            invariant
                k <= arcs@.len(),
                climbing(keys@),
                forall|t: usize| #[trigger] rank@.contains_key(t) ==> placed(keys@, t, rank@[t] as int),
                forall|j: int| 0 <= j < keys@.len() ==> rank@.contains_key(#[trigger] keys@[j]),
                row@.len() == k,
                forall|j: int| 0 <= j < k ==> #[trigger] row@[j] == (new_label(keys@, arcs@[j].0), arcs@[j].1),
            decreases arcs@.len() - k,
        {
            let (target, weight) = arcs[k];
            let label = if fx_contains_key(&rank, &target) {
                *fx_get(&rank, &target).unwrap()
            } else {
                target
            };
            proof {
                if rank@.contains_key(target) {
                    let at = rank@[target] as int;
                    assert(placed(keys@, target, at));
                    let chosen = choose|j: int| placed(keys@, target, j);
                    if chosen < at {
                        assert(keys@[chosen] < keys@[at]);
                    } else if at < chosen {
                        assert(keys@[at] < keys@[chosen]);
                    }
                } else if exists|j: int| placed(keys@, target, j) {
                    let j = choose|j: int| placed(keys@, target, j);
                    assert(rank@.contains_key(keys@[j]));
                }
            }
            row.push((label, weight));
            k += 1;
        }
        assert(row@ =~= relabelled(full[key], keys@));
        out.push(row);
        i += 1;
    }
    proof {
        let rows = arc_rows(out@);
        assert(climbing(keys@) && keys@.to_set() == table(views, views.len()).dom() && rows.len()
            == keys@.len() && forall|j: int|
            0 <= j < keys@.len() ==> #[trigger] rows[j] == relabelled(
                table(views, views.len())[keys@[j]],
                keys@,
            ));
    }
    out
}

/// What a table of edge lists holds.
pub open spec fn lists(m: Map<usize, Vec<Arc>>) -> Map<usize, Seq<Arc>> {
    Map::new(|k: usize| m.contains_key(k), |k: usize| m[k]@)
}

/// Whether every target is the number of a node: whether the edge lists
/// can be laid out as a graph of as many nodes as there are lists.
pub fn targets_in_range(rows: &Vec<Vec<Arc>>) -> (ok: bool)
    ensures
        ok == forall|i: int, k: int|
            0 <= i < rows@.len() && 0 <= k < rows@[i]@.len() ==> (#[trigger] rows@[i]@[k]).0 < rows@.len(),
{
    let mut i: usize = 0;
    while i < rows.len()
        invariant
            i <= rows@.len(),
            forall|a: int, k: int|
                0 <= a < i && 0 <= k < rows@[a]@.len() ==> (#[trigger] rows@[a]@[k]).0 < rows@.len(),
        decreases rows@.len() - i,
    {
        let mut k: usize = 0;
        while k < rows[i].len()
            invariant
                i < rows@.len(),
                k <= rows@[i as int]@.len(),
                forall|j: int| 0 <= j < k ==> (#[trigger] rows@[i as int]@[j]).0 < rows@.len(),
            decreases rows@[i as int]@.len() - k,
        {
            if rows[i][k].0 >= rows.len() {
                return false;
            }
            k += 1;
        }
        i += 1;
    }
    true
}

} // verus!
