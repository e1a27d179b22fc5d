//! Rucksacks split into two compartments; the item type shared by both
//! compartments determines a priority score.

use vstd::prelude::*;
use crate::text::spec_lines;

verus! {

#[derive(Debug, PartialEq, Eq, Clone, Copy)]
pub enum RucksackError {
    NotAlphabetic,
}

/// Priority of an item: `'a'..='z'` map to 1..=26, `'A'..='Z'` to 27..=52,
/// anything else has none.
pub open spec fn spec_item_priority(c: char) -> Option<u32> {
    if 'a' as u32 <= c as u32 && c as u32 <= 'z' as u32 {
        Some((c as u32 - 'a' as u32 + 1) as u32)
    } else if 'A' as u32 <= c as u32 && c as u32 <= 'Z' as u32 {
        Some((c as u32 - 'A' as u32 + 27) as u32)
    } else {
        None
    }
}

pub fn item_priority(item: char) -> (r: Result<u32, RucksackError>)
    ensures
        r == match spec_item_priority(item) {
            Some(p) => Ok::<u32, RucksackError>(p),
            None => Err(RucksackError::NotAlphabetic),
        },
{
    let v: u32 = item as u32;
    if 97 <= v && v <= 122 {
        Ok(v - 97 + 1)
    } else if 65 <= v && v <= 90 {
        Ok(v - 65 + 27)
    } else {
        Err(RucksackError::NotAlphabetic)
    }
}

/// The distinct characters of `s`, kept in order of first occurrence.
pub open spec fn dedup_first(s: Seq<char>) -> Seq<char>
    decreases s.len(),
{
    if s.len() == 0 {
        Seq::empty()
    } else {
        let p = dedup_first(s.drop_last());
        if p.contains(s.last()) {
            p
        } else {
            p.push(s.last())
        }
    }
}

/// The elements of `a` that also occur in `b`, in the order of `a`.
pub open spec fn seq_shared(a: Seq<char>, b: Seq<char>) -> Seq<char>
    decreases a.len(),
{
    if a.len() == 0 {
        Seq::empty()
    } else {
        let p = seq_shared(a.drop_last(), b);
        if b.contains(a.last()) {
            p.push(a.last())
        } else {
            p
        }
    }
}

pub(crate) fn vec_contains_char(v: &Vec<char>, c: char) -> (r: bool)
    ensures
        r == v@.contains(c),
{
    let mut i: usize = 0;
    while i < v.len()
        invariant
            0 <= i <= v@.len(),
            forall|j: int| 0 <= j < i ==> v@[j] != c,
        decreases v@.len() - i,
    {
        if v[i] == c {
            return true;
        }
        i = i + 1;
    }
    false
}

/// The distinct characters of `s@` between positions `from` and `to`.
pub(crate) fn dedup_chars(s: &str, from: usize, to: usize) -> (r: Vec<char>)
    requires
        from <= to <= s@.len(),
    ensures
        r@ == dedup_first(s@.subrange(from as int, to as int)),
{
    let mut r: Vec<char> = Vec::new();
    let mut i: usize = from;
    while i < to
        invariant
            from <= i <= to <= s@.len(),
            r@ == dedup_first(s@.subrange(from as int, i as int)),
        decreases to - i,
    {
        let c: char = s.get_char(i);
        proof {
            assert(s@.subrange(from as int, i as int + 1).drop_last() =~= s@.subrange(
                from as int,
                i as int,
            ));
        }
        if !vec_contains_char(&r, c) {
            r.push(c);
        }
        i = i + 1;
    }
    r
}

/// The characters of `a` that also occur in `b`, in `a`'s order.
pub(crate) fn shared_vec(a: &Vec<char>, b: &Vec<char>) -> (r: Vec<char>)
    ensures
        r@ == seq_shared(a@, b@),
{
    let mut r: Vec<char> = Vec::new();
    let mut i: usize = 0;
    while i < a.len()
        invariant
            0 <= i <= a@.len(),
            r@ == seq_shared(a@.take(i as int), b@),
        decreases a@.len() - i,
    {
        proof {
            assert(a@.take(i as int + 1).drop_last() =~= a@.take(i as int));
        }
        if vec_contains_char(b, a[i]) {
            r.push(a[i]);
        }
        i = i + 1;
    }
    proof {
        assert(a@.take(a@.len() as int) =~= a@);
    }
    r
}

/// A rucksack with its compartments' item types, each compartment holding
/// every item type once.
#[derive(Debug, PartialEq, Eq)]
pub struct Rucksack {
    pub compartments: Vec<Vec<char>>,
}

impl Rucksack {
    /// First half of a line fills the first compartment, second half the
    /// second; each compartment keeps the distinct item types in order of
    /// first occurrence.
    pub fn parse(input: &str) -> (r: Self)
        requires
            input@.len() % 2 == 0,
        ensures
            r.compartments@.len() == 2,
            r.compartments@[0]@ == dedup_first(input@.take(input@.len() as int / 2)),
            r.compartments@[1]@ == dedup_first(input@.skip(input@.len() as int / 2)),
    {
        let n: usize = input.unicode_len();
        let half: usize = n / 2;
        let a: Vec<char> = dedup_chars(input, 0, half);
        let b: Vec<char> = dedup_chars(input, half, n);
        proof {
            assert(input@.subrange(0, n as int / 2) =~= input@.take(input@.len() as int / 2));
            assert(input@.subrange(n as int / 2, n as int) =~= input@.skip(
                input@.len() as int / 2,
            ));
        }
        let mut compartments: Vec<Vec<char>> = Vec::new();
        compartments.push(a);
        compartments.push(b);
        Rucksack { compartments }
    }

    /// The item types occurring in both compartments, in the first
    /// compartment's order.
    pub fn shared_items(&self) -> (r: Vec<char>)
        requires
            self.compartments@.len() == 2,
        ensures
            r@ == seq_shared(self.compartments@[0]@, self.compartments@[1]@),
    {
        shared_vec(&self.compartments[0], &self.compartments[1])
    }

    /// The priority of the single item type the two compartments share.
    pub fn shared_item_priority(&self) -> (r: Result<u32, RucksackError>)
        requires
            self.compartments@.len() == 2,
            seq_shared(self.compartments@[0]@, self.compartments@[1]@).len() == 1,
        ensures
            r == match spec_item_priority(
                seq_shared(self.compartments@[0]@, self.compartments@[1]@)[0],
            ) {
                Some(p) => Ok::<u32, RucksackError>(p),
                None => Err(RucksackError::NotAlphabetic),
            },
    {
        let items: Vec<char> = self.shared_items();
        item_priority(items[0])
    }
}

/// The priority a line contributes: the shared item type of the two halves
/// of the line.
pub open spec fn line_priority(line: Seq<char>) -> Option<u32> {
    let shared = seq_shared(
        dedup_first(line.take(line.len() as int / 2)),
        dedup_first(line.skip(line.len() as int / 2)),
    );
    spec_item_priority(shared[0])
}

/// A line the solution accepts: an even number of characters, and exactly
/// one item type shared between its halves.
pub open spec fn line_ok(line: Seq<char>) -> bool {
    &&& line.len() % 2 == 0
    &&& seq_shared(
        dedup_first(line.take(line.len() as int / 2)),
        dedup_first(line.skip(line.len() as int / 2)),
    ).len() == 1
}

/// Sum of the line priorities, or `None` if some line's shared item has no
/// priority.
pub open spec fn spec_priority_sum(lines: Seq<Seq<char>>) -> Option<int>
    decreases lines.len(),
{
    if lines.len() == 0 {
        Some(0)
    } else {
        match (spec_priority_sum(lines.drop_last()), line_priority(lines.last())) {
            (Some(t), Some(p)) => Some(t + p as int),
            _ => None,
        }
    }
}

proof fn lemma_priority_sum_none(lines: Seq<Seq<char>>, k: int)
    requires
        0 <= k < lines.len(),
        line_priority(lines[k]) is None,
    ensures
        spec_priority_sum(lines) is None,
    decreases lines.len(),
{
    if k == lines.len() - 1 {
    } else {
        lemma_priority_sum_none(lines.drop_last(), k);
    }
}

/// Sum of the shared-item priorities of every line.
pub fn part1(input: &str) -> (r: Result<u32, RucksackError>)
    requires
        forall|k: int| 0 <= k < spec_lines(input@).len() ==> line_ok(#[trigger] spec_lines(input@)[k]),
        forall|k: int|
            0 <= k <= spec_lines(input@).len() ==> (spec_priority_sum(
                #[trigger] spec_lines(input@).take(k),
            ) matches Some(t) ==> t <= u32::MAX),
    ensures
        r == match spec_priority_sum(spec_lines(input@)) {
            Some(t) => Ok::<u32, RucksackError>(t as u32),
            None => Err(RucksackError::NotAlphabetic),
        },
{
    let lines: Vec<String> = crate::text::split_lines(input);
    let ghost gl = spec_lines(input@);
    let mut total: u32 = 0;
    let mut i: usize = 0;
    while i < lines.len()
        invariant
            lines.deep_view() == gl,
            gl == spec_lines(input@),
            0 <= i <= gl.len(),
            forall|k: int| 0 <= k < gl.len() ==> line_ok(#[trigger] gl[k]),
            forall|k: int|
                0 <= k <= gl.len() ==> (spec_priority_sum(#[trigger] gl.take(k)) matches Some(t)
                    ==> t <= u32::MAX),
            spec_priority_sum(gl.take(i as int)) == Some(total as int),
        decreases lines@.len() - i,
    {
        let ghost line_v = gl[i as int];
        proof {
            assert(lines@[i as int]@ == line_v);
            assert(gl.take(i as int + 1).drop_last() =~= gl.take(i as int));
        }
        let sack: Rucksack = Rucksack::parse(lines[i].as_str());
        let p: u32 = match sack.shared_item_priority() {
            Ok(p) => p,
            Err(e) => {
                proof {
                    lemma_priority_sum_none(gl, i as int);
                }
                return Err(e);
            },
        };
        proof {
            assert(spec_priority_sum(gl.take(i as int + 1)) == Some(total + p as int));
            assert(gl.take(i as int + 1) == spec_lines(input@).take(i as int + 1));
        }
        total = total + p;
        i = i + 1;
    }
    proof {
        assert(gl.take(gl.len() as int) =~= gl);
    }
    Ok(total)
}

} // verus!
