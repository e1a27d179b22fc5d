//! Camp cleanup: each line holds two section ranges; the questions count
//! the pairs where one range contains the other, and the pairs that
//! overlap at all.

use vstd::prelude::*;
use crate::text::{spec_decimal_u64, parse_decimal_u64, spec_lines, split_lines};
use std::str::FromStr;

verus! {

#[derive(Debug, PartialEq, Eq, Clone, Copy)]
pub enum CleanupError {
    /// A line does not hold two well-formed ranges.
    BadPair,
}

/// An inclusive range of section numbers.
#[derive(Debug, PartialEq, Eq, Structural, Clone, Copy)]
pub struct SectionRange {
    pub start: u32,
    pub end: u32,
}

/// A range is empty when its bounds have crossed.
pub open spec fn spec_range_is_empty(r: SectionRange) -> bool {
    r.start > r.end
}

/// Whether `a` contains the whole of `b` (both endpoints fall inside `a`).
pub open spec fn spec_contains_range(a: SectionRange, b: SectionRange) -> bool {
    a.start <= b.start <= a.end && a.start <= b.end <= a.end
}

/// The intersection range: the larger start with the smaller end.
pub open spec fn spec_overlap(a: SectionRange, b: SectionRange) -> SectionRange {
    SectionRange {
        start: if a.start >= b.start {
            a.start
        } else {
            b.start
        },
        end: if a.end <= b.end {
            a.end
        } else {
            b.end
        },
    }
}

/// How many sections the two ranges share.
pub open spec fn spec_amount_overlapping(a: SectionRange, b: SectionRange) -> int {
    let o = spec_overlap(a, b);
    if spec_range_is_empty(o) {
        0
    } else {
        o.end - o.start + 1
    }
}

impl SectionRange {
    /// The range shared with `other`.
    pub fn overlap(&self, other: &SectionRange) -> (r: SectionRange)
        ensures
            r == spec_overlap(*self, *other),
    {
        let start: u32 = if self.start >= other.start {
            self.start
        } else {
            other.start
        };
        let end: u32 = if self.end <= other.end {
            self.end
        } else {
            other.end
        };
        SectionRange { start, end }
    }

    /// Whether `other` lies entirely inside this range.
    pub fn contains_range(&self, other: &SectionRange) -> (r: bool)
        ensures
            r == spec_contains_range(*self, *other),
    {
        self.start <= other.start && other.start <= self.end && self.start <= other.end
            && other.end <= self.end
    }
}

/// A decimal token valued as an unsigned 32-bit integer.
pub open spec fn spec_decimal_u32(s: Seq<char>, i: int) -> Option<(int, u32)> {
    match spec_decimal_u64(s, i) {
        Some((j, v)) => if v <= u32::MAX {
            Some((j, v as u32))
        } else {
            None
        },
        None => None,
    }
}

fn parse_decimal_u32_at(s: &str, i: usize, n: usize) -> (r: Option<(usize, u32)>)
    requires
        i <= n,
        n == s@.len(),
    ensures
        match r {
            Some((j, v)) => spec_decimal_u32(s@, i as int) == Some((j as int, v)) && i < j <= n,
            None => spec_decimal_u32(s@, i as int) is None,
        },
{
    match parse_decimal_u64(s, i, n) {
        Some((j, v)) => if v <= 0xffff_ffff {
            Some((j, v as u32))
        } else {
            None
        },
        None => None,
    }
}

/// Parse a decimal number from the start of `input`, returning the
/// unparsed remainder.
pub fn decimal_value<'a>(input: &'a str) -> (r: Option<(&'a str, u32)>)
    ensures
        match r {
            Some((rest, v)) => {
                &&& spec_decimal_u32(input@, 0) matches Some((j, sv))
                &&& sv == v
                &&& rest@ == input@.skip(j)
            },
            None => spec_decimal_u32(input@, 0) is None,
        },
{
    let n: usize = input.unicode_len();
    match parse_decimal_u32_at(input, 0, n) {
        Some((j, v)) => {
            let rest: &str = input.substring_char(j, n);
            proof {
                assert(rest@ =~= input@.skip(spec_decimal_u32(input@, 0)->Some_0.0));
            }
            Some((rest, v))
        },
        None => None,
    }
}

/// A range token: a decimal start, a `-`, and a decimal end.
pub open spec fn spec_range(s: Seq<char>, i: int) -> Option<(int, SectionRange)> {
    match spec_decimal_u32(s, i) {
        Some((j, start)) => if j < s.len() && s[j] == '-' {
            match spec_decimal_u32(s, j + 1) {
                Some((k, end)) => Some((k, SectionRange { start, end })),
                None => None,
            }
        } else {
            None
        },
        None => None,
    }
}

fn parse_range_at(s: &str, i: usize, n: usize) -> (r: Option<(usize, SectionRange)>)
    requires
        i <= n,
        n == s@.len(),
    ensures
        match r {
            Some((j, v)) => spec_range(s@, i as int) == Some((j as int, v)) && i < j <= n,
            None => spec_range(s@, i as int) is None,
        },
{
    let (j, start): (usize, u32) = match parse_decimal_u32_at(s, i, n) {
        Some(r) => r,
        None => {
            return None;
        },
    };
    if j == n || s.get_char(j) != '-' {
        return None;
    }
    let (k, end): (usize, u32) = match parse_decimal_u32_at(s, j + 1, n) {
        Some(r) => r,
        None => {
            return None;
        },
    };
    Some((k, SectionRange { start, end }))
}

/// Parse a range from the start of `input`, returning the unparsed
/// remainder.
pub fn range_value<'a>(input: &'a str) -> (r: Option<(&'a str, SectionRange)>)
    ensures
        match r {
            Some((rest, v)) => {
                &&& spec_range(input@, 0) matches Some((j, sv))
                &&& sv == v
                &&& rest@ == input@.skip(j)
            },
            None => spec_range(input@, 0) is None,
        },
{
    let n: usize = input.unicode_len();
    match parse_range_at(input, 0, n) {
        Some((j, v)) => {
            let rest: &str = input.substring_char(j, n);
            proof {
                assert(rest@ =~= input@.skip(spec_range(input@, 0)->Some_0.0));
            }
            Some((rest, v))
        },
        None => None,
    }
}

/// A pair of ranges separated by a comma.
#[derive(Debug, PartialEq, Eq, Structural, Clone, Copy)]
pub struct Pair {
    pub a: SectionRange,
    pub b: SectionRange,
}

/// A pair token: two ranges separated by a comma.
pub open spec fn spec_pair(s: Seq<char>, i: int) -> Option<(int, Pair)> {
    match spec_range(s, i) {
        Some((j, a)) => if j < s.len() && s[j] == ',' {
            match spec_range(s, j + 1) {
                Some((k, b)) => Some((k, Pair { a, b })),
                None => None,
            }
        } else {
            None
        },
        None => None,
    }
}

impl Pair {
    /// Parse a pair from the start of `input`, returning the unparsed
    /// remainder.
    pub fn parse<'a>(input: &'a str) -> (r: Option<(&'a str, Pair)>)
        ensures
            match r {
                Some((rest, v)) => {
                    &&& spec_pair(input@, 0) matches Some((j, sv))
                    &&& sv == v
                    &&& rest@ == input@.skip(j)
                },
                None => spec_pair(input@, 0) is None,
            },
    {
        let n: usize = input.unicode_len();
        let (j, a): (usize, SectionRange) = match parse_range_at(input, 0, n) {
            Some(r) => r,
            None => {
                return None;
            },
        };
        if j == n || input.get_char(j) != ',' {
            return None;
        }
        let (k, b): (usize, SectionRange) = match parse_range_at(input, j + 1, n) {
            Some(r) => r,
            None => {
                return None;
            },
        };
        let rest: &str = input.substring_char(k, n);
        proof {
            assert(rest@ =~= input@.skip(spec_pair(input@, 0)->Some_0.0));
        }
        Some((rest, Pair { a, b }))
    }

    /// Whether one range of the pair contains the other.
    pub fn is_completely_overlapping(&self) -> (r: bool)
        ensures
            r == (spec_contains_range(self.a, self.b) || spec_contains_range(self.b, self.a)),
    {
        self.a.contains_range(&self.b) || self.b.contains_range(&self.a)
    }

    /// How many sections the two ranges share.
    pub fn amount_overlapping(&self) -> (r: u32)
        requires
            spec_amount_overlapping(self.a, self.b) <= u32::MAX,
        ensures
            r == spec_amount_overlapping(self.a, self.b),
    {
        let overlap: SectionRange = self.a.overlap(&self.b);
        if overlap.start > overlap.end {
            0
        } else {
            overlap.end - overlap.start + 1
        }
    }

    /// Whether the two ranges share any section.
    pub fn is_overlapping(&self) -> (r: bool)
        requires
            spec_amount_overlapping(self.a, self.b) <= u32::MAX,
        ensures
            r == (spec_amount_overlapping(self.a, self.b) > 0),
    {
        self.amount_overlapping() > 0
    }
}

impl FromStr for Pair {
    type Err = CleanupError;

    fn from_str(s: &str) -> Result<Pair, CleanupError> {
        match Pair::parse(s) {
            Some((_, pair)) => Ok(pair),
            None => Err(CleanupError::BadPair),
        }
    }
}

/// What a line denotes: the pair at its start; anything after the pair
/// on the same line is ignored.
pub open spec fn spec_line_pair(line: Seq<char>) -> Option<Pair> {
    match spec_pair(line, 0) {
        Some((_j, p)) => Some(p),
        None => None,
    }
}

/// How many lines' pairs satisfy `full` (complete containment) over the
/// first `k` lines; `None` if a line fails to parse.
pub open spec fn count_lines(lines: Seq<Seq<char>>, full: bool) -> Option<int>
    decreases lines.len(),
{
    if lines.len() == 0 {
        Some(0)
    } else {
        match (count_lines(lines.drop_last(), full), spec_line_pair(lines.last())) {
            (Some(t), Some(p)) => {
                let hit = if full {
                    spec_contains_range(p.a, p.b) || spec_contains_range(p.b, p.a)
                } else {
                    spec_amount_overlapping(p.a, p.b) > 0
                };
                Some(t + (if hit {
                    1int
                } else {
                    0int
                }))
            },
            _ => None,
        }
    }
}

proof fn lemma_count_lines_none(lines: Seq<Seq<char>>, k: int, full: bool)
    requires
        0 <= k < lines.len(),
        spec_line_pair(lines[k]) is None,
    ensures
        count_lines(lines, full) is None,
    decreases lines.len(),
{
    if k < lines.len() - 1 {
        lemma_count_lines_none(lines.drop_last(), k, full);
    }
}

proof fn lemma_count_lines_bounds(lines: Seq<Seq<char>>, full: bool)
    ensures
        count_lines(lines, full) matches Some(t) ==> 0 <= t <= lines.len(),
    decreases lines.len(),
{
    if lines.len() > 0 {
        lemma_count_lines_bounds(lines.drop_last(), full);
    }
}

/// Count the pairs where one range contains the other.
pub fn solution_part1(input: &str) -> (r: Result<u32, CleanupError>)
    requires
        spec_lines(input@).len() <= u32::MAX,
    ensures
        r == match count_lines(spec_lines(input@), true) {
            Some(t) => Ok::<u32, CleanupError>(t as u32),
            None => Err(CleanupError::BadPair),
        },
{
    let lines: Vec<String> = split_lines(input);
    let ghost gl = spec_lines(input@);
    let mut total: u32 = 0;
    let mut i: usize = 0;
    proof {
        assert(gl.take(0) =~= Seq::<Seq<char>>::empty());
    }
    while i < lines.len()
        invariant
            lines.deep_view() == gl,
            gl == spec_lines(input@),
            gl.len() <= u32::MAX,
            0 <= i <= gl.len(),
            count_lines(gl.take(i as int), true) == Some(total as int),
        decreases gl.len() - i,
    {
        proof {
            assert(lines@[i as int]@ == gl[i as int]);
            assert(gl.take(i as int + 1).drop_last() =~= gl.take(i as int));
            assert(gl.take(i as int + 1).last() == gl[i as int]);
            lemma_count_lines_bounds(gl.take(i as int), true);
        }
        let pair: Pair = match Pair::parse(lines[i].as_str()) {
            Some((_, pair)) => pair,
            None => {
                proof {
                    lemma_count_lines_none(gl, i as int, true);
                }
                return Err(CleanupError::BadPair);
            },
        };
        if pair.is_completely_overlapping() {
            total = total + 1;
        }
        i = i + 1;
    }
    proof {
        assert(gl.take(gl.len() as int) =~= gl);
    }
    Ok(total)
}

/// Count the pairs whose ranges overlap at all.
pub fn solution_part2(input: &str) -> (r: Result<u32, CleanupError>)
    requires
        spec_lines(input@).len() <= u32::MAX,
        forall|k: int|
            0 <= k < spec_lines(input@).len() ==> (spec_line_pair(
                #[trigger] spec_lines(input@)[k],
            ) matches Some(p) ==> spec_amount_overlapping(p.a, p.b) <= u32::MAX),
    ensures
        r == match count_lines(spec_lines(input@), false) {
            Some(t) => Ok::<u32, CleanupError>(t as u32),
            None => Err(CleanupError::BadPair),
        },
{
    let lines: Vec<String> = split_lines(input);
    let ghost gl = spec_lines(input@);
    let mut total: u32 = 0;
    let mut i: usize = 0;
    proof {
        assert(gl.take(0) =~= Seq::<Seq<char>>::empty());
    }
    while i < lines.len()
        invariant
            lines.deep_view() == gl,
            gl == spec_lines(input@),
            gl.len() <= u32::MAX,
            forall|k: int|
                0 <= k < gl.len() ==> (spec_line_pair(#[trigger] gl[k]) matches Some(p)
                    ==> spec_amount_overlapping(p.a, p.b) <= u32::MAX),
            0 <= i <= gl.len(),
            count_lines(gl.take(i as int), false) == Some(total as int),
        decreases gl.len() - i,
    {
        proof {
            assert(lines@[i as int]@ == gl[i as int]);
            assert(gl.take(i as int + 1).drop_last() =~= gl.take(i as int));
            assert(gl.take(i as int + 1).last() == gl[i as int]);
            lemma_count_lines_bounds(gl.take(i as int), false);
        }
        let pair: Pair = match Pair::parse(lines[i].as_str()) {
            Some((_, pair)) => pair,
            None => {
                proof {
                    lemma_count_lines_none(gl, i as int, false);
                }
                return Err(CleanupError::BadPair);
            },
        };
        if pair.is_overlapping() {
            total = total + 1;
        }
        i = i + 1;
    }
    proof {
        assert(gl.take(gl.len() as int) =~= gl);
    }
    Ok(total)
}

} // verus!
