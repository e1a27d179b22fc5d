//! Badge finding: the lines are read in groups of three rucksacks, and
//! each group carries exactly one item type — the badge — in common.

use vstd::prelude::*;
use crate::rucksack::{
    RucksackError, dedup_first, seq_shared, spec_item_priority, dedup_chars, shared_vec,
    item_priority,
};
use crate::text::{spec_lines, split_lines};

verus! {

#[derive(Debug, PartialEq, Eq, Clone, Copy)]
pub enum BadgeError {
    /// A group's rucksacks share no item type.
    NoSharedItem,
    /// A group's rucksacks share more than one item type.
    ManySharedItems,
    /// The number of lines is not a multiple of three.
    WrongGroupSize,
    /// A group's badge is not an alphabetic character.
    NotAlphabetic,
}

/// A rucksack as the set of its item types, kept in order of first
/// occurrence.
#[derive(Debug, PartialEq, Eq)]
pub struct Rucksack {
    pub items: Vec<char>,
}

impl Rucksack {
    /// Every item type of a line, once.
    pub fn parse(input: &str) -> (r: Self)
        ensures
            r.items@ == dedup_first(input@),
    {
        let n: usize = input.unicode_len();
        let items: Vec<char> = dedup_chars(input, 0, n);
        proof {
            assert(input@.subrange(0, n as int) =~= input@);
        }
        Rucksack { items }
    }

    /// The one item type this rucksack shares with both others.
    pub fn shared_item(&self, a: &Self, b: &Self) -> (r: Result<char, BadgeError>)
        ensures
            ({
                let sh = seq_shared(seq_shared(self.items@, a.items@), b.items@);
                r == if sh.len() == 0 {
                    Err::<char, BadgeError>(BadgeError::NoSharedItem)
                } else if sh.len() > 1 {
                    Err::<char, BadgeError>(BadgeError::ManySharedItems)
                } else {
                    Ok::<char, BadgeError>(sh[0])
                }
            }),
    {
        let with_a: Vec<char> = shared_vec(&self.items, &a.items);
        let with_both: Vec<char> = shared_vec(&with_a, &b.items);
        if with_both.len() == 0 {
            Err(BadgeError::NoSharedItem)
        } else if with_both.len() > 1 {
            Err(BadgeError::ManySharedItems)
        } else {
            Ok(with_both[0])
        }
    }
}

/// The badge priority of one group of three lines.
pub open spec fn spec_group(l1: Seq<char>, l2: Seq<char>, l3: Seq<char>) -> Result<int, BadgeError> {
    let sh = seq_shared(seq_shared(dedup_first(l1), dedup_first(l2)), dedup_first(l3));
    if sh.len() == 0 {
        Err(BadgeError::NoSharedItem)
    } else if sh.len() > 1 {
        Err(BadgeError::ManySharedItems)
    } else {
        match spec_item_priority(sh[0]) {
            Some(p) => Ok(p as int),
            None => Err(BadgeError::NotAlphabetic),
        }
    }
}

/// The badge priorities summed over the groups from line `i` on, on top of
/// the sum `acc` gathered so far.
pub open spec fn badges_from(lines: Seq<Seq<char>>, i: int, acc: int) -> Result<int, BadgeError>
    decreases lines.len() - i when 0 <= i <= lines.len()
{
    if i == lines.len() {
        Ok(acc)
    } else if lines.len() - i < 3 {
        Err(BadgeError::WrongGroupSize)
    } else {
        match spec_group(lines[i], lines[i + 1], lines[i + 2]) {
            Err(e) => Err(e),
            Ok(p) => badges_from(lines, i + 3, acc + p),
        }
    }
}

/// The answer for a whole input: the badge priorities of all groups of
/// three lines, added up.
pub open spec fn spec_solution(s: Seq<char>) -> Result<int, BadgeError> {
    badges_from(spec_lines(s), 0, 0)
}

/// Sum the badge priorities of every group of three lines.
pub fn solution(input: &str) -> (r: Result<u32, BadgeError>)
    requires
        52 * spec_lines(input@).len() <= 3 * (u32::MAX as int),
    ensures
        r == match spec_solution(input@) {
            Ok(t) => Ok::<u32, BadgeError>(t as u32),
            Err(e) => Err::<u32, BadgeError>(e),
        },
{
    let lines: Vec<String> = split_lines(input);
    let ghost gl = spec_lines(input@);
    let mut total: u32 = 0;
    let mut i: usize = 0;
    while i < lines.len()
        invariant
            lines.deep_view() == gl,
            gl == spec_lines(input@),
            52 * gl.len() <= 3 * (u32::MAX as int),
            0 <= i <= gl.len(),
            i % 3 == 0,
            3 * (total as int) <= 52 * i,
            spec_solution(input@) == badges_from(gl, i as int, total as int),
        decreases gl.len() - i,
    {
        if lines.len() - i < 3 {
            return Err(BadgeError::WrongGroupSize);
        }
        proof {
            assert(lines@[i as int]@ == gl[i as int]);
            assert(lines@[i as int + 1]@ == gl[i as int + 1]);
            assert(lines@[i as int + 2]@ == gl[i as int + 2]);
        }
        let sack_a: Rucksack = Rucksack::parse(lines[i].as_str());
        let sack_b: Rucksack = Rucksack::parse(lines[i + 1].as_str());
        let sack_c: Rucksack = Rucksack::parse(lines[i + 2].as_str());
        let item: char = match sack_a.shared_item(&sack_b, &sack_c) {
            Ok(item) => item,
            Err(e) => {
                return Err(e);
            },
        };
        let p: u32 = match item_priority(item) {
            Ok(p) => p,
            Err(_) => {
                return Err(BadgeError::NotAlphabetic);
            },
        };
        proof {
            assert(p <= 52);
            assert(spec_group(gl[i as int], gl[i as int + 1], gl[i as int + 2]) == Ok::<
                int,
                BadgeError,
            >(p as int));
        }
        total = total + p;
        i = i + 3;
    }
    Ok(total)
}

} // verus!
