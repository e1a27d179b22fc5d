//! The shared-item puzzle as a free-standing solution: the same rucksack
//! model, exposed with a single `solution` entry point.

use vstd::prelude::*;
use crate::rucksack::{
    RucksackError, dedup_first, seq_shared, spec_item_priority, line_ok, spec_priority_sum,
    shared_vec, item_priority,
};
use crate::text::spec_lines;

verus! {

/// A rucksack with its compartments' item types, each compartment holding
/// every item type once.
#[derive(Debug, PartialEq, Eq)]
pub struct Rucksack {
    pub compartments: Vec<Vec<char>>,
}

impl Rucksack {
    /// First half of a line fills the first compartment, second half the
    /// second.
    pub fn parse(input: &str) -> (r: Self)
        requires
            input@.len() % 2 == 0,
        ensures
            r.compartments@.len() == 2,
            r.compartments@[0]@ == dedup_first(input@.take(input@.len() as int / 2)),
            r.compartments@[1]@ == dedup_first(input@.skip(input@.len() as int / 2)),
    {
        let inner: crate::rucksack::Rucksack = crate::rucksack::Rucksack::parse(input);
        Rucksack { compartments: inner.compartments }
    }

    /// The item types occurring in both compartments, in the first
    /// compartment's order.
    pub fn shared_items(&self) -> (r: Vec<char>)
        requires
            self.compartments@.len() == 2,
        ensures
            r@ == seq_shared(self.compartments@[0]@, self.compartments@[1]@),
    {
        shared_vec(&self.compartments[0], &self.compartments[1])
    }

    /// The priority of the single item type the two compartments share.
    pub fn shared_item_priority(&self) -> (r: Result<u32, RucksackError>)
        requires
            self.compartments@.len() == 2,
            seq_shared(self.compartments@[0]@, self.compartments@[1]@).len() == 1,
        ensures
            r == match spec_item_priority(
                seq_shared(self.compartments@[0]@, self.compartments@[1]@)[0],
            ) {
                Some(p) => Ok::<u32, RucksackError>(p),
                None => Err(RucksackError::NotAlphabetic),
            },
    {
        let items: Vec<char> = self.shared_items();
        item_priority(items[0])
    }
}

/// Sum of the shared-item priorities of every line.
pub fn solution(input: &str) -> (r: Result<u32, RucksackError>)
    requires
        forall|k: int| 0 <= k < spec_lines(input@).len() ==> line_ok(#[trigger] spec_lines(input@)[k]),
        forall|k: int|
            0 <= k <= spec_lines(input@).len() ==> (spec_priority_sum(
                #[trigger] spec_lines(input@).take(k),
            ) matches Some(t) ==> t <= u32::MAX),
    ensures
        r == match spec_priority_sum(spec_lines(input@)) {
            Some(t) => Ok::<u32, RucksackError>(t as u32),
            None => Err(RucksackError::NotAlphabetic),
        },
{
    crate::rucksack::part1(input)
}

} // verus!
