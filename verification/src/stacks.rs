//! Supply stacks: the input draws stacks of crates and lists move
//! instructions; the answer reads the crate on top of each stack after the
//! moves are carried out.

use vstd::prelude::*;
use std::collections::VecDeque;
use std::str::FromStr;
use crate::text::{
    has_at, match_at, is_digit, spec_decimal_u64, parse_decimal_u64, CharClass, run_end,
    lemma_run_end, push_char,
};
use crate::terminal::{spec_line_ending_one};

verus! {

#[derive(Debug, PartialEq, Eq, Clone, Copy)]
pub enum StacksError {
    /// The input does not match the stacks-and-instructions grammar.
    BadProblem,
    /// A stack was read or popped while empty.
    StackEmpty,
    /// A step was asked for with no instructions left.
    NoInstruction,
    /// A move asks for more crates than its source stack holds.
    TooFewCrates,
}

/// One move order, with zero-based stack indices.
#[derive(Debug, PartialEq, Eq, Structural, Clone, Copy)]
pub struct Instruction {
    pub src: usize,
    pub dest: usize,
    pub amount: usize,
}

/// A decimal token valued as a `usize`.
pub open spec fn spec_decimal_usize(s: Seq<char>, i: int) -> Option<(int, usize)> {
    match spec_decimal_u64(s, i) {
        Some((j, v)) => if v <= usize::MAX {
            Some((j, v as usize))
        } else {
            None
        },
        None => None,
    }
}

pub proof fn lemma_spec_decimal_usize_advances(s: Seq<char>, i: int)
    requires
        0 <= i <= s.len(),
        spec_decimal_usize(s, i) is Some,
    ensures
        i < spec_decimal_usize(s, i)->Some_0.0 <= s.len(),
{
    lemma_run_end(s, i, CharClass::DigitOrSep);
}

fn parse_decimal_usize(s: &str, i: usize, n: usize) -> (r: Option<(usize, usize)>)
    requires
        i <= n,
        n == s@.len(),
    ensures
        match r {
            Some((j, v)) => spec_decimal_usize(s@, i as int) == Some((j as int, v)) && i < j <= n,
            None => spec_decimal_usize(s@, i as int) is None,
        },
{
    match parse_decimal_u64(s, i, n) {
        Some((j, v)) => if v <= usize::MAX as u64 {
            Some((j, v as usize))
        } else {
            None
        },
        None => None,
    }
}

/// A move line: `move <n> from <src> to <dest>`, the one-based stack
/// numbers turned into zero-based indices.  A stack number of zero names
/// no stack, so such a line fails the parse.
pub open spec fn spec_instruction(s: Seq<char>, i: int) -> Option<(int, Instruction)> {
    if has_at(s, i, "move "@) {
        match spec_decimal_usize(s, i + 5) {
            Some((j, amount)) => if has_at(s, j, " from "@) {
                match spec_decimal_usize(s, j + 6) {
                    Some((k, src1)) => if has_at(s, k, " to "@) {
                        match spec_decimal_usize(s, k + 4) {
                            Some((m, dest1)) => if src1 >= 1 && dest1 >= 1 {
                                Some(
                                    (
                                        m,
                                        Instruction {
                                            src: (src1 - 1) as usize,
                                            dest: (dest1 - 1) as usize,
                                            amount,
                                        },
                                    ),
                                )
                            } else {
                                None
                            },
                            None => None,
                        }
                    } else {
                        None
                    },
                    None => None,
                }
            } else {
                None
            },
            None => None,
        }
    } else {
        None
    }
}

pub proof fn lemma_spec_instruction_advances(s: Seq<char>, i: int)
    requires
        0 <= i <= s.len(),
        spec_instruction(s, i) is Some,
    ensures
        i < spec_instruction(s, i)->Some_0.0 <= s.len(),
{
    reveal_strlit("move ");
    reveal_strlit(" from ");
    reveal_strlit(" to ");
    lemma_spec_decimal_usize_advances(s, i + 5);
    let j = spec_decimal_usize(s, i + 5)->Some_0.0;
    lemma_spec_decimal_usize_advances(s, j + 6);
    let k = spec_decimal_usize(s, j + 6)->Some_0.0;
    lemma_spec_decimal_usize_advances(s, k + 4);
}

impl Instruction {
    /// Parse one move line at position `i`.
    fn parse_at(s: &str, i: usize, n: usize) -> (r: Option<(usize, Instruction)>)
        requires
            i <= n,
            n == s@.len(),
        ensures
            match r {
                Some((j, v)) => spec_instruction(s@, i as int) == Some((j as int, v)) && i < j
                    <= n,
                None => spec_instruction(s@, i as int) is None,
            },
    {
        if !match_at(s, i, n, "move ") {
            return None;
        }
        proof {
            reveal_strlit("move ");
        }
        let (j, amount): (usize, usize) = match parse_decimal_usize(s, i + 5, n) {
            Some(r) => r,
            None => {
                return None;
            },
        };
        if !match_at(s, j, n, " from ") {
            return None;
        }
        proof {
            reveal_strlit(" from ");
        }
        let (k, src1): (usize, usize) = match parse_decimal_usize(s, j + 6, n) {
            Some(r) => r,
            None => {
                return None;
            },
        };
        if !match_at(s, k, n, " to ") {
            return None;
        }
        proof {
            reveal_strlit(" to ");
        }
        let (m, dest1): (usize, usize) = match parse_decimal_usize(s, k + 4, n) {
            Some(r) => r,
            None => {
                return None;
            },
        };
        if src1 >= 1 && dest1 >= 1 {
            Some((m, Instruction { src: src1 - 1, dest: dest1 - 1, amount }))
        } else {
            None
        }
    }

    /// Parse one move line from the start of `input`, returning the
    /// unparsed remainder.
    pub fn parse<'a>(input: &'a str) -> (r: Option<(&'a str, Instruction)>)
        ensures
            match r {
                Some((rest, v)) => {
                    &&& spec_instruction(input@, 0) matches Some((j, sv))
                    &&& sv == v
                    &&& rest@ == input@.skip(j)
                },
                None => spec_instruction(input@, 0) is None,
            },
    {
        let n: usize = input.unicode_len();
        match Self::parse_at(input, 0, n) {
            Some((j, v)) => {
                let rest: &str = input.substring_char(j, n);
                proof {
                    assert(rest@ =~= input@.skip(spec_instruction(input@, 0)->Some_0.0));
                }
                Some((rest, v))
            },
            None => None,
        }
    }
}

/// One drawing slot: three spaces for an empty slot, or `[<c>]` for a
/// crate.
pub open spec fn spec_stack_position(s: Seq<char>, i: int) -> Option<(int, Option<char>)> {
    if has_at(s, i, "   "@) {
        Some((i + 3, None))
    } else if 0 <= i && i + 3 <= s.len() && s[i] == '[' && s[i + 2] == ']' {
        Some((i + 3, Some(s[i + 1])))
    } else {
        None
    }
}

fn parse_stack_position_at(s: &str, i: usize, n: usize) -> (r: Option<(usize, Option<char>)>)
    requires
        i <= n,
        n == s@.len(),
    ensures
        match r {
            Some((j, v)) => spec_stack_position(s@, i as int) == Some((j as int, v)) && i < j
                <= n,
            None => spec_stack_position(s@, i as int) is None,
        },
{
    if match_at(s, i, n, "   ") {
        proof {
            reveal_strlit("   ");
        }
        return Some((i + 3, None));
    }
    if n - i >= 3 && s.get_char(i) == '[' && s.get_char(i + 2) == ']' {
        Some((i + 3, Some(s.get_char(i + 1))))
    } else {
        proof {
            reveal_strlit("   ");
        }
        None
    }
}

/// One drawing row: slots separated by single spaces.  A space not
/// followed by a further slot is left unconsumed.
pub open spec fn spec_stack_level(s: Seq<char>, i: int) -> Option<(int, Seq<Option<char>>)>
    decreases s.len() - i when 0 <= i <= s.len()
    via spec_stack_level_decreases
{
    match spec_stack_position(s, i) {
        None => None,
        Some((j, v)) => if j < s.len() && s[j] == ' ' && j + 1 <= s.len() && spec_stack_level(
            s,
            j + 1,
        ) is Some {
            let (m, rest) = spec_stack_level(s, j + 1)->Some_0;
            Some((m, seq![v] + rest))
        } else {
            Some((j, seq![v]))
        },
    }
}

#[via_fn]
proof fn spec_stack_level_decreases(s: Seq<char>, i: int) {
    if 0 <= i <= s.len() && spec_stack_position(s, i) is Some {
        assert(spec_stack_position(s, i)->Some_0.0 == i + 3);
    }
}

fn parse_stack_level_at(s: &str, i: usize, n: usize) -> (r: Option<(usize, Vec<Option<char>>)>)
    requires
        i <= n,
        n == s@.len(),
    ensures
        match r {
            Some((j, v)) => spec_stack_level(s@, i as int) == Some((j as int, v@)) && i < j <= n,
            None => spec_stack_level(s@, i as int) is None,
        },
    decreases n - i,
{
    let (j, first): (usize, Option<char>) = match parse_stack_position_at(s, i, n) {
        Some(r) => r,
        None => {
            return None;
        },
    };
    if j < n && s.get_char(j) == ' ' {
        match parse_stack_level_at(s, j + 1, n) {
            Some((m, rest)) => {
                let mut out: Vec<Option<char>> = Vec::new();
                out.push(first);
                let mut rest: Vec<Option<char>> = rest;
                out.append(&mut rest);
                proof {
                    assert(out@ =~= seq![first] + spec_stack_level(s@, j as int + 1)->Some_0.1);
                }
                return Some((m, out));
            },
            None => {
            },
        }
    }
    let mut out: Vec<Option<char>> = Vec::new();
    out.push(first);
    proof {
        assert(out@ =~= seq![first]);
    }
    Some((j, out))
}

/// Parse one drawing row from the start of `input`, returning the
/// unparsed remainder.
pub fn parse_stack_level<'a>(input: &'a str) -> (r: Option<(&'a str, Vec<Option<char>>)>)
    ensures
        match r {
            Some((rest, v)) => {
                &&& spec_stack_level(input@, 0) matches Some((j, sv))
                &&& sv == v@
                &&& rest@ == input@.skip(j)
            },
            None => spec_stack_level(input@, 0) is None,
        },
{
    let n: usize = input.unicode_len();
    match parse_stack_level_at(input, 0, n) {
        Some((j, v)) => {
            let rest: &str = input.substring_char(j, n);
            proof {
                assert(rest@ =~= input@.skip(spec_stack_level(input@, 0)->Some_0.0));
            }
            Some((rest, v))
        },
        None => None,
    }
}

/// One stack number under the drawing: a digit between two spaces.
pub open spec fn spec_stack_index(s: Seq<char>, i: int) -> Option<(int, u32)> {
    if 0 <= i && i + 3 <= s.len() && s[i] == ' ' && is_digit(s[i + 1]) && s[i + 2] == ' ' {
        Some((i + 3, (s[i + 1] as u32 - 48) as u32))
    } else {
        None
    }
}

fn parse_stack_index_at(s: &str, i: usize, n: usize) -> (r: Option<(usize, u32)>)
    requires
        i <= n,
        n == s@.len(),
    ensures
        match r {
            Some((j, v)) => spec_stack_index(s@, i as int) == Some((j as int, v)) && i < j <= n,
            None => spec_stack_index(s@, i as int) is None,
        },
{
    if n - i >= 3 && s.get_char(i) == ' ' && s.get_char(i + 2) == ' ' {
        let c: char = s.get_char(i + 1);
        let v: u32 = c as u32;
        if 48 <= v && v <= 57 {
            return Some((i + 3, v - 48));
        }
    }
    None
}

/// The stack-number row: indices separated by single spaces.
pub open spec fn spec_stack_indices(s: Seq<char>, i: int) -> Option<(int, Seq<u32>)>
    decreases s.len() - i when 0 <= i <= s.len()
    via spec_stack_indices_decreases
{
    match spec_stack_index(s, i) {
        None => None,
        Some((j, v)) => if j < s.len() && s[j] == ' ' && j + 1 <= s.len() && spec_stack_indices(
            s,
            j + 1,
        ) is Some {
            let (m, rest) = spec_stack_indices(s, j + 1)->Some_0;
            Some((m, seq![v] + rest))
        } else {
            Some((j, seq![v]))
        },
    }
}

#[via_fn]
proof fn spec_stack_indices_decreases(s: Seq<char>, i: int) {
    if 0 <= i <= s.len() && spec_stack_index(s, i) is Some {
        assert(spec_stack_index(s, i)->Some_0.0 == i + 3);
    }
}

fn parse_stack_indices_at(s: &str, i: usize, n: usize) -> (r: Option<(usize, Vec<u32>)>)
    requires
        i <= n,
        n == s@.len(),
    ensures
        match r {
            Some((j, v)) => spec_stack_indices(s@, i as int) == Some((j as int, v@)) && i < j
                <= n,
            None => spec_stack_indices(s@, i as int) is None,
        },
    decreases n - i,
{
    let (j, first): (usize, u32) = match parse_stack_index_at(s, i, n) {
        Some(r) => r,
        None => {
            return None;
        },
    };
    if j < n && s.get_char(j) == ' ' {
        match parse_stack_indices_at(s, j + 1, n) {
            Some((m, rest)) => {
                let mut out: Vec<u32> = Vec::new();
                out.push(first);
                let mut rest: Vec<u32> = rest;
                out.append(&mut rest);
                proof {
                    assert(out@ =~= seq![first] + spec_stack_indices(s@, j as int + 1)->Some_0.1);
                }
                return Some((m, out));
            },
            None => {
            },
        }
    }
    let mut out: Vec<u32> = Vec::new();
    out.push(first);
    proof {
        assert(out@ =~= seq![first]);
    }
    Some((j, out))
}

/// Parse the stack-number row from the start of `input`, returning the
/// unparsed remainder.
pub fn parse_stack_indices<'a>(input: &'a str) -> (r: Option<(&'a str, Vec<u32>)>)
    ensures
        match r {
            Some((rest, v)) => {
                &&& spec_stack_indices(input@, 0) matches Some((j, sv))
                &&& sv == v@
                &&& rest@ == input@.skip(j)
            },
            None => spec_stack_indices(input@, 0) is None,
        },
{
    let n: usize = input.unicode_len();
    match parse_stack_indices_at(input, 0, n) {
        Some((j, v)) => {
            let rest: &str = input.substring_char(j, n);
            proof {
                assert(rest@ =~= input@.skip(spec_stack_indices(input@, 0)->Some_0.0));
            }
            Some((rest, v))
        },
        None => None,
    }
}

/// One stack of crates: the crates bottom to top, and the label under the
/// drawing.
#[derive(Debug, PartialEq, Eq)]
pub struct Stack {
    pub values: VecDeque<char>,
    pub index: u32,
}

impl Stack {
    /// Take the top crate off.
    pub fn pop(&mut self) -> (r: Result<char, StacksError>)
        ensures
            old(self).values@.len() == 0 ==> r == Err::<char, StacksError>(StacksError::StackEmpty)
                && final(self).values@ == old(self).values@,
            old(self).values@.len() > 0 ==> r == Ok::<char, StacksError>(old(self).values@.last())
                && final(self).values@ == old(self).values@.drop_last(),
            final(self).index == old(self).index,
    {
        match self.values.pop_back() {
            Some(v) => Ok(v),
            None => Err(StacksError::StackEmpty),
        }
    }

    /// Put a crate on top.
    pub fn push(&mut self, val: char)
        ensures
            final(self).values@ == old(self).values@.push(val),
            final(self).index == old(self).index,
    {
        self.values.push_back(val)
    }

    /// Lift the top `num_elements` crates off in one go, keeping their
    /// order.
    pub fn take(&mut self, num_elements: usize) -> (r: Result<VecDeque<char>, StacksError>)
        ensures
            num_elements > old(self).values@.len() ==> r == Err::<VecDeque<char>, StacksError>(
                StacksError::TooFewCrates,
            ) && final(self).values@ == old(self).values@,
            num_elements <= old(self).values@.len() ==> (r matches Ok(taken) && taken@ == old(
                self,
            ).values@.skip(old(self).values@.len() - num_elements) && final(self).values@ == old(
                self,
            ).values@.take(old(self).values@.len() - num_elements)),
            final(self).index == old(self).index,
    {
        if num_elements > self.values.len() {
            return Err(StacksError::TooFewCrates);
        }
        Ok(self.values.split_off(self.values.len() - num_elements))
    }

    /// The top crate, left in place.
    pub fn peek(&self) -> (r: Result<char, StacksError>)
        ensures
            self.values@.len() == 0 ==> r == Err::<char, StacksError>(StacksError::StackEmpty),
            self.values@.len() > 0 ==> r == Ok::<char, StacksError>(self.values@.last()),
    {
        if self.values.len() == 0 {
            Err(StacksError::StackEmpty)
        } else {
            Ok(self.values[self.values.len() - 1])
        }
    }
}

/// The crates of each stack, bottom to top.
pub open spec fn stacks_values(ss: Seq<Stack>) -> Seq<Seq<char>> {
    ss.map_values(|st: Stack| st.values@)
}

/// The labels of the stacks.
pub open spec fn stacks_indices(ss: Seq<Stack>) -> Seq<u32> {
    ss.map_values(|st: Stack| st.index)
}

/// The crates of one drawing column, bottom to top: the rows are given top
/// first, so the last row's crate comes first.
pub open spec fn column(levels: Seq<Seq<Option<char>>>, c: int) -> Seq<char>
    decreases levels.len(),
{
    if levels.len() == 0 {
        Seq::empty()
    } else {
        match levels.last()[c] {
            Some(ch) => seq![ch] + column(levels.drop_last(), c),
            None => column(levels.drop_last(), c),
        }
    }
}

/// The drawing rows: levels separated by single line breaks.
pub open spec fn spec_levels(s: Seq<char>, i: int) -> Option<(int, Seq<Seq<Option<char>>>)>
    decreases s.len() - i when 0 <= i <= s.len()
    via spec_levels_decreases
{
    match spec_stack_level(s, i) {
        None => None,
        Some((j, lv)) => match spec_line_ending_one(s, j) {
            Some(k) => if spec_stack_level(s, k) is Some {
                let (m, rest) = spec_levels(s, k)->Some_0;
                Some((m, seq![lv] + rest))
            } else {
                Some((j, seq![lv]))
            },
            None => Some((j, seq![lv])),
        },
    }
}

pub proof fn lemma_spec_stack_level_bounds(s: Seq<char>, i: int)
    requires
        0 <= i <= s.len(),
        spec_stack_level(s, i) is Some,
    ensures
        i < spec_stack_level(s, i)->Some_0.0 <= s.len(),
    decreases s.len() - i,
{
    reveal_strlit("   ");
    let j = spec_stack_position(s, i)->Some_0.0;
    assert(j == i + 3 && j <= s.len());
    if j < s.len() && s[j] == ' ' && j + 1 <= s.len() && spec_stack_level(s, j + 1) is Some {
        lemma_spec_stack_level_bounds(s, j + 1);
    }
}

#[via_fn]
proof fn spec_levels_decreases(s: Seq<char>, i: int) {
    if 0 <= i <= s.len() && spec_stack_level(s, i) is Some {
        lemma_spec_stack_level_bounds(s, i);
    }
}

fn parse_levels_at(s: &str, i: usize, n: usize) -> (r: Option<(usize, Vec<Vec<Option<char>>>)>)
    requires
        i <= n,
        n == s@.len(),
    ensures
        match r {
            Some((j, v)) => spec_levels(s@, i as int) == Some((j as int, v.deep_view())) && i < j
                <= n,
            None => spec_levels(s@, i as int) is None,
        },
    decreases n - i,
{
    let (j, first): (usize, Vec<Option<char>>) = match parse_stack_level_at(s, i, n) {
        Some(r) => r,
        None => {
            return None;
        },
    };
    match line_break_after(s, j, n) {
        Some(k) => {
            match parse_levels_at(s, k, n) {
                Some((m, rest)) => {
                    let mut out: Vec<Vec<Option<char>>> = Vec::new();
                    out.push(first);
                    let mut rest: Vec<Vec<Option<char>>> = rest;
                    out.append(&mut rest);
                    proof {
                        assert(out.deep_view() =~~= seq![spec_stack_level(s@, i as int)->Some_0.1]
                            + spec_levels(s@, k as int)->Some_0.1);
                    }
                    return Some((m, out));
                },
                None => {
                },
            }
        },
        None => {
        },
    }
    let mut out: Vec<Vec<Option<char>>> = Vec::new();
    out.push(first);
    proof {
        assert(out.deep_view() =~~= seq![spec_stack_level(s@, i as int)->Some_0.1]);
    }
    Some((j, out))
}

/// Scan a single line break at position `i`.
fn line_break_after(s: &str, i: usize, n: usize) -> (r: Option<usize>)
    requires
        i <= n,
        n == s@.len(),
    ensures
        match r {
            Some(k) => spec_line_ending_one(s@, i as int) == Some(k as int) && i < k <= n,
            None => spec_line_ending_one(s@, i as int) is None,
        },
{
    if i < n && s.get_char(i) == '\n' {
        Some(i + 1)
    } else if n - i >= 2 && s.get_char(i) == '\r' && s.get_char(i + 1) == '\n' {
        Some(i + 2)
    } else {
        None
    }
}

/// The whole drawing: the rows, a line break, the stack numbers, and a
/// final line break.  Every row must be as wide as the number row; a
/// ragged drawing does not describe a set of stacks.
pub open spec fn spec_parse_stacks(s: Seq<char>, i: int) -> Option<
    (int, Seq<Seq<char>>, Seq<u32>),
> {
    match spec_levels(s, i) {
        None => None,
        Some((j, levels)) => match spec_line_ending_one(s, j) {
            None => None,
            Some(k) => match spec_stack_indices(s, k) {
                None => None,
                Some((m, idxs)) => match spec_line_ending_one(s, m) {
                    None => None,
                    Some(e) => if forall|t: int|
                        0 <= t < levels.len() ==> (#[trigger] levels[t]).len() == idxs.len() {
                        Some((e, Seq::new(idxs.len(), |c: int| column(levels, c)), idxs))
                    } else {
                        None
                    },
                },
            },
        },
    }
}

#[verifier::loop_isolation(false)]
fn parse_stacks_at(s: &str, i: usize, n: usize) -> (r: Option<(usize, Vec<Stack>)>)
    requires
        i <= n,
        n == s@.len(),
    ensures
        match r {
            Some((j, v)) => {
                &&& spec_parse_stacks(s@, i as int) matches Some((sj, vals, idxs))
                &&& sj == j as int
                &&& stacks_values(v@) == vals
                &&& stacks_indices(v@) == idxs
                &&& i < j <= n
            },
            None => spec_parse_stacks(s@, i as int) is None,
        },
{
    let (j, levels): (usize, Vec<Vec<Option<char>>>) = match parse_levels_at(s, i, n) {
        Some(r) => r,
        None => {
            return None;
        },
    };
    let k: usize = match line_break_after(s, j, n) {
        Some(k) => k,
        None => {
            return None;
        },
    };
    let (m, idxs): (usize, Vec<u32>) = match parse_stack_indices_at(s, k, n) {
        Some(r) => r,
        None => {
            return None;
        },
    };
    let e: usize = match line_break_after(s, m, n) {
        Some(e) => e,
        None => {
            return None;
        },
    };
    let ghost glv = levels.deep_view();
    // Every drawing row must have one slot per stack number.
    let mut t: usize = 0;
    while t < levels.len()
        invariant
            glv == levels.deep_view(),
            0 <= t <= glv.len(),
            forall|u: int| 0 <= u < t ==> (#[trigger] glv[u]).len() == idxs@.len(),
        decreases glv.len() - t,
    {
        if levels[t].len() != idxs.len() {
            proof {
                assert(glv[t as int].len() != idxs@.len());
            }
            return None;
        }
        t = t + 1;
    }
    let mut stacks: Vec<Stack> = Vec::new();
    let mut c: usize = 0;
    proof {
        assert(stacks_values(stacks@) =~~= Seq::new(0, |x: int| column(glv, x)));
        assert(stacks_indices(stacks@) =~= idxs@.take(0));
    }
    while c < idxs.len()
        invariant
            glv == levels.deep_view(),
            0 <= c <= idxs@.len(),
            forall|u: int| 0 <= u < glv.len() ==> (#[trigger] glv[u]).len() == idxs@.len(),
            stacks@.len() == c,
            stacks_values(stacks@) == Seq::new(c as nat, |x: int| column(glv, x)),
            stacks_indices(stacks@) == idxs@.take(c as int),
        decreases idxs@.len() - c,
    {
        let mut values: VecDeque<char> = VecDeque::new();
        let mut t2: usize = 0;
        proof {
            assert(glv.take(0) =~= Seq::<Seq<Option<char>>>::empty());
        }
        while t2 < levels.len()
            invariant
                glv == levels.deep_view(),
                0 <= t2 <= glv.len(),
                c < idxs@.len(),
                forall|u: int| 0 <= u < glv.len() ==> (#[trigger] glv[u]).len() == idxs@.len(),
                values@ == column(glv.take(t2 as int), c as int),
            decreases glv.len() - t2,
        {
            proof {
                assert(glv.take(t2 as int + 1).drop_last() =~= glv.take(t2 as int));
                assert(glv.take(t2 as int + 1).last() == glv[t2 as int]);
                assert(levels@[t2 as int].deep_view() == glv[t2 as int]);
            }
            match levels[t2][c] {
                Some(ch) => {
                    values.push_front(ch);
                    proof {
                        assert(values@ =~= seq![ch] + column(glv.take(t2 as int), c as int));
                    }
                },
                None => {
                },
            }
            t2 = t2 + 1;
        }
        proof {
            assert(glv.take(glv.len() as int) =~= glv);
        }
        let ghost stacks_before = stacks@;
        let label: u32 = idxs[c];
        stacks.push(Stack { values, index: label });
        proof {
            assert(column(glv.take(glv.len() as int), c as int) == column(glv, c as int));
            assert(stacks@.last().values@ == column(glv, c as int));
            assert(stacks@.last().index == idxs@[c as int]);
            assert forall|x: int| 0 <= x < c implies stacks_before[x].values@ == column(glv, x)
                && stacks_before[x].index == idxs@[x] by {
                assert(stacks_values(stacks_before)[x] == stacks_before[x].values@);
                assert(Seq::new(c as nat, |y: int| column(glv, y))[x] == column(glv, x));
                assert(stacks_indices(stacks_before)[x] == stacks_before[x].index);
                assert(idxs@.take(c as int)[x] == idxs@[x]);
            }
        }
        c = c + 1;
        proof {
            assert(stacks_values(stacks@) =~~= Seq::new(c as nat, |x: int| column(glv, x)));
            assert(stacks_indices(stacks@) =~= idxs@.take(c as int));
        }
    }
    proof {
        assert(idxs@.take(idxs@.len() as int) =~= idxs@);
    }
    Some((e, stacks))
}

/// Parse the drawing from the start of `input`, returning the unparsed
/// remainder.
pub fn parse_stacks<'a>(input: &'a str) -> (r: Option<(&'a str, Vec<Stack>)>)
    ensures
        match r {
            Some((rest, v)) => {
                &&& spec_parse_stacks(input@, 0) matches Some((j, vals, idxs))
                &&& stacks_values(v@) == vals
                &&& stacks_indices(v@) == idxs
                &&& rest@ == input@.skip(j)
            },
            None => spec_parse_stacks(input@, 0) is None,
        },
{
    let n: usize = input.unicode_len();
    match parse_stacks_at(input, 0, n) {
        Some((j, v)) => {
            let rest: &str = input.substring_char(j, n);
            proof {
                assert(rest@ =~= input@.skip(spec_parse_stacks(input@, 0)->Some_0.0));
            }
            Some((rest, v))
        },
        None => None,
    }
}

/// The move lines: instructions separated by single line breaks.
pub open spec fn spec_instructions(s: Seq<char>, i: int) -> Option<(int, Seq<Instruction>)>
    decreases s.len() - i when 0 <= i <= s.len()
    via spec_instructions_decreases
{
    match spec_instruction(s, i) {
        None => None,
        Some((j, it)) => match spec_line_ending_one(s, j) {
            Some(k) => if spec_instruction(s, k) is Some {
                let (m, rest) = spec_instructions(s, k)->Some_0;
                Some((m, seq![it] + rest))
            } else {
                Some((j, seq![it]))
            },
            None => Some((j, seq![it])),
        },
    }
}

#[via_fn]
proof fn spec_instructions_decreases(s: Seq<char>, i: int) {
    if 0 <= i <= s.len() && spec_instruction(s, i) is Some {
        lemma_spec_instruction_advances(s, i);
    }
}

fn parse_instructions_at(s: &str, i: usize, n: usize) -> (r: Option<(usize, Vec<Instruction>)>)
    requires
        i <= n,
        n == s@.len(),
    ensures
        match r {
            Some((j, v)) => spec_instructions(s@, i as int) == Some((j as int, v@)) && i < j <= n,
            None => spec_instructions(s@, i as int) is None,
        },
    decreases n - i,
{
    let (j, first): (usize, Instruction) = match Instruction::parse_at(s, i, n) {
        Some(r) => r,
        None => {
            return None;
        },
    };
    match line_break_after(s, j, n) {
        Some(k) => {
            match parse_instructions_at(s, k, n) {
                Some((m, rest)) => {
                    let mut out: Vec<Instruction> = Vec::new();
                    out.push(first);
                    let mut rest: Vec<Instruction> = rest;
                    out.append(&mut rest);
                    proof {
                        assert(out@ =~= seq![first] + spec_instructions(s@, k as int)->Some_0.1);
                    }
                    return Some((m, out));
                },
                None => {
                },
            }
        },
        None => {
        },
    }
    let mut out: Vec<Instruction> = Vec::new();
    out.push(first);
    proof {
        assert(out@ =~= seq![first]);
    }
    Some((j, out))
}

/// The whole puzzle: the drawing, a blank line, then the move lines and a
/// final line break.
pub open spec fn spec_problem(s: Seq<char>, i: int) -> Option<
    (int, Seq<Seq<char>>, Seq<u32>, Seq<Instruction>),
> {
    match spec_parse_stacks(s, i) {
        None => None,
        Some((j, vals, idxs)) => match spec_line_ending_one(s, j) {
            None => None,
            Some(k) => match spec_instructions(s, k) {
                None => None,
                Some((m, instrs)) => match spec_line_ending_one(s, m) {
                    None => None,
                    Some(e) => Some((e, vals, idxs, instrs)),
                },
            },
        },
    }
}

/// The stacks and the not-yet-executed instructions.
#[derive(Debug, PartialEq, Eq)]
pub struct Problem {
    pub stacks: Vec<Stack>,
    pub instructions: VecDeque<Instruction>,
}

impl Problem {
    /// Parse the whole puzzle from the start of `input`, returning the
    /// unparsed remainder.
    pub fn parse<'a>(input: &'a str) -> (r: Option<(&'a str, Problem)>)
        ensures
            match r {
                Some((rest, p)) => {
                    &&& spec_problem(input@, 0) matches Some((j, vals, idxs, instrs))
                    &&& stacks_values(p.stacks@) == vals
                    &&& stacks_indices(p.stacks@) == idxs
                    &&& p.instructions@ == instrs
                    &&& rest@ == input@.skip(j)
                },
                None => spec_problem(input@, 0) is None,
            },
    {
        let n: usize = input.unicode_len();
        let (j, stacks): (usize, Vec<Stack>) = match parse_stacks_at(input, 0, n) {
            Some(r) => r,
            None => {
                return None;
            },
        };
        let k: usize = match line_break_after(input, j, n) {
            Some(k) => k,
            None => {
                return None;
            },
        };
        let (m, instrs): (usize, Vec<Instruction>) = match parse_instructions_at(input, k, n) {
            Some(r) => r,
            None => {
                return None;
            },
        };
        let e: usize = match line_break_after(input, m, n) {
            Some(e) => e,
            None => {
                return None;
            },
        };
        let mut instructions: VecDeque<Instruction> = VecDeque::new();
        let mut q: usize = 0;
        proof {
            assert(instructions@ =~= instrs@.take(0));
        }
        while q < instrs.len()
            invariant
                0 <= q <= instrs@.len(),
                instructions@ == instrs@.take(q as int),
            decreases instrs@.len() - q,
        {
            instructions.push_back(instrs[q]);
            proof {
                assert(instrs@.take(q as int).push(instrs@[q as int]) =~= instrs@.take(q as int
                    + 1));
            }
            q = q + 1;
        }
        proof {
            assert(instrs@.take(instrs@.len() as int) =~= instrs@);
        }
        let rest: &str = input.substring_char(e, n);
        proof {
            assert(rest@ =~= input@.skip(spec_problem(input@, 0)->Some_0.0));
        }
        Some((rest, Problem { stacks, instructions }))
    }

    /// Parse the whole puzzle, ignoring anything after it.
    pub fn parse_problem(input: &str) -> (r: Result<Problem, StacksError>)
        ensures
            match spec_problem(input@, 0) {
                Some((j, vals, idxs, instrs)) => {
                    &&& r matches Ok(p)
                    &&& stacks_values(p.stacks@) == vals
                    &&& stacks_indices(p.stacks@) == idxs
                    &&& p.instructions@ == instrs
                },
                None => r == Err::<Problem, StacksError>(StacksError::BadProblem),
            },
    {
        match Self::parse(input) {
            Some((_, p)) => Ok(p),
            None => Err(StacksError::BadProblem),
        }
    }
}

impl FromStr for Problem {
    type Err = StacksError;

    fn from_str(s: &str) -> Result<Problem, StacksError> {
        Problem::parse_problem(s)
    }
}

/// One crate moved from the top of `src` to the top of `dest`; `false`
/// with everything unchanged when `src` is empty.
pub open spec fn mv1(vs: Seq<Seq<char>>, src: int, dest: int) -> (Seq<Seq<char>>, bool) {
    if vs[src].len() == 0 {
        (vs, false)
    } else {
        let v = vs[src].last();
        let s1 = vs.update(src, vs[src].drop_last());
        (s1.update(dest, s1[dest].push(v)), true)
    }
}

/// `k` crates moved one at a time (their order reverses); stops short when
/// the source runs out.
pub open spec fn run_moves(vs: Seq<Seq<char>>, src: int, dest: int, k: int) -> (
    Seq<Seq<char>>,
    bool,
)
    decreases k,
{
    if k <= 0 {
        (vs, true)
    } else {
        let (s1, ok) = mv1(vs, src, dest);
        if ok {
            run_moves(s1, src, dest, k - 1)
        } else {
            (s1, false)
        }
    }
}

/// `k` crates lifted together (their order kept); nothing moves when the
/// source holds fewer than `k`.
pub open spec fn mvk(vs: Seq<Seq<char>>, src: int, dest: int, k: int) -> (Seq<Seq<char>>, bool) {
    if k > vs[src].len() {
        (vs, false)
    } else {
        let moved = vs[src].skip(vs[src].len() - k);
        let s1 = vs.update(src, vs[src].take(vs[src].len() - k));
        (s1.update(dest, s1[dest] + moved), true)
    }
}

/// Every remaining instruction run with the one-at-a-time mover; stops at
/// the first failure, after it has taken effect.
pub open spec fn run_all(vs: Seq<Seq<char>>, instrs: Seq<Instruction>) -> (
    Seq<Seq<char>>,
    Seq<Instruction>,
    bool,
)
    decreases instrs.len(),
{
    if instrs.len() == 0 {
        (vs, instrs, true)
    } else {
        let it = instrs[0];
        let (vs2, ok) = run_moves(vs, it.src as int, it.dest as int, it.amount as int);
        if ok {
            run_all(vs2, instrs.skip(1))
        } else {
            (vs2, instrs.skip(1), false)
        }
    }
}

/// Every remaining instruction run with the lift-together mover.
pub open spec fn run_all2(vs: Seq<Seq<char>>, instrs: Seq<Instruction>) -> (
    Seq<Seq<char>>,
    Seq<Instruction>,
    bool,
)
    decreases instrs.len(),
{
    if instrs.len() == 0 {
        (vs, instrs, true)
    } else {
        let it = instrs[0];
        let (vs2, ok) = mvk(vs, it.src as int, it.dest as int, it.amount as int);
        if ok {
            run_all2(vs2, instrs.skip(1))
        } else {
            (vs2, instrs.skip(1), false)
        }
    }
}

impl Problem {
    /// Run the next instruction, moving its crates one at a time.
    #[verifier::loop_isolation(false)]
    pub fn step(&mut self) -> (r: Result<(), StacksError>)
        requires
            old(self).instructions@.len() > 0 ==> old(self).instructions@[0].src < old(
                self,
            ).stacks@.len() && old(self).instructions@[0].dest < old(self).stacks@.len(),
        ensures
            old(self).instructions@.len() == 0 ==> r == Err::<(), StacksError>(
                StacksError::NoInstruction,
            ) && final(self).stacks@ == old(self).stacks@ && final(self).instructions@ == old(
                self,
            ).instructions@,
            old(self).instructions@.len() > 0 ==> ({
                let it = old(self).instructions@[0];
                let (vs2, ok) = run_moves(
                    stacks_values(old(self).stacks@),
                    it.src as int,
                    it.dest as int,
                    it.amount as int,
                );
                &&& stacks_values(final(self).stacks@) == vs2
                &&& stacks_indices(final(self).stacks@) == stacks_indices(old(self).stacks@)
                &&& final(self).instructions@ == old(self).instructions@.skip(1)
                &&& r == if ok {
                    Ok::<(), StacksError>(())
                } else {
                    Err::<(), StacksError>(StacksError::StackEmpty)
                }
            }),
    {
        let instruction: Instruction = match self.instructions.pop_front() {
            Some(instruction) => instruction,
            None => {
                return Err(StacksError::NoInstruction);
            },
        };
        let ghost vs0 = stacks_values(self.stacks@);
        let ghost idx0 = stacks_indices(self.stacks@);
        let src: usize = instruction.src;
        let dest: usize = instruction.dest;
        let mut c: usize = 0;
        while c < instruction.amount
            invariant
                0 <= c <= instruction.amount,
                src < self.stacks@.len(),
                dest < self.stacks@.len(),
                self.stacks@.len() == old(self).stacks@.len(),
                self.instructions@ == old(self).instructions@.skip(1),
                stacks_indices(self.stacks@) == idx0,
                run_moves(vs0, src as int, dest as int, instruction.amount as int) == run_moves(
                    stacks_values(self.stacks@),
                    src as int,
                    dest as int,
                    instruction.amount as int - c,
                ),
            decreases instruction.amount - c,
        {
            let ghost vs_cur = stacks_values(self.stacks@);
            let val: char = match self.stacks[src].pop() {
                Ok(val) => val,
                Err(e) => {
                    proof {
                        assert(stacks_values(self.stacks@) =~~= vs_cur);
                        assert(stacks_indices(self.stacks@) =~= idx0);
                        assert(vs_cur[src as int].len() == 0);
                        assert(mv1(vs_cur, src as int, dest as int) == (vs_cur, false));
                        assert(run_moves(
                            vs_cur,
                            src as int,
                            dest as int,
                            instruction.amount as int - c,
                        ) == (vs_cur, false));
                    }
                    return Err(e);
                },
            };
            proof {
                assert(stacks_values(self.stacks@) =~~= vs_cur.update(
                    src as int,
                    vs_cur[src as int].drop_last(),
                ));
                assert(stacks_indices(self.stacks@) =~= idx0);
            }
            let ghost vs_mid = stacks_values(self.stacks@);
            self.stacks[dest].push(val);
            proof {
                assert(stacks_values(self.stacks@) =~~= vs_mid.update(
                    dest as int,
                    vs_mid[dest as int].push(val),
                ));
                assert(stacks_indices(self.stacks@) =~= idx0);
                assert(mv1(vs_cur, src as int, dest as int) == (
                    stacks_values(self.stacks@),
                    true,
                ));
                assert(run_moves(vs_cur, src as int, dest as int, instruction.amount as int - c)
                    == run_moves(
                    stacks_values(self.stacks@),
                    src as int,
                    dest as int,
                    instruction.amount as int - c - 1,
                ));
            }
            c = c + 1;
        }
        Ok(())
    }

    /// Run all remaining instructions, one crate at a time.
    #[verifier::loop_isolation(false)]
    pub fn execute(&mut self) -> (r: Result<(), StacksError>)
        requires
            forall|t: int|
                0 <= t < old(self).instructions@.len() ==> (#[trigger] old(
                    self,
                ).instructions@[t]).src < old(self).stacks@.len() && old(
                    self,
                ).instructions@[t].dest < old(self).stacks@.len(),
        ensures
            ({
                let (vs2, instrs2, ok) = run_all(
                    stacks_values(old(self).stacks@),
                    old(self).instructions@,
                );
                &&& stacks_values(final(self).stacks@) == vs2
                &&& stacks_indices(final(self).stacks@) == stacks_indices(old(self).stacks@)
                &&& final(self).instructions@ == instrs2
                &&& r == if ok {
                    Ok::<(), StacksError>(())
                } else {
                    Err::<(), StacksError>(StacksError::StackEmpty)
                }
            }),
    {
        while self.instructions.len() > 0
            invariant
                self.stacks@.len() == old(self).stacks@.len(),
                stacks_indices(self.stacks@) == stacks_indices(old(self).stacks@),
                forall|t: int|
                    0 <= t < self.instructions@.len() ==> (#[trigger] self.instructions@[t]).src
                        < self.stacks@.len() && self.instructions@[t].dest < self.stacks@.len(),
                run_all(stacks_values(old(self).stacks@), old(self).instructions@) == run_all(
                    stacks_values(self.stacks@),
                    self.instructions@,
                ),
            decreases self.instructions@.len(),
        {
            let ghost instrs_before = self.instructions@;
            match self.step() {
                Ok(()) => {
                    proof {
                        assert(forall|t: int|
                            0 <= t < self.instructions@.len() ==> (#[trigger] self.instructions@[
                            t]) == instrs_before.skip(1)[t]);
                    }
                },
                Err(e) => {
                    return Err(e);
                },
            }
        }
        Ok(())
    }

    /// Run the next instruction, lifting its crates together.
    #[verifier::loop_isolation(false)]
    pub fn step2(&mut self) -> (r: Result<(), StacksError>)
        requires
            old(self).instructions@.len() > 0 ==> old(self).instructions@[0].src < old(
                self,
            ).stacks@.len() && old(self).instructions@[0].dest < old(self).stacks@.len(),
        ensures
            old(self).instructions@.len() == 0 ==> r == Err::<(), StacksError>(
                StacksError::NoInstruction,
            ) && final(self).stacks@ == old(self).stacks@ && final(self).instructions@ == old(
                self,
            ).instructions@,
            old(self).instructions@.len() > 0 ==> ({
                let it = old(self).instructions@[0];
                let (vs2, ok) = mvk(
                    stacks_values(old(self).stacks@),
                    it.src as int,
                    it.dest as int,
                    it.amount as int,
                );
                &&& stacks_values(final(self).stacks@) == vs2
                &&& stacks_indices(final(self).stacks@) == stacks_indices(old(self).stacks@)
                &&& final(self).instructions@ == old(self).instructions@.skip(1)
                &&& r == if ok {
                    Ok::<(), StacksError>(())
                } else {
                    Err::<(), StacksError>(StacksError::TooFewCrates)
                }
            }),
    {
        let instruction: Instruction = match self.instructions.pop_front() {
            Some(instruction) => instruction,
            None => {
                return Err(StacksError::NoInstruction);
            },
        };
        let ghost vs0 = stacks_values(self.stacks@);
        let ghost idx0 = stacks_indices(self.stacks@);
        let src: usize = instruction.src;
        let dest: usize = instruction.dest;
        let mut values: VecDeque<char> = match self.stacks[src].take(instruction.amount) {
            Ok(values) => values,
            Err(e) => {
                proof {
                    assert(stacks_values(self.stacks@) =~~= vs0);
                    assert(stacks_indices(self.stacks@) =~= idx0);
                }
                return Err(e);
            },
        };
        let ghost moved = values@;
        let ghost vs_mid = stacks_values(self.stacks@);
        proof {
            assert(vs_mid =~~= vs0.update(
                src as int,
                vs0[src as int].take(vs0[src as int].len() - instruction.amount as int),
            ));
        }
        let ghost dest_before = stacks_values(self.stacks@)[dest as int];
        while values.len() > 0
            invariant
                src < self.stacks@.len(),
                dest < self.stacks@.len(),
                self.stacks@.len() == old(self).stacks@.len(),
                self.instructions@ == old(self).instructions@.skip(1),
                stacks_indices(self.stacks@) == idx0,
                values@.len() <= moved.len(),
                values@ == moved.skip(moved.len() - values@.len()),
                stacks_values(self.stacks@) == vs_mid.update(
                    dest as int,
                    dest_before + moved.take(moved.len() - values@.len()),
                ),
            decreases values@.len(),
        {
            let ghost vs_cur = stacks_values(self.stacks@);
            let ghost vals_before = values@;
            let val: char = match values.pop_front() {
                Some(val) => val,
                None => {
                    proof {
                        assert(false);
                    }
                    return Err(StacksError::StackEmpty);
                },
            };
            self.stacks[dest].push(val);
            proof {
                assert(vals_before[0] == moved.skip(moved.len() - vals_before.len())[0]);
                assert(moved.skip(moved.len() - vals_before.len())[0] == moved[moved.len()
                    - vals_before.len()]);
                assert(val == moved[moved.len() - vals_before.len()]);
                assert(values@ =~= moved.skip(moved.len() - values@.len()));
                assert(moved.take(moved.len() - vals_before.len()).push(val) =~= moved.take(
                    moved.len() - values@.len(),
                ));
                assert((dest_before + moved.take(moved.len() - vals_before.len())).push(val)
                    =~= dest_before + moved.take(moved.len() - values@.len()));
                assert(vs_cur[dest as int] == dest_before + moved.take(
                    moved.len() - vals_before.len(),
                ));
                assert(stacks_values(self.stacks@) =~~= vs_cur.update(
                    dest as int,
                    vs_cur[dest as int].push(val),
                ));
                assert(stacks_values(self.stacks@) =~~= vs_mid.update(
                    dest as int,
                    dest_before + moved.take(moved.len() - values@.len()),
                ));
            }
        }
        proof {
            assert(moved.take(moved.len() as int) =~= moved);
            assert(stacks_values(self.stacks@) =~~= mvk(
                vs0,
                src as int,
                dest as int,
                instruction.amount as int,
            ).0);
        }
        Ok(())
    }

    /// Run all remaining instructions, lifting each batch together.
    #[verifier::loop_isolation(false)]
    pub fn execute2(&mut self) -> (r: Result<(), StacksError>)
        requires
            forall|t: int|
                0 <= t < old(self).instructions@.len() ==> (#[trigger] old(
                    self,
                ).instructions@[t]).src < old(self).stacks@.len() && old(
                    self,
                ).instructions@[t].dest < old(self).stacks@.len(),
        ensures
            ({
                let (vs2, instrs2, ok) = run_all2(
                    stacks_values(old(self).stacks@),
                    old(self).instructions@,
                );
                &&& stacks_values(final(self).stacks@) == vs2
                &&& stacks_indices(final(self).stacks@) == stacks_indices(old(self).stacks@)
                &&& final(self).instructions@ == instrs2
                &&& r == if ok {
                    Ok::<(), StacksError>(())
                } else {
                    Err::<(), StacksError>(StacksError::TooFewCrates)
                }
            }),
    {
        while self.instructions.len() > 0
            invariant
                self.stacks@.len() == old(self).stacks@.len(),
                stacks_indices(self.stacks@) == stacks_indices(old(self).stacks@),
                forall|t: int|
                    0 <= t < self.instructions@.len() ==> (#[trigger] self.instructions@[t]).src
                        < self.stacks@.len() && self.instructions@[t].dest < self.stacks@.len(),
                run_all2(stacks_values(old(self).stacks@), old(self).instructions@) == run_all2(
                    stacks_values(self.stacks@),
                    self.instructions@,
                ),
            decreases self.instructions@.len(),
        {
            let ghost instrs_before = self.instructions@;
            match self.step2() {
                Ok(()) => {
                    proof {
                        assert(forall|t: int|
                            0 <= t < self.instructions@.len() ==> (#[trigger] self.instructions@[
                            t]) == instrs_before.skip(1)[t]);
                    }
                },
                Err(e) => {
                    return Err(e);
                },
            }
        }
        Ok(())
    }
}

/// The top crate of every stack, in stack order; `None` when some stack
/// is empty.
pub open spec fn spec_tops(vs: Seq<Seq<char>>) -> Option<Seq<char>>
    decreases vs.len(),
{
    if vs.len() == 0 {
        Some(Seq::empty())
    } else {
        match (spec_tops(vs.drop_last()), vs.last().len() > 0) {
            (Some(rest), true) => Some(rest.push(vs.last().last())),
            _ => None,
        }
    }
}

proof fn lemma_tops_none(vs: Seq<Seq<char>>, k: int)
    requires
        0 <= k < vs.len(),
        vs[k].len() == 0,
    ensures
        spec_tops(vs) is None,
    decreases vs.len(),
{
    if k < vs.len() - 1 {
        lemma_tops_none(vs.drop_last(), k);
    }
}

/// Read off the top crate of every stack.
#[verifier::loop_isolation(false)]
fn read_tops(stacks: &Vec<Stack>) -> (r: Result<String, StacksError>)
    ensures
        match spec_tops(stacks_values(stacks@)) {
            Some(t) => r matches Ok(s) && s@ == t,
            None => r == Err::<String, StacksError>(StacksError::StackEmpty),
        },
{
    let ghost vs = stacks_values(stacks@);
    let mut out: String = String::new();
    let mut i: usize = 0;
    proof {
        assert(vs.take(0) =~= Seq::<Seq<char>>::empty());
    }
    while i < stacks.len()
        invariant
            0 <= i <= vs.len(),
            spec_tops(vs.take(i as int)) == Some(out@),
        decreases vs.len() - i,
    {
        proof {
            assert(vs.take(i as int + 1).drop_last() =~= vs.take(i as int));
            assert(vs.take(i as int + 1).last() == vs[i as int]);
            assert(vs[i as int] == stacks@[i as int].values@);
        }
        let c: char = match stacks[i].peek() {
            Ok(c) => c,
            Err(e) => {
                proof {
                    lemma_tops_none(vs, i as int);
                }
                return Err(e);
            },
        };
        push_char(&mut out, c);
        i = i + 1;
    }
    proof {
        assert(vs.take(vs.len() as int) =~= vs);
    }
    Ok(out)
}

/// Run every move one crate at a time and read the top of each stack.
pub fn solution_part1(input: &str) -> (r: Result<String, StacksError>)
    requires
        spec_problem(input@, 0) matches Some((j, vals, idxs, instrs)) ==> forall|t: int|
            0 <= t < instrs.len() ==> (#[trigger] instrs[t]).src < vals.len() && instrs[t].dest
                < vals.len(),
    ensures
        match spec_problem(input@, 0) {
            None => r == Err::<String, StacksError>(StacksError::BadProblem),
            Some((j, vals, idxs, instrs)) => ({
                let (vs2, instrs2, ok) = run_all(vals, instrs);
                if !ok {
                    r == Err::<String, StacksError>(StacksError::StackEmpty)
                } else {
                    match spec_tops(vs2) {
                        Some(t) => r matches Ok(s) && s@ == t,
                        None => r == Err::<String, StacksError>(StacksError::StackEmpty),
                    }
                }
            }),
        },
{
    let mut problem: Problem = match Problem::parse_problem(input) {
        Ok(problem) => problem,
        Err(e) => {
            return Err(e);
        },
    };
    match problem.execute() {
        Ok(()) => (),
        Err(e) => {
            return Err(e);
        },
    }
    read_tops(&problem.stacks)
}

/// Run every move lifting its crates together and read the top of each
/// stack.
pub fn solution_part2(input: &str) -> (r: Result<String, StacksError>)
    requires
        spec_problem(input@, 0) matches Some((j, vals, idxs, instrs)) ==> forall|t: int|
            0 <= t < instrs.len() ==> (#[trigger] instrs[t]).src < vals.len() && instrs[t].dest
                < vals.len(),
    ensures
        match spec_problem(input@, 0) {
            None => r == Err::<String, StacksError>(StacksError::BadProblem),
            Some((j, vals, idxs, instrs)) => ({
                let (vs2, instrs2, ok) = run_all2(vals, instrs);
                if !ok {
                    r == Err::<String, StacksError>(StacksError::TooFewCrates)
                } else {
                    match spec_tops(vs2) {
                        Some(t) => r matches Ok(s) && s@ == t,
                        None => r == Err::<String, StacksError>(StacksError::StackEmpty),
                    }
                }
            }),
        },
{
    let mut problem: Problem = match Problem::parse_problem(input) {
        Ok(problem) => problem,
        Err(e) => {
            return Err(e);
        },
    };
    match problem.execute2() {
        Ok(()) => (),
        Err(e) => {
            return Err(e);
        },
    }
    read_tops(&problem.stacks)
}

} // verus!
