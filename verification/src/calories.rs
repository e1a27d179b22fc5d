//! Calorie counting: the input lists numbers, one per line, in groups
//! separated by blank lines.  Each group belongs to one elf; the questions
//! ask for the largest group total and for the sum of the three largest.

use vstd::prelude::*;
use crate::text::{CharClass, is_digit, lemma_run_end, scan_run, digits_val,
    lemma_digits_val_monotone, lemma_digits_val_nonneg, spec_lines, split_lines};

verus! {

#[derive(Debug, PartialEq, Eq, Clone, Copy)]
pub enum CaloriesError {
    /// A non-empty line is not a well-formed 32-bit integer.
    BadNumber,
}

/// What `line` denotes as a signed 32-bit integer: an optional sign, then
/// one or more digits, nothing else, and a value in range.
pub open spec fn spec_parse_i32(line: Seq<char>) -> Option<i32> {
    let signed = line.len() > 0 && (line[0] == '+' || line[0] == '-');
    let start: int = if signed {
        1
    } else {
        0
    };
    if line.len() > start && (forall|j: int| start <= j < line.len() ==> is_digit(#[trigger] line[j])) {
        let v = digits_val(line, start, line.len() as int);
        let sv: int = if line[0] == '-' {
            -v
        } else {
            v
        };
        if i32::MIN <= sv <= i32::MAX {
            Some(sv as i32)
        } else {
            None
        }
    } else {
        None
    }
}

/// Parse one line as a 32-bit integer.
pub fn parse_i32(line: &str) -> (r: Option<i32>)
    ensures
        r == spec_parse_i32(line@),
{
    let n: usize = line.unicode_len();
    if n == 0 {
        return None;
    }
    let first: char = line.get_char(0);
    let signed: bool = first == '+' || first == '-';
    let start: usize = if signed {
        1
    } else {
        0
    };
    if start == n {
        return None;
    }
    let e: usize = scan_run(line, start, n, CharClass::Digit);
    proof {
        lemma_run_end(line@, start as int, CharClass::Digit);
    }
    if e != n {
        // Some character after the digits (or in place of them) is not a
        // digit.
        return None;
    }
    let mut acc: u64 = 0;
    let mut j: usize = start;
    while j < n
        invariant
            start <= j <= n,
            n == line@.len(),
            n > 0,
            first == line@[0],
            start as int == (if line@.len() > 0 && (line@[0] == '+' || line@[0] == '-') {
                1int
            } else {
                0int
            }),
            forall|k: int| start <= k < n ==> is_digit(#[trigger] line@[k]),
            acc as int == digits_val(line@, start as int, j as int),
            acc <= 2147483648,
        decreases n - j,
    {
        proof {
            assert(forall|k: int|
                start <= k < n ==> crate::text::in_class(
                    CharClass::DigitOrSep,
                    #[trigger] line@[k],
                ));
            lemma_digits_val_monotone(line@, start as int, j as int + 1, n as int);
            lemma_digits_val_nonneg(line@, start as int, j as int + 1);
        }
        let c: char = line.get_char(j);
        let d: u64 = (c as u32 - 48) as u64;
        acc = acc * 10 + d;
        if acc > 2147483648 {
            proof {
                // The value can only grow with more digits, so the whole
                // token is already out of range.
                assert(digits_val(line@, start as int, j as int + 1) > 2147483648);
                assert(digits_val(line@, start as int, n as int) > 2147483648);
            }
            return None;
        }
        j = j + 1;
    }
    if first == '-' {
        if acc == 2147483648 {
            Some(i32::MIN)
        } else {
            Some(-(acc as i32))
        }
    } else {
        if acc > 2147483647 {
            None
        } else {
            Some(acc as i32)
        }
    }
}

/// The groups of numbers a well-formed input denotes, built line by line:
/// a blank line closes the group in progress (the last group is closed by
/// the end of the input), any other line must be an integer.
pub open spec fn parse_groups(
    lines: Seq<Seq<char>>,
    i: int,
    groups: Seq<Seq<i32>>,
    cur: Seq<i32>,
) -> Option<Seq<Seq<i32>>>
    decreases lines.len() - i when 0 <= i <= lines.len()
{
    if i == lines.len() {
        Some(groups.push(cur))
    } else if lines[i].len() == 0 {
        parse_groups(lines, i + 1, groups.push(cur), Seq::empty())
    } else {
        match spec_parse_i32(lines[i]) {
            None => None,
            Some(v) => parse_groups(lines, i + 1, groups, cur.push(v)),
        }
    }
}

/// The parsed input: groups of integers separated by blank lines.
pub open spec fn spec_parse_input(s: Seq<char>) -> Option<Seq<Seq<i32>>> {
    parse_groups(spec_lines(s), 0, Seq::empty(), Seq::empty())
}

/// Parse the whole input into groups of numbers, one group per elf.
pub fn parse_input(text: &str) -> (r: Result<Vec<Vec<i32>>, CaloriesError>)
    ensures
        match spec_parse_input(text@) {
            Some(g) => r matches Ok(v) && v.deep_view() == g,
            None => r is Err,
        },
{
    let lines: Vec<String> = split_lines(text);
    let mut elves: Vec<Vec<i32>> = Vec::new();
    let mut elf: Vec<i32> = Vec::new();
    let mut i: usize = 0;
    proof {
        assert(elves.deep_view() =~= Seq::<Seq<i32>>::empty());
        assert(elf.deep_view() =~= Seq::<i32>::empty());
    }
    while i < lines.len()
        invariant
            lines.deep_view() == spec_lines(text@),
            0 <= i <= lines@.len(),
            spec_parse_input(text@) == parse_groups(
                spec_lines(text@),
                i as int,
                elves.deep_view(),
                elf.deep_view(),
            ),
        decreases lines@.len() - i,
    {
        proof {
            assert(lines@[i as int]@ == spec_lines(text@)[i as int]);
        }
        let ghost prev_elves = elves.deep_view();
        let ghost prev_elf = elf.deep_view();
        if lines[i].as_str().is_empty() {
            elves.push(elf);
            elf = Vec::new();
            proof {
                assert(elves.deep_view() =~= prev_elves.push(prev_elf));
                assert(elf.deep_view() =~= Seq::<i32>::empty());
            }
        } else {
            let v: i32 = match parse_i32(lines[i].as_str()) {
                Some(v) => v,
                None => {
                    return Err(CaloriesError::BadNumber);
                },
            };
            elf.push(v);
            proof {
                assert(elf.deep_view() =~= prev_elf.push(v));
            }
        }
        i = i + 1;
    }
    let ghost final_elves = elves.deep_view();
    let ghost final_elf = elf.deep_view();
    elves.push(elf);
    proof {
        assert(elves.deep_view() =~= final_elves.push(final_elf));
    }
    Ok(elves)
}

/// Parse the whole input into groups of numbers.  This second entry point
/// is kept for callers of the fold-style variant; it promises — and
/// computes — exactly the same groups.
pub fn parse_input_fancy(text: &str) -> (r: Result<Vec<Vec<i32>>, CaloriesError>)
    ensures
        match spec_parse_input(text@) {
            Some(g) => r matches Ok(v) && v.deep_view() == g,
            None => r is Err,
        },
{
    parse_input(text)
}

/// Sum of a group.
pub open spec fn sum_i32(s: Seq<i32>) -> int
    decreases s.len(),
{
    if s.len() == 0 {
        0
    } else {
        sum_i32(s.drop_last()) + s.last()
    }
}

/// Every partial sum of the group stays within 32 bits, so summing it left
/// to right cannot overflow.
pub open spec fn group_sum_ok(g: Seq<i32>) -> bool {
    forall|j: int| 0 <= j <= g.len() ==> i32::MIN <= sum_i32(#[trigger] g.take(j)) <= i32::MAX
}

/// The largest group sum, or `i32::MIN` with no groups.
pub open spec fn max_calories(groups: Seq<Seq<i32>>) -> int
    decreases groups.len(),
{
    if groups.len() == 0 {
        i32::MIN as int
    } else {
        let rest = max_calories(groups.drop_last());
        let s = sum_i32(groups.last());
        if s > rest {
            s
        } else {
            rest
        }
    }
}

fn sum_group(g: &Vec<i32>) -> (r: i32)
    requires
        group_sum_ok(g.deep_view()),
    ensures
        r == sum_i32(g.deep_view()),
{
    let ghost gv = g.deep_view();
    let mut total: i32 = 0;
    let mut j: usize = 0;
    proof {
        assert(gv.take(0) =~= Seq::<i32>::empty());
    }
    while j < g.len()
        invariant
            gv == g.deep_view(),
            group_sum_ok(gv),
            0 <= j <= gv.len(),
            total == sum_i32(gv.take(j as int)),
        decreases gv.len() - j,
    {
        proof {
            assert(gv.take(j as int + 1).drop_last() =~= gv.take(j as int));
            assert(gv.take(j as int + 1).last() == gv[j as int]);
            assert(gv[j as int] == g.deep_view()[j as int]);
        }
        total = total + g[j];
        j = j + 1;
    }
    proof {
        assert(gv.take(gv.len() as int) =~= gv);
    }
    total
}

/// The most calories any single elf carries.
pub fn find_max_calories(elves: &Vec<Vec<i32>>) -> (r: i32)
    requires
        forall|gi: int| 0 <= gi < elves.deep_view().len() ==> group_sum_ok(#[trigger] elves.deep_view()[gi]),
    ensures
        r == max_calories(elves.deep_view()),
{
    let ghost gs = elves.deep_view();
    let mut max: i32 = i32::MIN;
    let mut i: usize = 0;
    proof {
        assert(gs.take(0) =~= Seq::<Seq<i32>>::empty());
    }
    while i < elves.len()
        invariant
            gs == elves.deep_view(),
            forall|gi: int| 0 <= gi < gs.len() ==> group_sum_ok(#[trigger] gs[gi]),
            0 <= i <= gs.len(),
            max == max_calories(gs.take(i as int)),
        decreases gs.len() - i,
    {
        proof {
            assert(gs.take(i as int + 1).drop_last() =~= gs.take(i as int));
            assert(gs.take(i as int + 1).last() == gs[i as int]);
            assert(elves@[i as int].deep_view() == gs[i as int]);
        }
        let total: i32 = sum_group(&elves[i]);
        if total > max {
            max = total;
        }
        i = i + 1;
    }
    proof {
        assert(gs.take(gs.len() as int) =~= gs);
    }
    max
}

/// The most calories any single elf carries.  This second entry point is
/// kept for callers of the fold-style variant; it promises — and computes
/// — exactly the same maximum.
pub fn find_max_calories_fancy(elves: &Vec<Vec<i32>>) -> (r: i32)
    requires
        forall|gi: int| 0 <= gi < elves.deep_view().len() ==> group_sum_ok(#[trigger] elves.deep_view()[gi]),
    ensures
        r == max_calories(elves.deep_view()),
{
    find_max_calories(elves)
}

/// Descending insertion: `v` goes in front of the first element it is not
/// smaller than.
pub open spec fn insert_desc(s: Seq<int>, v: int) -> Seq<int>
    decreases s.len(),
{
    if s.len() == 0 {
        seq![v]
    } else if v >= s[0] {
        seq![v] + s
    } else {
        seq![s[0]] + insert_desc(s.skip(1), v)
    }
}

/// The group sums in descending order.
pub open spec fn sort_desc(s: Seq<int>) -> Seq<int>
    decreases s.len(),
{
    if s.len() == 0 {
        Seq::empty()
    } else {
        insert_desc(sort_desc(s.drop_last()), s.last())
    }
}

/// The sums of all groups.
pub open spec fn sums_of(groups: Seq<Seq<i32>>) -> Seq<int> {
    groups.map_values(|g: Seq<i32>| sum_i32(g))
}

/// The `n` largest group sums in descending order, padded with zeroes when
/// there are fewer than `n` groups.
pub open spec fn spec_top_n(sums: Seq<int>, n: int) -> Seq<int> {
    let sorted = sort_desc(sums);
    if n <= sorted.len() {
        sorted.take(n)
    } else {
        sorted + Seq::new((n - sorted.len()) as nat, |i: int| 0int)
    }
}

proof fn lemma_insert_desc_len(s: Seq<int>, v: int)
    ensures
        insert_desc(s, v).len() == s.len() + 1,
    decreases s.len(),
{
    if s.len() > 0 && !(v >= s[0]) {
        lemma_insert_desc_len(s.skip(1), v);
    }
}

proof fn lemma_sort_desc_len(s: Seq<int>)
    ensures
        sort_desc(s).len() == s.len(),
    decreases s.len(),
{
    if s.len() > 0 {
        lemma_sort_desc_len(s.drop_last());
        lemma_insert_desc_len(sort_desc(s.drop_last()), s.last());
    }
}

proof fn lemma_insert_desc_at(s: Seq<int>, v: int, pos: int)
    requires
        0 <= pos <= s.len(),
        forall|j: int| 0 <= j < pos ==> s[j] > v,
        pos < s.len() ==> v >= s[pos],
    ensures
        insert_desc(s, v) == s.take(pos) + seq![v] + s.skip(pos),
    decreases pos,
{
    if pos == 0 {
        if s.len() == 0 {
            assert(insert_desc(s, v) =~= s.take(0) + seq![v] + s.skip(0));
        } else {
            assert(insert_desc(s, v) =~= s.take(0) + seq![v] + s.skip(0));
        }
    } else {
        lemma_insert_desc_at(s.skip(1), v, pos - 1);
        assert(s.skip(1).take(pos - 1) =~= s.take(pos).skip(1));
        assert(s.skip(1).skip(pos - 1) =~= s.skip(pos));
        assert(insert_desc(s, v) =~= s.take(pos) + seq![v] + s.skip(pos));
    }
}

/// The sums of the `n` elves carrying the most, largest first.
pub fn find_top_n_calories(elves: &Vec<Vec<i32>>, n: usize) -> (r: Vec<i32>)
    requires
        forall|gi: int| 0 <= gi < elves.deep_view().len() ==> group_sum_ok(#[trigger] elves.deep_view()[gi]),
    ensures
        r@.map_values(|x: i32| x as int) == spec_top_n(sums_of(elves.deep_view()), n as int),
{
    let ghost gs = elves.deep_view();
    let mut sorted: Vec<i32> = Vec::new();
    let mut i: usize = 0;
    proof {
        assert(gs.take(0) =~= Seq::<Seq<i32>>::empty());
        assert(sums_of(gs.take(0)) =~= Seq::<int>::empty());
        assert(sorted@.map_values(|x: i32| x as int) =~= Seq::<int>::empty());
    }
    while i < elves.len()
        invariant
            gs == elves.deep_view(),
            forall|gi: int| 0 <= gi < gs.len() ==> group_sum_ok(#[trigger] gs[gi]),
            0 <= i <= gs.len(),
            sorted@.map_values(|x: i32| x as int) == sort_desc(sums_of(gs.take(i as int))),
            sorted@.len() == i,
        decreases gs.len() - i,
    {
        proof {
            assert(elves@[i as int].deep_view() == gs[i as int]);
        }
        let total: i32 = sum_group(&elves[i]);
        let ghost sv = sorted@.map_values(|x: i32| x as int);
        // Find where the new sum goes to keep the order descending.
        let mut pos: usize = 0;
        while pos < sorted.len() && sorted[pos] > total
            invariant
                0 <= pos <= sorted@.len(),
                sv == sorted@.map_values(|x: i32| x as int),
                forall|j: int| 0 <= j < pos ==> sv[j] > total,
            decreases sorted@.len() - pos,
        {
            proof {
                assert(sv[pos as int] == sorted@[pos as int] as int);
            }
            pos = pos + 1;
        }
        sorted.insert(pos, total);
        proof {
            lemma_insert_desc_at(sv, total as int, pos as int);
            assert(sorted@.map_values(|x: i32| x as int) =~= sv.take(pos as int) + seq![
                total as int,
            ] + sv.skip(pos as int));
            assert(gs.take(i as int + 1).drop_last() =~= gs.take(i as int));
            assert(gs.take(i as int + 1).last() == gs[i as int]);
            assert(sums_of(gs.take(i as int + 1)).drop_last() =~= sums_of(gs.take(i as int)));
            assert(sums_of(gs.take(i as int + 1)).last() == sum_i32(gs[i as int]));
            assert(sort_desc(sums_of(gs.take(i as int + 1))) == insert_desc(
                sort_desc(sums_of(gs.take(i as int))),
                sum_i32(gs[i as int]),
            ));
        }
        i = i + 1;
    }
    proof {
        assert(gs.take(gs.len() as int) =~= gs);
    }
    // Cut or pad to exactly `n` entries.
    proof {
        lemma_sort_desc_len(sums_of(gs));
        assert(sums_of(gs).len() == gs.len());
    }
    if sorted.len() > n {
        sorted.truncate(n);
        proof {
            assert(sorted@.map_values(|x: i32| x as int) =~= spec_top_n(
                sums_of(gs),
                n as int,
            ));
        }
    } else {
        proof {
            assert(i == gs.len());
            assert(gs.take(i as int) == gs);
            assert(sorted@.map_values(|x: i32| x as int) == sort_desc(sums_of(gs)));
            assert(sorted@.len() == sort_desc(sums_of(gs)).len());
            assert(forall|j: int|
                0 <= j < sort_desc(sums_of(gs)).len() ==> (#[trigger] sorted@[j]) as int
                    == sort_desc(sums_of(gs))[j]);
        }
        while sorted.len() < n
            invariant
                sort_desc(sums_of(gs)).len() <= sorted@.len() <= n,
                forall|j: int|
                    0 <= j < sort_desc(sums_of(gs)).len() ==> (#[trigger] sorted@[j]) as int
                        == sort_desc(sums_of(gs))[j],
                forall|j: int|
                    sort_desc(sums_of(gs)).len() <= j < sorted@.len() ==> (#[trigger] sorted@[j])
                        == 0i32,
            decreases n - sorted@.len(),
        {
            sorted.push(0);
        }
        proof {
            assert(sorted@.map_values(|x: i32| x as int) =~= spec_top_n(sums_of(gs), n as int));
        }
    }
    sorted
}

/// The answer to the first question: the largest group total.
pub fn part1(input: &str) -> (r: Result<i32, CaloriesError>)
    requires
        spec_parse_input(input@) matches Some(g) ==> forall|gi: int|
            0 <= gi < g.len() ==> group_sum_ok(#[trigger] g[gi]),
    ensures
        match spec_parse_input(input@) {
            Some(g) => r == Ok::<i32, CaloriesError>(max_calories(g) as i32),
            None => r is Err,
        },
{
    let elves: Vec<Vec<i32>> = parse_input(input)?;
    Ok(find_max_calories(&elves))
}

/// The answer to the first question, computed with the one-pass helpers.
pub fn part1_fancy(input: &str) -> (r: Result<i32, CaloriesError>)
    requires
        spec_parse_input(input@) matches Some(g) ==> forall|gi: int|
            0 <= gi < g.len() ==> group_sum_ok(#[trigger] g[gi]),
    ensures
        match spec_parse_input(input@) {
            Some(g) => r == Ok::<i32, CaloriesError>(max_calories(g) as i32),
            None => r is Err,
        },
{
    let elves: Vec<Vec<i32>> = parse_input_fancy(input)?;
    Ok(find_max_calories_fancy(&elves))
}

/// Sum of the first `k` of the top sums.
pub open spec fn sum_prefix(s: Seq<int>, k: int) -> int
    decreases k,
{
    if k <= 0 {
        0
    } else {
        sum_prefix(s, k - 1) + s[k - 1]
    }
}

/// The answer to the second question: what the three best-stocked elves
/// carry together.
pub fn part2(input: &str) -> (r: Result<i32, CaloriesError>)
    requires
        spec_parse_input(input@) matches Some(g) ==> {
            let top = spec_top_n(sums_of(g), 3);
            &&& forall|gi: int| 0 <= gi < g.len() ==> group_sum_ok(#[trigger] g[gi])
            &&& forall|k: int| 0 <= k <= 3 ==> i32::MIN <= #[trigger] sum_prefix(top, k) <= i32::MAX
        },
    ensures
        match spec_parse_input(input@) {
            Some(g) => r == Ok::<i32, CaloriesError>(sum_prefix(spec_top_n(sums_of(g), 3), 3) as i32),
            None => r is Err,
        },
{
    let elves: Vec<Vec<i32>> = parse_input_fancy(input)?;
    let top_calories: Vec<i32> = find_top_n_calories(&elves, 3);
    let ghost top = spec_top_n(sums_of(elves.deep_view()), 3);
    proof {
        lemma_sort_desc_len(sums_of(elves.deep_view()));
        assert(top.len() == 3);
    }
    let mut total: i32 = 0;
    let mut k: usize = 0;
    while k < top_calories.len()
        invariant
            top == top_calories@.map_values(|x: i32| x as int),
            top_calories@.len() == 3,
            forall|j: int| 0 <= j <= 3 ==> i32::MIN <= #[trigger] sum_prefix(top, j) <= i32::MAX,
            0 <= k <= 3,
            total == sum_prefix(top, k as int),
        decreases top_calories@.len() - k,
    {
        proof {
            assert(top[k as int] == top_calories@[k as int] as int);
            assert(sum_prefix(top, k as int + 1) == sum_prefix(top, k as int) + top[k as int]);
        }
        total = total + top_calories[k];
        k = k + 1;
    }
    Ok(total)
}

} // verus!
