//! Text scanning shared by the input parsers: line splitting, character
//! classes, greedy runs, literal matching, and decimal tokens.
//!
//! Lines follow the usual reading: a line ends at the next `'\n'` or at the
//! end of the text, and a `'\r'` standing immediately before the `'\n'` is
//! not part of the line.  Decimal tokens are runs of digits that may carry
//! `'_'` separators after a leading digit.

use vstd::prelude::*;

verus! {

/// Index of the first `'\n'` at or after `i`, or `s.len()` if there is none.
pub open spec fn line_break_at(s: Seq<char>, i: int) -> int
    decreases s.len() - i when 0 <= i <= s.len()
{
    if i == s.len() || s[i] == '\n' {
        i
    } else {
        line_break_at(s, i + 1)
    }
}

pub proof fn lemma_line_break_at(s: Seq<char>, i: int)
    requires
        0 <= i <= s.len(),
    ensures
        i <= line_break_at(s, i) <= s.len(),
        line_break_at(s, i) < s.len() ==> s[line_break_at(s, i)] == '\n',
        forall|j: int| i <= j < line_break_at(s, i) ==> s[j] != '\n',
    decreases s.len() - i,
{
    if i == s.len() || s[i] == '\n' {
    } else {
        lemma_line_break_at(s, i + 1);
    }
}

/// Index of the first occurrence of `c` at or after `i`, or `s.len()` if
/// there is none.
pub open spec fn find_char(s: Seq<char>, i: int, c: char) -> int
    decreases s.len() - i when 0 <= i <= s.len()
{
    if i == s.len() || s[i] == c {
        i
    } else {
        find_char(s, i + 1, c)
    }
}

pub proof fn lemma_find_char(s: Seq<char>, i: int, c: char)
    requires
        0 <= i <= s.len(),
    ensures
        i <= find_char(s, i, c) <= s.len(),
        find_char(s, i, c) < s.len() ==> s[find_char(s, i, c)] == c,
        forall|j: int| i <= j < find_char(s, i, c) ==> s[j] != c,
    decreases s.len() - i,
{
    if i == s.len() || s[i] == c {
    } else {
        lemma_find_char(s, i + 1, c);
    }
}

/// Scan for the first occurrence of `c` at or after `i`.
pub fn scan_to_char(s: &str, i: usize, n: usize, c: char) -> (e: usize)
    requires
        i <= n,
        n == s@.len(),
    ensures
        e == find_char(s@, i as int, c),
        i <= e <= n,
{
    let mut e: usize = i;
    while e < n && s.get_char(e) != c
        invariant
            i <= e <= n,
            n == s@.len(),
            find_char(s@, i as int, c) == find_char(s@, e as int, c),
        decreases n - e,
    {
        e = e + 1;
    }
    e
}

/// The content of a line: a trailing `'\r'` is dropped.
pub open spec fn strip_cr(line: Seq<char>) -> Seq<char> {
    if line.len() > 0 && line.last() == '\r' {
        line.drop_last()
    } else {
        line
    }
}

/// The lines of `s` starting at position `i`.  A trailing line break does not
/// produce a final empty line.
pub open spec fn lines_from(s: Seq<char>, i: int) -> Seq<Seq<char>>
    decreases s.len() - i when 0 <= i <= s.len()
    via lines_from_decreases
{
    if i == s.len() {
        Seq::empty()
    } else {
        let e = line_break_at(s, i);
        let line = strip_cr(s.subrange(i, e));
        if e == s.len() {
            seq![line]
        } else {
            seq![line] + lines_from(s, e + 1)
        }
    }
}

#[via_fn]
proof fn lines_from_decreases(s: Seq<char>, i: int) {
    if 0 <= i <= s.len() && i != s.len() {
        lemma_line_break_at(s, i);
    }
}

/// The lines of a whole text.
pub open spec fn spec_lines(s: Seq<char>) -> Seq<Seq<char>> {
    lines_from(s, 0)
}

/// A class of characters a scanner can run over.
#[derive(Clone, Copy, PartialEq, Eq, Structural)]
pub enum CharClass {
    /// An ASCII decimal digit.
    Digit,
    /// A digit or the `'_'` separator digits may be grouped with.
    DigitOrSep,
    /// A character a name token may continue with: alphanumeric, `'.'`,
    /// `'_'` or `'-'`.
    NameChar,
    /// A space or a tab.
    Space,
}

pub open spec fn is_digit(c: char) -> bool {
    '0' as u32 <= c as u32 && c as u32 <= '9' as u32
}

pub open spec fn is_letter(c: char) -> bool {
    ||| 'a' as u32 <= c as u32 && c as u32 <= 'z' as u32
    ||| 'A' as u32 <= c as u32 && c as u32 <= 'Z' as u32
}

pub open spec fn is_name_sep(c: char) -> bool {
    c == '_' || c == '-' || c == '.'
}

pub open spec fn in_class(k: CharClass, c: char) -> bool {
    match k {
        CharClass::Digit => is_digit(c),
        CharClass::DigitOrSep => is_digit(c) || c == '_',
        CharClass::NameChar => is_letter(c) || is_digit(c) || is_name_sep(c),
        CharClass::Space => c == ' ' || c == '\t',
    }
}

fn char_in_class(k: CharClass, c: char) -> (r: bool)
    ensures
        r == in_class(k, c),
{
    let v: u32 = c as u32;
    match k {
        CharClass::Digit => 48 <= v && v <= 57,
        CharClass::DigitOrSep => (48 <= v && v <= 57) || c == '_',
        CharClass::NameChar => (97 <= v && v <= 122) || (65 <= v && v <= 90) || (48 <= v && v
            <= 57) || c == '_' || c == '-' || c == '.',
        CharClass::Space => c == ' ' || c == '\t',
    }
}

/// End of the run of characters of class `k` starting at `i`.
pub open spec fn run_end(s: Seq<char>, i: int, k: CharClass) -> int
    decreases s.len() - i when 0 <= i <= s.len()
{
    if i == s.len() || !in_class(k, s[i]) {
        i
    } else {
        run_end(s, i + 1, k)
    }
}

pub proof fn lemma_run_end(s: Seq<char>, i: int, k: CharClass)
    requires
        0 <= i <= s.len(),
    ensures
        i <= run_end(s, i, k) <= s.len(),
        run_end(s, i, k) < s.len() ==> !in_class(k, s[run_end(s, i, k)]),
        forall|j: int| i <= j < run_end(s, i, k) ==> in_class(k, s[j]),
    decreases s.len() - i,
{
    if i == s.len() || !in_class(k, s[i]) {
    } else {
        lemma_run_end(s, i + 1, k);
    }
}

/// A run is determined by its contents: if everything before `e` is in the
/// class and `e` is blocked, the run ends at `e`.
pub proof fn lemma_run_end_is(s: Seq<char>, i: int, e: int, k: CharClass)
    requires
        0 <= i <= e <= s.len(),
        forall|j: int| i <= j < e ==> in_class(k, s[j]),
        e < s.len() ==> !in_class(k, s[e]),
    ensures
        run_end(s, i, k) == e,
    decreases e - i,
{
    if i < e {
        lemma_run_end_is(s, i + 1, e, k);
    }
}

/// Scan past the run of characters of class `k` starting at `i`.
pub fn scan_run(s: &str, i: usize, n: usize, k: CharClass) -> (e: usize)
    requires
        i <= n,
        n == s@.len(),
    ensures
        e == run_end(s@, i as int, k),
        i <= e <= n,
{
    let mut e: usize = i;
    while e < n && char_in_class(k, s.get_char(e))
        invariant
            i <= e <= n,
            n == s@.len(),
            run_end(s@, i as int, k) == run_end(s@, e as int, k),
        decreases n - e,
    {
        e = e + 1;
    }
    proof {
        lemma_run_end(s@, e as int, k);
    }
    e
}

/// Whether the text `t` stands at position `i` of `s`.
pub open spec fn has_at(s: Seq<char>, i: int, t: Seq<char>) -> bool {
    0 <= i && i + t.len() <= s.len() && s.subrange(i, i + t.len() as int) == t
}

/// Check whether the literal `t` stands at position `i`.
pub fn match_at(s: &str, i: usize, n: usize, t: &str) -> (r: bool)
    requires
        i <= n,
        n == s@.len(),
    ensures
        r == has_at(s@, i as int, t@),
{
    let m: usize = t.unicode_len();
    if n - i < m {
        proof {
            assert(!has_at(s@, i as int, t@));
        }
        return false;
    }
    let mut k: usize = 0;
    while k < m
        invariant
            i <= n,
            n == s@.len(),
            m == t@.len(),
            i + m <= n,
            0 <= k <= m,
            forall|j: int| 0 <= j < k ==> s@[i + j] == t@[j],
        decreases m - k,
    {
        if s.get_char(i + k) != t.get_char(k) {
            proof {
                assert(s@.subrange(i as int, i as int + t@.len() as int)[k as int] == s@[i
                    + k as int]);
            }
            return false;
        }
        k = k + 1;
    }
    proof {
        assert(s@.subrange(i as int, i as int + t@.len() as int) =~= t@);
    }
    true
}

/// Relies on `String::push`: appends one character to the string.
#[verifier::external_body]
pub(crate) fn push_char(s: &mut String, c: char)
    ensures
        final(s)@ == old(s)@.push(c),
{
    s.push(c);
}

/// The character for one decimal digit.
pub open spec fn digit_char(d: nat) -> char {
    ((48 + d) as u8) as char
}

/// The decimal digits of `n`, most significant first.
pub open spec fn dec_str(n: nat) -> Seq<char>
    decreases n,
{
    if n < 10 {
        seq![digit_char(n)]
    } else {
        dec_str(n / 10).push(digit_char(n % 10))
    }
}

/// The numeric value of a run of digits, `'_'` separators ignored.
pub open spec fn digits_val(s: Seq<char>, i: int, j: int) -> int
    decreases j - i,
{
    if j <= i {
        0
    } else {
        let v = digits_val(s, i, j - 1);
        if s[j - 1] == '_' {
            v
        } else {
            10 * v + (s[j - 1] as u32 - '0' as u32)
        }
    }
}

pub proof fn lemma_digits_val_nonneg(s: Seq<char>, i: int, j: int)
    requires
        forall|m: int| i <= m < j ==> in_class(CharClass::DigitOrSep, s[m]),
    ensures
        digits_val(s, i, j) >= 0,
    decreases j - i,
{
    if j > i {
        lemma_digits_val_nonneg(s, i, j - 1);
    }
}

/// Reading further digits never makes the value smaller.
pub proof fn lemma_digits_val_monotone(s: Seq<char>, i: int, j1: int, j2: int)
    requires
        i <= j1 <= j2,
        forall|m: int| i <= m < j2 ==> in_class(CharClass::DigitOrSep, s[m]),
    ensures
        digits_val(s, i, j1) <= digits_val(s, i, j2),
    decreases j2 - j1,
{
    lemma_digits_val_nonneg(s, i, j1);
    if j1 < j2 {
        lemma_digits_val_nonneg(s, i, j2 - 1);
        lemma_digits_val_monotone(s, i, j1, j2 - 1);
    }
}

/// Decimal digit strings hold digits alone, at least one.
pub proof fn lemma_dec_str_digits(n: nat)
    ensures
        dec_str(n).len() >= 1,
        forall|j: int| 0 <= j < dec_str(n).len() ==> is_digit(#[trigger] dec_str(n)[j]),
    decreases n,
{
    if n >= 10 {
        lemma_dec_str_digits(n / 10);
    }
}

/// The digit value only depends on the characters read.
pub proof fn lemma_digits_val_agree(s1: Seq<char>, i1: int, s2: Seq<char>, i2: int, k: int)
    requires
        forall|x: int| 0 <= x < k ==> #[trigger] s1[i1 + x] == s2[i2 + x],
    ensures
        digits_val(s1, i1, i1 + k) == digits_val(s2, i2, i2 + k),
    decreases k,
{
    if k > 0 {
        lemma_digits_val_agree(s1, i1, s2, i2, k - 1);
        assert(s1[i1 + (k - 1)] == s2[i2 + (k - 1)]);
    }
}

/// Reading the digits of `n` back yields `n`.
pub proof fn lemma_dec_str_value(n: nat)
    ensures
        digits_val(dec_str(n), 0, dec_str(n).len() as int) == n,
    decreases n,
{
    if n < 10 {
        assert(digits_val(dec_str(n), 0, 1) == 10 * digits_val(dec_str(n), 0, 0) + (digit_char(
            n,
        ) as u32 - 48));
        assert(digit_char(n) as u32 == 48 + n);
    } else {
        lemma_dec_str_value(n / 10);
        let p = dec_str(n / 10);
        let full = dec_str(n);
        let len = p.len() as int;
        lemma_dec_str_digits(n / 10);
        assert(full == p.push(digit_char(n % 10)));
        assert(forall|x: int| 0 <= x < len ==> #[trigger] full[0 + x] == p[0 + x]);
        lemma_digits_val_agree(full, 0, p, 0, len);
        assert(digits_val(full, 0, len + 1) == 10 * digits_val(full, 0, len) + (digit_char(
            n % 10,
        ) as u32 - 48));
        assert(digit_char(n % 10) as u32 == 48 + n % 10);
    }
}

/// A decimal token: a maximal run of digits and separators beginning with a
/// digit, valued as an unsigned 64-bit integer.  `None` if there is no digit
/// at `i` or the value does not fit.
pub open spec fn spec_decimal_u64(s: Seq<char>, i: int) -> Option<(int, u64)> {
    if 0 <= i < s.len() && is_digit(s[i]) {
        let e = run_end(s, i, CharClass::DigitOrSep);
        let v = digits_val(s, i, e);
        if v <= u64::MAX {
            Some((e, v as u64))
        } else {
            None
        }
    } else {
        None
    }
}

/// Scan a decimal token at position `i`.
pub fn parse_decimal_u64(s: &str, i: usize, n: usize) -> (r: Option<(usize, u64)>)
    requires
        i <= n,
        n == s@.len(),
    ensures
        match r {
            Some((j, v)) => {
                &&& spec_decimal_u64(s@, i as int) == Some((j as int, v))
                &&& i < j <= n
            },
            None => spec_decimal_u64(s@, i as int) is None,
        },
{
    if i == n || !char_in_class(CharClass::Digit, s.get_char(i)) {
        return None;
    }
    let e: usize = scan_run(s, i, n, CharClass::DigitOrSep);
    proof {
        lemma_run_end(s@, i as int, CharClass::DigitOrSep);
        assert(e > i);
    }
    let mut acc: u64 = 0;
    let mut j: usize = i;
    while j < e
        invariant
            i <= j <= e <= n,
            n == s@.len(),
            e == run_end(s@, i as int, CharClass::DigitOrSep),
            forall|m: int| i <= m < e ==> in_class(CharClass::DigitOrSep, s@[m]),
            acc as int == digits_val(s@, i as int, j as int),
        decreases e - j,
    {
        let c: char = s.get_char(j);
        if c != '_' {
            let d: u64 = (c as u32 - 48) as u64;
            proof {
                lemma_digits_val_monotone(s@, i as int, j as int + 1, e as int);
            }
            if acc > (u64::MAX - d) / 10 {
                proof {
                    assert(digits_val(s@, i as int, j as int + 1) > u64::MAX);
                }
                return None;
            }
            acc = acc * 10 + d;
        }
        j = j + 1;
    }
    Some((e, acc))
}

/// Split a text into its lines.
pub fn split_lines(s: &str) -> (r: Vec<String>)
    ensures
        r.deep_view() == spec_lines(s@),
{
    let n: usize = s.unicode_len();
    let mut r: Vec<String> = Vec::new();
    let mut i: usize = 0;
    while i < n
        invariant
            n == s@.len(),
            0 <= i <= n,
            spec_lines(s@) == r.deep_view() + lines_from(s@, i as int),
        decreases n - i,
    {
        proof {
            lemma_line_break_at(s@, i as int);
        }
        // Scan for the end of the current line.
        let mut e: usize = i;
        while e < n && s.get_char(e) != '\n'
            invariant
                n == s@.len(),
                i <= e <= n,
                line_break_at(s@, i as int) == line_break_at(s@, e as int),
            decreases n - e,
        {
            e = e + 1;
        }
        let content_end: usize = if e > i && s.get_char(e - 1) == '\r' {
            e - 1
        } else {
            e
        };
        let line: String = s.substring_char(i, content_end).to_owned();
        proof {
            assert(line@ == strip_cr(s@.subrange(i as int, e as int)));
            assert(lines_from(s@, i as int) == seq![line@] + if e == n {
                Seq::<Seq<char>>::empty()
            } else {
                lines_from(s@, e as int + 1)
            });
        }
        r.push(line);
        if e == n {
            i = n;
            proof {
                assert(r.deep_view() =~= spec_lines(s@));
            }
        } else {
            i = e + 1;
        }
        proof {
            assert(spec_lines(s@) =~= r.deep_view() + lines_from(s@, i as int));
        }
    }
    proof {
        assert(r.deep_view() =~= spec_lines(s@));
    }
    r
}

} // verus!
