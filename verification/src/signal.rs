//! Signal tuning: find the first position where the last `N` characters
//! received are pairwise distinct.

use vstd::prelude::*;

verus! {

#[derive(Debug, PartialEq, Eq, Clone, Copy)]
pub enum SignalError {
    /// No window of distinct characters was found.
    NoMarker,
}

/// The `n` characters starting at `i` are pairwise distinct.
pub open spec fn window_distinct(s: Seq<char>, i: int, n: int) -> bool {
    forall|a: int, b: int| i <= a < b < i + n ==> s[a] != s[b]
}

/// The position just after the first distinct window, scanning window
/// starts from `i`; windows beginning at `s.len() - n` or later are never
/// tried.
pub open spec fn marker_from(s: Seq<char>, n: int, i: int) -> Option<int>
    decreases s.len() - i when 0 <= i && 0 <= n
{
    if i >= s.len() - n {
        None
    } else if window_distinct(s, i, n) {
        Some(i + n)
    } else {
        marker_from(s, n, i + 1)
    }
}

/// Whether the `n` characters starting at `i` are pairwise distinct.
fn check_window(s: &str, i: usize, n: usize, len: usize) -> (r: bool)
    requires
        len == s@.len(),
        i + n <= len,
    ensures
        r == window_distinct(s@, i as int, n as int),
{
    let mut a: usize = i;
    while a < i + n
        invariant
            len == s@.len(),
            i <= a <= i + n <= len,
            forall|x: int, y: int| i <= x < y < i + n && x < a ==> s@[x] != s@[y],
        decreases i + n - a,
    {
        let ca: char = s.get_char(a);
        let mut b: usize = a + 1;
        while b < i + n
            invariant
                len == s@.len(),
                i <= a < b <= i + n <= len,
                ca == s@[a as int],
                forall|y: int| a < y < b ==> s@[a as int] != s@[y],
            decreases i + n - b,
        {
            if ca == s.get_char(b) {
                return false;
            }
            b = b + 1;
        }
        a = a + 1;
    }
    true
}

/// The position just after the first run of `N` pairwise distinct
/// characters.
pub fn find_marker<const N: usize>(input: &str) -> (r: Result<usize, SignalError>)
    requires
        N <= input@.len(),
    ensures
        r == match marker_from(input@, N as int, 0) {
            Some(k) => Ok::<usize, SignalError>(k as usize),
            None => Err(SignalError::NoMarker),
        },
{
    let n: usize = input.unicode_len();
    let mut i: usize = 0;
    while i < n - N
        invariant
            n == input@.len(),
            N <= n,
            0 <= i <= n - N,
            marker_from(input@, N as int, 0) == marker_from(input@, N as int, i as int),
        decreases n - N - i,
    {
        if check_window(input, i, N, n) {
            return Ok(i + N);
        }
        i = i + 1;
    }
    Err(SignalError::NoMarker)
}

} // verus!
