//! Parser for a transcript of `cd` / `ls` shell commands.
//!
//! The grammar is line oriented.  A command line starts with `"$ "` and
//! holds either `cd` with a target (`/`, `..` or a directory name) or `ls`,
//! which is followed by entry lines (`dir <name>` or `<size> <name>`) up to
//! the next command.  Parsing stops silently at the first line that does not
//! match the grammar: callers see a possibly truncated command sequence.

use vstd::prelude::*;
use crate::text::{
    CharClass, in_class, is_letter, is_name_sep, run_end, lemma_run_end, lemma_run_end_is,
    scan_run, spec_decimal_u64, parse_decimal_u64, has_at, dec_str, lemma_dec_str_digits,
    lemma_dec_str_value, lemma_digits_val_agree,
};

verus! {

/// The target of a `cd` command.
#[derive(Debug, PartialEq, Eq)]
pub enum Directory {
    /// `cd /`
    Root,
    /// `cd ..`
    Parent,
    /// `cd <name>`
    Child(String),
}

/// Mathematical value of a [`Directory`].
#[verifier::ext_equal]
pub enum DirectoryView {
    Root,
    Parent,
    Child(Seq<char>),
}

impl View for Directory {
    type V = DirectoryView;

    open spec fn view(&self) -> DirectoryView {
        match self {
            Directory::Root => DirectoryView::Root,
            Directory::Parent => DirectoryView::Parent,
            Directory::Child(name) => DirectoryView::Child(name@),
        }
    }
}

/// One line of `ls` output: a file with its size, or a directory.
#[derive(Debug, PartialEq, Eq)]
pub enum DirectoryEntry {
    File { name: String, size: u64 },
    Directory { name: String },
}

/// Mathematical value of a [`DirectoryEntry`].
#[verifier::ext_equal]
pub enum EntryView {
    File { name: Seq<char>, size: u64 },
    Directory { name: Seq<char> },
}

impl View for DirectoryEntry {
    type V = EntryView;

    open spec fn view(&self) -> EntryView {
        match self {
            DirectoryEntry::File { name, size } => EntryView::File { name: name@, size: *size },
            DirectoryEntry::Directory { name } => EntryView::Directory { name: name@ },
        }
    }
}

impl EntryView {
    /// The name of the entry, whichever kind it is.
    pub open spec fn name(self) -> Seq<char> {
        match self {
            EntryView::File { name, .. } => name,
            EntryView::Directory { name } => name,
        }
    }
}

/// A character a name token may start with: a letter or one of `. _ -`
/// (but not a digit).
pub open spec fn is_name_start(c: char) -> bool {
    is_letter(c) || is_name_sep(c)
}

/// A name token: a maximal run of name characters beginning with a letter
/// or separator.
pub open spec fn spec_name(s: Seq<char>, i: int) -> Option<(int, Seq<char>)> {
    if 0 <= i < s.len() && is_name_start(s[i]) {
        let e = run_end(s, i, CharClass::NameChar);
        Some((e, s.subrange(i, e)))
    } else {
        None
    }
}

/// Scan a name token at position `i`.
fn parse_name(s: &str, i: usize, n: usize) -> (r: Option<(usize, String)>)
    requires
        i <= n,
        n == s@.len(),
    ensures
        match r {
            Some((j, name)) => {
                &&& spec_name(s@, i as int) == Some((j as int, name@))
                &&& i < j <= n
            },
            None => spec_name(s@, i as int) is None,
        },
{
    if i == n {
        return None;
    }
    let c: char = s.get_char(i);
    let v: u32 = c as u32;
    let start_ok: bool = (97 <= v && v <= 122) || (65 <= v && v <= 90) || c == '_' || c == '-'
        || c == '.';
    if !start_ok {
        return None;
    }
    let e: usize = scan_run(s, i, n, CharClass::NameChar);
    proof {
        lemma_run_end(s@, i as int, CharClass::NameChar);
    }
    let name: String = s.substring_char(i, e).to_owned();
    Some((e, name))
}

/// A file entry: a decimal size, one or more spaces, then a name.
pub open spec fn spec_file_entry(s: Seq<char>, i: int) -> Option<(int, EntryView)> {
    match spec_decimal_u64(s, i) {
        Some((j, size)) => {
            let sp = run_end(s, j, CharClass::Space);
            if sp > j {
                match spec_name(s, sp) {
                    Some((k, name)) => Some((k, EntryView::File { name, size })),
                    None => None,
                }
            } else {
                None
            }
        },
        None => None,
    }
}

/// A directory entry: the word `dir`, one or more spaces, then a name.
pub open spec fn spec_dir_entry(s: Seq<char>, i: int) -> Option<(int, EntryView)> {
    if 0 <= i && i + 3 <= s.len() && s[i] == 'd' && s[i + 1] == 'i' && s[i + 2] == 'r' {
        let sp = run_end(s, i + 3, CharClass::Space);
        if sp > i + 3 {
            match spec_name(s, sp) {
                Some((k, name)) => Some((k, EntryView::Directory { name })),
                None => None,
            }
        } else {
            None
        }
    } else {
        None
    }
}

/// An `ls` output line: a file entry, or else a directory entry.
pub open spec fn spec_entry(s: Seq<char>, i: int) -> Option<(int, EntryView)> {
    match spec_file_entry(s, i) {
        Some(r) => Some(r),
        None => spec_dir_entry(s, i),
    }
}

pub proof fn lemma_spec_entry_advances(s: Seq<char>, i: int)
    requires
        0 <= i <= s.len(),
        spec_entry(s, i) is Some,
    ensures
        i < spec_entry(s, i)->Some_0.0 <= s.len(),
{
    lemma_run_end(s, i, CharClass::DigitOrSep);
    if spec_file_entry(s, i) is Some {
        let j = spec_decimal_u64(s, i)->Some_0.0;
        lemma_run_end(s, j, CharClass::Space);
        let sp = run_end(s, j, CharClass::Space);
        lemma_run_end(s, sp, CharClass::NameChar);
    } else {
        lemma_run_end(s, i + 3, CharClass::Space);
        let sp = run_end(s, i + 3, CharClass::Space);
        lemma_run_end(s, sp, CharClass::NameChar);
    }
}

impl DirectoryEntry {
    /// Parse a file entry (`<size> <name>`) at position `i`.
    fn parse_file_at(s: &str, i: usize, n: usize) -> (r: Option<(usize, DirectoryEntry)>)
        requires
            i <= n,
            n == s@.len(),
        ensures
            match r {
                Some((j, e)) => {
                    &&& spec_file_entry(s@, i as int) == Some((j as int, e@))
                    &&& i < j <= n
                },
                None => spec_file_entry(s@, i as int) is None,
            },
    {
        let (j, size): (usize, u64) = match parse_decimal_u64(s, i, n) {
            Some(r) => r,
            None => {
                return None;
            },
        };
        let sp: usize = scan_run(s, j, n, CharClass::Space);
        if sp == j {
            return None;
        }
        let (k, name): (usize, String) = match parse_name(s, sp, n) {
            Some(r) => r,
            None => {
                return None;
            },
        };
        Some((k, DirectoryEntry::File { name, size }))
    }

    /// Parse a directory entry (`dir <name>`) at position `i`.
    fn parse_directory_at(s: &str, i: usize, n: usize) -> (r: Option<(usize, DirectoryEntry)>)
        requires
            i <= n,
            n == s@.len(),
        ensures
            match r {
                Some((j, e)) => {
                    &&& spec_dir_entry(s@, i as int) == Some((j as int, e@))
                    &&& i < j <= n
                },
                None => spec_dir_entry(s@, i as int) is None,
            },
    {
        if n - i < 3 {
            return None;
        }
        if !(s.get_char(i) == 'd' && s.get_char(i + 1) == 'i' && s.get_char(i + 2) == 'r') {
            return None;
        }
        let sp: usize = scan_run(s, i + 3, n, CharClass::Space);
        if sp == i + 3 {
            return None;
        }
        let (k, name): (usize, String) = match parse_name(s, sp, n) {
            Some(r) => r,
            None => {
                return None;
            },
        };
        Some((k, DirectoryEntry::Directory { name }))
    }

    /// Parse one `ls` output line at position `i`.
    fn parse_at(s: &str, i: usize, n: usize) -> (r: Option<(usize, DirectoryEntry)>)
        requires
            i <= n,
            n == s@.len(),
        ensures
            match r {
                Some((j, e)) => {
                    &&& spec_entry(s@, i as int) == Some((j as int, e@))
                    &&& i < j <= n
                },
                None => spec_entry(s@, i as int) is None,
            },
    {
        match Self::parse_file_at(s, i, n) {
            Some(r) => Some(r),
            None => Self::parse_directory_at(s, i, n),
        }
    }

    /// Parse one `ls` output line from the start of `input`, returning the
    /// unparsed remainder.
    pub fn parse<'a>(input: &'a str) -> (r: Option<(&'a str, DirectoryEntry)>)
        ensures
            match r {
                Some((rest, e)) => {
                    &&& spec_entry(input@, 0) matches Some((j, ev))
                    &&& e@ == ev
                    &&& rest@ == input@.skip(j)
                },
                None => spec_entry(input@, 0) is None,
            },
    {
        let n: usize = input.unicode_len();
        match Self::parse_at(input, 0, n) {
            Some((j, e)) => {
                let rest: &str = input.substring_char(j, n);
                proof {
                    assert(rest@ =~= input@.skip(spec_entry(input@, 0)->Some_0.0));
                }
                Some((rest, e))
            },
            None => None,
        }
    }

    /// The entry's name.
    pub fn name(&self) -> (r: &str)
        ensures
            r@ == self@.name(),
    {
        match self {
            DirectoryEntry::Directory { name } => name.as_str(),
            DirectoryEntry::File { name, size: _ } => name.as_str(),
        }
    }
}

/// The target of a `cd` line: `/`, `..`, or a child name, tried in that
/// order.
pub open spec fn spec_directory(s: Seq<char>, i: int) -> Option<(int, DirectoryView)> {
    if 0 <= i < s.len() && s[i] == '/' {
        Some((i + 1, DirectoryView::Root))
    } else if 0 <= i && i + 2 <= s.len() && s[i] == '.' && s[i + 1] == '.' {
        Some((i + 2, DirectoryView::Parent))
    } else {
        match spec_name(s, i) {
            Some((e, name)) => Some((e, DirectoryView::Child(name))),
            None => None,
        }
    }
}

pub proof fn lemma_spec_directory_advances(s: Seq<char>, i: int)
    requires
        0 <= i <= s.len(),
        spec_directory(s, i) is Some,
    ensures
        i < spec_directory(s, i)->Some_0.0 <= s.len(),
{
    lemma_run_end(s, i, CharClass::NameChar);
}

impl Directory {
    /// Parse a `cd` target at position `i`.
    fn parse_at(s: &str, i: usize, n: usize) -> (r: Option<(usize, Directory)>)
        requires
            i <= n,
            n == s@.len(),
        ensures
            match r {
                Some((j, d)) => {
                    &&& spec_directory(s@, i as int) == Some((j as int, d@))
                    &&& i < j <= n
                },
                None => spec_directory(s@, i as int) is None,
            },
    {
        if i < n && s.get_char(i) == '/' {
            return Some((i + 1, Directory::Root));
        }
        if n - i >= 2 && s.get_char(i) == '.' && s.get_char(i + 1) == '.' {
            return Some((i + 2, Directory::Parent));
        }
        match parse_name(s, i, n) {
            Some((j, name)) => Some((j, Directory::Child(name))),
            None => None,
        }
    }

    /// Parse a `cd` target from the start of `input`, returning the
    /// unparsed remainder.
    pub fn parse<'a>(input: &'a str) -> (r: Option<(&'a str, Directory)>)
        ensures
            match r {
                Some((rest, d)) => {
                    &&& spec_directory(input@, 0) matches Some((j, dv))
                    &&& d@ == dv
                    &&& rest@ == input@.skip(j)
                },
                None => spec_directory(input@, 0) is None,
            },
    {
        let n: usize = input.unicode_len();
        match Self::parse_at(input, 0, n) {
            Some((j, d)) => {
                let rest: &str = input.substring_char(j, n);
                proof {
                    assert(rest@ =~= input@.skip(spec_directory(input@, 0)->Some_0.0));
                }
                Some((rest, d))
            },
            None => None,
        }
    }
}

/// A single line break: `"\n"` or `"\r\n"`.
pub open spec fn spec_line_ending_one(s: Seq<char>, i: int) -> Option<int> {
    if 0 <= i < s.len() && s[i] == '\n' {
        Some(i + 1)
    } else if 0 <= i && i + 2 <= s.len() && s[i] == '\r' && s[i + 1] == '\n' {
        Some(i + 2)
    } else {
        None
    }
}

/// End of the maximal run of line breaks starting at `i`.
pub open spec fn spec_line_endings(s: Seq<char>, i: int) -> int
    decreases s.len() - i when 0 <= i <= s.len()
{
    match spec_line_ending_one(s, i) {
        Some(k) => spec_line_endings(s, k),
        None => i,
    }
}

pub proof fn lemma_spec_line_endings(s: Seq<char>, i: int)
    requires
        0 <= i <= s.len(),
    ensures
        i <= spec_line_endings(s, i) <= s.len(),
    decreases s.len() - i,
{
    match spec_line_ending_one(s, i) {
        Some(k) => lemma_spec_line_endings(s, k),
        None => (),
    }
}

/// Scan a single line break at position `i`.
fn line_ending_at(s: &str, i: usize, n: usize) -> (r: Option<usize>)
    requires
        i <= n,
        n == s@.len(),
    ensures
        match r {
            Some(k) => spec_line_ending_one(s@, i as int) == Some(k as int) && i < k <= n,
            None => spec_line_ending_one(s@, i as int) is None,
        },
{
    if i < n && s.get_char(i) == '\n' {
        Some(i + 1)
    } else if n - i >= 2 && s.get_char(i) == '\r' && s.get_char(i + 1) == '\n' {
        Some(i + 2)
    } else {
        None
    }
}

/// Scan past all line breaks starting at `i`.
fn scan_line_endings(s: &str, i: usize, n: usize) -> (e: usize)
    requires
        i <= n,
        n == s@.len(),
    ensures
        e == spec_line_endings(s@, i as int),
        i <= e <= n,
{
    let mut e: usize = i;
    let mut go: bool = true;
    while go
        invariant
            i <= e <= n,
            n == s@.len(),
            spec_line_endings(s@, i as int) == spec_line_endings(s@, e as int),
            !go ==> spec_line_ending_one(s@, e as int) is None,
        decreases n - e, (if go { 1int } else { 0int }),
    {
        match line_ending_at(s, e, n) {
            Some(k) => {
                e = k;
            },
            None => {
                go = false;
            },
        }
    }
    e
}

/// A parsed command: change directory, or list the current directory.
#[derive(Debug, PartialEq, Eq)]
pub enum Command {
    Cd(Directory),
    Ls(Vec<DirectoryEntry>),
}

/// Mathematical value of a [`Command`].
#[verifier::ext_equal]
pub enum CommandView {
    Cd(DirectoryView),
    Ls(Seq<EntryView>),
}

impl View for Command {
    type V = CommandView;

    open spec fn view(&self) -> CommandView {
        match self {
            Command::Cd(d) => CommandView::Cd(d@),
            Command::Ls(entries) => CommandView::Ls(
                entries@.map_values(|e: DirectoryEntry| e@),
            ),
        }
    }
}

/// The `ls` output lines starting at `i`: entries separated by single line
/// breaks.  A separator not followed by a further entry is left unconsumed.
pub open spec fn spec_entry_list(s: Seq<char>, i: int) -> (int, Seq<EntryView>)
    decreases s.len() - i when 0 <= i <= s.len()
    via spec_entry_list_decreases
{
    match spec_entry(s, i) {
        None => (i, Seq::empty()),
        Some((j, e)) => match spec_line_ending_one(s, j) {
            None => (j, seq![e]),
            Some(k) => {
                let (m, rest) = spec_entry_list(s, k);
                if rest.len() == 0 {
                    (j, seq![e])
                } else {
                    (m, seq![e] + rest)
                }
            },
        },
    }
}

#[via_fn]
proof fn spec_entry_list_decreases(s: Seq<char>, i: int) {
    if 0 <= i <= s.len() && spec_entry(s, i) is Some {
        lemma_spec_entry_advances(s, i);
    }
}

pub proof fn lemma_spec_entry_list_bounds(s: Seq<char>, i: int)
    requires
        0 <= i <= s.len(),
    ensures
        i <= spec_entry_list(s, i).0 <= s.len(),
    decreases s.len() - i,
{
    match spec_entry(s, i) {
        None => (),
        Some((j, e)) => {
            lemma_spec_entry_advances(s, i);
            match spec_line_ending_one(s, j) {
                None => (),
                Some(k) => {
                    lemma_spec_entry_list_bounds(s, k);
                },
            }
        },
    }
}

/// What `spec_entry_list` yields once the entries in `acc` have been taken
/// and scanning stands just after an entry, at `j`.
spec fn entry_list_combine(s: Seq<char>, acc: Seq<EntryView>, j: int) -> (int, Seq<EntryView>) {
    match spec_line_ending_one(s, j) {
        None => (j, acc),
        Some(k) => {
            let (m, rest) = spec_entry_list(s, k);
            if rest.len() == 0 {
                (j, acc)
            } else {
                (m, acc + rest)
            }
        },
    }
}

proof fn lemma_entry_list_combine_step(
    s: Seq<char>,
    acc: Seq<EntryView>,
    j: int,
    k: int,
    j2: int,
    e2: EntryView,
)
    requires
        0 <= j <= s.len(),
        spec_line_ending_one(s, j) == Some(k),
        spec_entry(s, k) == Some((j2, e2)),
        0 <= k <= s.len(),
    ensures
        entry_list_combine(s, acc, j) == entry_list_combine(s, acc.push(e2), j2),
{
    lemma_spec_entry_advances(s, k);
    match spec_line_ending_one(s, j2) {
        None => {
            assert(spec_entry_list(s, k) == (j2, seq![e2]));
            assert(acc + seq![e2] =~= acc.push(e2));
        },
        Some(k2) => {
            let (m2, rest2) = spec_entry_list(s, k2);
            if rest2.len() == 0 {
                assert(spec_entry_list(s, k) == (j2, seq![e2]));
                assert(acc + seq![e2] =~= acc.push(e2));
            } else {
                assert(spec_entry_list(s, k) == (m2, seq![e2] + rest2));
                assert(acc + (seq![e2] + rest2) =~= acc.push(e2) + rest2);
            }
        },
    }
}

/// Parse the `ls` output lines starting at `i`.
fn parse_entry_list(s: &str, i: usize, n: usize) -> (r: (usize, Vec<DirectoryEntry>))
    requires
        i <= n,
        n == s@.len(),
    ensures
        spec_entry_list(s@, i as int) == (
            r.0 as int,
            r.1@.map_values(|e: DirectoryEntry| e@),
        ),
        i <= r.0 <= n,
{
    let mut entries: Vec<DirectoryEntry> = Vec::new();
    let (mut last_end, first): (usize, DirectoryEntry) = match DirectoryEntry::parse_at(s, i, n) {
        None => {
            proof {
                assert(entries@.map_values(|e: DirectoryEntry| e@) =~= Seq::<EntryView>::empty());
            }
            return (i, entries);
        },
        Some(r) => r,
    };
    entries.push(first);
    loop
        invariant
            i <= last_end <= n,
            n == s@.len(),
            entries@.len() >= 1,
            spec_entry_list(s@, i as int) == entry_list_combine(
                s@,
                entries@.map_values(|e: DirectoryEntry| e@),
                last_end as int,
            ),
        ensures
            i <= last_end <= n,
            spec_entry_list(s@, i as int) == (
                last_end as int,
                entries@.map_values(|e: DirectoryEntry| e@),
            ),
        decreases n - last_end,
    {
        let k: usize = match line_ending_at(s, last_end, n) {
            None => {
                break ;
            },
            Some(k) => k,
        };
        let (j2, e2): (usize, DirectoryEntry) = match DirectoryEntry::parse_at(s, k, n) {
            None => {
                proof {
                    assert(spec_entry_list(s@, k as int) == (
                        k as int,
                        Seq::<EntryView>::empty(),
                    ));
                }
                break ;
            },
            Some(r) => r,
        };
        proof {
            lemma_entry_list_combine_step(
                s@,
                entries@.map_values(|e: DirectoryEntry| e@),
                last_end as int,
                k as int,
                j2 as int,
                e2@,
            );
            assert(entries@.push(e2).map_values(|e: DirectoryEntry| e@) =~= entries@.map_values(
                |e: DirectoryEntry| e@,
            ).push(e2@));
        }
        entries.push(e2);
        last_end = j2;
    }
    (last_end, entries)
}

/// A `cd` command: the word `cd`, spaces, a target, then line breaks.
pub open spec fn spec_cd(s: Seq<char>, i: int) -> Option<(int, CommandView)> {
    if 0 <= i && i + 2 <= s.len() && s[i] == 'c' && s[i + 1] == 'd' {
        let sp = run_end(s, i + 2, CharClass::Space);
        if sp > i + 2 {
            match spec_directory(s, sp) {
                Some((j, d)) => {
                    let e = spec_line_endings(s, j);
                    if e > j {
                        Some((e, CommandView::Cd(d)))
                    } else {
                        None
                    }
                },
                None => None,
            }
        } else {
            None
        }
    } else {
        None
    }
}

/// An `ls` command: the word `ls`, a line break, then the output lines.
/// With at least one entry the block must end in a line break; with none
/// any further blank lines are taken as read.
pub open spec fn spec_ls(s: Seq<char>, i: int) -> Option<(int, CommandView)> {
    if 0 <= i && i + 2 <= s.len() && s[i] == 'l' && s[i + 1] == 's' {
        match spec_line_ending_one(s, i + 2) {
            Some(p) => {
                let (j, entries) = spec_entry_list(s, p);
                let e = spec_line_endings(s, j);
                if entries.len() == 0 {
                    Some((e, CommandView::Ls(entries)))
                } else if e > j {
                    Some((e, CommandView::Ls(entries)))
                } else {
                    None
                }
            },
            None => None,
        }
    } else {
        None
    }
}

/// A command line: `"$"`, spaces, then a `cd` or an `ls` block.
pub open spec fn spec_command(s: Seq<char>, i: int) -> Option<(int, CommandView)> {
    if 0 <= i < s.len() && s[i] == '$' {
        let sp = run_end(s, i + 1, CharClass::Space);
        if sp > i + 1 {
            match spec_cd(s, sp) {
                Some(r) => Some(r),
                None => spec_ls(s, sp),
            }
        } else {
            None
        }
    } else {
        None
    }
}

pub proof fn lemma_spec_command_advances(s: Seq<char>, i: int)
    requires
        0 <= i <= s.len(),
        spec_command(s, i) is Some,
    ensures
        i < spec_command(s, i)->Some_0.0 <= s.len(),
{
    lemma_run_end(s, i + 1, CharClass::Space);
    let sp = run_end(s, i + 1, CharClass::Space);
    if spec_cd(s, sp) is Some {
        lemma_run_end(s, sp + 2, CharClass::Space);
        let sp2 = run_end(s, sp + 2, CharClass::Space);
        lemma_spec_directory_advances(s, sp2);
        let j = spec_directory(s, sp2)->Some_0.0;
        lemma_spec_line_endings(s, j);
    } else {
        match spec_line_ending_one(s, sp + 2) {
            Some(p) => {
                lemma_spec_entry_list_bounds(s, p);
                let j = spec_entry_list(s, p).0;
                lemma_spec_line_endings(s, j);
            },
            None => (),
        }
    }
}

/// The sequence of commands a transcript yields: commands in input order,
/// cut short at the first text that fails to parse.
pub open spec fn spec_commands(s: Seq<char>) -> Seq<CommandView>
    decreases s.len()
    via spec_commands_decreases
{
    match spec_command(s, 0) {
        None => Seq::empty(),
        Some((j, c)) => seq![c] + spec_commands(s.skip(j)),
    }
}

#[via_fn]
proof fn spec_commands_decreases(s: Seq<char>) {
    if spec_command(s, 0) is Some {
        lemma_spec_command_advances(s, 0);
    }
}

impl Command {
    /// Parse one command at position `i`.
    fn parse_at(s: &str, i: usize, n: usize) -> (r: Option<(usize, Command)>)
        requires
            i <= n,
            n == s@.len(),
        ensures
            match r {
                Some((j, c)) => {
                    &&& spec_command(s@, i as int) == Some((j as int, c@))
                    &&& i < j <= n
                },
                None => spec_command(s@, i as int) is None,
            },
    {
        if i == n || !(s.get_char(i) == '$') {
            return None;
        }
        let sp: usize = scan_run(s, i + 1, n, CharClass::Space);
        if sp == i + 1 {
            return None;
        }
        match Self::parse_cd_at(s, sp, n) {
            Some(r) => Some(r),
            None => Self::parse_ls_at(s, sp, n),
        }
    }

    /// Parse a `cd` block at position `i` (after the `"$ "` prefix).
    fn parse_cd_at(s: &str, i: usize, n: usize) -> (r: Option<(usize, Command)>)
        requires
            i <= n,
            n == s@.len(),
        ensures
            match r {
                Some((j, c)) => {
                    &&& spec_cd(s@, i as int) == Some((j as int, c@))
                    &&& i < j <= n
                },
                None => spec_cd(s@, i as int) is None,
            },
    {
        if n - i < 2 || !(s.get_char(i) == 'c' && s.get_char(i + 1) == 'd') {
            return None;
        }
        let sp: usize = scan_run(s, i + 2, n, CharClass::Space);
        if sp == i + 2 {
            return None;
        }
        let (j, d): (usize, Directory) = match Directory::parse_at(s, sp, n) {
            Some(r) => r,
            None => {
                return None;
            },
        };
        let e: usize = scan_line_endings(s, j, n);
        if e == j {
            return None;
        }
        Some((e, Command::Cd(d)))
    }

    /// Parse an `ls` block at position `i` (after the `"$ "` prefix).
    fn parse_ls_at(s: &str, i: usize, n: usize) -> (r: Option<(usize, Command)>)
        requires
            i <= n,
            n == s@.len(),
        ensures
            match r {
                Some((j, c)) => {
                    &&& spec_ls(s@, i as int) == Some((j as int, c@))
                    &&& i < j <= n
                },
                None => spec_ls(s@, i as int) is None,
            },
    {
        if n - i < 2 || !(s.get_char(i) == 'l' && s.get_char(i + 1) == 's') {
            return None;
        }
        let p: usize = match line_ending_at(s, i + 2, n) {
            Some(p) => p,
            None => {
                return None;
            },
        };
        let (j, entries): (usize, Vec<DirectoryEntry>) = parse_entry_list(s, p, n);
        let e: usize = scan_line_endings(s, j, n);
        if entries.len() == 0 {
            proof {
                assert(entries@.map_values(|en: DirectoryEntry| en@).len() == 0);
            }
            return Some((e, Command::Ls(entries)));
        }
        if e == j {
            proof {
                assert(entries@.map_values(|en: DirectoryEntry| en@).len() > 0);
            }
            return None;
        }
        Some((e, Command::Ls(entries)))
    }

    /// Parse one command from the start of `input`, returning the unparsed
    /// remainder.
    pub fn parse<'a>(input: &'a str) -> (r: Option<(&'a str, Command)>)
        ensures
            match r {
                Some((rest, c)) => {
                    &&& spec_command(input@, 0) matches Some((j, cv))
                    &&& c@ == cv
                    &&& rest@ == input@.skip(j)
                },
                None => spec_command(input@, 0) is None,
            },
    {
        let n: usize = input.unicode_len();
        match Self::parse_at(input, 0, n) {
            Some((j, c)) => {
                let rest: &str = input.substring_char(j, n);
                proof {
                    assert(rest@ =~= input@.skip(spec_command(input@, 0)->Some_0.0));
                }
                Some((rest, c))
            },
            None => None,
        }
    }

    /// Produce the commands of a whole transcript one at a time.
    pub fn parse_multiple<'a>(input: &'a str) -> (r: CommandIterator<'a>)
        ensures
            r.input@ == input@,
    {
        CommandIterator { input }
    }
}

/// Yields one command after the other, stopping at the end of the input or
/// at the first text that fails to parse.
pub struct CommandIterator<'a> {
    /// The text that is still to be parsed.
    pub input: &'a str,
}

impl<'a> CommandIterator<'a> {
    /// The next command of the transcript, if the remaining text starts
    /// with one.
    pub fn next(&mut self) -> (r: Option<Command>)
        ensures
            match r {
                Some(c) => {
                    &&& spec_commands(old(self).input@) == seq![c@] + spec_commands(
                        final(self).input@,
                    )
                    &&& spec_command(old(self).input@, 0) matches Some((j, cv))
                    &&& cv == c@
                    &&& final(self).input@ == old(self).input@.skip(j)
                    &&& final(self).input@.len() < old(self).input@.len()
                },
                None => {
                    &&& spec_commands(old(self).input@) == Seq::<CommandView>::empty()
                    &&& final(self).input@ == old(self).input@
                },
            },
    {
        if self.input.is_empty() {
            return None;
        }
        match Command::parse(self.input) {
            Some((rest, command)) => {
                proof {
                    lemma_spec_command_advances(self.input@, 0);
                }
                self.input = rest;
                Some(command)
            },
            None => None,
        }
    }
}

/// A well-formed name token: it starts with a letter or separator and
/// holds only name characters.
pub open spec fn valid_name(nm: Seq<char>) -> bool {
    &&& nm.len() >= 1
    &&& is_name_start(nm[0])
    &&& forall|j: int| 0 <= j < nm.len() ==> in_class(CharClass::NameChar, #[trigger] nm[j])
}

/// A well-formed listed entry: its name is a name token.
pub open spec fn wf_entry(e: EntryView) -> bool {
    valid_name(e.name())
}

/// A command the canonical writing reads back exactly: names must be name
/// tokens, and a child target must not begin like the `..` parent target.
pub open spec fn wf_command(c: CommandView) -> bool {
    match c {
        CommandView::Cd(DirectoryView::Root) => true,
        CommandView::Cd(DirectoryView::Parent) => true,
        CommandView::Cd(DirectoryView::Child(nm)) => valid_name(nm) && !(nm.len() >= 2 && nm[0]
            == '.' && nm[1] == '.'),
        CommandView::Ls(entries) => forall|j: int|
            0 <= j < entries.len() ==> wf_entry(#[trigger] entries[j]),
    }
}

/// The canonical writing of one `ls` output line, line break included.
pub open spec fn render_entry(e: EntryView) -> Seq<char> {
    match e {
        EntryView::File { name, size } => dec_str(size as nat) + seq![' '] + name + seq!['\n'],
        EntryView::Directory { name } => "dir "@ + name + seq!['\n'],
    }
}

/// The canonical writing of the `ls` output lines, one after the other.
pub open spec fn render_entries(entries: Seq<EntryView>) -> Seq<char>
    decreases entries.len(),
{
    if entries.len() == 0 {
        Seq::empty()
    } else {
        render_entry(entries[0]) + render_entries(entries.skip(1))
    }
}

/// The canonical writing of one command block.
pub open spec fn render_command(c: CommandView) -> Seq<char> {
    match c {
        CommandView::Cd(DirectoryView::Root) => "$ cd /\n"@,
        CommandView::Cd(DirectoryView::Parent) => "$ cd ..\n"@,
        CommandView::Cd(DirectoryView::Child(nm)) => "$ cd "@ + nm + seq!['\n'],
        CommandView::Ls(entries) => "$ ls\n"@ + render_entries(entries),
    }
}

/// The canonical writing of a whole transcript.
pub open spec fn render_commands(cs: Seq<CommandView>) -> Seq<char>
    decreases cs.len(),
{
    if cs.len() == 0 {
        Seq::empty()
    } else {
        render_command(cs[0]) + render_commands(cs.skip(1))
    }
}

proof fn lemma_has_at_index(s: Seq<char>, i: int, t: Seq<char>, x: int)
    requires
        has_at(s, i, t),
        0 <= x < t.len(),
    ensures
        s[i + x] == t[x],
{
    assert(s.subrange(i, i + t.len() as int)[x] == t[x]);
}

/// A name token embedded in a larger text, bounded by a non-name
/// character, scans back to exactly itself.
proof fn lemma_name_at(s: Seq<char>, i: int, nm: Seq<char>)
    requires
        has_at(s, i, nm),
        valid_name(nm),
        i + nm.len() < s.len(),
        !in_class(CharClass::NameChar, s[i + nm.len()]),
    ensures
        spec_name(s, i) == Some((i + nm.len(), nm)),
{
    assert forall|j: int| i <= j < i + nm.len() implies in_class(CharClass::NameChar, s[j]) by {
        lemma_has_at_index(s, i, nm, j - i);
    }
    lemma_run_end_is(s, i, i + nm.len() as int, CharClass::NameChar);
    lemma_has_at_index(s, i, nm, 0);
    assert(s.subrange(i, i + nm.len() as int) =~= nm);
}

/// A decimal number embedded in a larger text, bounded by something that
/// is neither digit nor separator, scans back to exactly its value.
proof fn lemma_decimal_at(s: Seq<char>, i: int, v: u64)
    requires
        has_at(s, i, dec_str(v as nat)),
        i + dec_str(v as nat).len() < s.len(),
        !in_class(CharClass::DigitOrSep, s[i + dec_str(v as nat).len()]),
    ensures
        spec_decimal_u64(s, i) == Some((i + dec_str(v as nat).len(), v)),
{
    let t = dec_str(v as nat);
    lemma_dec_str_digits(v as nat);
    assert forall|j: int| i <= j < i + t.len() implies in_class(CharClass::DigitOrSep, s[j]) by {
        lemma_has_at_index(s, i, t, j - i);
    }
    lemma_run_end_is(s, i, i + t.len() as int, CharClass::DigitOrSep);
    lemma_has_at_index(s, i, t, 0);
    assert forall|x: int| 0 <= x < t.len() implies #[trigger] s[i + x] == t[0 + x] by {
        lemma_has_at_index(s, i, t, x);
    }
    lemma_digits_val_agree(s, i, t, 0, t.len() as int);
    lemma_dec_str_value(v as nat);
}

/// One rendered entry line, embedded in a larger text, parses back to
/// exactly that entry, stopping just before its line break.
proof fn lemma_entry_at(s: Seq<char>, i: int, e: EntryView)
    requires
        has_at(s, i, render_entry(e)),
        wf_entry(e),
    ensures
        spec_entry(s, i) == Some((i + render_entry(e).len() - 1, e)),
{
    let t = render_entry(e);
    match e {
        EntryView::File { name, size } => {
            let d = dec_str(size as nat);
            let dl = d.len() as int;
            lemma_dec_str_digits(size as nat);
            assert(has_at(s, i, d)) by {
                assert forall|x: int| 0 <= x < dl implies s.subrange(i, i + dl)[x] == d[x] by {
                    lemma_has_at_index(s, i, t, x);
                }
                assert(s.subrange(i, i + dl) =~= d);
            }
            lemma_has_at_index(s, i, t, dl);
            assert(s[i + dl] == ' ');
            lemma_decimal_at(s, i, size);
            lemma_has_at_index(s, i, t, dl + 1);
            assert(s[i + dl + 1] == name[0]);
            lemma_run_end_is(s, i + dl, i + dl + 1, CharClass::Space);
            assert(has_at(s, i + dl + 1, name)) by {
                assert forall|x: int|
                    0 <= x < name.len() implies s.subrange(
                    i + dl + 1,
                    i + dl + 1 + name.len() as int,
                )[x] == name[x] by {
                    lemma_has_at_index(s, i, t, dl + 1 + x);
                }
                assert(s.subrange(i + dl + 1, i + dl + 1 + name.len() as int) =~= name);
            }
            lemma_has_at_index(s, i, t, t.len() as int - 1);
            assert(s[i + t.len() - 1] == '\n');
            lemma_name_at(s, i + dl + 1, name);
        },
        EntryView::Directory { name } => {
            reveal_strlit("dir ");
            lemma_has_at_index(s, i, t, 0);
            lemma_has_at_index(s, i, t, 1);
            lemma_has_at_index(s, i, t, 2);
            lemma_has_at_index(s, i, t, 3);
            assert(s[i] == 'd' && s[i + 1] == 'i' && s[i + 2] == 'r' && s[i + 3] == ' ');
            assert(spec_decimal_u64(s, i) is None);
            assert(spec_file_entry(s, i) is None);
            lemma_has_at_index(s, i, t, 4);
            assert(s[i + 4] == name[0]);
            lemma_run_end_is(s, i + 3, i + 4, CharClass::Space);
            assert(has_at(s, i + 4, name)) by {
                assert forall|x: int|
                    0 <= x < name.len() implies s.subrange(i + 4, i + 4 + name.len() as int)[x]
                    == name[x] by {
                    lemma_has_at_index(s, i, t, 4 + x);
                }
                assert(s.subrange(i + 4, i + 4 + name.len() as int) =~= name);
            }
            lemma_has_at_index(s, i, t, t.len() as int - 1);
            assert(s[i + t.len() - 1] == '\n');
            lemma_name_at(s, i + 4, name);
        },
    }
}

/// A rendered block of entry lines ends with a line break.
proof fn lemma_render_entries_last(entries: Seq<EntryView>)
    requires
        entries.len() > 0,
    ensures
        render_entries(entries).len() > 0,
        render_entries(entries).last() == '\n',
    decreases entries.len(),
{
    if entries.len() == 1 {
        assert(render_entries(entries.skip(1)) =~= Seq::<char>::empty());
        match entries[0] {
            EntryView::File { name, size } => (),
            EntryView::Directory { name } => (),
        }
    } else {
        lemma_render_entries_last(entries.skip(1));
    }
}

/// Rendered entry lines, embedded in a text and followed by a command
/// line or the end, scan back to exactly those entries.
proof fn lemma_entries_at(s: Seq<char>, i: int, entries: Seq<EntryView>)
    requires
        has_at(s, i, render_entries(entries)),
        forall|j: int| 0 <= j < entries.len() ==> wf_entry(#[trigger] entries[j]),
        i + render_entries(entries).len() == s.len() || s[i + render_entries(entries).len()]
            == '$',
    ensures
        spec_entry_list(s, i) == if entries.len() == 0 {
            (i, Seq::<EntryView>::empty())
        } else {
            ((i + render_entries(entries).len() - 1) as int, entries)
        },
    decreases entries.len(),
{
    let end = i + render_entries(entries).len();
    if entries.len() == 0 {
        assert(spec_entry(s, i) is None) by {
            if i < s.len() {
                assert(s[i] == '$');
                reveal_strlit("dir ");
            }
        }
    } else {
        let e0 = entries[0];
        let et = render_entry(e0);
        let q = i + et.len() - 1;
        assert(has_at(s, i, et)) by {
            assert forall|x: int| 0 <= x < et.len() implies s.subrange(i, i + et.len() as int)[x]
                == et[x] by {
                lemma_has_at_index(s, i, render_entries(entries), x);
            }
            assert(s.subrange(i, i + et.len() as int) =~= et);
        }
        lemma_entry_at(s, i, e0);
        lemma_has_at_index(s, i, render_entries(entries), et.len() as int - 1);
        assert(s[q] == '\n');
        assert(spec_line_ending_one(s, q) == Some(q + 1));
        let rest = entries.skip(1);
        assert(has_at(s, q + 1, render_entries(rest))) by {
            assert forall|x: int|
                0 <= x < render_entries(rest).len() implies s.subrange(
                q + 1,
                q + 1 + render_entries(rest).len() as int,
            )[x] == render_entries(rest)[x] by {
                lemma_has_at_index(s, i, render_entries(entries), et.len() + x);
            }
            assert(s.subrange(q + 1, q + 1 + render_entries(rest).len() as int) =~= render_entries(
                rest,
            ));
        }
        lemma_entries_at(s, q + 1, rest);
        if rest.len() == 0 {
            assert(spec_entry_list(s, q + 1) == (q + 1, Seq::<EntryView>::empty()));
            assert(seq![e0] =~= entries);
        } else {
            assert(seq![e0] + rest =~= entries);
        }
    }
}

/// One rendered command block, embedded in a text and followed by another
/// command line or the end, parses back to exactly that command.
proof fn lemma_command_at(s: Seq<char>, i: int, c: CommandView)
    requires
        has_at(s, i, render_command(c)),
        wf_command(c),
        i + render_command(c).len() == s.len() || s[i + render_command(c).len()] == '$',
    ensures
        spec_command(s, i) == Some((i + render_command(c).len(), c)),
{
    let t = render_command(c);
    let end = i + t.len();
    reveal_strlit("$ cd /\n");
    reveal_strlit("$ cd ..\n");
    reveal_strlit("$ cd ");
    reveal_strlit("$ ls\n");
    lemma_has_at_index(s, i, t, 0);
    lemma_has_at_index(s, i, t, 1);
    lemma_has_at_index(s, i, t, 2);
    lemma_has_at_index(s, i, t, 3);
    assert(s[i] == '$' && s[i + 1] == ' ');
    lemma_run_end_is(s, i + 1, i + 2, CharClass::Space);
    match c {
        CommandView::Cd(target) => {
            assert(s[i + 2] == 'c' && s[i + 3] == 'd');
            lemma_has_at_index(s, i, t, 4);
            lemma_has_at_index(s, i, t, 5);
            assert(s[i + 4] == ' ');
            lemma_run_end_is(s, i + 4, i + 5, CharClass::Space);
            match target {
                DirectoryView::Root => {
                    assert(s[i + 5] == '/');
                    lemma_has_at_index(s, i, t, 6);
                    assert(s[i + 6] == '\n');
                    assert(spec_directory(s, i + 5) == Some((i + 6, DirectoryView::Root)));
                    assert(spec_line_endings(s, i + 7) == i + 7);
                    assert(spec_line_endings(s, i + 6) == i + 7);
                },
                DirectoryView::Parent => {
                    lemma_has_at_index(s, i, t, 6);
                    lemma_has_at_index(s, i, t, 7);
                    assert(s[i + 5] == '.' && s[i + 6] == '.');
                    assert(s[i + 7] == '\n');
                    assert(spec_directory(s, i + 5) == Some((i + 7, DirectoryView::Parent)));
                    assert(spec_line_endings(s, i + 8) == i + 8);
                    assert(spec_line_endings(s, i + 7) == i + 8);
                },
                DirectoryView::Child(nm) => {
                    lemma_has_at_index(s, i, t, 5);
                    assert(s[i + 5] == nm[0]);
                    assert(s[i + 5] != '/');
                    lemma_has_at_index(s, i, t, 6);
                    if nm.len() == 1 {
                        assert(s[i + 6] == '\n');
                    } else {
                        assert(s[i + 6] == nm[1]);
                    }
                    assert(!(s[i + 5] == '.' && s[i + 6] == '.'));
                    assert(has_at(s, i + 5, nm)) by {
                        assert forall|x: int|
                            0 <= x < nm.len() implies s.subrange(i + 5, i + 5 + nm.len() as int)[
                            x] == nm[x] by {
                            lemma_has_at_index(s, i, t, 5 + x);
                        }
                        assert(s.subrange(i + 5, i + 5 + nm.len() as int) =~= nm);
                    }
                    lemma_has_at_index(s, i, t, t.len() as int - 1);
                    assert(s[end - 1] == '\n');
                    lemma_name_at(s, i + 5, nm);
                    assert(spec_directory(s, i + 5) == Some((end - 1, DirectoryView::Child(nm))));
                    assert(spec_line_endings(s, end) == end);
                    assert(spec_line_endings(s, end - 1) == end);
                },
            }
        },
        CommandView::Ls(entries) => {
            assert(s[i + 2] == 'l' && s[i + 3] == 's');
            assert(spec_cd(s, i + 2) is None);
            lemma_has_at_index(s, i, t, 4);
            assert(s[i + 4] == '\n');
            assert(spec_line_ending_one(s, i + 4) == Some(i + 5));
            assert(has_at(s, i + 5, render_entries(entries))) by {
                assert forall|x: int|
                    0 <= x < render_entries(entries).len() implies s.subrange(
                    i + 5,
                    i + 5 + render_entries(entries).len() as int,
                )[x] == render_entries(entries)[x] by {
                    lemma_has_at_index(s, i, t, 5 + x);
                }
                assert(s.subrange(i + 5, i + 5 + render_entries(entries).len() as int)
                    =~= render_entries(entries));
            }
            lemma_entries_at(s, i + 5, entries);
            if entries.len() == 0 {
                assert(spec_line_endings(s, i + 5) == i + 5);
            } else {
                lemma_render_entries_last(entries);
                lemma_has_at_index(s, i, t, t.len() as int - 1);
                assert(s[end - 1] == '\n');
                assert(spec_line_endings(s, end) == end);
                assert(spec_line_endings(s, end - 1) == end);
            }
        },
    }
    let r = spec_command(s, i);
    assert(r is Some);
    assert(r->Some_0.0 == i + render_command(c).len());
    assert(r->Some_0.1 =~~= c);
}

/// Every rendered command block starts with the prompt.
proof fn lemma_render_command_first(c: CommandView)
    ensures
        render_command(c).len() >= 1,
        render_command(c)[0] == '$',
{
    reveal_strlit("$ cd /\n");
    reveal_strlit("$ cd ..\n");
    reveal_strlit("$ cd ");
    reveal_strlit("$ ls\n");
    match c {
        CommandView::Cd(DirectoryView::Root) => (),
        CommandView::Cd(DirectoryView::Parent) => (),
        CommandView::Cd(DirectoryView::Child(nm)) => (),
        CommandView::Ls(entries) => (),
    }
}

/// PARSER ROUND TRIP: writing any sequence of well-formed `cd` and `ls`
/// blocks in the canonical form and parsing the text back yields exactly
/// that sequence — one command per block, every name and size kept.
#[verifier::rlimit(60)]
pub proof fn lemma_parse_render_roundtrip(cs: Seq<CommandView>)
    requires
        forall|j: int| 0 <= j < cs.len() ==> wf_command(#[trigger] cs[j]),
    ensures
        spec_commands(render_commands(cs)) == cs,
    decreases cs.len(),
{
    let s = render_commands(cs);
    if cs.len() == 0 {
        assert(spec_command(s, 0) is None);
        assert(spec_commands(s) =~= cs);
    } else {
        let c0 = cs[0];
        let t = render_command(c0);
        let rest = render_commands(cs.skip(1));
        assert(s == t + rest);
        assert(has_at(s, 0, t)) by {
            assert(s.subrange(0, t.len() as int) =~= t);
        }
        if rest.len() == 0 {
            assert(t.len() == s.len());
        } else {
            assert(cs.skip(1).len() > 0);
            assert(rest == render_command(cs.skip(1)[0]) + render_commands(cs.skip(1).skip(1)));
            lemma_render_command_first(cs.skip(1)[0]);
            assert(s[t.len() as int] == rest[0]);
            assert(rest[0] == '$');
        }
        lemma_command_at(s, 0, c0);
        lemma_spec_command_advances(s, 0);
        assert(spec_commands(s) == seq![c0] + spec_commands(s.skip(t.len() as int)));
        assert(s.skip(t.len() as int) =~= rest);
        lemma_parse_render_roundtrip(cs.skip(1));
        assert(seq![c0] + cs.skip(1) =~= cs);
    }
}

} // verus!
