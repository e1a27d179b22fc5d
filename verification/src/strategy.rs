//! The rock-paper-scissors strategy guide, read as "opponent's move and
//! our move": each round scores the chosen shape plus the outcome.

use vstd::prelude::*;
use crate::text::{find_char, scan_to_char, spec_lines, split_lines};
use std::str::FromStr;

verus! {

#[derive(Debug, PartialEq, Eq, Clone, Copy)]
pub enum StrategyError {
    /// A token is not one of the known move letters.
    UnknownMove,
    /// A line does not hold exactly two tokens.
    BadRound,
}

#[derive(Debug, PartialEq, Eq, Structural)]
pub enum Move {
    Rock,
    Paper,
    Scissors,
}

/// The score of a shape: rock 1, paper 2, scissors 3.
pub open spec fn spec_move_score(m: Move) -> int {
    match m {
        Move::Rock => 1,
        Move::Paper => 2,
        Move::Scissors => 3,
    }
}

/// The move a one-letter token denotes: `A`/`X` rock, `B`/`Y` paper,
/// `C`/`Z` scissors.
pub open spec fn spec_parse_move(s: Seq<char>) -> Option<Move> {
    if s.len() == 1 && (s[0] == 'A' || s[0] == 'X') {
        Some(Move::Rock)
    } else if s.len() == 1 && (s[0] == 'B' || s[0] == 'Y') {
        Some(Move::Paper)
    } else if s.len() == 1 && (s[0] == 'C' || s[0] == 'Z') {
        Some(Move::Scissors)
    } else {
        None
    }
}

impl Move {
    /// The score the shape itself contributes to a round.
    pub fn score(&self) -> (r: i32)
        ensures
            r == spec_move_score(*self),
    {
        match self {
            Move::Rock => 1,
            Move::Paper => 2,
            Move::Scissors => 3,
        }
    }

    /// Parse a one-letter move token.
    pub fn parse_move(s: &str) -> (r: Result<Move, StrategyError>)
        ensures
            r == match spec_parse_move(s@) {
                Some(m) => Ok::<Move, StrategyError>(m),
                None => Err(StrategyError::UnknownMove),
            },
    {
        let n: usize = s.unicode_len();
        if n != 1 {
            return Err(StrategyError::UnknownMove);
        }
        match s.get_char(0) {
            'A' | 'X' => Ok(Move::Rock),
            'B' | 'Y' => Ok(Move::Paper),
            'C' | 'Z' => Ok(Move::Scissors),
            _ => Err(StrategyError::UnknownMove),
        }
    }
}

impl FromStr for Move {
    type Err = StrategyError;

    fn from_str(s: &str) -> Result<Move, StrategyError> {
        Move::parse_move(s)
    }
}

/// One round: what the opponent plays and what we play.
#[derive(Debug, PartialEq, Eq, Structural)]
pub struct Round {
    pub opponent: Move,
    pub ours: Move,
}

/// The score of a round: 6 for a win, 3 for a draw, 0 for a loss, plus our
/// shape's score.
pub open spec fn spec_round_score(r: Round) -> int {
    let outcome: int = match (r.opponent, r.ours) {
        (Move::Rock, Move::Paper) => 6,
        (Move::Paper, Move::Scissors) => 6,
        (Move::Scissors, Move::Rock) => 6,
        (Move::Rock, Move::Rock) => 3,
        (Move::Paper, Move::Paper) => 3,
        (Move::Scissors, Move::Scissors) => 3,
        _ => 0,
    };
    outcome + spec_move_score(r.ours)
}

/// What a guide line denotes: two one-letter moves separated by a single
/// space.
pub open spec fn spec_parse_round(s: Seq<char>) -> Option<Round> {
    let k = find_char(s, 0, ' ');
    if k == s.len() {
        None
    } else if find_char(s, k + 1, ' ') != s.len() {
        None
    } else {
        match (spec_parse_move(s.take(k)), spec_parse_move(s.skip(k + 1))) {
            (Some(opponent), Some(ours)) => Some(Round { opponent, ours }),
            _ => None,
        }
    }
}

/// The error a malformed guide line draws: without exactly two tokens it
/// is a bad round, otherwise some token is not a move.
pub open spec fn spec_round_error(s: Seq<char>) -> StrategyError {
    let k = find_char(s, 0, ' ');
    if k == s.len() || find_char(s, k + 1, ' ') != s.len() {
        StrategyError::BadRound
    } else {
        StrategyError::UnknownMove
    }
}

impl Round {
    /// The round's score.
    pub fn score(&self) -> (r: i32)
        ensures
            r == spec_round_score(*self),
    {
        let outcome_score: i32 = match (&self.opponent, &self.ours) {
            (Move::Rock, Move::Paper) | (Move::Paper, Move::Scissors)
            | (Move::Scissors, Move::Rock) => 6,
            (Move::Rock, Move::Rock) | (Move::Paper, Move::Paper)
            | (Move::Scissors, Move::Scissors) => 3,
            _ => 0,
        };
        outcome_score + self.ours.score()
    }

    /// Parse one guide line.
    pub fn parse_round(s: &str) -> (r: Result<Round, StrategyError>)
        ensures
            r == match spec_parse_round(s@) {
                Some(round) => Ok::<Round, StrategyError>(round),
                None => Err(spec_round_error(s@)),
            },
    {
        let n: usize = s.unicode_len();
        let k: usize = scan_to_char(s, 0, n, ' ');
        if k == n {
            return Err(StrategyError::BadRound);
        }
        let k2: usize = scan_to_char(s, k + 1, n, ' ');
        if k2 != n {
            return Err(StrategyError::BadRound);
        }
        let a: &str = s.substring_char(0, k);
        let b: &str = s.substring_char(k + 1, n);
        proof {
            assert(a@ =~= s@.take(k as int));
            assert(b@ =~= s@.skip(k as int + 1));
        }
        let opponent: Move = match Move::parse_move(a) {
            Ok(opponent) => opponent,
            Err(e) => {
                return Err(e);
            },
        };
        let ours: Move = match Move::parse_move(b) {
            Ok(ours) => ours,
            Err(e) => {
                return Err(e);
            },
        };
        Ok(Round { opponent, ours })
    }
}

impl FromStr for Round {
    type Err = StrategyError;

    fn from_str(s: &str) -> Result<Round, StrategyError> {
        Round::parse_round(s)
    }
}

/// The rounds a well-formed guide denotes, one per line.
pub open spec fn spec_parse_guide(lines: Seq<Seq<char>>) -> Option<Seq<Round>>
    decreases lines.len(),
{
    if lines.len() == 0 {
        Some(Seq::empty())
    } else {
        match (spec_parse_guide(lines.drop_last()), spec_parse_round(lines.last())) {
            (Some(rounds), Some(round)) => Some(rounds.push(round)),
            _ => None,
        }
    }
}

proof fn lemma_parse_guide_none(lines: Seq<Seq<char>>, k: int)
    requires
        0 <= k < lines.len(),
        spec_parse_round(lines[k]) is None,
    ensures
        spec_parse_guide(lines) is None,
    decreases lines.len(),
{
    if k < lines.len() - 1 {
        lemma_parse_guide_none(lines.drop_last(), k);
    }
}

/// Parse the whole guide, one round per line.
pub fn parse_strategy_guide(s: &str) -> (r: Result<Vec<Round>, StrategyError>)
    ensures
        match spec_parse_guide(spec_lines(s@)) {
            Some(rounds) => r matches Ok(v) && v@ == rounds,
            None => r is Err,
        },
{
    let lines: Vec<String> = split_lines(s);
    let ghost gl = spec_lines(s@);
    let mut rounds: Vec<Round> = Vec::new();
    let mut i: usize = 0;
    proof {
        assert(gl.take(0) =~= Seq::<Seq<char>>::empty());
        assert(spec_parse_guide(gl.take(0)) == Some(Seq::<Round>::empty()));
    }
    while i < lines.len()
        invariant
            lines.deep_view() == gl,
            gl == spec_lines(s@),
            0 <= i <= gl.len(),
            spec_parse_guide(gl.take(i as int)) == Some(rounds@),
        decreases gl.len() - i,
    {
        proof {
            assert(lines@[i as int]@ == gl[i as int]);
            assert(gl.take(i as int + 1).drop_last() =~= gl.take(i as int));
            assert(gl.take(i as int + 1).last() == gl[i as int]);
        }
        let round: Round = match Round::parse_round(lines[i].as_str()) {
            Ok(round) => round,
            Err(e) => {
                proof {
                    lemma_parse_guide_none(gl, i as int);
                }
                return Err(e);
            },
        };
        rounds.push(round);
        i = i + 1;
    }
    proof {
        assert(gl.take(gl.len() as int) =~= gl);
    }
    Ok(rounds)
}

/// Total score of a guide.
pub open spec fn spec_game_score(rounds: Seq<Round>) -> int
    decreases rounds.len(),
{
    if rounds.len() == 0 {
        0
    } else {
        spec_game_score(rounds.drop_last()) + spec_round_score(rounds.last())
    }
}

proof fn lemma_game_score_bounds(rounds: Seq<Round>)
    ensures
        0 <= spec_game_score(rounds) <= 9 * rounds.len(),
    decreases rounds.len(),
{
    if rounds.len() > 0 {
        lemma_game_score_bounds(rounds.drop_last());
    }
}

/// The whole game's score: the sum over the rounds.
pub fn game_score(guide: &[Round]) -> (r: i32)
    requires
        9 * guide@.len() <= i32::MAX,
    ensures
        r == spec_game_score(guide@),
{
    let ghost gv = guide@;
    let mut total: i32 = 0;
    let mut i: usize = 0;
    proof {
        assert(gv.take(0) =~= Seq::<Round>::empty());
    }
    while i < guide.len()
        invariant
            gv == guide@,
            9 * gv.len() <= i32::MAX,
            0 <= i <= gv.len(),
            total == spec_game_score(gv.take(i as int)),
        decreases gv.len() - i,
    {
        proof {
            assert(gv.take(i as int + 1).drop_last() =~= gv.take(i as int));
            assert(gv.take(i as int + 1).last() == gv[i as int]);
            lemma_game_score_bounds(gv.take(i as int + 1));
            lemma_game_score_bounds(gv.take(i as int));
        }
        total = total + guide[i].score();
        i = i + 1;
    }
    proof {
        assert(gv.take(gv.len() as int) =~= gv);
    }
    total
}

} // verus!
