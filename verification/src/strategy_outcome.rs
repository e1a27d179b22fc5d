//! The rock-paper-scissors strategy guide, read as "opponent's move and
//! required outcome": our move is derived from the outcome we must reach.

use vstd::prelude::*;
use crate::text::{find_char, scan_to_char, spec_lines, split_lines};
use std::str::FromStr;

verus! {

#[derive(Debug, PartialEq, Eq, Clone, Copy)]
pub enum OutcomeStrategyError {
    /// A token is not one of the known move letters.
    UnknownMove,
    /// A token is not one of the known outcome letters.
    UnknownOutcome,
    /// A line does not hold exactly two tokens.
    BadRound,
}

#[derive(Debug, PartialEq, Eq, Structural)]
pub enum Move {
    Rock,
    Paper,
    Scissors,
}

/// The score of a shape: rock 1, paper 2, scissors 3.
pub open spec fn spec_move_score(m: Move) -> int {
    match m {
        Move::Rock => 1,
        Move::Paper => 2,
        Move::Scissors => 3,
    }
}

/// The move a one-letter token denotes: here only `A`, `B`, `C` are moves.
pub open spec fn spec_parse_move(s: Seq<char>) -> Option<Move> {
    if s.len() == 1 && s[0] == 'A' {
        Some(Move::Rock)
    } else if s.len() == 1 && s[0] == 'B' {
        Some(Move::Paper)
    } else if s.len() == 1 && s[0] == 'C' {
        Some(Move::Scissors)
    } else {
        None
    }
}

impl Move {
    /// The score the shape itself contributes to a round.
    pub fn score(&self) -> (r: i32)
        ensures
            r == spec_move_score(*self),
    {
        match self {
            Move::Rock => 1,
            Move::Paper => 2,
            Move::Scissors => 3,
        }
    }

    /// Parse a one-letter move token.
    pub fn parse_move(s: &str) -> (r: Result<Move, OutcomeStrategyError>)
        ensures
            r == match spec_parse_move(s@) {
                Some(m) => Ok::<Move, OutcomeStrategyError>(m),
                None => Err(OutcomeStrategyError::UnknownMove),
            },
    {
        let n: usize = s.unicode_len();
        if n != 1 {
            return Err(OutcomeStrategyError::UnknownMove);
        }
        match s.get_char(0) {
            'A' => Ok(Move::Rock),
            'B' => Ok(Move::Paper),
            'C' => Ok(Move::Scissors),
            _ => Err(OutcomeStrategyError::UnknownMove),
        }
    }
}

impl FromStr for Move {
    type Err = OutcomeStrategyError;

    fn from_str(s: &str) -> Result<Move, OutcomeStrategyError> {
        Move::parse_move(s)
    }
}

#[derive(Debug, PartialEq, Eq, Structural)]
pub enum Outcome {
    Loss,
    Tie,
    Win,
}

/// The score of an outcome: loss 0, tie 3, win 6.
pub open spec fn spec_outcome_score(o: Outcome) -> int {
    match o {
        Outcome::Loss => 0,
        Outcome::Tie => 3,
        Outcome::Win => 6,
    }
}

/// The outcome a one-letter token denotes: `X` loss, `Y` tie, `Z` win.
pub open spec fn spec_parse_outcome(s: Seq<char>) -> Option<Outcome> {
    if s.len() == 1 && s[0] == 'X' {
        Some(Outcome::Loss)
    } else if s.len() == 1 && s[0] == 'Y' {
        Some(Outcome::Tie)
    } else if s.len() == 1 && s[0] == 'Z' {
        Some(Outcome::Win)
    } else {
        None
    }
}

/// The move that reaches this outcome against the opponent's move.
pub open spec fn spec_calc_move(o: Outcome, opponent: Move) -> Move {
    match (o, opponent) {
        (Outcome::Loss, Move::Rock) => Move::Scissors,
        (Outcome::Loss, Move::Paper) => Move::Rock,
        (Outcome::Loss, Move::Scissors) => Move::Paper,
        (Outcome::Tie, m) => m,
        (Outcome::Win, Move::Rock) => Move::Paper,
        (Outcome::Win, Move::Paper) => Move::Scissors,
        (Outcome::Win, Move::Scissors) => Move::Rock,
    }
}

impl Outcome {
    /// The move we must play for this outcome against `opponent`.
    pub fn calc_move(&self, opponent: &Move) -> (r: Move)
        ensures
            r == spec_calc_move(*self, *opponent),
    {
        match (self, opponent) {
            (Outcome::Loss, Move::Rock) => Move::Scissors,
            (Outcome::Loss, Move::Paper) => Move::Rock,
            (Outcome::Loss, Move::Scissors) => Move::Paper,
            (Outcome::Tie, Move::Rock) => Move::Rock,
            (Outcome::Tie, Move::Paper) => Move::Paper,
            (Outcome::Tie, Move::Scissors) => Move::Scissors,
            (Outcome::Win, Move::Rock) => Move::Paper,
            (Outcome::Win, Move::Paper) => Move::Scissors,
            (Outcome::Win, Move::Scissors) => Move::Rock,
        }
    }

    /// The score the outcome itself contributes to a round.
    pub fn score(&self) -> (r: i32)
        ensures
            r == spec_outcome_score(*self),
    {
        match self {
            Outcome::Loss => 0,
            Outcome::Tie => 3,
            Outcome::Win => 6,
        }
    }

    /// Parse a one-letter outcome token.
    pub fn parse_outcome(s: &str) -> (r: Result<Outcome, OutcomeStrategyError>)
        ensures
            r == match spec_parse_outcome(s@) {
                Some(o) => Ok::<Outcome, OutcomeStrategyError>(o),
                None => Err(OutcomeStrategyError::UnknownOutcome),
            },
    {
        let n: usize = s.unicode_len();
        if n != 1 {
            return Err(OutcomeStrategyError::UnknownOutcome);
        }
        match s.get_char(0) {
            'X' => Ok(Outcome::Loss),
            'Y' => Ok(Outcome::Tie),
            'Z' => Ok(Outcome::Win),
            _ => Err(OutcomeStrategyError::UnknownOutcome),
        }
    }
}

impl FromStr for Outcome {
    type Err = OutcomeStrategyError;

    fn from_str(s: &str) -> Result<Outcome, OutcomeStrategyError> {
        Outcome::parse_outcome(s)
    }
}

/// One round: what the opponent plays and how the round must end.
#[derive(Debug, PartialEq, Eq, Structural)]
pub struct Round {
    pub opponent: Move,
    pub outcome: Outcome,
}

/// The score of a round: the derived move's score plus the outcome's.
pub open spec fn spec_round_score(r: Round) -> int {
    spec_move_score(spec_calc_move(r.outcome, r.opponent)) + spec_outcome_score(r.outcome)
}

/// What a guide line denotes: a move and an outcome separated by a single
/// space.
pub open spec fn spec_parse_round(s: Seq<char>) -> Option<Round> {
    let k = find_char(s, 0, ' ');
    if k == s.len() {
        None
    } else if find_char(s, k + 1, ' ') != s.len() {
        None
    } else {
        match (spec_parse_move(s.take(k)), spec_parse_outcome(s.skip(k + 1))) {
            (Some(opponent), Some(outcome)) => Some(Round { opponent, outcome }),
            _ => None,
        }
    }
}

/// The error a malformed guide line draws: without exactly two tokens it
/// is a bad round; otherwise the first token must be a move and the
/// second an outcome.
pub open spec fn spec_round_error(s: Seq<char>) -> OutcomeStrategyError {
    let k = find_char(s, 0, ' ');
    if k == s.len() || find_char(s, k + 1, ' ') != s.len() {
        OutcomeStrategyError::BadRound
    } else if spec_parse_move(s.take(k)) is None {
        OutcomeStrategyError::UnknownMove
    } else {
        OutcomeStrategyError::UnknownOutcome
    }
}

impl Round {
    /// The round's score.
    pub fn score(&self) -> (r: i32)
        ensures
            r == spec_round_score(*self),
    {
        let our_move: Move = self.outcome.calc_move(&self.opponent);
        our_move.score() + self.outcome.score()
    }

    /// Parse one guide line.
    pub fn parse_round(s: &str) -> (r: Result<Round, OutcomeStrategyError>)
        ensures
            r == match spec_parse_round(s@) {
                Some(round) => Ok::<Round, OutcomeStrategyError>(round),
                None => Err(spec_round_error(s@)),
            },
    {
        let n: usize = s.unicode_len();
        let k: usize = scan_to_char(s, 0, n, ' ');
        if k == n {
            return Err(OutcomeStrategyError::BadRound);
        }
        let k2: usize = scan_to_char(s, k + 1, n, ' ');
        if k2 != n {
            return Err(OutcomeStrategyError::BadRound);
        }
        let a: &str = s.substring_char(0, k);
        let b: &str = s.substring_char(k + 1, n);
        proof {
            assert(a@ =~= s@.take(k as int));
            assert(b@ =~= s@.skip(k as int + 1));
        }
        let opponent: Move = match Move::parse_move(a) {
            Ok(opponent) => opponent,
            Err(e) => {
                return Err(e);
            },
        };
        let outcome: Outcome = match Outcome::parse_outcome(b) {
            Ok(outcome) => outcome,
            Err(e) => {
                return Err(e);
            },
        };
        Ok(Round { opponent, outcome })
    }
}

impl FromStr for Round {
    type Err = OutcomeStrategyError;

    fn from_str(s: &str) -> Result<Round, OutcomeStrategyError> {
        Round::parse_round(s)
    }
}

/// The rounds a well-formed guide denotes, one per line.
pub open spec fn spec_parse_guide(lines: Seq<Seq<char>>) -> Option<Seq<Round>>
    decreases lines.len(),
{
    if lines.len() == 0 {
        Some(Seq::empty())
    } else {
        match (spec_parse_guide(lines.drop_last()), spec_parse_round(lines.last())) {
            (Some(rounds), Some(round)) => Some(rounds.push(round)),
            _ => None,
        }
    }
}

proof fn lemma_parse_guide_none(lines: Seq<Seq<char>>, k: int)
    requires
        0 <= k < lines.len(),
        spec_parse_round(lines[k]) is None,
    ensures
        spec_parse_guide(lines) is None,
    decreases lines.len(),
{
    if k < lines.len() - 1 {
        lemma_parse_guide_none(lines.drop_last(), k);
    }
}

/// Parse the whole guide, one round per line.
pub fn parse_strategy_guide(s: &str) -> (r: Result<Vec<Round>, OutcomeStrategyError>)
    ensures
        match spec_parse_guide(spec_lines(s@)) {
            Some(rounds) => r matches Ok(v) && v@ == rounds,
            None => r is Err,
        },
{
    let lines: Vec<String> = split_lines(s);
    let ghost gl = spec_lines(s@);
    let mut rounds: Vec<Round> = Vec::new();
    let mut i: usize = 0;
    proof {
        assert(gl.take(0) =~= Seq::<Seq<char>>::empty());
        assert(spec_parse_guide(gl.take(0)) == Some(Seq::<Round>::empty()));
    }
    while i < lines.len()
        invariant
            lines.deep_view() == gl,
            gl == spec_lines(s@),
            0 <= i <= gl.len(),
            spec_parse_guide(gl.take(i as int)) == Some(rounds@),
        decreases gl.len() - i,
    {
        proof {
            assert(lines@[i as int]@ == gl[i as int]);
            assert(gl.take(i as int + 1).drop_last() =~= gl.take(i as int));
            assert(gl.take(i as int + 1).last() == gl[i as int]);
        }
        let round: Round = match Round::parse_round(lines[i].as_str()) {
            Ok(round) => round,
            Err(e) => {
                proof {
                    lemma_parse_guide_none(gl, i as int);
                }
                return Err(e);
            },
        };
        rounds.push(round);
        i = i + 1;
    }
    proof {
        assert(gl.take(gl.len() as int) =~= gl);
    }
    Ok(rounds)
}

/// Total score of a guide.
pub open spec fn spec_game_score(rounds: Seq<Round>) -> int
    decreases rounds.len(),
{
    if rounds.len() == 0 {
        0
    } else {
        spec_game_score(rounds.drop_last()) + spec_round_score(rounds.last())
    }
}

proof fn lemma_game_score_bounds(rounds: Seq<Round>)
    ensures
        0 <= spec_game_score(rounds) <= 9 * rounds.len(),
    decreases rounds.len(),
{
    if rounds.len() > 0 {
        lemma_game_score_bounds(rounds.drop_last());
    }
}

/// The whole game's score: the sum over the rounds.
pub fn game_score(guide: &Vec<Round>) -> (r: i32)
    requires
        9 * guide@.len() <= i32::MAX,
    ensures
        r == spec_game_score(guide@),
{
    let ghost gv = guide@;
    let mut total: i32 = 0;
    let mut i: usize = 0;
    proof {
        assert(gv.take(0) =~= Seq::<Round>::empty());
    }
    while i < guide.len()
        invariant
            gv == guide@,
            9 * gv.len() <= i32::MAX,
            0 <= i <= gv.len(),
            total == spec_game_score(gv.take(i as int)),
        decreases gv.len() - i,
    {
        proof {
            assert(gv.take(i as int + 1).drop_last() =~= gv.take(i as int));
            assert(gv.take(i as int + 1).last() == gv[i as int]);
            lemma_game_score_bounds(gv.take(i as int + 1));
            lemma_game_score_bounds(gv.take(i as int));
        }
        total = total + guide[i].score();
        i = i + 1;
    }
    proof {
        assert(gv.take(gv.len() as int) =~= gv);
    }
    total
}

} // verus!
