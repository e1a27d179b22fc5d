use advent::strategy_outcome::{game_score, parse_strategy_guide, Move, Outcome, Round};

const EXAMPLE_INPUT: &str = "A Y\nB X\nC Z\n";

#[test]
fn part2_parse_move() {
    assert_eq!(Move::Rock, "A".parse().unwrap());
    assert_eq!(Move::Paper, "B".parse().unwrap());
    assert_eq!(Move::Scissors, "C".parse().unwrap());

    assert!("".parse::<Move>().is_err());
    assert!("D".parse::<Move>().is_err());
    assert!("X".parse::<Move>().is_err());
    assert!("Y".parse::<Move>().is_err());
    assert!("Z".parse::<Move>().is_err());
}

#[test]
fn parse_outcome() {
    assert_eq!(Outcome::Loss, "X".parse().unwrap());
    assert_eq!(Outcome::Tie, "Y".parse().unwrap());
    assert_eq!(Outcome::Win, "Z".parse().unwrap());

    assert!("".parse::<Outcome>().is_err());
    assert!("A".parse::<Outcome>().is_err());
    assert!("B".parse::<Outcome>().is_err());
    assert!("C".parse::<Outcome>().is_err());
}

#[test]
fn part2_parse_round() {
    assert_eq!(
        Round { opponent: Move::Rock, outcome: Outcome::Tie },
        "A Y".parse().unwrap()
    );

    assert!("".parse::<Round>().is_err());
    assert!("A".parse::<Round>().is_err());
    assert!("A Y Z".parse::<Round>().is_err());
}

#[test]
fn part2_test_parse_strategy_guide() {
    assert_eq!(
        parse_strategy_guide(EXAMPLE_INPUT).unwrap(),
        vec![
            Round { opponent: Move::Rock, outcome: Outcome::Tie },
            Round { opponent: Move::Paper, outcome: Outcome::Loss },
            Round { opponent: Move::Scissors, outcome: Outcome::Win },
        ]
    )
}

#[test]
fn test_outcome_move() {
    assert_eq!(Outcome::Loss.calc_move(&Move::Rock), Move::Scissors);
    assert_eq!(Outcome::Loss.calc_move(&Move::Paper), Move::Rock);
    assert_eq!(Outcome::Loss.calc_move(&Move::Scissors), Move::Paper);

    assert_eq!(Outcome::Tie.calc_move(&Move::Rock), Move::Rock);
    assert_eq!(Outcome::Tie.calc_move(&Move::Paper), Move::Paper);
    assert_eq!(Outcome::Tie.calc_move(&Move::Scissors), Move::Scissors);

    assert_eq!(Outcome::Win.calc_move(&Move::Rock), Move::Paper);
    assert_eq!(Outcome::Win.calc_move(&Move::Paper), Move::Scissors);
    assert_eq!(Outcome::Win.calc_move(&Move::Scissors), Move::Rock);
}

#[test]
fn part2_round_score() {
    assert_eq!(Round { opponent: Move::Rock, outcome: Outcome::Tie }.score(), 4);
    assert_eq!(Round { opponent: Move::Paper, outcome: Outcome::Loss }.score(), 1);
    assert_eq!(Round { opponent: Move::Scissors, outcome: Outcome::Win }.score(), 7);
}

#[test]
fn part2_test_game_score() {
    assert_eq!(game_score(&parse_strategy_guide(EXAMPLE_INPUT).unwrap()), 12);
}
