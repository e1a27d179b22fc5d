use advent::strategy::{game_score, parse_strategy_guide, Move, Round};

const EXAMPLE_INPUT: &str = "A Y\nB X\nC Z\n";

#[test]
fn main_parse_move() {
    assert_eq!(Move::Rock, "A".parse().unwrap());
    assert_eq!(Move::Paper, "B".parse().unwrap());
    assert_eq!(Move::Scissors, "C".parse().unwrap());

    assert_eq!(Move::Rock, "X".parse().unwrap());
    assert_eq!(Move::Paper, "Y".parse().unwrap());
    assert_eq!(Move::Scissors, "Z".parse().unwrap());

    assert!("".parse::<Move>().is_err());
    assert!("D".parse::<Move>().is_err());
}

#[test]
fn main_parse_round() {
    assert_eq!(
        Round { opponent: Move::Rock, ours: Move::Paper },
        "A Y".parse().unwrap()
    );

    assert!("".parse::<Round>().is_err());
    assert!("A".parse::<Round>().is_err());
    assert!("A Y Z".parse::<Round>().is_err());
}

#[test]
fn main_test_parse_strategy_guide() {
    assert_eq!(
        parse_strategy_guide(EXAMPLE_INPUT).unwrap(),
        vec![
            Round { opponent: Move::Rock, ours: Move::Paper },
            Round { opponent: Move::Paper, ours: Move::Rock },
            Round { opponent: Move::Scissors, ours: Move::Scissors },
        ]
    )
}

#[test]
fn main_round_score() {
    assert_eq!(Round { opponent: Move::Rock, ours: Move::Paper }.score(), 8);
    assert_eq!(Round { opponent: Move::Paper, ours: Move::Rock }.score(), 1);
    assert_eq!(Round { opponent: Move::Scissors, ours: Move::Scissors }.score(), 6);
}

#[test]
fn main_test_game_score() {
    assert_eq!(game_score(&parse_strategy_guide(EXAMPLE_INPUT).unwrap()), 15);
}
