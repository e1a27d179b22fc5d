use advent::calories::{
    find_max_calories, find_max_calories_fancy, find_top_n_calories, parse_input,
    parse_input_fancy, part1, part1_fancy, part2,
};

const EXAMPLE_INPUT_1: &str = "1000\n2000\n3000\n\n4000\n\n5000\n6000\n\n7000\n8000\n9000\n\n10000\n";

fn parsed_example_input_1() -> Vec<Vec<i32>> {
    vec![
        vec![1000, 2000, 3000],
        vec![4000],
        vec![5000, 6000],
        vec![7000, 8000, 9000],
        vec![10000],
    ]
}

#[test]
fn lib_test_parse_part_1_input() {
    assert_eq!(parse_input(EXAMPLE_INPUT_1).unwrap(), parsed_example_input_1());
}

#[test]
fn lib_test_parse_part_1_input_fancy() {
    assert_eq!(parse_input_fancy(EXAMPLE_INPUT_1).unwrap(), parsed_example_input_1());
}

#[test]
fn lib_test_find_max_calories() {
    let elves = parsed_example_input_1();
    assert_eq!(find_max_calories(&elves), 24000);
}

#[test]
fn lib_test_find_max_calories_fancy() {
    let elves = parsed_example_input_1();
    assert_eq!(find_max_calories_fancy(&elves), 24000);
}

#[test]
fn lib_test_part1() {
    assert_eq!(part1(EXAMPLE_INPUT_1).unwrap(), 24000);
}

#[test]
fn lib_test_find_top_n_calories() {
    let elves = parsed_example_input_1();
    assert_eq!(find_top_n_calories(&elves, 3), vec![24000, 11000, 10000]);
}

#[test]
fn lib_test_part2() {
    assert_eq!(part2(EXAMPLE_INPUT_1).unwrap(), 45000);
}

#[test]
fn main_test_parse_part_1_input() {
    assert_eq!(parse_input(EXAMPLE_INPUT_1).unwrap(), parsed_example_input_1());
}

#[test]
fn main_test_parse_part_1_input_fancy() {
    assert_eq!(parse_input_fancy(EXAMPLE_INPUT_1).unwrap(), parsed_example_input_1());
}

#[test]
fn main_test_find_max_calories() {
    let elves = parsed_example_input_1();
    assert_eq!(find_max_calories(&elves), 24000);
}

#[test]
fn main_test_find_max_calories_fancy() {
    let elves = parsed_example_input_1();
    assert_eq!(find_max_calories_fancy(&elves), 24000);
}

#[test]
fn main_test_part1() {
    assert_eq!(part1(EXAMPLE_INPUT_1).unwrap(), 24000);
}

#[test]
fn test_part1_fancy() {
    assert_eq!(part1_fancy(EXAMPLE_INPUT_1).unwrap(), 24000);
}

#[test]
fn main_test_find_top_n_calories() {
    let elves = parsed_example_input_1();
    assert_eq!(find_top_n_calories(&elves, 3), vec![24000, 11000, 10000]);
}

#[test]
fn main_test_part2() {
    assert_eq!(part2(EXAMPLE_INPUT_1).unwrap(), 45000);
}

#[test]
fn parse_input_rejects_bad_number() {
    assert!(parse_input("12\nxy\n").is_err());
    assert!(parse_input_fancy("12\nxy\n").is_err());
}

#[test]
fn parse_input_negative_and_signed() {
    assert_eq!(parse_input("-5\n+7\n").unwrap(), vec![vec![-5, 7]]);
}

#[test]
fn top_n_pads_with_zeroes() {
    let elves = vec![vec![3], vec![1]];
    assert_eq!(find_top_n_calories(&elves, 4), vec![3, 1, 0, 0]);
}
