use advent::rucksack_shared::{solution, Rucksack};

const EXAMPLE_INPUT: &str = "vJrwpWtwJgWrhcsFMMfFFhFp\njqHRNqRjqzjGDLGLrsFMfFZSrLrFZsSL\nPmmdzqPrVvPwwTWBwg\nwMqvLMZHhHMvwLHjbvcjnnSBnvTQFn\nttgJtRGJQctTZtZT\nCrZsJsPPZsGzwwsLwLmpwMDw\n";

#[test]
fn part1_parse_rucksack() {
    let input = "vJrwpWtwJgWrhcsFMMfFFhFp";
    let sack = Rucksack::parse(input);
    assert_eq!(sack.compartments.len(), 2);
    assert_eq!(sack.compartments[0], vec!['v', 'J', 'r', 'w', 'p', 'W', 't', 'g']);
    assert_eq!(sack.compartments[1], vec!['h', 'c', 's', 'F', 'M', 'f', 'p']);
}

#[test]
fn part1_shared_items() {
    let input = "vJrwpWtwJgWrhcsFMMfFFhFp";
    let sack = Rucksack::parse(input);
    assert_eq!(sack.shared_items(), vec!['p']);
}

#[test]
fn part1_shared_item_priority() {
    let input = "vJrwpWtwJgWrhcsFMMfFFhFp";
    let sack = Rucksack::parse(input);
    assert_eq!(sack.shared_item_priority().unwrap(), 16);
}

#[test]
fn part1_test_solution() {
    assert_eq!(solution(EXAMPLE_INPUT).unwrap(), 157);
}
