use advent::rucksack::{item_priority, part1, Rucksack};

const EXAMPLE_INPUT: &str = "vJrwpWtwJgWrhcsFMMfFFhFp\njqHRNqRjqzjGDLGLrsFMfFZSrLrFZsSL\nPmmdzqPrVvPwwTWBwg\nwMqvLMZHhHMvwLHjbvcjnnSBnvTQFn\nttgJtRGJQctTZtZT\nCrZsJsPPZsGzwwsLwLmpwMDw\n";

#[test]
fn main_parse_rucksack() {
    let input = "vJrwpWtwJgWrhcsFMMfFFhFp";
    let sack = Rucksack::parse(input);
    assert_eq!(sack.compartments.len(), 2);
    assert_eq!(sack.compartments[0], vec!['v', 'J', 'r', 'w', 'p', 'W', 't', 'g']);
    assert_eq!(sack.compartments[1], vec!['h', 'c', 's', 'F', 'M', 'f', 'p']);
}

#[test]
fn main_shared_items() {
    let input = "vJrwpWtwJgWrhcsFMMfFFhFp";
    let sack = Rucksack::parse(input);
    assert_eq!(sack.shared_items(), vec!['p']);
}

#[test]
fn main_shared_item_priority() {
    let input = "vJrwpWtwJgWrhcsFMMfFFhFp";
    let sack = Rucksack::parse(input);
    assert_eq!(sack.shared_item_priority().unwrap(), 16);
}

#[test]
fn test_item_priority() {
    // Check valid ranges.
    assert_eq!(item_priority('a').unwrap(), 1);
    assert_eq!(item_priority('z').unwrap(), 26);
    assert_eq!(item_priority('A').unwrap(), 27);
    assert_eq!(item_priority('Z').unwrap(), 52);

    // Check edges of valid ranges.
    assert!(item_priority('`').is_err());
    assert!(item_priority('{').is_err());
    assert!(item_priority('@').is_err());
    assert!(item_priority('[').is_err());

    // Non alphabetic characters are not valid.
    assert!(item_priority('0').is_err());

    // Non ascii characters are not valid.
    assert!(item_priority('\u{1f384}').is_err());
}

#[test]
fn test_part1() {
    assert_eq!(part1(EXAMPLE_INPUT).unwrap(), 157);
}
