use advent::rucksack_badges::{solution, Rucksack};

const EXAMPLE_INPUT: &str = "vJrwpWtwJgWrhcsFMMfFFhFp\njqHRNqRjqzjGDLGLrsFMfFZSrLrFZsSL\nPmmdzqPrVvPwwTWBwg\nwMqvLMZHhHMvwLHjbvcjnnSBnvTQFn\nttgJtRGJQctTZtZT\nCrZsJsPPZsGzwwsLwLmpwMDw\n";

#[test]
fn part2_parse_rucksack() {
    let input = "vJrwpWtwJgWrhcsFMMfFFhFp";
    let sack = Rucksack::parse(input);
    assert_eq!(
        sack.items,
        vec!['v', 'J', 'r', 'w', 'p', 'W', 't', 'g', 'h', 'c', 's', 'F', 'M', 'f']
    );
}

#[test]
fn shared_item() {
    let sack1 = Rucksack::parse("vJrwpWtwJgWrhcsFMMfFFhFp");
    let sack2 = Rucksack::parse("jqHRNqRjqzjGDLGLrsFMfFZSrLrFZsSL");
    let sack3 = Rucksack::parse("PmmdzqPrVvPwwTWBwg");

    assert_eq!(sack1.shared_item(&sack2, &sack3).unwrap(), 'r');

    let sack1 = Rucksack::parse("a");
    let sack2 = Rucksack::parse("b");
    let sack3 = Rucksack::parse("c");
    assert!(sack1.shared_item(&sack2, &sack3).is_err());

    let sack1 = Rucksack::parse("abc");
    let sack2 = Rucksack::parse("abd");
    let sack3 = Rucksack::parse("abe");
    assert!(sack1.shared_item(&sack2, &sack3).is_err());
}

#[test]
fn part2_test_solution() {
    assert_eq!(solution(EXAMPLE_INPUT).unwrap(), 70);
}

#[test]
fn solution_rejects_partial_group() {
    assert!(solution("abc\nabd\n").is_err());
}
