use advent::cleanup::{decimal_value, range_value, solution_part1, solution_part2, Pair,
    SectionRange};

const EXAMPLE_INPUT: &str = "2-4,6-8\n2-3,4-5\n5-7,7-9\n2-8,3-7\n6-6,4-6\n2-6,4-8\n";

#[test]
fn test_decimal_value() {
    assert_eq!(decimal_value("0").unwrap(), ("", 0));
}

#[test]
fn test_range_value() {
    assert_eq!(
        range_value("0-1").unwrap(),
        ("", SectionRange { start: 0, end: 1 })
    );
}

#[test]
fn parse_pair() {
    assert_eq!(
        "2-4,6-8".parse::<Pair>().unwrap(),
        Pair { a: SectionRange { start: 2, end: 4 }, b: SectionRange { start: 6, end: 8 } }
    );
}

#[test]
fn pair_overlap() {
    assert!(!"2-4,6-8".parse::<Pair>().unwrap().is_completely_overlapping());
    assert!(!"2-3,4-6".parse::<Pair>().unwrap().is_completely_overlapping());
    assert!(!"5-7,7-9".parse::<Pair>().unwrap().is_completely_overlapping());
    assert!("2-8,3-7".parse::<Pair>().unwrap().is_completely_overlapping());

    // Test all combinations of overlaps.
    assert!("6-6,4-6".parse::<Pair>().unwrap().is_completely_overlapping());
    assert!("4-4,4-6".parse::<Pair>().unwrap().is_completely_overlapping());
    assert!("4-6,4-6".parse::<Pair>().unwrap().is_completely_overlapping());
    assert!("4-6,4-4".parse::<Pair>().unwrap().is_completely_overlapping());

    assert!(!"2-6,4-8".parse::<Pair>().unwrap().is_completely_overlapping());
}

#[test]
fn test_overlap() {
    assert_eq!("2-4,6-8".parse::<Pair>().unwrap().amount_overlapping(), 0);
    assert_eq!("2-3,4-5".parse::<Pair>().unwrap().amount_overlapping(), 0);
    assert_eq!("5-7,7-9".parse::<Pair>().unwrap().amount_overlapping(), 1);
    assert_eq!("2-8,3-7".parse::<Pair>().unwrap().amount_overlapping(), 5);
    assert_eq!("6-6,4-6".parse::<Pair>().unwrap().amount_overlapping(), 1);
    assert_eq!("2-6,4-8".parse::<Pair>().unwrap().amount_overlapping(), 3);
}

#[test]
fn test_solution_part1() {
    assert_eq!(solution_part1(EXAMPLE_INPUT).unwrap(), 2);
}

#[test]
fn test_solution_part2() {
    assert_eq!(solution_part2(EXAMPLE_INPUT).unwrap(), 4);
}

#[test]
fn solution_rejects_bad_line() {
    assert!(solution_part1("2-4,6\n").is_err());
    assert!(solution_part2("nonsense\n").is_err());
}
