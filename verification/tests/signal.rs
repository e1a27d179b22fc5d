use advent::signal::find_marker;

#[test]
fn start_of_frame() {
    assert_eq!(find_marker::<4>("mjqjpqmgbljsphdztnvjfqwrcgsmlb").unwrap(), 7);
    assert_eq!(find_marker::<4>("bvwbjplbgvbhsrlpgdmjqwftvncz").unwrap(), 5);
    assert_eq!(find_marker::<4>("nppdvjthqldpwncqszvftbrmjlhg").unwrap(), 6);
    assert_eq!(find_marker::<4>("nznrnfrfntjfmvfwmzdfjlvtqnbhcprsg").unwrap(), 10);
    assert_eq!(find_marker::<4>("zcfzfwzzqfrljwzlrfnpqdbhtmscgvjw").unwrap(), 11);
}

#[test]
fn start_of_message() {
    assert_eq!(find_marker::<14>("mjqjpqmgbljsphdztnvjfqwrcgsmlb").unwrap(), 19);
    assert_eq!(find_marker::<14>("bvwbjplbgvbhsrlpgdmjqwftvncz").unwrap(), 23);
    assert_eq!(find_marker::<14>("nppdvjthqldpwncqszvftbrmjlhg").unwrap(), 23);
    assert_eq!(find_marker::<14>("nznrnfrfntjfmvfwmzdfjlvtqnbhcprsg").unwrap(), 29);
    assert_eq!(find_marker::<14>("zcfzfwzzqfrljwzlrfnpqdbhtmscgvjw").unwrap(), 26);
}

#[test]
fn no_marker_in_short_repetition() {
    assert!(find_marker::<4>("aaaaaaa").is_err());
}
