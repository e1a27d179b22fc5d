use advent::filesystem::{solution_part1, solution_part2, Filesystem, SizeFilter};

const EXAMPLE_INPUT: &str = "$ cd /\n$ ls\ndir a\n14848514 b.txt\n8504156 c.dat\ndir d\n$ cd a\n$ ls\ndir e\n29116 f\n2557 g\n62596 h.lst\n$ cd e\n$ ls\n584 i\n$ cd ..\n$ cd ..\n$ cd d\n$ ls\n4060174 j\n8033020 d.log\n5626152 d.ext\n7214296 k\n";

#[test]
fn parse_fs() {
    let text = Filesystem::parse(EXAMPLE_INPUT).render();
    println!("{text}");
    assert_eq!(
        text,
        "- / (dir)\n  - a (dir)\n    - e (dir)\n      - i (file, size=584)\n    - f (file, size=29116)\n    - g (file, size=2557)\n    - h.lst (file, size=62596)\n  - b.txt (file, size=14848514)\n  - c.dat (file, size=8504156)\n  - d (dir)\n    - j (file, size=4060174)\n    - d.log (file, size=8033020)\n    - d.ext (file, size=5626152)\n    - k (file, size=7214296)\n"
    )
}

#[test]
fn filter_dirs() {
    let fs = Filesystem::parse(EXAMPLE_INPUT);
    assert_eq!(
        fs.filter_dirs_by_size(SizeFilter::AtMost(100000)),
        vec![("e".to_string(), 584), ("a".to_string(), 94853)]
    );
}

#[test]
fn filter_dirs_at_least() {
    let fs = Filesystem::parse(EXAMPLE_INPUT);
    assert_eq!(
        fs.filter_dirs_by_size(SizeFilter::AtLeast(8381165)),
        vec![
            ("d".to_string(), 24933642),
            ("/".to_string(), 48381165),
        ]
    );
}

#[test]
fn filter_dirs_never() {
    let fs = Filesystem::parse(EXAMPLE_INPUT);
    assert_eq!(fs.filter_dirs_by_size(SizeFilter::Never), vec![]);
}

#[test]
fn fs_size() {
    let fs = Filesystem::parse(EXAMPLE_INPUT);
    assert_eq!(fs.total_size(), 48381165);
}

#[test]
fn part1() {
    let fs = Filesystem::parse(EXAMPLE_INPUT);
    assert_eq!(solution_part1(&fs), 95437);
}

#[test]
fn part2() {
    let fs = Filesystem::parse(EXAMPLE_INPUT);
    assert_eq!(solution_part2(&fs), 24933642);
}

#[test]
fn aggregation_is_repeatable() {
    let fs = Filesystem::parse(EXAMPLE_INPUT);
    let first = fs.filter_dirs_by_size(SizeFilter::AtMost(100000));
    let second = fs.filter_dirs_by_size(SizeFilter::AtMost(100000));
    assert_eq!(first, second);
}

#[test]
fn wider_filter_keeps_every_selected_directory() {
    let fs = Filesystem::parse(EXAMPLE_INPUT);
    let narrow = fs.filter_dirs_by_size(SizeFilter::AtMost(100000));
    let wide = fs.filter_dirs_by_size(SizeFilter::AtMost(100000000));
    for pair in &narrow {
        assert!(wide.contains(pair));
    }
}

#[test]
fn missing_child_leaves_cursor_in_place() {
    // `cd` into a directory that was never listed is ignored, so the file
    // is recorded under the root.
    let fs = Filesystem::parse("$ cd /\n$ cd nowhere\n$ ls\n10 a\n");
    assert_eq!(fs.total_size(), 10);
    assert_eq!(
        fs.filter_dirs_by_size(SizeFilter::AtMost(100)),
        vec![("/".to_string(), 10)]
    );
}

#[test]
fn relisting_duplicates_entries() {
    // Listing the same directory twice appends its entries twice; the
    // duplicates are kept, as documented.
    let fs = Filesystem::parse("$ cd /\n$ ls\n10 a\n$ ls\n10 a\n");
    assert_eq!(fs.total_size(), 20);
}
