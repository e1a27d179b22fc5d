use advent::terminal::{Command, Directory, DirectoryEntry};

#[test]
fn parse_directory() {
    assert_eq!(Directory::parse("/").unwrap(), ("", Directory::Root));
    assert_eq!(Directory::parse("..").unwrap(), ("", Directory::Parent));
    assert_eq!(
        Directory::parse("test").unwrap(),
        ("", Directory::Child("test".into()))
    );
}

#[test]
fn parse_directory_entry() {
    assert_eq!(
        DirectoryEntry::parse("12345 test").unwrap(),
        ("", DirectoryEntry::File { name: "test".into(), size: 12345 })
    );

    assert_eq!(
        DirectoryEntry::parse("dir testdir").unwrap(),
        ("", DirectoryEntry::Directory { name: "testdir".into() })
    );
}

#[test]
fn parse_command() {
    assert_eq!(
        Command::parse("$ cd /\n").unwrap(),
        ("", Command::Cd(Directory::Root))
    );
    assert_eq!(
        Command::parse("$ cd ..\n").unwrap(),
        ("", Command::Cd(Directory::Parent))
    );
    assert_eq!(
        Command::parse("$ cd testdir\n").unwrap(),
        ("", Command::Cd(Directory::Child("testdir".into())))
    );
    assert_eq!(
        Command::parse("$ ls\ndir a\n14848514 b.txt\n8504156 c.dat\ndir d\n").unwrap(),
        (
            "",
            Command::Ls(vec![
                DirectoryEntry::Directory { name: "a".into() },
                DirectoryEntry::File { name: "b.txt".into(), size: 14848514 },
                DirectoryEntry::File { name: "c.dat".into(), size: 8504156 },
                DirectoryEntry::Directory { name: "d".into() },
            ])
        )
    );
}

#[test]
fn parse_multiple() {
    let mut iter = Command::parse_multiple(
        "$ cd /\n$ ls\ndir a\n14848514 b.txt\n8504156 c.dat\ndir d\n",
    );
    let mut commands = Vec::new();
    while let Some(command) = iter.next() {
        commands.push(command);
    }
    assert_eq!(
        commands,
        vec![
            Command::Cd(Directory::Root),
            Command::Ls(vec![
                DirectoryEntry::Directory { name: "a".into() },
                DirectoryEntry::File { name: "b.txt".into(), size: 14848514 },
                DirectoryEntry::File { name: "c.dat".into(), size: 8504156 },
                DirectoryEntry::Directory { name: "d".into() },
            ]),
        ]
    );
}

#[test]
fn parse_stops_at_malformed_line() {
    let mut iter = Command::parse_multiple("$ cd /\nnot a command\n$ cd a\n");
    let mut commands = Vec::new();
    while let Some(command) = iter.next() {
        commands.push(command);
    }
    assert_eq!(commands, vec![Command::Cd(Directory::Root)]);
}

#[test]
fn parse_empty_listing() {
    assert_eq!(
        Command::parse("$ ls\n$ cd a\n").unwrap(),
        ("$ cd a\n", Command::Ls(vec![]))
    );
}

#[test]
fn entry_name() {
    let file = DirectoryEntry::File { name: "b.txt".into(), size: 1 };
    let dir = DirectoryEntry::Directory { name: "a".into() };
    assert_eq!(file.name(), "b.txt");
    assert_eq!(dir.name(), "a");
}

#[test]
fn render_entry() {
    let file = DirectoryEntry::File { name: "b.txt".into(), size: 14848514 };
    let dir = DirectoryEntry::Directory { name: "a".into() };
    assert_eq!(file.render(), "b.txt (file, size=14848514)");
    assert_eq!(dir.render(), "a (dir)");
}
