use advent::day7::{AocFile, parse_file, parse_dir, flatten_dir, solve1, solve2};

const TEST_INPUT: &str = "$ cd /\n$ ls\ndir a\n14848514 b.txt\n8504156 c.dat\ndir d\n$ cd a\n$ ls\ndir e\n29116 f\n2557 g\n62596 h.lst\n$ cd e\n$ ls\n584 i\n$ cd ..\n$ cd ..\n$ cd d\n$ ls\n4060174 j\n8033020 d.log\n5626152 d.ext\n7214296 k";

fn input_lines() -> Vec<Vec<char>> {
    // the first line enters the root; the walker starts at its listing
    TEST_INPUT.lines().skip(1).map(|l| l.chars().collect()).collect()
}

#[test]
fn test_parse_file() {
    assert_eq!(
        parse_file("4060174 j"),
        Some(AocFile::File {
            name: "j".chars().collect(),
            size: 4060174
        })
    );

    assert_eq!(parse_file("slnt"), None)
}

#[test]
fn day7_test_sanity() {
    let a = "abc";
    let b = "abc";
    assert!(a == b);

    let mut l = "$cd ..\n".lines();
    match l.next() {
        Some(s) => {
            assert!(s == "$cd ..")
        }
        None => (),
    }
}

#[test]
fn test_parse_dir() {
    let lines = input_lines();
    let parsed = parse_dir("/", &lines, 0);
    if let Some((AocFile::Dir { children, size, .. }, _)) = parsed {
        assert_eq!(children.len(), 4);
        assert_eq!(size, 48381165);
    } else {
        assert!(false);
    }
}

#[test]
fn test_flatten() {
    let lines = input_lines();
    let parsed = parse_dir("/", &lines, 0);

    let root = parsed.unwrap().0;
    let flat = flatten_dir(&root);

    assert_eq!(flat.len(), 14);
}

#[test]
fn day7_test_solve1() {
    let lines = input_lines();
    let (root, _) = parse_dir("/", &lines, 0).unwrap();
    assert_eq!(solve1(&root), 95437);
}

#[test]
fn day7_test_solve2() {
    let lines = input_lines();
    let (root, _) = parse_dir("/", &lines, 0).unwrap();
    assert_eq!(solve2(&root), 24933642);
}
