use advent::day6::{all_unique, solve1, solve2};

#[test]
fn test_all_unique() {
    assert!(all_unique(Vec::from("abcd".as_bytes())));
    assert!(!all_unique(Vec::from("abca".as_bytes())));
}

#[test]
fn day6_test_solve1() {
    assert_eq!(solve1("bvwbjplbgvbhsrlpgdmjqwftvncz"), 5);
    assert_eq!(solve1("nppdvjthqldpwncqszvftbrmjlhg"), 6);
    assert_eq!(solve1("nznrnfrfntjfmvfwmzdfjlvtqnbhcprsg"), 10);
    assert_eq!(solve1("zcfzfwzzqfrljwzlrfnpqdbhtmscgvjw"), 11);
}

#[test]
fn day6_solve2_markers() {
    assert_eq!(solve2("mjqjpqmgbljsphdztnvjfqwrcgsmlb"), 19);
    assert_eq!(solve2("bvwbjplbgvbhsrlpgdmjqwftvncz"), 23);
}
