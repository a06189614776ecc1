use advent::day3::{priority, solve1, find_common_3};

const TEST_INPUT: &str = "vJrwpWtwJgWrhcsFMMfFFhFp\njqHRNqRjqzjGDLGLrsFMfFZSrLrFZsSL\nPmmdzqPrVvPwwTWBwg\nwMqvLMZHhHMvwLHjbvcjnnSBnvTQFn\nttgJtRGJQctTZtZT\nCrZsJsPPZsGzwwsLwLmpwMDw";

#[test]
fn test_priority() {
    assert_eq!(priority('p'), 16);
    assert_eq!(priority('L'), 38);
    assert_eq!(priority('P'), 42);
    assert_eq!(priority('v'), 22);
    assert_eq!(priority('t'), 20);
    assert_eq!(priority('s'), 19);
}

#[test]
fn day3_test_solve1() {
    let input: Vec<&str> = TEST_INPUT.lines().collect();
    assert_eq!(solve1(input.as_slice()), 157);
}

#[test]
fn test_find_common_3() {
    let a: Vec<char> = "vJrwpWtwJgWrhcsFMMfFFhFp".chars().collect();
    let b: Vec<char> = "jqHRNqRjqzjGDLGLrsFMfFZSrLrFZsSL".chars().collect();
    let c: Vec<char> = "PmmdzqPrVvPwwTWBwg".chars().collect();
    assert_eq!(find_common_3(&a, &b, &c), Some('r'));
}
