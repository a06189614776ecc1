use advent::day12::{parse, around, solve1, solve2};

const TEST_INPUT: &str = "Sabqponm\nabcryxxl\naccszExk\nacctuvwj\nabdefghi";

#[test]
fn day12_test_parse() {
    let map = parse(TEST_INPUT);
    assert_eq!(map.width, 8);
    assert_eq!(map.height, 5);
    assert_eq!(map.start, (0, 0));
    assert_eq!(map.goal, (5, 2));
}

#[test]
fn day12_test_around() {
    let map = parse(TEST_INPUT);
    assert_eq!(around(&map, (0, 0)).len(), 2);
    assert_eq!(around(&map, (1, 0)).len(), 3);
    assert_eq!(around(&map, (1, 1)).len(), 4);
    assert_eq!(around(&map, (4, 4)).len(), 3);
    assert_eq!(around(&map, (7, 4)).len(), 2);
}

#[test]
fn day12_test_solve1() {
    let parsed = parse(TEST_INPUT);
    assert_eq!(solve1(&parsed), 31);
}

#[test]
fn day12_test_solve2() {
    let parsed = parse(TEST_INPUT);
    assert_eq!(solve2(&parsed), 29);
}
