use advent::day12;
use advent::day13::{i_from_str, Signal};
use advent::day14::segment_points;
use advent::day15;
use advent::day9::move_tail;
use advent::error::PuzzleError;
use advent::text::parse_i64;

const GRID: &str = "Sabqponm\nabcryxxl\naccszExk\nacctuvwj\nabdefghi";

#[test]
fn grid_distance_of_source_is_zero() {
    let g = day12::parse(GRID);
    let dist = day12::shortest_distance(&g, g.start).unwrap();
    let idx = g.start.0 + g.start.1 * g.width;
    assert_eq!(dist[idx], 0);
}

#[test]
fn grid_source_out_of_bounds_is_rejected() {
    let g = day12::parse(GRID);
    let r = day12::shortest_distance(&g, (99, 99));
    assert!(matches!(r, Err(PuzzleError::OutOfBounds)));
}

#[test]
fn grid_render_round_trips_elevations() {
    let g = day12::parse(GRID);
    let rows = day12::render_rows(&g);
    let expected = "Sabqponm\nabcryxxl\naccszExk\nacctuvwj\nabdefghi"
        .replace('S', "a")
        .replace('E', "z");
    let lines: Vec<&str> = expected.lines().collect();
    for (y, line) in lines.iter().enumerate() {
        let want: Vec<char> = line.chars().collect();
        assert_eq!(rows[y], want);
    }
}

#[test]
fn excluded_count_ignores_disk_order() {
    let a = vec![((8, 7), (2, 10)), ((2, 0), (2, 10)), ((0, 11), (2, 10))];
    let mut b = a.clone();
    b.reverse();
    assert_eq!(day15::solve1(10, a), day15::solve1(10, b));
}

#[test]
fn excluded_count_zero_when_no_disk_reaches() {
    // one disk of radius 9 around (8, 7): line 100 is far out of reach
    let pairs = vec![((8, 7), (2, 10))];
    assert_eq!(day15::solve1(100, pairs), 0);
}

#[test]
fn parse_disks_accepts_the_fixture_line() {
    let ds = day15::parse_disks("Sensor at x=8, y=7: closest beacon is at x=2, y=10").unwrap();
    assert_eq!(ds.len(), 1);
    assert_eq!(ds[0].center, (8, 7));
    assert_eq!(ds[0].beacon, (2, 10));
    assert_eq!(ds[0].radius, 9);
}

#[test]
fn parse_disks_rejects_malformed_text() {
    let r = day15::parse_disks("Sensor at x=8: nothing useful");
    assert!(matches!(r, Err(PuzzleError::MalformedInput)));
}

#[test]
fn excluded_count_matches_fixture_interval() {
    // the single fixture disk covers 2..=14 on line 10, minus its own beacon
    let ds = day15::parse_disks("Sensor at x=8, y=7: closest beacon is at x=2, y=10").unwrap();
    assert_eq!(day15::excluded_count(&ds, 10), 12);
}

#[test]
fn find_uncovered_point_fixture() {
    let text = "Sensor at x=2, y=18: closest beacon is at x=-2, y=15\nSensor at x=9, y=16: closest beacon is at x=10, y=16\nSensor at x=13, y=2: closest beacon is at x=15, y=3\nSensor at x=12, y=14: closest beacon is at x=10, y=16\nSensor at x=10, y=20: closest beacon is at x=10, y=16\nSensor at x=14, y=17: closest beacon is at x=10, y=16\nSensor at x=8, y=7: closest beacon is at x=2, y=10\nSensor at x=2, y=0: closest beacon is at x=2, y=10\nSensor at x=0, y=11: closest beacon is at x=2, y=10\nSensor at x=20, y=14: closest beacon is at x=25, y=17\nSensor at x=17, y=20: closest beacon is at x=21, y=22\nSensor at x=16, y=7: closest beacon is at x=15, y=3\nSensor at x=14, y=3: closest beacon is at x=15, y=3\nSensor at x=20, y=1: closest beacon is at x=15, y=3";
    let disks = day15::parse_disks(text).unwrap();
    assert_eq!(day15::find_uncovered_point(&disks, 20), Ok((14, 11)));
}

#[test]
fn find_uncovered_point_reports_not_found() {
    // a single huge disk covers the whole small region and its rim
    let disks =
        day15::parse_disks("Sensor at x=10, y=10: closest beacon is at x=10, y=60").unwrap();
    assert_eq!(
        day15::find_uncovered_point(&disks, 20),
        Err(PuzzleError::NotFound)
    );
}

#[test]
fn numeral_parsing_edges() {
    let v: Vec<char> = "9223372036854775807".chars().collect();
    assert_eq!(parse_i64(&v), Some(i64::MAX));
    let v: Vec<char> = "9223372036854775808".chars().collect();
    assert_eq!(parse_i64(&v), None);
    let v: Vec<char> = "-9223372036854775808".chars().collect();
    assert_eq!(parse_i64(&v), Some(i64::MIN));
    let v: Vec<char> = "-9223372036854775809".chars().collect();
    assert_eq!(parse_i64(&v), None);
    let v: Vec<char> = "+17".chars().collect();
    assert_eq!(parse_i64(&v), Some(17));
    let v: Vec<char> = "0000000000000000000042".chars().collect();
    assert_eq!(parse_i64(&v), Some(42));
    let v: Vec<char> = "".chars().collect();
    assert_eq!(parse_i64(&v), None);
    let v: Vec<char> = "12a".chars().collect();
    assert_eq!(parse_i64(&v), None);
}

#[test]
fn monotone_constraint_fixture() {
    // a strict staircase: with the unit step rule the goal is reached in
    // a straight walk, never faster than the hop count itself
    let g = day12::parse("SbcdefghijklmnopqrstuvwxyE");
    assert_eq!(day12::solve1(&g), 25);
}

#[test]
fn parse_grid_accepts_the_fixture() {
    let g = day12::parse_grid(GRID).unwrap();
    assert_eq!((g.width, g.height), (8, 5));
    assert_eq!(g.start, (0, 0));
    assert_eq!(g.goal, (5, 2));
}

#[test]
fn parse_grid_rejects_ragged_or_markerless_text() {
    assert!(matches!(
        day12::parse_grid("abc\nab"),
        Err(PuzzleError::MalformedInput)
    ));
    assert!(matches!(
        day12::parse_grid("abc\nabc"),
        Err(PuzzleError::MalformedInput)
    ));
    assert!(matches!(day12::parse_grid(""), Err(PuzzleError::MalformedInput)));
}

#[test]
fn score_tables_give_exact_values() {
    assert_eq!(advent::day2::score1(&('A', 'Y')), 8);
    assert_eq!(advent::day2::score1(&('C', 'X')), 7);
    assert_eq!(advent::day2::score2(&('A', 'X')), 3);
    assert_eq!(advent::day2::score2(&('C', 'Z')), 7);
}

#[test]
fn integer_signal_reading() {
    assert_eq!(i_from_str("12"), Ok(Signal::I(12)));
    assert_eq!(i_from_str("-4"), Ok(Signal::I(-4)));
    assert!(matches!(i_from_str("x"), Err(PuzzleError::MalformedInput)));
}

#[test]
fn rope_tail_snaps_diagonally() {
    assert_eq!(move_tail((2, 2), (0, 1)), (1, 2));
    assert_eq!(move_tail((0, 0), (0, 0)), (0, 0));
    assert_eq!(move_tail((2, 0), (0, 0)), (1, 0));
}

#[test]
fn sand_segments_cover_inclusive_ranges() {
    assert_eq!(segment_points((1, 5), (1, 3)), vec![(1, 3), (1, 4), (1, 5)]);
    assert_eq!(segment_points((4, 2), (6, 2)), vec![(4, 2), (5, 2), (6, 2)]);
}

#[test]
fn ring_covers_every_quadrant_once() {
    // all eight points at Manhattan distance 2 around (5, 5)
    let ring = day15::around(20, (5, 5), 1);
    assert_eq!(ring.len(), 8);
    for p in [(5, 3), (6, 4), (7, 5), (6, 6), (5, 7), (4, 6), (3, 5), (4, 4)] {
        assert_eq!(ring.iter().filter(|q| **q == p).count(), 1);
    }
}
