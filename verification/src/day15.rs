//! Manhattan-distance exclusion zones: sensors each exclude a disk of
//! cells around themselves, reaching exactly as far as their nearest
//! beacon. Count the excluded cells of one scan line, and find the one
//! cell of a bounded region no disk covers.

use vstd::prelude::*;
use crate::nums::{spec_abs, abs_i64};
use crate::seqs::{lemma_push_to_set, lemma_remove_value};
use crate::text::{chars_of, split_lines, split_at_seq, parse_i64, spec_split, spec_lines, is_i64_numeral, int_value, views};

verus! {

pub type Point = (i64, i64);

/// Coordinates the distance arithmetic stays exact for.
pub const COORD_LIMIT: i64 = 0x1000000000000000;

pub open spec fn point_in_limit(p: Point) -> bool {
    -COORD_LIMIT <= p.0 <= COORD_LIMIT && -COORD_LIMIT <= p.1 <= COORD_LIMIT
}

pub open spec fn pair_in_limit(p: (Point, Point)) -> bool {
    point_in_limit(p.0) && point_in_limit(p.1)
}

pub open spec fn spec_manhattan(a: Point, b: Point) -> int {
    spec_abs(a.0 - b.0) + spec_abs(a.1 - b.1)
}

/// The Manhattan distance between two points.
pub fn manhattan(a: Point, b: Point) -> (r: i64)
    requires
        -2 * COORD_LIMIT <= a.0 - b.0 <= 2 * COORD_LIMIT,
        -2 * COORD_LIMIT <= a.1 - b.1 <= 2 * COORD_LIMIT,
    ensures
        r == spec_manhattan(a, b),
        r >= 0,
{
    abs_i64(a.0 - b.0) + abs_i64(a.1 - b.1)
}

// ---- parsing ----

pub open spec fn sep_comma_space() -> Seq<char> {
    seq![',', ' ']
}

pub open spec fn sep_eq() -> Seq<char> {
    seq!['=']
}

/// The separator between the sensor part and the beacon part of a line.
pub open spec fn sep_beacon() -> Seq<char> {
    seq![
        ':', ' ', 'c', 'l', 'o', 's', 'e', 's', 't', ' ', 'b', 'e', 'a', 'c', 'o', 'n', ' ', 'i',
        's', ' ', 'a', 't', ' ',
    ]
}

/// Whether an `x=<int>, y=<int>` piece is well formed.
pub open spec fn point_ok(s: Seq<char>) -> bool {
    let ps = spec_split(s, sep_comma_space());
    &&& ps.len() >= 2
    &&& spec_split(ps[0], sep_eq()).len() >= 2
    &&& spec_split(ps[1], sep_eq()).len() >= 2
    &&& is_i64_numeral(spec_split(ps[0], sep_eq())[1])
    &&& is_i64_numeral(spec_split(ps[1], sep_eq())[1])
}

/// The point an `x=<int>, y=<int>` piece denotes.
pub open spec fn spec_point(s: Seq<char>) -> (int, int) {
    let ps = spec_split(s, sep_comma_space());
    (int_value(spec_split(ps[0], sep_eq())[1]), int_value(spec_split(ps[1], sep_eq())[1]))
}

fn point_of(p: &Vec<char>) -> (r: Point)
    requires
        point_ok(p@),
    ensures
        (r.0 as int, r.1 as int) == spec_point(p@),
{
    let sep: Vec<char> = vec![',', ' '];
    proof {
        assert(sep@ =~= sep_comma_space());
    }
    let parts = split_at_seq(p, &sep);
    proof {
        assert(views(parts@).len() == parts@.len());
        assert(parts@[0]@ == spec_split(p@, sep_comma_space())[0]);
        assert(parts@[1]@ == spec_split(p@, sep_comma_space())[1]);
    }
    let eq: Vec<char> = vec!['='];
    proof {
        assert(eq@ =~= sep_eq());
    }
    let xs = split_at_seq(&parts[0], &eq);
    let ys = split_at_seq(&parts[1], &eq);
    proof {
        assert(views(xs@).len() == xs@.len());
        assert(views(ys@).len() == ys@.len());
        assert(xs@[1]@ == spec_split(parts@[0]@, sep_eq())[1]);
        assert(ys@[1]@ == spec_split(parts@[1]@, sep_eq())[1]);
    }
    let x = parse_i64(&xs[1]).unwrap();
    let y = parse_i64(&ys[1]).unwrap();
    (x, y)
}

/// Parse an `x=<int>, y=<int>` piece.
pub fn parse_point(s: &str) -> (r: Point)
    requires
        point_ok(s@),
    ensures
        (r.0 as int, r.1 as int) == spec_point(s@),
{
    let cs = chars_of(s);
    point_of(&cs)
}

/// Whether a whole sensor line is well formed.
pub open spec fn line_ok(s: Seq<char>) -> bool {
    let ps = spec_split(s, sep_beacon());
    &&& ps.len() >= 2
    &&& ps[0].len() >= 10
    &&& point_ok(ps[0].skip(10))
    &&& point_ok(ps[1])
}

/// The sensor and beacon a line names.
pub open spec fn spec_line(s: Seq<char>) -> ((int, int), (int, int)) {
    let ps = spec_split(s, sep_beacon());
    (spec_point(ps[0].skip(10)), spec_point(ps[1]))
}

fn line_of(l: &Vec<char>) -> (r: (Point, Point))
    requires
        line_ok(l@),
    ensures
        ((r.0.0 as int, r.0.1 as int), (r.1.0 as int, r.1.1 as int)) == spec_line(l@),
{
    let sep: Vec<char> = vec![
        ':', ' ', 'c', 'l', 'o', 's', 'e', 's', 't', ' ', 'b', 'e', 'a', 'c', 'o', 'n', ' ', 'i',
        's', ' ', 'a', 't', ' ',
    ];
    proof {
        assert(sep@ =~= sep_beacon());
    }
    let parts = split_at_seq(l, &sep);
    proof {
        assert(views(parts@).len() == parts@.len());
        assert(parts@[0]@ == spec_split(l@, sep_beacon())[0]);
        assert(parts@[1]@ == spec_split(l@, sep_beacon())[1]);
    }
    let head = &parts[0];
    let mut sensor_part: Vec<char> = Vec::new();
    let mut k: usize = 10;
    while k < head.len()
        invariant
            10 <= k <= head@.len(),
            head@.len() >= 10,
            sensor_part@ == head@.subrange(10, k as int),
        decreases head@.len() - k,
    {
        sensor_part.push(head[k]);
        proof {
            assert(head@.subrange(10, k + 1) =~= head@.subrange(10, k as int).push(
                head@[k as int],
            ));
        }
        k = k + 1;
    }
    proof {
        assert(sensor_part@ =~= head@.skip(10));
    }
    let sensor = point_of(&sensor_part);
    let beacon = point_of(&parts[1]);
    (sensor, beacon)
}

/// Parse one sensor line.
pub fn parse_line(s: &str) -> (r: (Point, Point))
    requires
        line_ok(s@),
    ensures
        ((r.0.0 as int, r.0.1 as int), (r.1.0 as int, r.1.1 as int)) == spec_line(s@),
{
    let cs = chars_of(s);
    line_of(&cs)
}

pub open spec fn input_ok(s: Seq<char>) -> bool {
    forall|i: int| 0 <= i < spec_lines(s).len() ==> line_ok(#[trigger] spec_lines(s)[i])
}

/// Parse the whole sensor list.
pub fn parse(s: &str) -> (r: Vec<(Point, Point)>)
    requires
        input_ok(s@),
    ensures
        r@.len() == spec_lines(s@).len(),
        forall|i: int|
            0 <= i < r@.len() ==> (
            (#[trigger] r@[i].0.0 as int, r@[i].0.1 as int),
            (r@[i].1.0 as int, r@[i].1.1 as int),
            ) == spec_line(spec_lines(s@)[i]),
{
    let cs = chars_of(s);
    let lines = split_lines(&cs);
    let ghost lv = spec_lines(s@);
    proof {
        assert(views(lines@) == lv);
        assert(views(lines@).len() == lines@.len());
    }
    let mut out: Vec<(Point, Point)> = Vec::new();
    let mut i: usize = 0;
    while i < lines.len()
        invariant
            i <= lines@.len(),
            lv == spec_lines(s@),
            lv == views(lines@),
            lv.len() == lines@.len(),
            forall|k: int| 0 <= k < lv.len() ==> line_ok(#[trigger] lv[k]),
            out@.len() == i,
            forall|k: int|
                0 <= k < i ==> (
                (#[trigger] out@[k].0.0 as int, out@[k].0.1 as int),
                (out@[k].1.0 as int, out@[k].1.1 as int),
                ) == spec_line(lv[k]),
        decreases lines@.len() - i,
    {
        proof {
            assert(lines@[i as int]@ == lv[i as int]);
        }
        let p = line_of(&lines[i]);
        out.push(p);
        i = i + 1;
    }
    out
}

// ---- the scan-line exclusion count ----

/// The inclusive endpoints of the stretch of line `y` that one sensor
/// excludes; empty (low above high) when the sensor does not reach.
pub fn line_exclusions(y: i64, scanner: Point, beacon: Point) -> (r: (i64, i64))
    requires
        point_in_limit(scanner),
        point_in_limit(beacon),
        -COORD_LIMIT <= y <= COORD_LIMIT,
    ensures
        r.0 == scanner.0 - (spec_manhattan(scanner, beacon) - spec_abs(y - scanner.1)),
        r.1 == scanner.0 + (spec_manhattan(scanner, beacon) - spec_abs(y - scanner.1)),
{
    let dist = manhattan(scanner, beacon);
    let excl_width = dist - abs_i64(y - scanner.1);
    (scanner.0 - excl_width, scanner.0 + excl_width)
}

/// Whether the sensor of `p` excludes cell `x` of line `y`.
pub open spec fn spec_covers_x(p: (Point, Point), y: i64, x: i64) -> bool {
    let w = spec_manhattan(p.0, p.1) - spec_abs(y - p.0.1);
    p.0.0 - w <= x <= p.0.0 + w
}

pub open spec fn covered(pairs: Seq<(Point, Point)>, y: i64, x: i64) -> bool {
    exists|i: int| 0 <= i < pairs.len() && spec_covers_x(#[trigger] pairs[i], y, x)
}

pub open spec fn covered_prefix(pairs: Seq<(Point, Point)>, k: int, y: i64, x: i64) -> bool {
    exists|i: int| 0 <= i < k && spec_covers_x(#[trigger] pairs[i], y, x)
}

pub open spec fn beacon_on_line(pairs: Seq<(Point, Point)>, y: i64, x: i64) -> bool {
    exists|i: int| 0 <= i < pairs.len() && #[trigger] pairs[i].1 == (x, y)
}

pub open spec fn beacon_prefix(pairs: Seq<(Point, Point)>, k: int, y: i64, x: i64) -> bool {
    exists|i: int| 0 <= i < k && #[trigger] pairs[i].1 == (x, y)
}

/// The cells of line `y` excluded by some sensor and not themselves
/// known beacons.
pub open spec fn excluded_set(pairs: Seq<(Point, Point)>, y: i64) -> Set<i64> {
    Set::new(|x: i64| covered(pairs, y, x) && !beacon_on_line(pairs, y, x))
}

/// The number of cells one sensor can contribute to a line.
pub open spec fn spec_width(p: (Point, Point), y: i64) -> int {
    let w = spec_manhattan(p.0, p.1) - spec_abs(y - p.0.1);
    if w < 0 {
        0
    } else {
        2 * w + 1
    }
}

pub open spec fn total_width(pairs: Seq<(Point, Point)>, y: i64, k: int) -> int
    decreases k,
{
    if k <= 0 {
        0
    } else {
        total_width(pairs, y, k - 1) + spec_width(pairs[k - 1], y)
    }
}

proof fn lemma_total_width_nonneg(pairs: Seq<(Point, Point)>, y: i64, k: int)
    ensures
        total_width(pairs, y, k) >= 0,
    decreases k,
{
    if k > 0 {
        lemma_total_width_nonneg(pairs, y, k - 1);
    }
}

fn contains_i64(v: &Vec<i64>, c: i64) -> (r: bool)
    ensures
        r == v@.contains(c),
{
    let mut i: usize = 0;
    while i < v.len()
        invariant
            i <= v@.len(),
            forall|k: int| 0 <= k < i ==> v@[k] != c,
        decreases v@.len() - i,
    {
        if v[i] == c {
            return true;
        }
        i = i + 1;
    }
    false
}

fn index_of_i64(v: &Vec<i64>, c: i64) -> (r: Option<usize>)
    ensures
        match r {
            Some(k) => k < v@.len() && v@[k as int] == c,
            None => !v@.contains(c),
        },
{
    let mut i: usize = 0;
    while i < v.len()
        invariant
            i <= v@.len(),
            forall|t: int| 0 <= t < i ==> v@[t] != c,
        decreases v@.len() - i,
    {
        if v[i] == c {
            return Some(i);
        }
        i = i + 1;
    }
    None
}

/// Count the excluded, beacon-free cells of line `y`.
pub fn solve1(y: i64, pairs: Vec<(Point, Point)>) -> (r: i64)
    requires
        -COORD_LIMIT <= y <= COORD_LIMIT,
        forall|i: int| 0 <= i < pairs@.len() ==> pair_in_limit(#[trigger] pairs@[i]),
        total_width(pairs@, y, pairs@.len() as int) <= i64::MAX,
    ensures
        excluded_set(pairs@, y).finite(),
        r == excluded_set(pairs@, y).len(),
{
    let ghost pv = pairs@;
    let mut xs: Vec<i64> = Vec::new();
    let mut i: usize = 0;
    while i < pairs.len()
        invariant
            i <= pv.len(),
            pv == pairs@,
            -COORD_LIMIT <= y <= COORD_LIMIT,
            forall|k: int| 0 <= k < pv.len() ==> pair_in_limit(#[trigger] pv[k]),
            total_width(pv, y, pv.len() as int) <= i64::MAX,
            xs@.no_duplicates(),
            forall|z: i64| xs@.contains(z) == covered_prefix(pv, i as int, y, z),
            xs@.len() <= total_width(pv, y, i as int),
        decreases pv.len() - i,
    {
        let p = pairs[i];
        let (lo, hi) = line_exclusions(y, p.0, p.1);
        let ghost w = spec_manhattan(p.0, p.1) - spec_abs(y - p.0.1);
        proof {
            lemma_total_width_prefix(pv, y, i as int + 1, pv.len() as int);
            lemma_total_width_nonneg(pv, y, i as int);
        }
        let mut x = lo;
        if lo <= hi {
        while x <= hi
            invariant
                pv == pairs@,
                0 <= i < pv.len(),
                p == pv[i as int],
                lo == p.0.0 - w,
                hi == p.0.0 + w,
                w == spec_manhattan(p.0, p.1) - spec_abs(y - p.0.1),
                lo <= x <= hi + 1,
                hi < i64::MAX,
                xs@.no_duplicates(),
                forall|z: i64|
                    xs@.contains(z) == (covered_prefix(pv, i as int, y, z) || (lo <= z < x)),
                xs@.len() <= total_width(pv, y, i as int) + (x - lo),
                total_width(pv, y, i as int) + spec_width(pv[i as int], y) <= i64::MAX,
            decreases hi + 1 - x,
        {
            if !contains_i64(&xs, x) {
                let ghost prev = xs@;
                xs.push(x);
                proof {
                    assert forall|a: int, b: int| 0 <= a < b < xs@.len() implies xs@[a]
                        != xs@[b] by {
                        if b == xs@.len() - 1 {
                            assert(xs@[a] == prev[a]);
                            assert(!prev.contains(x));
                        }
                    }
                    assert forall|z: i64| xs@.contains(z) == (covered_prefix(pv, i as int, y, z)
                        || (lo <= z < x + 1)) by {
                        lemma_push_to_set(prev, x);
                        if xs@.contains(z) {
                            let idx = choose|idx: int|
                                0 <= idx < xs@.len() && xs@[idx] == z;
                            if idx < prev.len() {
                                assert(prev[idx] == z);
                                assert(prev.contains(z));
                            }
                        }
                        if covered_prefix(pv, i as int, y, z) || (lo <= z < x + 1) {
                            if prev.contains(z) {
                                let idx = choose|idx: int|
                                    0 <= idx < prev.len() && prev[idx] == z;
                                assert(xs@[idx] == z);
                            } else {
                                assert(z == x);
                                assert(xs@[xs@.len() - 1] == x);
                            }
                        }
                    }
                }
            } else {
                proof {
                    assert forall|z: i64| xs@.contains(z) == (covered_prefix(pv, i as int, y, z)
                        || (lo <= z < x + 1)) by {}
                }
            }
            x = x + 1;
        }
        }
        proof {
            assert forall|z: i64| xs@.contains(z) == (covered_prefix(pv, i as int, y, z) || (lo
                <= z <= hi)) by {}
            assert forall|z: i64| xs@.contains(z) == covered_prefix(pv, i + 1, y, z) by {
                if covered_prefix(pv, i as int, y, z) || (lo <= z <= hi) {
                    assert(covered_prefix(pv, i + 1, y, z)) by {
                        if lo <= z <= hi {
                            assert(spec_covers_x(pv[i as int], y, z));
                        }
                    }
                }
                if covered_prefix(pv, i + 1, y, z) {
                    let idx = choose|idx: int|
                        0 <= idx < i + 1 && spec_covers_x(#[trigger] pv[idx], y, z);
                    if idx == i {
                        assert(lo <= z <= hi);
                    }
                }
            }
            assert(xs@.len() <= total_width(pv, y, i + 1));
        }
        i = i + 1;
    }
    // take out the beacons that sit on this line
    let mut j: usize = 0;
    while j < pairs.len()
        invariant
            j <= pv.len(),
            pv == pairs@,
            xs@.no_duplicates(),
            xs@.len() <= total_width(pv, y, pv.len() as int),
            total_width(pv, y, pv.len() as int) <= i64::MAX,
            forall|z: i64|
                xs@.contains(z) == (covered_prefix(pv, pv.len() as int, y, z) && !beacon_prefix(
                    pv,
                    j as int,
                    y,
                    z,
                )),
        decreases pv.len() - j,
    {
        let b = pairs[j].1;
        if b.1 == y {
            if let Some(at) = index_of_i64(&xs, b.0) {
                let ghost prev = xs@;
                xs.remove(at);
                proof {
                    lemma_remove_value(prev, at as int);
                    assert forall|z: i64| xs@.contains(z) == (covered_prefix(
                        pv,
                        pv.len() as int,
                        y,
                        z,
                    ) && !beacon_prefix(pv, j + 1, y, z)) by {
                        if z != b.0 {
                            assert(xs@.contains(z) == prev.contains(z));
                            assert(beacon_prefix(pv, j + 1, y, z) == beacon_prefix(
                                pv,
                                j as int,
                                y,
                                z,
                            )) by {
                                if beacon_prefix(pv, j + 1, y, z) {
                                    let idx = choose|idx: int|
                                        0 <= idx < j + 1 && #[trigger] pv[idx].1 == (z, y);
                                    if idx == j {
                                        assert(pv[idx].1 == b);
                                        assert(z == b.0);
                                    }
                                }
                            }
                        } else {
                            assert(!xs@.contains(z));
                            assert(pv[j as int].1 == (z, y));
                            assert(beacon_prefix(pv, j + 1, y, z));
                        }
                    }
                }
            } else {
                proof {
                    assert forall|z: i64| xs@.contains(z) == (covered_prefix(
                        pv,
                        pv.len() as int,
                        y,
                        z,
                    ) && !beacon_prefix(pv, j + 1, y, z)) by {
                        if z == b.0 {
                            assert(!xs@.contains(z));
                        } else {
                            if beacon_prefix(pv, j + 1, y, z) {
                                let idx = choose|idx: int|
                                    0 <= idx < j + 1 && #[trigger] pv[idx].1 == (z, y);
                                if idx == j {
                                    assert(z == b.0);
                                }
                            }
                        }
                    }
                }
            }
        } else {
            proof {
                assert forall|z: i64| xs@.contains(z) == (covered_prefix(
                    pv,
                    pv.len() as int,
                    y,
                    z,
                ) && !beacon_prefix(pv, j + 1, y, z)) by {
                    if beacon_prefix(pv, j + 1, y, z) {
                        let idx = choose|idx: int|
                            0 <= idx < j + 1 && #[trigger] pv[idx].1 == (z, y);
                        if idx == j {
                            assert(pv[idx].1.1 == y);
                        }
                    }
                }
            }
        }
        j = j + 1;
    }
    proof {
        assert forall|z: i64| xs@.contains(z) == excluded_set(pv, y).contains(z) by {}
        assert(xs@.to_set() =~= excluded_set(pv, y));
        xs@.unique_seq_to_set();
        lemma_total_width_nonneg(pv, y, pv.len() as int);
    }
    let n = xs.len();
    proof {
        assert(n <= total_width(pv, y, pv.len() as int) <= i64::MAX);
    }
    n as i64
}

proof fn lemma_total_width_prefix(pairs: Seq<(Point, Point)>, y: i64, k: int, n: int)
    requires
        k <= n,
    ensures
        total_width(pairs, y, k) <= total_width(pairs, y, n),
    decreases n - k,
{
    if k < n {
        lemma_total_width_prefix(pairs, y, k + 1, n);
    }
}


// ---- the uncovered-point search ----

/// Whether any disk of `coverages` covers `p`.
pub open spec fn spec_is_covered(p: Point, coverages: Seq<(Point, i64)>) -> bool {
    exists|i: int|
        0 <= i < coverages.len() && spec_manhattan(p, #[trigger] coverages[i].0)
            <= coverages[i].1
}

/// Whether every point of the search set keeps its coordinates in `[0, search]`.
pub open spec fn in_region(p: Point, search: int) -> bool {
    0 <= p.0 <= search && 0 <= p.1 <= search
}

/// The four candidate points of ring index `i`, kept when inside the
/// region: one per quarter of the diamond, walking south, east, north
/// and west pole first.
pub open spec fn spec_ring4(search: int, x: i64, y: i64, r: i64, i: int) -> Seq<Point> {
    let c1 = (((x + i) as i64), ((y - r - 1 + i) as i64));
    let c2 = (((x + r + 1 - i) as i64), ((y + i) as i64));
    let c3 = (((x - i) as i64), ((y + r + 1 - i) as i64));
    let c4 = (((x - r - 1 + i) as i64), ((y - i) as i64));
    let s1: Seq<Point> = if in_region(c1, search) {
        seq![c1]
    } else {
        Seq::empty()
    };
    let s2: Seq<Point> = if in_region(c2, search) {
        seq![c2]
    } else {
        Seq::empty()
    };
    let s3: Seq<Point> = if in_region(c3, search) {
        seq![c3]
    } else {
        Seq::empty()
    };
    let s4: Seq<Point> = if in_region(c4, search) {
        seq![c4]
    } else {
        Seq::empty()
    };
    s1 + s2 + s3 + s4
}

/// The in-region points at Manhattan distance `r + 1` around `(x, y)`,
/// in generation order, starting at ring index `i`.
pub open spec fn spec_around_from(search: int, x: i64, y: i64, r: i64, i: int) -> Seq<Point>
    decreases r - i + 1,
{
    if i > r || r < 0 {
        Seq::empty()
    } else {
        spec_ring4(search, x, y, r, i) + spec_around_from(search, x, y, r, i + 1)
    }
}

pub open spec fn spec_around(search: int, p: Point, r: i64) -> Seq<Point> {
    spec_around_from(search, p.0, p.1, r, 0)
}

/// Which quarter-walk step generates a ring point: the offset along
/// its arm of the diamond.
pub open spec fn ring_index(x: i64, y: i64, q: Point) -> int {
    let dx = q.0 - x;
    let dy = q.1 - y;
    if dy <= -1 && dx >= 0 {
        dx
    } else if dx >= 1 && dy >= 0 {
        dy
    } else if dy >= 1 && dx <= 0 {
        -dx
    } else {
        -dy
    }
}

proof fn lemma_around_in_region(search: int, x: i64, y: i64, r: i64, i: int)
    ensures
        forall|k: int|
            0 <= k < spec_around_from(search, x, y, r, i).len() ==> in_region(
                #[trigger] spec_around_from(search, x, y, r, i)[k],
                search,
            ),
    decreases r - i + 1,
{
    if !(i > r || r < 0) {
        lemma_around_in_region(search, x, y, r, i + 1);
        assert forall|k: int|
            0 <= k < spec_around_from(search, x, y, r, i).len() implies in_region(
            #[trigger] spec_around_from(search, x, y, r, i)[k],
            search,
        ) by {
            let ring = spec_ring4(search, x, y, r, i);
            if k >= ring.len() {
                assert(spec_around_from(search, x, y, r, i)[k] == spec_around_from(
                    search,
                    x,
                    y,
                    r,
                    i + 1,
                )[k - ring.len()]);
            }
        }
    }
}

/// Coordinates for which the ring arithmetic is exact.
pub open spec fn ring_args_ok(x: i64, y: i64, r: i64) -> bool {
    &&& point_in_limit((x, y))
    &&& 0 <= r <= 4 * COORD_LIMIT
}

/// A ring point's index names its generating step and stays within the
/// walk.
proof fn lemma_ring_index_range(x: i64, y: i64, r: i64, q: Point)
    requires
        ring_args_ok(x, y, r),
        spec_manhattan(q, (x, y)) == r + 1,
    ensures
        0 <= ring_index(x, y, q) <= r,
{
}

/// One step's candidates are exactly the in-region ring points of
/// index `i`, each once.
#[verifier::spinoff_prover]
#[verifier::rlimit(60)]
proof fn lemma_ring4_char(search: int, x: i64, y: i64, r: i64, i: int)
    requires
        ring_args_ok(x, y, r),
        0 <= i <= r,
    ensures
        spec_ring4(search, x, y, r, i).no_duplicates(),
        forall|q: Point|
            #[trigger] spec_ring4(search, x, y, r, i).contains(q) <==> (spec_manhattan(
                q,
                (x, y),
            ) == r + 1 && in_region(q, search) && ring_index(x, y, q) == i),
{
    let ring = spec_ring4(search, x, y, r, i);
    let c1 = (((x + i) as i64), ((y - r - 1 + i) as i64));
    let c2 = (((x + r + 1 - i) as i64), ((y + i) as i64));
    let c3 = (((x - i) as i64), ((y + r + 1 - i) as i64));
    let c4 = (((x - r - 1 + i) as i64), ((y - i) as i64));
    let n1: int = if in_region(c1, search) {
        1
    } else {
        0
    };
    let n2: int = if in_region(c2, search) {
        1
    } else {
        0
    };
    let n3: int = if in_region(c3, search) {
        1
    } else {
        0
    };
    // the four candidates of this step are ring points of index `i`
    assert(spec_manhattan(c1, (x, y)) == r + 1 && ring_index(x, y, c1) == i);
    assert(spec_manhattan(c2, (x, y)) == r + 1 && ring_index(x, y, c2) == i);
    assert(spec_manhattan(c3, (x, y)) == r + 1 && ring_index(x, y, c3) == i);
    assert(spec_manhattan(c4, (x, y)) == r + 1 && ring_index(x, y, c4) == i);
    assert(c1 != c2 && c1 != c3 && c1 != c4 && c2 != c3 && c2 != c4 && c3 != c4);
    assert forall|q: Point| #[trigger] ring.contains(q) implies (spec_manhattan(q, (x, y))
        == r + 1 && in_region(q, search) && ring_index(x, y, q) == i) by {
        let k = choose|k: int| 0 <= k < ring.len() && ring[k] == q;
        assert(q == c1 || q == c2 || q == c3 || q == c4);
    }
    assert forall|q: Point|
        (spec_manhattan(q, (x, y)) == r + 1 && in_region(q, search) && ring_index(x, y, q)
            == i) implies #[trigger] ring.contains(q) by {
        let dx = q.0 - x;
        let dy = q.1 - y;
        if dy <= -1 && dx >= 0 {
            assert(q == c1);
            assert(ring[0] == c1);
        } else if dx >= 1 && dy >= 0 {
            assert(q == c2);
            assert(ring[n1] == c2);
        } else if dy >= 1 && dx <= 0 {
            assert(q == c3);
            assert(ring[n1 + n2] == c3);
        } else {
            assert(q == c4);
            assert(ring[n1 + n2 + n3] == c4);
        }
    }
    assert(ring.no_duplicates()) by {
        assert forall|a: int, b: int| 0 <= a < b < ring.len() implies ring[a] != ring[b] by {}
    }
}

/// The walk from step `i` on holds exactly the in-region ring points
/// whose index is `i` or later, each once.
proof fn lemma_around_from_ring(search: int, x: i64, y: i64, r: i64, i: int)
    requires
        ring_args_ok(x, y, r),
        0 <= i,
    ensures
        spec_around_from(search, x, y, r, i).no_duplicates(),
        forall|q: Point|
            #[trigger] spec_around_from(search, x, y, r, i).contains(q) <==> (spec_manhattan(
                q,
                (x, y),
            ) == r + 1 && in_region(q, search) && i <= ring_index(x, y, q)),
    decreases r - i + 1,
{
    if i > r || r < 0 {
        assert forall|q: Point| !(spec_manhattan(q, (x, y)) == r + 1 && in_region(q, search)
            && i <= ring_index(x, y, q)) by {
            if spec_manhattan(q, (x, y)) == r + 1 {
                lemma_ring_index_range(x, y, r, q);
            }
        }
    } else {
        lemma_around_from_ring(search, x, y, r, i + 1);
        lemma_ring4_char(search, x, y, r, i);
        let ring = spec_ring4(search, x, y, r, i);
        let rest = spec_around_from(search, x, y, r, i + 1);
        assert(forall|q: Point| !(ring.contains(q) && #[trigger] rest.contains(q)));
        crate::seqs::lemma_no_dup_concat(ring, rest);
        assert forall|q: Point|
            #[trigger] (ring + rest).contains(q) <==> (ring.contains(q) || rest.contains(
            q,
        )) by {
            if (ring + rest).contains(q) {
                let k = choose|k: int| 0 <= k < (ring + rest).len() && (ring + rest)[k] == q;
                if k < ring.len() {
                    assert(ring[k] == q);
                } else {
                    assert(rest[k - ring.len()] == q);
                }
            }
            if ring.contains(q) {
                let k = choose|k: int| 0 <= k < ring.len() && ring[k] == q;
                assert((ring + rest)[k] == q);
            }
            if rest.contains(q) {
                let k = choose|k: int| 0 <= k < rest.len() && rest[k] == q;
                assert((ring + rest)[ring.len() + k] == q);
            }
        }
    }
}

/// The bound the search region and ring arithmetic stays exact for.
pub const SEARCH_LIMIT: i64 = 0x20000000000;

/// The in-region points of the ring at Manhattan distance `r + 1`
/// around `p` — the diamond just outside the disk's reach — each once,
/// in the order the search visits them.
pub fn around(search_size: i64, p: Point, r: i64) -> (out: Vec<Point>)
    requires
        0 <= search_size <= SEARCH_LIMIT,
        point_in_limit(p),
        0 <= r <= 4 * COORD_LIMIT,
    ensures
        out@ == spec_around(search_size as int, p, r),
        out@.no_duplicates(),
        forall|q: Point|
            #[trigger] out@.contains(q) <==> (spec_manhattan(q, p) == r + 1 && in_region(
                q,
                search_size as int,
            )),
{
    let (x, y) = p;
    let mut out: Vec<Point> = Vec::new();
    let mut i: i64 = 0;
    proof {
        assert(out@ + spec_around_from(search_size as int, x, y, r, 0) =~= spec_around_from(
            search_size as int,
            x,
            y,
            r,
            0,
        ));
    }
    while i <= r
        invariant
            0 <= i <= r + 1,
            0 <= r <= 4 * COORD_LIMIT,
            0 <= search_size <= SEARCH_LIMIT,
            point_in_limit((x, y)),
            spec_around(search_size as int, (x, y), r) =~= out@ + spec_around_from(
                search_size as int,
                x,
                y,
                r,
                i as int,
            ),
        decreases r - i + 1,
    {
        let ghost before = out@;
        let c1: Point = (x + i, y - r - 1 + i);
        let c2: Point = (x + r + 1 - i, y + i);
        let c3: Point = (x - i, y + r + 1 - i);
        let c4: Point = (x - r - 1 + i, y - i);
        if 0 <= c1.0 && c1.0 <= search_size && 0 <= c1.1 && c1.1 <= search_size {
            out.push(c1);
        }
        if 0 <= c2.0 && c2.0 <= search_size && 0 <= c2.1 && c2.1 <= search_size {
            out.push(c2);
        }
        if 0 <= c3.0 && c3.0 <= search_size && 0 <= c3.1 && c3.1 <= search_size {
            out.push(c3);
        }
        if 0 <= c4.0 && c4.0 <= search_size && 0 <= c4.1 && c4.1 <= search_size {
            out.push(c4);
        }
        proof {
            assert(out@ =~= before + spec_ring4(search_size as int, x, y, r, i as int));
            assert(spec_around_from(search_size as int, x, y, r, i as int) == spec_ring4(
                search_size as int,
                x,
                y,
                r,
                i as int,
            ) + spec_around_from(search_size as int, x, y, r, i as int + 1));
            assert(before + spec_around_from(search_size as int, x, y, r, i as int) =~= out@
                + spec_around_from(search_size as int, x, y, r, i as int + 1));
        }
        i = i + 1;
    }
    proof {
        assert(spec_around_from(search_size as int, x, y, r, i as int) =~= Seq::<Point>::empty());
        assert(out@ + Seq::<Point>::empty() =~= out@);
        lemma_around_from_ring(search_size as int, x, y, r, 0);
        assert forall|q: Point|
            #[trigger] out@.contains(q) <==> (spec_manhattan(q, p) == r + 1 && in_region(
            q,
            search_size as int,
        )) by {
            if spec_manhattan(q, p) == r + 1 && in_region(q, search_size as int) {
                lemma_ring_index_range(x, y, r, q);
            }
        }
    }
    out
}

/// Whether some disk covers the point.
pub fn is_covered(p: Point, coverages: &Vec<(Point, i64)>) -> (r: bool)
    requires
        point_in_limit(p),
        forall|i: int| 0 <= i < coverages@.len() ==> point_in_limit(#[trigger] coverages@[i].0),
    ensures
        r == spec_is_covered(p, coverages@),
{
    let mut i: usize = 0;
    while i < coverages.len()
        invariant
            i <= coverages@.len(),
            point_in_limit(p),
            forall|k: int|
                0 <= k < coverages@.len() ==> point_in_limit(#[trigger] coverages@[k].0),
            forall|k: int|
                0 <= k < i ==> spec_manhattan(p, #[trigger] coverages@[k].0) > coverages@[k].1,
        decreases coverages@.len() - i,
    {
        let (s, rad) = coverages[i];
        if manhattan(p, s) <= rad {
            return true;
        }
        i = i + 1;
    }
    false
}

/// The candidate points of all disks, in search order.
pub open spec fn spec_candidates(search: int, coverages: Seq<(Point, i64)>) -> Seq<Point>
    decreases coverages.len(),
{
    if coverages.len() == 0 {
        Seq::empty()
    } else {
        spec_around(search, coverages[0].0, coverages[0].1) + spec_candidates(
            search,
            coverages.drop_first(),
        )
    }
}

/// The first candidate no disk covers.
pub open spec fn spec_first_uncovered(cands: Seq<Point>, coverages: Seq<(Point, i64)>) -> Option<
    Point,
>
    decreases cands.len(),
{
    if cands.len() == 0 {
        None
    } else if !spec_is_covered(cands[0], coverages) {
        Some(cands[0])
    } else {
        spec_first_uncovered(cands.drop_first(), coverages)
    }
}

proof fn lemma_first_uncovered_append(a: Seq<Point>, b: Seq<Point>, cov: Seq<(Point, i64)>)
    ensures
        spec_first_uncovered(a + b, cov) == match spec_first_uncovered(a, cov) {
            Some(p) => Some(p),
            None => spec_first_uncovered(b, cov),
        },
    decreases a.len(),
{
    if a.len() == 0 {
        assert(a + b =~= b);
    } else {
        assert((a + b)[0] == a[0]);
        assert((a + b).len() > 0);
        assert((a + b).drop_first() =~= a.drop_first() + b);
        lemma_first_uncovered_append(a.drop_first(), b, cov);
    }
}

/// The disk reaches of all pairs: each sensor with its beacon distance.
pub open spec fn spec_coverages(pairs: Seq<(Point, Point)>) -> Seq<(Point, i64)> {
    pairs.map_values(|pr: (Point, Point)| (pr.0, spec_manhattan(pr.0, pr.1) as i64))
}

/// The lone point of the region no disk covers, by searching just
/// outside each disk's boundary.
fn uncovered_search(
    pairs: &Vec<(Point, Point)>,
    search_size: i64,
) -> (r: Result<Point, crate::error::PuzzleError>)
    requires
        0 <= search_size <= SEARCH_LIMIT,
        forall|i: int| 0 <= i < pairs@.len() ==> pair_in_limit(#[trigger] pairs@[i]),
    ensures
        ({
            let cov = spec_coverages(pairs@);
            let first = spec_first_uncovered(
                spec_candidates(search_size as int, cov),
                cov,
            );
            match r {
                Ok(p) => first == Some(p) && !spec_is_covered(p, cov) && in_region(
                    p,
                    search_size as int,
                ),
                Err(e) => first is None && e == crate::error::PuzzleError::NotFound,
            }
        }),
{
    let ghost pv = pairs@;
    let ghost cov = spec_coverages(pv);
    let mut coverages: Vec<(Point, i64)> = Vec::new();
    let mut i: usize = 0;
    while i < pairs.len()
        invariant
            i <= pv.len(),
            pv == pairs@,
            forall|k: int| 0 <= k < pv.len() ==> pair_in_limit(#[trigger] pv[k]),
            cov == spec_coverages(pv),
            cov.len() == pv.len(),
            coverages@ =~= cov.subrange(0, i as int),
        decreases pv.len() - i,
    {
        let (s, b) = pairs[i];
        let d = manhattan(s, b);
        coverages.push((s, d));
        proof {
            assert(cov[i as int] == (pv[i as int].0, spec_manhattan(
                pv[i as int].0,
                pv[i as int].1,
            ) as i64));
            assert(coverages@ =~= cov.subrange(0, i + 1));
        }
        i = i + 1;
    }
    proof {
        assert(coverages@ =~= cov);
    }
    let mut j: usize = 0;
    proof {
        assert(cov.skip(0) =~= cov);
    }
    while j < coverages.len()
        invariant
            j <= cov.len(),
            pv == pairs@,
            cov == spec_coverages(pv),
            cov.len() == pv.len(),
            coverages@ == cov,
            0 <= search_size <= SEARCH_LIMIT,
            forall|k: int| 0 <= k < pv.len() ==> pair_in_limit(#[trigger] pv[k]),
            forall|k: int| 0 <= k < cov.len() ==> point_in_limit(#[trigger] cov[k].0),
            forall|k: int| 0 <= k < cov.len() ==> 0 <= (#[trigger] cov[k].1) <= 4 * COORD_LIMIT,
            spec_first_uncovered(spec_candidates(search_size as int, cov), cov)
                == spec_first_uncovered(
                spec_candidates(search_size as int, cov.skip(j as int)),
                cov,
            ),
        decreases cov.len() - j,
    {
        let (s, rad) = coverages[j];
        let cands = around(search_size, s, rad);
        let ghost rest = spec_candidates(search_size as int, cov.skip(j as int));
        proof {
            assert(cov.skip(j as int)[0] == cov[j as int]);
            assert(cov.skip(j as int).drop_first() =~= cov.skip(j + 1));
            assert(rest == cands@ + spec_candidates(search_size as int, cov.skip(j + 1)));
            lemma_first_uncovered_append(
                cands@,
                spec_candidates(search_size as int, cov.skip(j + 1)),
                cov,
            );
            lemma_around_in_region(search_size as int, s.0, s.1, rad, 0);
        }
        let mut k: usize = 0;
        proof {
            assert(cands@.skip(0) =~= cands@);
        }
        while k < cands.len()
            invariant
                k <= cands@.len(),
                0 <= j < cov.len(),
                cov == spec_coverages(pairs@),
                coverages@ == cov,
                0 <= search_size <= SEARCH_LIMIT,
                spec_first_uncovered(spec_candidates(search_size as int, cov), cov) == (
                match spec_first_uncovered(cands@, cov) {
                    Some(p) => Some(p),
                    None => spec_first_uncovered(
                        spec_candidates(search_size as int, cov.skip(j as int + 1)),
                        cov,
                    ),
                }),
                0 <= search_size <= SEARCH_LIMIT,
                forall|t: int| 0 <= t < cov.len() ==> point_in_limit(#[trigger] cov[t].0),
                forall|t: int| 0 <= t < cands@.len() ==> in_region(#[trigger] cands@[t], search_size as int),
                spec_first_uncovered(cands@.skip(k as int), cov) == spec_first_uncovered(
                    cands@,
                    cov,
                ),
            decreases cands@.len() - k,
        {
            let c = cands[k];
            proof {
                assert(cands@.skip(k as int)[0] == cands@[k as int]);
                assert(cands@.skip(k as int).drop_first() =~= cands@.skip(k + 1));
                assert(in_region(c, search_size as int));
                assert(point_in_limit(c));
            }
            if !is_covered(c, &coverages) {
                proof {
                    assert(!spec_is_covered(c, cov));
                    assert(spec_first_uncovered(cands@.skip(k as int), cov) == Some(c));
                    assert(spec_first_uncovered(cands@, cov) == Some(c));
                    assert(spec_first_uncovered(
                        spec_candidates(search_size as int, cov),
                        cov,
                    ) == Some(c));
                }
                return Ok(c);
            }
            k = k + 1;
        }
        proof {
            assert(cands@.skip(cands@.len() as int) =~= Seq::<Point>::empty());
            assert(spec_first_uncovered(cands@, cov) is None);
        }
        j = j + 1;
    }
    proof {
        assert(cov.skip(cov.len() as int) =~= Seq::<(Point, i64)>::empty());
    }
    Err(crate::error::PuzzleError::NotFound)
}

/// Find the uncovered point and report it as `x * 4000000 + y`.
pub fn solve2(search_size: usize, pairs: Vec<(Point, Point)>) -> (r: i64)
    requires
        search_size <= SEARCH_LIMIT,
        forall|i: int| 0 <= i < pairs@.len() ==> pair_in_limit(#[trigger] pairs@[i]),
        ({
            let cov = spec_coverages(pairs@);
            spec_first_uncovered(spec_candidates(search_size as int, cov), cov) is Some
        }),
    ensures
        ({
            let cov = spec_coverages(pairs@);
            let p = spec_first_uncovered(
                spec_candidates(search_size as int, cov),
                cov,
            ).unwrap();
            r == p.0 * 4000000 + p.1
        }),
{
    let ghost cov = spec_coverages(pairs@);
    let found = uncovered_search(&pairs, search_size as i64);
    let p = match found {
        Ok(p) => p,
        Err(_) => {
            proof {
                assert(false);
            }
            unreached()
        },
    };
    proof {
        lemma_candidates_in_region(search_size as int, cov);
        lemma_first_uncovered_in_region(
            spec_candidates(search_size as int, cov),
            cov,
            search_size as int,
        );
        assert(in_region(p, search_size as int));
        assert(p.0 * 4000000 + p.1 <= SEARCH_LIMIT * 4000000 + SEARCH_LIMIT) by (nonlinear_arith)
            requires
                0 <= p.0 <= search_size <= SEARCH_LIMIT,
                0 <= p.1 <= search_size <= SEARCH_LIMIT,
        ;
        assert(p.0 * 4000000 >= 0) by (nonlinear_arith)
            requires
                p.0 >= 0,
        ;
    }
    p.0 * 4000000 + p.1
}

proof fn lemma_candidates_in_region(search: int, cov: Seq<(Point, i64)>)
    ensures
        forall|k: int|
            0 <= k < spec_candidates(search, cov).len() ==> in_region(
                #[trigger] spec_candidates(search, cov)[k],
                search,
            ),
    decreases cov.len(),
{
    if cov.len() > 0 {
        lemma_around_in_region(search, cov[0].0.0, cov[0].0.1, cov[0].1, 0);
        lemma_candidates_in_region(search, cov.drop_first());
        assert forall|k: int|
            0 <= k < spec_candidates(search, cov).len() implies in_region(
            #[trigger] spec_candidates(search, cov)[k],
            search,
        ) by {
            let head = spec_around(search, cov[0].0, cov[0].1);
            if k >= head.len() {
                assert(spec_candidates(search, cov)[k] == spec_candidates(
                    search,
                    cov.drop_first(),
                )[k - head.len()]);
            }
        }
    }
}

proof fn lemma_first_uncovered_in_region(
    cands: Seq<Point>,
    cov: Seq<(Point, i64)>,
    search: int,
)
    requires
        forall|k: int| 0 <= k < cands.len() ==> in_region(#[trigger] cands[k], search),
        spec_first_uncovered(cands, cov) is Some,
    ensures
        in_region(spec_first_uncovered(cands, cov).unwrap(), search),
    decreases cands.len(),
{
    if cands.len() > 0 && spec_is_covered(cands[0], cov) {
        assert(forall|k: int|
            0 <= k < cands.drop_first().len() ==> in_region(
                #[trigger] cands.drop_first()[k],
                search,
            ));
        lemma_first_uncovered_in_region(cands.drop_first(), cov, search);
    }
}

// ---- the disk view of the same solver ----

/// A sensor's exclusion disk: its center, the beacon that fixes its
/// reach, and the radius, always the Manhattan distance between them.
#[derive(Clone, Copy, Debug)]
pub struct Disk {
    pub center: Point,
    pub beacon: Point,
    pub radius: i64,
}

pub open spec fn disk_wf(d: Disk) -> bool {
    &&& point_in_limit(d.center)
    &&& point_in_limit(d.beacon)
    &&& d.radius == spec_manhattan(d.center, d.beacon)
}

pub open spec fn disk_pairs(disks: Seq<Disk>) -> Seq<(Point, Point)> {
    disks.map_values(|d: Disk| (d.center, d.beacon))
}

/// Whether every line of the text is a well-formed sensor line whose
/// coordinates the solver's arithmetic can carry.
pub open spec fn disks_text_ok(s: Seq<char>) -> bool {
    forall|i: int|
        0 <= i < spec_lines(s).len() ==> {
            let l = #[trigger] spec_lines(s)[i];
            &&& line_ok(l)
            &&& -COORD_LIMIT <= spec_line(l).0.0 <= COORD_LIMIT
            &&& -COORD_LIMIT <= spec_line(l).0.1 <= COORD_LIMIT
            &&& -COORD_LIMIT <= spec_line(l).1.0 <= COORD_LIMIT
            &&& -COORD_LIMIT <= spec_line(l).1.1 <= COORD_LIMIT
        }
}

fn line_ok_exec(l: &Vec<char>) -> (r: bool)
    ensures
        r == (line_ok(l@) && {
            &&& -COORD_LIMIT <= spec_line(l@).0.0 <= COORD_LIMIT
            &&& -COORD_LIMIT <= spec_line(l@).0.1 <= COORD_LIMIT
            &&& -COORD_LIMIT <= spec_line(l@).1.0 <= COORD_LIMIT
            &&& -COORD_LIMIT <= spec_line(l@).1.1 <= COORD_LIMIT
        }),
{
    let sep: Vec<char> = vec![
        ':', ' ', 'c', 'l', 'o', 's', 'e', 's', 't', ' ', 'b', 'e', 'a', 'c', 'o', 'n', ' ', 'i',
        's', ' ', 'a', 't', ' ',
    ];
    proof {
        assert(sep@ =~= sep_beacon());
    }
    let parts = split_at_seq(l, &sep);
    proof {
        assert(views(parts@).len() == parts@.len());
    }
    if parts.len() < 2 {
        return false;
    }
    proof {
        assert(parts@[0]@ == spec_split(l@, sep_beacon())[0]);
        assert(parts@[1]@ == spec_split(l@, sep_beacon())[1]);
    }
    if parts[0].len() < 10 {
        return false;
    }
    let head = &parts[0];
    let mut sensor_part: Vec<char> = Vec::new();
    let mut k: usize = 10;
    while k < head.len()
        invariant
            10 <= k <= head@.len(),
            head@.len() >= 10,
            sensor_part@ == head@.subrange(10, k as int),
        decreases head@.len() - k,
    {
        sensor_part.push(head[k]);
        proof {
            assert(head@.subrange(10, k + 1) =~= head@.subrange(10, k as int).push(
                head@[k as int],
            ));
        }
        k = k + 1;
    }
    proof {
        assert(sensor_part@ =~= head@.skip(10));
    }
    match (point_ok_exec(&sensor_part), point_ok_exec(&parts[1])) {
        (Some(sp), Some(bp)) => {
            -COORD_LIMIT <= sp.0 && sp.0 <= COORD_LIMIT && -COORD_LIMIT <= sp.1 && sp.1
                <= COORD_LIMIT && -COORD_LIMIT <= bp.0 && bp.0 <= COORD_LIMIT && -COORD_LIMIT
                <= bp.1 && bp.1 <= COORD_LIMIT
        },
        _ => false,
    }
}

fn point_ok_exec(p: &Vec<char>) -> (r: Option<Point>)
    ensures
        match r {
            Some(q) => point_ok(p@) && (q.0 as int, q.1 as int) == spec_point(p@),
            None => !point_ok(p@),
        },
{
    let sep: Vec<char> = vec![',', ' '];
    proof {
        assert(sep@ =~= sep_comma_space());
    }
    let parts = split_at_seq(p, &sep);
    proof {
        assert(views(parts@).len() == parts@.len());
    }
    if parts.len() < 2 {
        return None;
    }
    proof {
        assert(parts@[0]@ == spec_split(p@, sep_comma_space())[0]);
        assert(parts@[1]@ == spec_split(p@, sep_comma_space())[1]);
    }
    let eq: Vec<char> = vec!['='];
    proof {
        assert(eq@ =~= sep_eq());
    }
    let xs = split_at_seq(&parts[0], &eq);
    let ys = split_at_seq(&parts[1], &eq);
    proof {
        assert(views(xs@).len() == xs@.len());
        assert(views(ys@).len() == ys@.len());
    }
    if xs.len() < 2 || ys.len() < 2 {
        return None;
    }
    proof {
        assert(xs@[1]@ == spec_split(parts@[0]@, sep_eq())[1]);
        assert(ys@[1]@ == spec_split(parts@[1]@, sep_eq())[1]);
    }
    let x = parse_i64(&xs[1]);
    let y = parse_i64(&ys[1]);
    match (x, y) {
        (Some(xv), Some(yv)) => Some((xv, yv)),
        _ => None,
    }
}

/// Parse the sensor list into disks, rejecting any malformed line.
pub fn parse_disks(text: &str) -> (r: Result<Vec<Disk>, crate::error::PuzzleError>)
    ensures
        match r {
            Ok(ds) => {
                &&& disks_text_ok(text@)
                &&& ds@.len() == spec_lines(text@).len()
                &&& forall|i: int|
                    0 <= i < ds@.len() ==> {
                        let l = spec_lines(text@)[i];
                        &&& disk_wf(#[trigger] ds@[i])
                        &&& (ds@[i].center.0 as int, ds@[i].center.1 as int) == spec_line(l).0
                        &&& (ds@[i].beacon.0 as int, ds@[i].beacon.1 as int) == spec_line(l).1
                    }
            },
            Err(e) => !disks_text_ok(text@) && e == crate::error::PuzzleError::MalformedInput,
        },
{
    let cs = chars_of(text);
    let lines = split_lines(&cs);
    let ghost lv = spec_lines(text@);
    proof {
        assert(views(lines@) == lv);
        assert(views(lines@).len() == lines@.len());
    }
    let mut out: Vec<Disk> = Vec::new();
    let mut i: usize = 0;
    while i < lines.len()
        invariant
            i <= lines@.len(),
            lv == spec_lines(text@),
            lv == views(lines@),
            lv.len() == lines@.len(),
            out@.len() == i,
            forall|k: int|
                0 <= k < i ==> {
                    let l = #[trigger] lv[k];
                    &&& line_ok(l)
                    &&& -COORD_LIMIT <= spec_line(l).0.0 <= COORD_LIMIT
                    &&& -COORD_LIMIT <= spec_line(l).0.1 <= COORD_LIMIT
                    &&& -COORD_LIMIT <= spec_line(l).1.0 <= COORD_LIMIT
                    &&& -COORD_LIMIT <= spec_line(l).1.1 <= COORD_LIMIT
                },
            forall|k: int|
                0 <= k < i ==> {
                    let l = lv[k];
                    &&& disk_wf(#[trigger] out@[k])
                    &&& (out@[k].center.0 as int, out@[k].center.1 as int) == spec_line(l).0
                    &&& (out@[k].beacon.0 as int, out@[k].beacon.1 as int) == spec_line(l).1
                },
        decreases lines@.len() - i,
    {
        proof {
            assert(lines@[i as int]@ == lv[i as int]);
        }
        if !line_ok_exec(&lines[i]) {
            return Err(crate::error::PuzzleError::MalformedInput);
        }
        let (s, b) = line_of(&lines[i]);
        let d = manhattan(s, b);
        out.push(Disk { center: s, beacon: b, radius: d });
        i = i + 1;
    }
    Ok(out)
}

/// Count of distinct excluded, beacon-free cells of line `y`, stated
/// over the disks' centers and beacons.
pub fn excluded_count(disks: &Vec<Disk>, y: i64) -> (r: i64)
    requires
        -COORD_LIMIT <= y <= COORD_LIMIT,
        forall|i: int| 0 <= i < disks@.len() ==> disk_wf(#[trigger] disks@[i]),
        total_width(disk_pairs(disks@), y, disks@.len() as int) <= i64::MAX,
    ensures
        excluded_set(disk_pairs(disks@), y).finite(),
        r == excluded_set(disk_pairs(disks@), y).len(),
{
    let ghost pv = disk_pairs(disks@);
    let mut pairs: Vec<(Point, Point)> = Vec::new();
    let mut i: usize = 0;
    while i < disks.len()
        invariant
            i <= disks@.len(),
            pv == disk_pairs(disks@),
            pv.len() == disks@.len(),
            forall|k: int| 0 <= k < disks@.len() ==> disk_wf(#[trigger] disks@[k]),
            pairs@ =~= pv.subrange(0, i as int),
        decreases disks@.len() - i,
    {
        let d = &disks[i];
        pairs.push((d.center, d.beacon));
        proof {
            assert(pv[i as int] == (disks@[i as int].center, disks@[i as int].beacon));
            assert(pairs@ =~= pv.subrange(0, i + 1));
        }
        i = i + 1;
    }
    proof {
        assert(pairs@ =~= pv);
        assert forall|k: int| 0 <= k < pairs@.len() implies pair_in_limit(
            #[trigger] pairs@[k],
        ) by {
            assert(disk_wf(disks@[k]));
        }
    }
    solve1(y, pairs)
}

/// Within the square region up to `bound`, the unique point no disk
/// covers; the input breaks its uniqueness guarantee when none exists.
pub fn find_uncovered_point(disks: &Vec<Disk>, bound: i64) -> (r: Result<
    Point,
    crate::error::PuzzleError,
>)
    requires
        0 <= bound <= SEARCH_LIMIT,
        forall|i: int| 0 <= i < disks@.len() ==> disk_wf(#[trigger] disks@[i]),
    ensures
        ({
            let cov = spec_coverages(disk_pairs(disks@));
            let first = spec_first_uncovered(spec_candidates(bound as int, cov), cov);
            match r {
                Ok(p) => first == Some(p) && !spec_is_covered(p, cov) && in_region(
                    p,
                    bound as int,
                ),
                Err(e) => first is None && e == crate::error::PuzzleError::NotFound,
            }
        }),
{
    let ghost pv = disk_pairs(disks@);
    let mut pairs: Vec<(Point, Point)> = Vec::new();
    let mut i: usize = 0;
    while i < disks.len()
        invariant
            i <= disks@.len(),
            pv == disk_pairs(disks@),
            pv.len() == disks@.len(),
            forall|k: int| 0 <= k < disks@.len() ==> disk_wf(#[trigger] disks@[k]),
            pairs@ =~= pv.subrange(0, i as int),
        decreases disks@.len() - i,
    {
        let d = &disks[i];
        pairs.push((d.center, d.beacon));
        proof {
            assert(pv[i as int] == (disks@[i as int].center, disks@[i as int].beacon));
            assert(pairs@ =~= pv.subrange(0, i + 1));
        }
        i = i + 1;
    }
    proof {
        assert(pairs@ =~= pv);
        assert forall|k: int| 0 <= k < pairs@.len() implies pair_in_limit(
            #[trigger] pairs@[k],
        ) by {
            assert(disk_wf(disks@[k]));
        }
    }
    uncovered_search(&pairs, bound)
}

// ---- order invariance and the empty line ----

/// Reordering the disk list never changes the excluded set of a line:
/// the set speaks only of which disks exist, not of their order.
pub proof fn lemma_excluded_set_order_invariant(
    p1: Seq<(Point, Point)>,
    p2: Seq<(Point, Point)>,
    y: i64,
)
    requires
        p1.to_multiset() == p2.to_multiset(),
    ensures
        excluded_set(p1, y) == excluded_set(p2, y),
{
    broadcast use vstd::seq_lib::group_to_multiset_ensures;

    assert(p1.len() == p2.len()) by {
        assert(p1.to_multiset().len() == p1.len());
        assert(p2.to_multiset().len() == p2.len());
    }
    assert forall|x: i64|
        excluded_set(p1, y).contains(x) == excluded_set(p2, y).contains(x) by {
        assert(covered(p1, y, x) == covered(p2, y, x)) by {
            if covered(p1, y, x) {
                let i = choose|i: int| 0 <= i < p1.len() && spec_covers_x(#[trigger] p1[i], y, x);
                assert(p1.contains(p1[i]));
                assert(p1.to_multiset().count(p1[i]) > 0);
                assert(p2.to_multiset().count(p1[i]) > 0);
                assert(p2.contains(p1[i]));
                let j = choose|j: int| 0 <= j < p2.len() && p2[j] == p1[i];
                assert(spec_covers_x(p2[j], y, x));
            }
            if covered(p2, y, x) {
                let i = choose|i: int| 0 <= i < p2.len() && spec_covers_x(#[trigger] p2[i], y, x);
                assert(p2.contains(p2[i]));
                assert(p2.to_multiset().count(p2[i]) > 0);
                assert(p1.to_multiset().count(p2[i]) > 0);
                assert(p1.contains(p2[i]));
                let j = choose|j: int| 0 <= j < p1.len() && p1[j] == p2[i];
                assert(spec_covers_x(p1[j], y, x));
            }
        }
        assert(beacon_on_line(p1, y, x) == beacon_on_line(p2, y, x)) by {
            if beacon_on_line(p1, y, x) {
                let i = choose|i: int| 0 <= i < p1.len() && #[trigger] p1[i].1 == (x, y);
                assert(p1.contains(p1[i]));
                assert(p1.to_multiset().count(p1[i]) > 0);
                assert(p2.to_multiset().count(p1[i]) > 0);
                assert(p2.contains(p1[i]));
                let j = choose|j: int| 0 <= j < p2.len() && p2[j] == p1[i];
                assert(p2[j].1 == (x, y));
            }
            if beacon_on_line(p2, y, x) {
                let i = choose|i: int| 0 <= i < p2.len() && #[trigger] p2[i].1 == (x, y);
                assert(p2.contains(p2[i]));
                assert(p2.to_multiset().count(p2[i]) > 0);
                assert(p1.to_multiset().count(p2[i]) > 0);
                assert(p1.contains(p2[i]));
                let j = choose|j: int| 0 <= j < p1.len() && p1[j] == p2[i];
                assert(p1[j].1 == (x, y));
            }
        }
    }
    assert(excluded_set(p1, y) =~= excluded_set(p2, y));
}

/// A line no disk reaches has an empty excluded set, so its count is zero.
pub proof fn lemma_no_disk_reaches_line(pairs: Seq<(Point, Point)>, y: i64)
    requires
        forall|i: int|
            0 <= i < pairs.len() ==> spec_manhattan(#[trigger] pairs[i].0, pairs[i].1) - spec_abs(
                y - pairs[i].0.1,
            ) < 0,
    ensures
        excluded_set(pairs, y) =~= Set::<i64>::empty(),
        excluded_set(pairs, y).len() == 0,
{
    assert forall|x: i64| !excluded_set(pairs, y).contains(x) by {
        if covered(pairs, y, x) {
            let i = choose|i: int|
                0 <= i < pairs.len() && spec_covers_x(#[trigger] pairs[i], y, x);
        }
    }
    assert(excluded_set(pairs, y) =~= Set::<i64>::empty());
}


} // verus!
