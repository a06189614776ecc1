//! Falling sand over rock walls: build an occupancy map from wall
//! paths, then drop sand grains from a fixed source until they flow
//! past the lowest rock (or, with a floor added, until the source
//! clogs), and count the grains at rest.

use vstd::prelude::*;
use crate::text::{chars_of, split_lines, split_at_seq, parse_i64, spec_split, spec_lines, is_i64_numeral, int_value, views};

verus! {

pub type Point = (i64, i64);

/// Coordinates the wall and sand arithmetic stays exact for.
pub const SPAN_LIMIT: i64 = 0x1000000000000000;

pub open spec fn point_in_span(p: Point) -> bool {
    -SPAN_LIMIT <= p.0 <= SPAN_LIMIT && -SPAN_LIMIT <= p.1 <= SPAN_LIMIT
}

// ---- parsing ----

pub open spec fn point_ok(s: Seq<char>) -> bool {
    let ps = spec_split(s, seq![',']);
    ps.len() >= 2 && is_i64_numeral(ps[0]) && is_i64_numeral(ps[1])
}

pub open spec fn spec_point(s: Seq<char>) -> (int, int) {
    let ps = spec_split(s, seq![',']);
    (int_value(ps[0]), int_value(ps[1]))
}

/// Parse an `x,y` pair.
pub fn parse_point(s: &str) -> (r: Point)
    requires
        point_ok(s@),
    ensures
        (r.0 as int, r.1 as int) == spec_point(s@),
{
    let cs = chars_of(s);
    point_of(&cs)
}

fn point_of(p: &Vec<char>) -> (r: Point)
    requires
        point_ok(p@),
    ensures
        (r.0 as int, r.1 as int) == spec_point(p@),
{
    let sep: Vec<char> = vec![','];
    proof {
        assert(sep@ =~= seq![',']);
    }
    let parts = split_at_seq(p, &sep);
    proof {
        assert(views(parts@).len() == parts@.len());
        assert(parts@[0]@ == spec_split(p@, seq![','])[0]);
        assert(parts@[1]@ == spec_split(p@, seq![','])[1]);
    }
    let x = parse_i64(&parts[0]).unwrap();
    let y = parse_i64(&parts[1]).unwrap();
    (x, y)
}

pub open spec fn arrow_sep() -> Seq<char> {
    seq![' ', '-', '>', ' ']
}

pub open spec fn line_ok(s: Seq<char>) -> bool {
    let ps = spec_split(s, arrow_sep());
    forall|i: int| 0 <= i < ps.len() ==> point_ok(#[trigger] ps[i])
}

/// Parse one wall path of ` -> `-separated corner points.
pub fn parse_line(s: &str) -> (r: Vec<Point>)
    requires
        line_ok(s@),
    ensures
        r@.len() == spec_split(s@, arrow_sep()).len(),
        forall|i: int|
            0 <= i < r@.len() ==> ((#[trigger] r@[i]).0 as int, r@[i].1 as int) == spec_point(
                spec_split(s@, arrow_sep())[i],
            ),
{
    let cs = chars_of(s);
    let sep: Vec<char> = vec![' ', '-', '>', ' '];
    proof {
        assert(sep@ =~= arrow_sep());
    }
    let parts = split_at_seq(&cs, &sep);
    let ghost ps = spec_split(s@, arrow_sep());
    proof {
        assert(views(parts@).len() == parts@.len());
    }
    let mut r: Vec<Point> = Vec::new();
    let mut i: usize = 0;
    while i < parts.len()
        invariant
            i <= parts@.len(),
            ps == spec_split(cs@, arrow_sep()),
            cs@ == s@,
            views(parts@) == ps,
            views(parts@).len() == parts@.len(),
            forall|k: int| 0 <= k < ps.len() ==> point_ok(#[trigger] ps[k]),
            r@.len() == i,
            forall|k: int|
                0 <= k < i ==> ((#[trigger] r@[k]).0 as int, r@[k].1 as int) == spec_point(ps[k]),
        decreases parts@.len() - i,
    {
        proof {
            assert(parts@[i as int]@ == ps[i as int]);
        }
        let p = point_of(&parts[i]);
        r.push(p);
        i = i + 1;
    }
    r
}

pub open spec fn input_ok(s: Seq<char>) -> bool {
    forall|i: int| 0 <= i < spec_lines(s).len() ==> line_ok(#[trigger] spec_lines(s)[i])
}

/// Parse all wall paths.
pub fn parse(s: &str) -> (r: Vec<Vec<Point>>)
    requires
        input_ok(s@),
    ensures
        r@.len() == spec_lines(s@).len(),
        forall|i: int|
            0 <= i < r@.len() ==> {
                let line = spec_lines(s@)[i];
                let ps = spec_split(line, arrow_sep());
                &&& (#[trigger] r@[i])@.len() == ps.len()
                &&& forall|k: int|
                    0 <= k < ps.len() ==> ((#[trigger] r@[i]@[k]).0 as int, r@[i]@[k].1 as int)
                        == spec_point(ps[k])
            },
{
    let cs = chars_of(s);
    let lines = split_lines(&cs);
    let ghost lv = spec_lines(s@);
    proof {
        assert(views(lines@) == lv);
        assert(views(lines@).len() == lines@.len());
    }
    let mut out: Vec<Vec<Point>> = Vec::new();
    let mut i: usize = 0;
    while i < lines.len()
        invariant
            i <= lines@.len(),
            lv == spec_lines(s@),
            lv == views(lines@),
            lv.len() == lines@.len(),
            forall|k: int| 0 <= k < lv.len() ==> line_ok(#[trigger] lv[k]),
            out@.len() == i,
            forall|k: int|
                0 <= k < i ==> {
                    let line = lv[k];
                    let ps = spec_split(line, arrow_sep());
                    &&& (#[trigger] out@[k])@.len() == ps.len()
                    &&& forall|t: int|
                        0 <= t < ps.len() ==> ((#[trigger] out@[k]@[t]).0 as int,
                        out@[k]@[t].1 as int) == spec_point(ps[t])
                },
        decreases lines@.len() - i,
    {
        proof {
            assert(lines@[i as int]@ == lv[i as int]);
        }
        let line_cs = &lines[i];
        let sep: Vec<char> = vec![' ', '-', '>', ' '];
        proof {
            assert(sep@ =~= arrow_sep());
        }
        let parts = split_at_seq(line_cs, &sep);
        let ghost ps = spec_split(lv[i as int], arrow_sep());
        proof {
            assert(views(parts@) == ps);
            assert(views(parts@).len() == parts@.len());
        }
        let mut row: Vec<Point> = Vec::new();
        let mut k: usize = 0;
        while k < parts.len()
            invariant
                k <= parts@.len(),
                views(parts@) == ps,
                views(parts@).len() == parts@.len(),
                forall|t: int| 0 <= t < ps.len() ==> point_ok(#[trigger] ps[t]),
                row@.len() == k,
                forall|t: int|
                    0 <= t < k ==> ((#[trigger] row@[t]).0 as int, row@[t].1 as int)
                        == spec_point(ps[t]),
            decreases parts@.len() - k,
        {
            proof {
                assert(parts@[k as int]@ == ps[k as int]);
            }
            let p = point_of(&parts[k]);
            row.push(p);
            k = k + 1;
        }
        out.push(row);
        i = i + 1;
    }
    out
}

// ---- wall geometry ----

/// The points of the axis-aligned segment between two corners, low
/// coordinate first; a bent pair follows the first corner's row.
pub open spec fn spec_segment(a: Point, b: Point) -> Seq<Point> {
    if a.0 == b.0 {
        if a.1 < b.1 {
            Seq::new((b.1 - a.1 + 1) as nat, |k: int| (a.0, (a.1 + k) as i64))
        } else {
            Seq::new((a.1 - b.1 + 1) as nat, |k: int| (a.0, (b.1 + k) as i64))
        }
    } else {
        if a.0 < b.0 {
            Seq::new((b.0 - a.0 + 1) as nat, |k: int| ((a.0 + k) as i64, a.1))
        } else {
            Seq::new((a.0 - b.0 + 1) as nat, |k: int| ((b.0 + k) as i64, a.1))
        }
    }
}

/// The cells of one straight wall segment.
pub fn segment_points(a: Point, b: Point) -> (r: Vec<Point>)
    requires
        point_in_span(a),
        point_in_span(b),
    ensures
        r@ == spec_segment(a, b),
{
    let (a1, a2) = a;
    let (b1, b2) = b;
    let mut r: Vec<Point> = Vec::new();
    if a1 == b1 {
        let (lo, hi) = if a2 < b2 {
            (a2, b2)
        } else {
            (b2, a2)
        };
        let mut v = lo;
        while v <= hi
            invariant
                lo <= v <= hi + 1,
                -SPAN_LIMIT <= lo <= hi <= SPAN_LIMIT,
                r@.len() == v - lo,
                forall|k: int| 0 <= k < r@.len() ==> #[trigger] r@[k] == (a1, (lo + k) as i64),
            decreases hi + 1 - v,
        {
            r.push((a1, v));
            v = v + 1;
        }
        proof {
            assert(r@ =~= spec_segment(a, b));
        }
    } else {
        let (lo, hi) = if a1 < b1 {
            (a1, b1)
        } else {
            (b1, a1)
        };
        let mut v = lo;
        while v <= hi
            invariant
                lo <= v <= hi + 1,
                -SPAN_LIMIT <= lo <= hi <= SPAN_LIMIT,
                r@.len() == v - lo,
                forall|k: int| 0 <= k < r@.len() ==> #[trigger] r@[k] == ((lo + k) as i64, a2),
            decreases hi + 1 - v,
        {
            r.push((v, a2));
            v = v + 1;
        }
        proof {
            assert(r@ =~= spec_segment(a, b));
        }
    }
    r
}

/// All wall cells of a path: its segments between consecutive corners.
pub open spec fn spec_wall(ps: Seq<Point>) -> Seq<Point>
    decreases ps.len(),
{
    if ps.len() < 2 {
        Seq::empty()
    } else {
        spec_wall(ps.drop_last()) + spec_segment(ps[ps.len() - 2], ps[ps.len() - 1])
    }
}

/// The cells of every wall segment along a path.
pub fn wall_points(ps: &Vec<Point>) -> (r: Vec<Point>)
    requires
        forall|i: int| 0 <= i < ps@.len() ==> point_in_span(#[trigger] ps@[i]),
    ensures
        r@ == spec_wall(ps@),
{
    let mut r: Vec<Point> = Vec::new();
    if ps.len() < 2 {
        proof {
            assert(r@ =~= spec_wall(ps@));
        }
        return r;
    }
    let mut i: usize = 1;
    proof {
        assert(ps@.subrange(0, 1).len() < 2);
        assert(r@ =~= spec_wall(ps@.subrange(0, 1)));
    }
    while i < ps.len()
        invariant
            1 <= i <= ps@.len(),
            forall|k: int| 0 <= k < ps@.len() ==> point_in_span(#[trigger] ps@[k]),
            r@ == spec_wall(ps@.subrange(0, i as int)),
        decreases ps@.len() - i,
    {
        let mut seg = segment_points(ps[i - 1], ps[i]);
        proof {
            let pre = ps@.subrange(0, i + 1);
            assert(pre.drop_last() =~= ps@.subrange(0, i as int));
            assert(pre[pre.len() - 2] == ps@[i - 1]);
            assert(pre[pre.len() - 1] == ps@[i as int]);
        }
        r.append(&mut seg);
        i = i + 1;
    }
    proof {
        assert(ps@.subrange(0, ps@.len() as int) =~= ps@);
    }
    r
}

// ---- the cave and the falling sand ----

/// The cave: its lowest rock row and the occupied cells, each with the
/// character drawn there.
pub struct Cave {
    pub height: i64,
    pub cells: Vec<(Point, char)>,
}

pub open spec fn occupied(cs: Seq<(Point, char)>, x: int, y: int) -> bool {
    exists|k: int| 0 <= k < cs.len() && ((#[trigger] cs[k]).0.0 == x && cs[k].0.1 == y)
}

/// Unique keys, every cell at or above the height line, coordinates in
/// span.
pub open spec fn cave_wf(c: Cave) -> bool {
    &&& forall|i: int, j: int|
        0 <= i < j < c.cells@.len() ==> (#[trigger] c.cells@[i]).0 != (#[trigger] c.cells@[j]).0
    &&& forall|k: int| 0 <= k < c.cells@.len() ==> point_in_span((#[trigger] c.cells@[k]).0)
    &&& 0 <= c.height <= SPAN_LIMIT - 502
}

fn cells_occupied(cells: &Vec<(Point, char)>, x: i64, y: i64) -> (r: bool)
    ensures
        r == occupied(cells@, x as int, y as int),
{
    let mut k: usize = 0;
    while k < cells.len()
        invariant
            k <= cells@.len(),
            forall|t: int|
                0 <= t < k ==> !((#[trigger] cells@[t]).0.0 == x && cells@[t].0.1 == y),
        decreases cells@.len() - k,
    {
        let (p, _) = cells[k];
        if p.0 == x && p.1 == y {
            return true;
        }
        k = k + 1;
    }
    false
}

/// The first free cell below `(x, y)`: straight down, then down-left,
/// then down-right.
pub open spec fn spec_fall_step(cs: Seq<(Point, char)>, x: int, y: int) -> Option<(int, int)> {
    if !occupied(cs, x, y + 1) {
        Some((x, y + 1))
    } else if !occupied(cs, x - 1, y + 1) {
        Some((x - 1, y + 1))
    } else if !occupied(cs, x + 1, y + 1) {
        Some((x + 1, y + 1))
    } else {
        None
    }
}

/// Try to move a grain one step down from `p`.
pub fn drop_sand_1(map: &Cave, p: Point) -> (r: Option<Point>)
    requires
        point_in_span(p),
        p.1 <= map.height,
    ensures
        match r {
            Some(q) => spec_fall_step(map.cells@, p.0 as int, p.1 as int) == Some(
                (q.0 as int, q.1 as int),
            ),
            None => spec_fall_step(map.cells@, p.0 as int, p.1 as int) is None,
        },
{
    let (x, y) = p;
    if !cells_occupied(&map.cells, x, y + 1) {
        Some((x, y + 1))
    } else if !cells_occupied(&map.cells, x - 1, y + 1) {
        Some((x - 1, y + 1))
    } else if !cells_occupied(&map.cells, x + 1, y + 1) {
        Some((x + 1, y + 1))
    } else {
        None
    }
}

/// Where a grain dropped at `(x, y)` comes to rest, or `None` when it
/// falls past the lowest rock.
pub open spec fn spec_descend(cs: Seq<(Point, char)>, height: int, x: int, y: int) -> Option<
    (int, int),
>
    decreases height + 1 - y,
    when y <= height + 1
{
    if y > height {
        None
    } else {
        match spec_fall_step(cs, x, y) {
            Some(q) => spec_descend(cs, height, q.0, q.1),
            None => Some((x, y)),
        }
    }
}

/// Where a grain released at the source comes to rest.
pub open spec fn spec_drop(cs: Seq<(Point, char)>, height: int) -> Option<(int, int)> {
    if occupied(cs, 500, 0) {
        None
    } else {
        spec_descend(cs, height, 500, 0)
    }
}

/// A resting grain sits free, near the source column, above the ground.
proof fn lemma_descend_props(cs: Seq<(Point, char)>, height: int, x: int, y: int)
    requires
        0 <= y <= height + 1,
        height >= 0,
        !occupied(cs, x, y),
    ensures
        match spec_descend(cs, height, x, y) {
            Some(p) => {
                &&& !occupied(cs, p.0, p.1)
                &&& y <= p.1 <= height
                &&& p.0 - x <= p.1 - y
                &&& x - p.0 <= p.1 - y
            },
            None => true,
        },
    decreases height + 1 - y,
{
    if y > height {
    } else {
        match spec_fall_step(cs, x, y) {
            Some(q) => {
                lemma_descend_props(cs, height, q.0, q.1);
            },
            None => {},
        }
    }
}

/// Drop one grain from the source.
pub fn drop_sand(map: &Cave) -> (r: Option<Point>)
    requires
        cave_wf(*map),
    ensures
        match r {
            Some(p) => {
                &&& spec_drop(map.cells@, map.height as int) == Some((p.0 as int, p.1 as int))
                &&& point_in_span(p)
                &&& 0 <= p.1 <= map.height
                &&& p.0 - 500 <= p.1
                &&& 500 - p.0 <= p.1
                &&& !occupied(map.cells@, p.0 as int, p.1 as int)
            },
            None => spec_drop(map.cells@, map.height as int) is None,
        },
{
    let mut new_sand: Point = (500, 0);
    if cells_occupied(&map.cells, 500, 0) {
        return None;
    }
    proof {
        lemma_descend_props(map.cells@, map.height as int, 500, 0);
    }
    while new_sand.1 <= map.height
        invariant
            cave_wf(*map),
            !occupied(map.cells@, 500, 0),
            0 <= new_sand.1 <= map.height + 1,
            new_sand.0 - 500 <= new_sand.1,
            500 - new_sand.0 <= new_sand.1,
            spec_descend(map.cells@, map.height as int, 500, 0) == spec_descend(
                map.cells@,
                map.height as int,
                new_sand.0 as int,
                new_sand.1 as int,
            ),
            !occupied(map.cells@, new_sand.0 as int, new_sand.1 as int),
        decreases map.height + 1 - new_sand.1,
    {
        proof {
            assert(point_in_span(new_sand));
        }
        match drop_sand_1(map, new_sand) {
            Some(next_sand) => {
                new_sand = next_sand;
            },
            None => {
                proof {
                    lemma_descend_props(
                        map.cells@,
                        map.height as int,
                        new_sand.0 as int,
                        new_sand.1 as int,
                    );
                }
                return Some(new_sand);
            },
        }
    }
    None
}

/// The map after `n` grains have been dropped and come to rest, or
/// fewer when the flow stabilises first.
pub open spec fn spec_play_n(cs: Seq<(Point, char)>, height: int, n: nat) -> Seq<(Point, char)>
    decreases n,
{
    if n == 0 {
        cs
    } else {
        match spec_drop(cs, height) {
            None => cs,
            Some(p) => spec_play_n(cs.push((((p.0 as i64), (p.1 as i64)), 'o')), height, (n - 1) as nat),
        }
    }
}

/// Free cells of the diamond box the sand can rest in.
pub open spec fn free_in_row(cs: Seq<(Point, char)>, y: int, lo: int, hi: int) -> int
    decreases hi - lo + 1,
    when lo <= hi + 1
{
    if lo > hi {
        0
    } else {
        (if occupied(cs, lo, y) {
            0int
        } else {
            1int
        }) + free_in_row(cs, y, lo + 1, hi)
    }
}

pub open spec fn free_in_box(cs: Seq<(Point, char)>, height: int, y: int) -> int
    decreases height + 1 - y,
    when y <= height + 1
{
    if y > height {
        0
    } else {
        free_in_row(cs, y, 500 - height - 1, 500 + height + 1) + free_in_box(cs, height, y + 1)
    }
}

proof fn lemma_free_in_row_nonneg(cs: Seq<(Point, char)>, y: int, lo: int, hi: int)
    requires
        lo <= hi + 1,
    ensures
        free_in_row(cs, y, lo, hi) >= 0,
    decreases hi - lo + 1,
{
    if lo <= hi {
        lemma_free_in_row_nonneg(cs, y, lo + 1, hi);
    }
}

proof fn lemma_free_in_box_nonneg(cs: Seq<(Point, char)>, height: int, y: int)
    requires
        y <= height + 1,
        height >= 0,
    ensures
        free_in_box(cs, height, y) >= 0,
    decreases height + 1 - y,
{
    if y <= height {
        lemma_free_in_row_nonneg(cs, y, 500 - height - 1, 500 + height + 1);
        lemma_free_in_box_nonneg(cs, height, y + 1);
    }
}

/// Occupying one free cell of a row lowers its free count by one;
/// occupying a cell elsewhere leaves it unchanged.
proof fn lemma_free_in_row_insert(
    cs: Seq<(Point, char)>,
    p: (int, int),
    c: char,
    y: int,
    lo: int,
    hi: int,
)
    requires
        lo <= hi + 1,
        !occupied(cs, p.0, p.1),
        -SPAN_LIMIT <= p.0 <= SPAN_LIMIT,
        -SPAN_LIMIT <= p.1 <= SPAN_LIMIT,
    ensures
        free_in_row(cs.push((((p.0 as i64), (p.1 as i64)), c)), y, lo, hi) == free_in_row(
            cs,
            y,
            lo,
            hi,
        ) - if p.1 == y && lo <= p.0 <= hi {
            1int
        } else {
            0int
        },
    decreases hi - lo + 1,
{
    let cs2 = cs.push((((p.0 as i64), (p.1 as i64)), c));
    if lo <= hi {
        lemma_free_in_row_insert(cs, p, c, y, lo + 1, hi);
        assert(occupied(cs, lo, y) ==> occupied(cs2, lo, y)) by {
            if occupied(cs, lo, y) {
                let k = choose|k: int|
                    0 <= k < cs.len() && ((#[trigger] cs[k]).0.0 == lo && cs[k].0.1 == y);
                assert(cs2[k] == cs[k]);
            }
        }
        if p.0 == lo && p.1 == y {
            assert(cs2[cs.len() as int].0.0 as int == lo && cs2[cs.len() as int].0.1 as int
                == y);
            assert(occupied(cs2, lo, y));
        } else {
            assert(occupied(cs2, lo, y) ==> occupied(cs, lo, y)) by {
                if occupied(cs2, lo, y) {
                    let k = choose|k: int|
                        0 <= k < cs2.len() && ((#[trigger] cs2[k]).0.0 == lo && cs2[k].0.1
                            == y);
                    if k < cs.len() {
                        assert(cs[k] == cs2[k]);
                    } else {
                        assert(cs2[k] == (((p.0 as i64), (p.1 as i64)), c));
                    }
                }
            }
        }
    }
}

proof fn lemma_free_in_box_insert(
    cs: Seq<(Point, char)>,
    p: (int, int),
    c: char,
    height: int,
    y: int,
)
    requires
        y <= height + 1,
        height >= 0,
        !occupied(cs, p.0, p.1),
        y <= p.1 <= height,
        500 - height - 1 <= p.0 <= 500 + height + 1,
        -SPAN_LIMIT <= p.0 <= SPAN_LIMIT,
        -SPAN_LIMIT <= p.1 <= SPAN_LIMIT,
    ensures
        free_in_box(cs.push((((p.0 as i64), (p.1 as i64)), c)), height, y) == free_in_box(
            cs,
            height,
            y,
        ) - 1,
    decreases height + 1 - y,
{
    lemma_free_in_row_insert(cs, p, c, y, 500 - height - 1, 500 + height + 1);
    if p.1 == y {
        assert(500 - height - 1 <= p.0 <= 500 + height + 1);
        assert forall|yy: int| y + 1 <= yy <= height + 1 implies free_in_box(
            cs.push((((p.0 as i64), (p.1 as i64)), c)),
            height,
            yy,
        ) == free_in_box(cs, height, yy) by {
            lemma_free_in_box_same(cs, p, c, height, yy);
        }
        assert(free_in_box(cs.push((((p.0 as i64), (p.1 as i64)), c)), height, y + 1)
            == free_in_box(cs, height, y + 1));
    } else {
        lemma_free_in_box_insert(cs, p, c, height, y + 1);
    }
}

proof fn lemma_free_in_box_same(
    cs: Seq<(Point, char)>,
    p: (int, int),
    c: char,
    height: int,
    y: int,
)
    requires
        y <= height + 1,
        height >= 0,
        !occupied(cs, p.0, p.1),
        -SPAN_LIMIT <= p.0 <= SPAN_LIMIT,
        -SPAN_LIMIT <= p.1 <= SPAN_LIMIT,
        p.1 < y,
    ensures
        free_in_box(cs.push((((p.0 as i64), (p.1 as i64)), c)), height, y) == free_in_box(
            cs,
            height,
            y,
        ),
    decreases height + 1 - y,
{
    if y <= height {
        lemma_free_in_row_insert(cs, p, c, y, 500 - height - 1, 500 + height + 1);
        lemma_free_in_box_same(cs, p, c, height, y + 1);
    }
}

/// Unrolling one more grain appends exactly the grain that drops next.
proof fn lemma_play_snoc(cs: Seq<(Point, char)>, height: int, n: nat)
    requires
        spec_drop(spec_play_n(cs, height, n), height) is Some,
    ensures
        ({
            let p = spec_drop(spec_play_n(cs, height, n), height).unwrap();
            spec_play_n(cs, height, n + 1) == spec_play_n(cs, height, n).push(
                (((p.0 as i64), (p.1 as i64)), 'o'),
            )
        }),
    decreases n,
{
    if n == 0 {
        let p = spec_drop(cs, height).unwrap();
        let cs1 = cs.push((((p.0 as i64), (p.1 as i64)), 'o'));
        assert(spec_play_n(cs, height, 0) == cs);
        assert(spec_play_n(cs, height, 1) == spec_play_n(cs1, height, 0));
        assert(spec_play_n(cs1, height, 0) == cs1);
    } else {
        match spec_drop(cs, height) {
            None => {
                assert(spec_play_n(cs, height, n) == cs);
                assert(spec_play_n(cs, height, n + 1) == cs);
                assert(spec_drop(spec_play_n(cs, height, n), height) is None);
            },
            Some(q) => {
                let cs1 = cs.push((((q.0 as i64), (q.1 as i64)), 'o'));
                assert(spec_play_n(cs, height, n) == spec_play_n(cs1, height, (n - 1) as nat));
                lemma_play_snoc(cs1, height, (n - 1) as nat);
                assert(spec_play_n(cs, height, n + 1) == spec_play_n(cs1, height, n));
            },
        }
    }
}

/// Drop grains until one falls past the lowest rock or the source
/// clogs; every grain at rest is recorded.
pub fn play(map: &mut Cave)
    requires
        cave_wf(*old(map)),
    ensures
        cave_wf(*final(map)),
        final(map).height == old(map).height,
        exists|n: nat|
            final(map).cells@ == #[trigger] spec_play_n(
                old(map).cells@,
                old(map).height as int,
                n,
            ),
        spec_drop(final(map).cells@, final(map).height as int) is None,
{
    let ghost cs0 = map.cells@;
    let ghost h = map.height as int;
    let ghost mut n: nat = 0nat;
    proof {
        lemma_free_in_box_nonneg(map.cells@, h, 0);
    }
    loop
        invariant
            cave_wf(*map),
            map.height as int == h,
            h == old(map).height as int,
            cs0 == old(map).cells@,
            map.cells@ == spec_play_n(cs0, h, n),
        decreases free_in_box(map.cells@, h, 0),
    {
        proof {
            lemma_free_in_box_nonneg(map.cells@, h, 0);
        }
        match drop_sand(map) {
            Some(next_sand) => {
                let ghost before = map.cells@;
                proof {
                    lemma_free_in_box_insert(
                        before,
                        (next_sand.0 as int, next_sand.1 as int),
                        'o',
                        h,
                        0,
                    );
                    lemma_play_snoc(cs0, h, n);
                }
                map.cells.push((next_sand, 'o'));
                proof {
                    assert(map.cells@ == before.push((next_sand, 'o')));
                    assert((((next_sand.0 as int) as i64), ((next_sand.1 as int) as i64))
                        == next_sand);
                    assert forall|i: int, j: int|
                        0 <= i < j < map.cells@.len() implies (#[trigger] map.cells@[i]).0 != (
                    #[trigger] map.cells@[j]).0 by {
                        if j == map.cells@.len() - 1 {
                            assert(map.cells@[i] == before[i]);
                            if before[i].0 == next_sand {
                                assert(occupied(
                                    before,
                                    next_sand.0 as int,
                                    next_sand.1 as int,
                                ));
                            }
                        }
                    }
                    n = n + 1;
                    assert(map.cells@ == spec_play_n(cs0, h, n));
                    lemma_free_in_box_nonneg(map.cells@, h, 0);
                }
            },
            None => {
                proof {
                    assert(map.cells@ == spec_play_n(cs0, h, n));
                }
                return ;
            },
        }
    }
}

pub open spec fn count_sand(cs: Seq<(Point, char)>) -> int
    decreases cs.len(),
{
    if cs.len() == 0 {
        0
    } else {
        count_sand(cs.drop_last()) + if cs.last().1 == 'o' {
            1int
        } else {
            0int
        }
    }
}

/// Run the sand to rest and count the grains.
pub fn solve1(map: &mut Cave) -> (r: usize)
    requires
        cave_wf(*old(map)),
    ensures
        cave_wf(*final(map)),
        final(map).height == old(map).height,
        exists|n: nat|
            final(map).cells@ == #[trigger] spec_play_n(
                old(map).cells@,
                old(map).height as int,
                n,
            ),
        spec_drop(final(map).cells@, final(map).height as int) is None,
        r == count_sand(final(map).cells@),
{
    play(map);
    let mut cnt: usize = 0;
    let mut k: usize = 0;
    while k < map.cells.len()
        invariant
            k <= map.cells@.len(),
            cnt <= k,
            cnt == count_sand(map.cells@.subrange(0, k as int)),
        decreases map.cells@.len() - k,
    {
        proof {
            assert(map.cells@.subrange(0, k + 1).drop_last() =~= map.cells@.subrange(
                0,
                k as int,
            ));
            assert(map.cells@.subrange(0, k + 1).last() == map.cells@[k as int]);
        }
        let (_, c) = map.cells[k];
        if c == 'o' {
            cnt = cnt + 1;
        }
        k = k + 1;
    }
    proof {
        assert(map.cells@.subrange(0, map.cells@.len() as int) =~= map.cells@);
    }
    cnt
}

/// The floor row: a wide wall two rows below the lowest rock.
pub open spec fn floor_cells(h2: int) -> Seq<(Point, char)> {
    Seq::new(1000, |x: int| (((x as i64), (h2 as i64)), '#'))
}

/// Add a floor, then run the sand until the source clogs, and count.
pub fn solve2(map: &mut Cave) -> (r: usize)
    requires
        cave_wf(*old(map)),
        forall|k: int|
            0 <= k < old(map).cells@.len() ==> (#[trigger] old(map).cells@[k]).0.1 <= old(
                map,
            ).height,
        old(map).height + 2 <= SPAN_LIMIT - 502,
    ensures
        cave_wf(*final(map)),
        exists|n: nat|
            final(map).cells@ == #[trigger] spec_play_n(
                old(map).cells@ + floor_cells(old(map).height + 2),
                old(map).height + 2,
                n,
            ),
        spec_drop(final(map).cells@, final(map).height as int) is None,
        final(map).height == old(map).height + 2,
        r == count_sand(final(map).cells@),
{
    let ghost cs0 = map.cells@;
    let h2 = map.height + 2;
    map.height = h2;
    let mut x: i64 = 0;
    while x < 1000
        invariant
            0 <= x <= 1000,
            map.height == h2,
            map.cells@ == cs0 + floor_cells(h2 as int).subrange(0, x as int),
            cave_wf(*map),
            forall|k: int| 0 <= k < cs0.len() ==> (#[trigger] cs0[k]).0.1 <= h2 - 2,
            0 <= h2 <= SPAN_LIMIT - 502,
        decreases 1000 - x,
    {
        let ghost before = map.cells@;
        map.cells.push(((x, h2), '#'));
        proof {
            assert(floor_cells(h2 as int)[x as int] == ((x, h2), '#'));
            assert(map.cells@ =~= cs0 + floor_cells(h2 as int).subrange(0, x + 1));
            assert forall|i: int, j: int|
                0 <= i < j < map.cells@.len() implies (#[trigger] map.cells@[i]).0 != (
            #[trigger] map.cells@[j]).0 by {
                if j == map.cells@.len() - 1 {
                    assert(map.cells@[j].0 == (x, h2));
                    if i < cs0.len() {
                        assert(map.cells@[i] == cs0[i]);
                        assert(cs0[i].0.1 <= h2 - 2);
                    } else {
                        assert(map.cells@[i] == floor_cells(h2 as int)[i - cs0.len()]);
                        assert(map.cells@[i].0.0 == i - cs0.len() < x);
                    }
                }
            }
        }
        x = x + 1;
    }
    proof {
        assert(map.cells@ =~= cs0 + floor_cells(h2 as int));
    }
    solve1(map)
}


/// Every wall cell of every path.
pub open spec fn all_wall_points(walls: Seq<Vec<Point>>) -> Seq<Point>
    decreases walls.len(),
{
    if walls.len() == 0 {
        Seq::empty()
    } else {
        all_wall_points(walls.drop_last()) + spec_wall(walls.last()@)
    }
}

pub open spec fn max_y(ps: Seq<Point>) -> int
    decreases ps.len(),
{
    if ps.len() == 0 {
        0
    } else {
        let m = max_y(ps.drop_last());
        if ps.last().1 > m {
            ps.last().1 as int
        } else {
            m
        }
    }
}

/// Build the cave: the wall cells marked as rock, and the height of
/// the lowest rock row.
pub fn build_map(walls: Vec<Vec<Point>>) -> (r: Cave)
    requires
        forall|i: int, k: int|
            0 <= i < walls@.len() && 0 <= k < walls@[i]@.len() ==> {
                let p = #[trigger] walls@[i]@[k];
                -SPAN_LIMIT + 502 <= p.0 <= SPAN_LIMIT - 502 && 0 <= p.1 <= SPAN_LIMIT - 502
            },
    ensures
        cave_wf(r),
        r.height == max_y(all_wall_points(walls@)),
        forall|x: int, y: int|
            occupied(r.cells@, x, y) <==> exists|k: int|
                0 <= k < all_wall_points(walls@).len() && (#[trigger] all_wall_points(
                    walls@,
                )[k]).0 == x && all_wall_points(walls@)[k].1 == y,
        forall|k: int| 0 <= k < r.cells@.len() ==> (#[trigger] r.cells@[k]).1 == '#',
        forall|k: int| 0 <= k < r.cells@.len() ==> (#[trigger] r.cells@[k]).0.1 <= r.height,
{
    let ghost awp = all_wall_points(walls@);
    proof {
        lemma_all_wall_points_bounds(walls@);
    }
    let mut points: Vec<Point> = Vec::new();
    let mut i: usize = 0;
    while i < walls.len()
        invariant
            i <= walls@.len(),
            awp == all_wall_points(walls@),
            forall|t: int, k: int|
                0 <= t < walls@.len() && 0 <= k < walls@[t]@.len() ==> {
                    let p = #[trigger] walls@[t]@[k];
                    -SPAN_LIMIT + 502 <= p.0 <= SPAN_LIMIT - 502 && 0 <= p.1 <= SPAN_LIMIT
                        - 502
                },
            points@ == all_wall_points(walls@.subrange(0, i as int)),
        decreases walls@.len() - i,
    {
        proof {
            assert(walls@.subrange(0, i + 1).drop_last() =~= walls@.subrange(0, i as int));
            assert(walls@.subrange(0, i + 1).last() == walls@[i as int]);
            assert forall|k: int| 0 <= k < walls@[i as int]@.len() implies point_in_span(
                #[trigger] walls@[i as int]@[k],
            ) by {}
        }
        let mut seg = wall_points(&walls[i]);
        points.append(&mut seg);
        i = i + 1;
    }
    proof {
        assert(walls@.subrange(0, walls@.len() as int) =~= walls@);
        assert(points@ == awp);
    }
    let mut height: i64 = 0;
    let mut k: usize = 0;
    while k < points.len()
        invariant
            k <= points@.len(),
            points@ == awp,
            height == max_y(awp.subrange(0, k as int)),
            forall|t: int|
                0 <= t < awp.len() ==> -SPAN_LIMIT + 502 <= (#[trigger] awp[t]).0 <= SPAN_LIMIT
                    - 502 && 0 <= awp[t].1 <= SPAN_LIMIT - 502,
            0 <= height <= SPAN_LIMIT - 502,
        decreases points@.len() - k,
    {
        proof {
            assert(awp.subrange(0, k + 1).drop_last() =~= awp.subrange(0, k as int));
            assert(awp.subrange(0, k + 1).last() == awp[k as int]);
        }
        let p = points[k];
        if p.1 > height {
            height = p.1;
        }
        k = k + 1;
    }
    proof {
        assert(awp.subrange(0, awp.len() as int) =~= awp);
    }
    let mut cells: Vec<(Point, char)> = Vec::new();
    let mut t: usize = 0;
    while t < points.len()
        invariant
            t <= points@.len(),
            points@ == awp,
            forall|u: int|
                0 <= u < awp.len() ==> -SPAN_LIMIT + 502 <= (#[trigger] awp[u]).0 <= SPAN_LIMIT
                    - 502 && 0 <= awp[u].1 <= SPAN_LIMIT - 502,
            forall|a: int, b: int|
                0 <= a < b < cells@.len() ==> (#[trigger] cells@[a]).0 != (
                #[trigger] cells@[b]).0,
            forall|u: int| 0 <= u < cells@.len() ==> (#[trigger] cells@[u]).1 == '#',
            forall|u: int|
                0 <= u < cells@.len() ==> awp.subrange(0, t as int).contains(
                    (#[trigger] cells@[u]).0,
                ),
            forall|x: int, y: int|
                occupied(cells@, x, y) <==> exists|u: int|
                    0 <= u < t && (#[trigger] awp[u]).0 == x && awp[u].1 == y,
        decreases points@.len() - t,
    {
        let p = points[t];
        if !cells_occupied(&cells, p.0, p.1) {
            let ghost prev = cells@;
            cells.push((p, '#'));
            proof {
                assert forall|a: int, b: int| 0 <= a < b < cells@.len() implies (
                #[trigger] cells@[a]).0 != (#[trigger] cells@[b]).0 by {
                    if b == cells@.len() - 1 {
                        assert(cells@[a] == prev[a]);
                        if prev[a].0 == p {
                            assert(occupied(prev, p.0 as int, p.1 as int));
                        }
                    }
                }
                assert(awp.subrange(0, t + 1).contains(p)) by {
                    assert(awp.subrange(0, t + 1)[t as int] == p);
                }
                assert forall|u: int| 0 <= u < cells@.len() implies awp.subrange(
                    0,
                    t + 1,
                ).contains((#[trigger] cells@[u]).0) by {
                    if u < prev.len() {
                        assert(awp.subrange(0, t as int).contains(prev[u].0));
                        let w = choose|w: int|
                            0 <= w < t && awp.subrange(0, t as int)[w] == prev[u].0;
                        assert(awp.subrange(0, t + 1)[w] == prev[u].0);
                    }
                }
                assert forall|x: int, y: int| occupied(cells@, x, y) implies exists|u: int|
                    0 <= u < t + 1 && (#[trigger] awp[u]).0 == x && awp[u].1 == y by {
                    let c = choose|c: int|
                        0 <= c < cells@.len() && ((#[trigger] cells@[c]).0.0 == x
                            && cells@[c].0.1 == y);
                    if c < prev.len() {
                        assert(occupied(prev, x, y));
                        let u = choose|u: int|
                            0 <= u < t && (#[trigger] awp[u]).0 == x && awp[u].1 == y;
                    } else {
                        assert(awp[t as int] == p);
                    }
                }
                assert forall|x: int, y: int|
                    (exists|u: int|
                        0 <= u < t + 1 && (#[trigger] awp[u]).0 == x && awp[u].1
                            == y) implies occupied(cells@, x, y) by {
                    let u = choose|u: int|
                        0 <= u < t + 1 && (#[trigger] awp[u]).0 == x && awp[u].1 == y;
                    if u < t {
                        assert(occupied(prev, x, y));
                        let c = choose|c: int|
                            0 <= c < prev.len() && ((#[trigger] prev[c]).0.0 == x
                                && prev[c].0.1 == y);
                        assert(cells@[c] == prev[c]);
                    } else {
                        assert(cells@[cells@.len() - 1].0 == p);
                    }
                }
            }
        } else {
            proof {
                assert forall|x: int, y: int| occupied(cells@, x, y) implies exists|u: int|
                    0 <= u < t + 1 && (#[trigger] awp[u]).0 == x && awp[u].1 == y by {
                    let u = choose|u: int|
                        0 <= u < t && (#[trigger] awp[u]).0 == x && awp[u].1 == y;
                }
                assert forall|x: int, y: int|
                    (exists|u: int|
                        0 <= u < t + 1 && (#[trigger] awp[u]).0 == x && awp[u].1
                            == y) implies occupied(cells@, x, y) by {
                    let u = choose|u: int|
                        0 <= u < t + 1 && (#[trigger] awp[u]).0 == x && awp[u].1 == y;
                    if u == t {
                        assert(occupied(cells@, p.0 as int, p.1 as int));
                    }
                }
            }
        }
        t = t + 1;
    }
    let ghost hfinal = height;
    proof {
        assert forall|u: int| 0 <= u < cells@.len() implies (#[trigger] cells@[u]).0.1
            <= hfinal by {
            assert(awp.contains(cells@[u].0)) by {
                assert(awp.subrange(0, awp.len() as int) =~= awp);
            }
            let w = choose|w: int| 0 <= w < awp.len() && awp[w] == cells@[u].0;
            lemma_max_y_bound(awp, w);
        }
        assert forall|u: int| 0 <= u < cells@.len() implies point_in_span(
            (#[trigger] cells@[u]).0,
        ) by {
            assert(awp.contains(cells@[u].0)) by {
                assert(awp.subrange(0, awp.len() as int) =~= awp);
            }
            let w = choose|w: int| 0 <= w < awp.len() && awp[w] == cells@[u].0;
        }
    }
    Cave { height, cells }
}

proof fn lemma_max_y_bound(ps: Seq<Point>, k: int)
    requires
        0 <= k < ps.len(),
    ensures
        ps[k].1 <= max_y(ps),
        max_y(ps) >= 0,
    decreases ps.len(),
{
    if ps.len() > 0 {
        if k == ps.len() - 1 {
            lemma_max_y_nonneg(ps.drop_last());
        } else {
            lemma_max_y_bound(ps.drop_last(), k);
            assert(ps.drop_last()[k] == ps[k]);
        }
    }
}

proof fn lemma_max_y_nonneg(ps: Seq<Point>)
    ensures
        max_y(ps) >= 0,
    decreases ps.len(),
{
    if ps.len() > 0 {
        lemma_max_y_nonneg(ps.drop_last());
    }
}

proof fn lemma_all_wall_points_bounds(walls: Seq<Vec<Point>>)
    requires
        forall|i: int, k: int|
            0 <= i < walls.len() && 0 <= k < walls[i]@.len() ==> {
                let p = #[trigger] walls[i]@[k];
                -SPAN_LIMIT + 502 <= p.0 <= SPAN_LIMIT - 502 && 0 <= p.1 <= SPAN_LIMIT - 502
            },
    ensures
        forall|t: int|
            0 <= t < all_wall_points(walls).len() ==> -SPAN_LIMIT + 502 <= (
            #[trigger] all_wall_points(walls)[t]).0 <= SPAN_LIMIT - 502 && 0
                <= all_wall_points(walls)[t].1 <= SPAN_LIMIT - 502,
    decreases walls.len(),
{
    if walls.len() > 0 {
        lemma_all_wall_points_bounds(walls.drop_last());
        assert(forall|i: int, k: int|
            0 <= i < walls.drop_last().len() && 0 <= k < walls.drop_last()[i]@.len()
                ==> #[trigger] walls.drop_last()[i]@[k] == walls[i]@[k]);
        lemma_wall_bounds(walls.last()@);
        assert forall|t: int|
            0 <= t < all_wall_points(walls).len() implies -SPAN_LIMIT + 502 <= (
        #[trigger] all_wall_points(walls)[t]).0 <= SPAN_LIMIT - 502 && 0 <= all_wall_points(
            walls,
        )[t].1 <= SPAN_LIMIT - 502 by {
            let pre = all_wall_points(walls.drop_last());
            if t >= pre.len() {
                assert(all_wall_points(walls)[t] == spec_wall(walls.last()@)[t - pre.len()]);
            }
        }
    }
}

proof fn lemma_wall_bounds(ps: Seq<Point>)
    requires
        forall|k: int|
            0 <= k < ps.len() ==> {
                let p = #[trigger] ps[k];
                -SPAN_LIMIT + 502 <= p.0 <= SPAN_LIMIT - 502 && 0 <= p.1 <= SPAN_LIMIT - 502
            },
    ensures
        forall|t: int|
            0 <= t < spec_wall(ps).len() ==> -SPAN_LIMIT + 502 <= (
            #[trigger] spec_wall(ps)[t]).0 <= SPAN_LIMIT - 502 && 0 <= spec_wall(ps)[t].1
                <= SPAN_LIMIT - 502,
    decreases ps.len(),
{
    if ps.len() >= 2 {
        assert(forall|k: int|
            0 <= k < ps.drop_last().len() ==> #[trigger] ps.drop_last()[k] == ps[k]);
        lemma_wall_bounds(ps.drop_last());
        assert forall|t: int|
            0 <= t < spec_wall(ps).len() implies -SPAN_LIMIT + 502 <= (
        #[trigger] spec_wall(ps)[t]).0 <= SPAN_LIMIT - 502 && 0 <= spec_wall(ps)[t].1
            <= SPAN_LIMIT - 502 by {
            let pre = spec_wall(ps.drop_last());
            let a = ps[ps.len() - 2];
            let b = ps[ps.len() - 1];
            if t >= pre.len() {
                assert(spec_wall(ps)[t] == spec_segment(a, b)[t - pre.len()]);
            }
        }
    }
}

} // verus!
