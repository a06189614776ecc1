//! Height-grid pathfinding: parse a letter grid into elevations, then
//! compute single-source shortest hop counts where a step may climb at
//! most one unit, by frontier relaxation. The distance field is proved
//! to hold exactly the minimum hop counts.

use vstd::prelude::*;
use crate::error::PuzzleError;
use crate::nums::spec_abs;
use crate::seqs::{sum_i64v, lemma_sum_i64v_nonneg, lemma_sum_i64v_update};
use crate::text::{chars_of, split_lines, spec_lines, views};

verus! {

/// A height-annotated grid with designated start and goal cells.
pub struct Grid {
    pub map: Vec<Vec<i64>>,
    pub width: usize,
    pub height: usize,
    pub start: (usize, usize),
    pub goal: (usize, usize),
}

pub open spec fn uv(p: (usize, usize)) -> (int, int) {
    (p.0 as int, p.1 as int)
}

pub open spec fn in_bounds(g: Grid, p: (int, int)) -> bool {
    0 <= p.0 < g.width && 0 <= p.1 < g.height
}

pub open spec fn height_at(g: Grid, p: (int, int)) -> int {
    g.map@[p.1]@[p.0] as int
}

/// The grid's structural invariant: a nonempty rectangle of bounded
/// heights whose start and goal lie inside it.
pub open spec fn wf(g: Grid) -> bool {
    &&& 1 <= g.width
    &&& 1 <= g.height
    &&& g.width * g.height <= usize::MAX
    &&& g.map@.len() == g.height
    &&& forall|y: int| 0 <= y < g.height ==> (#[trigger] g.map@[y])@.len() == g.width
    &&& forall|y: int, x: int|
        0 <= y < g.height && 0 <= x < g.width ==> 0 <= #[trigger] g.map@[y]@[x] <= 0x10FFFF
    &&& in_bounds(g, uv(g.start))
    &&& in_bounds(g, uv(g.goal))
}

/// Row-major index of a cell in a distance field.
pub open spec fn vdx(g: Grid, p: (int, int)) -> int {
    p.0 + p.1 * g.width
}

pub open spec fn adjacent(p: (int, int), q: (int, int)) -> bool {
    spec_abs(p.0 - q.0) + spec_abs(p.1 - q.1) == 1
}

/// A step from `u` to `v` is admissible when it climbs at most `lim`.
pub open spec fn edge(g: Grid, lim: int, u: (int, int), v: (int, int)) -> bool {
    &&& in_bounds(g, u)
    &&& in_bounds(g, v)
    &&& adjacent(u, v)
    &&& height_at(g, v) - height_at(g, u) <= lim
}

/// Whether `v` can be reached from `src` in at most `k` admissible steps.
pub open spec fn reach(g: Grid, lim: int, src: (int, int), v: (int, int), k: int) -> bool
    decreases k,
{
    k >= 0 && (v == src || (k > 0 && exists|u: (int, int)|
        edge(g, lim, u, v) && reach(g, lim, src, u, k - 1)))
}

pub open spec fn reachable(g: Grid, lim: int, src: (int, int), v: (int, int)) -> bool {
    exists|k: int| reach(g, lim, src, v, k)
}

pub open spec fn is_least_reach(g: Grid, lim: int, src: (int, int), v: (int, int), k: int) -> bool {
    reach(g, lim, src, v, k) && !reach(g, lim, src, v, k - 1)
}

proof fn lemma_reach_succ(g: Grid, lim: int, src: (int, int), v: (int, int), k: int)
    requires
        reach(g, lim, src, v, k),
    ensures
        reach(g, lim, src, v, k + 1),
    decreases k,
{
    if v == src {
    } else {
        let u = choose|u: (int, int)| edge(g, lim, u, v) && reach(g, lim, src, u, k - 1);
        lemma_reach_succ(g, lim, src, u, k - 1);
    }
}

/// Allowing a larger step budget never loses reachability.
pub proof fn lemma_reach_mono(g: Grid, lim: int, src: (int, int), v: (int, int), k1: int, k2: int)
    requires
        reach(g, lim, src, v, k1),
        k1 <= k2,
    ensures
        reach(g, lim, src, v, k2),
    decreases k2 - k1,
{
    if k1 < k2 {
        lemma_reach_succ(g, lim, src, v, k1);
        lemma_reach_mono(g, lim, src, v, k1 + 1, k2);
    }
}

proof fn lemma_least_exists(g: Grid, lim: int, src: (int, int), v: (int, int), k: int)
    requires
        reach(g, lim, src, v, k),
    ensures
        exists|m: int| is_least_reach(g, lim, src, v, m) && m <= k,
    decreases k,
{
    if reach(g, lim, src, v, k - 1) {
        lemma_least_exists(g, lim, src, v, k - 1);
    } else {
        assert(is_least_reach(g, lim, src, v, k));
    }
}

proof fn lemma_least_unique(g: Grid, lim: int, src: (int, int), v: (int, int), k1: int, k2: int)
    requires
        is_least_reach(g, lim, src, v, k1),
        is_least_reach(g, lim, src, v, k2),
    ensures
        k1 == k2,
{
    if k1 < k2 {
        lemma_reach_mono(g, lim, src, v, k1, k2 - 1);
    }
    if k2 < k1 {
        lemma_reach_mono(g, lim, src, v, k2, k1 - 1);
    }
}

/// The minimum number of admissible hops from `src` to `v`, clamped at
/// the unreached sentinel.
pub open spec fn bfs_distance(g: Grid, lim: int, src: (int, int), v: (int, int)) -> int {
    if reachable(g, lim, src, v) {
        let m = choose|m: int| is_least_reach(g, lim, src, v, m);
        if m < i64::MAX {
            m
        } else {
            i64::MAX as int
        }
    } else {
        i64::MAX as int
    }
}

// ---- parsing ----

/// The elevation a character encodes: the start marker counts as `a`,
/// the goal marker as `z`, and any other character as its own code.
pub open spec fn spec_char_height(c: char) -> int {
    if c == 'S' {
        97
    } else if c == 'E' {
        122
    } else {
        (c as u32) as int
    }
}

pub fn char_height(c: char) -> (r: i64)
    ensures
        r == spec_char_height(c),
{
    if c == 'S' {
        97
    } else if c == 'E' {
        122
    } else {
        (c as u32) as i64
    }
}

/// Map an index in the raw text to grid coordinates, for a grid whose
/// rows of width `width` are separated by single newline characters.
pub fn i_to_point(i: usize, width: usize) -> (r: (usize, usize))
    requires
        width < usize::MAX,
    ensures
        r.0 == i as int % (width + 1),
        r.1 == i as int / (width + 1),
{
    let x = i % (width + 1);
    let y = i / (width + 1);
    (x, y)
}

/// A rectangular letter block with exactly one kind of each marker
/// present somewhere.
pub open spec fn grid_text_ok(s: Seq<char>) -> bool {
    let ls = spec_lines(s);
    &&& ls.len() >= 1
    &&& ls[0].len() >= 1
    &&& ls.len() * ls[0].len() <= usize::MAX
    &&& forall|y: int| 0 <= y < ls.len() ==> (#[trigger] ls[y]).len() == ls[0].len()
    &&& exists|y: int, x: int|
        0 <= y < ls.len() && 0 <= x < ls[0].len() && #[trigger] ls[y][x] == 'S'
    &&& exists|y: int, x: int|
        0 <= y < ls.len() && 0 <= x < ls[0].len() && #[trigger] ls[y][x] == 'E'
}

/// Where marker `c` first occurs, scanning rows top to bottom and each
/// row left to right.
pub open spec fn first_marker(ls: Seq<Seq<char>>, p: (int, int), c: char) -> bool {
    &&& 0 <= p.1 < ls.len()
    &&& 0 <= p.0 < ls[p.1].len()
    &&& ls[p.1][p.0] == c
    &&& forall|y: int, x: int|
        0 <= y < ls.len() && 0 <= x < ls[y].len() && (y < p.1 || (y == p.1 && x < p.0))
            ==> #[trigger] ls[y][x] != c
}

fn find_marker(lines: &Vec<Vec<char>>, c: char) -> (r: Option<(usize, usize)>)
    ensures
        match r {
            Some(p) => first_marker(views(lines@), uv(p), c),
            None => forall|y: int, x: int|
                0 <= y < views(lines@).len() && 0 <= x < views(lines@)[y].len()
                    ==> #[trigger] views(lines@)[y][x] != c,
        },
{
    let ghost lv = views(lines@);
    let mut y: usize = 0;
    while y < lines.len()
        invariant
            y <= lines@.len(),
            lv == views(lines@),
            lv.len() == lines@.len(),
            forall|yy: int, xx: int|
                0 <= yy < y && 0 <= xx < lv[yy].len() ==> #[trigger] lv[yy][xx] != c,
        decreases lines@.len() - y,
    {
        let row = &lines[y];
        let mut x: usize = 0;
        while x < row.len()
            invariant
                x <= row@.len(),
                lv == views(lines@),
                lv.len() == lines@.len(),
                y < lines@.len(),
                row@ == lv[y as int],
                forall|yy: int, xx: int|
                    0 <= yy < y && 0 <= xx < lv[yy].len() ==> #[trigger] lv[yy][xx] != c,
                forall|xx: int| 0 <= xx < x ==> #[trigger] lv[y as int][xx] != c,
            decreases row@.len() - x,
        {
            if row[x] == c {
                return Some((x, y));
            }
            x = x + 1;
        }
        y = y + 1;
    }
    None
}

/// Parse a letter block into a grid of elevations with its start and
/// goal cells.
#[verifier::spinoff_prover]
#[verifier::rlimit(50)]
pub fn parse(s: &str) -> (g: Grid)
    requires
        grid_text_ok(s@),
    ensures
        wf(g),
        g.height == spec_lines(s@).len(),
        g.width == spec_lines(s@)[0].len(),
        forall|y: int, x: int|
            0 <= y < g.height && 0 <= x < g.width ==> height_at(g, (x, y))
                == spec_char_height(#[trigger] spec_lines(s@)[y][x]),
        first_marker(spec_lines(s@), uv(g.start), 'S'),
        first_marker(spec_lines(s@), uv(g.goal), 'E'),
{
    let cs = chars_of(s);
    let lines = split_lines(&cs);
    let ghost lv = spec_lines(s@);
    proof {
        assert(views(lines@) == lv);
        assert(views(lines@).len() == lines@.len());
    }
    let width = lines[0].len();
    let height = lines.len();
    let mut map: Vec<Vec<i64>> = Vec::new();
    let mut y: usize = 0;
    while y < height
        invariant
            y <= height,
            lv == views(lines@),
            lv.len() == lines@.len(),
            height == lines@.len(),
            width == lv[0].len(),
            forall|yy: int| 0 <= yy < lv.len() ==> (#[trigger] lv[yy]).len() == width,
            map@.len() == y,
            forall|yy: int| 0 <= yy < y ==> (#[trigger] map@[yy])@.len() == width,
            forall|yy: int, xx: int|
                0 <= yy < y && 0 <= xx < width ==> #[trigger] map@[yy]@[xx]
                    == spec_char_height(lv[yy][xx]),
            forall|yy: int, xx: int|
                0 <= yy < y && 0 <= xx < width ==> 0 <= #[trigger] map@[yy]@[xx] <= 0x10FFFF,
        decreases height - y,
    {
        let row = &lines[y];
        let mut hrow: Vec<i64> = Vec::new();
        let mut x: usize = 0;
        proof {
            assert(row@ == lv[y as int]);
        }
        while x < row.len()
            invariant
                x <= row@.len(),
                row@ == lv[y as int],
                hrow@.len() == x,
                forall|xx: int|
                    0 <= xx < x ==> hrow@[xx] == spec_char_height(#[trigger] row@[xx]),
                forall|xx: int| 0 <= xx < x ==> 0 <= #[trigger] hrow@[xx] <= 0x10FFFF,
            decreases row@.len() - x,
        {
            let c = row[x];
            proof {
                vstd::utf8::char_is_scalar(c);
                assert(vstd::utf8::is_scalar(c as u32));
                assert(0 <= spec_char_height(c) <= 0x10FFFF);
            }
            let h = char_height(c);
            hrow.push(h);
            x = x + 1;
        }
        map.push(hrow);
        y = y + 1;
    }
    let start_opt = find_marker(&lines, 'S');
    proof {
        if start_opt is None {
            let (sy, sx) = choose|yy: int, xx: int|
                0 <= yy < lv.len() && 0 <= xx < lv[0].len() && #[trigger] lv[yy][xx] == 'S';
            assert(lv[sy][sx] != 'S');
        }
    }
    let start = start_opt.unwrap();
    let goal_opt = find_marker(&lines, 'E');
    proof {
        if goal_opt is None {
            let (ey, ex) = choose|yy: int, xx: int|
                0 <= yy < lv.len() && 0 <= xx < lv[0].len() && #[trigger] lv[yy][xx] == 'E';
            assert(lv[ey][ex] != 'E');
        }
    }
    let goal = goal_opt.unwrap();
    let g = Grid { map, width, height, start, goal };
    proof {
        assert(first_marker(lv, uv(g.start), 'S'));
        assert(first_marker(lv, uv(g.goal), 'E'));
        assert(lv[uv(g.start).1].len() == width);
        assert(lv[uv(g.goal).1].len() == width);
        assert(in_bounds(g, uv(g.start)));
        assert(in_bounds(g, uv(g.goal)));
        assert(1 <= g.width && 1 <= g.height);
        assert(g.width * g.height == lv.len() * lv[0].len()) by (nonlinear_arith)
            requires
                g.width == lv[0].len(),
                g.height == lv.len(),
        ;
        assert(g.width * g.height <= usize::MAX);
        assert(g.map@.len() == g.height);
        assert(forall|y: int| 0 <= y < g.height ==> (#[trigger] g.map@[y])@.len() == g.width);
        assert(forall|y: int, x: int|
            0 <= y < g.height && 0 <= x < g.width ==> 0 <= #[trigger] g.map@[y]@[x] <= 0x10FFFF);
        assert(wf(g));
    }
    g
}

// ---- neighbours ----

/// The in-bounds orthogonal neighbours of `p`, in a fixed scan order.
pub open spec fn spec_around(g: Grid, p: (int, int)) -> Seq<(usize, usize)> {
    let up: Seq<(usize, usize)> = if p.1 - 1 >= 0 {
        seq![(p.0 as usize, (p.1 - 1) as usize)]
    } else {
        Seq::empty()
    };
    let left: Seq<(usize, usize)> = if p.0 - 1 >= 0 {
        seq![((p.0 - 1) as usize, p.1 as usize)]
    } else {
        Seq::empty()
    };
    let right: Seq<(usize, usize)> = if p.0 + 1 < g.width {
        seq![((p.0 + 1) as usize, p.1 as usize)]
    } else {
        Seq::empty()
    };
    let down: Seq<(usize, usize)> = if p.1 + 1 < g.height {
        seq![(p.0 as usize, (p.1 + 1) as usize)]
    } else {
        Seq::empty()
    };
    up + left + right + down
}

/// Every in-bounds cell adjacent to `p` stands in `spec_around`, and
/// nothing else does.
pub proof fn lemma_around_contains(g: Grid, p: (int, int), q: (usize, usize))
    requires
        wf(g),
        in_bounds(g, p),
    ensures
        spec_around(g, p).contains(q) <==> (in_bounds(g, uv(q)) && adjacent(p, uv(q))),
{
    let s = spec_around(g, p);
    if in_bounds(g, uv(q)) && adjacent(p, uv(q)) {
        if uv(q).1 == p.1 - 1 {
            assert(s[0] == q);
            assert(s.contains(q));
        } else if uv(q).0 == p.0 - 1 {
            let i = if p.1 - 1 >= 0 {
                1int
            } else {
                0int
            };
            assert(s[i] == q);
            assert(s.contains(q));
        } else if uv(q).0 == p.0 + 1 {
            let i = (if p.1 - 1 >= 0 {
                1int
            } else {
                0int
            }) + (if p.0 - 1 >= 0 {
                1int
            } else {
                0int
            });
            assert(s[i] == q);
            assert(s.contains(q));
        } else {
            assert(uv(q).1 == p.1 + 1);
            let i = (if p.1 - 1 >= 0 {
                1int
            } else {
                0int
            }) + (if p.0 - 1 >= 0 {
                1int
            } else {
                0int
            }) + (if p.0 + 1 < g.width {
                1int
            } else {
                0int
            });
            assert(s[i] == q);
            assert(s.contains(q));
        }
    }
    if s.contains(q) {
        let i = choose|i: int| 0 <= i < s.len() && s[i] == q;
    }
}

/// The cells around `p`, in scan order.
pub fn around(m: &Grid, p: (usize, usize)) -> (r: Vec<(usize, usize)>)
    requires
        wf(*m),
        in_bounds(*m, uv(p)),
    ensures
        r@ == spec_around(*m, uv(p)),
{
    let (x, y) = p;
    let mut r: Vec<(usize, usize)> = Vec::new();
    if y > 0 {
        r.push((x, y - 1));
    }
    if x > 0 {
        r.push((x - 1, y));
    }
    if x + 1 < m.width {
        r.push((x + 1, y));
    }
    if y + 1 < m.height {
        r.push((x, y + 1));
    }
    proof {
        assert(r@ =~= spec_around(*m, uv(p)));
    }
    r
}

/// Keep the cells of `s` whose elevation is at most one above `from`.
pub open spec fn keep_admissible(g: Grid, from: (int, int), s: Seq<(usize, usize)>) -> Seq<
    (usize, usize),
>
    decreases s.len(),
{
    if s.len() == 0 {
        Seq::empty()
    } else {
        let rest = keep_admissible(g, from, s.drop_last());
        if height_at(g, uv(s.last())) - height_at(g, from) <= 1 {
            rest.push(s.last())
        } else {
            rest
        }
    }
}

proof fn lemma_keep_admissible_contains(
    g: Grid,
    from: (int, int),
    s: Seq<(usize, usize)>,
    q: (usize, usize),
)
    ensures
        keep_admissible(g, from, s).contains(q) <==> (s.contains(q) && height_at(g, uv(q))
            - height_at(g, from) <= 1),
    decreases s.len(),
{
    if s.len() > 0 {
        lemma_keep_admissible_contains(g, from, s.drop_last(), q);
        let rest = keep_admissible(g, from, s.drop_last());
        let whole = keep_admissible(g, from, s);
        if whole.contains(q) {
            let i = choose|i: int| 0 <= i < whole.len() && whole[i] == q;
            if height_at(g, uv(s.last())) - height_at(g, from) <= 1 && i == whole.len() - 1 {
                assert(q == s.last());
                assert(s.contains(q)) by {
                    assert(s[s.len() - 1] == q);
                }
            } else {
                assert(rest.contains(q)) by {
                    assert(rest[i] == q);
                }
                assert(s.drop_last().contains(q));
                let i2 = choose|i2: int|
                    0 <= i2 < s.drop_last().len() && s.drop_last()[i2] == q;
                assert(s[i2] == q);
                assert(s.contains(q));
            }
        }
        if s.contains(q) && height_at(g, uv(q)) - height_at(g, from) <= 1 {
            let i = choose|i: int| 0 <= i < s.len() && s[i] == q;
            if i == s.len() - 1 {
                assert(whole.contains(q)) by {
                    assert(whole[whole.len() - 1] == q);
                }
            } else {
                assert(s.drop_last()[i] == q);
                assert(s.drop_last().contains(q));
                assert(rest.contains(q));
                let i3 = choose|i3: int| 0 <= i3 < rest.len() && rest[i3] == q;
                assert(whole.contains(q)) by {
                    assert(whole[i3] == q);
                }
            }
        }
    }
}

/// The neighbours reachable in one admissible step from `p`.
pub open spec fn spec_neighbours(g: Grid, p: (int, int)) -> Seq<(usize, usize)> {
    keep_admissible(g, p, spec_around(g, p))
}

pub proof fn lemma_neighbours_contains(g: Grid, p: (int, int), q: (usize, usize))
    requires
        wf(g),
        in_bounds(g, p),
    ensures
        spec_neighbours(g, p).contains(q) <==> edge(g, 1, p, uv(q)),
{
    lemma_keep_admissible_contains(g, p, spec_around(g, p), q);
    lemma_around_contains(g, p, q);
}

/// The admissible neighbours of `p`: around it and at most one higher.
pub fn neighbours(m: &Grid, p: (usize, usize)) -> (r: Vec<(usize, usize)>)
    requires
        wf(*m),
        in_bounds(*m, uv(p)),
    ensures
        r@ == spec_neighbours(*m, uv(p)),
{
    let all = around(m, p);
    let cur_height = m.map[p.1][p.0];
    let mut r: Vec<(usize, usize)> = Vec::new();
    let mut i: usize = 0;
    proof {
        assert(all@.subrange(0, 0) =~= Seq::<(usize, usize)>::empty());
    }
    while i < all.len()
        invariant
            i <= all@.len(),
            wf(*m),
            in_bounds(*m, uv(p)),
            all@ == spec_around(*m, uv(p)),
            cur_height == height_at(*m, uv(p)),
            r@ == keep_admissible(*m, uv(p), all@.subrange(0, i as int)),
        decreases all@.len() - i,
    {
        proof {
            lemma_around_contains(*m, uv(p), all@[i as int]);
            assert(all@.contains(all@[i as int])) by {
                assert(all@[i as int] == all@[i as int]);
            }
            assert(in_bounds(*m, uv(all@[i as int])));
            assert(all@.subrange(0, i + 1).drop_last() =~= all@.subrange(0, i as int));
            assert(all@.subrange(0, i + 1).last() == all@[i as int]);
        }
        let q = all[i];
        if m.map[q.1][q.0] - cur_height <= 1 {
            r.push(q);
        }
        i = i + 1;
    }
    proof {
        assert(all@.subrange(0, all@.len() as int) =~= all@);
    }
    r
}

// ---- the search ----

pub open spec fn dist_head_front(front0: Seq<(usize, usize)>) -> Seq<(usize, usize)> {
    front0.drop_last()
}

pub open spec fn front_has(front: Seq<(usize, usize)>, u: (int, int)) -> bool {
    exists|i: int| 0 <= i < front.len() && uv(#[trigger] front[i]) == u
}

/// No relaxation is pending except possibly at cells in the frontier.
pub open spec fn no_pending(g: Grid, dist: Seq<i64>, front: Seq<(usize, usize)>) -> bool {
    forall|u: (int, int), v: (int, int)|
        #[trigger] edge(g, 1, u, v) ==> front_has(front, u) || dist[vdx(g, v)] <= dist[vdx(g, u)]
            + 1
}

pub open spec fn dist_sound(g: Grid, dist: Seq<i64>, src: (int, int)) -> bool {
    &&& dist.len() == g.width * g.height
    &&& dist[vdx(g, src)] == 0
    &&& forall|p: (int, int)|
        in_bounds(g, p) ==> 0 <= dist[#[trigger] vdx(g, p)] <= i64::MAX
    &&& forall|p: (int, int)|
        in_bounds(g, p) && dist[#[trigger] vdx(g, p)] < i64::MAX ==> reach(
            g,
            1,
            src,
            p,
            dist[vdx(g, p)] as int,
        )
}

/// Once the frontier is empty, the settled field bounds every reach.
proof fn lemma_dist_upper(g: Grid, dist: Seq<i64>, src: (int, int), p: (int, int), k: int)
    requires
        wf(g),
        in_bounds(g, src),
        dist_sound(g, dist, src),
        no_pending(g, dist, Seq::empty()),
        reach(g, 1, src, p, k),
    ensures
        dist[vdx(g, p)] <= k,
    decreases k,
{
    if p == src {
    } else {
        let u = choose|u: (int, int)| edge(g, 1, u, p) && reach(g, 1, src, u, k - 1);
        lemma_dist_upper(g, dist, src, u, k - 1);
        assert(!front_has(Seq::empty(), u));
        assert(dist[vdx(g, p)] <= dist[vdx(g, u)] + 1);
    }
}

proof fn lemma_vdx_injective(g: Grid, p: (int, int), q: (int, int))
    requires
        wf(g),
        in_bounds(g, p),
        in_bounds(g, q),
        vdx(g, p) == vdx(g, q),
    ensures
        p == q,
{
    assert(p.0 + p.1 * g.width == q.0 + q.1 * g.width);
    assert(p.0 - q.0 == (q.1 - p.1) * g.width) by (nonlinear_arith)
        requires
            p.0 + p.1 * g.width == q.0 + q.1 * g.width,
    ;
    if p.1 < q.1 {
        assert((q.1 - p.1) * g.width >= g.width) by (nonlinear_arith)
            requires
                q.1 - p.1 >= 1,
                g.width >= 1,
        ;
        assert(false);
    }
    if p.1 > q.1 {
        assert((q.1 - p.1) * g.width <= -g.width) by (nonlinear_arith)
            requires
                q.1 - p.1 <= -1,
                g.width >= 1,
        ;
        assert(false);
    }
    assert(p.1 == q.1);
    assert(p.0 == q.0);
}

proof fn lemma_vdx_range(g: Grid, p: (int, int))
    requires
        wf(g),
        in_bounds(g, p),
    ensures
        0 <= vdx(g, p) < g.width * g.height,
{
    assert(p.1 * g.width <= (g.height - 1) * g.width) by (nonlinear_arith)
        requires
            0 <= p.1 <= g.height - 1,
            g.width >= 1,
    ;
    assert((g.height - 1) * g.width == g.height * g.width - g.width) by (nonlinear_arith);
    assert(p.1 * g.width >= 0) by (nonlinear_arith)
        requires
            p.1 >= 0,
            g.width >= 0,
    ;
    assert(g.height * g.width == g.width * g.height) by (nonlinear_arith);
}

/// Compute the full distance field from `source` by frontier expansion.
///
/// The result holds, for every cell, exactly the minimum number of
/// admissible hops from the source, or the sentinel when unreached.
pub fn shortest_distance(m: &Grid, source: (usize, usize)) -> (r: Result<Vec<i64>, PuzzleError>)
    requires
        wf(*m),
    ensures
        match r {
            Ok(dist) => {
                &&& in_bounds(*m, uv(source))
                &&& dist@.len() == m.width * m.height
                &&& forall|p: (int, int)|
                    in_bounds(*m, p) ==> dist@[#[trigger] vdx(*m, p)] == bfs_distance(
                        *m,
                        1,
                        uv(source),
                        p,
                    )
            },
            Err(e) => !in_bounds(*m, uv(source)) && e == PuzzleError::OutOfBounds,
        },
{
    if !(source.0 < m.width && source.1 < m.height) {
        return Err(PuzzleError::OutOfBounds);
    }
    let ghost g = *m;
    let ghost src = uv(source);
    let n = m.width * m.height;
    proof {
        assert(m.width * m.height <= usize::MAX);
    }
    let mut dist: Vec<i64> = Vec::new();
    let mut z: usize = 0;
    while z < n
        invariant
            z <= n,
            dist@.len() == z,
            forall|t: int| 0 <= t < z ==> dist@[t] == i64::MAX,
        decreases n - z,
    {
        dist.push(i64::MAX);
        z = z + 1;
    }
    proof {
        lemma_vdx_range(g, src);
    }
    let src_i = source.0 + source.1 * m.width;
    proof {
        assert(src_i == vdx(g, src));
    }
    dist[src_i] = 0;
    let mut front: Vec<(usize, usize)> = Vec::new();
    front.push(source);
    proof {
        assert(reach(g, 1, src, src, 0));
        assert forall|p: (int, int)|
            in_bounds(g, p) && dist@[#[trigger] vdx(g, p)] < i64::MAX implies reach(
            g,
            1,
            src,
            p,
            dist@[vdx(g, p)] as int,
        ) by {
            lemma_vdx_range(g, p);
            if vdx(g, p) != vdx(g, src) {
                assert(dist@[vdx(g, p)] == i64::MAX);
            } else {
                lemma_vdx_injective(g, p, src);
            }
        }
        assert forall|p: (int, int)|
            in_bounds(g, p) implies 0 <= dist@[#[trigger] vdx(g, p)] <= i64::MAX by {
            lemma_vdx_range(g, p);
        }
        assert(front_has(front@, src)) by {
            assert(uv(front@[0]) == src);
        }
        assert forall|u: (int, int), v: (int, int)|
            #[trigger] edge(g, 1, u, v) implies front_has(front@, u) || dist@[vdx(g, v)]
            <= dist@[vdx(g, u)] + 1 by {
            lemma_vdx_range(g, u);
            lemma_vdx_range(g, v);
            if vdx(g, u) == vdx(g, src) {
                lemma_vdx_injective(g, u, src);
                assert(front_has(front@, u));
            } else {
                assert(dist@[vdx(g, u)] == i64::MAX);
            }
        }
    }
    while front.len() > 0
        invariant
            wf(g),
            g == *m,
            in_bounds(g, src),
            dist_sound(g, dist@, src),
            forall|i: int|
                0 <= i < front@.len() ==> in_bounds(g, uv(#[trigger] front@[i])) && dist@[vdx(
                    g,
                    uv(front@[i]),
                )] < i64::MAX,
            no_pending(g, dist@, front@),
            forall|t0: int| 0 <= t0 < dist@.len() ==> #[trigger] dist@[t0] >= 0,
        decreases sum_i64v(dist@), front@.len(),
    {
        let ghost front0 = front@;
        let ghost dist_at_head = dist@;
        let ghost sum0 = sum_i64v(dist@);
        proof {
            lemma_sum_i64v_nonneg(dist@);
        }
        let cur = front.pop().unwrap();
        let ghost curv = uv(cur);
        proof {
            assert(front0[front0.len() - 1] == cur);
            assert(front@ =~= front0.drop_last());
            assert(in_bounds(g, curv));
            lemma_vdx_range(g, curv);
        }
        let ns = neighbours(m, cur);
        let cur_i = cur.0 + cur.1 * m.width;
        proof {
            assert(cur_i == vdx(g, curv));
        }
        let d_cur = dist[cur_i];
        let alt = 1 + d_cur;
        let mut t: usize = 0;
        proof {
            assert forall|u: (int, int), v: (int, int)|
                #[trigger] edge(g, 1, u, v) implies front_has(front@, u) || dist@[vdx(g, v)]
                <= dist@[vdx(g, u)] + 1 || (u == curv && exists|j: int|
                0 <= j < ns@.len() && uv(#[trigger] ns@[j]) == v) by {
                if !front_has(front@, u) && !(dist@[vdx(g, v)] <= dist@[vdx(g, u)] + 1) {
                    assert(front_has(front0, u) || dist@[vdx(g, v)] <= dist@[vdx(g, u)] + 1);
                    let i = choose|i: int| 0 <= i < front0.len() && uv(#[trigger] front0[i]) == u;
                    if i < front0.len() - 1 {
                        assert(uv(front@[i]) == u);
                        assert(front_has(front@, u));
                    } else {
                        assert(u == curv);
                        let qv = (v.0 as usize, v.1 as usize);
                        assert(uv(qv) == v);
                        lemma_neighbours_contains(g, curv, qv);
                        assert(ns@.contains(qv));
                        let j = choose|j: int| 0 <= j < ns@.len() && ns@[j] == qv;
                        assert(uv(ns@[j]) == v);
                    }
                }
            }
        }
        while t < ns.len()
            invariant
                t <= ns@.len(),
                wf(g),
                g == *m,
                in_bounds(g, src),
                in_bounds(g, curv),
                ns@ == spec_neighbours(g, curv),
                d_cur == dist@[vdx(g, curv)],
                d_cur < i64::MAX,
                alt == d_cur + 1,
                dist_sound(g, dist@, src),
                reach(g, 1, src, curv, d_cur as int),
                forall|i: int|
                    0 <= i < front@.len() ==> in_bounds(g, uv(#[trigger] front@[i])) && dist@[vdx(
                        g,
                        uv(front@[i]),
                    )] < i64::MAX,
                forall|u: (int, int), v: (int, int)|
                    #[trigger] edge(g, 1, u, v) ==> front_has(front@, u) || dist@[vdx(g, v)]
                        <= dist@[vdx(g, u)] + 1 || (u == curv && exists|j: int|
                        t <= j < ns@.len() && uv(#[trigger] ns@[j]) == v),
                forall|t0: int| 0 <= t0 < dist@.len() ==> #[trigger] dist@[t0] >= 0,
                sum0 == sum_i64v(dist_at_head),
                sum_i64v(dist@) < sum0 || (dist@ == dist_at_head && front@
                    == dist_head_front(front0)),
            decreases ns@.len() - t,
        {
            let q = ns[t];
            proof {
                lemma_neighbours_contains(g, curv, q);
                assert(ns@.contains(q)) by {
                    assert(ns@[t as int] == q);
                }
                assert(edge(g, 1, curv, uv(q)));
                lemma_vdx_range(g, uv(q));
            }
            let q_i = q.0 + q.1 * m.width;
            proof {
                assert(q_i == vdx(g, uv(q)));
            }
            if alt < dist[q_i] {
                let ghost dist0 = dist@;
                let ghost frontb = front@;
                dist[q_i] = alt;
                front.push(q);
                proof {
                    lemma_sum_i64v_update(dist0, q_i as int, alt);
                    lemma_vdx_range(g, src);
                    lemma_vdx_range(g, curv);
                    lemma_vdx_range(g, uv(q));
                    assert(0 <= d_cur);
                    assert(dist0[vdx(g, uv(q))] <= i64::MAX);
                    assert(alt < i64::MAX);
                    assert(sum_i64v(dist0) <= sum0);
                    assert(sum_i64v(dist@) < sum_i64v(dist0));
                    assert(sum_i64v(dist@) < sum0);
                    assert forall|i: int|
                        0 <= i < front@.len() implies in_bounds(g, uv(#[trigger] front@[i]))
                        && dist@[vdx(g, uv(front@[i]))] < i64::MAX by {
                        if i < frontb.len() {
                            assert(front@[i] == frontb[i]);
                            lemma_vdx_range(g, uv(frontb[i]));
                            if vdx(g, uv(frontb[i])) == vdx(g, uv(q)) {
                                assert(dist@[vdx(g, uv(front@[i]))] == alt);
                            } else {
                                assert(dist@[vdx(g, uv(front@[i]))] == dist0[vdx(
                                    g,
                                    uv(frontb[i]),
                                )]);
                            }
                        } else {
                            assert(front@[i] == q);
                            assert(dist@[vdx(g, uv(q))] == alt);
                        }
                    }
                    assert(vdx(g, curv) != vdx(g, uv(q))) by {
                        if vdx(g, curv) == vdx(g, uv(q)) {
                            lemma_vdx_injective(g, curv, uv(q));
                        }
                    }
                    // the written cell is reached one step past the current cell
                    assert(reach(g, 1, src, uv(q), alt as int)) by {
                        assert(edge(g, 1, curv, uv(q)));
                        assert(reach(g, 1, src, curv, d_cur as int));
                    }
                    assert(vdx(g, uv(q)) != vdx(g, curv)) by {
                        if vdx(g, uv(q)) == vdx(g, curv) {
                            lemma_vdx_injective(g, uv(q), curv);
                        }
                    }
                    assert forall|p: (int, int)|
                        in_bounds(g, p) && dist@[#[trigger] vdx(g, p)] < i64::MAX implies reach(
                        g,
                        1,
                        src,
                        p,
                        dist@[vdx(g, p)] as int,
                    ) by {
                        lemma_vdx_range(g, p);
                        if vdx(g, p) == vdx(g, uv(q)) {
                            lemma_vdx_injective(g, p, uv(q));
                        }
                    }
                    assert(dist@[vdx(g, src)] == 0) by {
                        assert(dist0[vdx(g, src)] == 0);
                        if vdx(g, src) == vdx(g, uv(q)) {
                            assert(false);
                        }
                    }
                    assert forall|u: (int, int), v: (int, int)|
                        #[trigger] edge(g, 1, u, v) implies front_has(front@, u) || dist@[vdx(
                        g,
                        v,
                    )] <= dist@[vdx(g, u)] + 1 || (u == curv && exists|j: int|
                        t + 1 <= j < ns@.len() && uv(#[trigger] ns@[j]) == v) by {
                        lemma_vdx_range(g, u);
                        lemma_vdx_range(g, v);
                        if !front_has(front@, u) && !(dist@[vdx(g, v)] <= dist@[vdx(g, u)]
                            + 1) {
                            // the old frontier is a prefix of the new one
                            assert(!front_has(frontb, u)) by {
                                if front_has(frontb, u) {
                                    let i = choose|i: int|
                                        0 <= i < frontb.len() && uv(#[trigger] frontb[i]) == u;
                                    assert(uv(front@[i]) == u);
                                }
                            }
                            assert(u != uv(q)) by {
                                if u == uv(q) {
                                    assert(uv(front@[front@.len() - 1]) == u);
                                }
                            }
                            assert(vdx(g, u) != vdx(g, uv(q))) by {
                                if vdx(g, u) == vdx(g, uv(q)) {
                                    lemma_vdx_injective(g, u, uv(q));
                                }
                            }
                            assert(dist@[vdx(g, u)] == dist0[vdx(g, u)]);
                            assert(dist@[vdx(g, v)] <= dist0[vdx(g, v)]);
                            assert(!(dist0[vdx(g, v)] <= dist0[vdx(g, u)] + 1));
                            assert(u == curv);
                            let j = choose|j: int|
                                t <= j < ns@.len() && uv(#[trigger] ns@[j]) == v;
                            if j == t {
                                assert(v == uv(q));
                                assert(dist@[vdx(g, v)] == alt);
                                assert(dist@[vdx(g, u)] == d_cur);
                                assert(false);
                            }
                            assert(t + 1 <= j < ns@.len() && uv(ns@[j]) == v);
                        }
                    }
                }
            } else {
                proof {
                    assert forall|u: (int, int), v: (int, int)|
                        #[trigger] edge(g, 1, u, v) implies front_has(front@, u) || dist@[vdx(
                        g,
                        v,
                    )] <= dist@[vdx(g, u)] + 1 || (u == curv && exists|j: int|
                        t + 1 <= j < ns@.len() && uv(#[trigger] ns@[j]) == v) by {
                        if !front_has(front@, u) && !(dist@[vdx(g, v)] <= dist@[vdx(g, u)]
                            + 1) {
                            let j = choose|j: int|
                                t <= j < ns@.len() && uv(#[trigger] ns@[j]) == v;
                            if j == t {
                                assert(v == uv(q));
                                assert(dist@[vdx(g, v)] <= alt);
                            }
                        }
                    }
                }
            }
            t = t + 1;
        }
        proof {
            lemma_sum_i64v_nonneg(dist@);
            if !(sum_i64v(dist@) < sum0) {
                assert(front@.len() < front0.len());
            }
            // after the scan, every edge out of the popped cell is settled
            assert forall|u: (int, int), v: (int, int)|
                #[trigger] edge(g, 1, u, v) implies front_has(front@, u) || dist@[vdx(g, v)]
                <= dist@[vdx(g, u)] + 1 by {
                if u == curv && !front_has(front@, u) && !(dist@[vdx(g, v)] <= dist@[vdx(
                    g,
                    u,
                )] + 1) {
                    assert(exists|j: int| t <= j < ns@.len() && uv(#[trigger] ns@[j]) == v);
                }
            }
        }
    }
    proof {
        assert(no_pending(g, dist@, Seq::empty())) by {
            assert forall|u: (int, int), v: (int, int)|
                #[trigger] edge(g, 1, u, v) implies front_has(Seq::empty(), u) || dist@[vdx(
                g,
                v,
            )] <= dist@[vdx(g, u)] + 1 by {
                assert(!front_has(front@, u) || dist@[vdx(g, v)] <= dist@[vdx(g, u)] + 1);
            }
        }
        assert forall|p: (int, int)| in_bounds(g, p) implies dist@[#[trigger] vdx(g, p)]
            == bfs_distance(g, 1, src, p) by {
            lemma_vdx_range(g, p);
            let d = dist@[vdx(g, p)];
            if d < i64::MAX {
                assert(reach(g, 1, src, p, d as int));
                assert(reachable(g, 1, src, p));
                assert(!reach(g, 1, src, p, d - 1)) by {
                    if reach(g, 1, src, p, d - 1) {
                        lemma_dist_upper(g, dist@, src, p, d - 1);
                    }
                }
                assert(is_least_reach(g, 1, src, p, d as int));
                let m0 = choose|m0: int| is_least_reach(g, 1, src, p, m0);
                lemma_least_unique(g, 1, src, p, m0, d as int);
            } else {
                if reachable(g, 1, src, p) {
                    let k = choose|k: int| reach(g, 1, src, p, k);
                    lemma_least_exists(g, 1, src, p, k);
                    let m0 = choose|m0: int| is_least_reach(g, 1, src, p, m0);
                    lemma_dist_upper(g, dist@, src, p, m0);
                    assert(m0 >= i64::MAX);
                }
            }
        }
    }
    Ok(dist)
}

/// The distance field from the grid's own start cell.
pub fn dists(m: &Grid) -> (r: Vec<i64>)
    requires
        wf(*m),
    ensures
        r@.len() == m.width * m.height,
        forall|p: (int, int)|
            in_bounds(*m, p) ==> r@[#[trigger] vdx(*m, p)] == bfs_distance(
                *m,
                1,
                uv(m.start),
                p,
            ),
{
    match shortest_distance(m, m.start) {
        Ok(d) => d,
        Err(_) => {
            proof {
                assert(false);
            }
            unreached()
        },
    }
}

/// The minimum number of hops from the start to the goal, or the
/// sentinel when the goal is unreached.
pub fn solve1(m: &Grid) -> (r: i64)
    requires
        wf(*m),
    ensures
        r == bfs_distance(*m, 1, uv(m.start), uv(m.goal)),
{
    let dist = dists(m);
    proof {
        lemma_vdx_range(*m, uv(m.goal));
    }
    let gi = m.goal.0 + m.goal.1 * m.width;
    proof {
        assert(gi == vdx(*m, uv(m.goal)));
    }
    dist[gi]
}


/// Admitting taller steps never makes a cell harder to reach.
pub proof fn lemma_reach_limit_mono(
    g: Grid,
    lim1: int,
    lim2: int,
    src: (int, int),
    v: (int, int),
    k: int,
)
    requires
        lim1 <= lim2,
        reach(g, lim1, src, v, k),
    ensures
        reach(g, lim2, src, v, k),
    decreases k,
{
    if v != src {
        let u = choose|u: (int, int)| edge(g, lim1, u, v) && reach(g, lim1, src, u, k - 1);
        lemma_reach_limit_mono(g, lim1, lim2, src, u, k - 1);
        assert(edge(g, lim2, u, v));
    }
}

/// Tightening the step constraint can only lengthen every distance:
/// with fewer admissible edges no cell gets closer.
pub proof fn lemma_stricter_limit_no_shorter(
    g: Grid,
    lim1: int,
    lim2: int,
    src: (int, int),
    v: (int, int),
)
    requires
        lim1 <= lim2,
    ensures
        bfs_distance(g, lim2, src, v) <= bfs_distance(g, lim1, src, v),
{
    if reachable(g, lim1, src, v) {
        let k1 = choose|k1: int| reach(g, lim1, src, v, k1);
        lemma_least_exists(g, lim1, src, v, k1);
        let w1 = choose|w1: int| is_least_reach(g, lim1, src, v, w1) && w1 <= k1;
        let m1 = choose|m1: int| is_least_reach(g, lim1, src, v, m1);
        lemma_least_unique(g, lim1, src, v, m1, w1);
        lemma_reach_limit_mono(g, lim1, lim2, src, v, m1);
        lemma_least_exists(g, lim2, src, v, m1);
        let w2 = choose|w2: int| is_least_reach(g, lim2, src, v, w2) && w2 <= m1;
        assert(reachable(g, lim2, src, v)) by {
            assert(reach(g, lim2, src, v, w2));
        }
        let m2 = choose|m2: int| is_least_reach(g, lim2, src, v, m2);
        lemma_least_unique(g, lim2, src, v, m2, w2);
        assert(m2 <= m1);
    }
}

/// The best start: the least goal distance over all lowest-elevation
/// cells among the first `n` cells in row-major order.
pub open spec fn best_from_low(g: Grid, n: int) -> Option<int>
    decreases n,
{
    if n <= 0 {
        None
    } else {
        let prev = best_from_low(g, n - 1);
        let p = ((n - 1) % (g.width as int), (n - 1) / (g.width as int));
        if height_at(g, p) == 97 {
            let d = bfs_distance(g, 1, p, uv(g.goal));
            match prev {
                None => Some(d),
                Some(m) => Some(
                    if d < m {
                        d
                    } else {
                        m
                    },
                ),
            }
        } else {
            prev
        }
    }
}

/// The fewest hops to the goal over every possible lowest-elevation
/// starting cell.
pub fn solve2(m: &Grid) -> (r: i64)
    requires
        wf(*m),
        best_from_low(*m, m.width * m.height) is Some,
    ensures
        r == best_from_low(*m, m.width * m.height).unwrap(),
{
    let ghost g = *m;
    let mut best: i64 = 0;
    let mut found: bool = false;
    let mut y: usize = 0;
    while y < m.height
        invariant
            y <= m.height,
            wf(g),
            g == *m,
            match best_from_low(g, y * g.width) {
                None => !found,
                Some(b) => found && best == b,
            },
        decreases m.height - y,
    {
        let mut x: usize = 0;
        proof {
            assert(y * g.width + 0 == y * g.width);
        }
        while x < m.width
            invariant
                x <= m.width,
                y < m.height,
                wf(g),
                g == *m,
                match best_from_low(g, y * g.width + x) {
                    None => !found,
                    Some(b) => found && best == b,
                },
            decreases m.width - x,
        {
            let ghost n = y * g.width + x + 1;
            proof {
                lemma_vdx_range(g, (x as int, y as int));
                assert(n - 1 == vdx(g, (x as int, y as int)));
                assert((n - 1) % (g.width as int) == x as int && (n - 1) / (g.width as int)
                    == y as int) by (nonlinear_arith)
                    requires
                        n - 1 == x + y * g.width,
                        0 <= x < g.width,
                        0 <= y,
                ;
            }
            if m.map[y][x] == 97 {
                match shortest_distance(m, (x, y)) {
                    Ok(dist) => {
                        proof {
                            lemma_vdx_range(g, uv(g.goal));
                        }
                        let gi = m.goal.0 + m.goal.1 * m.width;
                        proof {
                            assert(gi == vdx(g, uv(g.goal)));
                        }
                        let d = dist[gi];
                        proof {
                            assert(d == bfs_distance(g, 1, (x as int, y as int), uv(g.goal)));
                        }
                        if !found || d < best {
                            best = d;
                            found = true;
                        } else {
                        }
                    },
                    Err(_) => {
                        proof {
                            assert(false);
                        }
                        unreached()
                    },
                }
            }
            x = x + 1;
        }
        proof {
            assert(y * g.width + g.width == (y + 1) * g.width) by (nonlinear_arith);
        }
        y = y + 1;
    }
    proof {
        assert(g.height * g.width == g.width * g.height) by (nonlinear_arith);
    }
    best
}

// ---- rendering the elevations back to letters ----

/// Render the elevations as lowercase letters; each output character's
/// code is exactly the cell's height.
pub fn render_rows(m: &Grid) -> (r: Vec<Vec<char>>)
    requires
        wf(*m),
        forall|y: int, x: int|
            0 <= y < m.height && 0 <= x < m.width ==> 97 <= #[trigger] m.map@[y]@[x] <= 122,
    ensures
        r@.len() == m.height,
        forall|y: int| 0 <= y < m.height ==> (#[trigger] r@[y])@.len() == m.width,
        forall|y: int, x: int|
            0 <= y < m.height && 0 <= x < m.width ==> (#[trigger] r@[y]@[x]) as u32
                == m.map@[y]@[x] && 'a' <= r@[y]@[x] <= 'z',
{
    let ghost g = *m;
    let mut r: Vec<Vec<char>> = Vec::new();
    let mut y: usize = 0;
    while y < m.height
        invariant
            y <= m.height,
            wf(g),
            g == *m,
            forall|yy: int, xx: int|
                0 <= yy < m.height && 0 <= xx < m.width ==> 97 <= #[trigger] m.map@[yy]@[xx]
                    <= 122,
            r@.len() == y,
            forall|yy: int| 0 <= yy < y ==> (#[trigger] r@[yy])@.len() == m.width,
            forall|yy: int, xx: int|
                0 <= yy < y && 0 <= xx < m.width ==> (#[trigger] r@[yy]@[xx]) as u32
                    == m.map@[yy]@[xx] && 'a' <= r@[yy]@[xx] <= 'z',
        decreases m.height - y,
    {
        let row = &m.map[y];
        let mut out: Vec<char> = Vec::new();
        let mut x: usize = 0;
        proof {
            assert(row@ == g.map@[y as int]@);
        }
        while x < row.len()
            invariant
                x <= row@.len(),
                y < m.height,
                wf(g),
                g == *m,
                row@ == g.map@[y as int]@,
                row@.len() == m.width,
                forall|xx: int| 0 <= xx < row@.len() ==> 97 <= #[trigger] row@[xx] <= 122,
                out@.len() == x,
                forall|xx: int|
                    0 <= xx < x ==> (#[trigger] out@[xx]) as u32 == row@[xx] && 'a' <= out@[xx]
                        <= 'z',
            decreases row@.len() - x,
        {
            let h = row[x];
            let c: char = if h == 97 {
                'a'
            } else if h == 98 {
                'b'
            } else if h == 99 {
                'c'
            } else if h == 100 {
                'd'
            } else if h == 101 {
                'e'
            } else if h == 102 {
                'f'
            } else if h == 103 {
                'g'
            } else if h == 104 {
                'h'
            } else if h == 105 {
                'i'
            } else if h == 106 {
                'j'
            } else if h == 107 {
                'k'
            } else if h == 108 {
                'l'
            } else if h == 109 {
                'm'
            } else if h == 110 {
                'n'
            } else if h == 111 {
                'o'
            } else if h == 112 {
                'p'
            } else if h == 113 {
                'q'
            } else if h == 114 {
                'r'
            } else if h == 115 {
                's'
            } else if h == 116 {
                't'
            } else if h == 117 {
                'u'
            } else if h == 118 {
                'v'
            } else if h == 119 {
                'w'
            } else if h == 120 {
                'x'
            } else if h == 121 {
                'y'
            } else if h == 122 {
                'z'
            } else {
                'a'
            };
            proof {
                assert(c as u32 == h && 'a' <= c <= 'z');
            }
            out.push(c);
            x = x + 1;
        }
        r.push(out);
        y = y + 1;
    }
    r
}

/// Rendering after parsing reproduces the letter grid: for a lowercase
/// cell the very character comes back, and the two markers come back as
/// the letters whose elevations they borrow.
pub proof fn lemma_render_parse_round_trip(c: char, h: int, rc: char)
    requires
        'a' <= c <= 'z' || c == 'S' || c == 'E',
        h == spec_char_height(c),
        rc as u32 == h,
        'a' <= rc <= 'z',
    ensures
        rc == if c == 'S' {
            'a'
        } else if c == 'E' {
            'z'
        } else {
            c
        },
{
    vstd::utf8::char_is_scalar(c);
    vstd::utf8::char_is_scalar(rc);
    vstd::utf8::char_u32_cast(rc, rc as u32);
    if c == 'S' {
        vstd::utf8::char_u32_cast('a', 'a' as u32);
        assert('a' as u32 == 97);
        assert(rc as u32 == 'a' as u32);
        assert((rc as u32) as char == rc && ('a' as u32) as char == 'a');
    } else if c == 'E' {
        vstd::utf8::char_u32_cast('z', 'z' as u32);
        assert('z' as u32 == 122);
        assert(rc as u32 == 'z' as u32);
        assert((rc as u32) as char == rc && ('z' as u32) as char == 'z');
    } else {
        vstd::utf8::char_u32_cast(c, c as u32);
        assert(rc as u32 == c as u32);
        assert((rc as u32) as char == rc && (c as u32) as char == c);
    }
}


/// The source is always at distance zero from itself.
pub proof fn lemma_source_distance_zero(g: Grid, lim: int, src: (int, int))
    ensures
        bfs_distance(g, lim, src, src) == 0,
{
    assert(reach(g, lim, src, src, 0));
    assert(reachable(g, lim, src, src));
    assert(is_least_reach(g, lim, src, src, 0));
    let m = choose|m: int| is_least_reach(g, lim, src, src, m);
    lemma_least_unique(g, lim, src, src, m, 0);
}

/// Parsing and rendering round-trip: rendering the parsed elevations
/// reproduces the letter grid, with the two markers standing as the
/// letters whose elevations they borrow.
pub proof fn lemma_grid_round_trip(g: Grid, s: Seq<char>, rows: Seq<Seq<char>>)
    requires
        grid_text_ok(s),
        g.height == spec_lines(s).len(),
        g.width == spec_lines(s)[0].len(),
        forall|y: int, x: int|
            0 <= y < g.height && 0 <= x < g.width ==> height_at(g, (x, y)) == spec_char_height(
                #[trigger] spec_lines(s)[y][x],
            ),
        forall|y: int, x: int|
            0 <= y < g.height && 0 <= x < g.width ==> 'a' <= #[trigger] spec_lines(s)[y][x]
                <= 'z' || spec_lines(s)[y][x] == 'S' || spec_lines(s)[y][x] == 'E',
        rows.len() == g.height,
        forall|y: int| 0 <= y < g.height ==> (#[trigger] rows[y]).len() == g.width,
        forall|y: int, x: int|
            0 <= y < g.height && 0 <= x < g.width ==> (#[trigger] rows[y][x]) as u32
                == g.map@[y]@[x] && 'a' <= rows[y][x] <= 'z',
    ensures
        forall|y: int, x: int|
            0 <= y < g.height && 0 <= x < g.width ==> #[trigger] rows[y][x] == (
            if spec_lines(s)[y][x] == 'S' {
                'a'
            } else if spec_lines(s)[y][x] == 'E' {
                'z'
            } else {
                spec_lines(s)[y][x]
            }),
{
    assert forall|y: int, x: int|
        0 <= y < g.height && 0 <= x < g.width implies #[trigger] rows[y][x] == (
    if spec_lines(s)[y][x] == 'S' {
        'a'
    } else if spec_lines(s)[y][x] == 'E' {
        'z'
    } else {
        spec_lines(s)[y][x]
    }) by {
        lemma_render_parse_round_trip(
            spec_lines(s)[y][x],
            height_at(g, (x, y)),
            rows[y][x],
        );
    }
}

/// Parse a letter block, rejecting a ragged or markerless one.
pub fn parse_grid(text: &str) -> (r: Result<Grid, PuzzleError>)
    ensures
        match r {
            Ok(g) => grid_text_ok(text@) && wf(g) && g.height == spec_lines(text@).len()
                && g.width == spec_lines(text@)[0].len() && (forall|y: int, x: int|
                0 <= y < g.height && 0 <= x < g.width ==> height_at(g, (x, y))
                    == spec_char_height(#[trigger] spec_lines(text@)[y][x])) && first_marker(
                spec_lines(text@),
                uv(g.start),
                'S',
            ) && first_marker(spec_lines(text@), uv(g.goal), 'E'),
            Err(e) => !grid_text_ok(text@) && e == PuzzleError::MalformedInput,
        },
{
    let cs = chars_of(text);
    let lines = split_lines(&cs);
    let ghost lv = spec_lines(text@);
    proof {
        assert(views(lines@) == lv);
        assert(views(lines@).len() == lines@.len());
    }
    if lines.len() == 0 {
        return Err(PuzzleError::MalformedInput);
    }
    let width = lines[0].len();
    if width == 0 {
        return Err(PuzzleError::MalformedInput);
    }
    let mut y: usize = 0;
    while y < lines.len()
        invariant
            y <= lines@.len(),
            lv == spec_lines(text@),
            lv == views(lines@),
            lv.len() == lines@.len(),
            width == lv[0].len(),
            forall|t: int| 0 <= t < y ==> (#[trigger] lv[t]).len() == width,
        decreases lines@.len() - y,
    {
        proof {
            assert(lines@[y as int]@ == lv[y as int]);
        }
        if lines[y].len() != width {
            return Err(PuzzleError::MalformedInput);
        }
        y = y + 1;
    }
    let has_s = find_marker(&lines, 'S');
    let has_e = find_marker(&lines, 'E');
    let s_ok = match has_s {
        Some(_) => true,
        None => false,
    };
    let e_ok = match has_e {
        Some(_) => true,
        None => false,
    };
    if !s_ok || !e_ok {
        proof {
            if grid_text_ok(text@) {
                if !s_ok {
                    let (sy, sx) = choose|yy: int, xx: int|
                        0 <= yy < lv.len() && 0 <= xx < lv[0].len() && #[trigger] lv[yy][xx]
                            == 'S';
                    assert(lv[sy][sx] != 'S');
                }
                if !e_ok {
                    let (ey, ex) = choose|yy: int, xx: int|
                        0 <= yy < lv.len() && 0 <= xx < lv[0].len() && #[trigger] lv[yy][xx]
                            == 'E';
                    assert(lv[ey][ex] != 'E');
                }
            }
        }
        return Err(PuzzleError::MalformedInput);
    }
    if lines.len() > usize::MAX / width {
        proof {
            assert(lv.len() * lv[0].len() > usize::MAX) by (nonlinear_arith)
                requires
                    lv.len() > usize::MAX as int / (width as int),
                    width == lv[0].len(),
                    width >= 1,
            ;
        }
        return Err(PuzzleError::MalformedInput);
    }
    proof {
        assert(lv.len() * lv[0].len() <= usize::MAX) by (nonlinear_arith)
            requires
                lv.len() <= usize::MAX as int / (width as int),
                width == lv[0].len(),
                width >= 1,
        ;
        match has_s {
            Some(p) => {
                assert(lv[uv(p).1][uv(p).0] == 'S');
                assert(lv[uv(p).1].len() == width);
            },
            None => {
                assert(false);
            },
        }
        match has_e {
            Some(p) => {
                assert(lv[uv(p).1][uv(p).0] == 'E');
                assert(lv[uv(p).1].len() == width);
            },
            None => {
                assert(false);
            },
        }
        assert(grid_text_ok(text@));
    }
    Ok(parse(text))
}

} // verus!
