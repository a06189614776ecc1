//! Tree visibility in a height grid: count trees visible from outside
//! the grid, and find the best scenic score, the product of viewing
//! distances in the four directions.

use vstd::prelude::*;
use crate::text::{chars_of, split_lines, spec_lines, is_digit, digit_val, views};

verus! {

pub open spec fn fviews(f: Seq<Vec<i64>>) -> Seq<Seq<i64>> {
    f.map_values(|r: Vec<i64>| r@)
}

/// A nonempty rectangle of tree heights.
pub open spec fn forest_wf(fv: Seq<Seq<i64>>) -> bool {
    &&& fv.len() >= 1
    &&& fv[0].len() >= 1
    &&& forall|y: int| 0 <= y < fv.len() ==> (#[trigger] fv[y]).len() == fv[0].len()
}

pub open spec fn cell_ok(fv: Seq<Seq<i64>>, x: int, y: int) -> bool {
    0 <= y < fv.len() && 0 <= x < fv[0].len()
}

/// Whether the tree is visible from some edge: every tree between it
/// and that edge is strictly lower.
pub open spec fn spec_visible(fv: Seq<Seq<i64>>, x: int, y: int) -> bool {
    let h = fv[y][x];
    let w = fv[0].len() as int;
    let hh = fv.len() as int;
    ||| x == 0
    ||| y == 0
    ||| x == w - 1
    ||| y == hh - 1
    ||| (forall|i: int| 0 <= i < x ==> #[trigger] fv[y][i] < h)
    ||| (forall|i: int| x < i < w ==> #[trigger] fv[y][i] < h)
    ||| (forall|i: int| 0 <= i < y ==> #[trigger] fv[i][x] < h)
    ||| (forall|i: int| y < i < hh ==> #[trigger] fv[i][x] < h)
}

/// Whether the tree at `(x, y)` can be seen from outside the forest.
pub fn visible(f: &Vec<Vec<i64>>, x: usize, y: usize) -> (r: bool)
    requires
        forest_wf(fviews(f@)),
        cell_ok(fviews(f@), x as int, y as int),
    ensures
        r == spec_visible(fviews(f@), x as int, y as int),
{
    let ghost fv = fviews(f@);
    proof {
        assert(fv[y as int] == f@[y as int]@);
        assert(fv[0] == f@[0]@);
    }
    let h = f[y][x];
    let height = f.len();
    let width = f[0].len();
    if x == 0 || y == 0 || x == width - 1 || y == height - 1 {
        return true;
    }
    let mut from_left = true;
    let mut i: usize = 0;
    while i < x
        invariant
            i <= x,
            fv == fviews(f@),
            forest_wf(fv),
            cell_ok(fv, x as int, y as int),
            h == fv[y as int][x as int],
            from_left == (forall|k: int| 0 <= k < i ==> #[trigger] fv[y as int][k] < h),
        decreases x - i,
    {
        proof {
            assert(fv[y as int] == f@[y as int]@);
        }
        if f[y][i] >= h {
            from_left = false;
            proof {
                assert(fv[y as int][i as int] >= h);
            }
        }
        i = i + 1;
    }
    let mut from_right = true;
    let mut i2: usize = x + 1;
    while i2 < width
        invariant
            x < i2 <= width,
            fv == fviews(f@),
            forest_wf(fv),
            cell_ok(fv, x as int, y as int),
            width == fv[0].len(),
            h == fv[y as int][x as int],
            from_right == (forall|k: int| x < k < i2 ==> #[trigger] fv[y as int][k] < h),
        decreases width - i2,
    {
        proof {
            assert(fv[y as int] == f@[y as int]@);
        }
        if f[y][i2] >= h {
            from_right = false;
            proof {
                assert(fv[y as int][i2 as int] >= h);
            }
        }
        i2 = i2 + 1;
    }
    let mut from_top = true;
    let mut i3: usize = 0;
    while i3 < y
        invariant
            i3 <= y,
            fv == fviews(f@),
            forest_wf(fv),
            cell_ok(fv, x as int, y as int),
            h == fv[y as int][x as int],
            from_top == (forall|k: int| 0 <= k < i3 ==> #[trigger] fv[k][x as int] < h),
        decreases y - i3,
    {
        proof {
            assert(fv[i3 as int] == f@[i3 as int]@);
        }
        if f[i3][x] >= h {
            from_top = false;
            proof {
                assert(fv[i3 as int][x as int] >= h);
            }
        }
        i3 = i3 + 1;
    }
    let mut from_bottom = true;
    let mut i4: usize = y + 1;
    while i4 < height
        invariant
            y < i4 <= height,
            fv == fviews(f@),
            forest_wf(fv),
            cell_ok(fv, x as int, y as int),
            height == fv.len(),
            h == fv[y as int][x as int],
            from_bottom == (forall|k: int| y < k < i4 ==> #[trigger] fv[k][x as int] < h),
        decreases height - i4,
    {
        proof {
            assert(fv[i4 as int] == f@[i4 as int]@);
        }
        if f[i4][x] >= h {
            from_bottom = false;
            proof {
                assert(fv[i4 as int][x as int] >= h);
            }
        }
        i4 = i4 + 1;
    }
    from_left || from_right || from_top || from_bottom
}

/// Count of visible trees among the first `n` cells in row-major order.
pub open spec fn count_visible_upto(fv: Seq<Seq<i64>>, n: int) -> int
    decreases n,
{
    if n <= 0 {
        0
    } else {
        let w = fv[0].len() as int;
        count_visible_upto(fv, n - 1) + if spec_visible(fv, (n - 1) % w, (n - 1) / w) {
            1int
        } else {
            0int
        }
    }
}

/// Count every tree visible from outside the grid.
pub fn solve1(f: &Vec<Vec<i64>>) -> (r: i64)
    requires
        forest_wf(fviews(f@)),
        fviews(f@).len() * fviews(f@)[0].len() <= i64::MAX,
    ensures
        r == count_visible_upto(fviews(f@), fviews(f@).len() as int * fviews(f@)[0].len() as int),
{
    let ghost fv = fviews(f@);
    let height = f.len();
    let width = f[0].len();
    let mut cnt: i64 = 0;
    let mut y: usize = 0;
    while y < height
        invariant
            y <= height,
            fv == fviews(f@),
            forest_wf(fv),
            height == fv.len(),
            width == fv[0].len(),
            fv.len() * fv[0].len() <= i64::MAX,
            0 <= cnt <= y * width,
            cnt == count_visible_upto(fv, y * width),
        decreases height - y,
    {
        let mut x: usize = 0;
        proof {
            assert(y * width + 0 == y * width);
        }
        while x < width
            invariant
                x <= width,
                y < height,
                fv == fviews(f@),
                forest_wf(fv),
                height == fv.len(),
                width == fv[0].len(),
                fv.len() * fv[0].len() <= i64::MAX,
                0 <= cnt <= y * width + x,
                cnt == count_visible_upto(fv, y * width + x),
            decreases width - x,
        {
            let ghost n = y * width + x + 1;
            proof {
                assert((n - 1) % (width as int) == x as int && (n - 1) / (width as int)
                    == y as int) by (nonlinear_arith)
                    requires
                        n - 1 == x + y * width,
                        0 <= x < width,
                        0 <= y,
                ;
                assert(y * width + x + 1 <= height * width) by (nonlinear_arith)
                    requires
                        0 <= x < width,
                        0 <= y < height,
                ;
                assert(height * width == fv.len() * fv[0].len());
            }
            if visible(f, x, y) {
                cnt = cnt + 1;
            }
            x = x + 1;
        }
        proof {
            assert(y * width + width == (y + 1) * width) by (nonlinear_arith);
        }
        y = y + 1;
    }
    proof {
        assert(height * width == fv.len() * fv[0].len());
    }
    cnt
}

/// Viewing distance looking left from column `x` at height `h`.
pub open spec fn spec_look_left(row: Seq<i64>, h: i64, x: int) -> int
    decreases x,
{
    if x <= 0 {
        0
    } else if row[x - 1] >= h {
        1
    } else {
        1 + spec_look_left(row, h, x - 1)
    }
}

/// Viewing distance looking right from column `x` at height `h`.
pub open spec fn spec_look_right(row: Seq<i64>, h: i64, x: int) -> int
    decreases row.len() - x,
{
    if x >= row.len() - 1 {
        0
    } else if row[x + 1] >= h {
        1
    } else {
        1 + spec_look_right(row, h, x + 1)
    }
}

/// The column of heights at `x`.
pub open spec fn column(fv: Seq<Seq<i64>>, x: int) -> Seq<i64> {
    Seq::new(fv.len(), |y: int| fv[y][x])
}

/// The scenic score: the product of the four viewing distances.
pub open spec fn spec_scenic(fv: Seq<Seq<i64>>, x: int, y: int) -> int {
    let h = fv[y][x];
    spec_look_left(fv[y], h, x) * spec_look_right(fv[y], h, x) * spec_look_left(
        column(fv, x),
        h,
        y,
    ) * spec_look_right(column(fv, x), h, y)
}

fn look_left_row(f: &Vec<Vec<i64>>, y: usize, h: i64, x: usize) -> (r: usize)
    requires
        forest_wf(fviews(f@)),
        y < f@.len(),
        x < fviews(f@)[0].len(),
    ensures
        r == spec_look_left(fviews(f@)[y as int], h, x as int),
        r <= x,
{
    let ghost row = fviews(f@)[y as int];
    proof {
        assert(row == f@[y as int]@);
    }
    let mut i: usize = x;
    let mut d: usize = 0;
    while i > 0
        invariant
            0 <= i <= x,
            row == fviews(f@)[y as int],
            row == f@[y as int]@,
            y < f@.len(),
            x < row.len(),
            d == x - i,
            spec_look_left(row, h, x as int) == d + spec_look_left(row, h, i as int),
        decreases i,
    {
        if f[y][i - 1] >= h {
            return d + 1;
        }
        i = i - 1;
        d = d + 1;
    }
    d
}

fn look_right_row(f: &Vec<Vec<i64>>, y: usize, h: i64, x: usize) -> (r: usize)
    requires
        forest_wf(fviews(f@)),
        y < f@.len(),
        x < fviews(f@)[0].len(),
    ensures
        r == spec_look_right(fviews(f@)[y as int], h, x as int),
        r <= fviews(f@)[0].len() - 1 - x,
{
    let ghost row = fviews(f@)[y as int];
    proof {
        assert(row == f@[y as int]@);
    }
    let width = f[0].len();
    proof {
        assert(row.len() == width);
    }
    let mut i: usize = x;
    let mut d: usize = 0;
    while i < width - 1
        invariant
            forest_wf(fviews(f@)),
            x <= i <= width - 1,
            row == fviews(f@)[y as int],
            row == f@[y as int]@,
            y < f@.len(),
            x < row.len(),
            width == row.len(),
            d == i - x,
            spec_look_right(row, h, x as int) == d + spec_look_right(row, h, i as int),
        decreases width - i,
    {
        if f[y][i + 1] >= h {
            return d + 1;
        }
        i = i + 1;
        d = d + 1;
    }
    d
}

fn look_up_col(f: &Vec<Vec<i64>>, x: usize, h: i64, y: usize) -> (r: usize)
    requires
        forest_wf(fviews(f@)),
        y < f@.len(),
        x < fviews(f@)[0].len(),
    ensures
        r == spec_look_left(column(fviews(f@), x as int), h, y as int),
        r <= y,
{
    let ghost col = column(fviews(f@), x as int);
    let mut i: usize = y;
    let mut d: usize = 0;
    while i > 0
        invariant
            0 <= i <= y,
            col == column(fviews(f@), x as int),
            forest_wf(fviews(f@)),
            y < f@.len(),
            x < fviews(f@)[0].len(),
            d == y - i,
            spec_look_left(col, h, y as int) == d + spec_look_left(col, h, i as int),
        decreases i,
    {
        proof {
            assert(col[i - 1] == fviews(f@)[i - 1][x as int]);
            assert(fviews(f@)[i - 1] == f@[i - 1]@);
        }
        if f[i - 1][x] >= h {
            return d + 1;
        }
        i = i - 1;
        d = d + 1;
    }
    d
}

fn look_down_col(f: &Vec<Vec<i64>>, x: usize, h: i64, y: usize) -> (r: usize)
    requires
        forest_wf(fviews(f@)),
        y < f@.len(),
        x < fviews(f@)[0].len(),
    ensures
        r == spec_look_right(column(fviews(f@), x as int), h, y as int),
        r <= f@.len() - 1 - y,
{
    let ghost col = column(fviews(f@), x as int);
    let height = f.len();
    proof {
        assert(col.len() == height);
    }
    let mut i: usize = y;
    let mut d: usize = 0;
    while i < height - 1
        invariant
            y <= i <= height - 1,
            col == column(fviews(f@), x as int),
            forest_wf(fviews(f@)),
            y < f@.len(),
            x < fviews(f@)[0].len(),
            height == f@.len(),
            d == i - y,
            spec_look_right(col, h, y as int) == d + spec_look_right(col, h, i as int),
        decreases height - i,
    {
        proof {
            assert(col[i + 1] == fviews(f@)[i + 1][x as int]);
            assert(fviews(f@)[i + 1] == f@[i + 1]@);
        }
        if f[i + 1][x] >= h {
            return d + 1;
        }
        i = i + 1;
        d = d + 1;
    }
    d
}

/// The scenic score of one tree.
pub fn scenic_score(f: &Vec<Vec<i64>>, x: usize, y: usize) -> (r: i64)
    requires
        forest_wf(fviews(f@)),
        cell_ok(fviews(f@), x as int, y as int),
        fviews(f@).len() <= 0x7FFF,
        fviews(f@)[0].len() <= 0x7FFF,
    ensures
        r == spec_scenic(fviews(f@), x as int, y as int),
        0 <= r,
{
    let ghost fv = fviews(f@);
    proof {
        assert(fv[y as int] == f@[y as int]@);
    }
    let h = f[y][x];
    let to_left = look_left_row(f, y, h, x);
    let to_right = look_right_row(f, y, h, x);
    let to_top = look_up_col(f, x, h, y);
    let to_bottom = look_down_col(f, x, h, y);
    proof {
        assert(to_left * to_right <= 0x7FFF * 0x7FFF) by (nonlinear_arith)
            requires
                0 <= to_left <= 0x7FFF,
                0 <= to_right <= 0x7FFF,
        ;
        assert(to_left * to_right * to_top <= 0x7FFF * 0x7FFF * 0x7FFF) by (nonlinear_arith)
            requires
                0 <= to_left * to_right <= 0x7FFF * 0x7FFF,
                0 <= to_top <= 0x7FFF,
        ;
        assert((to_left * to_right * to_top) * to_bottom <= 0x7FFF * 0x7FFF * 0x7FFF * 0x7FFF)
            by (nonlinear_arith)
            requires
                0 <= to_left * to_right * to_top <= 0x7FFF * 0x7FFF * 0x7FFF,
                0 <= to_bottom <= 0x7FFF,
        ;
        assert(to_left * to_right >= 0) by (nonlinear_arith)
            requires
                to_left >= 0,
                to_right >= 0,
        ;
        assert(to_left * to_right * to_top >= 0) by (nonlinear_arith)
            requires
                to_left * to_right >= 0,
                to_top >= 0,
        ;
        assert(to_left * to_right * to_top * to_bottom >= 0) by (nonlinear_arith)
            requires
                to_left * to_right * to_top >= 0,
                to_bottom >= 0,
        ;
    }
    (to_left as i64) * (to_right as i64) * (to_top as i64) * (to_bottom as i64)
}

/// The best scenic score among the first `n` cells, row-major.
pub open spec fn best_scenic_upto(fv: Seq<Seq<i64>>, n: int) -> int
    decreases n,
{
    if n <= 0 {
        0
    } else {
        let w = fv[0].len() as int;
        let prev = best_scenic_upto(fv, n - 1);
        let s = spec_scenic(fv, (n - 1) % w, (n - 1) / w);
        if s > prev {
            s
        } else {
            prev
        }
    }
}

/// The best scenic score over the whole forest.
pub fn solve2(f: &Vec<Vec<i64>>) -> (r: i64)
    requires
        forest_wf(fviews(f@)),
        fviews(f@).len() <= 0x7FFF,
        fviews(f@)[0].len() <= 0x7FFF,
    ensures
        r == best_scenic_upto(fviews(f@), fviews(f@).len() as int * fviews(f@)[0].len() as int),
{
    let ghost fv = fviews(f@);
    let height = f.len();
    let width = f[0].len();
    let mut best: i64 = 0;
    let mut y: usize = 0;
    proof {
        assert(best_scenic_upto(fv, 0) == 0);
    }
    while y < height
        invariant
            y <= height,
            fv == fviews(f@),
            forest_wf(fv),
            height == fv.len(),
            width == fv[0].len(),
            fv.len() <= 0x7FFF,
            fv[0].len() <= 0x7FFF,
            best == best_scenic_upto(fv, y * width),
        decreases height - y,
    {
        let mut x: usize = 0;
        proof {
            assert(y * width + 0 == y * width);
        }
        while x < width
            invariant
                x <= width,
                y < height,
                fv == fviews(f@),
                forest_wf(fv),
                height == fv.len(),
                width == fv[0].len(),
                fv.len() <= 0x7FFF,
                fv[0].len() <= 0x7FFF,
                best == best_scenic_upto(fv, y * width + x),
            decreases width - x,
        {
            let ghost n = y * width + x + 1;
            proof {
                assert((n - 1) % (width as int) == x as int && (n - 1) / (width as int)
                    == y as int) by (nonlinear_arith)
                    requires
                        n - 1 == x + y * width,
                        0 <= x < width,
                        0 <= y,
                ;
            }
            let s = scenic_score(f, x, y);
            if s > best {
                best = s;
            }
            x = x + 1;
        }
        proof {
            assert(y * width + width == (y + 1) * width) by (nonlinear_arith);
        }
        y = y + 1;
    }
    best
}

// ---- parsing ----

pub open spec fn line_ok(l: Seq<char>) -> bool {
    forall|i: int| 0 <= i < l.len() ==> is_digit(#[trigger] l[i])
}

/// Parse one row of single-digit tree heights.
pub fn parse_line(s: &str) -> (r: Vec<i64>)
    requires
        line_ok(s@),
    ensures
        r@.len() == s@.len(),
        forall|i: int| 0 <= i < r@.len() ==> r@[i] == digit_val(#[trigger] s@[i]),
{
    let cs = chars_of(s);
    row_of(&cs)
}

fn row_of(cs: &Vec<char>) -> (r: Vec<i64>)
    requires
        line_ok(cs@),
    ensures
        r@.len() == cs@.len(),
        forall|i: int| 0 <= i < r@.len() ==> r@[i] == digit_val(#[trigger] cs@[i]),
{
    let mut r: Vec<i64> = Vec::new();
    let mut i: usize = 0;
    while i < cs.len()
        invariant
            i <= cs@.len(),
            line_ok(cs@),
            r@.len() == i,
            forall|k: int| 0 <= k < i ==> r@[k] == digit_val(#[trigger] cs@[k]),
        decreases cs@.len() - i,
    {
        let c = cs[i];
        let d = (c as u32) as i64 - 48;
        proof {
            assert(is_digit(cs@[i as int]));
            vstd::utf8::char_is_scalar(c);
            assert(d == digit_val(c)) by {
                assert('0' <= c && c <= '9');
                assert(c as int - '0' as int == c as u32 as int - 48) by {
                    assert(c as int == c as u32 as int);
                    assert('0' as int == 48);
                }
            }
        }
        r.push(d);
        i = i + 1;
    }
    r
}

pub open spec fn input_ok(s: Seq<char>) -> bool {
    forall|i: int| 0 <= i < spec_lines(s).len() ==> line_ok(#[trigger] spec_lines(s)[i])
}

/// Parse the whole forest.
pub fn parse(s: &str) -> (r: Vec<Vec<i64>>)
    requires
        input_ok(s@),
    ensures
        fviews(r@).len() == spec_lines(s@).len(),
        forall|y: int, x: int|
            0 <= y < fviews(r@).len() && 0 <= x < fviews(r@)[y].len() ==> fviews(r@)[y][x]
                == digit_val(#[trigger] spec_lines(s@)[y][x]),
        forall|y: int|
            0 <= y < fviews(r@).len() ==> (#[trigger] fviews(r@)[y]).len() == spec_lines(
                s@,
            )[y].len(),
{
    let cs = chars_of(s);
    let lines = split_lines(&cs);
    let ghost lv = spec_lines(s@);
    proof {
        assert(views(lines@) == lv);
        assert(views(lines@).len() == lines@.len());
    }
    let mut out: Vec<Vec<i64>> = Vec::new();
    let mut i: usize = 0;
    while i < lines.len()
        invariant
            i <= lines@.len(),
            lv == spec_lines(s@),
            lv == views(lines@),
            lv.len() == lines@.len(),
            forall|k: int| 0 <= k < lv.len() ==> line_ok(#[trigger] lv[k]),
            fviews(out@).len() == i,
            forall|y: int|
                0 <= y < i ==> (#[trigger] fviews(out@)[y]).len() == lv[y].len(),
            forall|y: int, x: int|
                0 <= y < i && 0 <= x < fviews(out@)[y].len() ==> fviews(out@)[y][x] == digit_val(
                    #[trigger] lv[y][x],
                ),
        decreases lines@.len() - i,
    {
        proof {
            assert(lines@[i as int]@ == lv[i as int]);
        }
        let row = row_of(&lines[i]);
        let ghost prev = out@;
        out.push(row);
        proof {
            assert(fviews(out@) =~= fviews(prev).push(out@.last()@));
        }
        i = i + 1;
    }
    out
}

} // verus!
