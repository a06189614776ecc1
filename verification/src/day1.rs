//! Calorie lists: blank-line-separated groups of numerals. Find the
//! largest group sum, and the sum of the three largest group sums.

use vstd::prelude::*;
use crate::error::PuzzleError;
use crate::seqs::{sum_int, sort_i64, i64_leq};
use crate::text::{chars_of, split_lines, parse_i64, spec_lines, is_i64_numeral, int_value, views};

verus! {

pub open spec fn int_seq(g: Seq<i64>) -> Seq<int> {
    g.map_values(|x: i64| x as int)
}

pub open spec fn group_views(vs: Seq<Vec<i64>>) -> Seq<Seq<int>> {
    vs.map_values(|v: Vec<i64>| int_seq(v@))
}

/// Every line is blank or a numeral an `i64` can hold.
pub open spec fn lines_ok(ls: Seq<Seq<char>>) -> bool {
    forall|i: int| 0 <= i < ls.len() ==> ((#[trigger] ls[i]).len() == 0 || is_i64_numeral(ls[i]))
}

pub open spec fn prepend_group(p: Seq<int>, gs: Seq<Seq<int>>) -> Seq<Seq<int>> {
    seq![p + gs[0]] + gs.drop_first()
}

/// The groups of values the lines denote: a blank line closes a group,
/// and the final group is always present, possibly empty.
pub open spec fn spec_groups(ls: Seq<Seq<char>>) -> Seq<Seq<int>>
    decreases ls.len(),
{
    if ls.len() == 0 {
        seq![Seq::<int>::empty()]
    } else if ls[0].len() == 0 {
        seq![Seq::<int>::empty()] + spec_groups(ls.drop_first())
    } else {
        prepend_group(seq![int_value(ls[0])], spec_groups(ls.drop_first()))
    }
}

proof fn lemma_groups_nonempty(ls: Seq<Seq<char>>)
    ensures
        spec_groups(ls).len() >= 1,
    decreases ls.len(),
{
    if ls.len() > 0 {
        lemma_groups_nonempty(ls.drop_first());
    }
}

/// Parse the blank-line-separated calorie groups.
pub fn parse_input(input_str: &str) -> (r: Result<Vec<Vec<i64>>, PuzzleError>)
    requires
        lines_ok(spec_lines(input_str@)),
    ensures
        r matches Ok(v) && group_views(v@) == spec_groups(spec_lines(input_str@)),
{
    let cs = chars_of(input_str);
    let lines = split_lines(&cs);
    let ghost lv = spec_lines(input_str@);
    proof {
        assert(views(lines@) == lv);
        assert(views(lines@).len() == lines@.len());
    }
    let ghost whole = spec_groups(lv);
    let mut out: Vec<Vec<i64>> = Vec::new();
    let mut cur: Vec<i64> = Vec::new();
    let mut i: usize = 0;
    proof {
        lemma_groups_nonempty(lv);
        assert(lv.skip(0) =~= lv);
        assert(group_views(out@) =~= Seq::<Seq<int>>::empty());
        assert(int_seq(cur@) =~= Seq::<int>::empty());
        assert(Seq::<int>::empty() + whole[0] =~= whole[0]);
        assert(seq![whole[0]] + whole.drop_first() =~= whole);
        assert(prepend_group(int_seq(cur@), whole) =~= whole);
    }
    while i < lines.len()
        invariant
            i <= lines@.len(),
            lv == spec_lines(input_str@),
            lv == views(lines@),
            lv.len() == lines@.len(),
            lines_ok(lv),
            whole == spec_groups(lv),
            spec_groups(lv.skip(i as int)).len() >= 1,
            whole =~= group_views(out@) + prepend_group(
                int_seq(cur@),
                spec_groups(lv.skip(i as int)),
            ),
        decreases lines@.len() - i,
    {
        let ghost rest = spec_groups(lv.skip(i as int));
        proof {
            assert(lv.skip(i as int)[0] == lv[i as int]);
            assert(lv.skip(i as int).drop_first() =~= lv.skip(i + 1));
            lemma_groups_nonempty(lv.skip(i + 1));
        }
        let ghost tail = spec_groups(lv.skip(i + 1));
        if lines[i].len() == 0 {
            proof {
                assert(rest == seq![Seq::<int>::empty()] + tail);
                assert(rest[0] =~= Seq::<int>::empty());
                assert(rest.drop_first() =~= tail);
                assert(int_seq(cur@) + rest[0] =~= int_seq(cur@));
                assert(prepend_group(int_seq(cur@), rest) =~= seq![int_seq(cur@)] + tail);
                assert(prepend_group(Seq::<int>::empty(), tail) =~= tail) by {
                    assert(Seq::<int>::empty() + tail[0] =~= tail[0]);
                    assert(seq![tail[0]] + tail.drop_first() =~= tail);
                }
            }
            out.push(cur);
            cur = Vec::new();
            proof {
                assert(group_views(out@) =~= group_views(out@.drop_last()) + seq![
                    int_seq(out@.last()@),
                ]);
                assert(int_seq(cur@) =~= Seq::<int>::empty());
            }
        } else {
            let num = parse_i64(&lines[i]).unwrap();
            proof {
                assert(rest == prepend_group(seq![int_value(lv[i as int])], tail));
                assert(prepend_group(int_seq(cur@), rest) =~= prepend_group(
                    int_seq(cur@.push(num)),
                    tail,
                )) by {
                    assert(rest[0] == seq![int_value(lv[i as int])] + tail[0]);
                    assert(rest.drop_first() =~= tail.drop_first());
                    assert(int_seq(cur@.push(num)) =~= int_seq(cur@).push(num as int));
                    assert(int_seq(cur@) + (seq![int_value(lv[i as int])] + tail[0]) =~= int_seq(
                        cur@.push(num),
                    ) + tail[0]);
                }
            }
            cur.push(num);
        }
        i = i + 1;
    }
    proof {
        assert(lv.skip(i as int).len() == 0);
        assert(lv.skip(i as int) =~= Seq::<Seq<char>>::empty());
        let last = spec_groups(lv.skip(i as int));
        assert(last =~= seq![Seq::<int>::empty()]);
        assert(prepend_group(int_seq(cur@), last) =~= seq![int_seq(cur@)]) by {
            assert(int_seq(cur@) + last[0] =~= int_seq(cur@));
            assert(last.drop_first() =~= Seq::<Seq<int>>::empty());
        }
    }
    out.push(cur);
    proof {
        assert(group_views(out@) =~= group_views(out@.drop_last()) + seq![int_seq(out@.last()@)]);
        assert(group_views(out@) =~= whole);
    }
    Ok(out)
}

/// Every prefix sum of the group stays within `i64`.
pub open spec fn prefix_sums_ok(g: Seq<int>) -> bool {
    forall|k: int| 0 <= k <= g.len() ==> i64::MIN <= sum_int(#[trigger] g.subrange(0, k)) <= i64::MAX
}

pub open spec fn groups_ok(gs: Seq<Seq<int>>) -> bool {
    forall|i: int| 0 <= i < gs.len() ==> prefix_sums_ok(#[trigger] gs[i])
}

/// The largest group sum, or zero when there are no groups.
pub open spec fn spec_max_sum(gs: Seq<Seq<int>>) -> int
    decreases gs.len(),
{
    if gs.len() == 0 {
        0
    } else if gs.len() == 1 {
        sum_int(gs[0])
    } else {
        let m = spec_max_sum(gs.drop_last());
        let s = sum_int(gs.last());
        if s > m {
            s
        } else {
            m
        }
    }
}

/// Sum one group of calories.
fn group_sum(g: &Vec<i64>) -> (r: i64)
    requires
        prefix_sums_ok(int_seq(g@)),
    ensures
        r == sum_int(int_seq(g@)),
{
    let ghost gv = int_seq(g@);
    let mut s: i64 = 0;
    let mut k: usize = 0;
    proof {
        assert(gv.subrange(0, 0) =~= Seq::<int>::empty());
    }
    while k < g.len()
        invariant
            k <= g@.len(),
            gv == int_seq(g@),
            gv.len() == g@.len(),
            prefix_sums_ok(gv),
            s == sum_int(gv.subrange(0, k as int)),
        decreases g@.len() - k,
    {
        proof {
            assert(gv.subrange(0, k + 1).drop_last() =~= gv.subrange(0, k as int));
            assert(gv.subrange(0, k + 1).last() == gv[k as int]);
            assert(gv[k as int] == g@[k as int] as int);
        }
        s = s + g[k];
        k = k + 1;
    }
    proof {
        assert(gv.subrange(0, gv.len() as int) =~= gv);
    }
    s
}

/// The most calories any one group carries.
pub fn solve(calorie_lists: &Vec<Vec<i64>>) -> (r: i64)
    requires
        groups_ok(group_views(calorie_lists@)),
    ensures
        r == spec_max_sum(group_views(calorie_lists@)),
{
    let ghost gv = group_views(calorie_lists@);
    let mut best: i64 = 0;
    let mut i: usize = 0;
    while i < calorie_lists.len()
        invariant
            i <= calorie_lists@.len(),
            gv == group_views(calorie_lists@),
            gv.len() == calorie_lists@.len(),
            groups_ok(gv),
            best == spec_max_sum(gv.subrange(0, i as int)),
        decreases calorie_lists@.len() - i,
    {
        proof {
            assert(gv[i as int] == int_seq(calorie_lists@[i as int]@));
        }
        let s = group_sum(&calorie_lists[i]);
        proof {
            assert(gv.subrange(0, i + 1).drop_last() =~= gv.subrange(0, i as int));
            assert(gv.subrange(0, i + 1).last() == gv[i as int]);
            if i == 0 {
                assert(gv.subrange(0, 1)[0] == gv[0]);
            }
        }
        if i == 0 || s > best {
            best = s;
        }
        i = i + 1;
    }
    proof {
        assert(gv.subrange(0, gv.len() as int) =~= gv);
    }
    best
}

/// The group sums, each as the `i64` it fits in.
pub open spec fn spec_sums(gs: Seq<Seq<int>>) -> Seq<i64> {
    gs.map_values(|g: Seq<int>| sum_int(g) as i64)
}

/// The total of the three largest group sums.
pub fn solve2(calorie_lists: &Vec<Vec<i64>>) -> (r: i64)
    requires
        groups_ok(group_views(calorie_lists@)),
        calorie_lists@.len() >= 3,
        ({
            let ss = spec_sums(group_views(calorie_lists@)).sort_by(i64_leq());
            let l = ss.len() as int;
            &&& i64::MIN <= ss[l - 3] + ss[l - 2] <= i64::MAX
            &&& i64::MIN <= ss[l - 3] + ss[l - 2] + ss[l - 1] <= i64::MAX
        }),
    ensures
        ({
            let ss = spec_sums(group_views(calorie_lists@)).sort_by(i64_leq());
            let l = ss.len() as int;
            r == ss[l - 3] + ss[l - 2] + ss[l - 1]
        }),
{
    let ghost gv = group_views(calorie_lists@);
    let mut sums: Vec<i64> = Vec::new();
    let mut i: usize = 0;
    while i < calorie_lists.len()
        invariant
            i <= calorie_lists@.len(),
            gv == group_views(calorie_lists@),
            gv.len() == calorie_lists@.len(),
            groups_ok(gv),
            sums@ =~= spec_sums(gv).subrange(0, i as int),
        decreases calorie_lists@.len() - i,
    {
        proof {
            assert(gv[i as int] == int_seq(calorie_lists@[i as int]@));
        }
        let s = group_sum(&calorie_lists[i]);
        sums.push(s);
        proof {
            assert(spec_sums(gv)[i as int] == sum_int(gv[i as int]) as i64);
            assert(sums@ =~= spec_sums(gv).subrange(0, i + 1));
        }
        i = i + 1;
    }
    proof {
        assert(sums@ =~= spec_sums(gv));
    }
    sort_i64(&mut sums);
    proof {
        let leq = i64_leq();
        assert(vstd::relations::total_ordering(leq)) by {
            assert forall|x: i64| #[trigger] leq(x, x) by {}
            assert forall|x: i64, y: i64| #[trigger] leq(x, y) && #[trigger] leq(y, x)
                implies x == y by {}
            assert forall|x: i64, y: i64, z: i64|
                #[trigger] leq(x, y) && #[trigger] leq(y, z) implies leq(x, z) by {}
            assert forall|x: i64, y: i64| #[trigger] leq(x, y) || #[trigger] leq(y, x) by {}
        }
        spec_sums(gv).lemma_sort_by_ensures(leq);
        vstd::seq_lib::lemma_sorted_unique(sums@, spec_sums(gv).sort_by(leq), leq);
    }
    let l = sums.len();
    sums[l - 3] + sums[l - 2] + sums[l - 1]
}

} // verus!
