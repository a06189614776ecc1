//! Shared sequence arithmetic: sums of integer sequences and a verified
//! in-place sort for vectors of `i64`.

use vstd::prelude::*;
use vstd::relations::sorted_by;
use vstd::seq_lib::group_to_multiset_ensures;

verus! {

/// The sum of a sequence of integers.
pub open spec fn sum_int(s: Seq<int>) -> int
    decreases s.len(),
{
    if s.len() == 0 {
        0
    } else {
        sum_int(s.drop_last()) + s.last()
    }
}

/// Pushing an element inserts it into the sequence's set of values.
pub proof fn lemma_push_to_set<A>(s: Seq<A>, x: A)
    ensures
        s.push(x).to_set() == s.to_set().insert(x),
{
    assert forall|y: A| #[trigger] s.push(x).contains(y) implies s.to_set().insert(x).contains(
        y,
    ) by {
        let idx = choose|idx: int| 0 <= idx < s.push(x).len() && s.push(x)[idx] == y;
        if idx < s.len() {
            assert(s[idx] == y);
            assert(s.contains(y));
        }
    }
    assert forall|y: A| s.to_set().insert(x).contains(y) implies #[trigger] s.push(x).contains(
        y,
    ) by {
        if y == x {
            assert(s.push(x)[s.len() as int] == x);
        } else {
            let idx = choose|idx: int| 0 <= idx < s.len() && s[idx] == y;
            assert(s.push(x)[idx] == y);
        }
    }
    assert(s.push(x).to_set() =~= s.to_set().insert(x));
}

/// Two duplicate-free sequences with no common value concatenate to a
/// duplicate-free sequence.
pub proof fn lemma_no_dup_concat<A>(a: Seq<A>, b: Seq<A>)
    requires
        a.no_duplicates(),
        b.no_duplicates(),
        forall|x: A| !(a.contains(x) && #[trigger] b.contains(x)),
    ensures
        (a + b).no_duplicates(),
{
    let c = a + b;
    assert forall|i: int, j: int| 0 <= i < j < c.len() implies c[i] != c[j] by {
        if i < a.len() && j < a.len() {
            assert(c[i] == a[i] && c[j] == a[j]);
        } else if i < a.len() && j >= a.len() {
            assert(c[i] == a[i] && c[j] == b[j - a.len()]);
            if c[i] == c[j] {
                assert(a.contains(c[i]));
                assert(b.contains(c[i]));
            }
        } else {
            assert(c[i] == b[i - a.len()] && c[j] == b[j - a.len()]);
        }
    }
}

/// Removing position `j` from a duplicate-free sequence removes exactly
/// the value there.
pub proof fn lemma_remove_value<A>(s: Seq<A>, j: int)
    requires
        s.no_duplicates(),
        0 <= j < s.len(),
    ensures
        s.remove(j).no_duplicates(),
        !s.remove(j).contains(s[j]),
        forall|z: A| z != s[j] ==> s.remove(j).contains(z) == s.contains(z),
{
    let t = s.remove(j);
    assert forall|a: int, b: int| 0 <= a < b < t.len() implies t[a] != t[b] by {
        let a0 = if a < j {
            a
        } else {
            a + 1
        };
        let b0 = if b < j {
            b
        } else {
            b + 1
        };
        assert(t[a] == s[a0] && t[b] == s[b0]);
    }
    if t.contains(s[j]) {
        let idx = choose|idx: int| 0 <= idx < t.len() && t[idx] == s[j];
        let i0 = if idx < j {
            idx
        } else {
            idx + 1
        };
        assert(s[i0] == s[j] && i0 != j);
    }
    assert forall|z: A| z != s[j] implies t.contains(z) == s.contains(z) by {
        if s.contains(z) {
            let idx = choose|idx: int| 0 <= idx < s.len() && s[idx] == z;
            let i1 = if idx < j {
                idx
            } else {
                idx - 1
            };
            assert(t[i1] == z);
        }
        if t.contains(z) {
            let idx = choose|idx: int| 0 <= idx < t.len() && t[idx] == z;
            let i0 = if idx < j {
                idx
            } else {
                idx + 1
            };
            assert(s[i0] == z);
        }
    }
}

/// The sum of a sequence of machine integers, as an unbounded integer.
pub open spec fn sum_i64v(s: Seq<i64>) -> int
    decreases s.len(),
{
    if s.len() == 0 {
        0
    } else {
        sum_i64v(s.drop_last()) + s.last()
    }
}

pub proof fn lemma_sum_i64v_nonneg(s: Seq<i64>)
    requires
        forall|i: int| 0 <= i < s.len() ==> s[i] >= 0,
    ensures
        sum_i64v(s) >= 0,
    decreases s.len(),
{
    if s.len() > 0 {
        lemma_sum_i64v_nonneg(s.drop_last());
    }
}

/// Updating one entry moves the sum by exactly the difference.
pub proof fn lemma_sum_i64v_update(s: Seq<i64>, i: int, v: i64)
    requires
        0 <= i < s.len(),
    ensures
        sum_i64v(s.update(i, v)) == sum_i64v(s) - s[i] + v,
    decreases s.len(),
{
    let t = s.update(i, v);
    if i == s.len() - 1 {
        assert(t.drop_last() =~= s.drop_last());
        assert(t.last() == v);
    } else {
        assert(t.drop_last() =~= s.drop_last().update(i, v));
        assert(t.last() == s.last());
        lemma_sum_i64v_update(s.drop_last(), i, v);
    }
}

/// The order `sort_i64` sorts by.
pub open spec fn i64_leq() -> spec_fn(i64, i64) -> bool {
    |x: i64, y: i64| x <= y
}

/// Sort the vector ascending, keeping exactly the same elements.
pub fn sort_i64(v: &mut Vec<i64>)
    ensures
        final(v)@.len() == old(v)@.len(),
        sorted_by(final(v)@, i64_leq()),
        final(v)@.to_multiset() == old(v)@.to_multiset(),
{
    let n = v.len();
    let mut i: usize = 0;
    while i < n
        invariant
            n == v@.len(),
            i <= n,
            v@.to_multiset() == old(v)@.to_multiset(),
            forall|a: int, b: int| 0 <= a < b < i ==> v@[a] <= v@[b],
            forall|a: int, b: int| 0 <= a < i <= b < n ==> v@[a] <= v@[b],
        decreases n - i,
    {
        let mut m: usize = i;
        let mut k: usize = i + 1;
        while k < n
            invariant
                i <= m < k <= n,
                n == v@.len(),
                forall|t: int| i <= t < k ==> v@[m as int] <= v@[t],
            decreases n - k,
        {
            if v[k] < v[m] {
                m = k;
            }
            k = k + 1;
        }
        let ghost before = v@;
        let vi = v[i];
        let vm = v[m];
        v[i] = vm;
        v[m] = vi;
        proof {
            broadcast use group_to_multiset_ensures;
            broadcast use vstd::seq_lib::to_multiset_update;

            assert(v@ == before.update(i as int, vm).update(m as int, vi));
            if m == i {
                assert(v@ =~= before);
            } else {
                assert(before.update(i as int, vm).to_multiset() == before.to_multiset().insert(
                    vm,
                ).remove(before[i as int]));
                assert(before.update(i as int, vm)[m as int] == vm);
                assert(v@.to_multiset() == before.update(i as int, vm).to_multiset().insert(
                    vi,
                ).remove(vm));
                assert(before.to_multiset().count(before[i as int]) > 0);
                assert(before.to_multiset().count(vm) > 0);
                assert(v@.to_multiset() =~= before.to_multiset());
            }
        }
        i = i + 1;
    }
    proof {
        assert(sorted_by(v@, i64_leq()));
    }
}

} // verus!
