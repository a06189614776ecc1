//! Start-of-message markers: the position just past the first window of
//! four (or fourteen) pairwise-distinct bytes in a signal.

use vstd::prelude::*;
use vstd::string::StrSliceExecFns;

verus! {

pub open spec fn spec_all_unique(s: Seq<u8>) -> bool {
    forall|i: int, j: int| 0 <= i < j < s.len() ==> s[i] != s[j]
}

/// The bytes of an ASCII string.
pub open spec fn byte_seq(s: Seq<char>) -> Seq<u8> {
    Seq::new(s.len(), |i: int| s[i] as u8)
}

/// Whether the window of width `w` starting at `i` has no repeated byte.
pub open spec fn window_unique(b: Seq<u8>, i: int, w: int) -> bool {
    spec_all_unique(b.subrange(i, i + w))
}

/// Whether some width-`w` window of distinct bytes exists.
pub open spec fn has_marker(b: Seq<u8>, w: int) -> bool {
    exists|i: int| 0 <= i <= b.len() - w && window_unique(b, i, w)
}

/// Whether the bytes are pairwise distinct.
pub fn all_unique(s: Vec<u8>) -> (r: bool)
    ensures
        r == spec_all_unique(s@),
{
    let n = s.len();
    let mut i: usize = 0;
    while i < n
        invariant
            i <= n,
            n == s@.len(),
            forall|a: int, b: int| 0 <= a < b < s@.len() && a < i ==> s@[a] != s@[b],
        decreases n - i,
    {
        let mut j: usize = i + 1;
        while j < n
            invariant
                i < j <= n,
                n == s@.len(),
                i < n,
                forall|b: int| i < b < j ==> s@[i as int] != s@[b],
            decreases n - j,
        {
            if s[i] == s[j] {
                return false;
            }
            j = j + 1;
        }
        i = i + 1;
    }
    true
}

/// Take the width-`w` window of `bs` starting at `i`.
fn window(bs: &Vec<u8>, i: usize, w: usize) -> (r: Vec<u8>)
    requires
        i + w <= bs@.len(),
    ensures
        r@ == bs@.subrange(i as int, i + w),
{
    let n = bs.len();
    let mut r: Vec<u8> = Vec::new();
    let mut k: usize = 0;
    while k < w
        invariant
            k <= w,
            n == bs@.len(),
            i + w <= bs@.len(),
            r@ == bs@.subrange(i as int, i + k),
        decreases w - k,
    {
        proof {
            assert(i + k < n);
        }
        r.push(bs[i + k]);
        proof {
            assert(bs@.subrange(i as int, i + k + 1) =~= bs@.subrange(i as int, i + k).push(
                bs@[i + k],
            ));
        }
        k = k + 1;
    }
    r
}

/// Find the first width-`w` all-distinct window and return the position
/// just past it.
fn find_marker(s: &str, w: usize) -> (r: usize)
    requires
        s.is_ascii(),
        1 <= w,
        has_marker(byte_seq(s@), w as int),
    ensures
        w <= r <= byte_seq(s@).len(),
        window_unique(byte_seq(s@), r - w, w as int),
        forall|j: int| 0 <= j < r - w ==> !window_unique(byte_seq(s@), j, w as int),
{
    let bs = s.as_bytes_vec();
    proof {
        broadcast use vstd::string::is_ascii_spec_bytes;

        assert(bs@ =~= byte_seq(s@));
    }
    let n = bs.len();
    let mut i: usize = 0;
    while i + w <= n
        invariant
            bs@ == byte_seq(s@),
            n == bs@.len(),
            w >= 1,
            has_marker(bs@, w as int),
            forall|j: int| 0 <= j < i ==> !window_unique(bs@, j, w as int),
        decreases n - i,
    {
        let win = window(&bs, i, w);
        if all_unique(win) {
            return i + w;
        }
        i = i + 1;
    }
    proof {
        assert(forall|j: int| 0 <= j <= bs@.len() - w ==> !window_unique(bs@, j, w as int));
        assert(false);
    }
    unreached()
}

/// Position just past the first four-byte marker.
pub fn solve1(s: &str) -> (r: usize)
    requires
        s.is_ascii(),
        has_marker(byte_seq(s@), 4),
    ensures
        4 <= r <= byte_seq(s@).len(),
        window_unique(byte_seq(s@), r - 4, 4),
        forall|j: int| 0 <= j < r - 4 ==> !window_unique(byte_seq(s@), j, 4),
{
    find_marker(s, 4)
}

/// Position just past the first fourteen-byte marker.
pub fn solve2(s: &str) -> (r: usize)
    requires
        s.is_ascii(),
        has_marker(byte_seq(s@), 14),
    ensures
        14 <= r <= byte_seq(s@).len(),
        window_unique(byte_seq(s@), r - 14, 14),
        forall|j: int| 0 <= j < r - 14 ==> !window_unique(byte_seq(s@), j, 14),
{
    find_marker(s, 14)
}

} // verus!
