//! A shell transcript of `cd` and `ls` commands: rebuild the directory
//! tree with rolled-up sizes, then total the small directories and
//! pick the smallest directory whose removal frees enough space.

use vstd::prelude::*;
use crate::text::{chars_of, split_at_seq, parse_i64, spec_split, is_i64_numeral, int_value, views};

verus! {

/// A file or a directory with rolled-up size.
#[derive(Debug, PartialEq, Eq)]
pub enum AocFile {
    Dir { name: Vec<char>, children: Vec<AocFile>, size: i64 },
    File { name: Vec<char>, size: i64 },
}

/// The ghost image of a file tree.
pub enum SpecFile {
    Dir { name: Seq<char>, children: Seq<SpecFile>, size: int },
    File { name: Seq<char>, size: int },
}

pub open spec fn file_view(f: AocFile) -> SpecFile
    decreases f,
{
    match f {
        AocFile::Dir { name, children, size } => SpecFile::Dir {
            name: name@,
            children: file_views(children@),
            size: size as int,
        },
        AocFile::File { name, size } => SpecFile::File { name: name@, size: size as int },
    }
}

pub open spec fn file_views(fs: Seq<AocFile>) -> Seq<SpecFile>
    decreases fs,
{
    if fs.len() == 0 {
        Seq::empty()
    } else {
        seq![file_view(fs[0])] + file_views(fs.drop_first())
    }
}

proof fn lemma_file_views_len(fs: Seq<AocFile>)
    ensures
        file_views(fs).len() == fs.len(),
    decreases fs,
{
    if fs.len() > 0 {
        lemma_file_views_len(fs.drop_first());
    }
}

proof fn lemma_file_views_index(fs: Seq<AocFile>, i: int)
    requires
        0 <= i < fs.len(),
    ensures
        file_views(fs).len() == fs.len(),
        file_views(fs)[i] == file_view(fs[i]),
    decreases fs,
{
    lemma_file_views_len(fs);
    if i > 0 {
        lemma_file_views_index(fs.drop_first(), i - 1);
    }
}

proof fn lemma_file_views_snoc(fs: Seq<AocFile>, x: AocFile)
    ensures
        file_views(fs.push(x)) == file_views(fs).push(file_view(x)),
    decreases fs,
{
    let p = fs.push(x);
    assert(file_views(p) == seq![file_view(p[0])] + file_views(p.drop_first()));
    if fs.len() == 0 {
        assert(p[0] == x);
        assert(p.drop_first() =~= Seq::<AocFile>::empty());
        assert(file_views(Seq::<AocFile>::empty()) =~= Seq::<SpecFile>::empty());
        assert(file_views(p) =~= file_views(fs).push(file_view(x)));
    } else {
        assert(p[0] == fs[0]);
        assert(p.drop_first() =~= fs.drop_first().push(x));
        lemma_file_views_snoc(fs.drop_first(), x);
        assert(file_views(fs) == seq![file_view(fs[0])] + file_views(fs.drop_first()));
        assert(file_views(p) =~= file_views(fs).push(file_view(x)));
    }
}

pub open spec fn spec_size(f: SpecFile) -> int {
    match f {
        SpecFile::Dir { size, .. } => size,
        SpecFile::File { size, .. } => size,
    }
}

/// The recorded size of a file or directory.
pub fn file_size(f: &AocFile) -> (r: i64)
    ensures
        r == spec_size(file_view(*f)),
{
    match f {
        AocFile::Dir { size, .. } => *size,
        AocFile::File { size, .. } => *size,
    }
}

pub open spec fn spec_is_dir(f: SpecFile) -> bool {
    f is Dir
}

/// Whether the entry is a directory.
pub fn is_dir(f: &AocFile) -> (r: bool)
    ensures
        r == spec_is_dir(file_view(*f)),
{
    match f {
        AocFile::Dir { .. } => true,
        AocFile::File { .. } => false,
    }
}

// ---- parsing ----

/// What one `size name` line denotes, if anything.
pub open spec fn spec_parse_file(l: Seq<char>) -> Option<SpecFile> {
    let ps = spec_split(l, seq![' ']);
    if ps.len() >= 2 && is_i64_numeral(ps[0]) {
        Some(SpecFile::File { name: ps[1], size: int_value(ps[0]) })
    } else {
        None
    }
}

/// Parse a `size name` line.
pub fn parse_file(s: &str) -> (r: Option<AocFile>)
    ensures
        match r {
            Some(f) => spec_parse_file(s@) == Some(file_view(f)),
            None => spec_parse_file(s@) is None,
        },
{
    let cs = chars_of(s);
    file_of(&cs)
}

fn file_of(l: &Vec<char>) -> (r: Option<AocFile>)
    ensures
        match r {
            Some(f) => spec_parse_file(l@) == Some(file_view(f)),
            None => spec_parse_file(l@) is None,
        },
{
    let sep: Vec<char> = vec![' '];
    proof {
        assert(sep@ =~= seq![' ']);
    }
    let parts = split_at_seq(l, &sep);
    proof {
        assert(views(parts@).len() == parts@.len());
    }
    if parts.len() < 2 {
        return None;
    }
    proof {
        assert(parts@[0]@ == spec_split(l@, seq![' '])[0]);
        assert(parts@[1]@ == spec_split(l@, seq![' '])[1]);
    }
    match parse_i64(&parts[0]) {
        Some(size) => {
            let mut name: Vec<char> = Vec::new();
            let src_name = &parts[1];
            let mut i: usize = 0;
            while i < src_name.len()
                invariant
                    i <= src_name@.len(),
                    name@ == src_name@.subrange(0, i as int),
                decreases src_name@.len() - i,
            {
                let c = src_name[i];
                name.push(c);
                proof {
                    assert(src_name@.subrange(0, i + 1) =~= src_name@.subrange(
                        0,
                        i as int,
                    ).push(src_name@[i as int]));
                }
                i = i + 1;
            }
            proof {
                assert(name@ =~= src_name@);
            }
            Some(AocFile::File { name, size })
        },
        None => None,
    }
}

/// Characters `str::trim` strips from ASCII text.
pub open spec fn is_trim_char(c: char) -> bool {
    c == ' ' || c == '\t' || c == '\n' || c == '\r' || c == '\u{b}' || c == '\u{c}'
}

/// The line with the stripped span marked: first and one-past-last kept.
pub open spec fn trim_lo(l: Seq<char>, i: int) -> int
    decreases l.len() - i,
{
    if i < 0 || i >= l.len() {
        i
    } else if is_trim_char(l[i]) {
        trim_lo(l, i + 1)
    } else {
        i
    }
}

pub open spec fn trim_hi(l: Seq<char>, i: int) -> int
    decreases i,
{
    if i <= 0 || i > l.len() {
        i
    } else if is_trim_char(l[i - 1]) {
        trim_hi(l, i - 1)
    } else {
        i
    }
}

/// The trimmed view of an ASCII line.
pub open spec fn spec_trim(l: Seq<char>) -> Seq<char> {
    let lo = trim_lo(l, 0);
    if lo == l.len() {
        Seq::empty()
    } else {
        l.subrange(lo, trim_hi(l, l.len() as int))
    }
}

proof fn lemma_trim_lo(l: Seq<char>, i: int)
    requires
        0 <= i <= l.len(),
    ensures
        i <= trim_lo(l, i) <= l.len(),
        forall|k: int| i <= k < trim_lo(l, i) ==> is_trim_char(#[trigger] l[k]),
        trim_lo(l, i) < l.len() ==> !is_trim_char(l[trim_lo(l, i)]),
    decreases l.len() - i,
{
    if i < l.len() && is_trim_char(l[i]) {
        lemma_trim_lo(l, i + 1);
    }
}

proof fn lemma_trim_hi(l: Seq<char>, i: int)
    requires
        0 <= i <= l.len(),
    ensures
        0 <= trim_hi(l, i) <= i,
        forall|k: int| trim_hi(l, i) <= k < i ==> is_trim_char(#[trigger] l[k]),
        trim_hi(l, i) > 0 ==> !is_trim_char(l[trim_hi(l, i) - 1]),
    decreases i,
{
    if i > 0 && is_trim_char(l[i - 1]) {
        lemma_trim_hi(l, i - 1);
    }
}

/// Whether the trimmed line reads `$ cd ..`.
pub open spec fn is_cd_up(l: Seq<char>) -> bool {
    spec_trim(l) == seq!['$', ' ', 'c', 'd', ' ', '.', '.']
}

fn trim_of(l: &Vec<char>) -> (r: Vec<char>)
    ensures
        r@ == spec_trim(l@),
{
    let n = l.len();
    let mut lo: usize = 0;
    proof {
        lemma_trim_lo(l@, 0);
    }
    while lo < n && (l[lo] == ' ' || l[lo] == '\t' || l[lo] == '\n' || l[lo] == '\r' || l[lo]
        == '\u{b}' || l[lo] == '\u{c}')
        invariant
            0 <= lo <= n,
            n == l@.len(),
            trim_lo(l@, 0) == trim_lo(l@, lo as int),
        decreases n - lo,
    {
        lo = lo + 1;
    }
    proof {
        assert(trim_lo(l@, lo as int) == lo);
    }
    if lo == n {
        let r: Vec<char> = Vec::new();
        proof {
            assert(r@ =~= spec_trim(l@));
        }
        return r;
    }
    let mut hi: usize = n;
    while hi > 0 && (l[hi - 1] == ' ' || l[hi - 1] == '\t' || l[hi - 1] == '\n' || l[hi - 1]
        == '\r' || l[hi - 1] == '\u{b}' || l[hi - 1] == '\u{c}')
        invariant
            0 <= hi <= n,
            n == l@.len(),
            trim_hi(l@, n as int) == trim_hi(l@, hi as int),
        decreases hi,
    {
        hi = hi - 1;
    }
    proof {
        assert(trim_hi(l@, hi as int) == hi);
    }
    let mut r: Vec<char> = Vec::new();
    let mut i: usize = lo;
    proof {
        lemma_trim_lo(l@, 0);
        lemma_trim_hi(l@, n as int);
        assert(lo <= hi) by {
            if hi < lo {
                assert(is_trim_char(l@[lo as int]));
            }
        }
    }
    while i < hi
        invariant
            lo <= i <= hi <= n,
            n == l@.len(),
            r@ == l@.subrange(lo as int, i as int),
        decreases hi - i,
    {
        let c = l[i];
        r.push(c);
        proof {
            assert(l@.subrange(lo as int, i + 1) =~= l@.subrange(lo as int, i as int).push(
                l@[i as int],
            ));
        }
        i = i + 1;
    }
    proof {
        assert(r@ == spec_trim(l@));
    }
    r
}

/// A line the transcript walker can look at without a fault: it can be
/// sliced as the walker slices it.
pub open spec fn line_safe(l: Seq<char>) -> bool {
    ||| is_cd_up(l)
    ||| (l.len() >= 3 && l.subrange(0, 3) == seq!['d', 'i', 'r'])
    ||| l.len() >= 4
}

pub open spec fn dir_word() -> Seq<char> {
    seq!['d', 'i', 'r']
}

pub open spec fn cd_word() -> Seq<char> {
    seq!['$', ' ', 'c', 'd']
}

/// Parse the children of one directory body, from `pos` to its
/// `$ cd ..` line or the end of the listing.
pub open spec fn spec_parse_entries(lines: Seq<Seq<char>>, pos: int, fuel: nat) -> Option<
    (Seq<SpecFile>, int),
>
    decreases fuel,
{
    if fuel == 0 {
        None
    } else if pos >= lines.len() || pos < 0 {
        Some((Seq::empty(), pos))
    } else {
        let l = lines[pos];
        if is_cd_up(l) {
            Some((Seq::empty(), pos + 1))
        } else if l.len() >= 3 && l.subrange(0, 3) == dir_word() {
            spec_parse_entries(lines, pos + 1, (fuel - 1) as nat)
        } else if l.len() >= 4 && l.subrange(0, 4) == cd_word() {
            let ps = spec_split(l, seq![' ']);
            if ps.len() < 3 {
                None
            } else {
                match spec_parse_dir(lines, ps[2], pos + 1, (fuel - 1) as nat) {
                    None => None,
                    Some((child, p)) => match spec_parse_entries(
                        lines,
                        p,
                        (fuel - 1) as nat,
                    ) {
                        None => None,
                        Some((rest, p2)) => Some((seq![child] + rest, p2)),
                    },
                }
            }
        } else {
            match spec_parse_file(l) {
                Some(f) => match spec_parse_entries(lines, pos + 1, (fuel - 1) as nat) {
                    None => None,
                    Some((rest, p2)) => Some((seq![f] + rest, p2)),
                },
                None => spec_parse_entries(lines, pos + 1, (fuel - 1) as nat),
            }
        }
    }
}

pub open spec fn sum_sizes(fs: Seq<SpecFile>) -> int
    decreases fs,
{
    if fs.len() == 0 {
        0
    } else {
        spec_size(fs[0]) + sum_sizes(fs.drop_first())
    }
}

/// Parse one directory: its `$ ls` line, then its entries.
pub open spec fn spec_parse_dir(
    lines: Seq<Seq<char>>,
    name: Seq<char>,
    pos: int,
    fuel: nat,
) -> Option<(SpecFile, int)>
    decreases fuel,
{
    if fuel == 0 {
        None
    } else if pos < 0 || pos >= lines.len() || lines[pos] != seq!['$', ' ', 'l', 's'] {
        None
    } else {
        match spec_parse_entries(lines, pos + 1, (fuel - 1) as nat) {
            None => None,
            Some((children, p)) => Some(
                (SpecFile::Dir { name, children, size: sum_sizes(children) }, p),
            ),
        }
    }
}

/// Every directory size of the tree fits the machine.
pub open spec fn sizes_fit(f: SpecFile) -> bool
    decreases f,
{
    match f {
        SpecFile::Dir { children, size, .. } => {
            &&& i64::MIN <= size <= i64::MAX
            &&& forall|i: int|
                0 <= i < children.len() ==> sizes_fit(#[trigger] children.index(i))
            &&& forall|k: int|
                0 <= k <= children.len() ==> i64::MIN <= sum_sizes(
                    #[trigger] children.subrange(0, k),
                ) <= i64::MAX
        },
        SpecFile::File { size, .. } => i64::MIN <= size <= i64::MAX,
    }
}

/// The nesting budget a transcript walk can never exhaust.
pub open spec fn walk_fuel(lines: Seq<Seq<char>>) -> nat {
    (3 * lines.len() + 3) as nat
}


/// Every directory parsed along the walk keeps its rolled-up sums
/// within the machine.
pub open spec fn entries_walk_ok(lines: Seq<Seq<char>>, pos: int, fuel: nat) -> bool
    decreases fuel,
{
    if fuel == 0 {
        true
    } else if pos >= lines.len() || pos < 0 {
        true
    } else {
        let l = lines[pos];
        if is_cd_up(l) {
            true
        } else if l.len() >= 3 && l.subrange(0, 3) == dir_word() {
            entries_walk_ok(lines, pos + 1, (fuel - 1) as nat)
        } else if l.len() >= 4 && l.subrange(0, 4) == cd_word() {
            let ps = spec_split(l, seq![' ']);
            if ps.len() < 3 {
                true
            } else {
                &&& dir_walk_ok(lines, pos + 1, (fuel - 1) as nat)
                &&& match spec_parse_dir(lines, ps[2], pos + 1, (fuel - 1) as nat) {
                    None => true,
                    Some((child, p)) => entries_walk_ok(lines, p, (fuel - 1) as nat),
                }
            }
        } else {
            entries_walk_ok(lines, pos + 1, (fuel - 1) as nat)
        }
    }
}

pub open spec fn dir_walk_ok(lines: Seq<Seq<char>>, pos: int, fuel: nat) -> bool
    decreases fuel,
{
    if fuel == 0 {
        true
    } else if pos < 0 || pos >= lines.len() || lines[pos] != seq!['$', ' ', 'l', 's'] {
        true
    } else {
        &&& entries_walk_ok(lines, pos + 1, (fuel - 1) as nat)
        &&& match spec_parse_entries(lines, pos + 1, (fuel - 1) as nat) {
            None => true,
            Some((children, p)) => forall|k: int|
                0 <= k <= children.len() ==> i64::MIN <= sum_sizes(
                    #[trigger] children.subrange(0, k),
                ) <= i64::MAX,
        }
    }
}

fn dir_parse(lines: &Vec<Vec<char>>, name: Vec<char>, pos: usize, fuel: usize) -> (r: Option<
    (AocFile, usize),
>)
    requires
        pos <= lines@.len(),
        forall|i: int| 0 <= i < lines@.len() ==> line_safe(#[trigger] views(lines@)[i]),
        dir_walk_ok(views(lines@), pos as int, fuel as nat),
    ensures
        ({
            let sr = spec_parse_dir(views(lines@), name@, pos as int, fuel as nat);
            match r {
                Some((f, p)) => sr == Some((file_view(f), p as int)) && p <= lines@.len(),
                None => sr is None,
            }
        }),
    decreases fuel, 1int,
{
    let ghost lv = views(lines@);
    if fuel == 0 || pos == lines.len() {
        return None;
    }
    proof {
        assert(lines@[pos as int]@ == lv[pos as int]);
    }
    let ls_line = &lines[pos];
    let mut is_ls = ls_line.len() == 4;
    if is_ls {
        is_ls = ls_line[0] == '$' && ls_line[1] == ' ' && ls_line[2] == 'l' && ls_line[3]
            == 's';
    }
    proof {
        if is_ls {
            assert(lv[pos as int] =~= seq!['$', ' ', 'l', 's']);
        } else {
            if lv[pos as int] == seq!['$', ' ', 'l', 's'] {
                assert(lv[pos as int].len() == 4);
                assert(ls_line@[0] == '$' && ls_line@[1] == ' ' && ls_line@[2] == 'l'
                    && ls_line@[3] == 's');
            }
        }
    }
    if !is_ls {
        return None;
    }
    match entries_parse(lines, pos + 1, fuel - 1) {
        None => None,
        Some((children, p)) => {
            let ghost cviews = file_views(children@);
            proof {
                lemma_file_views_len(children@);
            }
            let mut size: i64 = 0;
            let mut k: usize = 0;
            proof {
                assert(cviews.subrange(0, 0) =~= Seq::<SpecFile>::empty());
            }
            while k < children.len()
                invariant
                    k <= children@.len(),
                    cviews == file_views(children@),
                    cviews.len() == children@.len(),
                    forall|t: int|
                        0 <= t <= cviews.len() ==> i64::MIN <= sum_sizes(
                            #[trigger] cviews.subrange(0, t),
                        ) <= i64::MAX,
                    size == sum_sizes(cviews.subrange(0, k as int)),
                decreases children@.len() - k,
            {
                proof {
                    lemma_file_views_index(children@, k as int);
                    lemma_sum_sizes_snoc(cviews.subrange(0, k as int), cviews[k as int]);
                    assert(cviews.subrange(0, k + 1) =~= cviews.subrange(0, k as int).push(
                        cviews[k as int],
                    ));
                }
                let s = file_size(&children[k]);
                size = size + s;
                k = k + 1;
            }
            proof {
                assert(cviews.subrange(0, cviews.len() as int) =~= cviews);
            }
            Some((AocFile::Dir { name, children, size }, p))
        },
    }
}

proof fn lemma_sum_sizes_snoc(fs: Seq<SpecFile>, x: SpecFile)
    ensures
        sum_sizes(fs.push(x)) == sum_sizes(fs) + spec_size(x),
    decreases fs,
{
    let p = fs.push(x);
    assert(sum_sizes(p) == spec_size(p[0]) + sum_sizes(p.drop_first()));
    if fs.len() == 0 {
        assert(p[0] == x);
        assert(p.drop_first() =~= Seq::<SpecFile>::empty());
    } else {
        assert(p[0] == fs[0]);
        assert(p.drop_first() =~= fs.drop_first().push(x));
        lemma_sum_sizes_snoc(fs.drop_first(), x);
    }
}

fn entries_parse(lines: &Vec<Vec<char>>, pos: usize, fuel: usize) -> (r: Option<
    (Vec<AocFile>, usize),
>)
    requires
        pos <= lines@.len(),
        forall|i: int| 0 <= i < lines@.len() ==> line_safe(#[trigger] views(lines@)[i]),
        entries_walk_ok(views(lines@), pos as int, fuel as nat),
    ensures
        ({
            let sr = spec_parse_entries(views(lines@), pos as int, fuel as nat);
            match r {
                Some((fs, p)) => sr == Some((file_views(fs@), p as int)) && p <= lines@.len(),
                None => sr is None,
            }
        }),
    decreases fuel, 0int,
{
    let ghost lv = views(lines@);
    if fuel == 0 {
        return None;
    }
    if pos == lines.len() {
        proof {
            assert(file_views(Seq::<AocFile>::empty()) =~= Seq::<SpecFile>::empty());
        }
        return Some((Vec::new(), pos));
    }
    proof {
        assert(lines@[pos as int]@ == lv[pos as int]);
        assert(line_safe(lv[pos as int]));
    }
    let l = &lines[pos];
    let trimmed = trim_of(l);
    let mut cd_up = trimmed.len() == 7;
    if cd_up {
        cd_up = trimmed[0] == '$' && trimmed[1] == ' ' && trimmed[2] == 'c' && trimmed[3]
            == 'd' && trimmed[4] == ' ' && trimmed[5] == '.' && trimmed[6] == '.';
    }
    proof {
        if cd_up {
            assert(spec_trim(lv[pos as int]) =~= seq!['$', ' ', 'c', 'd', ' ', '.', '.']);
        } else {
            if is_cd_up(lv[pos as int]) {
                assert(trimmed@.len() == 7);
                assert(trimmed@[0] == '$' && trimmed@[1] == ' ' && trimmed@[2] == 'c'
                    && trimmed@[3] == 'd' && trimmed@[4] == ' ' && trimmed@[5] == '.'
                    && trimmed@[6] == '.');
            }
        }
    }
    if cd_up {
        proof {
            assert(file_views(Seq::<AocFile>::empty()) =~= Seq::<SpecFile>::empty());
        }
        return Some((Vec::new(), pos + 1));
    }
    let mut is_dir_line = l.len() >= 3;
    if is_dir_line {
        is_dir_line = l[0] == 'd' && l[1] == 'i' && l[2] == 'r';
    }
    proof {
        if is_dir_line {
            assert(lv[pos as int].subrange(0, 3) =~= dir_word());
        } else {
            if lv[pos as int].len() >= 3 && lv[pos as int].subrange(0, 3) == dir_word() {
                assert(lv[pos as int].subrange(0, 3)[0] == 'd');
                assert(lv[pos as int].subrange(0, 3)[1] == 'i');
                assert(lv[pos as int].subrange(0, 3)[2] == 'r');
            }
        }
    }
    if is_dir_line {
        return entries_parse(lines, pos + 1, fuel - 1);
    }
    proof {
        assert(lv[pos as int].len() >= 4);
    }
    let mut is_cd = l[0] == '$' && l[1] == ' ' && l[2] == 'c' && l[3] == 'd';
    proof {
        if is_cd {
            assert(lv[pos as int].subrange(0, 4) =~= cd_word());
        } else {
            if lv[pos as int].subrange(0, 4) == cd_word() {
                assert(lv[pos as int].subrange(0, 4)[0] == '$');
                assert(lv[pos as int].subrange(0, 4)[1] == ' ');
                assert(lv[pos as int].subrange(0, 4)[2] == 'c');
                assert(lv[pos as int].subrange(0, 4)[3] == 'd');
            }
        }
    }
    if is_cd {
        let sep: Vec<char> = vec![' '];
        proof {
            assert(sep@ =~= seq![' ']);
        }
        let parts = split_at_seq(l, &sep);
        proof {
            assert(views(parts@).len() == parts@.len());
        }
        if parts.len() < 3 {
            return None;
        }
        proof {
            assert(parts@[2]@ == spec_split(lv[pos as int], seq![' '])[2]);
        }
        let mut next_name: Vec<char> = Vec::new();
        let src_name = &parts[2];
        let mut i: usize = 0;
        while i < src_name.len()
            invariant
                i <= src_name@.len(),
                next_name@ == src_name@.subrange(0, i as int),
            decreases src_name@.len() - i,
        {
            let c = src_name[i];
            next_name.push(c);
            proof {
                assert(src_name@.subrange(0, i + 1) =~= src_name@.subrange(0, i as int).push(
                    src_name@[i as int],
                ));
            }
            i = i + 1;
        }
        proof {
            assert(next_name@ =~= src_name@);
        }
        match dir_parse(lines, next_name, pos + 1, fuel - 1) {
            None => {
                return None;
            },
            Some((child, p)) => {
                match entries_parse(lines, p, fuel - 1) {
                    None => {
                        return None;
                    },
                    Some((rest, p2)) => {
                        let ghost restv = rest@;
                        let mut children: Vec<AocFile> = Vec::new();
                        children.push(child);
                        let mut rest = rest;
                        children.append(&mut rest);
                        proof {
                            assert(children@.drop_first() =~= restv);
                            assert(file_views(children@) == seq![file_view(children@[0])]
                                + file_views(children@.drop_first()));
                        }
                        return Some((children, p2));
                    },
                }
            },
        }
    }
    match file_of(l) {
        Some(f) => {
            match entries_parse(lines, pos + 1, fuel - 1) {
                None => None,
                Some((rest, p2)) => {
                    let ghost restv = rest@;
                    let mut children: Vec<AocFile> = Vec::new();
                    children.push(f);
                    let mut rest = rest;
                    children.append(&mut rest);
                    proof {
                        assert(children@.drop_first() =~= restv);
                        assert(file_views(children@) == seq![file_view(children@[0])]
                            + file_views(children@.drop_first()));
                    }
                    Some((children, p2))
                },
            }
        },
        None => entries_parse(lines, pos + 1, fuel - 1),
    }
}

/// Parse one directory body from the transcript, starting at its
/// `$ ls` line.
pub fn parse_dir(name: &str, lines: &Vec<Vec<char>>, pos: usize) -> (r: Option<
    (AocFile, usize),
>)
    requires
        pos <= lines@.len(),
        lines@.len() <= 0x10000000,
        forall|i: int| 0 <= i < lines@.len() ==> line_safe(#[trigger] views(lines@)[i]),
        dir_walk_ok(views(lines@), pos as int, walk_fuel(views(lines@))),
    ensures
        ({
            let sr = spec_parse_dir(views(lines@), name@, pos as int, walk_fuel(views(lines@)));
            match r {
                Some((f, p)) => sr == Some((file_view(f), p as int)),
                None => sr is None,
            }
        }),
{
    let nm = chars_of(name);
    let n = lines.len();
    proof {
        assert(views(lines@).len() == lines@.len());
    }
    dir_parse(lines, nm, pos, 3 * n + 3)
}

// ---- walking the tree ----

/// The tree flattened: each entry followed by its descendants.
pub open spec fn spec_flatten(f: SpecFile) -> Seq<SpecFile>
    decreases f,
{
    match f {
        SpecFile::Dir { children, .. } => seq![f] + spec_flatten_all(children),
        SpecFile::File { .. } => seq![f],
    }
}

pub open spec fn spec_flatten_all(fs: Seq<SpecFile>) -> Seq<SpecFile>
    decreases fs,
{
    if fs.len() == 0 {
        Seq::empty()
    } else {
        spec_flatten(fs[0]) + spec_flatten_all(fs.drop_first())
    }
}

/// Flatten the tree into references, the entry itself first.
pub fn flatten_dir<'a>(f: &'a AocFile) -> (r: Vec<&'a AocFile>)
    ensures
        r@.map_values(|x: &AocFile| file_view(*x)) == spec_flatten(file_view(*f)),
    decreases *f, 1int,
{
    let mut r: Vec<&'a AocFile> = Vec::new();
    r.push(f);
    match f {
        AocFile::File { .. } => {
            proof {
                assert(r@.map_values(|x: &AocFile| file_view(*x)) =~= spec_flatten(
                    file_view(*f),
                ));
            }
            r
        },
        AocFile::Dir { children, .. } => {
            let ghost rb = r@;
            let mut sub = flatten_all(children);
            let ghost subv = sub@;
            r.append(&mut sub);
            proof {
                assert(r@ == rb + subv);
                assert(r@.map_values(|x: &AocFile| file_view(*x)) =~= rb.map_values(
                    |x: &AocFile| file_view(*x),
                ) + subv.map_values(|x: &AocFile| file_view(*x)));
                assert(spec_flatten(file_view(*f)) == seq![file_view(*f)] + spec_flatten_all(
                    file_views(children@),
                ));
                assert(rb.map_values(|x: &AocFile| file_view(*x)) =~= seq![file_view(*f)]);
            }
            r
        },
    }
}

/// Flatten a list of entries in order.
fn flatten_all<'a>(fs: &'a Vec<AocFile>) -> (r: Vec<&'a AocFile>)
    ensures
        r@.map_values(|x: &AocFile| file_view(*x)) == spec_flatten_all(file_views(fs@)),
    decreases fs@, 0int,
{
    let ghost cviews = file_views(fs@);
    proof {
        lemma_file_views_len(fs@);
    }
    let mut r: Vec<&'a AocFile> = Vec::new();
    let mut k: usize = 0;
    proof {
        assert(cviews.subrange(0, 0) =~= Seq::<SpecFile>::empty());
        assert(spec_flatten_all(cviews.subrange(0, 0)) =~= Seq::<SpecFile>::empty());
        assert(r@.map_values(|x: &AocFile| file_view(*x)) =~= spec_flatten_all(
            cviews.subrange(0, 0),
        ));
    }
    while k < fs.len()
        invariant
            k <= fs@.len(),
            cviews == file_views(fs@),
            cviews.len() == fs@.len(),
            r@.map_values(|x: &AocFile| file_view(*x)) == spec_flatten_all(
                cviews.subrange(0, k as int),
            ),
        decreases fs@.len() - k,
    {
        proof {
            lemma_file_views_index(fs@, k as int);
        }
        let mut sub = flatten_dir(&fs[k]);
        let ghost rb = r@;
        let ghost subv = sub@;
        r.append(&mut sub);
        proof {
            assert(r@ == rb + subv);
            assert(r@.map_values(|x: &AocFile| file_view(*x)) =~= rb.map_values(
                |x: &AocFile| file_view(*x),
            ) + subv.map_values(|x: &AocFile| file_view(*x)));
            lemma_flatten_all_snoc(cviews, k as int);
            assert(r@.map_values(|x: &AocFile| file_view(*x)) =~= spec_flatten_all(
                cviews.subrange(0, k + 1),
            ));
        }
        k = k + 1;
    }
    proof {
        assert(cviews.subrange(0, cviews.len() as int) =~= cviews);
    }
    r
}

proof fn lemma_flatten_all_snoc(fs: Seq<SpecFile>, k: int)
    requires
        0 <= k < fs.len(),
    ensures
        spec_flatten_all(fs.subrange(0, k + 1)) == spec_flatten_all(fs.subrange(0, k))
            + spec_flatten(fs[k]),
    decreases k,
{
    if k == 0 {
        assert(fs.subrange(0, 1)[0] == fs[0]);
        assert(fs.subrange(0, 1).drop_first() =~= Seq::<SpecFile>::empty());
        assert(spec_flatten_all(fs.subrange(0, 0)) =~= Seq::<SpecFile>::empty());
        assert(spec_flatten_all(fs.subrange(0, 1)) == spec_flatten(fs[0]) + spec_flatten_all(
            fs.subrange(0, 1).drop_first(),
        ));
        assert(spec_flatten_all(fs.subrange(0, 1)) =~= spec_flatten_all(fs.subrange(0, 0))
            + spec_flatten(fs[0]));
    } else {
        lemma_flatten_all_snoc(fs.drop_first(), k - 1);
        assert(fs.subrange(0, k + 1)[0] == fs[0]);
        assert(fs.subrange(0, k + 1).drop_first() =~= fs.drop_first().subrange(0, k));
        assert(fs.subrange(0, k).drop_first() =~= fs.drop_first().subrange(0, k - 1));
        assert(fs.drop_first()[k - 1] == fs[k]);
        assert(spec_flatten_all(fs.subrange(0, k + 1)) == spec_flatten(fs[0])
            + spec_flatten_all(fs.drop_first().subrange(0, k)));
        assert(spec_flatten_all(fs.subrange(0, k)) == spec_flatten(fs[0])
            + spec_flatten_all(fs.drop_first().subrange(0, k - 1)));
        assert(spec_flatten_all(fs.subrange(0, k + 1)) =~= spec_flatten_all(
            fs.subrange(0, k),
        ) + spec_flatten(fs[k]));
    }
}

/// Sum of the sizes of directories of size at most 100000 among the
/// first `n` flattened entries.
pub open spec fn small_dir_sum(flat: Seq<SpecFile>, n: int) -> int
    decreases n,
{
    if n <= 0 {
        0
    } else {
        small_dir_sum(flat, n - 1) + if spec_is_dir(flat[n - 1]) && spec_size(flat[n - 1])
            <= 100000 {
            spec_size(flat[n - 1])
        } else {
            0int
        }
    }
}

/// Total the directories of size at most 100000.
pub fn solve1(root: &AocFile) -> (r: i64)
    requires
        ({
            let flat = spec_flatten(file_view(*root));
            forall|n: int|
                0 <= n <= flat.len() ==> i64::MIN <= #[trigger] small_dir_sum(flat, n)
                    <= i64::MAX
        }),
    ensures
        r == small_dir_sum(spec_flatten(file_view(*root)), spec_flatten(file_view(*root)).len() as int),
{
    let ghost flat = spec_flatten(file_view(*root));
    let items = flatten_dir(root);
    proof {
        assert(items@.map_values(|x: &AocFile| file_view(*x)).len() == items@.len());
    }
    let mut s: i64 = 0;
    let mut k: usize = 0;
    while k < items.len()
        invariant
            k <= items@.len(),
            flat == items@.map_values(|x: &AocFile| file_view(*x)),
            flat.len() == items@.len(),
            forall|n: int|
                0 <= n <= flat.len() ==> i64::MIN <= #[trigger] small_dir_sum(flat, n)
                    <= i64::MAX,
            s == small_dir_sum(flat, k as int),
        decreases items@.len() - k,
    {
        proof {
            assert(flat[k as int] == file_view(*items@[k as int]));
        }
        let it = items[k];
        let sz = file_size(it);
        if is_dir(it) && sz <= 100000 {
            proof {
                assert(small_dir_sum(flat, k + 1) == small_dir_sum(flat, k as int) + spec_size(
                    flat[k as int],
                ));
                assert(i64::MIN <= small_dir_sum(flat, k + 1) <= i64::MAX);
            }
            s = s + sz;
        }
        k = k + 1;
    }
    s
}

/// The smallest directory size at least `target` among the first `n`
/// flattened entries; zero when none qualifies.
pub open spec fn best_free(flat: Seq<SpecFile>, target: int, n: int) -> int
    decreases n,
{
    if n <= 0 {
        0
    } else {
        let prev = best_free(flat, target, n - 1);
        if spec_is_dir(flat[n - 1]) && spec_size(flat[n - 1]) >= target {
            if prev == 0 || spec_size(flat[n - 1]) < prev {
                spec_size(flat[n - 1])
            } else {
                prev
            }
        } else {
            prev
        }
    }
}

/// The size of the smallest directory whose removal leaves thirty
/// million units free out of seventy million.
pub fn solve2(root: &AocFile) -> (r: i64)
    requires
        0 <= spec_size(file_view(*root)) <= 70000000,
        ({
            let flat = spec_flatten(file_view(*root));
            forall|n: int| 0 <= n < flat.len() ==> 0 <= spec_size(#[trigger] flat.index(n))
        }),
    ensures
        ({
            let flat = spec_flatten(file_view(*root));
            let target = 30000000 - (70000000 - spec_size(file_view(*root)));
            r == best_free(flat, target, flat.len() as int)
        }),
{
    let ghost flat = spec_flatten(file_view(*root));
    let total_space: i64 = 70000000;
    let used = file_size(root);
    let free = total_space - used;
    let to_free = 30000000 - free;
    let items = flatten_dir(root);
    proof {
        assert(items@.map_values(|x: &AocFile| file_view(*x)).len() == items@.len());
    }
    let mut best: i64 = 0;
    let mut k: usize = 0;
    while k < items.len()
        invariant
            k <= items@.len(),
            flat == items@.map_values(|x: &AocFile| file_view(*x)),
            flat.len() == items@.len(),
            to_free == 30000000 - (70000000 - spec_size(file_view(*root))),
            forall|n: int| 0 <= n < flat.len() ==> 0 <= spec_size(#[trigger] flat.index(n)),
            best == best_free(flat, to_free as int, k as int),
        decreases items@.len() - k,
    {
        proof {
            assert(flat[k as int] == file_view(*items@[k as int]));
        }
        let it = items[k];
        let sz = file_size(it);
        if is_dir(it) && sz >= to_free {
            if best == 0 || sz < best {
                best = sz;
            }
        }
        k = k + 1;
    }
    best
}

} // verus!
