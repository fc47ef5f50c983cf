//! Splitting paths into segments.

use vstd::prelude::*;
use vstd::string::*;

verus! {

/// The segments of `s` between its `/` separators, empty ones included, as
/// `str::split` yields them: one more segment than there are separators.
pub open spec fn split_segments(s: Seq<char>) -> Seq<Seq<char>>
    decreases s.len(),
{
    if s.len() == 0 {
        seq![Seq::empty()]
    } else {
        let prev = split_segments(s.drop_last());
        if s.last() == '/' {
            prev.push(Seq::empty())
        } else {
            prev.update(prev.len() - 1, prev.last().push(s.last()))
        }
    }
}

pub proof fn lemma_split_nonempty(s: Seq<char>)
    ensures
        split_segments(s).len() >= 1,
    decreases s.len(),
{
    if s.len() > 0 {
        lemma_split_nonempty(s.drop_last());
    }
}

/// The views of a vector of strings.
pub open spec fn views(v: Seq<String>) -> Seq<Seq<char>> {
    v.map_values(|x: String| x@)
}

/// Splits `path` at every `/`.
pub fn split_path(path: &str) -> (r: Vec<String>)
    ensures
        views(r@) == split_segments(path@),
{
    let n = path.unicode_len();
    let mut segs: Vec<String> = Vec::new();
    let mut start: usize = 0;
    let mut i: usize = 0;
    assert(path@.take(0) =~= Seq::<char>::empty());
    assert(views(segs@) =~= Seq::<Seq<char>>::empty());
    while i < n
        invariant
            start <= i <= n,
            n == path@.len(),
            split_segments(path@.take(i as int)) == views(segs@).push(
                path@.subrange(start as int, i as int),
            ),
        decreases n - i,
    {
        let c = path.get_char(i);
        let ghost pre = path@.take(i as int);
        assert(path@.take(i + 1).drop_last() == pre);
        assert(path@.take(i + 1).last() == c);
        if c == '/' {
            let seg = String::from_str(path.substring_char(start, i));
            proof {
                lemma_split_nonempty(pre);
            }
            let ghost before = segs@;
            segs.push(seg);
            assert(segs@.drop_last() == before);
            assert(views(segs@) =~= views(before).push(seg@));
            assert(path@.subrange(i + 1, i + 1) =~= Seq::<char>::empty());
            start = i + 1;
        } else {
            assert(path@.subrange(start as int, i + 1) =~= path@.subrange(start as int, i as int).push(c));
            let ghost prev = views(segs@).push(path@.subrange(start as int, i as int));
            assert(prev.update(prev.len() - 1, prev.last().push(c)) =~= views(segs@).push(
                path@.subrange(start as int, i + 1),
            ));
        }
        i += 1;
    }
    assert(path@.take(n as int) == path@);
    let ghost before = segs@;
    segs.push(String::from_str(path.substring_char(start, n)));
    assert(segs@.drop_last() == before);
    assert(views(segs@) =~= views(before).push(path@.subrange(start as int, n as int)));
    segs
}

/// The segments joined back together with `/` between them.
pub open spec fn join_segments(segs: Seq<Seq<char>>) -> Seq<char>
    decreases segs.len(),
{
    if segs.len() == 0 {
        Seq::empty()
    } else if segs.len() == 1 {
        segs[0]
    } else {
        join_segments(segs.drop_last()) + seq!['/'] + segs.last()
    }
}

/// A directory path without a trailing separator: `/proj/src/` names the
/// same directory as `/proj/src`.
pub open spec fn dir_path(base: Seq<char>) -> Seq<char> {
    if base.len() > 0 && base.last() == '/' {
        base.drop_last()
    } else {
        base
    }
}

/// The index of the last `.` in `s`, or -1 where there is none.
pub open spec fn last_dot(s: Seq<char>) -> int
    decreases s.len(),
{
    if s.len() == 0 {
        -1
    } else if s.last() == '.' {
        s.len() - 1
    } else {
        last_dot(s.drop_last())
    }
}

pub proof fn lemma_last_dot_bounds(s: Seq<char>)
    ensures
        -1 <= last_dot(s) < s.len(),
        last_dot(s) >= 0 ==> s[last_dot(s)] == '.',
    decreases s.len(),
{
    if s.len() > 0 && s.last() != '.' {
        lemma_last_dot_bounds(s.drop_last());
    }
}

/// Drops one trailing `/` from a directory path.
pub fn trim_dir(base: &str) -> (r: &str)
    ensures
        r@ == dir_path(base@),
{
    let n = base.unicode_len();
    if n > 0 && base.get_char(n - 1) == '/' {
        base.substring_char(0, n - 1)
    } else {
        base
    }
}

/// Finds the last `.` of `s`.
pub fn find_last_dot(s: &str) -> (r: Option<usize>)
    ensures
        match r {
            Some(k) => k as int == last_dot(s@),
            None => last_dot(s@) == -1,
        },
{
    let n = s.unicode_len();
    assert(s@.take(n as int) =~= s@);
    let mut i: usize = n;
    while i > 0
        invariant
            i <= n == s@.len(),
            last_dot(s@) == last_dot(s@.take(i as int)),
        decreases i,
    {
        assert(s@.take(i as int).drop_last() =~= s@.take(i - 1));
        if s.get_char(i - 1) == '.' {
            return Some(i - 1);
        }
        i -= 1;
    }
    assert(s@.take(0) =~= Seq::<char>::empty());
    None
}

} // verus!
