//! Scanning ranges of a character buffer.
use vstd::prelude::*;
use crate::text::rfind;
use vstd::std_specs::iter::IteratorSpec;

verus! {

broadcast use vstd::string::group_string_axioms;

/// Position of the first occurrence of `pat` in `s`, or -1.
pub open spec fn find_sub(s: Seq<char>, pat: Seq<char>) -> int
    decreases s.len(),
{
    if pat.is_prefix_of(s) {
        0
    } else if s.len() == 0 {
        -1
    } else {
        let r = find_sub(s.drop_first(), pat);
        if r < 0 {
            -1
        } else {
            r + 1
        }
    }
}

pub proof fn lemma_find_sub_bounds(s: Seq<char>, pat: Seq<char>)
    ensures
        -1 <= find_sub(s, pat) <= s.len(),
        find_sub(s, pat) >= 0 ==> pat.is_prefix_of(s.skip(find_sub(s, pat))),
        pat.len() > 0 ==> find_sub(s, pat) < s.len(),
    decreases s.len(),
{
    if pat.is_prefix_of(s) {
        assert(s.skip(0) =~= s);
    } else if s.len() > 0 {
        lemma_find_sub_bounds(s.drop_first(), pat);
        let r = find_sub(s.drop_first(), pat);
        if r >= 0 {
            assert(s.drop_first().skip(r) =~= s.skip(r + 1));
        }
    }
}

/// The characters of `s`.
pub fn chars_of(s: &str) -> (r: Vec<char>)
    ensures
        r@ == s@,
{
    let n = s.unicode_len();
    let mut it = s.chars();
    let mut r: Vec<char> = Vec::new();
    loop
        invariant
            r@ + it.remaining() == s@,
            n == s@.len(),
        ensures
            r@ == s@,
        decreases n - r.len(),
    {
        let ghost before = it.remaining();
        match it.next() {
            Some(c) => {
                assert(r@.push(c) + it.remaining() =~= r@ + before);
                r.push(c);
            },
            None => {
                assert(r@ =~= s@);
                break;
            },
        }
    }
    r
}

/// Whether `pat` occurs in `t` at `i`, within the range ending at `hi`.
pub fn matches_at(t: &Vec<char>, i: usize, hi: usize, pat: &Vec<char>) -> (r: bool)
    requires
        i <= hi <= t.len(),
    ensures
        r == pat@.is_prefix_of(t@.subrange(i as int, hi as int)),
{
    if pat.len() > hi - i {
        return false;
    }
    let mut k: usize = 0;
    while k < pat.len()
        invariant
            k <= pat.len() <= hi - i,
            i <= hi <= t.len(),
            forall|j: int| 0 <= j < k ==> pat@[j] == t@[i + j],
        decreases pat.len() - k,
    {
        if pat[k] != t[i + k] {
            assert(t@.subrange(i as int, hi as int)[k as int] == t@[i + k]);
            return false;
        }
        k += 1;
    }
    assert(pat@ =~= t@.subrange(i as int, hi as int).take(pat.len() as int));
    true
}

/// The first occurrence of a non-empty `pat` in the range `lo..hi` of `t`.
pub fn find_pattern(t: &Vec<char>, lo: usize, hi: usize, pat: &Vec<char>) -> (r: Option<usize>)
    requires
        lo <= hi <= t.len(),
        pat.len() > 0,
    ensures
        match r {
            Some(i) => lo <= i < hi && find_sub(t@.subrange(lo as int, hi as int), pat@) == i - lo,
            None => find_sub(t@.subrange(lo as int, hi as int), pat@) == -1,
        },
{
    let mut i: usize = lo;
    while i < hi
        invariant
            lo <= i <= hi <= t.len(),
            pat.len() > 0,
            find_sub(t@.subrange(lo as int, hi as int), pat@) == if find_sub(
                t@.subrange(i as int, hi as int),
                pat@,
            ) < 0 {
                -1
            } else {
                find_sub(t@.subrange(i as int, hi as int), pat@) + (i - lo)
            },
        decreases hi - i,
    {
        if matches_at(t, i, hi, pat) {
            return Some(i);
        }
        assert(t@.subrange(i as int, hi as int).drop_first() =~= t@.subrange(i + 1, hi as int));
        i += 1;
    }
    assert(!pat@.is_prefix_of(t@.subrange(hi as int, hi as int)));
    None
}

/// The last occurrence of `c` in the range `lo..hi` of `t`.
pub fn rfind_in(t: &Vec<char>, lo: usize, hi: usize, c: char) -> (r: Option<usize>)
    requires
        lo <= hi <= t.len(),
    ensures
        match r {
            Some(i) => lo <= i < hi && rfind(t@.subrange(lo as int, hi as int), c) == i - lo,
            None => rfind(t@.subrange(lo as int, hi as int), c) == -1,
        },
{
    let mut i: usize = hi;
    while i > lo
        invariant
            lo <= i <= hi <= t.len(),
            rfind(t@.subrange(lo as int, hi as int), c) == rfind(t@.subrange(lo as int, i as int), c),
        decreases i,
    {
        if t[i - 1] == c {
            return Some(i - 1);
        }
        assert(t@.subrange(lo as int, i as int).drop_last() =~= t@.subrange(lo as int, i - 1));
        i -= 1;
    }
    None
}

} // verus!
