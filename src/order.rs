//! Lexicographic order on names, and sorting by it.
use vstd::prelude::*;

verus! {

broadcast use vstd::seq_lib::group_to_multiset_ensures;

/// `a` comes strictly before `b`, comparing characters by code point.
pub open spec fn lex_lt(a: Seq<char>, b: Seq<char>) -> bool
    decreases a.len(),
{
    if a.len() == 0 {
        b.len() > 0
    } else if b.len() == 0 {
        false
    } else if a[0] != b[0] {
        a[0] < b[0]
    } else {
        lex_lt(a.drop_first(), b.drop_first())
    }
}

/// Each name is no greater than any name after it.
pub open spec fn sorted_lex(s: Seq<Seq<char>>) -> bool {
    forall|i: int, j: int| 0 <= i < j < s.len() ==> !lex_lt(#[trigger] s[j], #[trigger] s[i])
}

/// Each name comes strictly before any name after it.
pub open spec fn strictly_sorted_lex(s: Seq<Seq<char>>) -> bool {
    forall|i: int, j: int| 0 <= i < j < s.len() ==> lex_lt(#[trigger] s[i], #[trigger] s[j])
}

pub proof fn lemma_lex_lt_total(a: Seq<char>, b: Seq<char>)
    requires
        a != b,
    ensures
        lex_lt(a, b) || lex_lt(b, a),
    decreases a.len(),
{
    if a.len() > 0 && b.len() > 0 && a[0] == b[0] {
        if a.drop_first() == b.drop_first() {
            assert(a =~= seq![a[0]] + a.drop_first());
            assert(b =~= seq![b[0]] + b.drop_first());
        }
        lemma_lex_lt_total(a.drop_first(), b.drop_first());
    } else if a.len() == 0 && b.len() == 0 {
        assert(a =~= b);
    }
}

/// Sorted names without repeats are strictly sorted.
pub proof fn lemma_sorted_distinct_is_strict(s: Seq<Seq<char>>)
    requires
        sorted_lex(s),
        s.no_duplicates(),
    ensures
        strictly_sorted_lex(s),
{
    assert forall|i: int, j: int| 0 <= i < j < s.len() implies lex_lt(#[trigger] s[i], #[trigger] s[j]) by {
        lemma_lex_lt_total(s[i], s[j]);
    }
}

pub proof fn lemma_lex_lt_transitive(a: Seq<char>, b: Seq<char>, c: Seq<char>)
    requires
        lex_lt(a, b),
        lex_lt(b, c),
    ensures
        lex_lt(a, c),
    decreases a.len(),
{
    if a.len() > 0 && b.len() > 0 && c.len() > 0 && a[0] == b[0] && b[0] == c[0] {
        lemma_lex_lt_transitive(a.drop_first(), b.drop_first(), c.drop_first());
    }
}

pub proof fn lemma_lex_lt_irreflexive(a: Seq<char>)
    ensures
        !lex_lt(a, a),
    decreases a.len(),
{
    if a.len() > 0 {
        lemma_lex_lt_irreflexive(a.drop_first());
    }
}

/// Whether `a` comes strictly before `b`.
pub fn lex_less(a: &str, b: &str) -> (r: bool)
    ensures
        r == lex_lt(a@, b@),
{
    let n = a.unicode_len();
    let m = b.unicode_len();
    let mut i: usize = 0;
    assert(a@.skip(0) =~= a@ && b@.skip(0) =~= b@);
    while i < n && i < m
        invariant
            i <= n == a@.len(),
            i <= m == b@.len(),
            lex_lt(a@, b@) == lex_lt(a@.skip(i as int), b@.skip(i as int)),
        decreases n - i,
    {
        let x = a.get_char(i);
        let y = b.get_char(i);
        if x != y {
            return x < y;
        }
        assert(a@.skip(i as int).drop_first() =~= a@.skip(i + 1));
        assert(b@.skip(i as int).drop_first() =~= b@.skip(i + 1));
        i += 1;
    }
    i < m
}

/// The names of `v`, sorted lexicographically.
pub fn sort_names(v: &Vec<String>) -> (r: Vec<String>)
    ensures
        sorted_lex(r.deep_view()),
        r.deep_view().to_multiset() == v.deep_view().to_multiset(),
        v.deep_view().no_duplicates() ==> strictly_sorted_lex(r.deep_view()),
{
    let mut r: Vec<String> = Vec::new();
    let mut i: usize = 0;
    assert(v.deep_view().take(0) =~= Seq::<Seq<char>>::empty());
    while i < v.len()
        invariant
            i <= v.len(),
            sorted_lex(r.deep_view()),
            r.deep_view().to_multiset() == v.deep_view().take(i as int).to_multiset(),
        decreases v.len() - i,
    {
        let x = v[i].clone();
        let mut p: usize = 0;
        while p < r.len()
            invariant
                p <= r.len(),
                forall|q: int| 0 <= q < p ==> !lex_lt(x@, #[trigger] r.deep_view()[q]),
            ensures
                p <= r.len(),
                forall|q: int| 0 <= q < p ==> !lex_lt(x@, #[trigger] r.deep_view()[q]),
                p < r.len() ==> lex_lt(x@, r.deep_view()[p as int]),
            decreases r.len() - p,
        {
            if lex_less(x.as_str(), r[p].as_str()) {
                break;
            }
            p += 1;
        }
        let ghost old_r = r.deep_view();
        r.insert(p, x);
        proof {
            let s = r.deep_view();
            assert(s =~= old_r.insert(p as int, x@));
            old_r.insert_ensures(p as int, x@);
            assert forall|a: int, b: int| 0 <= a < b < s.len() implies !lex_lt(s[b], s[a]) by {
                if a < p && b == p {
                } else if a == p && b > p {
                    assert(s[b] == old_r[b - 1]);
                    if lex_lt(s[b], x@) {
                        lemma_lex_lt_transitive(s[b], x@, old_r[p as int]);
                        lemma_lex_lt_irreflexive(old_r[p as int]);
                    }
                } else if a < p && b > p {
                    assert(s[b] == old_r[b - 1]);
                } else if b < p {
                } else {
                    assert(s[a] == old_r[a - 1] && s[b] == old_r[b - 1]);
                }
            }
            assert(s.remove(p as int) =~= old_r);
            assert(s.to_multiset().count(x@) > 0) by {
                assert(s.contains(x@));
            }
            assert(s.to_multiset() =~= old_r.to_multiset().insert(x@));
            assert(v.deep_view().take(i + 1) =~= v.deep_view().take(i as int).push(x@));
        }
        i += 1;
    }
    assert(v.deep_view().take(v.len() as int) =~= v.deep_view());
    proof {
        if v.deep_view().no_duplicates() {
            v.deep_view().lemma_multiset_has_no_duplicates();
            r.deep_view().lemma_multiset_has_no_duplicates_conv();
            lemma_sorted_distinct_is_strict(r.deep_view());
        }
    }
    r
}

} // verus!
