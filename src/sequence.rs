//! Grouping loose image files into animation sequences, and pairing textures
//! with their sprite descriptors.
use vstd::prelude::*;
use crate::order::{sorted_lex, sort_names, strictly_sorted_lex};
use crate::paths::{renamed, rename_extension};
use crate::text::{
    all_digits, eq_ignore_ascii_case, extension, file_stem, is_ascii_digit, rfind,
    equals_ignore_ascii_case, extension_of, is_all_digits, lemma_rfind_bounds, rfind_char, stem_of,
};

verus! {

broadcast use vstd::seq_lib::group_to_multiset_ensures, vstd::seq_lib::group_filter_ensures;

/// Start of the run of decimal digits that ends `s`.
pub open spec fn digits_start(s: Seq<char>) -> int
    decreases s.len(),
{
    if s.len() == 0 {
        0
    } else if is_ascii_digit(s.last()) {
        digits_start(s.drop_last())
    } else {
        s.len() as int
    }
}

/// The name a stem shares with the other frames of its sequence: the text
/// before the last underscore when only digits follow it, else the stem less
/// its trailing digits.
pub open spec fn base_name(stem: Seq<char>) -> Seq<char> {
    let u = rfind(stem, '_');
    if u >= 0 && all_digits(stem.subrange(u + 1, stem.len() as int)) {
        stem.subrange(0, u)
    } else {
        stem.subrange(0, digits_start(stem))
    }
}

pub open spec fn sequence_key(name: Seq<char>) -> Seq<char> {
    base_name(file_stem(name))
}

pub open spec fn is_image_extension(e: Seq<char>) -> bool {
    ||| eq_ignore_ascii_case(e, seq!['p', 'n', 'g'])
    ||| eq_ignore_ascii_case(e, seq!['d', 'd', 's'])
    ||| eq_ignore_ascii_case(e, seq!['j', 'p', 'g'])
    ||| eq_ignore_ascii_case(e, seq!['j', 'p', 'e', 'g'])
    ||| eq_ignore_ascii_case(e, seq!['b', 'm', 'p'])
    ||| eq_ignore_ascii_case(e, seq!['t', 'g', 'a'])
}

pub open spec fn is_image_name(name: Seq<char>) -> bool {
    is_image_extension(extension(name))
}

pub open spec fn in_sequence(key: Seq<char>) -> spec_fn(Seq<char>) -> bool {
    |n: Seq<char>| is_image_name(n) && sequence_key(n) == key
}

/// The image names among `names` whose sequence key is `key`, in their order.
pub open spec fn sequence_members(names: Seq<Seq<char>>, key: Seq<char>) -> Seq<Seq<char>> {
    names.filter(in_sequence(key))
}

proof fn lemma_digits_start_bounds(s: Seq<char>)
    ensures
        0 <= digits_start(s) <= s.len(),
    decreases s.len(),
{
    if s.len() > 0 && is_ascii_digit(s.last()) {
        lemma_digits_start_bounds(s.drop_last());
    }
}

/// The base name of a file stem.
pub fn base_name_of(stem: &str) -> (r: String)
    ensures
        r@ == base_name(stem@),
{
    let n = stem.unicode_len();
    proof {
        lemma_rfind_bounds(stem@, '_');
    }
    if let Some(u) = rfind_char(stem, '_') {
        if is_all_digits(stem.substring_char(u + 1, n)) {
            return stem.substring_char(0, u).to_owned();
        }
    }
    let mut e: usize = n;
    assert(stem@.subrange(0, n as int) =~= stem@);
    while e > 0
        invariant
            e <= n == stem@.len(),
            digits_start(stem@) == digits_start(stem@.subrange(0, e as int)),
        ensures
            e <= n,
            digits_start(stem@) == e,
        decreases e,
    {
        let c = stem.get_char(e - 1);
        if !('0' <= c && c <= '9') {
            break;
        }
        assert(stem@.subrange(0, e as int).drop_last() =~= stem@.subrange(0, e - 1));
        e -= 1;
    }
    stem.substring_char(0, e).to_owned()
}

/// The key that groups a file name with the other frames of its sequence.
pub fn sequence_key_of(name: &str) -> (r: String)
    ensures
        r@ == sequence_key(name@),
{
    let stem = stem_of(name);
    base_name_of(stem.as_str())
}

/// Whether the file name carries one of the image extensions, in any case.
pub fn is_image_file(name: &str) -> (r: bool)
    ensures
        r == is_image_name(name@),
{
    let e = extension_of(name);
    let e = e.as_str();
    proof {
        reveal_strlit("png");
        reveal_strlit("dds");
        reveal_strlit("jpg");
        reveal_strlit("jpeg");
        reveal_strlit("bmp");
        reveal_strlit("tga");
        assert("png"@ =~= seq!['p', 'n', 'g']);
        assert("dds"@ =~= seq!['d', 'd', 's']);
        assert("jpg"@ =~= seq!['j', 'p', 'g']);
        assert("jpeg"@ =~= seq!['j', 'p', 'e', 'g']);
        assert("bmp"@ =~= seq!['b', 'm', 'p']);
        assert("tga"@ =~= seq!['t', 'g', 'a']);
    }
    equals_ignore_ascii_case(e, "png") || equals_ignore_ascii_case(e, "dds")
        || equals_ignore_ascii_case(e, "jpg") || equals_ignore_ascii_case(e, "jpeg")
        || equals_ignore_ascii_case(e, "bmp") || equals_ignore_ascii_case(e, "tga")
}

/// The distinct sequence keys of the image names in `names`.
fn collect_keys(names: &Vec<String>) -> (keys: Vec<String>)
    ensures
        keys.deep_view().no_duplicates(),
        forall|i: int|
            0 <= i < names.len() && is_image_name(#[trigger] names.deep_view()[i])
                ==> keys.deep_view().contains(sequence_key(names.deep_view()[i])),
{
    let mut keys: Vec<String> = Vec::new();
    let mut i: usize = 0;
    while i < names.len()
        invariant
            i <= names.len(),
            keys.deep_view().no_duplicates(),
            forall|j: int|
                0 <= j < i && is_image_name(#[trigger] names.deep_view()[j])
                    ==> keys.deep_view().contains(sequence_key(names.deep_view()[j])),
        decreases names.len() - i,
    {
        let name = names[i].as_str();
        if is_image_file(name) {
            let key = sequence_key_of(name);
            let mut found = false;
            let mut k: usize = 0;
            while k < keys.len()
                invariant_except_break
                    !found,
                invariant
                    k <= keys.len(),
                    forall|q: int| 0 <= q < k ==> keys.deep_view()[q] != key@,
                ensures
                    found ==> keys.deep_view().contains(key@),
                    !found ==> !keys.deep_view().contains(key@),
                decreases keys.len() - k,
            {
                if <String as PartialEq>::eq(&keys[k], &key) {
                    found = true;
                    assert(keys.deep_view()[k as int] == key@);
                    break;
                }
                k += 1;
            }
            if !found {
                let ghost before = keys.deep_view();
                keys.push(key);
                assert(keys.deep_view() =~= before.push(sequence_key(names.deep_view()[i as int])));
                assert forall|j: int|
                    0 <= j <= i && is_image_name(#[trigger] names.deep_view()[j])
                        implies keys.deep_view().contains(sequence_key(names.deep_view()[j])) by {
                    if j < i {
                        let w = choose|w: int|
                            0 <= w < before.len() && before[w] == sequence_key(names.deep_view()[j]);
                        assert(keys.deep_view()[w] == before[w]);
                    } else {
                        assert(keys.deep_view()[before.len() as int] == key@);
                    }
                }
            }
        }
        i += 1;
    }
    keys
}

/// The image names of `names` whose sequence key is `key`, in their order.
fn collect_members(names: &Vec<String>, key: &String) -> (r: Vec<String>)
    ensures
        r.deep_view() == sequence_members(names.deep_view(), key@),
        names.deep_view().no_duplicates() ==> r.deep_view().no_duplicates(),
{
    let mut r: Vec<String> = Vec::new();
    let ghost mut src: Seq<int> = Seq::empty();
    let mut i: usize = 0;
    assert(names.deep_view().take(0) =~= Seq::<Seq<char>>::empty());
    while i < names.len()
        invariant
            i <= names.len(),
            r.deep_view() == sequence_members(names.deep_view().take(i as int), key@),
            names.deep_view().no_duplicates() ==> r.deep_view().no_duplicates(),
            src.len() == r.len(),
            forall|k: int|
                0 <= k < r.len() ==> 0 <= #[trigger] src[k] < i && names.deep_view()[src[k]]
                    == r.deep_view()[k],
        decreases names.len() - i,
    {
        let name = names[i].as_str();
        let ghost before = r.deep_view();
        assert(names.deep_view().take(i + 1) =~= names.deep_view().take(i as int).push(name@));
        proof {
            names.deep_view().take(i as int).lemma_filter_push(name@, in_sequence(key@));
        }
        if is_image_file(name) {
            let k = sequence_key_of(name);
            if <String as PartialEq>::eq(&k, key) {
                r.push(names[i].clone());
                assert(r.deep_view() =~= before.push(name@));
                assert(r.deep_view()[before.len() as int] == names.deep_view()[i as int]);
                proof {
                    src = src.push(i as int);
                    assert forall|k: int| 0 <= k < before.len() implies r.deep_view()[k] == before[k] by {}
                }
                proof {
                    if names.deep_view().no_duplicates() {
                        assert forall|a: int, b: int| 0 <= a < b < r.len() implies r.deep_view()[a]
                            != r.deep_view()[b] by {
                            if b == before.len() {
                                assert(r.deep_view()[a] == before[a]);
                                assert(names.deep_view()[src[a]] != names.deep_view()[i as int]);
                            } else {
                                assert(r.deep_view()[a] == before[a] && r.deep_view()[b] == before[b]);
                            }
                        }
                    }
                }
            }
        }
        i += 1;
    }
    assert(names.deep_view().take(names.len() as int) =~= names.deep_view());
    r
}

/// Groups the file names of one directory into animation sequences: the image
/// names that share a sequence key, each group sorted lexicographically, and
/// only groups of two or more. The order of the groups is not specified.
pub fn find_image_sequences(names: &Vec<String>) -> (r: Vec<Vec<String>>)
    ensures
        forall|g: int|
            0 <= g < r.len() ==> {
                let s = #[trigger] r.deep_view()[g];
                &&& s.len() >= 2
                &&& sorted_lex(s)
                &&& (names.deep_view().no_duplicates() ==> strictly_sorted_lex(s))
                &&& s.to_multiset() == sequence_members(
                    names.deep_view(),
                    sequence_key(s[0]),
                ).to_multiset()
            },
        forall|g: int, h: int|
            0 <= g < h < r.len() ==> sequence_key(#[trigger] r.deep_view()[g][0]) != sequence_key(
                #[trigger] r.deep_view()[h][0],
            ),
        forall|i: int|
            0 <= i < names.len() && is_image_name(#[trigger] names.deep_view()[i])
                && sequence_members(names.deep_view(), sequence_key(names.deep_view()[i])).len()
                >= 2 ==> exists|g: int|
                0 <= g < r.len() && sequence_key(#[trigger] r.deep_view()[g][0]) == sequence_key(
                    names.deep_view()[i],
                ),
{
    let keys = collect_keys(names);
    let mut r: Vec<Vec<String>> = Vec::new();
    let ghost mut idx: Seq<int> = Seq::empty();
    let mut k: usize = 0;
    while k < keys.len()
        invariant
            k <= keys.len(),
            keys.deep_view().no_duplicates(),
            idx.len() == r.len(),
            forall|g: int| 0 <= g < r.len() ==> 0 <= #[trigger] idx[g] < k,
            forall|g: int, h: int| 0 <= g < h < r.len() ==> #[trigger] idx[g] < #[trigger] idx[h],
            forall|g: int|
                0 <= g < r.len() ==> {
                    let s = #[trigger] r.deep_view()[g];
                    &&& s.len() >= 2
                    &&& sorted_lex(s)
                    &&& (names.deep_view().no_duplicates() ==> strictly_sorted_lex(s))
                    &&& sequence_key(s[0]) == keys.deep_view()[idx[g]]
                    &&& s.to_multiset() == sequence_members(
                        names.deep_view(),
                        sequence_key(s[0]),
                    ).to_multiset()
                },
            forall|q: int|
                0 <= q < k && sequence_members(names.deep_view(), #[trigger] keys.deep_view()[q]).len() >= 2
                    ==> exists|g: int| 0 <= g < r.len() && idx[g] == q,
        decreases keys.len() - k,
    {
        let members = collect_members(names, &keys[k]);
        if members.len() >= 2 {
            let sorted = sort_names(&members);
            proof {
                let s = sorted.deep_view();
                let m = members.deep_view();
                assert(s.len() == s.to_multiset().len());
                assert(m.len() == m.to_multiset().len());
                assert(s.to_multiset().count(s[0]) > 0) by {
                    assert(s.contains(s[0]));
                }
                assert(m.contains(s[0]));
                let w = choose|w: int| 0 <= w < m.len() && m[w] == s[0];
                assert(in_sequence(keys.deep_view()[k as int])(m[w]));
            }
            let ghost before = r.deep_view();
            let ghost old_idx = idx;
            r.push(sorted);
            proof {
                idx = idx.push(k as int);
                assert(r.deep_view() =~= before.push(sorted.deep_view()));
                assert forall|q: int|
                    0 <= q < k && sequence_members(names.deep_view(), #[trigger] keys.deep_view()[q]).len() >= 2
                        implies exists|g: int| 0 <= g < r.len() && idx[g] == q by {
                    let g = choose|g: int| 0 <= g < before.len() && old_idx[g] == q;
                    assert(idx[g] == q);
                }
            }
        }
        assert forall|q: int|
            0 <= q <= k && sequence_members(names.deep_view(), #[trigger] keys.deep_view()[q]).len() >= 2
                implies exists|g: int| 0 <= g < r.len() && idx[g] == q by {
            if q == k {
                assert(idx[r.len() - 1] == q);
            }
        }
        k += 1;
    }
    proof {
        assert forall|g: int, h: int| 0 <= g < h < r.len() implies sequence_key(
            #[trigger] r.deep_view()[g][0],
        ) != sequence_key(#[trigger] r.deep_view()[h][0]) by {
            assert(idx[g] < idx[h]);
        }
        assert forall|i: int|
            0 <= i < names.len() && is_image_name(#[trigger] names.deep_view()[i])
                && sequence_members(names.deep_view(), sequence_key(names.deep_view()[i])).len()
                >= 2 implies exists|g: int|
                0 <= g < r.len() && sequence_key(#[trigger] r.deep_view()[g][0]) == sequence_key(
                    names.deep_view()[i],
                ) by {
            let key = sequence_key(names.deep_view()[i]);
            let q = choose|q: int| 0 <= q < keys.len() && keys.deep_view()[q] == key;
            let g = choose|g: int| 0 <= g < r.len() && idx[g] == q;
            assert(sequence_key(r.deep_view()[g][0]) == key);
        }
    }
    r
}

pub open spec fn is_texture_name(name: Seq<char>) -> bool {
    extension(name) == seq!['d', 'd', 's']
}

/// The sprite descriptor that belongs to a texture: the same stem, extension `sprite`.
pub open spec fn descriptor_name(texture: Seq<char>) -> Seq<char> {
    renamed(texture, seq!['s', 'p', 'r', 'i', 't', 'e'])
}

pub open spec fn has_descriptor(names: Seq<Seq<char>>) -> spec_fn(Seq<char>) -> bool {
    |n: Seq<char>| is_texture_name(n) && names.contains(descriptor_name(n))
}

/// Each texture among `names` whose descriptor is among `names` too, paired
/// with that descriptor, in the order of `names`.
pub open spec fn sprite_pairs(names: Seq<Seq<char>>) -> Seq<(Seq<char>, Seq<char>)> {
    names.filter(has_descriptor(names)).map_values(|n: Seq<char>| (n, descriptor_name(n)))
}

/// Whether the name's extension is `dds` in any case: the files that the
/// conversion mode picks up.
pub open spec fn is_dds_name(name: Seq<char>) -> bool {
    eq_ignore_ascii_case(extension(name), seq!['d', 'd', 's'])
}

fn contains_name(names: &Vec<String>, name: &String) -> (r: bool)
    ensures
        r == names.deep_view().contains(name@),
{
    let mut i: usize = 0;
    while i < names.len()
        invariant
            i <= names.len(),
            forall|j: int| 0 <= j < i ==> names.deep_view()[j] != name@,
        decreases names.len() - i,
    {
        if <String as PartialEq>::eq(&names[i], name) {
            assert(names.deep_view()[i as int] == name@);
            return true;
        }
        i += 1;
    }
    false
}

/// Pairs each `dds` texture among the file names of one directory with its
/// sprite descriptor, where that descriptor is among the names too.
pub fn find_sprite_sequences(names: &Vec<String>) -> (r: Vec<(String, String)>)
    ensures
        r.deep_view() == sprite_pairs(names.deep_view()),
{
    let ghost all = names.deep_view();
    let ghost f = |n: Seq<char>| (n, descriptor_name(n));
    let mut r: Vec<(String, String)> = Vec::new();
    let mut i: usize = 0;
    assert(all.take(0) =~= Seq::<Seq<char>>::empty());
    assert(all.take(0).filter(has_descriptor(all)).map_values(f) =~= Seq::<(Seq<char>, Seq<char>)>::empty());
    while i < names.len()
        invariant
            i <= names.len(),
            all == names.deep_view(),
            f == (|n: Seq<char>| (n, descriptor_name(n))),
            r.deep_view() == all.take(i as int).filter(has_descriptor(all)).map_values(f),
        decreases names.len() - i,
    {
        let name = names[i].as_str();
        let ghost before = r.deep_view();
        proof {
            assert(all.take(i + 1) =~= all.take(i as int).push(name@));
            all.take(i as int).lemma_filter_push(name@, has_descriptor(all));
        }
        let e = extension_of(name);
        let dds = "dds".to_owned();
        proof {
            reveal_strlit("dds");
            assert(dds@ =~= seq!['d', 'd', 's']);
        }
        if <String as PartialEq>::eq(&e, &dds) {
            let descriptor = rename_extension(name, "sprite");
            proof {
                reveal_strlit("sprite");
                assert("sprite"@ =~= seq!['s', 'p', 'r', 'i', 't', 'e']);
            }
            if contains_name(names, &descriptor) {
                let pair = (names[i].clone(), descriptor);
                assert(pair.deep_view() == f(name@));
                r.push(pair);
                assert(r.deep_view() =~= before.push(f(name@)));
            }
        }
        assert(r.deep_view() =~= all.take(i + 1).filter(has_descriptor(all)).map_values(f));
        i += 1;
    }
    assert(all.take(names.len() as int) =~= all);
    r
}

/// Whether a file found by the recursive scan is a `dds` texture to convert.
pub fn is_dds_file(name: &str) -> (r: bool)
    ensures
        r == is_dds_name(name@),
{
    proof {
        reveal_strlit("dds");
        assert("dds"@ =~= seq!['d', 'd', 's']);
    }
    let e = extension_of(name);
    equals_ignore_ascii_case(e.as_str(), "dds")
}

/// Whether a sequence holds a `dds` texture (in any case), which must be
/// converted to PNG before its frames can be decoded.
pub fn has_dds_frame(sequence: &Vec<String>) -> (r: bool)
    ensures
        r == exists|i: int| 0 <= i < sequence.len() && is_dds_name(#[trigger] sequence.deep_view()[i]),
{
    let mut i: usize = 0;
    while i < sequence.len()
        invariant
            i <= sequence.len(),
            forall|j: int| 0 <= j < i ==> !is_dds_name(#[trigger] sequence.deep_view()[j]),
        decreases sequence.len() - i,
    {
        if is_dds_file(sequence[i].as_str()) {
            assert(is_dds_name(sequence.deep_view()[i as int]));
            return true;
        }
        i += 1;
    }
    false
}

} // verus!
