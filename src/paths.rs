//! Mapping an input file to its place under the output directory.
//!
//! A path is modelled as the sequence of its components; the root, `.` and `..`
//! are components without a file name.
use vstd::prelude::*;
use crate::text::{extension_dot, file_stem, has_extension, find_extension_dot, lemma_rfind_bounds};

verus! {

/// Components that carry no file name, so an extension cannot be set on them.
pub open spec fn is_nameless(c: Seq<char>) -> bool {
    c == seq!['.'] || c == seq!['.', '.'] || c == seq!['/']
}

/// The component `name` with its extension replaced by `ext` (removed when `ext` is empty).
pub open spec fn renamed(name: Seq<char>, ext: Seq<char>) -> Seq<char> {
    if is_nameless(name) {
        name
    } else if ext.len() == 0 {
        file_stem(name)
    } else {
        file_stem(name) + seq!['.'] + ext
    }
}

/// The path with the extension of its last component replaced.
pub open spec fn with_extension(p: Seq<Seq<char>>, ext: Seq<char>) -> Seq<Seq<char>> {
    if p.len() == 0 {
        p
    } else {
        p.update(p.len() - 1, renamed(p.last(), ext))
    }
}

/// `path` relative to `root`, or `path` itself when it does not lie under `root`.
pub open spec fn relative_to(path: Seq<Seq<char>>, root: Seq<Seq<char>>) -> Seq<Seq<char>> {
    if root.is_prefix_of(path) {
        path.subrange(root.len() as int, path.len() as int)
    } else {
        path
    }
}

/// The components that remain once the first `strip` are dropped; all of them
/// when there are no more than `strip`.
pub open spec fn kept_components(rel: Seq<Seq<char>>, strip: nat) -> Seq<Seq<char>> {
    if strip < rel.len() {
        rel.subrange(strip as int, rel.len() as int)
    } else {
        rel
    }
}

/// The root (and a drive prefix, which the caller writes as the root) and `..`
/// would lead out of the output directory.
pub open spec fn escapes(c: Seq<char>) -> bool {
    c == seq!['/'] || c == seq!['.', '.']
}

pub open spec fn stays_inside() -> spec_fn(Seq<char>) -> bool {
    |c: Seq<char>| !escapes(c)
}

/// The components placed under the output directory: those kept, or, when none
/// is kept, the input's own file name, so that the output directory itself is
/// never renamed.
pub open spec fn named_tail(kept: Seq<Seq<char>>, input: Seq<Seq<char>>) -> Seq<Seq<char>> {
    if kept.len() == 0 && input.len() > 0 && !escapes(input.last()) {
        seq![input.last()]
    } else {
        kept
    }
}

pub open spec fn output_path(
    input: Seq<Seq<char>>,
    input_root: Seq<Seq<char>>,
    output_root: Seq<Seq<char>>,
    strip: nat,
    ext: Seq<char>,
) -> Seq<Seq<char>> {
    output_root + with_extension(
        named_tail(kept_components(relative_to(input, input_root), strip).filter(stays_inside()), input),
        ext,
    )
}

/// Stripping at least as many components as the relative path has is the same
/// as stripping exactly that many: the whole relative path is kept.
pub proof fn lemma_strip_saturates(
    input: Seq<Seq<char>>,
    input_root: Seq<Seq<char>>,
    output_root: Seq<Seq<char>>,
    strip: nat,
    ext: Seq<char>,
)
    requires
        strip >= relative_to(input, input_root).len(),
    ensures
        output_path(input, input_root, output_root, strip, ext) == output_path(
            input,
            input_root,
            output_root,
            relative_to(input, input_root).len(),
            ext,
        ),
        output_path(input, input_root, output_root, strip, ext) == output_root + with_extension(
            named_tail(relative_to(input, input_root).filter(stays_inside()), input),
            ext,
        ),
{
}

/// The output path lies under the output directory; strictly under it when the
/// input ends in a file name; and, for an extension that does not end in a dot,
/// none of its components below the output directory leads out of it.
pub proof fn lemma_output_stays_inside(
    input: Seq<Seq<char>>,
    input_root: Seq<Seq<char>>,
    output_root: Seq<Seq<char>>,
    strip: nat,
    ext: Seq<char>,
)
    ensures
        output_root.is_prefix_of(output_path(input, input_root, output_root, strip, ext)),
        input.len() > 0 && !escapes(input.last()) ==> output_path(
            input,
            input_root,
            output_root,
            strip,
            ext,
        ).len() > output_root.len(),
        ext.len() > 0 && ext.last() != '.' ==> forall|i: int|
            output_root.len() <= i < output_path(input, input_root, output_root, strip, ext).len()
                ==> !escapes(#[trigger] output_path(input, input_root, output_root, strip, ext)[i]),
{
    let kept = kept_components(relative_to(input, input_root), strip).filter(stays_inside());
    let t = named_tail(kept, input);
    let p = output_path(input, input_root, output_root, strip, ext);
    assert(p.subrange(0, output_root.len() as int) =~= output_root);
    assert forall|i: int| output_root.len() <= i < p.len() && ext.len() > 0 && ext.last() != '.'
        implies !escapes(#[trigger] p[i]) by {
        let j = i - output_root.len();
        assert(p[i] == with_extension(t, ext)[j]);
        if kept.len() > 0 {
            assert(stays_inside()(kept[j])) by {
                kept_components(relative_to(input, input_root), strip).lemma_filter_pred(stays_inside(), j);
            }
        }
        if j == t.len() - 1 {
            lemma_renamed_stays(t[j], ext);
        }
    }
}

/// Renaming a component that does not lead out, with an extension that does
/// not end in a dot, cannot make it lead out.
proof fn lemma_renamed_stays(c: Seq<char>, ext: Seq<char>)
    requires
        !escapes(c),
        ext.len() > 0,
        ext.last() != '.',
    ensures
        !escapes(renamed(c, ext)),
{
    if !is_nameless(c) {
        let r = renamed(c, ext);
        assert(r.last() == ext.last());
        assert(r.len() >= 2);
    }
}

fn is_nameless_component(c: &str) -> (r: bool)
    ensures
        r == is_nameless(c@),
{
    let n = c.unicode_len();
    if n == 1 {
        let a = c.get_char(0);
        assert(a == '.' ==> c@ =~= seq!['.']);
        assert(a == '/' ==> c@ =~= seq!['/']);
        a == '.' || a == '/'
    } else if n == 2 {
        let a = c.get_char(0);
        let b = c.get_char(1);
        assert(a == '.' && b == '.' ==> c@ =~= seq!['.', '.']);
        a == '.' && b == '.'
    } else {
        false
    }
}

/// The file name `name` with its extension replaced by `ext`.
pub fn rename_extension(name: &str, ext: &str) -> (r: String)
    ensures
        r@ == renamed(name@, ext@),
{
    if is_nameless_component(name) {
        return name.to_owned();
    }
    proof {
        lemma_rfind_bounds(name@, '.');
    }
    let stem = match find_extension_dot(name) {
        Some(i) => name.substring_char(0, i),
        None => name,
    };
    let mut r = stem.to_owned();
    if ext.unicode_len() > 0 {
        r.append(".");
        r.append(ext);
        proof {
            reveal_strlit(".");
        }
    }
    r
}

fn escapes_component(c: &str) -> (r: bool)
    ensures
        r == escapes(c@),
{
    let n = c.unicode_len();
    if n == 1 {
        let a = c.get_char(0);
        assert(a == '/' ==> c@ =~= seq!['/']);
        a == '/'
    } else if n == 2 {
        let a = c.get_char(0);
        let b = c.get_char(1);
        assert(a == '.' && b == '.' ==> c@ =~= seq!['.', '.']);
        a == '.' && b == '.'
    } else {
        false
    }
}

fn same_component(a: &String, b: &String) -> (r: bool)
    ensures
        r == (a@ == b@),
{
    <String as PartialEq>::eq(a, b)
}

/// Whether `root` is a leading part of `path`, component by component.
fn starts_with_components(path: &Vec<String>, root: &Vec<String>) -> (r: bool)
    ensures
        r == root.deep_view().is_prefix_of(path.deep_view()),
{
    if root.len() > path.len() {
        return false;
    }
    let mut i: usize = 0;
    while i < root.len()
        invariant
            i <= root.len() <= path.len(),
            forall|j: int| 0 <= j < i ==> root.deep_view()[j] == path.deep_view()[j],
        decreases root.len() - i,
    {
        if !same_component(&root[i], &path[i]) {
            assert(root.deep_view()[i as int] != path.deep_view()[i as int]);
            return false;
        }
        i += 1;
    }
    assert(root.deep_view() =~= path.deep_view().subrange(0, root.len() as int));
    true
}

/// The output path of `input_path`: its path relative to `input_dir` (or the
/// whole path when it lies elsewhere), less its first `strip_segments`
/// components when it has more than that many and less any root or `..`
/// component (or, when nothing is left, the input's file name), placed under
/// `output_dir`, with the extension `format`. It never leaves `output_dir`.
pub fn calculate_output_path(
    input_path: &Vec<String>,
    input_dir: &Vec<String>,
    output_dir: &Vec<String>,
    strip_segments: usize,
    format: &str,
) -> (r: Vec<String>)
    ensures
        r.deep_view() == output_path(
            input_path.deep_view(),
            input_dir.deep_view(),
            output_dir.deep_view(),
            strip_segments as nat,
            format@,
        ),
        output_dir.deep_view().is_prefix_of(r.deep_view()),
        input_path.len() > 0 && !escapes(input_path.deep_view().last()) ==> r.len() > output_dir.len(),
        format@.len() > 0 && format@.last() != '.' ==> forall|i: int|
            output_dir.len() <= i < r.len() ==> !escapes(#[trigger] r.deep_view()[i]),
{
    let under_root = starts_with_components(input_path, input_dir);
    let start: usize = if under_root {
        input_dir.len()
    } else {
        0
    };
    let ghost rel = relative_to(input_path.deep_view(), input_dir.deep_view());
    let first: usize = if strip_segments < input_path.len() - start {
        start + strip_segments
    } else {
        start
    };
    let ghost kept = kept_components(rel, strip_segments as nat);
    assert(kept =~= input_path.deep_view().subrange(first as int, input_path.len() as int));
    let mut tail: Vec<String> = Vec::new();
    let mut k: usize = first;
    while k < input_path.len()
        invariant
            first <= k <= input_path.len(),
            tail.deep_view() =~= input_path.deep_view().subrange(first as int, k as int).filter(
                stays_inside(),
            ),
        decreases input_path.len() - k,
    {
        let ghost before = tail.deep_view();
        let ghost x = input_path.deep_view()[k as int];
        proof {
            assert(input_path.deep_view().subrange(first as int, k + 1) =~= input_path.deep_view().subrange(
                first as int,
                k as int,
            ).push(x));
            input_path.deep_view().subrange(first as int, k as int).lemma_filter_push(x, stays_inside());
        }
        if !escapes_component(input_path[k].as_str()) {
            tail.push(input_path[k].clone());
            assert(tail.deep_view() =~= before.push(x));
        }
        k += 1;
    }
    let n = input_path.len();
    if tail.len() == 0 && n > 0 && !escapes_component(input_path[n - 1].as_str()) {
        tail.push(input_path[n - 1].clone());
        assert(tail.deep_view() =~= seq![input_path.deep_view().last()]);
    }
    let ghost named = tail.deep_view();
    if tail.len() > 0 {
        let last = tail.len() - 1;
        let renamed_last = rename_extension(tail[last].as_str(), format);
        tail.set(last, renamed_last);
    }
    assert(tail.deep_view() =~= with_extension(named, format@));
    let mut r: Vec<String> = Vec::new();
    let mut i: usize = 0;
    while i < output_dir.len()
        invariant
            i <= output_dir.len(),
            r.deep_view() =~= output_dir.deep_view().subrange(0, i as int),
        decreases output_dir.len() - i,
    {
        let ghost before = r.deep_view();
        r.push(output_dir[i].clone());
        assert(r.deep_view() =~= before.push(output_dir.deep_view()[i as int]));
        i += 1;
    }
    let mut j: usize = 0;
    while j < tail.len()
        invariant
            j <= tail.len(),
            r.deep_view() =~= output_dir.deep_view() + tail.deep_view().subrange(0, j as int),
        decreases tail.len() - j,
    {
        let ghost before = r.deep_view();
        r.push(tail[j].clone());
        assert(r.deep_view() =~= before.push(tail.deep_view()[j as int]));
        j += 1;
    }
    assert(tail.deep_view().subrange(0, tail.len() as int) =~= tail.deep_view());
    proof {
        lemma_output_stays_inside(
            input_path.deep_view(),
            input_dir.deep_view(),
            output_dir.deep_view(),
            strip_segments as nat,
            format@,
        );
    }
    r
}

} // verus!
