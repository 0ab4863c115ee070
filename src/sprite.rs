//! Sprite-sheet descriptors: a line-oriented list of cells, each giving the
//! four corners of one animation frame in normalised texture coordinates.
use vstd::prelude::*;
use crate::coord::{decimal_of, parse_decimal, CoordView, UvCoord};
use crate::scan::{chars_of, find_pattern, find_sub, lemma_find_sub_bounds, rfind_in};
use crate::text::{rfind, lemma_rfind_bounds};

verus! {

pub type PointView = (CoordView, CoordView);

pub type CellView = (PointView, PointView, PointView, PointView);

/// One cell of a sprite sheet: its corners as (u, v) pairs.
#[derive(Debug, PartialEq)]
pub struct SpriteCell {
    pub top_left: (UvCoord, UvCoord),
    pub top_right: (UvCoord, UvCoord),
    pub bottom_left: (UvCoord, UvCoord),
    pub bottom_right: (UvCoord, UvCoord),
}

/// The cells of a sprite sheet, in document order, which is playback order.
#[derive(Debug)]
pub struct SpriteSheet {
    pub cells: Vec<SpriteCell>,
}

/// Why a descriptor could not be read.
#[derive(Debug, Clone, Copy, PartialEq, Eq)]
pub enum SpriteError {
    /// The cell record on the line at this index (counted from 0) holds a
    /// corner that is not two comma-separated decimal numbers.
    MalformedCoordinate { line_index: usize },
}

pub open spec fn point_view(p: (UvCoord, UvCoord)) -> PointView {
    (p.0@, p.1@)
}

impl View for SpriteCell {
    type V = CellView;

    open spec fn view(&self) -> CellView {
        (
            point_view(self.top_left),
            point_view(self.top_right),
            point_view(self.bottom_left),
            point_view(self.bottom_right),
        )
    }
}

impl SpriteCell {
    pub open spec fn wf(&self) -> bool {
        &&& self.top_left.0.wf() && self.top_left.1.wf()
        &&& self.top_right.0.wf() && self.top_right.1.wf()
        &&& self.bottom_left.0.wf() && self.bottom_left.1.wf()
        &&& self.bottom_right.0.wf() && self.bottom_right.1.wf()
    }
}

impl SpriteSheet {
    pub open spec fn cells_view(&self) -> Seq<CellView> {
        self.cells@.map_values(|c: SpriteCell| c@)
    }

    pub open spec fn wf(&self) -> bool {
        forall|i: int| 0 <= i < self.cells.len() ==> (#[trigger] self.cells@[i]).wf()
    }
}

/// Two decimal numbers separated by the only comma of `s`.
pub open spec fn pair_of(s: Seq<char>) -> Option<PointView> {
    let k = rfind(s, ',');
    if k >= 0 && rfind(s.take(k), ',') < 0 {
        match (decimal_of(s.take(k)), decimal_of(s.skip(k + 1))) {
            (Some(x), Some(y)) => Some((x, y)),
            _ => None,
        }
    } else {
        None
    }
}

/// The text between the quotes of the first `name="..."` in `line`.
pub open spec fn attribute_value(line: Seq<char>, name: Seq<char>) -> Option<Seq<char>> {
    let pat = name + seq!['=', '"'];
    let p = find_sub(line, pat);
    if p < 0 {
        None
    } else {
        let rest = line.skip(p + pat.len());
        let q = find_sub(rest, seq!['"']);
        if q < 0 {
            None
        } else {
            Some(rest.take(q))
        }
    }
}

/// A corner attribute: `None` when its value is malformed, `Some(None)` when it
/// is absent.
pub open spec fn corner_of(line: Seq<char>, name: Seq<char>) -> Option<Option<PointView>> {
    match attribute_value(line, name) {
        None => Some(None),
        Some(v) => match pair_of(v) {
            None => None,
            Some(p) => Some(Some(p)),
        },
    }
}

pub open spec fn top_left_name() -> Seq<char> {
    seq!['t', 'o', 'p', 'L', 'e', 'f', 't']
}

pub open spec fn top_right_name() -> Seq<char> {
    seq!['t', 'o', 'p', 'R', 'i', 'g', 'h', 't']
}

pub open spec fn bottom_left_name() -> Seq<char> {
    seq!['b', 'o', 't', 't', 'o', 'm', 'L', 'e', 'f', 't']
}

pub open spec fn bottom_right_name() -> Seq<char> {
    seq!['b', 'o', 't', 't', 'o', 'm', 'R', 'i', 'g', 'h', 't']
}

/// The top-left corner: as written, or else taken from the bottom-left's u and
/// the top-right's v when both of those are written.
pub open spec fn resolved_top_left(
    tl: Option<PointView>,
    tr: Option<PointView>,
    bl: Option<PointView>,
) -> Option<PointView> {
    if tl is None && tr is Some && bl is Some {
        Some(((bl->0).0, (tr->0).1))
    } else {
        tl
    }
}

/// The cell of a record line: `None` when a corner is malformed, `Some(None)`
/// when a corner is missing, else the cell.
pub open spec fn cell_of(line: Seq<char>) -> Option<Option<CellView>> {
    let tl = corner_of(line, top_left_name());
    let tr = corner_of(line, top_right_name());
    let bl = corner_of(line, bottom_left_name());
    let br = corner_of(line, bottom_right_name());
    if tl is None || tr is None || bl is None || br is None {
        None
    } else {
        let tl1 = resolved_top_left(tl->0, tr->0, bl->0);
        if tl1 is Some && tr->0 is Some && bl->0 is Some && br->0 is Some {
            Some(Some((tl1->0, tr->0->0, bl->0->0, br->0->0)))
        } else {
            Some(None)
        }
    }
}

/// Reads a decimal pair `x,y` from the range `lo..hi` of `t`.
pub fn parse_coords(t: &Vec<char>, lo: usize, hi: usize) -> (r: Option<(UvCoord, UvCoord)>)
    requires
        lo <= hi <= t.len(),
    ensures
        match r {
            Some(p) => p.0.wf() && p.1.wf() && pair_of(t@.subrange(lo as int, hi as int)) == Some(
                point_view(p),
            ),
            None => pair_of(t@.subrange(lo as int, hi as int)) is None,
        },
{
    let ghost s = t@.subrange(lo as int, hi as int);
    proof {
        lemma_rfind_bounds(s, ',');
    }
    let k = match rfind_in(t, lo, hi, ',') {
        Some(k) => k,
        None => {
            return None;
        },
    };
    assert(s.take(k - lo) =~= t@.subrange(lo as int, k as int));
    assert(s.skip(k - lo + 1) =~= t@.subrange(k + 1, hi as int));
    if rfind_in(t, lo, k, ',').is_some() {
        return None;
    }
    let x = match parse_decimal(t, lo, k) {
        Some(x) => x,
        None => {
            return None;
        },
    };
    let y = match parse_decimal(t, k + 1, hi) {
        Some(y) => y,
        None => {
            return None;
        },
    };
    Some((x, y))
}

/// The range of the value of the first `name="..."` in the range `lo..hi` of `t`.
pub fn extract_attribute(t: &Vec<char>, lo: usize, hi: usize, name: &Vec<char>) -> (r: Option<
    (usize, usize),
>)
    requires
        lo <= hi <= t.len(),
    ensures
        match r {
            Some((a, b)) => lo <= a <= b <= hi && attribute_value(
                t@.subrange(lo as int, hi as int),
                name@,
            ) == Some(t@.subrange(a as int, b as int)),
            None => attribute_value(t@.subrange(lo as int, hi as int), name@) is None,
        },
{
    let ghost s = t@.subrange(lo as int, hi as int);
    let mut pat = name.clone();
    pat.push('=');
    pat.push('"');
    assert(pat@ =~= name@ + seq!['=', '"']);
    proof {
        lemma_find_sub_bounds(s, pat@);
    }
    let p = match find_pattern(t, lo, hi, &pat) {
        Some(p) => p,
        None => {
            return None;
        },
    };
    let ghost rest = s.skip(p - lo + pat.len());
    assert(pat@.is_prefix_of(s.skip(p - lo)));
    let start = p + pat.len();
    assert(rest =~= t@.subrange(start as int, hi as int));
    let quote = vec!['"'];
    assert(quote@ =~= seq!['"']);
    match find_pattern(t, start, hi, &quote) {
        Some(q) => {
            assert(rest.take(q - start) =~= t@.subrange(start as int, q as int));
            Some((start, q))
        },
        None => None,
    }
}

fn parse_corner(t: &Vec<char>, lo: usize, hi: usize, name: &Vec<char>) -> (r: Result<
    Option<(UvCoord, UvCoord)>,
    (),
>)
    requires
        lo <= hi <= t.len(),
    ensures
        match r {
            Err(_) => corner_of(t@.subrange(lo as int, hi as int), name@) is None,
            Ok(None) => corner_of(t@.subrange(lo as int, hi as int), name@) == Some(
                None::<PointView>,
            ),
            Ok(Some(p)) => p.0.wf() && p.1.wf() && corner_of(
                t@.subrange(lo as int, hi as int),
                name@,
            ) == Some(Some(point_view(p))),
        },
{
    match extract_attribute(t, lo, hi, name) {
        None => Ok(None),
        Some((a, b)) => match parse_coords(t, a, b) {
            None => Err(()),
            Some(p) => Ok(Some(p)),
        },
    }
}

/// Reads the cell of one record line, the range `lo..hi` of `t` with its
/// leading whitespace removed; `line` is the line's number, for the error.
pub fn parse_cell_line(t: &Vec<char>, lo: usize, hi: usize, line: usize) -> (r: Result<
    Option<SpriteCell>,
    SpriteError,
>)
    requires
        lo <= hi <= t.len(),
    ensures
        match r {
            Err(e) => cell_of(t@.subrange(lo as int, hi as int)) is None
                && e == SpriteError::MalformedCoordinate { line_index: line },
            Ok(None) => cell_of(t@.subrange(lo as int, hi as int)) == Some(None::<CellView>),
            Ok(Some(c)) => c.wf() && cell_of(t@.subrange(lo as int, hi as int)) == Some(Some(c@)),
        },
{
    let tl_name = vec!['t', 'o', 'p', 'L', 'e', 'f', 't'];
    let tr_name = vec!['t', 'o', 'p', 'R', 'i', 'g', 'h', 't'];
    let bl_name = vec!['b', 'o', 't', 't', 'o', 'm', 'L', 'e', 'f', 't'];
    let br_name = vec!['b', 'o', 't', 't', 'o', 'm', 'R', 'i', 'g', 'h', 't'];
    assert(tl_name@ =~= top_left_name());
    assert(tr_name@ =~= top_right_name());
    assert(bl_name@ =~= bottom_left_name());
    assert(br_name@ =~= bottom_right_name());
    let err = SpriteError::MalformedCoordinate { line_index: line };
    let top_left = match parse_corner(t, lo, hi, &tl_name) {
        Ok(p) => p,
        Err(_) => {
            return Err(err);
        },
    };
    let top_right = match parse_corner(t, lo, hi, &tr_name) {
        Ok(p) => p,
        Err(_) => {
            return Err(err);
        },
    };
    let bottom_left = match parse_corner(t, lo, hi, &bl_name) {
        Ok(p) => p,
        Err(_) => {
            return Err(err);
        },
    };
    let bottom_right = match parse_corner(t, lo, hi, &br_name) {
        Ok(p) => p,
        Err(_) => {
            return Err(err);
        },
    };
    let top_left = match (top_left, &top_right, &bottom_left) {
        (None, Some(tr), Some(bl)) => Some((bl.0.duplicate(), tr.1.duplicate())),
        (tl, _, _) => tl,
    };
    match (top_left, top_right, bottom_left, bottom_right) {
        (Some(tl), Some(tr), Some(bl), Some(br)) => Ok(
            Some(SpriteCell { top_left: tl, top_right: tr, bottom_left: bl, bottom_right: br }),
        ),
        _ => Ok(None),
    }
}

/// The lines of `t`: the pieces between its newlines.
pub open spec fn split_lines(t: Seq<char>) -> Seq<Seq<char>>
    decreases t.len(),
{
    if t.len() == 0 {
        seq![Seq::empty()]
    } else {
        let prev = split_lines(t.drop_last());
        if t.last() == '\n' {
            prev.push(Seq::empty())
        } else {
            prev.update(prev.len() - 1, prev.last().push(t.last()))
        }
    }
}

/// The characters that Unicode counts as white space.
pub open spec fn is_whitespace(c: char) -> bool {
    ||| c == ' ' || c == '\t' || c == '\n' || c == '\r' || c == '\u{b}' || c == '\u{c}'
    ||| c == '\u{85}' || c == '\u{a0}' || c == '\u{1680}'
    ||| ('\u{2000}' <= c && c <= '\u{200a}')
    ||| c == '\u{2028}' || c == '\u{2029}' || c == '\u{202f}' || c == '\u{205f}' || c == '\u{3000}'
}

pub open spec fn leading_whitespace(l: Seq<char>) -> int
    decreases l.len(),
{
    if l.len() > 0 && is_whitespace(l[0]) {
        1 + leading_whitespace(l.drop_first())
    } else {
        0
    }
}

/// The line without its leading white space. (Trailing white space cannot
/// change what is read from a record, so it is left in place.)
pub open spec fn trim_start(l: Seq<char>) -> Seq<char> {
    l.skip(leading_whitespace(l))
}

pub open spec fn cell_marker() -> Seq<char> {
    seq!['<', 'C', 'e', 'l', 'l', ' ']
}

pub open spec fn is_cell_line(l: Seq<char>) -> bool {
    cell_marker().is_prefix_of(trim_start(l))
}

/// What one line contributes: nothing unless it is a cell record.
pub open spec fn line_cell(l: Seq<char>) -> Option<Option<CellView>> {
    if is_cell_line(l) {
        cell_of(trim_start(l))
    } else {
        Some(None)
    }
}

/// The cells of a descriptor's lines, or the index of the first line that
/// holds a malformed corner.
pub open spec fn sheet_of(lines: Seq<Seq<char>>) -> Result<Seq<CellView>, nat>
    decreases lines.len(),
{
    if lines.len() == 0 {
        Ok(Seq::empty())
    } else {
        match sheet_of(lines.drop_last()) {
            Err(e) => Err(e),
            Ok(cells) => match line_cell(lines.last()) {
                None => Err((lines.len() - 1) as nat),
                Some(None) => Ok(cells),
                Some(Some(c)) => Ok(cells.push(c)),
            },
        }
    }
}

pub proof fn lemma_leading_whitespace_bounds(l: Seq<char>)
    ensures
        0 <= leading_whitespace(l) <= l.len(),
    decreases l.len(),
{
    if l.len() > 0 && is_whitespace(l[0]) {
        lemma_leading_whitespace_bounds(l.drop_first());
    }
}

fn is_space(c: char) -> (r: bool)
    ensures
        r == is_whitespace(c),
{
    c == ' ' || c == '\t' || c == '\n' || c == '\r' || c == '\u{b}' || c == '\u{c}'
        || c == '\u{85}' || c == '\u{a0}' || c == '\u{1680}'
        || ('\u{2000}' <= c && c <= '\u{200a}')
        || c == '\u{2028}' || c == '\u{2029}' || c == '\u{202f}' || c == '\u{205f}'
        || c == '\u{3000}'
}

fn skip_whitespace(t: &Vec<char>, lo: usize, hi: usize) -> (r: usize)
    requires
        lo <= hi <= t.len(),
    ensures
        r == lo + leading_whitespace(t@.subrange(lo as int, hi as int)),
        lo <= r <= hi,
{
    let mut i: usize = lo;
    while i < hi
        invariant
            lo <= i <= hi <= t.len(),
            leading_whitespace(t@.subrange(lo as int, hi as int)) == (i - lo) + leading_whitespace(
                t@.subrange(i as int, hi as int),
            ),
        ensures
            lo <= i <= hi,
            leading_whitespace(t@.subrange(lo as int, hi as int)) == i - lo,
        decreases hi - i,
    {
        if !is_space(t[i]) {
            break;
        }
        assert(t@.subrange(i as int, hi as int).drop_first() =~= t@.subrange(i + 1, hi as int));
        i += 1;
    }
    i
}

fn read_line(t: &Vec<char>, lo: usize, hi: usize, line: usize) -> (r: Result<
    Option<SpriteCell>,
    SpriteError,
>)
    requires
        lo <= hi <= t.len(),
    ensures
        match r {
            Err(e) => line_cell(t@.subrange(lo as int, hi as int)) is None
                && e == SpriteError::MalformedCoordinate { line_index: line },
            Ok(None) => line_cell(t@.subrange(lo as int, hi as int)) == Some(None::<CellView>),
            Ok(Some(c)) => c.wf() && line_cell(t@.subrange(lo as int, hi as int)) == Some(
                Some(c@),
            ),
        },
{
    let ghost l = t@.subrange(lo as int, hi as int);
    let start = skip_whitespace(t, lo, hi);
    assert(trim_start(l) =~= t@.subrange(start as int, hi as int));
    let marker = vec!['<', 'C', 'e', 'l', 'l', ' '];
    assert(marker@ =~= cell_marker());
    if !crate::scan::matches_at(t, start, hi, &marker) {
        return Ok(None);
    }
    parse_cell_line(t, start, hi, line)
}

pub proof fn lemma_split_lines_nonempty(t: Seq<char>)
    ensures
        split_lines(t).len() >= 1,
    decreases t.len(),
{
    if t.len() > 0 {
        lemma_split_lines_nonempty(t.drop_last());
    }
}

/// Text that follows a newline starts a fresh run of lines.
pub proof fn lemma_split_append(a: Seq<char>, b: Seq<char>)
    requires
        a.len() > 0,
        a.last() == '\n',
    ensures
        split_lines(a + b) == split_lines(a).drop_last() + split_lines(b),
    decreases b.len(),
{
    assert(a.drop_last() + seq!['\n'] =~= a);
    if b.len() == 0 {
        assert(a + b =~= a);
        assert(split_lines(a) =~= split_lines(a).drop_last() + split_lines(b));
    } else {
        assert((a + b).drop_last() =~= a + b.drop_last());
        assert((a + b).last() == b.last());
        lemma_split_append(a, b.drop_last());
        lemma_split_lines_nonempty(b.drop_last());
        let p = split_lines(a).drop_last();
        let q = split_lines(b.drop_last());
        if b.last() == '\n' {
            assert(split_lines(a + b) =~= p + q.push(Seq::empty()));
        } else {
            assert(split_lines(a + b) =~= p + q.update(q.len() - 1, q.last().push(b.last())));
        }
    }
}

/// Once a line is malformed, the lines after it change nothing.
pub proof fn lemma_sheet_error_stays(first: Seq<Seq<char>>, more: Seq<Seq<char>>)
    requires
        sheet_of(first) is Err,
    ensures
        sheet_of(first + more) == sheet_of(first),
    decreases more.len(),
{
    if more.len() == 0 {
        assert(first + more =~= first);
    } else {
        assert((first + more).drop_last() =~= first + more.drop_last());
        lemma_sheet_error_stays(first, more.drop_last());
    }
}

impl SpriteSheet {
    /// Reads a sprite descriptor. Each line that begins, after white space, with
    /// `<Cell ` is a cell record; a record whose corners are incomplete is
    /// skipped, and one with a malformed corner fails the whole descriptor.
    pub fn from_xml_content(text: &str) -> (r: Result<SpriteSheet, SpriteError>)
        ensures
            match sheet_of(split_lines(text@)) {
                Ok(cells) => r is Ok && r->Ok_0.cells_view() == cells && r->Ok_0.wf(),
                Err(line) => r == Err::<SpriteSheet, SpriteError>(
                    SpriteError::MalformedCoordinate { line_index: line as usize },
                ),
            },
    {
        let t = chars_of(text);
        let n = t.len();
        let mut cells: Vec<SpriteCell> = Vec::new();
        let ghost mut done: Seq<Seq<char>> = Seq::empty();
        let mut line: usize = 0;
        let mut start: usize = 0;
        let mut i: usize = 0;
        assert(t@.take(0) =~= Seq::<char>::empty());
        assert(cells@.map_values(|c: SpriteCell| c@) =~= Seq::<CellView>::empty());
        assert(split_lines(Seq::<char>::empty()) =~= done.push(t@.subrange(0, 0)));
        while i < n
            invariant
                n == t.len(),
                t@ == text@,
                start <= i <= n,
                line == done.len(),
                line <= i,
                split_lines(t@.take(i as int)) == done.push(t@.subrange(start as int, i as int)),
                sheet_of(done) == Ok::<Seq<CellView>, nat>(cells@.map_values(|c: SpriteCell| c@)),
                forall|k: int| 0 <= k < cells.len() ==> (#[trigger] cells@[k]).wf(),
            decreases n - i,
        {
            let ghost cur = t@.subrange(start as int, i as int);
            assert(t@.take(i + 1).drop_last() =~= t@.take(i as int));
            assert(t@.take(i + 1).last() == t@[i as int]);
            if t[i] == '\n' {
                let ghost before = cells@.map_values(|c: SpriteCell| c@);
                match read_line(&t, start, i, line) {
                    Err(e) => {
                        assert(sheet_of(done.push(cur)) == Err::<Seq<CellView>, nat>(
                            done.len(),
                        )) by {
                            assert(done.push(cur).drop_last() =~= done);
                        }
                        proof {
                            let rest = t@.subrange(i + 1, n as int);
                            assert(t@ =~= t@.take(i + 1) + rest);
                            lemma_split_append(t@.take(i + 1), rest);
                            assert(split_lines(t@.take(i + 1)).drop_last() =~= done.push(cur));
                            assert(split_lines(t@.take(i + 1)) =~= done.push(cur).push(Seq::empty()));
                            lemma_sheet_error_stays(done.push(cur), split_lines(rest));
                            assert(split_lines(t@) == done.push(cur) + split_lines(rest));
                            assert(sheet_of(split_lines(text@)) == Err::<Seq<CellView>, nat>(
                                done.len(),
                            ));
                        }
                        return Err(e);
                    },
                    Ok(None) => {
                        assert(done.push(cur).drop_last() =~= done);
                    },
                    Ok(Some(c)) => {
                        cells.push(c);
                        assert(done.push(cur).drop_last() =~= done);
                        assert(cells@.map_values(|c: SpriteCell| c@) =~= before.push(c@));
                    },
                }
                proof {
                    done = done.push(cur);
                }
                line = line + 1;
                start = i + 1;
                assert(t@.subrange(start as int, i + 1) =~= Seq::<char>::empty());
            } else {
                assert(t@.subrange(start as int, i + 1) =~= cur.push(t@[i as int]));
            }
            i += 1;
        }
        assert(t@.take(n as int) =~= t@);
        let ghost cur = t@.subrange(start as int, n as int);
        let ghost before = cells@.map_values(|c: SpriteCell| c@);
        assert(done.push(cur).drop_last() =~= done);
        match read_line(&t, start, n, line) {
            Err(e) => {
                return Err(e);
            },
            Ok(None) => {},
            Ok(Some(c)) => {
                cells.push(c);
                assert(cells@.map_values(|c: SpriteCell| c@) =~= before.push(c@));
            },
        }
        Ok(SpriteSheet { cells })
    }
}

} // verus!
