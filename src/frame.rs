//! RGBA pixel buffers, and cutting sprite-sheet cells out of a texture.
use vstd::prelude::*;
use crate::coord::coord_pixel;
use crate::sprite::{CellView, SpriteSheet};

verus! {

/// A rectangular RGBA image: four bytes per pixel, rows top to bottom.
#[derive(Debug, Clone, PartialEq, Eq)]
pub struct Frame {
    pub width: u32,
    pub height: u32,
    pub data: Vec<u8>,
}

impl Frame {
    pub open spec fn wf(&self) -> bool {
        self.data.len() == 4 * (self.width as nat) * (self.height as nat)
    }

    /// Byte `k` of the pixel at column `x`, row `y`.
    pub open spec fn byte_at(&self, x: int, y: int, k: int) -> u8 {
        self.data@[4 * (y * self.width + x) + k]
    }
}

/// The pixel rectangle of a cell on a texture: its left and top edges, width
/// and height. Only the top-left and bottom-right corners count.
pub open spec fn cell_rect(c: CellView, tw: nat, th: nat) -> (nat, nat, nat, nat) {
    let x1 = coord_pixel(c.0.0, tw);
    let y1 = coord_pixel(c.0.1, th);
    let x2 = coord_pixel(c.3.0, tw);
    let y2 = coord_pixel(c.3.1, th);
    (x1, y1, if x2 > x1 { (x2 - x1) as nat } else { 0 }, if y2 > y1 { (y2 - y1) as nat } else { 0 })
}

/// A rectangle that yields a frame: it has area, and its buffer can be addressed.
pub open spec fn is_drawable(r: (nat, nat, nat, nat)) -> bool {
    r.2 > 0 && r.3 > 0 && 4 * r.2 * r.3 <= usize::MAX
}

/// The rectangles of the cells that yield frames, in cell order.
pub open spec fn drawn_rects(cells: Seq<CellView>, tw: nat, th: nat) -> Seq<(nat, nat, nat, nat)> {
    cells.map_values(|c: CellView| cell_rect(c, tw, th)).filter(|r: (nat, nat, nat, nat)| is_drawable(r))
}

/// Byte `k` of texture pixel (`x`, `y`), or 0 outside the texture.
pub open spec fn source_byte(tex: Frame, x: nat, y: nat, k: int) -> u8 {
    if x < tex.width && y < tex.height {
        tex.byte_at(x as int, y as int, k)
    } else {
        0
    }
}

/// `f` is the part of `tex` under `r`, with what lies outside the texture left
/// transparent black.
pub open spec fn is_cut_of(f: Frame, tex: Frame, r: (nat, nat, nat, nat)) -> bool {
    &&& f.width == r.2 && f.height == r.3 && f.wf()
    &&& forall|x: int, y: int, k: int|
        0 <= x < r.2 && 0 <= y < r.3 && 0 <= k < 4 ==> #[trigger] f.byte_at(x, y, k) == source_byte(
            tex,
            (r.0 + x) as nat,
            (r.1 + y) as nat,
            k,
        )
}

/// `cut` holds, in cell order, the frames that `cells` cut out of `tex`.
pub open spec fn is_extraction(cut: Seq<Frame>, cells: Seq<CellView>, tex: Frame) -> bool {
    let rects = drawn_rects(cells, tex.width as nat, tex.height as nat);
    &&& cut.len() == rects.len()
    &&& forall|j: int| 0 <= j < cut.len() ==> is_cut_of(#[trigger] cut[j], tex, rects[j])
}

proof fn lemma_index_in_bounds(x: int, y: int, w: int, h: int, k: int)
    requires
        0 <= x < w,
        0 <= y < h,
        0 <= k < 4,
    ensures
        0 <= 4 * (y * w + x) + k < 4 * w * h,
        4 * (y * w + x) + k < 4 * (y * w + x + 1),
{
    assert(y * w + x < w * h) by (nonlinear_arith)
        requires
            0 <= x < w,
            0 <= y < h,
    ;
    assert(y * w >= 0) by (nonlinear_arith)
        requires
            0 <= y,
            0 <= x < w,
    ;
    assert(4 * (w * h) == 4 * w * h) by (nonlinear_arith);
}

proof fn lemma_earlier_pixel(xx: int, yy: int, x: int, y: int, w: int)
    requires
        0 <= xx < w,
        0 <= yy,
        0 <= x,
        yy < y || (yy == y && xx < x),
    ensures
        yy * w + xx < y * w + x,
{
    if yy < y {
        assert(yy * w + w <= y * w) by (nonlinear_arith)
            requires
                yy < y,
                w >= 0,
        ;
    }
}

/// Cuts rectangle `r` out of `tex`.
fn cut(tex: &Frame, x1: u32, y1: u32, w: u32, h: u32) -> (f: Frame)
    requires
        tex.wf(),
        is_drawable((x1 as nat, y1 as nat, w as nat, h as nat)),
    ensures
        is_cut_of(f, *tex, (x1 as nat, y1 as nat, w as nat, h as nat)),
{
    let ghost r = (x1 as nat, y1 as nat, w as nat, h as nat);
    let tw = tex.width;
    let th = tex.height;
    let mut data: Vec<u8> = Vec::new();
    let mut y: u32 = 0;
    while y < h
        invariant
            tex.wf(),
            tw == tex.width,
            th == tex.height,
            is_drawable(r),
            r == (x1 as nat, y1 as nat, w as nat, h as nat),
            y <= h,
            data.len() == 4 * (y * w),
            forall|xx: int, yy: int, k: int|
                0 <= xx < w && 0 <= yy < y && 0 <= k < 4 ==> #[trigger] data@[4 * (yy * w + xx) + k]
                    == source_byte(*tex, (x1 + xx) as nat, (y1 + yy) as nat, k),
        decreases h - y,
    {
        let mut x: u32 = 0;
        while x < w
            invariant
                tex.wf(),
                tw == tex.width,
                th == tex.height,
                is_drawable(r),
                r == (x1 as nat, y1 as nat, w as nat, h as nat),
                y < h,
                x <= w,
                data.len() == 4 * (y * w + x),
                forall|xx: int, yy: int, k: int|
                    0 <= xx < w && 0 <= k < 4 && (0 <= yy < y || (yy == y && xx < x))
                        ==> #[trigger] data@[4 * (yy * w + xx) + k] == source_byte(
                        *tex,
                        (x1 + xx) as nat,
                        (y1 + yy) as nat,
                        k,
                    ),
            decreases w - x,
        {
            proof {
                lemma_index_in_bounds(x as int, y as int, w as int, h as int, 0);
                assert(4 * (w as int) * (h as int) <= usize::MAX);
            }
            let ghost old_data = data@;
            let sx = x1 as u64 + x as u64;
            let sy = y1 as u64 + y as u64;
            if sx < tw as u64 && sy < th as u64 {
                proof {
                    lemma_index_in_bounds(sx as int, sy as int, tw as int, th as int, 3);
                }
                let base = 4 * ((sy as usize) * (tw as usize) + (sx as usize));
                data.push(tex.data[base]);
                data.push(tex.data[base + 1]);
                data.push(tex.data[base + 2]);
                data.push(tex.data[base + 3]);
            } else {
                data.push(0);
                data.push(0);
                data.push(0);
                data.push(0);
            }
            proof {
                let n0 = 4 * (y * w + x);
                assert(n0 == old_data.len());
                assert forall|xx: int, yy: int, k: int|
                    0 <= xx < w && 0 <= k < 4 && (0 <= yy < y || (yy == y && xx < x + 1))
                        implies #[trigger] data@[4 * (yy * w + xx) + k] == source_byte(
                        *tex,
                        (x1 + xx) as nat,
                        (y1 + yy) as nat,
                        k,
                    ) by {
                    if yy == y && xx == x {
                        assert(4 * (yy * w + xx) + k == n0 + k);
                    } else {
                        lemma_earlier_pixel(xx, yy, x as int, y as int, w as int);
                        lemma_index_in_bounds(xx, yy, w as int, y as int + 1, k);
                        assert(4 * (yy * w + xx) + k < n0) by (nonlinear_arith)
                            requires
                                yy * w + xx < y * w + x,
                                0 <= k < 4,
                                n0 == 4 * (y * w + x),
                        ;
                    }
                }
            }
            x += 1;
        }
        proof {
            assert((y + 1) * w == y * w + w) by (nonlinear_arith);
        }
        y += 1;
    }
    proof {
        assert(4 * (h * w) == 4 * (w as nat) * (h as nat)) by (nonlinear_arith);
    }
    let f = Frame { width: w, height: h, data };
    assert forall|xx: int, yy: int, k: int|
        0 <= xx < w && 0 <= yy < h && 0 <= k < 4 implies #[trigger] f.byte_at(xx, yy, k) == source_byte(
        *tex,
        (x1 + xx) as nat,
        (y1 + yy) as nat,
        k,
    ) by {
        assert(f.byte_at(xx, yy, k) == data@[4 * (yy * w + xx) + k]);
    }
    f
}

impl SpriteSheet {
    /// Cuts the frame of each cell out of `texture`, in cell order. A cell
    /// whose rectangle has no area, or too many pixels to address, gives no frame.
    pub fn extract_frames(&self, texture: &Frame) -> (r: Vec<Frame>)
        requires
            self.wf(),
            texture.wf(),
        ensures
            r.len() == drawn_rects(self.cells_view(), texture.width as nat, texture.height as nat).len(),
            forall|j: int|
                0 <= j < r.len() ==> is_cut_of(
                    #[trigger] r@[j],
                    *texture,
                    drawn_rects(self.cells_view(), texture.width as nat, texture.height as nat)[j],
                ),
    {
        let tw = texture.width;
        let th = texture.height;
        let ghost cv = self.cells_view();
        let ghost rect_of = |c: CellView| cell_rect(c, tw as nat, th as nat);
        let ghost keep = |q: (nat, nat, nat, nat)| is_drawable(q);
        let mut frames: Vec<Frame> = Vec::new();
        let mut i: usize = 0;
        assert(cv.take(0).map_values(rect_of).filter(keep) =~= Seq::<(nat, nat, nat, nat)>::empty()) by {
            assert(cv.take(0).map_values(rect_of) =~= Seq::<(nat, nat, nat, nat)>::empty());
        }
        while i < self.cells.len()
            invariant
                self.wf(),
                texture.wf(),
                tw == texture.width,
                th == texture.height,
                cv == self.cells_view(),
                rect_of == (|c: CellView| cell_rect(c, tw as nat, th as nat)),
                keep == (|q: (nat, nat, nat, nat)| is_drawable(q)),
                i <= self.cells.len(),
                frames.len() == cv.take(i as int).map_values(rect_of).filter(keep).len(),
                forall|j: int|
                    0 <= j < frames.len() ==> is_cut_of(
                        #[trigger] frames@[j],
                        *texture,
                        cv.take(i as int).map_values(rect_of).filter(keep)[j],
                    ),
            decreases self.cells.len() - i,
        {
            let cell = &self.cells[i];
            assert(cell.wf());
            let x1 = cell.top_left.0.to_pixel(tw);
            let y1 = cell.top_left.1.to_pixel(th);
            let x2 = cell.bottom_right.0.to_pixel(tw);
            let y2 = cell.bottom_right.1.to_pixel(th);
            let w: u32 = if x2 > x1 { x2 - x1 } else { 0 };
            let h: u32 = if y2 > y1 { y2 - y1 } else { 0 };
            let ghost q = (x1 as nat, y1 as nat, w as nat, h as nat);
            proof {
                assert(cv[i as int] == cell@);
                assert(rect_of(cv[i as int]) == q);
                let prev = cv.take(i as int).map_values(rect_of);
                assert(cv.take(i + 1).map_values(rect_of) =~= prev.push(q));
                prev.lemma_filter_push(q, keep);
            }
            let ghost before = frames@;
            proof {
                assert((w as nat) * (h as nat) <= 0xFFFF_FFFFnat * 0xFFFF_FFFFnat) by (nonlinear_arith)
                    requires
                        w <= 0xFFFF_FFFFnat,
                        h <= 0xFFFF_FFFFnat,
                ;
            }
            if w > 0 && h > 0 && (w as u128) * (h as u128) * 4 <= usize::MAX as u128 {
                proof {
                    assert(4 * (w as nat) * (h as nat) == (w as u128) * (h as u128) * 4) by (nonlinear_arith);
                }
                let f = cut(texture, x1, y1, w, h);
                frames.push(f);
                assert(frames@ =~= before.push(f));
            } else {
                proof {
                    if w > 0 && h > 0 {
                        assert(4 * (w as nat) * (h as nat) == (w as u128) * (h as u128) * 4) by (nonlinear_arith);
                    }
                }
            }
            i += 1;
        }
        assert(cv.take(self.cells.len() as int) =~= cv);
        frames
    }
}

/// A pixel that is nearly transparent, or nearly black.
pub open spec fn is_blank_pixel(r: u8, g: u8, b: u8, a: u8) -> bool {
    a < 10 || (r < 10 && g < 10 && b < 10)
}

/// How many of the first `n` pixels of `data` are blank.
pub open spec fn blank_count(data: Seq<u8>, n: nat) -> nat
    decreases n,
{
    if n == 0 {
        0
    } else {
        let p = 4 * (n - 1);
        blank_count(data, (n - 1) as nat) + if is_blank_pixel(data[p], data[p + 1], data[p + 2], data[p + 3]) {
            1nat
        } else {
            0nat
        }
    }
}

/// More than 95% of the frame's pixels are blank.
pub open spec fn mostly_blank(f: Frame) -> bool {
    let n = (f.width as nat) * (f.height as nat);
    20 * blank_count(f.data@, n) > 19 * n
}

proof fn lemma_blank_count_bound(data: Seq<u8>, n: nat)
    ensures
        blank_count(data, n) <= n,
    decreases n,
{
    if n > 0 {
        lemma_blank_count_bound(data, (n - 1) as nat);
    }
}

/// Whether more than 95% of the frame's pixels are nearly black or nearly
/// transparent (a channel below 10).
pub fn is_frame_mostly_black(frame: &Frame) -> (r: bool)
    requires
        frame.wf(),
    ensures
        r == mostly_blank(*frame),
{
    proof {
        assert((frame.width as nat) * (frame.height as nat) <= 0xFFFF_FFFFnat * 0xFFFF_FFFFnat) by (nonlinear_arith)
            requires
                frame.width <= 0xFFFF_FFFFnat,
                frame.height <= 0xFFFF_FFFFnat,
        ;
    }
    let n: u64 = (frame.width as u64) * (frame.height as u64);
    let mut count: u64 = 0;
    let mut p: u64 = 0;
    proof {
        assert(4 * (frame.width as nat) * (frame.height as nat) == 4 * (n as nat)) by (nonlinear_arith)
            requires
                n == (frame.width as nat) * (frame.height as nat),
        ;
    }
    while p < n
        invariant
            frame.wf(),
            n == (frame.width as nat) * (frame.height as nat),
            frame.data.len() == 4 * n,
            p <= n,
            count == blank_count(frame.data@, p as nat),
            count <= p,
        decreases n - p,
    {
        let i = (4 * p) as usize;
        let r = frame.data[i];
        let g = frame.data[i + 1];
        let b = frame.data[i + 2];
        let a = frame.data[i + 3];
        if a < 10 || (r < 10 && g < 10 && b < 10) {
            count = count + 1;
        }
        p = p + 1;
    }
    20 * (count as u128) > 19 * (n as u128)
}

/// Number of frames at which the trailing-blank rule applies.
pub const TRAILING_RULE_FRAMES: usize = 24;

/// Drops the last frame when there are exactly 24 and the last is mostly blank:
/// a known artifact of the sprite sheets this tool reads.
pub fn drop_trailing_blank(frames: &mut Vec<Frame>)
    requires
        forall|j: int| 0 <= j < old(frames).len() ==> (#[trigger] old(frames)@[j]).wf(),
    ensures
        if old(frames).len() == 24 && mostly_blank(old(frames)@[23]) {
            final(frames)@ == old(frames)@.drop_last()
        } else {
            final(frames)@ == old(frames)@
        },
{
    if frames.len() == TRAILING_RULE_FRAMES && is_frame_mostly_black(&frames[TRAILING_RULE_FRAMES - 1]) {
        frames.pop();
    }
}

} // verus!
