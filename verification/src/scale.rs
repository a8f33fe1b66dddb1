//! Fitting a picture into a window: nearest-neighbour sampling through precomputed tables, black
//! bars around what keeps the aspect ratio.

use vstd::prelude::*;

use crate::picture::Picture;

verus! {

/// The side that is drawn: what the scale asks for, at least one pixel and at most the window.
pub open spec fn drawn_side(fit: int, dst: int) -> int {
    let wanted = if fit < 1 {
        1
    } else {
        fit
    };
    if wanted < dst {
        wanted
    } else {
        dst
    }
}

/// The source position that is shown at position `k` of `out`.
pub open spec fn sample(k: int, src: int, out: int) -> int {
    k * src / out
}

/// The source positions of a drawn side.
pub open spec fn samples(src: int, out: int) -> Seq<u32> {
    Seq::new(out as nat, |k: int| sample(k, src, out) as u32)
}

/// How a picture of one size is drawn in a window of another.
pub struct ScaleLut {
    pub src_w: u32,
    pub src_h: u32,
    pub dst_w: u32,
    pub dst_h: u32,
    pub off_x: usize,
    pub off_y: usize,
    pub out_w: usize,
    pub out_h: usize,
    pub x_lut: Vec<u32>,
    pub y_lut: Vec<u32>,
}

proof fn lemma_sample(k: int, src: int, out: int)
    requires
        0 <= k < out,
        0 <= src,
    ensures
        0 <= sample(k, src, out),
        src > 0 ==> sample(k, src, out) < src,
        src == 0 ==> sample(k, src, out) == 0,
{
    assert(0 <= k * src) by (nonlinear_arith)
        requires
            0 <= k,
            0 <= src,
    ;
    vstd::arithmetic::div_mod::lemma_fundamental_div_mod(k * src, out);
    let q = k * src / out;
    let r = k * src % out;
    assert(0 <= q && (src > 0 ==> q < src) && (src == 0 ==> q == 0)) by (nonlinear_arith)
        requires
            k * src == out * q + r,
            0 <= r < out,
            0 <= k < out,
            0 <= src,
    ;
}

/// The table of a drawn side.
fn build_axis(src: u32, out: usize) -> (lut: Vec<u32>)
    requires
        out <= u32::MAX,
    ensures
        lut@ == samples(src as int, out as int),
{
    let mut lut: Vec<u32> = Vec::new();
    let mut k: usize = 0;
    while k < out
        invariant
            k <= out,
            out <= u32::MAX,
            lut@.len() == k,
            forall|i: int| 0 <= i < k ==> lut@[i] == #[trigger] samples(src as int, out as int)[i],
        decreases out - k,
    {
        proof {
            lemma_sample(k as int, src as int, out as int);
            assert(k * src <= 0xffff_ffff * 0xffff_ffff) by (nonlinear_arith)
                requires
                    0 <= k <= 0xffff_ffff,
                    0 <= src <= 0xffff_ffff,
            ;
        }
        let s: u64 = (k as u64) * (src as u64) / (out as u64);
        lut.push(s as u32);
        k = k + 1;
    }
    assert(lut@ =~= samples(src as int, out as int));
    lut
}

impl ScaleLut {
    /// The tables belong to the sides.
    pub open spec fn wf(&self) -> bool {
        &&& self.out_w <= self.dst_w
        &&& self.out_h <= self.dst_h
        &&& self.off_x == (self.dst_w - self.out_w) / 2
        &&& self.off_y == (self.dst_h - self.out_h) / 2
        &&& self.x_lut@ == samples(self.src_w as int, self.out_w as int)
        &&& self.y_lut@ == samples(self.src_h as int, self.out_h as int)
    }

    /// Whether the tables are for a picture and a window of these sizes.
    pub open spec fn is_for(&self, src_w: u32, src_h: u32, dst_w: u32, dst_h: u32) -> bool {
        &&& self.src_w == src_w
        &&& self.src_h == src_h
        &&& self.dst_w == dst_w
        &&& self.dst_h == dst_h
    }

    /// Builds the tables for a picture that is to be drawn `fit_w` by `fit_h`, centred.
    pub fn build(
        src_w: u32,
        src_h: u32,
        dst_w: u32,
        dst_h: u32,
        fit_w: usize,
        fit_h: usize,
    ) -> (lut: ScaleLut)
        ensures
            lut.wf(),
            lut.is_for(src_w, src_h, dst_w, dst_h),
            lut.src_w == src_w && lut.src_h == src_h && lut.dst_w == dst_w && lut.dst_h == dst_h,
            lut.out_w == drawn_side(fit_w as int, dst_w as int),
            lut.out_h == drawn_side(fit_h as int, dst_h as int),
    {
        let out_w: usize = drawn(fit_w, dst_w);
        let out_h: usize = drawn(fit_h, dst_h);
        let off_x: usize = (dst_w as usize - out_w) / 2;
        let off_y: usize = (dst_h as usize - out_h) / 2;
        let x_lut = build_axis(src_w, out_w);
        let y_lut = build_axis(src_h, out_h);
        ScaleLut { src_w, src_h, dst_w, dst_h, off_x, off_y, out_w, out_h, x_lut, y_lut }
    }
}

fn drawn(fit: usize, dst: u32) -> (res: usize)
    ensures
        res == drawn_side(fit as int, dst as int),
{
    let wanted: usize = if fit < 1 {
        1
    } else {
        fit
    };
    if wanted < dst as usize {
        wanted
    } else {
        dst as usize
    }
}

/// The pixel that a window of `lut`'s size shows in row `row` and column `col`: black outside
/// the drawn rectangle, a pixel of the picture inside it.
pub open spec fn shown_pixel(lut: ScaleLut, pixels: Seq<u32>, row: int, col: int) -> u32 {
    if lut.off_y <= row < lut.off_y + lut.out_h && lut.off_x <= col < lut.off_x + lut.out_w {
        pixels[lut.y_lut@[row - lut.off_y] * lut.src_w + lut.x_lut@[col - lut.off_x]]
    } else {
        0
    }
}

/// The contents of a window that shows `pixels` through `lut`, row by row.
pub open spec fn scaled(lut: ScaleLut, pixels: Seq<u32>) -> Seq<u32> {
    Seq::new(
        (lut.dst_w * lut.dst_h) as nat,
        |d: int| shown_pixel(lut, pixels, d / lut.dst_w as int, d % lut.dst_w as int),
    )
}

/// A black window.
pub open spec fn black(len: nat) -> Seq<u32> {
    Seq::new(len, |d: int| 0u32)
}

fn fill_black(buf: &mut [u32])
    ensures
        final(buf)@ == black(old(buf)@.len()),
{
    let n: usize = buf.len();
    let mut d: usize = 0;
    while d < n
        invariant
            d <= n,
            n == buf@.len(),
            buf@.len() == old(buf)@.len(),
            forall|i: int| 0 <= i < d ==> buf@[i] == 0,
        decreases n - d,
    {
        buf[d] = 0;
        d = d + 1;
    }
    assert(buf@ =~= black(old(buf)@.len()));
}

fn copy_pixels(buf: &mut [u32], pixels: &[u32])
    requires
        old(buf)@.len() == pixels@.len(),
    ensures
        final(buf)@ == pixels@,
{
    let n: usize = buf.len();
    let mut d: usize = 0;
    while d < n
        invariant
            d <= n,
            n == buf@.len(),
            n == pixels@.len(),
            forall|i: int| 0 <= i < d ==> buf@[i] == pixels@[i],
        decreases n - d,
    {
        buf[d] = pixels[d];
        d = d + 1;
    }
    assert(buf@ =~= pixels@);
}

/// Row and column of a cell.
proof fn lemma_cell(row: int, col: int, width: int, height: int)
    requires
        0 <= row < height,
        0 <= col < width,
    ensures
        (row * width + col) / width == row,
        (row * width + col) % width == col,
        0 <= row * width + col < width * height,
{
    vstd::arithmetic::div_mod::lemma_fundamental_div_mod_converse(
        row * width + col,
        width,
        row,
        col,
    );
    assert(0 <= row * width + col < width * height) by (nonlinear_arith)
        requires
            0 <= row <= height - 1,
            0 <= col < width,
    ;
}

/// Whether cell `d` comes before column `col` of row `row`.
spec fn before(d: int, width: int, row: int, col: int) -> bool {
    d / width < row || (d / width == row && d % width < col)
}

/// The cells of `target` before column `col` of row `row`, and black from there on.
spec fn drawn_up_to(target: Seq<u32>, width: int, row: int, col: int) -> Seq<u32> {
    Seq::new(
        target.len(),
        |d: int|
            if before(d, width, row, col) {
                target[d]
            } else {
                0
            },
    )
}

/// Drawing one cell more.
proof fn lemma_draw_cell(target: Seq<u32>, width: int, height: int, row: int, col: int)
    requires
        0 <= row < height,
        0 <= col < width,
        target.len() == width * height,
    ensures
        0 <= row * width + col < target.len(),
        drawn_up_to(target, width, row, col).update(
            row * width + col,
            target[row * width + col],
        ) == drawn_up_to(target, width, row, col + 1),
{
    let here = row * width + col;
    lemma_cell(row, col, width, height);
    let now = drawn_up_to(target, width, row, col).update(here, target[here]);
    let next = drawn_up_to(target, width, row, col + 1);
    assert forall|d: int| 0 <= d < target.len() implies now[d] == next[d] by {
        vstd::arithmetic::div_mod::lemma_fundamental_div_mod(d, width);
        vstd::arithmetic::div_mod::lemma_fundamental_div_mod(here, width);
        if d / width == row && d % width == col {
            assert(d == here);
        }
    }
    assert(now =~= next);
}

/// Draws `pixels` through `lut`.
fn draw_scaled(lut: &ScaleLut, pixels: &[u32], buf: &mut [u32])
    requires
        lut.wf(),
        lut.src_w > 0,
        lut.src_h > 0,
        lut.dst_w > 0,
        lut.dst_h > 0,
        pixels@.len() == lut.src_w * lut.src_h,
        old(buf)@.len() == lut.dst_w * lut.dst_h,
    ensures
        final(buf)@ == scaled(*lut, pixels@),
{
    fill_black(buf);
    let cells: usize = buf.len();
    let sources: usize = pixels.len();
    let dst_w: usize = lut.dst_w as usize;
    let src_w: usize = lut.src_w as usize;
    let ghost target = scaled(*lut, pixels@);
    let ghost width = lut.dst_w as int;
    let mut y: usize = 0;
    assert(buf@ =~= drawn_up_to(target, width, lut.off_y as int, 0));
    while y < lut.out_h
        invariant
            y <= lut.out_h,
            lut.wf(),
            lut.src_w > 0,
            lut.src_h > 0,
            lut.dst_w > 0,
            dst_w == lut.dst_w,
            src_w == lut.src_w,
            width == lut.dst_w,
            sources == pixels@.len(),
            pixels@.len() == lut.src_w * lut.src_h,
            cells == buf@.len(),
            cells == lut.dst_w * lut.dst_h,
            target == scaled(*lut, pixels@),
            buf@ == drawn_up_to(target, width, lut.off_y + y, 0),
        decreases lut.out_h - y,
    {
        let ghost row = lut.off_y + y;
        proof {
            lemma_sample(y as int, lut.src_h as int, lut.out_h as int);
            lemma_cell(row, 0, width, lut.dst_h as int);
            lemma_cell(lut.y_lut@[y as int] as int, 0, lut.src_w as int, lut.src_h as int);
        }
        let sy: usize = lut.y_lut[y] as usize;
        let src_row: usize = sy * src_w;
        let row_start: usize = (lut.off_y + y) * dst_w;
        proof {
            if lut.out_w > 0 {
                lemma_cell(row, lut.off_x as int, width, lut.dst_h as int);
            }
        }
        let mut x: usize = 0;
        assert(buf@ =~= drawn_up_to(target, width, row, lut.off_x as int)) by {
            assert forall|d: int| 0 <= d < cells implies buf@[d] == #[trigger] drawn_up_to(
                target,
                width,
                row,
                lut.off_x as int,
            )[d] by {
                if before(d, width, row, lut.off_x as int) && !before(d, width, row, 0) {
                    assert(target[d] == 0);
                }
            }
        }
        while x < lut.out_w
            invariant
                x <= lut.out_w,
                y < lut.out_h,
                lut.wf(),
                lut.src_w > 0,
                lut.src_h > 0,
                lut.dst_w > 0,
                width == lut.dst_w,
                sources == pixels@.len(),
                pixels@.len() == lut.src_w * lut.src_h,
                cells == buf@.len(),
                cells == lut.dst_w * lut.dst_h,
                target == scaled(*lut, pixels@),
                row == lut.off_y + y,
                sy == lut.y_lut@[y as int],
                sy < lut.src_h,
                src_row == sy * lut.src_w,
                row_start == row * width,
                buf@ == drawn_up_to(target, width, row, lut.off_x + x),
            decreases lut.out_w - x,
        {
            proof {
                lemma_sample(x as int, lut.src_w as int, lut.out_w as int);
                lemma_cell(row, lut.off_x + x, width, lut.dst_h as int);
                lemma_cell(
                    sy as int,
                    lut.x_lut@[x as int] as int,
                    lut.src_w as int,
                    lut.src_h as int,
                );
                lemma_draw_cell(target, width, lut.dst_h as int, row, lut.off_x + x);
            }
            let sx: usize = lut.x_lut[x] as usize;
            buf[row_start + lut.off_x + x] = pixels[src_row + sx];
            x = x + 1;
        }
        assert(buf@ =~= drawn_up_to(target, width, row + 1, 0)) by {
            assert forall|d: int| 0 <= d < cells implies buf@[d] == #[trigger] drawn_up_to(
                target,
                width,
                row + 1,
                0,
            )[d] by {
                if before(d, width, row + 1, 0) && !before(d, width, row, lut.off_x + x) {
                    assert(target[d] == 0);
                }
                assert(0 <= d % width) by {
                    vstd::arithmetic::div_mod::lemma_fundamental_div_mod(d, width);
                }
            }
        }
        y = y + 1;
    }
    assert(buf@ =~= target);
}

/// Whether there is nothing to show of a picture.
pub open spec fn is_blank(pic: Picture) -> bool {
    pic.pixels@.len() == 0 || pic.w == 0 || pic.h == 0
}

/// What a window keeps from one draw to the next.
pub struct Screen {
    /// The tables of the last scaled draw.
    pub scale_lut: Option<ScaleLut>,
}

impl Screen {
    pub open spec fn wf(&self) -> bool {
        self.scale_lut matches Some(lut) ==> lut.wf()
    }

    pub fn new() -> (res: Screen)
        ensures
            res.wf(),
            res.scale_lut is None,
    {
        Screen { scale_lut: None }
    }

    /// Forgets the tables, as after a resize.
    pub fn invalidate(&mut self)
        ensures
            final(self).wf(),
            final(self).scale_lut is None,
    {
        self.scale_lut = None;
    }

    /// Draws `pic` into `buf`, a window of `dst_w` by `dst_h` pixels: nothing when a side of the
    /// window is zero, black when there is no picture, pixel for pixel when the sizes agree, and
    /// otherwise through tables for a drawing of `fit_w` by `fit_h`, which are kept as long as
    /// they serve.
    pub fn present(
        &mut self,
        pic: &Picture,
        dst_w: u32,
        dst_h: u32,
        fit_w: usize,
        fit_h: usize,
        buf: &mut [u32],
    )
        requires
            old(self).wf(),
            pic.wf(),
            dst_w > 0 && dst_h > 0 ==> old(buf)@.len() == dst_w * dst_h,
        ensures
            final(self).wf(),
            dst_w == 0 || dst_h == 0 ==> {
                &&& final(buf)@ == old(buf)@
                &&& *final(self) == *old(self)
            },
            dst_w > 0 && dst_h > 0 && is_blank(*pic) ==> {
                &&& final(buf)@ == black((dst_w * dst_h) as nat)
                &&& *final(self) == *old(self)
            },
            dst_w > 0 && dst_h > 0 && !is_blank(*pic) && pic.w == dst_w && pic.h == dst_h ==> {
                &&& final(buf)@ == pic.pixels@
                &&& *final(self) == *old(self)
            },
            dst_w > 0 && dst_h > 0 && !is_blank(*pic) && (pic.w != dst_w || pic.h != dst_h) ==> {
                &&& final(self).scale_lut matches Some(lut)
                &&& lut.is_for(pic.w, pic.h, dst_w, dst_h)
                &&& lut.src_w == pic.w && lut.src_h == pic.h
                &&& lut.dst_w == dst_w && lut.dst_h == dst_h
                &&& lut.out_w == drawn_side(fit_w as int, dst_w as int)
                &&& lut.out_h == drawn_side(fit_h as int, dst_h as int)
                &&& final(buf)@ == scaled(lut, pic.pixels@)
                &&& (old(self).scale_lut matches Some(kept) && kept.is_for(
                    pic.w,
                    pic.h,
                    dst_w,
                    dst_h,
                ) && kept.out_w == lut.out_w && kept.out_h == lut.out_h) ==> *final(self) == *old(
                    self,
                )
            },
    {
        if dst_w == 0 || dst_h == 0 {
            return;
        }
        if pic.pixels.len() == 0 || pic.w == 0 || pic.h == 0 {
            fill_black(buf);
            return;
        }
        if pic.w == dst_w && pic.h == dst_h {
            copy_pixels(buf, pic.pixels.as_slice());
            return;
        }
        let need_lut: bool = match &self.scale_lut {
            Some(lut) => lut.src_w != pic.w || lut.src_h != pic.h || lut.dst_w != dst_w
                || lut.dst_h != dst_h || lut.out_w != drawn(fit_w, dst_w) || lut.out_h != drawn(
                fit_h,
                dst_h,
            ),
            None => true,
        };
        if need_lut {
            self.scale_lut = Some(ScaleLut::build(pic.w, pic.h, dst_w, dst_h, fit_w, fit_h));
        }
        if let Some(lut) = &self.scale_lut {
            draw_scaled(lut, pic.pixels.as_slice(), buf);
        }
    }
}

// ---------- laws ----------

/// The drawing lies inside the window, and the bars on its two sides differ by at most one
/// pixel.
pub proof fn law_centred(lut: ScaleLut)
    requires
        lut.wf(),
    ensures
        0 <= (lut.dst_w - lut.off_x - lut.out_w) - lut.off_x <= 1,
        0 <= (lut.dst_h - lut.off_y - lut.out_h) - lut.off_y <= 1,
{
}

/// Every position of a drawing shows a position of the picture.
pub proof fn law_sample_in_picture(k: int, src: int, out: int)
    requires
        0 <= k < out,
        0 < src,
    ensures
        0 <= sample(k, src, out) < src,
{
    lemma_sample(k, src, out);
}

/// Sampling keeps the order of rows and columns.
pub proof fn law_sample_ordered(k: int, l: int, src: int, out: int)
    requires
        0 <= k <= l < out,
        0 <= src,
    ensures
        sample(k, src, out) <= sample(l, src, out),
{
    assert(k * src <= l * src) by (nonlinear_arith)
        requires
            0 <= k <= l,
            0 <= src,
    ;
    vstd::arithmetic::div_mod::lemma_div_is_ordered(k * src, l * src, out);
}

/// A side that is drawn at its own length is shown position by position.
pub proof fn law_sample_identity(k: int, src: int)
    requires
        0 <= k < src,
    ensures
        sample(k, src, src) == k,
{
    vstd::arithmetic::div_mod::lemma_div_multiples_vanish(k, src);
    assert(k * src == src * k) by (nonlinear_arith);
}

/// Copying a picture of the window's size is a shortcut: through tables the window would show
/// the same.
pub proof fn law_copy_is_a_shortcut(lut: ScaleLut, pixels: Seq<u32>)
    requires
        lut.wf(),
        lut.src_w == lut.dst_w,
        lut.src_h == lut.dst_h,
        lut.out_w == lut.dst_w,
        lut.out_h == lut.dst_h,
        lut.dst_w > 0,
        pixels.len() == lut.src_w * lut.src_h,
    ensures
        scaled(lut, pixels) == pixels,
{
    let width = lut.dst_w as int;
    let height = lut.dst_h as int;
    assert forall|d: int| 0 <= d < pixels.len() implies scaled(lut, pixels)[d] == pixels[d] by {
        vstd::arithmetic::div_mod::lemma_fundamental_div_mod(d, width);
        let row = d / width;
        let col = d % width;
        assert(0 <= row < height) by (nonlinear_arith)
            requires
                d == width * row + col,
                0 <= col < width,
                0 <= d < width * height,
        ;
        law_sample_identity(row, height);
        law_sample_identity(col, width);
        assert(row * width + col == d) by (nonlinear_arith)
            requires
                d == width * row + col,
        ;
    }
    assert(scaled(lut, pixels) =~= pixels);
}

/// A window shows nothing but pixels of the picture and black.
pub proof fn law_shown_from_picture(lut: ScaleLut, pixels: Seq<u32>, d: int)
    requires
        lut.wf(),
        lut.src_w > 0,
        lut.src_h > 0,
        pixels.len() == lut.src_w * lut.src_h,
        0 <= d < scaled(lut, pixels).len(),
    ensures
        scaled(lut, pixels)[d] == 0 || pixels.contains(scaled(lut, pixels)[d]),
{
    let row = d / lut.dst_w as int;
    let col = d % lut.dst_w as int;
    if lut.off_y <= row < lut.off_y + lut.out_h && lut.off_x <= col < lut.off_x + lut.out_w {
        lemma_sample(row - lut.off_y, lut.src_h as int, lut.out_h as int);
        lemma_sample(col - lut.off_x, lut.src_w as int, lut.out_w as int);
        let sy = lut.y_lut@[row - lut.off_y] as int;
        let sx = lut.x_lut@[col - lut.off_x] as int;
        lemma_cell(sy, sx, lut.src_w as int, lut.src_h as int);
        assert(scaled(lut, pixels)[d] == pixels[sy * lut.src_w + sx]);
    }
}

/// A side is drawn as long as asked for, where that is between one pixel and the window, and
/// otherwise at the nearer of these two.
pub proof fn law_drawn_side(fit: int, dst: int)
    requires
        dst > 0,
    ensures
        1 <= drawn_side(fit, dst) <= dst,
        1 <= fit <= dst ==> drawn_side(fit, dst) == fit,
        fit < 1 ==> drawn_side(fit, dst) == 1,
        fit > dst ==> drawn_side(fit, dst) == dst,
{
}

/// The position that is shown is the one that the place in the drawing falls into when the picture
/// is stretched over it.
pub proof fn law_sample_nearest(k: int, src: int, out: int)
    requires
        0 <= k < out,
        0 <= src,
    ensures
        sample(k, src, out) * out <= k * src < (sample(k, src, out) + 1) * out,
{
    let q = sample(k, src, out);
    vstd::arithmetic::div_mod::lemma_fundamental_div_mod(k * src, out);
    assert(q * out <= k * src < (q + 1) * out) by (nonlinear_arith)
        requires
            k * src == out * q + k * src % out,
            0 <= k * src % out < out,
    ;
}

/// What a window shows, place by place: inside the drawing, which stands in the middle, the pixel
/// of the picture whose row and column the place falls into; black around it.
pub proof fn law_scaled(lut: ScaleLut, pixels: Seq<u32>, row: int, col: int, sy: int, sx: int)
    requires
        lut.wf(),
        lut.src_w > 0,
        lut.src_h > 0,
        0 <= row < lut.dst_h,
        0 <= col < lut.dst_w,
    ensures
        ({
            let shown = scaled(lut, pixels)[row * lut.dst_w + col];
            let y = row - (lut.dst_h - lut.out_h) / 2;
            let x = col - (lut.dst_w - lut.out_w) / 2;
            &&& scaled(lut, pixels).len() == lut.dst_w * lut.dst_h
            &&& 0 <= y < lut.out_h && 0 <= x < lut.out_w && sy * lut.out_h <= y * lut.src_h < (sy
                + 1) * lut.out_h && sx * lut.out_w <= x * lut.src_w < (sx + 1) * lut.out_w ==> shown
                == pixels[sy * lut.src_w + sx]
            &&& !(0 <= y < lut.out_h && 0 <= x < lut.out_w) ==> shown == 0
        }),
{
    let y = row - (lut.dst_h - lut.out_h) / 2;
    let x = col - (lut.dst_w - lut.out_w) / 2;
    lemma_cell(row, col, lut.dst_w as int, lut.dst_h as int);
    assert(0 <= lut.dst_w * lut.dst_h) by (nonlinear_arith);
    if 0 <= y < lut.out_h && 0 <= x < lut.out_w && sy * lut.out_h <= y * lut.src_h < (sy + 1)
        * lut.out_h && sx * lut.out_w <= x * lut.src_w < (sx + 1) * lut.out_w {
        lemma_sample_unique(y, lut.src_h as int, lut.out_h as int, sy);
        lemma_sample_unique(x, lut.src_w as int, lut.out_w as int, sx);
        lemma_sample(y, lut.src_h as int, lut.out_h as int);
        lemma_sample(x, lut.src_w as int, lut.out_w as int);
        assert(lut.y_lut@[y] == sy);
        assert(lut.x_lut@[x] == sx);
    }
}

proof fn lemma_sample_unique(k: int, src: int, out: int, s: int)
    requires
        0 <= k < out,
        0 <= src,
        s * out <= k * src < (s + 1) * out,
    ensures
        sample(k, src, out) == s,
{
    let r = k * src - s * out;
    assert(0 <= r < out && k * src == s * out + r) by (nonlinear_arith)
        requires
            s * out <= k * src < (s + 1) * out,
            r == k * src - s * out,
    ;
    vstd::arithmetic::div_mod::lemma_fundamental_div_mod_converse(k * src, out, s, r);
}

/// There is nothing to show of a picture exactly if it has no pixels.
pub proof fn law_blank(pic: Picture)
    requires
        pic.wf(),
    ensures
        is_blank(pic) <==> pic.w * pic.h == 0,
{
    assert(pic.w * pic.h == 0 <==> pic.w == 0 || pic.h == 0) by (nonlinear_arith);
}

/// In a black window every pixel is black.
pub proof fn law_black(len: nat, d: int)
    requires
        0 <= d < len,
    ensures
        black(len).len() == len,
        black(len)[d] == 0,
{
}

/// Tables are for the sizes that they were built for.
pub proof fn law_tables_for(lut: ScaleLut, src_w: u32, src_h: u32, dst_w: u32, dst_h: u32)
    ensures
        lut.is_for(src_w, src_h, dst_w, dst_h) <==> (lut.src_w, lut.src_h) == (src_w, src_h) && (
        lut.dst_w,
        lut.dst_h,
    ) == (dst_w, dst_h),
{
}

} // verus!
