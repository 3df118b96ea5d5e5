//! Summed-area tables over the colour channels: per-channel prefix sums and
//! prefix sums of squares, answering rectangle statistics in constant time.
use crate::grid::{lemma_offset_in_bounds, ImageData, CHANNELS};
use vstd::prelude::*;

verus! {

/// Largest pixel count for which every prefix sum of squares fits in `u64`.
pub const MAX_PIXELS: u64 = 281474976710656;

/// Number of colour channels the table covers (alpha is left out).
pub const COLOR_CHANNELS: usize = 3;

/// Channel `c` of pixel `(x, y)`, or its square.
pub open spec fn sample(img: ImageData, x: int, y: int, c: int, sq: bool) -> int {
    let v = img.px(x, y, c) as int;
    if sq {
        v * v
    } else {
        v
    }
}

/// Sum over the first `x` pixels of row `y`.
pub open spec fn row_prefix(img: ImageData, x: int, y: int, c: int, sq: bool) -> int
    decreases x,
{
    if x <= 0 {
        0
    } else {
        row_prefix(img, x - 1, y, c, sq) + sample(img, x - 1, y, c, sq)
    }
}

/// Sum over the rectangle of pixels `[0, x) x [0, y)`.
pub open spec fn prefix(img: ImageData, x: int, y: int, c: int, sq: bool) -> int
    decreases y,
{
    if y <= 0 {
        0
    } else {
        prefix(img, x, y - 1, c, sq) + row_prefix(img, x, y - 1, c, sq)
    }
}

/// Sum over the pixels `x1..=x2` of row `y`.
pub open spec fn span_sum(img: ImageData, x1: int, x2: int, y: int, c: int, sq: bool) -> int
    decreases x2 - x1 + 1,
{
    if x2 < x1 {
        0
    } else {
        span_sum(img, x1, x2 - 1, y, c, sq) + sample(img, x2, y, c, sq)
    }
}

/// Sum over the pixels `[x1, x2] x [y1, y2]`, corners included.
pub open spec fn rect_sum(img: ImageData, x1: int, y1: int, x2: int, y2: int, c: int, sq: bool) -> int
    decreases y2 - y1 + 1,
{
    if y2 < y1 {
        0
    } else {
        rect_sum(img, x1, y1, x2, y2 - 1, c, sq) + span_sum(img, x1, x2, y2, c, sq)
    }
}

/// The four-corner identity: a rectangle's sum from the prefix sums.
pub open spec fn corner_formula(img: ImageData, x1: int, y1: int, x2: int, y2: int, c: int, sq: bool) -> int {
    prefix(img, x2 + 1, y2 + 1, c, sq) - prefix(img, x1, y2 + 1, c, sq) - prefix(img, x2 + 1, y1, c, sq)
        + prefix(img, x1, y1, c, sq)
}

proof fn lemma_span_from_prefix(img: ImageData, x1: int, x2: int, y: int, c: int, sq: bool)
    requires
        0 <= x1 <= x2 + 1,
    ensures
        span_sum(img, x1, x2, y, c, sq) == row_prefix(img, x2 + 1, y, c, sq) - row_prefix(img, x1, y, c, sq),
    decreases x2 - x1 + 1,
{
    if x2 >= x1 {
        lemma_span_from_prefix(img, x1, x2 - 1, y, c, sq);
    }
}

/// A rectangle's direct sum equals the four-corner combination of prefix
/// sums.
pub proof fn lemma_rect_from_corners(img: ImageData, x1: int, y1: int, x2: int, y2: int, c: int, sq: bool)
    requires
        0 <= x1 <= x2 + 1,
        0 <= y1 <= y2 + 1,
    ensures
        rect_sum(img, x1, y1, x2, y2, c, sq) == corner_formula(img, x1, y1, x2, y2, c, sq),
    decreases y2 - y1 + 1,
{
    if y2 >= y1 {
        lemma_rect_from_corners(img, x1, y1, x2, y2 - 1, c, sq);
        lemma_span_from_prefix(img, x1, x2, y2, c, sq);
    }
}

/// Position of channel `c` of cell `(x, y)` in a table `iw` cells wide.
pub open spec fn cell(iw: int, x: int, y: int, c: int) -> int {
    (y * iw + x) * 3 + c
}

proof fn lemma_cell_in_bounds(iw: int, ih: int, x: int, y: int, c: int)
    requires
        0 <= x < iw,
        0 <= y < ih,
        0 <= c < 3,
    ensures
        0 <= y * iw,
        0 <= y * iw + x < iw * ih,
        0 <= cell(iw, x, y, c) < iw * ih * 3,
{
    assert(0 <= y * iw + x < iw * ih) by (nonlinear_arith)
        requires 0 <= x < iw, 0 <= y < ih;
    assert(0 <= y * iw) by (nonlinear_arith)
        requires 0 <= x < iw, 0 <= y < ih;
}

proof fn lemma_cell_distinct(iw: int, x1: int, y1: int, c1: int, x2: int, y2: int, c2: int)
    requires
        0 <= x1 < iw,
        0 <= c1 < 3,
        0 <= x2 < iw,
        0 <= c2 < 3,
        0 <= y1,
        0 <= y2,
        x1 != x2 || y1 != y2 || c1 != c2,
    ensures
        cell(iw, x1, y1, c1) != cell(iw, x2, y2, c2),
{
    if y1 < y2 {
        assert(y1 * iw + iw <= y2 * iw) by (nonlinear_arith)
            requires y1 < y2, iw > 0;
    } else if y2 < y1 {
        assert(y2 * iw + iw <= y1 * iw) by (nonlinear_arith)
            requires y2 < y1, iw > 0;
    }
}

proof fn lemma_sample_bound(img: ImageData, x: int, y: int, c: int, sq: bool)
    ensures
        0 <= sample(img, x, y, c, sq) <= 65025,
{
    let v = img.px(x, y, c) as int;
    assert(0 <= v * v <= 65025) by (nonlinear_arith)
        requires 0 <= v <= 255;
}

/// Row sums grow with the row length and stay within 65025 per pixel.
pub proof fn lemma_row_prefix_mono(img: ImageData, a: int, b: int, y: int, c: int, sq: bool)
    requires
        0 <= a <= b,
    ensures
        0 <= row_prefix(img, a, y, c, sq) <= row_prefix(img, b, y, c, sq),
        row_prefix(img, b, y, c, sq) - row_prefix(img, a, y, c, sq) <= 65025 * (b - a),
    decreases b - a,
{
    if a < b {
        lemma_row_prefix_mono(img, a, b - 1, y, c, sq);
        lemma_sample_bound(img, b - 1, y, c, sq);
    } else {
        lemma_row_prefix_nonneg(img, a, y, c, sq);
    }
}

proof fn lemma_row_prefix_nonneg(img: ImageData, x: int, y: int, c: int, sq: bool)
    ensures
        0 <= row_prefix(img, x, y, c, sq),
    decreases x,
{
    if x > 0 {
        lemma_row_prefix_nonneg(img, x - 1, y, c, sq);
        lemma_sample_bound(img, x - 1, y, c, sq);
    }
}

/// The difference of two prefix columns grows with the number of rows, by
/// at most `65025 * (b - a)` per row.
pub proof fn lemma_prefix_strip_mono(img: ImageData, a: int, b: int, y1: int, y2: int, c: int, sq: bool)
    requires
        0 <= a <= b,
        0 <= y1 <= y2,
    ensures
        0 <= prefix(img, b, y1, c, sq) - prefix(img, a, y1, c, sq) <= prefix(img, b, y2, c, sq)
            - prefix(img, a, y2, c, sq),
        (prefix(img, b, y2, c, sq) - prefix(img, a, y2, c, sq)) - (prefix(img, b, y1, c, sq)
            - prefix(img, a, y1, c, sq)) <= 65025 * (b - a) * (y2 - y1),
    decreases y2,
{
    if y2 > y1 {
        lemma_prefix_strip_mono(img, a, b, y1, y2 - 1, c, sq);
        lemma_row_prefix_mono(img, a, b, y2 - 1, c, sq);
        assert(65025 * (b - a) * (y2 - 1 - y1) + 65025 * (b - a) == 65025 * (b - a) * (y2 - y1))
            by (nonlinear_arith);
    } else if y2 > 0 {
        lemma_prefix_strip_mono(img, a, b, y1 - 1, y2 - 1, c, sq);
        lemma_row_prefix_mono(img, a, b, y2 - 1, c, sq);
    }
}

proof fn lemma_prefix_zero_col(img: ImageData, y: int, c: int, sq: bool)
    ensures
        prefix(img, 0, y, c, sq) == 0,
    decreases y,
{
    if y > 0 {
        lemma_prefix_zero_col(img, y - 1, c, sq);
    }
}

/// The prefix-sum recurrence that the table is built with.
pub proof fn lemma_prefix_step(img: ImageData, x: int, y: int, c: int, sq: bool)
    requires
        1 <= x,
        1 <= y,
    ensures
        prefix(img, x, y, c, sq) == sample(img, x - 1, y - 1, c, sq) + prefix(img, x, y - 1, c, sq)
            + prefix(img, x - 1, y, c, sq) - prefix(img, x - 1, y - 1, c, sq),
{
}

proof fn lemma_step_bounds(img: ImageData, x: int, y: int, ch: int, sq: bool)
    requires
        img.wf(),
        img.width * img.height <= MAX_PIXELS,
        1 <= x <= img.width,
        1 <= y <= img.height,
        0 <= ch < 3,
    ensures
        0 <= prefix(img, x - 1, y - 1, ch, sq) <= prefix(img, x, y - 1, ch, sq),
        0 <= prefix(img, x, y - 1, ch, sq) - prefix(img, x - 1, y - 1, ch, sq) + prefix(
            img,
            x - 1,
            y,
            ch,
            sq,
        ) <= prefix(img, x, y, ch, sq),
        prefix(img, x, y, ch, sq) <= u64::MAX,
        sample(img, x - 1, y - 1, ch, sq) == prefix(img, x, y, ch, sq) - (prefix(img, x, y - 1, ch, sq)
            - prefix(img, x - 1, y - 1, ch, sq) + prefix(img, x - 1, y, ch, sq)),
{
    lemma_prefix_step(img, x, y, ch, sq);
    lemma_sample_bound(img, x - 1, y - 1, ch, sq);
    lemma_prefix_strip_mono(img, x - 1, x, 0, y - 1, ch, sq);
    lemma_prefix_strip_mono(img, 0, x - 1, 0, y, ch, sq);
    lemma_prefix_strip_mono(img, 0, x - 1, 0, y - 1, ch, sq);
    lemma_prefix_strip_mono(img, 0, x, 0, y, ch, sq);
    lemma_prefix_zero_col(img, y, ch, sq);
    lemma_prefix_zero_col(img, y - 1, ch, sq);
    let wh = img.width * img.height;
    assert(65025 * (x - 0) * (y - 0) <= 65025 * wh) by (nonlinear_arith)
        requires 1 <= x <= img.width, 1 <= y <= img.height, wh == img.width * img.height;
    assert(65025 * wh <= 65025 * MAX_PIXELS) by (nonlinear_arith)
        requires wh <= MAX_PIXELS;
}

/// A summed-area table of `source`'s colour channels, one cell of zero
/// padding above and to the left: cell `(x, y)` holds the sum over the
/// pixels `[0, x) x [0, y)`.
pub struct IntegralImage {
    pub sum: Vec<u64>,
    pub sum_sq: Vec<u64>,
    pub width: usize,
    pub height: usize,
    pub source: Ghost<ImageData>,
}

/// Sums over a rectangle of pixels: its area and, per colour channel, the
/// sum of values and of squared values. An empty rectangle has all zero.
#[derive(Debug, Clone, Copy)]
pub struct RegionStats {
    pub area: u64,
    pub sum: [u64; 3],
    pub sum_sq: [u64; 3],
}

impl IntegralImage {
    pub open spec fn wf(&self) -> bool {
        let img = self.source@;
        let iw = self.width + 1;
        &&& img.wf()
        &&& self.width == img.width
        &&& self.height == img.height
        &&& self.width * self.height <= MAX_PIXELS
        &&& self.sum@.len() == iw * (self.height + 1) * 3
        &&& self.sum_sq@.len() == iw * (self.height + 1) * 3
        &&& forall|x: int, y: int, c: int|
            0 <= x <= self.width && 0 <= y <= self.height && 0 <= c < 3 ==> {
                &&& #[trigger] self.sum@[cell(iw, x, y, c)] == prefix(img, x, y, c, false)
                &&& self.sum_sq@[cell(iw, x, y, c)] == prefix(img, x, y, c, true)
            }
    }

    /// An all-zero table for a raster of the given size.
    pub fn new(width: usize, height: usize) -> (r: IntegralImage)
        requires
            (width + 1) * (height + 1) * 3 <= usize::MAX,
        ensures
            r.width == width,
            r.height == height,
            r.sum@.len() == (width + 1) * (height + 1) * 3,
            r.sum_sq@.len() == (width + 1) * (height + 1) * 3,
            forall|i: int| 0 <= i < r.sum@.len() ==> r.sum@[i] == 0 && r.sum_sq@[i] == 0,
    {
        assert(0 <= (width + 1) * (height + 1) <= (width + 1) * (height + 1) * 3) by (nonlinear_arith);
        assert(width + 1 <= (width + 1) * (height + 1)) by (nonlinear_arith);
        assert(height + 1 <= (width + 1) * (height + 1)) by (nonlinear_arith);
        let size: usize = (width + 1) * (height + 1) * COLOR_CHANNELS;
        IntegralImage {
            sum: vec![0u64; size],
            sum_sq: vec![0u64; size],
            width,
            height,
            source: Ghost(vstd::pervasive::arbitrary()),
        }
    }

    /// Cells before `(x, y, ch)` in row-major order, and the zero border,
    /// hold their prefix sums over `img`.
    pub open spec fn built_upto(&self, img: ImageData, x: int, y: int, ch: int) -> bool {
        let iw = self.width + 1;
        forall|xx: int, yy: int, c: int|
            0 <= xx <= self.width && 0 <= yy <= self.height && 0 <= c < 3 && (xx == 0 || yy == 0
                || yy < y || (yy == y && (xx < x || (xx == x && c < ch)))) ==> {
                &&& #[trigger] self.sum@[cell(iw, xx, yy, c)] == prefix(img, xx, yy, c, false)
                &&& self.sum_sq@[cell(iw, xx, yy, c)] == prefix(img, xx, yy, c, true)
            }
    }

    /// Fills a zeroed table from `img` in one pass, top to bottom and left to
    /// right, with `S(x, y) = v + S(x, y - 1) + S(x - 1, y) - S(x - 1, y - 1)`.
    pub fn build(&mut self, img: &ImageData)
        requires
            img.wf(),
            img.width * img.height <= MAX_PIXELS,
            old(self).width == img.width,
            old(self).height == img.height,
            old(self).sum@.len() == (img.width + 1) * (img.height + 1) * 3,
            old(self).sum_sq@.len() == (img.width + 1) * (img.height + 1) * 3,
            forall|i: int|
                0 <= i < old(self).sum@.len() ==> old(self).sum@[i] == 0 && old(self).sum_sq@[i]
                    == 0,
        ensures
            final(self).wf(),
            final(self).source@ == *img,
    {
        let w = self.width;
        let h = self.height;
        let n = self.sum.len();
        let dl = img.data.len();
        assert(w + 1 <= (w + 1) * (h + 1) <= (w + 1) * (h + 1) * 3) by (nonlinear_arith);
        assert(h + 1 <= (w + 1) * (h + 1)) by (nonlinear_arith);
        let iw = w + 1;
        let ghost ih = h + 1;
        self.source = Ghost(*img);
        proof {
            assert(iw * ih == (w + 1) * (h + 1));
            assert forall|xx: int, yy: int, c: int|
                0 <= xx <= w && 0 <= yy <= h && 0 <= c < 3 && (xx == 0 || yy == 0) implies {
                &&& #[trigger] self.sum@[cell(iw as int, xx, yy, c)] == prefix(*img, xx, yy, c, false)
                &&& self.sum_sq@[cell(iw as int, xx, yy, c)] == prefix(*img, xx, yy, c, true)
            } by {
                lemma_cell_in_bounds(iw as int, ih, xx, yy, c);
                lemma_prefix_zero_col(*img, yy, c, false);
                lemma_prefix_zero_col(*img, yy, c, true);
            }
        }
        let mut y: usize = 1;
        while y <= h
            invariant
                img.wf(),
                img.data@.len() == dl,
                h + 1 <= usize::MAX,
                img.width * img.height <= MAX_PIXELS,
                self.width == w,
                self.height == h,
                w == img.width,
                h == img.height,
                iw == w + 1,
                ih == h + 1,
                n == self.sum@.len(),
                n == iw * ih * 3,
                self.sum_sq@.len() == n,
                self.source@ == *img,
                1 <= y <= h + 1,
                self.built_upto(*img, 0, y as int, 0),
            decreases h + 1 - y,
        {
            let mut x: usize = 1;
            while x <= w
                invariant
                    img.wf(),
                    img.data@.len() == dl,
                    img.width * img.height <= MAX_PIXELS,
                    self.width == w,
                    self.height == h,
                    w == img.width,
                    h == img.height,
                    iw == w + 1,
                    ih == h + 1,
                    n == self.sum@.len(),
                    n == iw * ih * 3,
                    self.sum_sq@.len() == n,
                    self.source@ == *img,
                    1 <= y <= h,
                    1 <= x <= w + 1,
                    self.built_upto(*img, x as int, y as int, 0),
                decreases w + 1 - x,
            {
                let mut ch: usize = 0;
                while ch < COLOR_CHANNELS
                    invariant
                        img.wf(),
                        img.data@.len() == dl,
                        img.width * img.height <= MAX_PIXELS,
                        self.width == w,
                        self.height == h,
                        w == img.width,
                        h == img.height,
                        iw == w + 1,
                        ih == h + 1,
                        n == self.sum@.len(),
                        n == iw * ih * 3,
                        self.sum_sq@.len() == n,
                        self.source@ == *img,
                        1 <= y <= h,
                        1 <= x <= w,
                        ch <= 3,
                        self.built_upto(*img, x as int, y as int, ch as int),
                    decreases 3 - ch,
                {
                    proof {
                        lemma_offset_in_bounds(w as int, h as int, x - 1, y - 1, ch as int);
                        lemma_cell_in_bounds(iw as int, ih, x as int, y as int, ch as int);
                        lemma_cell_in_bounds(iw as int, ih, x as int, y - 1, ch as int);
                        lemma_cell_in_bounds(iw as int, ih, x - 1, y as int, ch as int);
                        lemma_cell_in_bounds(iw as int, ih, x - 1, y - 1, ch as int);
                    }
                    let v = img.data[((y - 1) * w + (x - 1)) * CHANNELS + ch] as u64;
                    let idx = (y * iw + x) * COLOR_CHANNELS + ch;
                    let idx_up = ((y - 1) * iw + x) * COLOR_CHANNELS + ch;
                    let idx_left = (y * iw + (x - 1)) * COLOR_CHANNELS + ch;
                    let idx_diag = ((y - 1) * iw + (x - 1)) * COLOR_CHANNELS + ch;
                    proof {
                        lemma_step_bounds(*img, x as int, y as int, ch as int, false);
                        lemma_step_bounds(*img, x as int, y as int, ch as int, true);
                    }
                    let s = (self.sum[idx_up] - self.sum[idx_diag]) + self.sum[idx_left] + v;
                    let q = (self.sum_sq[idx_up] - self.sum_sq[idx_diag]) + self.sum_sq[idx_left]
                        + v * v;
                    let ghost before = *self;
                    self.sum.set(idx, s);
                    self.sum_sq.set(idx, q);
                    proof {
                        lemma_prefix_step(*img, x as int, y as int, ch as int, false);
                        lemma_prefix_step(*img, x as int, y as int, ch as int, true);
                        assert forall|xx: int, yy: int, c: int|
                            0 <= xx <= w && 0 <= yy <= h && 0 <= c < 3 && (xx == 0 || yy == 0
                                || yy < y || (yy == y && (xx < x || (xx == x && c < ch + 1))))
                                implies {
                            &&& #[trigger] self.sum@[cell(iw as int, xx, yy, c)] == prefix(
                                *img,
                                xx,
                                yy,
                                c,
                                false,
                            )
                            &&& self.sum_sq@[cell(iw as int, xx, yy, c)] == prefix(
                                *img,
                                xx,
                                yy,
                                c,
                                true,
                            )
                        } by {
                            lemma_cell_in_bounds(iw as int, ih, xx, yy, c);
                            if xx != x || yy != y || c != ch {
                                lemma_cell_distinct(iw as int, xx, yy, c, x as int, y as int, ch as int);
                                assert(before.sum@[cell(iw as int, xx, yy, c)] == prefix(*img, xx, yy, c, false));
                            }
                        }
                    }
                    ch = ch + 1;
                }
                x = x + 1;
            }
            y = y + 1;
        }
    }



    /// One rectangle sum read from the table by four-corner
    /// inclusion-exclusion.
    fn corner_sum(&self, sq: bool, x1: usize, y1: usize, x2: usize, y2: usize, c: usize) -> (v: u64)
        requires
            self.wf(),
            x1 <= x2 < self.width,
            y1 <= y2 < self.height,
            c < 3,
        ensures
            v == rect_sum(self.source@, x1 as int, y1 as int, x2 as int, y2 as int, c as int, sq),
    {
        let ghost img = self.source@;
        let n = self.sum.len();
        let nq = self.sum_sq.len();
        assert(self.width + 1 <= (self.width + 1) * (self.height + 1) * 3) by (nonlinear_arith);
        let iw = self.width + 1;
        let ghost ih = self.height + 1;
        proof {
            lemma_cell_in_bounds(iw as int, ih, x2 + 1, y2 + 1, c as int);
            lemma_cell_in_bounds(iw as int, ih, x1 as int, y2 + 1, c as int);
            lemma_cell_in_bounds(iw as int, ih, x2 + 1, y1 as int, c as int);
            lemma_cell_in_bounds(iw as int, ih, x1 as int, y1 as int, c as int);
            lemma_prefix_strip_mono(img, x1 as int, x2 + 1, y1 as int, y2 + 1, c as int, sq);
            lemma_prefix_strip_mono(img, 0, x1 as int, 0, y2 + 1, c as int, sq);
            lemma_prefix_strip_mono(img, 0, x1 as int, 0, y1 as int, c as int, sq);
            lemma_prefix_zero_col(img, y2 + 1, c as int, sq);
            lemma_prefix_zero_col(img, y1 as int, c as int, sq);
            lemma_rect_from_corners(img, x1 as int, y1 as int, x2 as int, y2 as int, c as int, sq);
            assert(self.sum@[cell(iw as int, x1 as int, y1 as int, c as int)] == prefix(img, x1 as int, y1 as int, c as int, false));
            assert(self.sum@[cell(iw as int, x2 + 1, y1 as int, c as int)] == prefix(img, x2 + 1, y1 as int, c as int, false));
            assert(self.sum@[cell(iw as int, x1 as int, y2 + 1, c as int)] == prefix(img, x1 as int, y2 + 1, c as int, false));
            assert(self.sum@[cell(iw as int, x2 + 1, y2 + 1, c as int)] == prefix(img, x2 + 1, y2 + 1, c as int, false));
        }
        let table = if sq {
            &self.sum_sq
        } else {
            &self.sum
        };
        let br = table[((y2 + 1) * iw + x2 + 1) * COLOR_CHANNELS + c];
        let bl = table[((y2 + 1) * iw + x1) * COLOR_CHANNELS + c];
        let tr = table[(y1 * iw + x2 + 1) * COLOR_CHANNELS + c];
        let tl = table[(y1 * iw + x1) * COLOR_CHANNELS + c];
        (br - bl) - (tr - tl)
    }

    /// Statistics of `[x1, x2] x [y1, y2]`, a rectangle inside the image.
    pub fn region_stats(&self, x1: usize, y1: usize, x2: usize, y2: usize) -> (r: RegionStats)
        requires
            self.wf(),
            x1 <= x2 < self.width,
            y1 <= y2 < self.height,
        ensures
            r.is_region(self.source@, x1 as int, y1 as int, x2 as int, y2 as int),
    {
        let dx = (x2 - x1 + 1) as u64;
        let dy = (y2 - y1 + 1) as u64;
        assert(dx * dy <= self.width * self.height) by (nonlinear_arith)
            requires 1 <= dx <= self.width, 1 <= dy <= self.height;
        assert(0 < dx * dy) by (nonlinear_arith)
            requires 1 <= dx, 1 <= dy;
        let area = dx * dy;
        RegionStats {
            area,
            sum: [
                self.corner_sum(false, x1, y1, x2, y2, 0),
                self.corner_sum(false, x1, y1, x2, y2, 1),
                self.corner_sum(false, x1, y1, x2, y2, 2),
            ],
            sum_sq: [
                self.corner_sum(true, x1, y1, x2, y2, 0),
                self.corner_sum(true, x1, y1, x2, y2, 1),
                self.corner_sum(true, x1, y1, x2, y2, 2),
            ],
        }
    }

    /// Statistics of `[x1, x2] x [y1, y2]` after clamping it to the image;
    /// all zero when nothing of it is left.
    pub fn get_region_stats(&self, x1: i64, y1: i64, x2: i64, y2: i64) -> (r: RegionStats)
        requires
            self.wf(),
        ensures
            ({
                let cx1 = if x1 < 0 { 0 } else { x1 as int };
                let cy1 = if y1 < 0 { 0 } else { y1 as int };
                let cx2 = if x2 > self.width - 1 { self.width - 1 } else { x2 as int };
                let cy2 = if y2 > self.height - 1 { self.height - 1 } else { y2 as int };
                if cx1 <= cx2 && cy1 <= cy2 {
                    r.is_region(self.source@, cx1, cy1, cx2, cy2)
                } else {
                    r.is_empty()
                }
            }),
    {
        let empty = RegionStats { area: 0, sum: [0, 0, 0], sum_sq: [0, 0, 0] };
        if self.width == 0 || self.height == 0 {
            return empty;
        }
        assert(self.width <= self.width * self.height) by (nonlinear_arith)
            requires self.height >= 1;
        assert(self.height <= self.width * self.height) by (nonlinear_arith)
            requires self.width >= 1;
        let w = self.width as i64;
        let h = self.height as i64;
        let cx1 = if x1 < 0 { 0 } else { x1 };
        let cy1 = if y1 < 0 { 0 } else { y1 };
        let cx2 = if x2 > w - 1 { w - 1 } else { x2 };
        let cy2 = if y2 > h - 1 { h - 1 } else { y2 };
        if cx1 <= cx2 && cy1 <= cy2 {
            self.region_stats(cx1 as usize, cy1 as usize, cx2 as usize, cy2 as usize)
        } else {
            empty
        }
    }

}

impl RegionStats {
    /// Holds the area and sums of `[x1, x2] x [y1, y2]` of `img`.
    pub open spec fn is_region(&self, img: ImageData, x1: int, y1: int, x2: int, y2: int) -> bool {
        &&& self.area == (x2 - x1 + 1) * (y2 - y1 + 1)
        &&& 0 < self.area <= MAX_PIXELS
        &&& forall|c: int|
            0 <= c < 3 ==> #[trigger] self.sum@[c] == rect_sum(img, x1, y1, x2, y2, c, false)
                && self.sum_sq@[c] == rect_sum(img, x1, y1, x2, y2, c, true)
    }

    /// The statistics of an empty rectangle.
    pub open spec fn is_empty(&self) -> bool {
        &&& self.area == 0
        &&& forall|c: int| 0 <= c < 3 ==> #[trigger] self.sum@[c] == 0 && self.sum_sq@[c] == 0
    }
}

/// Channel `c` of the `i`-th pixel in buffer order, or its square.
pub open spec fn pixel_sample(img: ImageData, i: int, c: int, sq: bool) -> int {
    let v = img.data@[4 * i + c] as int;
    if sq {
        v * v
    } else {
        v
    }
}

/// Sum over the first `k` pixels of the buffer, one by one.
pub open spec fn direct_sum(img: ImageData, k: int, c: int, sq: bool) -> int
    decreases k,
{
    if k <= 0 {
        0
    } else {
        direct_sum(img, k - 1, c, sq) + pixel_sample(img, k - 1, c, sq)
    }
}

proof fn lemma_row_prefix_direct(img: ImageData, x: int, y: int, c: int, sq: bool)
    requires
        0 <= x <= img.width,
        0 <= y,
    ensures
        row_prefix(img, x, y, c, sq) == direct_sum(img, y * img.width + x, c, sq) - direct_sum(
            img,
            y * img.width,
            c,
            sq,
        ),
    decreases x,
{
    if x > 0 {
        lemma_row_prefix_direct(img, x - 1, y, c, sq);
        assert(y * img.width >= 0) by (nonlinear_arith)
            requires y >= 0, img.width >= 0;
    }
}

proof fn lemma_prefix_direct(img: ImageData, y: int, c: int, sq: bool)
    requires
        0 <= y,
    ensures
        prefix(img, img.width as int, y, c, sq) == direct_sum(img, y * img.width, c, sq),
    decreases y,
{
    if y > 0 {
        lemma_prefix_direct(img, y - 1, c, sq);
        lemma_row_prefix_direct(img, img.width as int, y - 1, c, sq);
        assert((y - 1) * img.width + img.width == y * img.width) by (nonlinear_arith);
    } else {
        assert(y * img.width == 0) by (nonlinear_arith)
            requires y == 0;
    }
}

/// The statistics of the whole image equal the sums taken pixel by pixel
/// over the buffer: the area is the pixel count, and each channel's sum and
/// sum of squares are the direct sums.
pub proof fn lemma_full_region_is_direct_sum(img: ImageData, r: RegionStats)
    requires
        img.wf(),
        0 < img.width,
        0 < img.height,
        r.is_region(img, 0, 0, img.width - 1, img.height - 1),
    ensures
        r.area == img.width * img.height,
        forall|c: int|
            0 <= c < 3 ==> #[trigger] r.sum@[c] == direct_sum(
                img,
                img.width * img.height,
                c,
                false,
            ) && r.sum_sq@[c] == direct_sum(img, img.width * img.height, c, true),
{
    assert forall|c: int| 0 <= c < 3 implies #[trigger] r.sum@[c] == direct_sum(
        img,
        img.width * img.height,
        c,
        false,
    ) && r.sum_sq@[c] == direct_sum(img, img.width * img.height, c, true) by {
        lemma_prefix_direct(img, img.height as int, c, false);
        lemma_prefix_direct(img, img.height as int, c, true);
        lemma_prefix_zero_col(img, img.height as int, c, false);
        lemma_prefix_zero_col(img, img.height as int, c, true);
        lemma_prefix_zero_col(img, 0, c, false);
        lemma_prefix_zero_col(img, 0, c, true);
        assert(img.height * img.width == img.width * img.height) by (nonlinear_arith);
        lemma_rect_from_corners(img, 0, 0, img.width - 1, img.height - 1, c, false);
        lemma_rect_from_corners(img, 0, 0, img.width - 1, img.height - 1, c, true);
        assert(r.sum@[c] == rect_sum(img, 0, 0, img.width - 1, img.height - 1, c, false));
        assert(prefix(img, 0, 0, c, false) == 0);
        assert(prefix(img, img.width as int, 0, c, false) == 0);
        assert(r.sum@[c] == prefix(img, img.width as int, img.height as int, c, false));
    }
}

} // verus!
