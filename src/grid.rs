//! The RGBA8 raster and its row-major layout.
use vstd::arithmetic::div_mod::{
    lemma_fundamental_div_mod, lemma_fundamental_div_mod_converse, lemma_mod_pos_bound,
};
use vstd::prelude::*;

verus! {

/// Number of interleaved channels per pixel (R, G, B, A).
pub const CHANNELS: usize = 4;

/// A row-major RGBA8 raster with no padding between rows.
#[derive(Debug, Clone)]
pub struct ImageData {
    pub data: Vec<u8>,
    pub width: usize,
    pub height: usize,
    pub channels: usize,
}

/// Offset of channel `c` of pixel `(x, y)` in a raster `w` pixels wide.
pub open spec fn offset(w: int, x: int, y: int, c: int) -> int {
    (y * w + x) * 4 + c
}

pub proof fn lemma_offset_in_bounds(w: int, h: int, x: int, y: int, c: int)
    requires
        0 <= x < w,
        0 <= y < h,
        0 <= c < 4,
    ensures
        0 <= y * w,
        0 <= y * w + x < w * h,
        0 <= offset(w, x, y, c) < w * h * 4,
        offset(w, x, y, 0) + 4 <= w * h * 4,
{
    assert(0 <= y * w + x < w * h) by (nonlinear_arith)
        requires 0 <= x < w, 0 <= y < h;
    assert(0 <= y * w) by (nonlinear_arith)
        requires 0 <= x < w, 0 <= y < h;
}

impl ImageData {
    /// The buffer holds exactly `width * height` pixels of four channels.
    pub open spec fn wf(&self) -> bool {
        &&& self.channels == 4
        &&& self.data@.len() == self.width * self.height * 4
    }

    /// Channel `c` of pixel `(x, y)`.
    pub open spec fn px(&self, x: int, y: int, c: int) -> u8 {
        self.data@[offset(self.width as int, x, y, c)]
    }

    /// `t` is `self` with rows and columns exchanged.
    pub open spec fn is_transpose_of(t: ImageData, s: ImageData) -> bool {
        &&& t.wf()
        &&& t.width == s.height
        &&& t.height == s.width
        &&& forall|x: int, y: int, c: int|
            0 <= x < s.width && 0 <= y < s.height && 0 <= c < 4 ==> #[trigger] t.px(y, x, c)
                == s.px(x, y, c)
    }

    /// Whether the buffer length and channel count agree with the dimensions.
    pub fn is_well_formed(&self) -> (b: bool)
        ensures
            b == self.wf(),
    {
        if self.channels != CHANNELS {
            return false;
        }
        let dl = self.data.len();
        match self.width.checked_mul(self.height) {
            None => {
                assert(self.width * self.height * 4 > usize::MAX) by (nonlinear_arith)
                    requires self.width * self.height > usize::MAX;
                false
            },
            Some(n) => match n.checked_mul(CHANNELS) {
                None => false,
                Some(len) => self.data.len() == len,
            },
        }
    }

    /// A raster of the given size with every byte zero.
    pub fn new_zeroed(width: usize, height: usize) -> (r: ImageData)
        requires
            width * height * 4 <= usize::MAX,
        ensures
            r.wf(),
            r.width == width,
            r.height == height,
            forall|i: int| 0 <= i < r.data@.len() ==> r.data@[i] == 0,
    {
        let len: usize = width * height * CHANNELS;
        ImageData { data: vec![0u8; len], width, height, channels: CHANNELS }
    }

    /// The raster with width and height swapped: `dst[x, y] = src[y, x]`.
    pub fn transpose(&self) -> (r: ImageData)
        requires
            self.wf(),
        ensures
            ImageData::is_transpose_of(r, *self),
    {
        let w = self.width;
        let h = self.height;
        let len = self.data.len();
        assert(h * w == w * h) by (nonlinear_arith);
        assert(len <= usize::MAX);
        let mut dst = ImageData::new_zeroed(h, w);
        let mut y: usize = 0;
        while y < h
            invariant
                self.wf(),
                w == self.width,
                h == self.height,
                w * h * 4 <= usize::MAX,
                dst.wf(),
                dst.width == h,
                dst.height == w,
                y <= h,
                forall|xx: int, yy: int, c: int|
                    0 <= xx < w && 0 <= yy < y && 0 <= c < 4 ==> #[trigger] dst.px(yy, xx, c)
                        == self.px(xx, yy, c),
            decreases h - y,
        {
            let mut x: usize = 0;
            while x < w
                invariant
                    self.wf(),
                    w == self.width,
                    h == self.height,
                    w * h * 4 <= usize::MAX,
                    dst.wf(),
                    dst.width == h,
                    dst.height == w,
                    y < h,
                    x <= w,
                    forall|xx: int, yy: int, c: int|
                        0 <= xx < w && 0 <= yy < y && 0 <= c < 4 ==> #[trigger] dst.px(yy, xx, c)
                            == self.px(xx, yy, c),
                    forall|xx: int, c: int|
                        0 <= xx < x && 0 <= c < 4 ==> #[trigger] dst.px(y as int, xx, c)
                            == self.px(xx, y as int, c),
                decreases w - x,
            {
                proof {
                    lemma_offset_in_bounds(w as int, h as int, x as int, y as int, 0);
                    lemma_offset_in_bounds(h as int, w as int, y as int, x as int, 0);
                    assert(h * w == w * h) by (nonlinear_arith);
                }
                let src_idx: usize = (y * w + x) * CHANNELS;
                let dst_idx: usize = (x * h + y) * CHANNELS;
                let mut c: usize = 0;
                while c < CHANNELS
                    invariant
                        self.wf(),
                        w == self.width,
                        h == self.height,
                        dst.wf(),
                        dst.width == h,
                        dst.height == w,
                        y < h,
                        x < w,
                        c <= 4,
                        src_idx == offset(w as int, x as int, y as int, 0),
                        dst_idx == offset(h as int, y as int, x as int, 0),
                        src_idx + 4 <= self.data@.len(),
                        dst_idx + 4 <= dst.data@.len(),
                        forall|xx: int, yy: int, c: int|
                            0 <= xx < w && 0 <= yy < y && 0 <= c < 4 ==> #[trigger] dst.px(yy, xx, c)
                                == self.px(xx, yy, c),
                        forall|xx: int, cc: int|
                            0 <= xx < x && 0 <= cc < 4 ==> #[trigger] dst.px(y as int, xx, cc)
                                == self.px(xx, y as int, cc),
                        forall|cc: int| 0 <= cc < c ==> #[trigger] dst.px(y as int, x as int, cc)
                            == self.px(x as int, y as int, cc),
                    decreases 4 - c,
                {
                    let v = self.data[src_idx + c];
                    let ghost before = dst;
                    dst.data.set(dst_idx + c, v);
                    proof {
                        assert forall|xx: int, yy: int, cc: int|
                            0 <= xx < w && 0 <= yy <= y && 0 <= cc < 4 && (yy < y || xx < x || (
                            xx == x && cc <= c)) implies #[trigger] dst.px(yy, xx, cc) == self.px(
                            xx,
                            yy,
                            cc,
                        ) by {
                            lemma_offset_in_bounds(h as int, w as int, yy, xx, cc);
                            if yy != y || xx != x || cc != c {
                                lemma_offset_distinct(h as int, w as int, yy, xx, cc, y as int, x as int, c as int);
                                assert(dst.px(yy, xx, cc) == before.px(yy, xx, cc));
                            }
                        }
                    }
                    c = c + 1;
                }
                x = x + 1;
            }
            y = y + 1;
        }
        dst
    }
}

impl ImageData {
    /// Copies a block of whole rows, computed elsewhere, into rows
    /// `[start_y, start_y + k)`; every other byte stays as it was.
    pub fn write_rows(&mut self, start_y: usize, rows: &Vec<u8>)
        requires
            old(self).wf(),
            start_y * old(self).width * 4 + rows@.len() <= old(self).data@.len(),
        ensures
            final(self).wf(),
            final(self).width == old(self).width,
            final(self).height == old(self).height,
            final(self).data@.len() == old(self).data@.len(),
            forall|i: int|
                0 <= i < final(self).data@.len() ==> #[trigger] final(self).data@[i] == if start_y
                    * old(self).width * 4 <= i < start_y * old(self).width * 4 + rows@.len() {
                    rows@[i - start_y * old(self).width * 4]
                } else {
                    old(self).data@[i]
                },
    {
        let len = self.data.len();
        assert(0 <= start_y * self.width <= start_y * self.width * 4) by (nonlinear_arith);
        let base: usize = start_y * self.width * CHANNELS;
        let n = rows.len();
        let ghost w = self.width;
        let mut k: usize = 0;
        while k < n
            invariant
                self.wf(),
                self.width == old(self).width,
                self.height == old(self).height,
                self.channels == old(self).channels,
                self.data@.len() == old(self).data@.len(),
                n == rows@.len(),
                base == start_y * w * 4,
                w == old(self).width,
                base + n <= self.data@.len(),
                self.data@.len() == len,
                k <= n,
                forall|i: int|
                    0 <= i < self.data@.len() ==> #[trigger] self.data@[i] == if base <= i < base
                        + k {
                        rows@[i - base]
                    } else {
                        old(self).data@[i]
                    },
            decreases n - k,
        {
            self.data.set(base + k, rows[k]);
            k = k + 1;
        }
    }
}

/// Distinct (pixel, channel) positions occupy distinct offsets.
pub proof fn lemma_offset_distinct(w: int, h: int, x1: int, y1: int, c1: int, x2: int, y2: int, c2: int)
    requires
        0 <= x1 < w,
        0 <= y1 < h,
        0 <= c1 < 4,
        0 <= x2 < w,
        0 <= y2 < h,
        0 <= c2 < 4,
        x1 != x2 || y1 != y2 || c1 != c2,
    ensures
        offset(w, x1, y1, c1) != offset(w, x2, y2, c2),
{
    if y1 != y2 {
        if y1 < y2 {
            assert(y1 * w + w <= y2 * w) by (nonlinear_arith)
                requires y1 < y2, w > 0;
        } else {
            assert(y2 * w + w <= y1 * w) by (nonlinear_arith)
                requires y2 < y1, w > 0;
        }
    }
}

/// Every position of a raster's buffer is the offset of exactly one
/// (pixel, channel) pair.
pub proof fn lemma_offset_decompose(w: int, h: int, i: int)
    requires
        0 < w,
        0 < h,
        0 <= i < w * h * 4,
    ensures
        0 <= (i / 4) % w < w,
        0 <= (i / 4) / w < h,
        0 <= i % 4 < 4,
        offset(w, (i / 4) % w, (i / 4) / w, i % 4) == i,
{
    let p = i / 4;
    lemma_fundamental_div_mod(i, 4);
    lemma_fundamental_div_mod(p, w);
    lemma_mod_pos_bound(i, 4);
    lemma_mod_pos_bound(p, w);
    let x = p % w;
    let y = p / w;
    assert(p < w * h);
    assert(0 <= y < h) by (nonlinear_arith)
        requires p == w * y + x, 0 <= x < w, 0 <= p < w * h, 0 < w;
    assert(offset(w, x, y, i % 4) == (w * y + x) * 4 + i % 4) by (nonlinear_arith);
}

/// Transposing twice gives back the raster it started from, square or not.
pub proof fn lemma_transpose_involution(a: ImageData, b: ImageData, c: ImageData)
    requires
        a.wf(),
        ImageData::is_transpose_of(b, a),
        ImageData::is_transpose_of(c, b),
    ensures
        c.width == a.width,
        c.height == a.height,
        c.data@ == a.data@,
{
    let w = a.width as int;
    let h = a.height as int;
    assert forall|i: int| 0 <= i < a.data@.len() implies c.data@[i] == a.data@[i] by {
        if w > 0 && h > 0 {
            lemma_offset_decompose(w, h, i);
            let x = (i / 4) % w;
            let y = (i / 4) / w;
            let ch = i % 4;
            assert(c.px(x, y, ch) == b.px(y, x, ch));
            assert(b.px(y, x, ch) == a.px(x, y, ch));
        } else {
            assert(w * h * 4 == 0) by (nonlinear_arith)
                requires w == 0 || h == 0;
        }
    }
    assert(c.data@ =~= a.data@);
}

/// Recovers pixel and channel from an offset.
pub proof fn lemma_offset_parts(w: int, x: int, y: int, c: int)
    requires
        0 <= x < w,
        0 <= y,
        0 <= c < 4,
    ensures
        offset(w, x, y, c) / 4 == y * w + x,
        offset(w, x, y, c) % 4 == c,
        (offset(w, x, y, c) / 4) % w == x,
        (offset(w, x, y, c) / 4) / w == y,
{
    lemma_fundamental_div_mod_converse(offset(w, x, y, c), 4, y * w + x, c);
    lemma_fundamental_div_mod_converse(y * w + x, w, y, x);
}

/// Offsets within a block of rows that starts at row `s`.
pub proof fn lemma_offset_shift(w: int, x: int, y: int, c: int, s: int)
    ensures
        offset(w, x, y, c) - s * w * 4 == offset(w, x, y - s, c),
{
    assert((y * w + x) * 4 + c - s * w * 4 == ((y - s) * w + x) * 4 + c) by (nonlinear_arith);
}

/// Rows `[0, e)` of a raster `w` wide end at byte `e * w * 4`.
pub proof fn lemma_rows_bytes(w: int, s: int, e: int, h: int)
    requires
        0 <= s <= e <= h,
        0 <= w,
    ensures
        0 <= s * w * 4 <= e * w * 4 <= h * w * 4,
        s * w * 4 + (e - s) * w * 4 == e * w * 4,
        h * w * 4 == w * h * 4,
{
    assert(0 <= s * w * 4 <= e * w * 4 <= h * w * 4) by (nonlinear_arith)
        requires 0 <= s <= e <= h, 0 <= w;
    assert(s * w * 4 + (e - s) * w * 4 == e * w * 4) by (nonlinear_arith);
    assert(h * w * 4 == w * h * 4) by (nonlinear_arith);
}

/// Two rasters of the same size that agree on every pixel have the same
/// buffer.
pub proof fn lemma_same_pixels_same_data(a: ImageData, b: ImageData)
    requires
        a.wf(),
        b.wf(),
        a.width == b.width,
        a.height == b.height,
        forall|x: int, y: int, c: int|
            0 <= x < a.width && 0 <= y < a.height && 0 <= c < 4 ==> #[trigger] a.px(x, y, c)
                == b.px(x, y, c),
    ensures
        a.data@ == b.data@,
{
    let w = a.width as int;
    let h = a.height as int;
    assert forall|i: int| 0 <= i < a.data@.len() implies a.data@[i] == b.data@[i] by {
        if w > 0 && h > 0 {
            lemma_offset_decompose(w, h, i);
            assert(a.px((i / 4) % w, (i / 4) / w, i % 4) == b.px((i / 4) % w, (i / 4) / w, i % 4));
        } else {
            assert(w * h * 4 == 0) by (nonlinear_arith)
                requires w == 0 || h == 0;
        }
    }
    assert(a.data@ =~= b.data@);
}

} // verus!
