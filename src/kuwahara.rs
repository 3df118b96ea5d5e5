//! Kuwahara smoothing: each pixel takes the mean colour of whichever of its
//! four corner quadrants varies least.
use crate::blur::round_div;
use crate::grid::{
    lemma_offset_in_bounds, lemma_offset_parts, lemma_offset_shift, lemma_rows_bytes,
    lemma_same_pixels_same_data, offset, ImageData, CHANNELS,
};
use crate::integral::{rect_sum, span_sum, IntegralImage, RegionStats, MAX_PIXELS};
use crate::partition::{lemma_partition_covers, row_range, rows_done};
use crate::FilterError;
use vstd::arithmetic::div_mod::{
    lemma_fundamental_div_mod, lemma_fundamental_div_mod_converse, lemma_mod_pos_bound,
};
use vstd::prelude::*;

verus! {

/// `a / b < c / d` for positive `b` and `d`, decided without forming the
/// cross products: compare integer parts, then the reciprocals of the
/// remainders.
pub fn fraction_lt(a: u128, b: u128, c: u128, d: u128) -> (r: bool)
    requires
        0 < b,
        0 < d,
    ensures
        r == (a * d < c * b),
    decreases b + d,
{
    let q1 = a / b;
    let q2 = c / d;
    let r1 = a % b;
    let r2 = c % d;
    proof {
        lemma_fundamental_div_mod(a as int, b as int);
        lemma_fundamental_div_mod(c as int, d as int);
        lemma_mod_pos_bound(a as int, b as int);
        lemma_mod_pos_bound(c as int, d as int);
    }
    if q1 != q2 {
        proof {
            if q1 < q2 {
                assert(a * d < c * b) by (nonlinear_arith)
                    requires
                        a == b * q1 + r1,
                        c == d * q2 + r2,
                        r1 < b,
                        0 <= r2,
                        q1 + 1 <= q2,
                        0 < b,
                        0 < d,
                {
                    assert(a * d < (q1 + 1) * b * d) by (nonlinear_arith)
                        requires a == b * q1 + r1, r1 < b, 0 < d;
                    assert((q1 + 1) * b * d <= q2 * b * d) by (nonlinear_arith)
                        requires q1 + 1 <= q2, 0 < b, 0 < d;
                    assert(q2 * b * d <= c * b) by (nonlinear_arith)
                        requires c == d * q2 + r2, 0 <= r2, 0 < b;
                }
            } else {
                assert(c * b < a * d) by (nonlinear_arith)
                    requires
                        a == b * q1 + r1,
                        c == d * q2 + r2,
                        r2 < d,
                        0 <= r1,
                        q2 + 1 <= q1,
                        0 < b,
                        0 < d,
                {
                    assert(c * b < (q2 + 1) * d * b) by (nonlinear_arith)
                        requires c == d * q2 + r2, r2 < d, 0 < b;
                    assert((q2 + 1) * d * b <= q1 * d * b) by (nonlinear_arith)
                        requires q2 + 1 <= q1, 0 < b, 0 < d;
                    assert(q1 * d * b <= a * d) by (nonlinear_arith)
                        requires a == b * q1 + r1, 0 <= r1, 0 < d;
                }
            }
        }
        return q1 < q2;
    }
    assert(a * d - c * b == r1 * d - r2 * b) by (nonlinear_arith)
        requires a == b * q1 + r1, c == d * q2 + r2, q1 == q2;
    if r2 == 0 {
        assert(r1 * d >= 0) by (nonlinear_arith)
            requires r1 >= 0, d > 0;
        assert(r2 * b == 0) by (nonlinear_arith)
            requires r2 == 0;
        return false;
    }
    if r1 == 0 {
        assert(r2 * b > 0) by (nonlinear_arith)
            requires r2 > 0, b > 0;
        assert(r1 * d == 0) by (nonlinear_arith)
            requires r1 == 0;
        return true;
    }
    fraction_lt(d, r2, b, r1)
}

/// Numerator of one channel's variance over `area * area`, floored at zero:
/// `area * sum_sq - sum * sum`.
pub open spec fn channel_var_num(area: int, sum: int, sum_sq: int) -> int {
    if area * sum_sq >= sum * sum {
        area * sum_sq - sum * sum
    } else {
        0
    }
}

/// Total variance of the three colour channels, times `area * area`.
pub open spec fn var_num(area: int, sums: Seq<u64>, sqs: Seq<u64>) -> int {
    channel_var_num(area, sums[0] as int, sqs[0] as int) + channel_var_num(
        area,
        sums[1] as int,
        sqs[1] as int,
    ) + channel_var_num(area, sums[2] as int, sqs[2] as int)
}

impl RegionStats {
    /// Total variance of the colour channels, times `area * area`.
    pub open spec fn total_var_num(&self) -> int {
        var_num(self.area as int, self.sum@, self.sum_sq@)
    }

    /// `self` varies strictly less than `other`.
    pub open spec fn varies_less(&self, other: RegionStats) -> bool {
        self.total_var_num() * (other.area * other.area) < other.total_var_num() * (self.area
            * self.area)
    }

    /// Channel `c`'s mean, rounded half up and capped at 255.
    pub open spec fn rounded_mean(&self, c: int) -> int {
        let m = round_div(self.sum@[c] as int, self.area as int);
        if m > 255 {
            255
        } else {
            m
        }
    }

    fn total_var_num_exec(&self) -> (v: u128)
        requires
            0 < self.area <= MAX_PIXELS,
        ensures
            v == self.total_var_num(),
    {
        let a = self.area as u128;
        let mut total: u128 = 0;
        let mut c: usize = 0;
        while c < 3
            invariant
                0 < self.area <= MAX_PIXELS,
                a == self.area,
                c <= 3,
                total == if c == 0 {
                    0
                } else if c == 1 {
                    channel_var_num(a as int, self.sum@[0] as int, self.sum_sq@[0] as int)
                } else if c == 2 {
                    channel_var_num(a as int, self.sum@[0] as int, self.sum_sq@[0] as int)
                        + channel_var_num(a as int, self.sum@[1] as int, self.sum_sq@[1] as int)
                } else {
                    self.total_var_num()
                },
                total <= c * 0x1_0000_0000_0000_0000_0000_0000_0000,
            decreases 3 - c,
        {
            let s = self.sum[c] as u128;
            let q = self.sum_sq[c] as u128;
            assert(a * q <= MAX_PIXELS * 0xffff_ffff_ffff_ffff) by (nonlinear_arith)
                requires a <= MAX_PIXELS, q <= 0xffff_ffff_ffff_ffff;
            assert(s * s <= 0xffff_ffff_ffff_ffff * 0xffff_ffff_ffff_ffff) by (nonlinear_arith)
                requires s <= 0xffff_ffff_ffff_ffff;
            let aq = a * q;
            let ss = s * s;
            let n = if aq >= ss {
                aq - ss
            } else {
                0
            };
            total = total + n;
            c = c + 1;
        }
        total
    }

    /// Whether `self` varies strictly less than `other`, exactly.
    pub fn varies_less_than(&self, other: &RegionStats) -> (r: bool)
        requires
            0 < self.area <= MAX_PIXELS,
            0 < other.area <= MAX_PIXELS,
        ensures
            r == self.varies_less(*other),
    {
        let a = self.area as u128;
        let b = other.area as u128;
        assert(a * a <= MAX_PIXELS * MAX_PIXELS && 0 < a * a) by (nonlinear_arith)
            requires 0 < a <= MAX_PIXELS;
        assert(b * b <= MAX_PIXELS * MAX_PIXELS && 0 < b * b) by (nonlinear_arith)
            requires 0 < b <= MAX_PIXELS;
        fraction_lt(self.total_var_num_exec(), a * a, other.total_var_num_exec(), b * b)
    }

    /// Channel `c`'s mean as a byte.
    pub fn mean_byte(&self, c: usize) -> (v: u8)
        requires
            0 < self.area,
            c < 3,
        ensures
            v == self.rounded_mean(c as int),
    {
        let s = self.sum[c] as u128;
        let a = self.area as u128;
        let m = (2 * s + a) / (2 * a);
        if m > 255 {
            255
        } else {
            m as u8
        }
    }
}

/// `v - r`, or 0 where that falls off the image.
pub open spec fn reach_back(v: int, r: int) -> int {
    if v - r < 0 {
        0
    } else {
        v - r
    }
}

/// `v + r`, or `n - 1` where that falls off the image.
pub open spec fn reach_forward(v: int, r: int, n: int) -> int {
    if v + r > n - 1 {
        n - 1
    } else {
        v + r
    }
}

/// Corners `(x1, y1, x2, y2)` of quadrant `k` of pixel `(x, y)`, in the
/// order NW, NE, SW, SE, each clamped to the image.
pub open spec fn quadrant(img: ImageData, x: int, y: int, r: int, k: int) -> (int, int, int, int) {
    let w = img.width as int;
    let h = img.height as int;
    if k == 0 {
        (reach_back(x, r), reach_back(y, r), x, y)
    } else if k == 1 {
        (x, reach_back(y, r), reach_forward(x, r, w), y)
    } else if k == 2 {
        (reach_back(x, r), y, x, reach_forward(y, r, h))
    } else {
        (x, y, reach_forward(x, r, w), reach_forward(y, r, h))
    }
}

pub open spec fn quad_area(q: (int, int, int, int)) -> int {
    (q.2 - q.0 + 1) * (q.3 - q.1 + 1)
}

/// Total colour variance of a quadrant, times its area squared.
pub open spec fn quad_var_num(img: ImageData, q: (int, int, int, int)) -> int {
    let a = quad_area(q);
    channel_var_num(a, rect_sum(img, q.0, q.1, q.2, q.3, 0, false), rect_sum(img, q.0, q.1, q.2, q.3, 0, true))
        + channel_var_num(a, rect_sum(img, q.0, q.1, q.2, q.3, 1, false), rect_sum(img, q.0, q.1, q.2, q.3, 1, true))
        + channel_var_num(a, rect_sum(img, q.0, q.1, q.2, q.3, 2, false), rect_sum(img, q.0, q.1, q.2, q.3, 2, true))
}

/// Quadrant `p` has strictly smaller total variance than quadrant `q`.
pub open spec fn quad_less(img: ImageData, p: (int, int, int, int), q: (int, int, int, int)) -> bool {
    quad_var_num(img, p) * (quad_area(q) * quad_area(q)) < quad_var_num(img, q) * (quad_area(p)
        * quad_area(p))
}

/// Index of the quadrant picked for `(x, y)`: the least variance, the
/// earlier quadrant on ties.
pub open spec fn best_quadrant(img: ImageData, x: int, y: int, r: int) -> int {
    let b1 = if quad_less(img, quadrant(img, x, y, r, 1), quadrant(img, x, y, r, 0)) {
        1int
    } else {
        0int
    };
    let b2 = if quad_less(img, quadrant(img, x, y, r, 2), quadrant(img, x, y, r, b1)) {
        2int
    } else {
        b1
    };
    if quad_less(img, quadrant(img, x, y, r, 3), quadrant(img, x, y, r, b2)) {
        3int
    } else {
        b2
    }
}

/// Channel `c` of output pixel `(x, y)`: the picked quadrant's mean colour,
/// rounded half up and capped at 255; alpha is the source's.
pub open spec fn kuwahara_px(img: ImageData, r: int, x: int, y: int, c: int) -> int {
    if c == 3 {
        img.px(x, y, 3) as int
    } else {
        let q = quadrant(img, x, y, r, best_quadrant(img, x, y, r));
        let m = round_div(rect_sum(img, q.0, q.1, q.2, q.3, c, false), quad_area(q));
        if m > 255 {
            255
        } else {
            m
        }
    }
}

/// `dst` is `src` after the Kuwahara filter of the given radius.
pub open spec fn is_kuwahara_of(dst: ImageData, src: ImageData, r: int) -> bool {
    &&& dst.wf()
    &&& dst.width == src.width
    &&& dst.height == src.height
    &&& forall|x: int, y: int, c: int|
        0 <= x < src.width && 0 <= y < src.height && 0 <= c < 4 ==> #[trigger] dst.px(x, y, c)
            == kuwahara_px(src, r, x, y, c)
}

proof fn lemma_stats_quad(img: ImageData, s: RegionStats, q: (int, int, int, int))
    requires
        s.is_region(img, q.0, q.1, q.2, q.3),
    ensures
        s.area == quad_area(q),
        s.total_var_num() == quad_var_num(img, q),
        forall|c: int| 0 <= c < 3 ==> #[trigger] s.sum@[c] == rect_sum(img, q.0, q.1, q.2, q.3, c, false),
{
    assert(s.sum@[0] == rect_sum(img, q.0, q.1, q.2, q.3, 0, false));
    assert(s.sum@[1] == rect_sum(img, q.0, q.1, q.2, q.3, 1, false));
    assert(s.sum@[2] == rect_sum(img, q.0, q.1, q.2, q.3, 2, false));
}

fn back(v: usize, r: usize) -> (b: usize)
    ensures
        b == reach_back(v as int, r as int),
{
    if r > v {
        0
    } else {
        v - r
    }
}

fn forward(v: usize, r: usize, n: usize) -> (f: usize)
    requires
        v < n,
    ensures
        f == reach_forward(v as int, r as int, n as int),
{
    if r >= n - v {
        n - 1
    } else {
        v + r
    }
}

/// One output pixel of the filter.
pub fn kuwahara_filter_pixel(src: &ImageData, integral: &IntegralImage, x: usize, y: usize, radius: usize) -> (p: [u8; 4])
    requires
        integral.wf(),
        integral.source@ == *src,
        x < src.width,
        y < src.height,
    ensures
        forall|c: int| 0 <= c < 4 ==> #[trigger] p@[c] == kuwahara_px(*src, radius as int, x as int, y as int, c),
{
    let ghost img = *src;
    let ghost r = radius as int;
    let w = src.width;
    let h = src.height;
    let x0 = back(x, radius);
    let y0 = back(y, radius);
    let x1 = forward(x, radius, w);
    let y1 = forward(y, radius, h);
    let nw = integral.region_stats(x0, y0, x, y);
    let ne = integral.region_stats(x, y0, x1, y);
    let sw = integral.region_stats(x0, y, x, y1);
    let se = integral.region_stats(x, y, x1, y1);
    proof {
        lemma_stats_quad(img, nw, quadrant(img, x as int, y as int, r, 0));
        lemma_stats_quad(img, ne, quadrant(img, x as int, y as int, r, 1));
        lemma_stats_quad(img, sw, quadrant(img, x as int, y as int, r, 2));
        lemma_stats_quad(img, se, quadrant(img, x as int, y as int, r, 3));
    }
    let ghost k: int = 0;
    let mut best = nw;
    if ne.varies_less_than(&best) {
        best = ne;
        proof { k = 1; }
    }
    if sw.varies_less_than(&best) {
        best = sw;
        proof { k = 2; }
    }
    if se.varies_less_than(&best) {
        best = se;
        proof { k = 3; }
    }
    assert(k == best_quadrant(img, x as int, y as int, r));
    proof {
        lemma_stats_quad(img, best, quadrant(img, x as int, y as int, r, k));
    }
    let len = src.data.len();
    proof {
        lemma_offset_in_bounds(w as int, h as int, x as int, y as int, 3);
    }
    let alpha = src.data[(y * w + x) * CHANNELS + 3];
    [best.mean_byte(0), best.mean_byte(1), best.mean_byte(2), alpha]
}

/// The filter over rows `[start_y, end_y)`, computed into a private buffer
/// laid out as those rows alone.
pub fn process_kuwahara_rows(src: &ImageData, integral: &IntegralImage, radius: usize, start_y: usize, end_y: usize) -> (rows: Vec<u8>)
    requires
        integral.wf(),
        integral.source@ == *src,
        start_y <= end_y <= src.height,
    ensures
        rows@.len() == (end_y - start_y) * src.width * 4,
        forall|x: int, y: int, c: int|
            0 <= x < src.width && start_y <= y < end_y && 0 <= c < 4 ==> rows@[offset(
                src.width as int,
                x,
                y - start_y,
                c,
            )] == kuwahara_px(*src, radius as int, x, y, c),
{
    let w = src.width;
    let mut rows: Vec<u8> = Vec::new();
    let mut y: usize = start_y;
    while y < end_y
        invariant
            integral.wf(),
            integral.source@ == *src,
            w == src.width,
            start_y <= y <= end_y <= src.height,
            rows@.len() == (y - start_y) * w * 4,
            forall|i: int|
                0 <= i < rows@.len() ==> #[trigger] rows@[i] == kuwahara_px(
                    *src,
                    radius as int,
                    (i / 4) % (w as int),
                    start_y + (i / 4) / (w as int),
                    i % 4,
                ),
        decreases end_y - y,
    {
        let mut x: usize = 0;
        while x < w
            invariant
                integral.wf(),
                integral.source@ == *src,
                w == src.width,
                start_y <= y < end_y <= src.height,
                x <= w,
                rows@.len() == ((y - start_y) * w + x) * 4,
                forall|i: int|
                    0 <= i < rows@.len() ==> #[trigger] rows@[i] == kuwahara_px(
                        *src,
                        radius as int,
                        (i / 4) % (w as int),
                        start_y + (i / 4) / (w as int),
                        i % 4,
                    ),
            decreases w - x,
        {
            let p = kuwahara_filter_pixel(src, integral, x, y, radius);
            let mut c: usize = 0;
            while c < CHANNELS
                invariant
                    w == src.width,
                    start_y <= y < end_y <= src.height,
                    x < w,
                    c <= 4,
                    forall|cc: int| 0 <= cc < 4 ==> #[trigger] p@[cc] == kuwahara_px(*src, radius as int, x as int, y as int, cc),
                    rows@.len() == ((y - start_y) * w + x) * 4 + c,
                    forall|i: int|
                        0 <= i < rows@.len() ==> #[trigger] rows@[i] == kuwahara_px(
                            *src,
                            radius as int,
                            (i / 4) % (w as int),
                            start_y + (i / 4) / (w as int),
                            i % 4,
                        ),
                decreases 4 - c,
            {
                let v = p[c];
                let ghost before = rows@;
                rows.push(v);
                proof {
                    lemma_offset_parts(w as int, x as int, y - start_y, c as int);
                    assert forall|i: int| 0 <= i < rows@.len() implies #[trigger] rows@[i]
                        == kuwahara_px(
                        *src,
                        radius as int,
                        (i / 4) % (w as int),
                        start_y + (i / 4) / (w as int),
                        i % 4,
                    ) by {
                        if i < before.len() {
                            assert(rows@[i] == before[i]);
                        } else {
                            assert(i == offset(w as int, x as int, y - start_y, c as int));
                            assert(rows@[i] == v);
                        }
                    }
                }
                c = c + 1;
            }
            x = x + 1;
        }
        assert(((y - start_y) * w + w) * 4 == (y + 1 - start_y) * w * 4) by (nonlinear_arith);
        y = y + 1;
    }
    proof {
        assert forall|x: int, y: int, c: int|
            0 <= x < w && start_y <= y < end_y && 0 <= c < 4 implies rows@[offset(
                w as int,
                x,
                y - start_y,
                c,
            )] == kuwahara_px(*src, radius as int, x, y, c) by {
            lemma_offset_parts(w as int, x, y - start_y, c);
            lemma_offset_in_bounds(w as int, end_y - start_y, x, y - start_y, c);
            assert((end_y - start_y) * w * 4 == w * (end_y - start_y) * 4) by (nonlinear_arith);
        }
    }
    rows
}

/// Whether the summed-area tables of a `width` by `height` raster fit the
/// machine and their sums fit `u64`.
pub open spec fn fits_tables(width: int, height: int) -> bool {
    &&& width * height <= MAX_PIXELS
    &&& (width + 1) * (height + 1) * 3 <= usize::MAX
}

/// Applies the Kuwahara filter of the given radius, with the rows split among
/// `num_workers` workers that share one summed-area table. The result
/// depends on the image and the radius alone, not on `num_workers`.
pub fn apply_kuwahara_filter(img: &ImageData, radius: usize, num_workers: usize) -> (r: Result<ImageData, FilterError>)
    ensures
        !img.wf() ==> r == Err::<ImageData, FilterError>(FilterError::InvalidBuffer),
        img.wf() && num_workers == 0 ==> r == Err::<ImageData, FilterError>(
            FilterError::InvalidWorkerCount,
        ),
        img.wf() && num_workers >= 1 && !fits_tables(img.width as int, img.height as int)
            ==> r == Err::<ImageData, FilterError>(FilterError::TooLarge),
        img.wf() && num_workers >= 1 && fits_tables(img.width as int, img.height as int) ==> r is Ok
            && is_kuwahara_of(r->Ok_0, *img, radius as int),
{
    if !img.is_well_formed() {
        return Err(FilterError::InvalidBuffer);
    }
    if num_workers < 1 {
        return Err(FilterError::InvalidWorkerCount);
    }
    let w = img.width;
    let h = img.height;
    let pixels = match (w as u64).checked_mul(h as u64) {
        Some(p) => p,
        None => {
            return Err(FilterError::TooLarge);
        },
    };
    if pixels > MAX_PIXELS {
        return Err(FilterError::TooLarge);
    }
    let table_len = match (w.checked_add(1), h.checked_add(1)) {
        (Some(iw), Some(ih)) => match iw.checked_mul(ih) {
            Some(cells) => cells.checked_mul(3),
            None => None,
        },
        _ => None,
    };
    if table_len.is_none() {
        proof {
            assert((w + 1) * (h + 1) * 3 > usize::MAX) by (nonlinear_arith)
                requires
                    w + 1 > usize::MAX || h + 1 > usize::MAX || (w + 1) * (h + 1) > usize::MAX
                        || (w + 1) * (h + 1) * 3 > usize::MAX,
                    w >= 0,
                    h >= 0;
        }
        return Err(FilterError::TooLarge);
    }
    let mut integral = IntegralImage::new(w, h);
    integral.build(img);
    let len = img.data.len();
    proof {
        lemma_rows_bytes(w as int, 0, 0, h as int);
    }
    let mut dst = ImageData::new_zeroed(w, h);
    let mut i: usize = 0;
    proof {
        lemma_partition_covers(h as int, num_workers as int, 0);
    }
    while i < num_workers
        invariant
            integral.wf(),
            integral.source@ == *img,
            img.wf(),
            w == img.width,
            h == img.height,
            dst.wf(),
            dst.width == w,
            dst.height == h,
            1 <= num_workers,
            i <= num_workers,
            forall|x: int, y: int, c: int|
                0 <= x < w && 0 <= y < rows_done(h as int, num_workers as int, i as int) && 0
                    <= c < 4 ==> #[trigger] dst.px(x, y, c) == kuwahara_px(*img, radius as int, x, y, c),
        decreases num_workers - i,
    {
        let (start, end) = row_range(h, num_workers, i);
        let rows = process_kuwahara_rows(img, &integral, radius, start, end);
        proof {
            lemma_partition_covers(h as int, num_workers as int, i as int);
            lemma_rows_bytes(w as int, start as int, end as int, h as int);
        }
        let ghost before = dst;
        dst.write_rows(start, &rows);
        proof {
            assert forall|x: int, y: int, c: int|
                0 <= x < w && 0 <= y < rows_done(h as int, num_workers as int, i + 1) && 0 <= c
                    < 4 implies #[trigger] dst.px(x, y, c) == kuwahara_px(*img, radius as int, x, y, c) by {
                lemma_offset_in_bounds(w as int, h as int, x, y, c);
                lemma_offset_shift(w as int, x, y, c, start as int);
                if y < start {
                    assert(offset(w as int, x, y, c) < start * w * 4) by (nonlinear_arith)
                        requires 0 <= x < w, y < start, 0 <= c < 4, 0 <= y;
                    assert(dst.px(x, y, c) == before.px(x, y, c));
                } else {
                    assert(offset(w as int, x, y, c) < end * w * 4) by (nonlinear_arith)
                        requires 0 <= x < w, y < end, 0 <= c < 4, 0 <= y;
                    assert(start * w * 4 <= offset(w as int, x, y, c)) by (nonlinear_arith)
                        requires 0 <= x < w, start <= y, 0 <= c < 4;
                }
            }
        }
        i = i + 1;
    }
    Ok(dst)
}

/// At radius 0 every quadrant is the pixel itself, so the filter returns
/// each pixel unchanged.
pub proof fn lemma_radius_zero_identity(img: ImageData, x: int, y: int, c: int)
    requires
        img.wf(),
        0 <= x < img.width,
        0 <= y < img.height,
        0 <= c < 4,
    ensures
        kuwahara_px(img, 0, x, y, c) == img.px(x, y, c),
{
    if c < 3 {
        let q = quadrant(img, x, y, 0, 0);
        assert(q == (x, y, x, y));
        assert(best_quadrant(img, x, y, 0) == 0);
        assert(quad_area(q) == 1) by (nonlinear_arith)
            requires q == (x, y, x, y);
        let v = img.px(x, y, c) as int;
        assert(span_sum(img, x, x - 1, y, c, false) == 0);
        assert(span_sum(img, x, x, y, c, false) == v);
        assert(rect_sum(img, x, y, x, y - 1, c, false) == 0);
        assert(rect_sum(img, x, y, x, y, c, false) == v);
        lemma_fundamental_div_mod_converse(2 * v + 1, 2, v, 1);
    }
}

/// The filtered raster is determined by the image and the radius: two
/// results, whatever worker counts produced them, are byte for byte equal.
pub proof fn lemma_kuwahara_unique(img: ImageData, r: int, a: ImageData, b: ImageData)
    requires
        is_kuwahara_of(a, img, r),
        is_kuwahara_of(b, img, r),
    ensures
        a.data@ == b.data@,
{
    lemma_same_pixels_same_data(a, b);
}

} // verus!
