//! Separable blur: a one-dimensional weighted pass over rows with
//! clamp-to-edge sampling, applied along rows, then, through a transpose,
//! along columns.
use crate::grid::{
    lemma_offset_in_bounds, lemma_offset_parts, lemma_offset_shift, lemma_rows_bytes,
    lemma_same_pixels_same_data, offset, ImageData, CHANNELS,
};
use crate::partition::{lemma_partition_covers, row_range, rows_done};
use crate::FilterError;
use vstd::arithmetic::div_mod::{
    lemma_fundamental_div_mod, lemma_fundamental_div_mod_converse, lemma_mod_pos_bound,
};
use vstd::prelude::*;

verus! {

/// Sum of the first `n` weights.
pub open spec fn weight_sum(ws: Seq<u32>, n: int) -> int
    decreases n,
{
    if n <= 0 || n > ws.len() {
        0
    } else {
        weight_sum(ws, n - 1) + ws[n - 1]
    }
}

/// Sum of all weights: the divisor that normalises the kernel.
pub open spec fn kernel_total(ws: Seq<u32>) -> int {
    weight_sum(ws, ws.len() as int)
}

/// Number of taps on each side of the centre.
pub open spec fn kernel_radius(ws: Seq<u32>) -> int {
    (ws.len() - 1) / 2
}

/// Fixed-point weights `w[0..2r]`, read as `w[k] / total`: odd length and a
/// positive total that fits in `u32`.
pub open spec fn valid_kernel(ws: Seq<u32>) -> bool {
    &&& ws.len() % 2 == 1
    &&& 0 < kernel_total(ws) <= u32::MAX
}

/// `v` clamped into `[0, n - 1]`.
pub open spec fn clamp_coord(v: int, n: int) -> int {
    if v < 0 {
        0
    } else if v > n - 1 {
        n - 1
    } else {
        v
    }
}

/// `a / b` rounded to the nearest integer, halves rounded up.
pub open spec fn round_div(a: int, b: int) -> int {
    (2 * a + b) / (2 * b)
}

/// Weighted sum of the first `n` taps along row `y` around column `x`.
pub open spec fn row_acc(img: ImageData, ws: Seq<u32>, x: int, y: int, c: int, n: int) -> int
    decreases n,
{
    if n <= 0 || n > ws.len() {
        0
    } else {
        row_acc(img, ws, x, y, c, n - 1) + ws[n - 1] * img.px(
            clamp_coord(x + (n - 1) - kernel_radius(ws), img.width as int),
            y,
            c,
        )
    }
}

/// Channel `c` at `(x, y)` after the horizontal pass.
pub open spec fn row_blur_px(img: ImageData, ws: Seq<u32>, x: int, y: int, c: int) -> int {
    round_div(row_acc(img, ws, x, y, c, ws.len() as int), kernel_total(ws))
}

/// Weighted sum of the first `n` vertical taps over the horizontal pass.
pub open spec fn col_acc(img: ImageData, ws: Seq<u32>, x: int, y: int, c: int, n: int) -> int
    decreases n,
{
    if n <= 0 || n > ws.len() {
        0
    } else {
        col_acc(img, ws, x, y, c, n - 1) + ws[n - 1] * row_blur_px(
            img,
            ws,
            x,
            clamp_coord(y + (n - 1) - kernel_radius(ws), img.height as int),
            c,
        )
    }
}

/// Channel `c` at `(x, y)` after both passes.
pub open spec fn blur_px(img: ImageData, ws: Seq<u32>, x: int, y: int, c: int) -> int {
    round_div(col_acc(img, ws, x, y, c, ws.len() as int), kernel_total(ws))
}

/// `dst` is `src` after the horizontal pass.
pub open spec fn is_row_blur_of(dst: ImageData, src: ImageData, ws: Seq<u32>) -> bool {
    &&& dst.wf()
    &&& dst.width == src.width
    &&& dst.height == src.height
    &&& forall|x: int, y: int, c: int|
        0 <= x < src.width && 0 <= y < src.height && 0 <= c < 4 ==> #[trigger] dst.px(x, y, c)
            == row_blur_px(src, ws, x, y, c)
}

/// `dst` is `src` blurred along both axes.
pub open spec fn is_blur_of(dst: ImageData, src: ImageData, ws: Seq<u32>) -> bool {
    &&& dst.wf()
    &&& dst.width == src.width
    &&& dst.height == src.height
    &&& forall|x: int, y: int, c: int|
        0 <= x < src.width && 0 <= y < src.height && 0 <= c < 4 ==> #[trigger] dst.px(x, y, c)
            == blur_px(src, ws, x, y, c)
}

pub proof fn lemma_weight_sum_mono(ws: Seq<u32>, n: int, m: int)
    requires
        0 <= n <= m <= ws.len(),
    ensures
        0 <= weight_sum(ws, n) <= weight_sum(ws, m),
    decreases m - n,
{
    if n < m {
        lemma_weight_sum_mono(ws, n, m - 1);
    } else {
        lemma_weight_sum_nonneg(ws, n);
    }
}

proof fn lemma_weight_sum_nonneg(ws: Seq<u32>, n: int)
    ensures
        0 <= weight_sum(ws, n),
    decreases n,
{
    if n > 0 {
        lemma_weight_sum_nonneg(ws, n - 1);
    }
}

/// A rounded weighted mean of bytes is a byte.
pub proof fn lemma_round_div_byte(a: int, b: int)
    requires
        0 < b,
        0 <= a <= 255 * b,
    ensures
        0 <= round_div(a, b) <= 255,
{
    let x = 2 * a + b;
    let d = 2 * b;
    let q = x / d;
    let r = x % d;
    lemma_fundamental_div_mod(x, d);
    lemma_mod_pos_bound(x, d);
    assert(0 <= q < 256) by (nonlinear_arith)
        requires x == d * q + r, 0 <= r < d, 0 <= x < 256 * d, 0 < d;
}

/// Column of tap `j` for output column `x`, clamped to the row.
fn clamped_tap(x: usize, j: usize, r: usize, n: usize) -> (s: usize)
    requires
        x < n,
    ensures
        s == clamp_coord(x + j - r, n as int),
        s < n,
{
    if j < r {
        let back = r - j;
        if back <= x {
            x - back
        } else {
            0
        }
    } else {
        let fwd = j - r;
        if fwd < n - x {
            x + fwd
        } else {
            n - 1
        }
    }
}

/// One output byte of the horizontal pass.
fn row_tap_value(src: &ImageData, weights: &Vec<u32>, x: usize, y: usize, c: usize) -> (v: u8)
    requires
        src.wf(),
        valid_kernel(weights@),
        x < src.width,
        y < src.height,
        c < 4,
    ensures
        v == row_blur_px(*src, weights@, x as int, y as int, c as int),
{
    let n = weights.len();
    let r = n / 2;
    let w = src.width;
    let ghost ws = weights@;
    let len = src.data.len();
    let mut acc: u64 = 0;
    let mut total: u64 = 0;
    let mut j: usize = 0;
    while j < n
        invariant
            src.wf(),
            src.data@.len() == len,
            valid_kernel(ws),
            ws == weights@,
            n == ws.len(),
            r == kernel_radius(ws),
            w == src.width,
            x < w,
            y < src.height,
            c < 4,
            j <= n,
            total == weight_sum(ws, j as int),
            total <= kernel_total(ws),
            acc == row_acc(*src, ws, x as int, y as int, c as int, j as int),
            acc <= 255 * total,
        decreases n - j,
    {
        let sx = clamped_tap(x, j, r, w);
        proof {
            lemma_offset_in_bounds(w as int, src.height as int, sx as int, y as int, c as int);
            lemma_weight_sum_mono(ws, j as int + 1, n as int);
        }
        let p = src.data[(y * w + sx) * CHANNELS + c];
        let wt = weights[j];
        assert(wt as int * p as int <= 255 * wt as int) by (nonlinear_arith)
            requires p <= 255;
        acc = acc + wt as u64 * p as u64;
        total = total + wt as u64;
        j = j + 1;
    }
    proof {
        lemma_round_div_byte(acc as int, total as int);
    }
    ((2 * acc + total) / (2 * total)) as u8
}

/// The horizontal pass over rows `[start_y, end_y)`, computed into a private
/// buffer laid out as those rows alone.
pub fn horizontal_gaussian_blur(src: &ImageData, weights: &Vec<u32>, start_y: usize, end_y: usize) -> (rows: Vec<u8>)
    requires
        src.wf(),
        valid_kernel(weights@),
        start_y <= end_y <= src.height,
    ensures
        rows@.len() == (end_y - start_y) * src.width * 4,
        forall|x: int, y: int, c: int|
            0 <= x < src.width && start_y <= y < end_y && 0 <= c < 4 ==> rows@[offset(
                src.width as int,
                x,
                y - start_y,
                c,
            )] == row_blur_px(*src, weights@, x, y, c),
{
    let w = src.width;
    let mut rows: Vec<u8> = Vec::new();
    let mut y: usize = start_y;
    while y < end_y
        invariant
            src.wf(),
            valid_kernel(weights@),
            w == src.width,
            start_y <= y <= end_y <= src.height,
            rows@.len() == (y - start_y) * w * 4,
            forall|i: int|
                0 <= i < rows@.len() ==> #[trigger] rows@[i] == row_blur_px(
                    *src,
                    weights@,
                    (i / 4) % (w as int),
                    start_y + (i / 4) / (w as int),
                    i % 4,
                ),
        decreases end_y - y,
    {
        let mut x: usize = 0;
        while x < w
            invariant
                src.wf(),
                valid_kernel(weights@),
                w == src.width,
                start_y <= y < end_y <= src.height,
                x <= w,
                rows@.len() == ((y - start_y) * w + x) * 4,
                forall|i: int|
                    0 <= i < rows@.len() ==> #[trigger] rows@[i] == row_blur_px(
                        *src,
                        weights@,
                        (i / 4) % (w as int),
                        start_y + (i / 4) / (w as int),
                        i % 4,
                    ),
            decreases w - x,
        {
            let mut c: usize = 0;
            while c < CHANNELS
                invariant
                    src.wf(),
                    valid_kernel(weights@),
                    w == src.width,
                    start_y <= y < end_y <= src.height,
                    x < w,
                    c <= 4,
                    rows@.len() == ((y - start_y) * w + x) * 4 + c,
                    forall|i: int|
                        0 <= i < rows@.len() ==> #[trigger] rows@[i] == row_blur_px(
                            *src,
                            weights@,
                            (i / 4) % (w as int),
                            start_y + (i / 4) / (w as int),
                            i % 4,
                        ),
                decreases 4 - c,
            {
                let v = row_tap_value(src, weights, x, y, c);
                let ghost before = rows@;
                rows.push(v);
                proof {
                    lemma_offset_parts(w as int, x as int, y - start_y, c as int);
                    assert forall|i: int| 0 <= i < rows@.len() implies #[trigger] rows@[i]
                        == row_blur_px(
                        *src,
                        weights@,
                        (i / 4) % (w as int),
                        start_y + (i / 4) / (w as int),
                        i % 4,
                    ) by {
                        if i < before.len() {
                            assert(rows@[i] == before[i]);
                        } else {
                            assert(i == offset(w as int, x as int, y - start_y, c as int));
                            assert(rows@[i] == v);
                            assert((i / 4) % (w as int) == x);
                            assert(start_y + (i / 4) / (w as int) == y);
                            assert(i % 4 == c);
                        }
                    }
                }
                c = c + 1;
            }
            x = x + 1;
        }
        assert(((y - start_y) * w + w) * 4 == (y + 1 - start_y) * w * 4) by (nonlinear_arith);
        y = y + 1;
    }
    proof {
        assert forall|x: int, y: int, c: int|
            0 <= x < w && start_y <= y < end_y && 0 <= c < 4 implies rows@[offset(
                w as int,
                x,
                y - start_y,
                c,
            )] == row_blur_px(*src, weights@, x, y, c) by {
            lemma_offset_parts(w as int, x, y - start_y, c);
            lemma_offset_in_bounds(w as int, end_y - start_y, x, y - start_y, c);
            assert((end_y - start_y) * w * 4 == w * (end_y - start_y) * 4) by (nonlinear_arith);
        }
    }
    rows
}

/// The horizontal pass, with the rows split among `num_workers` workers
/// that each compute their block privately and then write it in one step.
pub fn horizontal_pass(src: &ImageData, weights: &Vec<u32>, num_workers: usize) -> (dst: ImageData)
    requires
        src.wf(),
        valid_kernel(weights@),
        1 <= num_workers,
    ensures
        is_row_blur_of(dst, *src, weights@),
{
    let w = src.width;
    let h = src.height;
    let len = src.data.len();
    proof {
        lemma_rows_bytes(w as int, 0, 0, h as int);
    }
    let mut dst = ImageData::new_zeroed(w, h);
    let mut i: usize = 0;
    proof {
        lemma_partition_covers(h as int, num_workers as int, 0);
    }
    while i < num_workers
        invariant
            src.wf(),
            valid_kernel(weights@),
            w == src.width,
            h == src.height,
            dst.wf(),
            dst.width == w,
            dst.height == h,
            1 <= num_workers,
            i <= num_workers,
            forall|x: int, y: int, c: int|
                0 <= x < w && 0 <= y < rows_done(h as int, num_workers as int, i as int) && 0
                    <= c < 4 ==> #[trigger] dst.px(x, y, c) == row_blur_px(*src, weights@, x, y, c),
        decreases num_workers - i,
    {
        let (start, end) = row_range(h, num_workers, i);
        let rows = horizontal_gaussian_blur(src, weights, start, end);
        proof {
            lemma_partition_covers(h as int, num_workers as int, i as int);
            lemma_rows_bytes(w as int, start as int, end as int, h as int);
        }
        let ghost before = dst;
        dst.write_rows(start, &rows);
        proof {
            assert forall|x: int, y: int, c: int|
                0 <= x < w && 0 <= y < rows_done(h as int, num_workers as int, i + 1) && 0 <= c
                    < 4 implies #[trigger] dst.px(x, y, c) == row_blur_px(
                *src,
                weights@,
                x,
                y,
                c,
            ) by {
                lemma_offset_in_bounds(w as int, h as int, x, y, c);
                lemma_offset_shift(w as int, x, y, c, start as int);
                if y < start {
                    assert(offset(w as int, x, y, c) < start * w * 4) by (nonlinear_arith)
                        requires 0 <= x < w, y < start, 0 <= c < 4, 0 <= y;
                    assert(dst.px(x, y, c) == before.px(x, y, c));
                } else {
                    assert(offset(w as int, x, y, c) < end * w * 4) by (nonlinear_arith)
                        requires 0 <= x < w, y < end, 0 <= c < 4, 0 <= y;
                    assert(start * w * 4 <= offset(w as int, x, y, c)) by (nonlinear_arith)
                        requires 0 <= x < w, start <= y, 0 <= c < 4;
                }
            }
        }
        i = i + 1;
    }
    dst
}

/// Whether `weights` is a usable kernel.
pub fn kernel_is_valid(weights: &Vec<u32>) -> (b: bool)
    ensures
        b == valid_kernel(weights@),
{
    let n = weights.len();
    if n % 2 == 0 {
        return false;
    }
    let mut total: u64 = 0;
    let mut j: usize = 0;
    while j < n
        invariant
            n == weights@.len(),
            j <= n,
            total == weight_sum(weights@, j as int),
            total <= u32::MAX,
        decreases n - j,
    {
        total = total + weights[j] as u64;
        if total > u32::MAX as u64 {
            proof {
                lemma_weight_sum_mono(weights@, j as int + 1, n as int);
            }
            return false;
        }
        j = j + 1;
    }
    total > 0
}

/// The vertical pass read through a transpose is the column sum.
proof fn lemma_col_acc_transposed(
    src: ImageData,
    h1: ImageData,
    t: ImageData,
    ws: Seq<u32>,
    x: int,
    y: int,
    c: int,
    n: int,
)
    requires
        is_row_blur_of(h1, src, ws),
        ImageData::is_transpose_of(t, h1),
        0 <= x < src.width,
        0 <= y < src.height,
        0 <= c < 4,
        0 <= n <= ws.len(),
    ensures
        row_acc(t, ws, y, x, c, n) == col_acc(src, ws, x, y, c, n),
    decreases n,
{
    if n > 0 {
        lemma_col_acc_transposed(src, h1, t, ws, x, y, c, n - 1);
        let yy = clamp_coord(y + (n - 1) - kernel_radius(ws), src.height as int);
        assert(t.px(yy, x, c) == h1.px(x, yy, c));
    }
}

/// Blurs `img` with the kernel `weights[k] / total`: a horizontal pass, a
/// transpose, the same pass again, and a transpose back. The result depends
/// on the image and the weights alone, not on `num_workers`.
pub fn apply_gaussian_blur(img: &ImageData, weights: &Vec<u32>, num_workers: usize) -> (r: Result<ImageData, FilterError>)
    ensures
        !img.wf() ==> r == Err::<ImageData, FilterError>(FilterError::InvalidBuffer),
        img.wf() && num_workers == 0 ==> r == Err::<ImageData, FilterError>(
            FilterError::InvalidWorkerCount,
        ),
        img.wf() && num_workers >= 1 && !valid_kernel(weights@) ==> r == Err::<
            ImageData,
            FilterError,
        >(FilterError::InvalidKernel),
        img.wf() && num_workers >= 1 && valid_kernel(weights@) ==> r is Ok && is_blur_of(
            r->Ok_0,
            *img,
            weights@,
        ),
{
    if !img.is_well_formed() {
        return Err(FilterError::InvalidBuffer);
    }
    if num_workers < 1 {
        return Err(FilterError::InvalidWorkerCount);
    }
    if !kernel_is_valid(weights) {
        return Err(FilterError::InvalidKernel);
    }
    let horizontal = horizontal_pass(img, weights, num_workers);
    let transposed = horizontal.transpose();
    let vertical = horizontal_pass(&transposed, weights, num_workers);
    let out = vertical.transpose();
    proof {
        assert forall|x: int, y: int, c: int|
            0 <= x < img.width && 0 <= y < img.height && 0 <= c < 4 implies #[trigger] out.px(
                x,
                y,
                c,
            ) == blur_px(*img, weights@, x, y, c) by {
            lemma_col_acc_transposed(
                *img,
                horizontal,
                transposed,
                weights@,
                x,
                y,
                c,
                weights@.len() as int,
            );
            assert(out.px(x, y, c) == vertical.px(y, x, c));
        }
    }
    Ok(out)
}

/// Every pixel of `img` equals its first pixel, channel by channel.
pub open spec fn is_uniform(img: ImageData) -> bool {
    forall|x: int, y: int, c: int|
        0 <= x < img.width && 0 <= y < img.height && 0 <= c < 4 ==> #[trigger] img.px(x, y, c)
            == img.px(0, 0, c)
}

proof fn lemma_round_div_exact(p: int, t: int)
    requires
        0 < t,
    ensures
        round_div(p * t, t) == p,
{
    assert(2 * (p * t) + t == p * (2 * t) + t) by (nonlinear_arith);
    lemma_fundamental_div_mod_converse(2 * (p * t) + t, 2 * t, p, t);
}

proof fn lemma_row_acc_uniform(img: ImageData, ws: Seq<u32>, x: int, y: int, c: int, n: int)
    requires
        img.wf(),
        is_uniform(img),
        0 < img.width,
        0 <= y < img.height,
        0 <= c < 4,
        0 <= n <= ws.len(),
    ensures
        row_acc(img, ws, x, y, c, n) == img.px(0, 0, c) * weight_sum(ws, n),
    decreases n,
{
    if n > 0 {
        lemma_row_acc_uniform(img, ws, x, y, c, n - 1);
        let xx = clamp_coord(x + (n - 1) - kernel_radius(ws), img.width as int);
        assert(img.px(xx, y, c) == img.px(0, 0, c));
        assert(img.px(0, 0, c) * weight_sum(ws, n - 1) + ws[n - 1] * img.px(0, 0, c) == img.px(
            0,
            0,
            c,
        ) * weight_sum(ws, n)) by (nonlinear_arith)
            requires weight_sum(ws, n) == weight_sum(ws, n - 1) + ws[n - 1];
    }
}

proof fn lemma_col_acc_uniform(img: ImageData, ws: Seq<u32>, x: int, y: int, c: int, n: int)
    requires
        img.wf(),
        is_uniform(img),
        valid_kernel(ws),
        0 <= x < img.width,
        0 < img.height,
        0 <= c < 4,
        0 <= n <= ws.len(),
    ensures
        col_acc(img, ws, x, y, c, n) == img.px(0, 0, c) * weight_sum(ws, n),
    decreases n,
{
    if n > 0 {
        lemma_col_acc_uniform(img, ws, x, y, c, n - 1);
        let yy = clamp_coord(y + (n - 1) - kernel_radius(ws), img.height as int);
        lemma_row_acc_uniform(img, ws, x, yy, c, ws.len() as int);
        lemma_round_div_exact(img.px(0, 0, c) as int, kernel_total(ws));
        assert(row_blur_px(img, ws, x, yy, c) == img.px(0, 0, c));
        assert(img.px(0, 0, c) * weight_sum(ws, n - 1) + ws[n - 1] * img.px(0, 0, c) == img.px(
            0,
            0,
            c,
        ) * weight_sum(ws, n)) by (nonlinear_arith)
            requires weight_sum(ws, n) == weight_sum(ws, n - 1) + ws[n - 1];
    }
}

/// Blurring a raster whose pixels are all the same leaves every pixel as
/// it was, whatever the kernel.
pub proof fn lemma_blur_preserves_uniform(img: ImageData, ws: Seq<u32>, x: int, y: int, c: int)
    requires
        img.wf(),
        is_uniform(img),
        valid_kernel(ws),
        0 <= x < img.width,
        0 <= y < img.height,
        0 <= c < 4,
    ensures
        blur_px(img, ws, x, y, c) == img.px(x, y, c),
{
    lemma_col_acc_uniform(img, ws, x, y, c, ws.len() as int);
    lemma_round_div_exact(img.px(0, 0, c) as int, kernel_total(ws));
}

/// The blurred raster is determined by the image and the weights: two
/// results, whatever worker counts produced them, are byte for byte equal.
pub proof fn lemma_blur_unique(img: ImageData, ws: Seq<u32>, a: ImageData, b: ImageData)
    requires
        is_blur_of(a, img, ws),
        is_blur_of(b, img, ws),
    ensures
        a.data@ == b.data@,
{
    lemma_same_pixels_same_data(a, b);
}

} // verus!
