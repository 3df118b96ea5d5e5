use image_filters::integral::IntegralImage;
use image_filters::{
    apply_gaussian_blur, apply_kuwahara_filter, horizontal_gaussian_blur, kernel_is_valid,
    process_kuwahara_rows, row_range, FilterError, ImageData,
};

fn raster(width: usize, height: usize, mut f: impl FnMut(usize, usize) -> [u8; 4]) -> ImageData {
    let mut data = Vec::with_capacity(width * height * 4);
    for y in 0..height {
        for x in 0..width {
            data.extend_from_slice(&f(x, y));
        }
    }
    ImageData { data, width, height, channels: 4 }
}

/// Fixed-point Gaussian weights with sigma = radius / 3, scaled to 65536.
fn gaussian_weights(radius: usize) -> Vec<u32> {
    if radius == 0 {
        return vec![1];
    }
    let sigma = radius as f64 / 3.0;
    let raw: Vec<f64> = (0..2 * radius + 1)
        .map(|i| {
            let x = i as f64 - radius as f64;
            (-x * x / (2.0 * sigma * sigma)).exp()
        })
        .collect();
    let sum: f64 = raw.iter().sum();
    raw.iter().map(|w| ((w / sum) * 65536.0).round() as u32).collect()
}

fn pseudo_random(width: usize, height: usize, seed: u32) -> ImageData {
    let mut s = seed;
    raster(width, height, |_, _| {
        let mut p = [0u8; 4];
        for b in p.iter_mut() {
            s = s.wrapping_mul(1664525).wrapping_add(1013904223);
            *b = (s >> 24) as u8;
        }
        p
    })
}

#[test]
fn transpose_twice_restores_non_square() {
    let img = pseudo_random(5, 3, 7);
    let t = img.transpose();
    assert_eq!(t.width, 3);
    assert_eq!(t.height, 5);
    let back = t.transpose();
    assert_eq!(back.width, 5);
    assert_eq!(back.height, 3);
    assert_eq!(back.data, img.data);
}

#[test]
fn transpose_moves_pixels() {
    let img = raster(2, 3, |x, y| [x as u8, y as u8, 9, 255]);
    let t = img.transpose();
    // pixel (x, y) of t is pixel (y, x) of img
    let idx = (1 * t.width + 2) * 4;
    assert_eq!(&t.data[idx..idx + 4], &[1, 2, 9, 255]);
}

#[test]
fn row_ranges_cover_rows() {
    assert_eq!(row_range(10, 3, 0), (0, 3));
    assert_eq!(row_range(10, 3, 1), (3, 6));
    assert_eq!(row_range(10, 3, 2), (6, 10));
    assert_eq!(row_range(8, 100, 5), (0, 0));
    assert_eq!(row_range(8, 100, 99), (0, 8));
}

#[test]
fn kernel_validity() {
    assert!(kernel_is_valid(&vec![1]));
    assert!(kernel_is_valid(&vec![1, 2, 1]));
    assert!(!kernel_is_valid(&vec![1, 1]));
    assert!(!kernel_is_valid(&vec![0, 0, 0]));
    assert!(!kernel_is_valid(&vec![u32::MAX, 1, 0]));
    assert!(!kernel_is_valid(&vec![]));
}

#[test]
fn uniform_red_raster_unchanged_by_blur() {
    let img = raster(4, 4, |_, _| [255, 0, 0, 255]);
    let k = gaussian_weights(1);
    let one = apply_gaussian_blur(&img, &k, 1).unwrap();
    let four = apply_gaussian_blur(&img, &k, 4).unwrap();
    assert_eq!(one.data, img.data);
    assert_eq!(four.data, img.data);
}

#[test]
fn uniform_raster_unchanged_for_many_radii() {
    let img = raster(7, 5, |_, _| [12, 200, 77, 130]);
    for radius in 0..6 {
        let out = apply_gaussian_blur(&img, &gaussian_weights(radius), 3).unwrap();
        assert_eq!(out.data, img.data, "radius {}", radius);
    }
}

#[test]
fn blur_independent_of_worker_count() {
    let img = pseudo_random(9, 8, 42);
    let k = gaussian_weights(2);
    let reference = apply_gaussian_blur(&img, &k, 1).unwrap();
    for workers in [2, 3, 5, 8] {
        let out = apply_gaussian_blur(&img, &k, workers).unwrap();
        assert_eq!(out.data, reference.data, "workers {}", workers);
    }
}

#[test]
fn blur_radius_zero_is_identity() {
    let img = pseudo_random(6, 4, 3);
    let out = apply_gaussian_blur(&img, &vec![1], 2).unwrap();
    assert_eq!(out.data, img.data);
}

#[test]
fn blur_exact_values_on_a_row() {
    // weights 1:2:1 over a single row [0, 100, 200] in red
    let img = raster(3, 1, |x, _| [(x * 100) as u8, 0, 0, 255]);
    let out = apply_gaussian_blur(&img, &vec![1, 2, 1], 1).unwrap();
    let reds: Vec<u8> = out.data.chunks(4).map(|p| p[0]).collect();
    assert_eq!(reds, vec![25, 100, 175]);
    let alphas: Vec<u8> = out.data.chunks(4).map(|p| p[3]).collect();
    assert_eq!(alphas, vec![255, 255, 255]);
}

#[test]
fn blur_rounds_half_up() {
    // sums 1/4 and 3/4 of one unit round to 0 and 1
    let img = raster(2, 1, |x, _| [x as u8, 0, 0, 0]);
    let out = apply_gaussian_blur(&img, &vec![1, 2, 1], 1).unwrap();
    assert_eq!(out.data[0], 0);
    assert_eq!(out.data[4], 1);
    // exactly one half rounds up
    let img = raster(2, 1, |x, _| [x as u8, 0, 0, 0]);
    let out = apply_gaussian_blur(&img, &vec![1, 1, 0], 1).unwrap();
    assert_eq!(out.data[4], 1);
}

#[test]
fn blur_rows_block_matches_whole_pass() {
    let img = pseudo_random(5, 6, 11);
    let k = vec![1, 4, 6, 4, 1];
    let block = horizontal_gaussian_blur(&img, &k, 2, 5);
    assert_eq!(block.len(), 3 * 5 * 4);
    let whole = horizontal_gaussian_blur(&img, &k, 0, 6);
    assert_eq!(&whole[2 * 5 * 4..5 * 5 * 4], &block[..]);
}

#[test]
fn blur_errors() {
    let img = raster(2, 2, |_, _| [1, 2, 3, 4]);
    let mut short = img.clone();
    short.data.pop();
    assert_eq!(apply_gaussian_blur(&short, &vec![1], 1).unwrap_err(), FilterError::InvalidBuffer);
    let mut three = img.clone();
    three.channels = 3;
    assert_eq!(apply_gaussian_blur(&three, &vec![1], 1).unwrap_err(), FilterError::InvalidBuffer);
    assert_eq!(apply_gaussian_blur(&img, &vec![1], 0).unwrap_err(), FilterError::InvalidWorkerCount);
    assert_eq!(apply_gaussian_blur(&img, &vec![1, 1], 1).unwrap_err(), FilterError::InvalidKernel);
    assert_eq!(apply_gaussian_blur(&img, &vec![0], 1).unwrap_err(), FilterError::InvalidKernel);
}

#[test]
fn more_workers_than_rows() {
    let img = pseudo_random(8, 8, 5);
    let k = gaussian_weights(1);
    let a = apply_gaussian_blur(&img, &k, 100).unwrap();
    let b = apply_gaussian_blur(&img, &k, 1).unwrap();
    assert_eq!(a.data, b.data);
    let c = apply_kuwahara_filter(&img, 2, 100).unwrap();
    let d = apply_kuwahara_filter(&img, 2, 1).unwrap();
    assert_eq!(c.data, d.data);
}

#[test]
fn empty_raster() {
    let img = ImageData { data: vec![], width: 0, height: 5, channels: 4 };
    let out = apply_gaussian_blur(&img, &vec![1, 2, 1], 3).unwrap();
    assert_eq!(out.data.len(), 0);
    assert_eq!((out.width, out.height), (0, 5));
    let out = apply_kuwahara_filter(&img, 1, 3).unwrap();
    assert_eq!(out.data.len(), 0);
}

#[test]
fn kuwahara_radius_zero_is_identity() {
    let img = pseudo_random(7, 6, 99);
    for workers in [1, 4] {
        let out = apply_kuwahara_filter(&img, 0, workers).unwrap();
        assert_eq!(out.data, img.data);
    }
}

#[test]
fn kuwahara_exact_values_on_a_row() {
    let vals = [10u8, 20, 90];
    let img = raster(3, 1, |x, _| [vals[x], 0, 0, 7 + x as u8]);
    let out = apply_kuwahara_filter(&img, 1, 1).unwrap();
    let reds: Vec<u8> = out.data.chunks(4).map(|p| p[0]).collect();
    assert_eq!(reds, vec![10, 15, 90]);
    let alphas: Vec<u8> = out.data.chunks(4).map(|p| p[3]).collect();
    assert_eq!(alphas, vec![7, 8, 9]);
}

#[test]
fn kuwahara_errors() {
    let img = raster(2, 2, |_, _| [1, 2, 3, 4]);
    let mut long = img.clone();
    long.data.push(0);
    assert_eq!(apply_kuwahara_filter(&long, 1, 1).unwrap_err(), FilterError::InvalidBuffer);
    assert_eq!(apply_kuwahara_filter(&img, 1, 0).unwrap_err(), FilterError::InvalidWorkerCount);
}

/// Straightforward single-threaded Kuwahara on floating point, for comparison.
fn kuwahara_reference(img: &ImageData, r: i64) -> Vec<u8> {
    let (w, h) = (img.width as i64, img.height as i64);
    let px = |x: i64, y: i64, c: usize| img.data[((y * w + x) * 4) as usize + c] as f64;
    let mut out = Vec::new();
    for y in 0..h {
        for x in 0..w {
            let quads = [
                [x - r, y - r, x, y],
                [x, y - r, x + r, y],
                [x - r, y, x, y + r],
                [x, y, x + r, y + r],
            ];
            let mut best_var = f64::MAX;
            let mut best_mean = [0.0; 3];
            for q in quads.iter() {
                let (x1, y1) = (q[0].max(0), q[1].max(0));
                let (x2, y2) = (q[2].min(w - 1), q[3].min(h - 1));
                let area = ((x2 - x1 + 1) * (y2 - y1 + 1)) as f64;
                let mut mean = [0.0; 3];
                let mut total = 0.0;
                for c in 0..3 {
                    let (mut s, mut sq) = (0.0, 0.0);
                    for yy in y1..=y2 {
                        for xx in x1..=x2 {
                            s += px(xx, yy, c);
                            sq += px(xx, yy, c) * px(xx, yy, c);
                        }
                    }
                    mean[c] = s / area;
                    total += (sq / area - mean[c] * mean[c]).max(0.0);
                }
                if total < best_var {
                    best_var = total;
                    best_mean = mean;
                }
            }
            for c in 0..3 {
                out.push(best_mean[c].round().min(255.0) as u8);
            }
            out.push(px(x, y, 3) as u8);
        }
    }
    out
}

#[test]
fn kuwahara_checkerboard_matches_reference() {
    let img = raster(8, 8, |x, y| if (x + y) % 2 == 0 { [0, 0, 0, 255] } else { [255, 255, 255, 255] });
    let expected = kuwahara_reference(&img, 1);
    for workers in [1, 2, 3, 8, 100] {
        let out = apply_kuwahara_filter(&img, 1, workers).unwrap();
        assert_eq!(out.data, expected, "workers {}", workers);
    }
}

#[test]
fn kuwahara_rows_block_matches_whole() {
    let img = pseudo_random(6, 5, 17);
    let mut table = IntegralImage::new(6, 5);
    table.build(&img);
    let block = process_kuwahara_rows(&img, &table, 2, 1, 4);
    let whole = process_kuwahara_rows(&img, &table, 2, 0, 5);
    assert_eq!(&whole[6 * 4..4 * 6 * 4], &block[..]);
    let p = image_filters::kuwahara_filter_pixel(&img, &table, 3, 2, 2);
    let idx = (2 * 6 + 3) * 4;
    assert_eq!(&whole[idx..idx + 4], &p[..]);
}

#[test]
fn full_region_stats_match_direct_sums() {
    let img = pseudo_random(5, 4, 123);
    let mut table = IntegralImage::new(5, 4);
    table.build(&img);
    let stats = table.get_region_stats(0, 0, 4, 3);
    assert_eq!(stats.area, 20);
    for c in 0..3 {
        let s: u64 = img.data.chunks(4).map(|p| p[c] as u64).sum();
        let sq: u64 = img.data.chunks(4).map(|p| (p[c] as u64) * (p[c] as u64)).sum();
        assert_eq!(stats.sum[c], s);
        assert_eq!(stats.sum_sq[c], sq);
        // mean and variance from the sums agree with the direct computation
        let n = 20.0;
        let mean = s as f64 / n;
        let direct_var: f64 =
            img.data.chunks(4).map(|p| (p[c] as f64 - mean) * (p[c] as f64 - mean)).sum::<f64>() / n;
        let var = sq as f64 / n - mean * mean;
        assert!((var - direct_var).abs() < 1e-9);
    }
}

#[test]
fn region_stats_clamp_and_empty() {
    let img = raster(3, 3, |x, y| [(x + 3 * y) as u8, 1, 2, 0]);
    let mut table = IntegralImage::new(3, 3);
    table.build(&img);
    // clamped to [1, 2] x [1, 2]: values 4, 5, 7, 8
    let s = table.get_region_stats(1, 1, 10, 10);
    assert_eq!(s.area, 4);
    assert_eq!(s.sum[0], 24);
    assert_eq!(s.sum_sq[0], 16 + 25 + 49 + 64);
    assert_eq!(s.sum[1], 4);
    assert_eq!(s.mean_byte(0), 6);
    // entirely outside
    let e = table.get_region_stats(5, 5, 9, 9);
    assert_eq!(e.area, 0);
    assert_eq!(e.sum, [0, 0, 0]);
    let e = table.get_region_stats(-4, -4, -1, 2);
    assert_eq!(e.area, 0);
}

#[test]
fn variance_comparison() {
    let flat = image_filters::RegionStats { area: 2, sum: [20, 20, 20], sum_sq: [200, 200, 200] };
    let spread = image_filters::RegionStats { area: 2, sum: [20, 0, 0], sum_sq: [400, 0, 0] };
    assert!(flat.varies_less_than(&spread));
    assert!(!spread.varies_less_than(&flat));
    assert!(!flat.varies_less_than(&flat));
    assert!(image_filters::kuwahara::fraction_lt(1, 3, 1, 2));
    assert!(!image_filters::kuwahara::fraction_lt(2, 4, 1, 2));
    assert!(image_filters::kuwahara::fraction_lt(7, 5, 10, 7));
    assert!(!image_filters::kuwahara::fraction_lt(10, 7, 7, 5));
}

#[test]
fn dynamic_image_round_trip() {
    let img = pseudo_random(3, 2, 8);
    let dynamic = img.to_dynamic_image();
    assert_eq!((dynamic.width(), dynamic.height()), (3, 2));
    let back = ImageData::from_dynamic_image(&dynamic);
    assert_eq!((back.width, back.height, back.channels), (3, 2, 4));
    assert_eq!(back.data, img.data);
}

#[test]
fn dynamic_image_converts_to_rgba() {
    let gray = image::GrayImage::from_raw(2, 1, vec![10, 200]).unwrap();
    let back = ImageData::from_dynamic_image(&image::DynamicImage::ImageLuma8(gray));
    assert_eq!(back.data, vec![10, 10, 10, 255, 200, 200, 200, 255]);
}
