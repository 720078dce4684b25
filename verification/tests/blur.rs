use gaussian_blur::float::repr::F32;
use gaussian_blur::unified::BackendReply;
use gaussian_blur::{
    gaussian_blur_3x3, gaussian_blur_5x5, image_to_pixels, pixels_to_image, simple_gaussian_blur,
    GaussianBlur, GaussianKernel, Pixel, RgbaImage, UnifiedGaussianBlur,
};

fn f(x: f32) -> F32 {
    F32::from_bits(x.to_bits())
}

fn g(x: F32) -> f32 {
    f32::from_bits(x.to_bits())
}

fn exp(x: F32) -> F32 {
    f(g(x).exp())
}

#[test]
fn lib_test_pixel_conversions() {
    let pixel = Pixel::new(255, 128, 64, 32);
    let array = pixel.to_f32_array();
    let pixel2 = Pixel::from_f32_array(array);

    assert_eq!(pixel, pixel2);
    assert_eq!(array.map(g), [255.0, 128.0, 64.0, 32.0]);

    let simd = pixel.to_simd();
    let pixel3 = Pixel::from_simd(simd);
    assert_eq!(pixel, pixel3);
}

#[test]
fn test_gaussian_blur() {
    let image = vec![
        vec![Pixel::rgb(255, 0, 0), Pixel::rgb(255, 0, 0), Pixel::rgb(255, 0, 0)],
        vec![Pixel::rgb(255, 0, 0), Pixel::rgb(255, 0, 0), Pixel::rgb(255, 0, 0)],
        vec![Pixel::rgb(255, 0, 0), Pixel::rgb(255, 0, 0), Pixel::rgb(255, 0, 0)],
    ];

    let blur = GaussianBlur::new(f(1.0), Some(1), true, &exp);
    let blurred = blur.blur(&image);

    assert_eq!(blurred.len(), 3);
    assert_eq!(blurred[0].len(), 3);

    let center = blurred[1][1];
    assert!(center.r > 200);
    assert!(center.g < 50);
    assert!(center.b < 50);

    let blur_simd = GaussianBlur::new(f(1.0), Some(1), true, &exp).with_simd(true);
    let blurred_simd = blur_simd.blur(&image);

    for y in 0..3 {
        for x in 0..3 {
            let p1 = blurred[y][x];
            let p2 = blurred_simd[y][x];
            assert!((p1.r as i32 - p2.r as i32).abs() <= 2);
            assert!((p1.g as i32 - p2.g as i32).abs() <= 2);
            assert!((p1.b as i32 - p2.b as i32).abs() <= 2);
        }
    }
}

#[test]
fn test_fast_blurs() {
    let image = vec![
        vec![Pixel::rgb(255, 0, 0), Pixel::rgb(0, 255, 0), Pixel::rgb(0, 0, 255)],
        vec![Pixel::rgb(255, 255, 0), Pixel::rgb(255, 0, 255), Pixel::rgb(0, 255, 255)],
        vec![Pixel::rgb(128, 128, 128), Pixel::rgb(64, 64, 64), Pixel::rgb(192, 192, 192)],
    ];

    let blurred_3x3 = gaussian_blur_3x3(&image, true);
    assert_eq!(blurred_3x3.len(), 3);
    assert_eq!(blurred_3x3[0].len(), 3);

    let blurred_5x5 = gaussian_blur_5x5(&image, true);
    assert_eq!(blurred_5x5.len(), 3);
    assert_eq!(blurred_5x5[0].len(), 3);

    let center_3x3 = blurred_3x3[1][1];
    let center_5x5 = blurred_5x5[1][1];

    let diff_3x3 = (center_3x3.r as i32 - center_3x3.g as i32).abs();
    let diff_5x5 = (center_5x5.r as i32 - center_5x5.g as i32).abs();
    assert!(diff_5x5 <= diff_3x3);
}

#[test]
fn test_unified_blur() {
    let image = vec![
        vec![Pixel::rgb(255, 0, 0), Pixel::rgb(0, 255, 0)],
        vec![Pixel::rgb(0, 0, 255), Pixel::rgb(255, 255, 255)],
    ];

    let unified = UnifiedGaussianBlur::new(f(1.0), Some(1), true).with_cpu().with_simd(true);

    let blurred = unified.blur(&image, BackendReply::Nothing, &exp);
    assert_eq!(blurred.len(), 2);
    assert_eq!(blurred[0].len(), 2);

    for row in &blurred {
        for pixel in row {
            assert!(pixel.r as u32 <= 255);
            assert!(pixel.g as u32 <= 255);
            assert!(pixel.b as u32 <= 255);
            assert!(pixel.a as u32 <= 255);
        }
    }
}

#[test]
fn test_blur_test_pixel_conversions() {
    let pixel = Pixel::new(255, 128, 64, 32);
    let array = pixel.to_f32_array();
    let pixel2 = Pixel::from_f32_array(array);

    assert_eq!(pixel, pixel2);
    assert_eq!(array.map(g), [255.0, 128.0, 64.0, 32.0]);
}

#[test]
fn test_simple_blur() {
    let image = vec![
        vec![Pixel::rgb(255, 0, 0), Pixel::rgb(255, 0, 0), Pixel::rgb(255, 0, 0)],
        vec![Pixel::rgb(255, 0, 0), Pixel::rgb(255, 0, 0), Pixel::rgb(255, 0, 0)],
        vec![Pixel::rgb(255, 0, 0), Pixel::rgb(255, 0, 0), Pixel::rgb(255, 0, 0)],
    ];

    let blurred = simple_gaussian_blur(&image, f(1.0), Some(1), true, &exp);

    assert_eq!(blurred.len(), 3);
    assert_eq!(blurred[0].len(), 3);

    let center = blurred[1][1];
    assert!(center.r > 200);
    assert!(center.g < 50);
    assert!(center.b < 50);
}

#[test]
fn test_optimized_blur() {
    let image = vec![
        vec![Pixel::rgb(255, 0, 0), Pixel::rgb(0, 255, 0)],
        vec![Pixel::rgb(0, 0, 255), Pixel::rgb(255, 255, 255)],
    ];

    let blur = GaussianBlur::new(f(0.5), Some(1), true, &exp);
    let blurred = blur.blur(&image);

    assert_eq!(blurred.len(), 2);
    assert_eq!(blurred[0].len(), 2);
}

#[test]
fn test_fast_3x3_blur() {
    let image = vec![vec![Pixel::rgb(255, 0, 0); 5]; 5];

    let blurred = gaussian_blur_3x3(&image, true);

    assert_eq!(blurred.len(), 5);
    assert_eq!(blurred[0].len(), 5);

    for row in &blurred {
        for pixel in row {
            assert!(pixel.r > 200);
            assert!(pixel.g < 100);
            assert!(pixel.b < 100);
        }
    }
}

#[test]
fn test_image_conversions() {
    let mut img = RgbaImage::new(2, 2);
    assert!(img.put_pixel(0, 0, Pixel::new(255, 0, 0, 255)));
    assert!(img.put_pixel(1, 0, Pixel::new(0, 255, 0, 255)));
    assert!(img.put_pixel(0, 1, Pixel::new(0, 0, 255, 255)));
    assert!(img.put_pixel(1, 1, Pixel::new(255, 255, 255, 255)));

    let pixels = image_to_pixels(&img);
    assert_eq!(pixels.len(), 2);
    assert_eq!(pixels[0].len(), 2);

    let img2 = pixels_to_image(&pixels);

    for y in 0..2 {
        for x in 0..2 {
            let p1 = img.get_pixel(x, y);
            let p2 = img2.get_pixel(x, y);
            assert!(p1.is_some());
            assert_eq!(p1, p2);
        }
    }
}

#[test]
fn test_in_place_blur() {
    let mut image = vec![vec![Pixel::rgb(255, 0, 0); 10]; 10];

    let original_pixel = image[5][5];
    let blur = GaussianBlur::new(f(1.0), None, true, &exp);

    blur.blur_in_place(&mut image);

    assert_ne!(image[5][5], original_pixel);
    assert!(image[5][5].r > 200);
}

struct Lcg(u64);

impl Lcg {
    fn next(&mut self) -> u32 {
        self.0 = self.0.wrapping_mul(6364136223846793005).wrapping_add(1442695040888963407);
        (self.0 >> 33) as u32
    }

    fn image(&mut self, width: usize, height: usize) -> Vec<Vec<Pixel>> {
        let mut image = Vec::new();
        for _ in 0..height {
            let mut row = Vec::new();
            for _ in 0..width {
                let n = self.next();
                row.push(Pixel::new(n as u8, (n >> 8) as u8, (n >> 16) as u8, (n >> 23) as u8));
            }
            image.push(row);
        }
        image
    }
}

fn machine_kernel(radius: i32, sigma: f32) -> Vec<f32> {
    let mut kernel = Vec::new();
    let mut sum = 0.0;
    for i in 0..2 * radius + 1 {
        let x = (i - radius) as f32;
        let value =
            (-x * x / (2.0 * sigma * sigma)).exp() / ((2.0 * std::f32::consts::PI).sqrt() * sigma);
        kernel.push(value);
        sum += value;
    }
    let inverse = 1.0 / sum;
    kernel.iter().map(|v| v * inverse).collect()
}

fn channels(p: Pixel) -> [u8; 4] {
    [p.r, p.g, p.b, p.a]
}

fn byte(x: f32) -> u8 {
    x.clamp(0.0, 255.0) as u8
}

// The number that a positive one is cut off to.
fn cut(x: f64) -> f32 {
    let near = x as f32;
    if near as f64 > x {
        f32::from_bits(near.to_bits() - 1)
    } else {
        near
    }
}

// One more sample: rounded to the nearest number in lanes, cut off without.
fn add_share(sum: f32, sample: f32, weight: f32, lanes: bool) -> f32 {
    if lanes {
        sum + sample * weight
    } else {
        cut(sum as f64 + cut(sample as f64 * weight as f64) as f64)
    }
}

fn machine_blur(
    image: &[Vec<Pixel>],
    sigma: f32,
    radius: i32,
    blur_alpha: bool,
    lanes: bool,
) -> Vec<Vec<Pixel>> {
    let kernel = machine_kernel(radius, sigma);
    let height = image.len() as i32;
    let width = image[0].len() as i32;
    let norm = |s: f32, t: f32| if lanes { s * (1.0 / t) } else { s / t };
    let mut across = vec![vec![[0.0f32; 4]; width as usize]; height as usize];
    for y in 0..height {
        for x in 0..width {
            for c in 0..4 {
                let mut s = 0.0;
                let mut t = 0.0;
                for k in -radius..=radius {
                    let at = (x + k).clamp(0, width - 1);
                    let sample = channels(image[y as usize][at as usize])[c] as f32;
                    s = add_share(s, sample, kernel[(k + radius) as usize], lanes);
                    t += kernel[(k + radius) as usize];
                }
                across[y as usize][x as usize][c] = if c == 3 && !blur_alpha {
                    image[y as usize][x as usize].a as f32
                } else {
                    norm(s, t)
                };
            }
        }
    }
    let mut result = Vec::new();
    for y in 0..height {
        let mut row = Vec::new();
        for x in 0..width {
            let mut out = [0u8; 4];
            for c in 0..4 {
                let mut s = 0.0;
                let mut t = 0.0;
                for k in -radius..=radius {
                    let at = (y + k).clamp(0, height - 1);
                    let sample = across[at as usize][x as usize][c];
                    s = add_share(s, sample, kernel[(k + radius) as usize], lanes);
                    t += kernel[(k + radius) as usize];
                }
                out[c] = if c == 3 && !blur_alpha {
                    image[y as usize][x as usize].a
                } else {
                    byte(norm(s, t))
                };
            }
            row.push(Pixel::new(out[0], out[1], out[2], out[3]));
        }
        result.push(row);
    }
    result
}

fn machine_window(
    image: &[Vec<Pixel>],
    numerators: &[f32],
    denominator: f32,
    half: i32,
    blur_alpha: bool,
) -> Vec<Vec<Pixel>> {
    let height = image.len() as i32;
    let width = image[0].len() as i32;
    let mut result = Vec::new();
    for y in 0..height {
        let mut row = Vec::new();
        for x in 0..width {
            let mut out = [0u8; 4];
            for c in 0..4 {
                let mut s = 0.0f32;
                let mut k = 0;
                for ky in -half..=half {
                    for kx in -half..=half {
                        let py = (y + ky).clamp(0, height - 1) as usize;
                        let px = (x + kx).clamp(0, width - 1) as usize;
                        s += channels(image[py][px])[c] as f32 * (numerators[k] / denominator);
                        k += 1;
                    }
                }
                out[c] = if c == 3 && !blur_alpha { image[y as usize][x as usize].a } else { byte(s) };
            }
            row.push(Pixel::new(out[0], out[1], out[2], out[3]));
        }
        result.push(row);
    }
    result
}

#[test]
fn blurs_give_the_bytes_of_machine_arithmetic() {
    let mut lcg = Lcg(1);
    for (width, height, sigma, radius) in
        [(1, 1, 1.0, None), (7, 5, 0.8, Some(2)), (5, 9, 2.3, None), (12, 3, 40.0, Some(4)), (4, 4, 0.3, Some(0))]
    {
        let image = lcg.image(width, height);
        let reach = radius.unwrap_or((3.0f32 * sigma).ceil() as i32);
        for alpha in [false, true] {
            let scalar = machine_blur(&image, sigma, reach, alpha, false);
            let lanes = machine_blur(&image, sigma, reach, alpha, true);
            let blur = GaussianBlur::new(f(sigma), radius, alpha, &exp);
            assert_eq!(blur.radius(), reach);
            assert_eq!(blur.sigma(), f(sigma));
            assert_eq!(blur.blur(&image), scalar);
            assert_eq!(simple_gaussian_blur(&image, f(sigma), radius, alpha, &exp), scalar);
            let mut copy = image.clone();
            blur.blur_in_place(&mut copy);
            assert_eq!(copy, scalar);
            assert_eq!(blur.with_simd(true).blur(&image), lanes);
        }
    }
}

#[test]
fn windows_give_the_bytes_of_machine_arithmetic() {
    let three = [1.0, 2.0, 1.0, 2.0, 4.0, 2.0, 1.0, 2.0, 1.0];
    let five = [
        1.0, 4.0, 7.0, 4.0, 1.0, 4.0, 16.0, 26.0, 16.0, 4.0, 7.0, 26.0, 41.0, 26.0, 7.0, 4.0, 16.0,
        26.0, 16.0, 4.0, 1.0, 4.0, 7.0, 4.0, 1.0,
    ];
    let mut lcg = Lcg(2);
    for (width, height) in [(1, 1), (2, 7), (9, 6)] {
        let image = lcg.image(width, height);
        for alpha in [false, true] {
            assert_eq!(gaussian_blur_3x3(&image, alpha), machine_window(&image, &three, 16.0, 1, alpha));
            assert_eq!(gaussian_blur_5x5(&image, alpha), machine_window(&image, &five, 273.0, 2, alpha));
        }
    }
}

#[test]
fn kernels_are_normalized_gaussians() {
    for (sigma, radius) in [(1.0f32, None), (0.5, Some(1)), (2.7, None), (3.0, Some(0))] {
        let kernel = GaussianKernel::new(f(sigma), radius, &exp);
        let reach = radius.unwrap_or((3.0f32 * sigma).ceil() as i32);
        assert_eq!(kernel.radius(), reach);
        assert_eq!(kernel.sigma(), f(sigma));
        let weights: Vec<f32> = kernel.kernel().iter().map(|w| g(*w)).collect();
        assert_eq!(weights, machine_kernel(reach, sigma));
        let n = weights.len();
        assert_eq!(n as i32, 2 * reach + 1);
        for i in 0..n {
            assert_eq!(weights[i], weights[n - 1 - i]);
        }
        let total: f32 = weights.iter().sum();
        assert!((total - 1.0).abs() < 1e-5);
    }
}

#[test]
fn nothing_is_blurred_where_there_is_nothing() {
    let blur = GaussianBlur::new(f(1.0), None, true, &exp);
    let none: Vec<Vec<Pixel>> = Vec::new();
    let hollow: Vec<Vec<Pixel>> = vec![Vec::new(), vec![Pixel::rgb(1, 2, 3)]];
    assert!(blur.blur(&none).is_empty());
    assert!(blur.blur(&hollow).is_empty());
    let mut copy = hollow.clone();
    blur.blur_in_place(&mut copy);
    assert_eq!(copy, hollow);
    let wide = vec![Vec::new(), Vec::new()];
    assert_eq!(simple_gaussian_blur(&wide, f(1.0), None, true, &exp), wide);
    assert_eq!(gaussian_blur_3x3(&wide, true), wide);
}

#[test]
fn longer_rows_are_cut_to_the_width() {
    let mut lcg = Lcg(3);
    let image = lcg.image(4, 3);
    let mut ragged = image.clone();
    ragged[1].push(Pixel::rgb(9, 9, 9));
    let blur = GaussianBlur::new(f(1.0), Some(1), true, &exp);
    assert_eq!(blur.blur(&ragged), blur.blur(&image));
    blur.blur_in_place(&mut ragged);
    assert_eq!(ragged, blur.blur(&image));
}

#[test]
fn threads_do_not_change_the_result() {
    let mut lcg = Lcg(4);
    let image = lcg.image(6, 6);
    let blur = GaussianBlur::new(f(1.0), None, true, &exp);
    let alone = blur.blur(&image);
    assert_eq!(blur.with_threads(2).blur(&image), alone);
}

#[test]
fn alpha_and_absent_colours_are_kept() {
    let mut lcg = Lcg(5);
    let mut image = lcg.image(6, 4);
    for row in image.iter_mut() {
        for p in row.iter_mut() {
            p.g = 0;
        }
    }
    for lanes in [false, true] {
        let out = GaussianBlur::new(f(1.5), None, false, &exp).with_simd(lanes).blur(&image);
        for y in 0..4 {
            for x in 0..6 {
                assert_eq!(out[y][x].a, image[y][x].a);
                assert_eq!(out[y][x].g, 0);
            }
        }
    }
}

#[test]
fn far_pixels_do_not_matter() {
    let mut lcg = Lcg(6);
    let image = lcg.image(9, 9);
    let mut other = image.clone();
    other[0][8] = Pixel::new(1, 2, 3, 4);
    let blur = GaussianBlur::new(f(1.0), Some(2), true, &exp);
    let a = blur.blur(&image);
    let b = blur.blur(&other);
    for y in 0..9usize {
        for x in 0..9usize {
            if y > 2 || x < 6 {
                assert_eq!(a[y][x], b[y][x]);
            }
        }
    }
}

#[test]
fn uniform_images_pass_the_small_window() {
    let image = vec![vec![Pixel::new(201, 7, 255, 90); 4]; 3];
    assert_eq!(gaussian_blur_3x3(&image, true), image);
}

#[test]
fn uniform_images_lose_at_most_one_step() {
    for sigma in [0.4f32, 0.5, 1.0, 2.0, 3.0, 7.7] {
        for value in [1u8, 77, 128, 255] {
            let image = vec![vec![Pixel::new(value, 0, value, value); 3]; 2];
            for lanes in [false, true] {
                let blur = GaussianBlur::new(f(sigma), None, true, &exp).with_simd(lanes);
                for row in blur.blur(&image) {
                    for p in row {
                        assert_eq!(p.g, 0);
                        for c in [p.r, p.b, p.a] {
                            assert!(c == value || c + 1 == value);
                        }
                    }
                }
            }
        }
    }
}

#[test]
fn pixels_blend_between_their_ends() {
    let a = Pixel::new(0, 100, 255, 40);
    let b = Pixel::new(200, 0, 55, 255);
    assert_eq!(a.blend(&b, f(0.0)), a);
    assert_eq!(a.blend(&b, f(1.0)), b);
    assert_eq!(a.blend(&b, f(-3.0)), a);
    assert_eq!(a.blend(&b, f(7.0)), b);
    assert_eq!(a.blend(&b, f(0.5)), Pixel::new(100, 50, 155, 147));
    assert_eq!(a.blend(&b, f(f32::NAN)), Pixel::new(0, 0, 0, 0));
    assert_eq!(Pixel::default(), Pixel::new(0, 0, 0, 0));
}

#[test]
fn numbers_are_cut_off_to_bytes() {
    let p = Pixel::from_f32_array([f(-1.0), f(255.9), f(300.0), f(f32::NAN)]);
    assert_eq!(p, Pixel::new(0, 255, 255, 0));
}

#[test]
fn images_hold_what_was_put() {
    let mut img = RgbaImage::new(3, 2);
    assert_eq!((img.width(), img.height()), (3, 2));
    assert_eq!(img.get_pixel(2, 1), Some(Pixel::default()));
    assert!(img.put_pixel(2, 1, Pixel::new(1, 2, 3, 4)));
    assert!(!img.put_pixel(3, 0, Pixel::new(1, 2, 3, 4)));
    assert!(!img.put_pixel(0, 2, Pixel::new(1, 2, 3, 4)));
    assert_eq!(img.get_pixel(3, 0), None);
    let mut want = vec![vec![Pixel::default(); 3]; 2];
    want[1][2] = Pixel::new(1, 2, 3, 4);
    assert_eq!(image_to_pixels(&img), want);
    assert_eq!(image_to_pixels(&pixels_to_image(&want)), want);
    let empty = RgbaImage::new(0, 2);
    assert_eq!(image_to_pixels(&empty), vec![Vec::new(), Vec::new()]);
}

/// An image without a pattern, from a seed.
fn noise(width: usize, height: usize, seed: u32) -> Vec<Vec<Pixel>> {
    let mut state = seed;
    let mut next = || {
        state = state.wrapping_mul(1664525).wrapping_add(1013904223);
        (state >> 24) as u8
    };
    (0..height)
        .map(|_| (0..width).map(|_| Pixel::new(next(), next(), next(), next())).collect())
        .collect()
}

/// The values of one channel in the window of a pixel, edges repeated.
fn window(image: &Vec<Vec<Pixel>>, y: usize, x: usize, r: i32, c: usize) -> Vec<u8> {
    let mut values = Vec::new();
    for j in -r..=r {
        for i in -r..=r {
            let b = (y as i32 + j).clamp(0, image.len() as i32 - 1) as usize;
            let a = (x as i32 + i).clamp(0, image[0].len() as i32 - 1) as usize;
            values.push(channels(image[b][a])[c]);
        }
    }
    values
}

#[test]
fn lanes_and_scalars_differ_by_one_at_most() {
    let image = noise(9, 7, 1);
    for (sigma, radius) in [(0.1f32, 0), (0.1, 5), (1.0, 3), (5.0, 16), (20.0, 64)] {
        for blur_alpha in [false, true] {
            let blur = GaussianBlur::new(f(sigma), Some(radius), blur_alpha, &exp);
            let scalar = blur.with_simd(false).blur(&image);
            let blur = GaussianBlur::new(f(sigma), Some(radius), blur_alpha, &exp);
            let lanes = blur.with_simd(true).blur(&image);
            for (p, q) in scalar.concat().into_iter().zip(lanes.concat()) {
                for c in 0..4 {
                    assert!(channels(p)[c].abs_diff(channels(q)[c]) <= 1);
                }
            }
        }
    }
}

#[test]
fn a_brighter_image_has_a_brighter_blur() {
    let low = noise(8, 6, 2);
    let raise = noise(8, 6, 3);
    let high: Vec<Vec<Pixel>> = (0..6)
        .map(|y| {
            (0..8)
                .map(|x| {
                    let (p, q) = (channels(low[y][x]), channels(raise[y][x]));
                    let up = |c: usize| p[c].saturating_add(q[c] % 4);
                    Pixel::new(up(0), up(1), up(2), up(3))
                })
                .collect()
        })
        .collect();
    for lanes in [false, true] {
        let blur = GaussianBlur::new(f(1.5), None, true, &exp).with_simd(lanes);
        for (p, q) in blur.blur(&low).concat().into_iter().zip(blur.blur(&high).concat()) {
            for c in 0..4 {
                assert!(channels(p)[c] <= channels(q)[c]);
            }
        }
    }
}

#[test]
fn radius_zero_changes_nothing() {
    let image = noise(16, 16, 4);
    for sigma in [0.1f32, 0.37, 1.0, 1.7, 3.0, 20.0] {
        for blur_alpha in [false, true] {
            for lanes in [false, true] {
                let blur =
                    GaussianBlur::new(f(sigma), Some(0), blur_alpha, &exp).with_simd(lanes);
                assert_eq!(blur.blur(&image), image);
            }
        }
    }
}

#[test]
fn blurs_stay_in_the_range_and_near_the_mean_of_the_window() {
    let image = noise(7, 7, 5);
    let (sigma, radius) = (1.2f32, 3);
    let kernel = GaussianKernel::new(f(sigma), Some(radius), &exp);
    let weights: Vec<f64> = kernel.kernel().iter().map(|w| g(*w) as f64).collect();
    let total: f64 = weights.iter().sum();
    for lanes in [false, true] {
        let blur = GaussianBlur::new(f(sigma), Some(radius), true, &exp).with_simd(lanes);
        let blurred = blur.blur(&image);
        for y in 0..7 {
            for x in 0..7 {
                for c in 0..4 {
                    let values = window(&image, y, x, radius, c);
                    let got = channels(blurred[y][x])[c];
                    let low = *values.iter().min().unwrap();
                    let high = *values.iter().max().unwrap();
                    assert!(got as i32 >= low as i32 - 1 && got <= high);
                    let n = weights.len();
                    let mut mean = 0.0f64;
                    for j in 0..n {
                        for i in 0..n {
                            mean += weights[j] * weights[i] * values[j * n + i] as f64;
                        }
                    }
                    mean /= total * total;
                    let slack = 768.0 * (8.0 * n as f64 + 12.0) / 16777216.0;
                    assert!(got as f64 <= mean + slack && got as f64 > mean - slack - 1.0);
                }
            }
        }
    }
}

#[test]
fn large_kernels_keep_one_colour() {
    let image = vec![vec![Pixel::new(200, 0, 1, 255); 2]; 2];
    for lanes in [false, true] {
        let blur = GaussianBlur::new(f(400.0), Some(1300), true, &exp).with_simd(lanes);
        for p in blur.blur(&image).concat() {
            for (got, value) in channels(p).into_iter().zip([200u8, 0, 1, 255]) {
                assert!(got == value || got + 1 == value);
            }
        }
    }
}

#[test]
fn blended_channels_stay_between() {
    let pixels = noise(6, 1, 6);
    for alpha in [-0.0f32, 1e-45, 1e-7, 0.1, 0.3333, 0.5, 0.77, 0.9999999, 1.0] {
        for a in pixels[0].iter() {
            for b in pixels[0].iter() {
                let p = a.blend(b, f(alpha));
                for c in 0..4 {
                    let (v, w) = (channels(*a)[c], channels(*b)[c]);
                    let got = channels(p)[c];
                    assert!(got as i32 >= v.min(w) as i32 - 1 && got <= v.max(w));
                }
            }
        }
    }
    let black = Pixel::new(0, 10, 20, 30);
    assert_eq!(black.blend(&Pixel::new(255, 9, 8, 7), f(-0.0)), black);
}

fn window_sum(image: &Vec<Vec<Pixel>>, numerators: &[u32], r: i32, y: usize, x: usize, c: usize) -> u32 {
    window(image, y, x, r, c).iter().zip(numerators).map(|(v, k)| *v as u32 * k).sum()
}

#[test]
fn windows_compute_with_whole_numbers() {
    let small = [1u32, 2, 1, 2, 4, 2, 1, 2, 1];
    let large: Vec<u32> = [1u32, 4, 7, 4, 1]
        .into_iter()
        .chain([4, 16, 26, 16, 4])
        .chain([7, 26, 41, 26, 7])
        .chain([4, 16, 26, 16, 4])
        .chain([1, 4, 7, 4, 1])
        .collect();
    let image = noise(9, 8, 8);
    let three = gaussian_blur_3x3(&image, true);
    let five = gaussian_blur_5x5(&image, true);
    for y in 0..8 {
        for x in 0..9 {
            for c in 0..4 {
                let n = window_sum(&image, &small, 1, y, x, c);
                assert_eq!(channels(three[y][x])[c] as u32, n / 16);
                let n = window_sum(&image, &large, 2, y, x, c);
                let got = channels(five[y][x])[c] as u32;
                assert!(got == n / 273 || n % 273 == 0 && got + 1 == n / 273);
            }
        }
    }
}

#[test]
fn small_windows_commute_with_turning_the_image() {
    let image = noise(6, 4, 9);
    let transposed = |p: &Vec<Vec<Pixel>>| -> Vec<Vec<Pixel>> {
        (0..p[0].len()).map(|y| (0..p.len()).map(|x| p[x][y]).collect()).collect()
    };
    let mirrored = |p: &Vec<Vec<Pixel>>| -> Vec<Vec<Pixel>> {
        p.iter().map(|row| row.iter().rev().copied().collect()).collect()
    };
    for blur_alpha in [false, true] {
        let blurred = gaussian_blur_3x3(&image, blur_alpha);
        assert_eq!(gaussian_blur_3x3(&transposed(&image), blur_alpha), transposed(&blurred));
        assert_eq!(gaussian_blur_3x3(&mirrored(&image), blur_alpha), mirrored(&blurred));
    }
}

#[test]
fn colours_do_not_depend_on_alpha() {
    let image = noise(6, 5, 10);
    let opaque: Vec<Vec<Pixel>> =
        image.iter().map(|row| row.iter().map(|p| Pixel::rgb(p.r, p.g, p.b)).collect()).collect();
    for lanes in [false, true] {
        let a = GaussianBlur::new(f(1.3), None, true, &exp).with_simd(lanes).blur(&image);
        let b = GaussianBlur::new(f(1.3), None, false, &exp).with_simd(lanes).blur(&opaque);
        for (p, q) in a.concat().into_iter().zip(b.concat()) {
            assert_eq!(channels(p)[..3], channels(q)[..3]);
        }
    }
    let a = gaussian_blur_5x5(&image, true);
    let b = gaussian_blur_5x5(&opaque, false);
    for (p, q) in a.concat().into_iter().zip(b.concat()) {
        assert_eq!(channels(p)[..3], channels(q)[..3]);
    }
}

#[test]
fn weights_fall_away_from_the_middle() {
    for (sigma, radius) in [(0.3f32, 2), (1.0, 3), (4.5, 14), (100.0, 300)] {
        let kernel = GaussianKernel::new(f(sigma), Some(radius), &exp);
        let weights: Vec<f32> = kernel.kernel().iter().map(|w| g(*w)).collect();
        let r = radius as usize;
        for i in 0..r {
            assert!(weights[i] <= weights[i + 1]);
            assert!(weights[2 * r - i] <= weights[2 * r - i - 1]);
        }
        let sum: f64 = weights.iter().map(|w| *w as f64).sum();
        assert!((sum - 1.0).abs() <= (2.0 * weights.len() as f64 + 5.0) / 16777216.0);
    }
}

#[test]
fn a_red_image_is_one_step_darker() {
    let mut image = vec![vec![Pixel::rgb(255, 0, 0); 10]; 10];
    let exact = |x: F32| match g(x) {
        x if x == -4.5 => F32::from_bits(0x3c36_0282),
        x if x == -2.0 => F32::from_bits(0x3e0a_9555),
        x if x == -0.5 => F32::from_bits(0x3f1b_4598),
        _ => f(1.0),
    };
    GaussianBlur::new(f(1.0), None, true, &exact).blur_in_place(&mut image);
    assert_eq!(image, vec![vec![Pixel::new(254, 0, 0, 254); 10]; 10]);
}
