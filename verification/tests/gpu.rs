use gaussian_blur::float::repr::F32;
use gaussian_blur::gpu::boxes::{boxes_for_gauss_3pass, can_compute_boxes, radius_of_box};
use gaussian_blur::gpu::mps::{blur_detected, MpsError, MpsJob};
use gaussian_blur::gpu::params::{box_params, gaussian_params, resize_params};
use gaussian_blur::gpu::plan::{
    plan_box_blur_3pass, plan_downsample_blur_upsample, plan_gaussian_blur, GpuPlan, Shader,
    TexturePlan,
};
use gaussian_blur::gpu::processor::{BlurJob, GpuAction, GpuError, GpuEvent, WriteTest};
use gaussian_blur::gpu::readback::{
    analyze_output, buffer_size, extract_rows, has_output, padded_row_size,
};
use gaussian_blur::gpu::strategy::{select_strategy, BlurStrategy};
use gaussian_blur::gpu::variable::{VariableBlurAction, VariableBlurEvent, VariableBlurJob};
use gaussian_blur::gpu::weights::{pack_weights, precompute_gaussian_weights};
use gaussian_blur::{
    blur_with_metal, GpuGaussianBlur, MetalGpuGaussianBlur, MetalMPSBlur, Pixel,
};

fn f(x: f32) -> F32 {
    F32::from_bits(x.to_bits())
}

fn g(x: F32) -> f32 {
    f32::from_bits(x.to_bits())
}

fn exp(x: F32) -> F32 {
    f(g(x).exp())
}

fn words(bytes: &[u8]) -> Vec<u32> {
    bytes.chunks(4).map(|c| u32::from_ne_bytes([c[0], c[1], c[2], c[3]])).collect()
}

#[test]
fn strategies_follow_sigma() {
    assert_eq!(select_strategy(f(0.5)), BlurStrategy::Gaussian);
    assert_eq!(select_strategy(f(2.0)), BlurStrategy::Gaussian);
    assert_eq!(select_strategy(f(-1.0)), BlurStrategy::Gaussian);
    assert_eq!(select_strategy(f(2.1)), BlurStrategy::Box3Pass);
    assert_eq!(select_strategy(f(32.0)), BlurStrategy::Box3Pass);
    for (sigma, factor) in [(32.5f32, 2), (64.0, 2), (64.5, 4), (100.0, 4), (100.5, 8), (900.0, 8)] {
        assert_eq!(
            select_strategy(f(sigma)),
            BlurStrategy::Downsample { factor, adjusted_sigma: f(sigma / factor as f32) }
        );
    }
    match select_strategy(f(f32::NAN)) {
        BlurStrategy::Downsample { factor, adjusted_sigma } => {
            assert_eq!(factor, 2);
            assert!(g(adjusted_sigma).is_nan());
        }
        _ => panic!(),
    }
}

fn machine_boxes(sigma: f32) -> [usize; 3] {
    let n: usize = 3;
    let ideal = ((12.0 * sigma * sigma / n as f32) + 1.0).sqrt();
    let mut wl = ideal.floor() as usize;
    if wl % 2 == 0 {
        wl -= 1;
    }
    let numerator =
        12.0 * sigma * sigma - (n * wl * wl) as f32 - (4 * n * wl) as f32 - (3 * n) as f32;
    let denominator = -4.0 * wl as f32 - 4.0;
    let m = (numerator / denominator).round().max(0.0).min(n as f32) as usize;
    let mut sizes = [wl; 3];
    for size in sizes.iter_mut().skip(m) {
        *size = wl + 2;
    }
    sizes
}

#[test]
fn boxes_have_the_sizes_of_machine_arithmetic() {
    assert_eq!(boxes_for_gauss_3pass(f(3.0)), [5, 5, 7]);
    for i in 1..2000 {
        let sigma = i as f32 * 0.37;
        assert!(can_compute_boxes(f(sigma)));
        let sizes = boxes_for_gauss_3pass(f(sigma));
        assert_eq!(sizes, machine_boxes(sigma));
        assert!(sizes[0] % 2 == 1 && sizes[0] <= sizes[1] && sizes[1] <= sizes[2]);
        assert!(sizes[2] <= sizes[0] + 2);
    }
    assert!(!can_compute_boxes(f(0.0)));
    assert!(!can_compute_boxes(f(-1.0)));
    assert!(!can_compute_boxes(f(f32::NAN)));
    assert!(!can_compute_boxes(f(f32::INFINITY)));
    assert!(!can_compute_boxes(f(1e30)));
    assert_eq!(radius_of_box(1), 0);
    assert_eq!(radius_of_box(7), 3);
    assert_eq!(radius_of_box(0x8000_0001), 0);
}

#[test]
fn weights_are_packed_and_filled_up() {
    let bytes = precompute_gaussian_weights(2, f(1.5), &exp);
    let words = words(&bytes);
    assert_eq!(words.len(), 1024);
    let raw: Vec<f32> =
        (-2i32..=2).map(|x| (-(x * x) as f32 / (2.0f32 * 1.5 * 1.5)).exp()).collect();
    let mut total = 0.0;
    for w in &raw {
        total += w;
    }
    for i in 0..5 {
        assert_eq!(words[i], (raw[i] / total).to_bits());
    }
    assert!(words[5..].iter().all(|w| *w == 0));
    let packed = pack_weights(&vec![f(1.0), f(3.0)]);
    assert_eq!(&packed[..3], &[0.25f32.to_bits(), 0.75f32.to_bits(), 0]);
}

#[test]
fn parameters_lie_in_memory_as_words() {
    let bytes = gaussian_params(10, 20, 3, true, 1, f(1.5));
    assert_eq!(bytes.len(), 48);
    assert_eq!(words(&bytes), [10, 20, 3, 1, 1, 1.5f32.to_bits(), 0, 0, 0, 0, 0, 0]);
    let bytes = box_params(10, 20, 0x0102_0304, false, 0);
    assert_eq!(words(&bytes), [10, 20, 0x0102_0304, 0, 0, 0, 0, 0, 0, 0, 0, 0]);
    let bytes = resize_params(10, 20, 5, 6);
    assert_eq!(words(&bytes), [10, 20, 5, 6, 0, 0, 0, 0, 0, 0, 0, 0]);
}

fn ends(plan: &GpuPlan) -> Vec<(Shader, usize, usize)> {
    plan.passes.iter().map(|p| (p.shader, p.input, p.output)).collect()
}

#[test]
fn gaussian_plans_go_across_and_down() {
    let plan = plan_gaussian_blur(f(1.0), 3, true, 300, 40, &exp);
    assert_eq!(
        ends(&plan),
        [(Shader::GaussianBlur, 0, 1), (Shader::GaussianBlur, 1, 2)]
    );
    assert_eq!((plan.passes[0].dispatch_x, plan.passes[0].dispatch_y), (2, 40));
    assert_eq!((plan.passes[1].dispatch_x, plan.passes[1].dispatch_y), (300, 1));
    assert_eq!(
        words(&plan.passes[1].params),
        [300, 40, 3, 1, 1, 1.0f32.to_bits(), 0, 0, 0, 0, 0, 0]
    );
    assert_eq!(plan.weights, Some(precompute_gaussian_weights(3, f(1.0), &exp)));
    assert_eq!(
        plan.textures,
        [
            TexturePlan { width: 300, height: 40, sampled: true, copied: false },
            TexturePlan { width: 300, height: 40, sampled: true, copied: true },
        ]
    );
    assert_eq!(plan.output, 2);
}

#[test]
fn box_plans_go_to_and_fro() {
    let plan = plan_box_blur_3pass(f(3.0), false, 256, 257);
    let b = Shader::BoxBlur;
    assert_eq!(ends(&plan), [(b, 0, 1), (b, 1, 2), (b, 2, 1), (b, 1, 2), (b, 2, 1), (b, 1, 3)]);
    let radii: Vec<u32> = plan.passes.iter().map(|p| words(&p.params)[2]).collect();
    assert_eq!(radii, [2, 2, 2, 2, 3, 3]);
    let directions: Vec<u32> = plan.passes.iter().map(|p| words(&p.params)[4]).collect();
    assert_eq!(directions, [0, 1, 0, 1, 0, 1]);
    assert_eq!((plan.passes[0].dispatch_x, plan.passes[0].dispatch_y), (1, 257));
    assert_eq!((plan.passes[1].dispatch_x, plan.passes[1].dispatch_y), (256, 2));
    assert_eq!(plan.textures.len(), 3);
    assert!(plan.weights.is_none());
    assert_eq!(plan.output, 3);
}

#[test]
fn downsample_plans_change_the_size_twice() {
    let plan = plan_downsample_blur_upsample(4, f(20.0), true, 101, 17);
    let b = Shader::BoxBlur;
    assert_eq!(
        ends(&plan),
        [
            (Shader::Downsample, 0, 1),
            (b, 1, 2),
            (b, 2, 3),
            (b, 3, 2),
            (b, 2, 3),
            (b, 3, 2),
            (b, 2, 4),
            (Shader::Upsample, 4, 5),
        ]
    );
    assert_eq!(words(&plan.passes[0].params)[..4], [101, 17, 26, 5]);
    assert_eq!(words(&plan.passes[7].params)[..4], [26, 5, 101, 17]);
    assert_eq!((plan.passes[0].dispatch_x, plan.passes[0].dispatch_y), (4, 1));
    assert_eq!((plan.passes[7].dispatch_x, plan.passes[7].dispatch_y), (13, 3));
    assert_eq!(plan.textures[0], TexturePlan { width: 26, height: 5, sampled: true, copied: true });
    assert_eq!(plan.textures[4], TexturePlan { width: 101, height: 17, sampled: false, copied: true });
    assert_eq!(plan.output, 5);
}

#[test]
fn padding_is_added_and_dropped() {
    assert_eq!(padded_row_size(0), 0);
    assert_eq!(padded_row_size(1), 256);
    assert_eq!(padded_row_size(64), 256);
    assert_eq!(padded_row_size(65), 512);
    assert_eq!(buffer_size(65, 3), 1536);
    let mut data = vec![9u8; 512];
    for i in 0..8 {
        data[i] = i as u8;
        data[256 + i] = 100 + i as u8;
    }
    let mut want: Vec<u8> = (0..8).collect();
    want.extend(100..108);
    assert_eq!(extract_rows(&data, 2, 2), want);
    assert_eq!(extract_rows(&data[..260], 2, 2)[8..], [100, 101, 102, 103, 0, 0, 0, 0]);
    assert_eq!(extract_rows(&data[..100], 2, 2)[8..], [0; 8]);
}

#[test]
fn outputs_are_looked_at() {
    let mut data = vec![0u8; 200];
    assert!(!has_output(&data));
    data[100] = 1;
    assert!(!has_output(&data));
    data[99] = 1;
    assert!(has_output(&data));
    assert!(!has_output(&[]));
    assert_eq!(analyze_output(&data, 40), (40, 2));
    assert_eq!(analyze_output(&data, 25), (25, 1));
    assert_eq!(analyze_output(&data, 5000), (50, 2));
    assert_eq!(analyze_output(&vec![1; 8000], 2000), (1000, 1000));
}

fn image() -> Vec<Vec<Pixel>> {
    vec![vec![Pixel::new(1, 2, 3, 4); 3]; 2]
}

fn job(action: GpuAction) -> BlurJob {
    match action {
        GpuAction::Blur { job } => job,
        _ => panic!(),
    }
}

fn outcome(action: GpuAction) -> Result<(Vec<u8>, usize, usize), String> {
    match action {
        GpuAction::Finish { result } => result.map_err(|e| e.message()),
        _ => panic!(),
    }
}

#[test]
fn a_blur_on_the_device_runs_step_by_step() {
    let image = image();
    let blur = GpuGaussianBlur::new(f(1.0), None, true);
    assert!(blur.is_possible());
    assert_eq!(blur.strategy(), BlurStrategy::Gaussian);
    assert!(matches!(blur.blur_to_bytes(&image, GpuEvent::Start, &exp), GpuAction::AskLimit));
    let limit = GpuEvent::Limit { max_texture_dimension: 3 };
    match blur.blur_to_bytes(&image, limit, &exp) {
        GpuAction::Test { test } => assert_eq!(
            test,
            WriteTest {
                width: 3,
                height: 2,
                dispatch_x: 1,
                dispatch_y: 1,
                bytes_per_row: 256,
                buffer_size: 512,
            }
        ),
        _ => panic!(),
    }
    let tested = GpuEvent::Tested { data: Ok(vec![1; 512]) };
    let job = job(blur.blur_to_bytes(&image, tested, &exp));
    assert_eq!(job.upload.len(), 512);
    for row in job.upload.chunks(256) {
        assert_eq!(row[..12], [1, 2, 3, 4].repeat(3));
        assert!(row[12..].iter().all(|b| *b == 0));
    }
    assert_eq!(extract_rows(&job.upload, 3, 2), [1, 2, 3, 4].repeat(6));
    assert_eq!((job.width, job.height, job.bytes_per_row, job.buffer_size), (3, 2, 256, 512));
    assert_eq!(words(&job.plan.passes[0].params)[2], 3);
    let blurred = GpuEvent::Blurred { data: Ok(vec![7; 512]) };
    let end = match blur.blur_to_bytes(&image, blurred, &exp) {
        GpuAction::Finish { result } => result,
        _ => panic!(),
    };
    let pixels = blur.blur(end).map_err(|e| e.message());
    assert_eq!(pixels, Ok(vec![vec![Pixel::new(7, 7, 7, 7); 3]; 2]));
}

#[test]
fn strategies_choose_the_plan() {
    let image = image();
    for (sigma, passes) in [(1.0, 2), (10.0, 6), (50.0, 8)] {
        let blur = GpuGaussianBlur::new(f(sigma), None, true);
        assert!(blur.is_possible());
        let tested = GpuEvent::Tested { data: Ok(vec![1; 512]) };
        let job = job(blur.blur_to_bytes(&image, tested, &exp));
        assert_eq!(job.plan.passes.len(), passes);
    }
    assert!(!GpuGaussianBlur::new(f(1.0), Some(512), true).is_possible());
    assert!(GpuGaussianBlur::new(f(1.0), Some(511), true).is_possible());
    assert!(!GpuGaussianBlur::new(f(1.0), Some(-1), true).is_possible());
    assert!(!GpuGaussianBlur::new(f(f32::NAN), Some(1), true).is_possible());
}

#[test]
fn a_blur_on_the_device_can_fail() {
    let image = image();
    let blur = GpuGaussianBlur::new(f(1.0), None, true);
    let step = |event| outcome(blur.blur_to_bytes(&image, event, &exp));
    assert_eq!(
        step(GpuEvent::Limit { max_texture_dimension: 2 }),
        Err("Image width 3 exceeds GPU texture dimension limit 2".to_string())
    );
    let high = vec![vec![Pixel::new(1, 2, 3, 4)]; 12];
    assert_eq!(
        outcome(blur.blur_to_bytes(&high, GpuEvent::Limit { max_texture_dimension: 10 }, &exp)),
        Err("Image height 12 exceeds GPU texture dimension limit 10".to_string())
    );
    assert_eq!(
        step(GpuEvent::Tested { data: Ok(vec![0; 512]) }),
        Err("GPU write test failed - check shader compilation and texture usage".to_string())
    );
    assert_eq!(
        step(GpuEvent::Tested { data: Err("lost".to_string()) }),
        Err("GPU write test error: lost".to_string())
    );
    assert_eq!(
        step(GpuEvent::Blurred { data: Err("Failed to map buffer: lost".to_string()) }),
        Err("Failed to map buffer: lost".to_string())
    );
    let failed = blur.blur(Err(GpuError::WriteTestFailed));
    assert!(matches!(failed, Err(GpuError::WriteTestFailed)));
    let none: Vec<Vec<Pixel>> = Vec::new();
    assert_eq!(
        outcome(blur.blur_to_bytes(&none, GpuEvent::Start, &exp)),
        Ok((Vec::new(), 0, 0))
    );
}

fn variable_job(action: VariableBlurAction) -> VariableBlurJob {
    match action {
        VariableBlurAction::Blur { job } => job,
        _ => panic!(),
    }
}

fn variable_outcome(action: VariableBlurAction) -> Result<(Vec<u8>, usize, usize), String> {
    match action {
        VariableBlurAction::Finish { result } => result.map_err(|e| e.message()),
        _ => panic!(),
    }
}

#[test]
fn a_variable_blur_is_planned() {
    let image = image();
    let mask = vec![vec![f(0.5), f(1.0), f(0.0)]; 2];
    let blur = MetalGpuGaussianBlur::new(f(12.0), None, true);
    assert_eq!((blur.max_radius(), blur.max_samples()), (f(12.0), f(16.0)));
    assert!(blur.normalize_edges());
    assert_eq!(MetalGpuGaussianBlur::new(f(1.0), Some(f(4.0)), false).max_samples(), f(4.0));
    let start = blur.blur_with_mask_to_bytes(&image, &mask, VariableBlurEvent::Start);
    assert!(matches!(start, VariableBlurAction::AskLimit));
    let limit = VariableBlurEvent::Limit { max_texture_dimension: 3 };
    let job = variable_job(blur.blur_with_mask_to_bytes(&image, &mask, limit));
    assert_eq!(job.upload, [1, 2, 3, 4].repeat(6));
    let mut want = Vec::new();
    for x in [0.5f32, 1.0, 0.0, 0.5, 1.0, 0.0] {
        want.extend_from_slice(&x.to_le_bytes());
    }
    assert_eq!(job.mask, want);
    assert_eq!((job.width, job.height, job.bytes_per_row, job.buffer_size), (3, 2, 12, 24));
    assert_eq!((job.dispatch_x, job.dispatch_y), (1, 1));
    let one = 1.0f32.to_bits();
    let mut uniforms = vec![0, 0, 3.0f32.to_bits(), 2.0f32.to_bits(), 12.0f32.to_bits()];
    uniforms.extend([16.0f32.to_bits(), 0, one, 0, 0, 0, 0]);
    assert_eq!(words(&job.horizontal), uniforms);
    uniforms[6] = one;
    assert_eq!(words(&job.vertical), uniforms);
}

#[test]
fn a_uniform_blur_has_a_full_mask() {
    let image = vec![vec![Pixel::new(1, 2, 3, 4); 17]; 33];
    let blur = MetalGpuGaussianBlur::new(f(12.0), None, false);
    let limit = VariableBlurEvent::Limit { max_texture_dimension: 100 };
    let job = variable_job(blur.blur_uniform(&image, limit));
    assert_eq!(job.mask, 1.0f32.to_le_bytes().repeat(17 * 33));
    assert_eq!((job.dispatch_x, job.dispatch_y), (2, 3));
    let start = blur.blur_uniform(&image, VariableBlurEvent::Start);
    assert!(matches!(start, VariableBlurAction::AskLimit));
}

#[test]
fn a_variable_blur_ends() {
    let image = image();
    let mask = vec![vec![f(1.0); 3]; 2];
    let blur = MetalGpuGaussianBlur::new(f(12.0), None, true);
    let step = |event| variable_outcome(blur.blur_with_mask_to_bytes(&image, &mask, event));
    let done = VariableBlurEvent::Blurred { data: Ok(vec![8; 24]) };
    let end = match blur.blur_with_mask_to_bytes(&image, &mask, done) {
        VariableBlurAction::Finish { result } => result,
        _ => panic!(),
    };
    let pixels = blur.blur_with_mask(end).map_err(|e| e.message());
    assert_eq!(pixels, Ok(vec![vec![Pixel::new(8, 8, 8, 8); 3]; 2]));
    assert_eq!(
        step(VariableBlurEvent::Blurred { data: Err("lost".to_string()) }),
        Err("lost".to_string())
    );
    assert_eq!(
        step(VariableBlurEvent::Limit { max_texture_dimension: 2 }),
        Err("Image width 3 exceeds GPU texture dimension limit 2".to_string())
    );
    let short = vec![vec![f(1.0); 10]; 1];
    assert_eq!(
        variable_outcome(blur.blur_with_mask_to_bytes(&image, &short, VariableBlurEvent::Start)),
        Err("Mask dimensions 1x10 don't match image dimensions 2x3".to_string())
    );
    assert_eq!(
        variable_outcome(blur.blur_with_mask_to_bytes(&image, &[], VariableBlurEvent::Start)),
        Err("Mask dimensions 0x0 don't match image dimensions 2x3".to_string())
    );
    let none: Vec<Vec<Pixel>> = Vec::new();
    assert_eq!(
        variable_outcome(blur.blur_with_mask_to_bytes(&none, &mask, VariableBlurEvent::Start)),
        Ok((Vec::new(), 0, 0))
    );
    let failed = blur.blur_with_mask(Err(GpuError::Device { reason: "lost".to_string() }));
    assert_eq!(failed.map_err(|e| e.message()), Err("lost".to_string()));
}

#[test]
fn performance_shaders_get_whole_images() {
    let blur = MetalMPSBlur::new(f(5.0), Some(3));
    let data = vec![0u8; 24];
    assert_eq!(
        blur.blur_to_bytes(&data, 3, 2, None),
        Ok(MpsJob {
            sigma: f(5.0),
            width: 3,
            height: 2,
            bytes_per_row: 12,
            output_size: 24,
            is_large: false,
        })
    );
    assert_eq!(blur.blur_to_bytes(&data, 3, 2, Some(f(2.0))).unwrap().sigma, f(2.0));
    assert_eq!(blur_with_metal(&data, 3, 2, f(9.0)).unwrap().sigma, f(9.0));
    let long = vec![0u8; 4097 * 4];
    assert!(blur.blur_to_bytes(&long, 4097, 1, None).unwrap().is_large);
    assert!(blur.blur_to_bytes(&long, 1, 4097, None).unwrap().is_large);
    let error = blur.blur_to_bytes(&data, 3, 3, None).unwrap_err();
    assert_eq!(error, MpsError::SizeMismatch { expected: 36, got: 24 });
    assert_eq!(error.message(), "Image data size mismatch: expected 36 bytes, got 24 bytes");
}

#[test]
fn blurs_are_noticed() {
    let input = vec![100u8; 80];
    let mut output = input.clone();
    assert!(!blur_detected(&input, &output));
    output[3] = 0;
    assert!(!blur_detected(&input, &output));
    output[36] = 110;
    assert!(!blur_detected(&input, &output));
    output[38] = 99;
    assert!(blur_detected(&input, &output));
    let mut late = input.clone();
    late[40] = 0;
    assert!(!blur_detected(&input, &late));
    assert!(!blur_detected(&[], &output));
}

#[test]
fn shader_weights_are_symmetric_and_add_up_to_one() {
    for (radius, sigma) in [(0u32, 1.0f32), (1, 0.5), (6, 2.0), (31, 10.0), (511, 170.0)] {
        let packed = words(&precompute_gaussian_weights(radius, f(sigma), &exp));
        let n = 2 * radius as usize + 1;
        assert_eq!(packed.len(), 1024);
        for i in 0..n {
            assert_eq!(packed[i], packed[n - 1 - i]);
        }
        assert!(packed[n..].iter().all(|w| *w == 0));
        let sum: f64 = packed.iter().map(|w| f32::from_bits(*w) as f64).sum();
        assert!((sum - 1.0).abs() <= (4.0 * n as f64 + 3.0) / 16777216.0);
    }
}

#[test]
fn boxes_come_as_close_to_the_variance_as_they_can() {
    for quarters in 1..=128i64 {
        let sizes = boxes_for_gauss_3pass(f(quarters as f32 / 4.0));
        let twelve = |s: &[i64; 3]| 16 * (s[0] * s[0] + s[1] * s[1] + s[2] * s[2] - 3);
        let wanted = 12 * quarters * quarters;
        let (w, u) = {
            // The smaller size is the greatest odd one whose three boxes stay below.
            let mut w = 1i64;
            while 16 * 3 * ((w + 2) * (w + 2) - 1) <= wanted {
                w += 2;
            }
            (w, w + 2)
        };
        let got = sizes.map(|s| s as i64);
        assert!(got.iter().all(|s| *s == w || *s == u));
        for other in [[u, u, u], [w, u, u], [w, w, u], [w, w, w]] {
            assert!((twelve(&got) - wanted).abs() <= (twelve(&other) - wanted).abs());
        }
    }
    // A sigma so close to a tie that rounding takes the other side of it.
    assert_eq!(boxes_for_gauss_3pass(F32::from_bits(0x3f13_cd3b)), [1, 1, 1]);
}
