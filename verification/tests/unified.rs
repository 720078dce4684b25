use gaussian_blur::float::repr::F32;
use gaussian_blur::unified::{BackendReply, BackendRequest};
use gaussian_blur::{BlurBackend, GaussianBlur, Pixel, UnifiedGaussianBlur};

fn f(x: f32) -> F32 {
    F32::from_bits(x.to_bits())
}

fn exp(x: F32) -> F32 {
    f(f32::from_bits(x.to_bits()).exp())
}

fn image() -> Vec<Vec<Pixel>> {
    vec![
        vec![Pixel::new(1, 2, 3, 4), Pixel::new(50, 60, 70, 80), Pixel::new(9, 8, 7, 6)],
        vec![Pixel::new(255, 0, 255, 0), Pixel::new(10, 20, 30, 40), Pixel::new(0, 0, 0, 255)],
    ]
}

#[test]
fn settings_are_kept() {
    let blur = UnifiedGaussianBlur::new(f(2.0), Some(3), true);
    assert_eq!(blur.sigma(), f(2.0));
    assert!(blur.blur_alpha());
    assert_eq!(*blur.backend(), BlurBackend::Cpu);
    let blur = blur.with_gpu();
    assert_eq!(*blur.backend(), BlurBackend::Gpu);
    let blur = blur.with_metal();
    assert_eq!(*blur.backend(), BlurBackend::Metal);
    let blur = blur.with_cpu();
    assert_eq!(*blur.backend(), BlurBackend::Cpu);
}

#[test]
fn bytes_and_images_turn_into_each_other() {
    let (bytes, width, height) = UnifiedGaussianBlur::image_to_bytes(&image());
    assert_eq!((width, height), (3, 2));
    assert_eq!(bytes.len(), 24);
    assert_eq!(&bytes[..8], &[1, 2, 3, 4, 50, 60, 70, 80]);
    assert_eq!(UnifiedGaussianBlur::bytes_to_image(&bytes, 3, 2), image());
    let none: Vec<Vec<Pixel>> = Vec::new();
    assert_eq!(UnifiedGaussianBlur::image_to_bytes(&none), (Vec::new(), 0, 0));
    assert!(UnifiedGaussianBlur::bytes_to_image(&[], 3, 2).is_empty());
    assert!(UnifiedGaussianBlur::bytes_to_image(&bytes, 0, 2).is_empty());
}

#[test]
fn short_bytes_leave_short_rows() {
    let bytes = [1, 2, 3, 4, 5, 6, 7, 8, 9, 10, 11];
    let rows = UnifiedGaussianBlur::bytes_to_image(&bytes, 2, 3);
    assert_eq!(rows.len(), 3);
    assert_eq!(rows[0], vec![Pixel::new(1, 2, 3, 4), Pixel::new(5, 6, 7, 8)]);
    assert!(rows[1].is_empty());
    assert!(rows[2].is_empty());
}

#[test]
fn the_processor_answers_where_no_backend_does() {
    let image = image();
    for lanes in [false, true] {
        let want = GaussianBlur::new(f(1.2), None, true, &exp).with_simd(lanes).blur(&image);
        let blur = || UnifiedGaussianBlur::new(f(1.2), None, true).with_simd(lanes);
        assert_eq!(blur().blur(&image, BackendReply::Nothing, &exp), want);
        assert_eq!(blur().with_threads(2).blur(&image, BackendReply::Nothing, &exp), want);
        assert_eq!(blur().with_gpu().blur(&image, BackendReply::Nothing, &exp), want);
        assert_eq!(blur().with_metal().blur(&image, BackendReply::Nothing, &exp), want);
        let odd = BackendReply::Metal { bytes: vec![7; 24] };
        assert_eq!(blur().with_gpu().blur(&image, odd, &exp), want);
        let (bytes, width, height) =
            blur().with_gpu().blur_to_bytes(&image, BackendReply::Nothing, &exp).unwrap();
        assert_eq!(UnifiedGaussianBlur::bytes_to_image(&bytes, width, height), want);
    }
}

#[test]
fn a_reply_is_the_result() {
    let image = image();
    let reply = BackendReply::Gpu { bytes: vec![5; 16], width: 2, height: 2 };
    let blur = UnifiedGaussianBlur::new(f(1.2), None, true).with_gpu();
    assert_eq!(blur.blur_to_bytes(&image, reply, &exp), Ok((vec![5; 16], 2, 2)));
    let reply = BackendReply::Metal { bytes: vec![6; 24] };
    let blur = blur.with_metal();
    assert_eq!(blur.blur_to_bytes(&image, reply, &exp), Ok((vec![6; 24], 3, 2)));
    let reply = BackendReply::Metal { bytes: vec![6; 24] };
    assert_eq!(blur.blur(&image, reply, &exp), vec![vec![Pixel::new(6, 6, 6, 6); 3]; 2]);
}

#[test]
fn empty_images_are_answered_at_once() {
    let none: Vec<Vec<Pixel>> = Vec::new();
    let hollow: Vec<Vec<Pixel>> = vec![Vec::new()];
    let blur = UnifiedGaussianBlur::new(f(1.2), None, true).with_gpu();
    assert!(blur.request(&none).is_none());
    let reply = BackendReply::Gpu { bytes: vec![5; 16], width: 2, height: 2 };
    assert_eq!(blur.blur_to_bytes(&none, reply, &exp), Ok((Vec::new(), 0, 0)));
    assert_eq!(blur.blur_to_bytes(&hollow, BackendReply::Nothing, &exp), Ok((Vec::new(), 0, 0)));
    assert!(blur.blur(&hollow, BackendReply::Nothing, &exp).is_empty());
}

#[test]
fn backends_are_asked_for_what_they_need() {
    let image = image();
    let blur = UnifiedGaussianBlur::new(f(1.2), Some(4), false).with_metal_kernel_size(9);
    assert!(blur.request(&image).is_none());
    let blur = blur.with_gpu();
    match blur.request(&image) {
        Some(BackendRequest::Gpu { sigma, radius, blur_alpha }) => {
            assert_eq!((sigma, radius, blur_alpha), (f(1.2), Some(4), false));
        }
        _ => panic!(),
    }
    match blur.with_metal().request(&image) {
        Some(BackendRequest::Metal { sigma, kernel_size, bytes, width, height }) => {
            assert_eq!((sigma, kernel_size, width, height), (f(1.2), Some(9), 3, 2));
            assert_eq!(bytes, UnifiedGaussianBlur::image_to_bytes(&image).0);
        }
        _ => panic!(),
    }
}
