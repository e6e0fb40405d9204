use exam_paper_detector::bitmap::Bitmap;
use exam_paper_detector::preprocessing::Preprocessor;
use exam_paper_detector::types::{BinarizationMethod, PreprocessingConfig};

fn image_from_fn(width: u32, height: u32, f: impl Fn(u32, u32) -> u8) -> Bitmap {
    let mut img = Bitmap::filled(width, height, 0);
    for y in 0..height {
        for x in 0..width {
            img.put_pixel(x, y, f(x, y));
        }
    }
    img
}

#[test]
fn test_otsu_threshold_calculation() {
    let img = image_from_fn(10, 10, |x, _y| if x < 5 { 200 } else { 50 });
    let preprocessor = Preprocessor::new(PreprocessingConfig::default());
    let threshold = preprocessor.calculate_otsu_threshold(&img);
    assert!(threshold >= 50 && threshold < 200);
}

#[test]
fn test_integral_image_mean() {
    let img = image_from_fn(10, 10, |_x, _y| 100);
    let preprocessor = Preprocessor::new(PreprocessingConfig::default());
    let integral = preprocessor.compute_integral_image(&img);
    let mean = Preprocessor::query_integral_mean(&integral, 5, 5, 1, 10, 10);
    assert_eq!(mean, 100);
}

#[test]
fn test_integral_image_correctness() {
    let img = image_from_fn(4, 4, |x, y| ((y * 4 + x) * 10 + 10) as u8);
    let preprocessor = Preprocessor::new(PreprocessingConfig::default());
    let integral = preprocessor.compute_integral_image(&img);
    let mean = Preprocessor::query_integral_mean(&integral, 1, 1, 10, 4, 4);
    assert_eq!(mean, 85);
    let single = Preprocessor::query_integral_mean(&integral, 0, 0, 0, 4, 4);
    assert_eq!(single, 10);
}

#[test]
fn test_horizontal_projection_variance() {
    // The variance is in millionths: 0.001 is 1000.
    let img = image_from_fn(10, 10, |_x, _y| 128);
    let variance = Preprocessor::horizontal_projection_variance(&img);
    assert!(variance < 1000, "Uniform image should have ~0 variance");

    let img = image_from_fn(10, 10, |_x, y| if y % 2 == 0 { 0 } else { 255 });
    let variance = Preprocessor::horizontal_projection_variance(&img);
    assert!(variance > 0, "Alternating rows should have positive variance");
}

#[test]
fn projection_variance_exact_value() {
    // Rows alternate 10 and 0 dark pixels: mean 5, variance 25.
    let img = image_from_fn(10, 10, |_x, y| if y % 2 == 0 { 0 } else { 255 });
    assert_eq!(Preprocessor::horizontal_projection_variance(&img), 25000000);
    let empty = Bitmap::filled(5, 0, 0);
    assert_eq!(Preprocessor::horizontal_projection_variance(&empty), 0);
}

#[test]
fn otsu_threshold_splits_two_levels_at_the_lower() {
    let img = image_from_fn(10, 10, |x, _y| if x < 5 { 200 } else { 50 });
    let preprocessor = Preprocessor::new(PreprocessingConfig::default());
    assert_eq!(preprocessor.calculate_otsu_threshold(&img), 50);
    let flat = image_from_fn(4, 4, |_x, _y| 77);
    assert_eq!(preprocessor.calculate_otsu_threshold(&flat), 0);
}

#[test]
fn otsu_binarize_separates_dark_from_light() {
    let img = image_from_fn(10, 10, |x, _y| if x < 5 { 200 } else { 50 });
    let preprocessor = Preprocessor::new(PreprocessingConfig::default());
    let out = preprocessor.binarize(&img, BinarizationMethod::Otsu);
    assert_eq!(out.get_pixel(0, 0), 255);
    assert_eq!(out.get_pixel(9, 9), 0);
}

#[test]
fn fixed_threshold_is_128() {
    let img = image_from_fn(3, 1, |x, _y| [127u8, 128, 129][x as usize]);
    let preprocessor = Preprocessor::new(PreprocessingConfig::default());
    let out = preprocessor.binarize(&img, BinarizationMethod::Fixed);
    assert_eq!(out.pixels, vec![0, 0, 255]);
}

#[test]
fn adaptive_threshold_keeps_dark_ink_black() {
    let img = image_from_fn(40, 40, |x, y| if (18..22).contains(&x) && (10..30).contains(&y) { 20 } else { 230 });
    let preprocessor = Preprocessor::new(PreprocessingConfig::default());
    let out = preprocessor.binarize(&img, BinarizationMethod::Adaptive);
    assert_eq!((out.width, out.height), (40, 40));
    assert_eq!(out.get_pixel(20, 20), 0);
    assert_eq!(out.get_pixel(2, 2), 255);
    assert!(out.pixels.iter().all(|&p| p == 0 || p == 255));
}

#[test]
fn window_mean_is_clipped_to_the_image() {
    let img = image_from_fn(3, 3, |x, y| (x + 3 * y) as u8 * 10);
    let preprocessor = Preprocessor::new(PreprocessingConfig::default());
    let integral = preprocessor.compute_integral_image(&img);
    // Corner window covers (0..=1, 0..=1): 0, 10, 30, 40.
    assert_eq!(Preprocessor::query_integral_mean(&integral, 0, 0, 1, 3, 3), 20);
    // A point outside the image has an empty window.
    assert_eq!(Preprocessor::query_integral_mean(&integral, 9, 9, 1, 3, 3), 128);
}

#[test]
fn empty_window_reads_mid_grey() {
    let img = image_from_fn(0, 4, |_x, _y| 0);
    let preprocessor = Preprocessor::new(PreprocessingConfig::default());
    let integral = preprocessor.compute_integral_image(&img);
    // Width zero: the window right of the half size is empty.
    assert_eq!(Preprocessor::query_integral_mean(&integral, 5, 1, 2, 0, 4), 128);
    let full = preprocessor.compute_integral_image(&image_from_fn(4, 4, |_x, _y| 30));
    // The window lies past the right edge.
    assert_eq!(Preprocessor::query_integral_mean(&full, 9, 1, 2, 4, 4), 128);
}
