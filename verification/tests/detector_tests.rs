use exam_paper_detector::bitmap::Bitmap;
use exam_paper_detector::block_detection::ColumnInfo;
use exam_paper_detector::detector::{dispose_detector, failed_result, Detector};
use exam_paper_detector::geometry::Rect;
use exam_paper_detector::get_version;
use exam_paper_detector::layout_detector::{LayoutClass, LayoutRegion};
use exam_paper_detector::types::{
    BinarizationMethod, BlockType, DebugConfig, DetectionStatus, DetectorConfig, OcrConfig, OcrEngine,
    PatternType, PreprocessingConfig, ProcessOptions, QuestionPattern, TextBlock,
};

fn page_with_boxes(width: u32, height: u32, boxes: &[(u32, u32, u32, u32)]) -> Bitmap {
    let mut img = Bitmap::filled(width, height, 255);
    for &(x0, y0, x1, y1) in boxes {
        for y in y0..y1 {
            for x in x0..x1 {
                img.put_pixel(x, y, 0);
            }
        }
    }
    img
}

fn block(id: usize, x: i64, y: i64, w: i64, h: i64) -> TextBlock {
    TextBlock { id, bbox: Rect::new(x, y, w, h), text: None, confidence: 1000000, block_type: BlockType::Text }
}

#[test]
fn test_get_version() {
    let version = get_version();
    assert!(!version.is_empty());
    assert_eq!(version, "0.1.0");
}

#[test]
fn test_detector_creation() {
    let config = DetectorConfig::default();
    let _detector = Detector::new(config);
}

#[test]
fn test_init_and_dispose() {
    let mut slot = Some(Detector::new(DetectorConfig::default()));
    let result = dispose_detector(&mut slot);
    assert!(result.is_ok());
    assert!(result.unwrap());
    assert!(slot.is_none());
}

#[test]
fn default_configuration() {
    let config = DetectorConfig::default();
    assert_eq!(config.question_patterns.len(), 4);
    assert_eq!(config.question_patterns[0].pattern, "^\\d+\\.");
    assert_eq!(config.question_patterns[2].pattern_type, PatternType::Chinese);
    assert_eq!(config.preprocessing.binarization_method, BinarizationMethod::Adaptive);
    assert_eq!(config.preprocessing.contrast_enhancement, 1200000);
    assert!(config.ocr.is_none() && config.layout.is_none());
    assert!(!DebugConfig::default().verbose);
    let options = ProcessOptions::default();
    assert_eq!(options.page_index, 0);
    assert!(!options.include_debug);
    let p = PreprocessingConfig::default();
    assert!(p.enable_deskew && p.enable_denoise);
}

#[test]
fn page_without_anchors_falls_back_to_paragraphs() {
    let detector = Detector::new(DetectorConfig::default());
    let original = Bitmap::filled(800, 600, 255);
    let blocks = vec![block(0, 100, 100, 500, 20), block(1, 100, 130, 500, 20)];
    let result = detector.process_blocks(&blocks, &original, &ProcessOptions::default());
    assert_eq!(result.status, DetectionStatus::Success);
    assert_eq!(result.questions.len(), 1);
    assert_eq!(result.metadata.total_questions, 1);
    // The left margin is wider than a twentieth of the page: an empty column
    // [0, 0) comes before the text column.
    assert_eq!(result.metadata.num_columns, 2);
    assert_eq!((result.metadata.image_width, result.metadata.image_height), (800, 600));
    assert!(result.error.is_none());
}

#[test]
fn empty_page_fails() {
    let detector = Detector::new(DetectorConfig::default());
    let original = Bitmap::filled(100, 100, 255);
    let result = detector.process_page(&original, &original, None, &ProcessOptions::default());
    assert_eq!(result.status, DetectionStatus::Failed);
    assert!(result.questions.is_empty());
}

#[test]
fn mock_ocr_anchors_drive_segmentation() {
    let mut config = DetectorConfig::default();
    config.ocr = Some(OcrConfig {
        engine: OcrEngine::Mock,
        language: "chi_sim".to_string(),
        confidence_threshold: 0,
        model_dir: None,
    });
    let detector = Detector::new(config);
    let original = Bitmap::filled(800, 900, 255);
    // Text to the right of the fixed answers "1." at y = 100 and "2." at y = 250.
    let blocks = vec![block(0, 90, 102, 400, 20), block(1, 90, 252, 400, 20)];
    let result = detector.process_blocks(&blocks, &original, &ProcessOptions::default());
    let ids: Vec<&str> = result.questions.iter().map(|q| q.question_id.as_str()).collect();
    assert_eq!(ids, vec!["1", "2"]);
    // Five anchors but two questions.
    assert_eq!(result.status, DetectionStatus::PartialSuccess);
}

#[test]
fn generated_page_end_to_end() {
    let img = page_with_boxes(
        800,
        1200,
        &[
            (30, 50, 60, 80),
            (80, 55, 700, 70),
            (80, 90, 600, 105),
            (30, 300, 60, 330),
            (80, 305, 650, 320),
            (80, 340, 550, 355),
            (30, 550, 60, 580),
            (80, 555, 700, 570),
        ],
    );
    let detector = Detector::new(DetectorConfig::default());
    let result = detector.process_page(&img, &img, None, &ProcessOptions { page_index: 0, include_debug: true, save_intermediate: false });
    assert!(result.questions.len() > 0, "Should detect at least 1 question region");
    assert_ne!(result.status, DetectionStatus::Failed);
}

#[test]
fn layout_regions_classify_blocks_before_segmentation() {
    let img = page_with_boxes(400, 300, &[(50, 50, 350, 80)]);
    let detector = Detector::new(DetectorConfig::default());
    let regions = vec![LayoutRegion { bbox: Rect::new(0, 0, 400, 300), class: LayoutClass::Figure, confidence: 900000 }];
    let result = detector.process_page(&img, &img, Some(&regions), &ProcessOptions::default());
    assert_eq!(result.questions.len(), 1);
}

#[test]
fn failed_result_carries_the_message() {
    let r = failed_result("cannot open".to_string());
    assert_eq!(r.status, DetectionStatus::Failed);
    assert!(r.questions.is_empty());
    assert_eq!(r.metadata.num_columns, 0);
    assert_eq!(r.error, Some("cannot open".to_string()));
}

#[test]
fn detector_uses_configured_patterns() {
    let mut config = DetectorConfig::default();
    config.question_patterns = vec![QuestionPattern { pattern: "^Q\\d+".to_string(), pattern_type: PatternType::Numbered, priority: 3 }];
    let _ = Detector::new(config);
}

#[test]
fn detector_exposes_its_configuration_and_preprocessor() {
    let mut config = DetectorConfig::default();
    config.preprocessing.binarization_method = BinarizationMethod::Otsu;
    config.preprocessing.contrast_enhancement = 1000000;
    let detector = Detector::new(config);
    assert_eq!(detector.configuration().preprocessing.binarization_method, BinarizationMethod::Otsu);
    assert_eq!(detector.configuration().question_patterns.len(), 4);
    assert_eq!(detector.preprocessor().config.binarization_method, BinarizationMethod::Otsu);
    assert_eq!(detector.preprocessor().config.contrast_enhancement, 1000000);
}

#[test]
fn paragraph_numbers_continue_across_columns() {
    let detector = Detector::new(DetectorConfig::default());
    let original = Bitmap::filled(800, 600, 255);
    let blocks = vec![block(0, 10, 100, 300, 20), block(1, 10, 130, 300, 20), block(2, 450, 100, 300, 20)];
    let columns = vec![
        ColumnInfo { index: 0, x_start: 0, x_end: 400 },
        ColumnInfo { index: 1, x_start: 400, x_end: 800 },
    ];
    let (questions, anchors) = detector.process_multi_column(&blocks, &columns, &original, &ProcessOptions::default());
    let ids: Vec<&str> = questions.iter().map(|q| q.question_id.as_str()).collect();
    assert_eq!(ids, vec!["1", "2"]);
    // The right column has no question number: its paragraph is numbered on
    // after the left column's question instead of starting again at 1.
    assert_eq!(questions[1].block_ids, vec![2]);
    assert_eq!(questions[1].recognized_title_text, None);
    assert_eq!(anchors, 1);
}
