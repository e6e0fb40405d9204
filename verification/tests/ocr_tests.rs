use exam_paper_detector::bitmap::Bitmap;
use exam_paper_detector::geometry::Rect;
use exam_paper_detector::ocr::{MockOcrEngine, OcrAdapter, MOCK_CONFIDENCE};
use exam_paper_detector::types::{OcrConfig, OcrEngine};

#[test]
fn test_mock_ocr() {
    let engine = MockOcrEngine::new();
    let image = Bitmap::filled(800, 1000, 0);
    let results = engine.recognize(&image);
    assert!(!results.is_empty());
    for result in results {
        println!("OCR: {} at {:?}", result.text, result.bbox);
        assert!(result.text.len() > 0);
    }
}

#[test]
fn test_recognize_region() {
    let engine = MockOcrEngine::new();
    let image = Bitmap::filled(800, 1000, 0);
    let region = Rect::new(40, 90, 50, 40);
    let text = engine.recognize_region(&image, region);
    assert_eq!(text, "1.");
}

#[test]
fn region_without_answer_reads_nothing() {
    let engine = MockOcrEngine::new();
    let image = Bitmap::filled(10, 10, 0);
    assert_eq!(engine.recognize_region(&image, Rect::new(400, 0, 10, 10)), "");
    assert_eq!(engine.recognize_region(&image, Rect::new(0, 240, 60, 20)), "2.");
}

#[test]
fn adapter_serves_every_engine_with_fixed_answers() {
    let image = Bitmap::filled(10, 10, 0);
    for engine in [OcrEngine::Mock, OcrEngine::Tesseract, OcrEngine::PaddleOCR] {
        let config = OcrConfig {
            engine,
            language: "chi_sim".to_string(),
            confidence_threshold: 500000,
            model_dir: None,
        };
        let results = OcrAdapter::new(&config).recognize(&image);
        assert_eq!(results.len(), 5);
        assert_eq!(results[4].text, "5.");
        assert_eq!(results[4].bbox, Rect::new(50, 700, 30, 20));
        assert_eq!(results[0].confidence, MOCK_CONFIDENCE);
    }
}

#[test]
fn adapter_reads_a_region_through_its_engine() {
    let image = Bitmap::filled(10, 10, 0);
    let config = OcrConfig {
        engine: OcrEngine::Mock,
        language: "chi_sim".to_string(),
        confidence_threshold: 500000,
        model_dir: None,
    };
    let adapter = OcrAdapter::new(&config);
    assert_eq!(adapter.recognize_region(&image, Rect::new(60, 540, 5, 15)), "4.");
    assert_eq!(adapter.recognize_region(&image, Rect::new(0, 0, 10, 10)), "");
}
