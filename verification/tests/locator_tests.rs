use exam_paper_detector::geometry::Rect;
use exam_paper_detector::ocr::OcrResult;
use exam_paper_detector::question_locator::QuestionLocator;
use exam_paper_detector::types::{BlockType, PatternType, QuestionAnchor, QuestionPattern, TextBlock};

fn block(id: usize, x: i64, y: i64, w: i64, h: i64) -> TextBlock {
    TextBlock { id, bbox: Rect::new(x, y, w, h), text: None, confidence: 1000000, block_type: BlockType::Text }
}

fn anchor(id: &str, y: i64, confidence: i64) -> QuestionAnchor {
    QuestionAnchor {
        question_id: id.to_string(),
        bbox: Rect::new(50, y, 30, 20),
        confidence,
        text: format!("{}.", id),
        pattern_type: PatternType::Numbered,
    }
}

#[test]
fn test_extract_question_id() {
    let locator = QuestionLocator::new(vec![]);
    assert_eq!(locator.extract_question_id("1.", PatternType::Numbered), Some("1".to_string()));
    assert_eq!(locator.extract_question_id("(5)", PatternType::Parenthesized), Some("5".to_string()));
    assert_eq!(locator.extract_question_id("【10】", PatternType::Bracketed), Some("10".to_string()));
    assert_eq!(locator.extract_question_id("1.下列", PatternType::Numbered), Some("1".to_string()));
    assert_eq!(locator.extract_question_id("1 .", PatternType::Numbered), Some("1".to_string()));
    assert_eq!(locator.extract_question_id("(3)关于", PatternType::Parenthesized), Some("3".to_string()));
    assert_eq!(locator.extract_question_id("【2】下列", PatternType::Bracketed), Some("2".to_string()));
    assert_eq!(locator.extract_question_id("一、仔细想", PatternType::Chinese), Some("1".to_string()));
    assert_eq!(locator.extract_question_id("十二、判断", PatternType::Chinese), Some("12".to_string()));
}

#[test]
fn test_chinese_to_number() {
    let locator = QuestionLocator::new(vec![]);
    assert_eq!(locator.chinese_to_number("一"), Some("1".to_string()));
    assert_eq!(locator.chinese_to_number("五"), Some("5".to_string()));
    assert_eq!(locator.chinese_to_number("十"), Some("10".to_string()));
    assert_eq!(locator.chinese_to_number("十一"), Some("11".to_string()));
    assert_eq!(locator.chinese_to_number("十五"), Some("15".to_string()));
    assert_eq!(locator.chinese_to_number("二十"), Some("20".to_string()));
    assert_eq!(locator.chinese_to_number("二十一"), Some("21".to_string()));
    assert_eq!(locator.chinese_to_number("三十五"), Some("35".to_string()));
    assert_eq!(locator.chinese_to_number("ABC"), None);
}

#[test]
fn ids_that_do_not_parse() {
    let locator = QuestionLocator::new(vec![]);
    assert_eq!(locator.extract_question_id("abc", PatternType::Numbered), None);
    assert_eq!(locator.extract_question_id("(x)", PatternType::Parenthesized), None);
    assert_eq!(locator.extract_question_id("百、", PatternType::Chinese), None);
    assert_eq!(locator.extract_question_id("、", PatternType::Chinese), None);
    assert_eq!(locator.chinese_to_number("一二三四"), None);
}

#[test]
fn ocr_anchors_use_the_first_matching_pattern() {
    let locator = QuestionLocator::new(QuestionPattern::default_patterns());
    let results = vec![
        OcrResult { text: "  1.下列说法正确的是".to_string(), bbox: Rect::new(50, 100, 300, 20), confidence: 900000 },
        OcrResult { text: "(2)计算".to_string(), bbox: Rect::new(50, 200, 100, 20), confidence: 800000 },
        OcrResult { text: "三、判断题".to_string(), bbox: Rect::new(50, 300, 100, 20), confidence: 700000 },
        OcrResult { text: "【4】填空".to_string(), bbox: Rect::new(50, 400, 100, 20), confidence: 600000 },
        OcrResult { text: "正文没有题号".to_string(), bbox: Rect::new(50, 500, 100, 20), confidence: 990000 },
    ];
    let anchors = locator.match_from_ocr(&results);
    assert_eq!(anchors.len(), 4);
    assert_eq!(anchors[0].question_id, "1");
    assert_eq!(anchors[0].text, "1.下列说法正确的是");
    assert_eq!(anchors[0].pattern_type, PatternType::Numbered);
    assert_eq!(anchors[1].question_id, "2");
    assert_eq!(anchors[1].pattern_type, PatternType::Parenthesized);
    assert_eq!(anchors[2].question_id, "3");
    assert_eq!(anchors[2].pattern_type, PatternType::Chinese);
    assert_eq!(anchors[3].question_id, "4");
    assert_eq!(anchors[3].pattern_type, PatternType::Bracketed);
}

#[test]
fn invalid_patterns_are_dropped_and_priority_orders_the_rest() {
    let patterns = vec![
        QuestionPattern { pattern: "(".to_string(), pattern_type: PatternType::Numbered, priority: 99 },
        QuestionPattern { pattern: "^\\d+".to_string(), pattern_type: PatternType::Parenthesized, priority: 1 },
        QuestionPattern { pattern: "^\\d+\\.".to_string(), pattern_type: PatternType::Numbered, priority: 5 },
    ];
    let locator = QuestionLocator::new(patterns);
    let results = vec![OcrResult { text: "7.题".to_string(), bbox: Rect::new(0, 0, 10, 10), confidence: 500000 }];
    let anchors = locator.match_from_ocr(&results);
    assert_eq!(anchors.len(), 1);
    assert_eq!(anchors[0].pattern_type, PatternType::Numbered);
    assert_eq!(anchors[0].question_id, "7");
}

#[test]
fn sequence_keeps_increasing_numbers_in_top_order() {
    let locator = QuestionLocator::new(vec![]);
    let anchors = vec![anchor("2", 300, 1), anchor("1", 100, 1), anchor("1", 200, 1), anchor("x", 250, 1), anchor("5", 400, 1)];
    let valid = locator.validate_sequence(anchors);
    let ids: Vec<&str> = valid.iter().map(|a| a.question_id.as_str()).collect();
    assert_eq!(ids, vec!["1", "2", "5"]);
    assert!(locator.validate_sequence(vec![]).is_empty());
}

#[test]
fn fusion_adjusts_confidences() {
    let locator = QuestionLocator::new(vec![]);
    let blocks = vec![block(0, 0, 0, 100, 30)];
    let ocr = vec![anchor("1", 100, 950000), anchor("2", 500, 100000)];
    let geo = vec![anchor("1", 110, 600000), anchor("2", 300, 600000)];
    let fused = locator.fuse_anchors(ocr, geo, &blocks);
    let summary: Vec<(i64, i64)> = fused.iter().map(|a| (a.bbox.y, a.confidence)).collect();
    // 0.95 * 0.6 + 0.4 = 0.97; geometric-only 0.4; 0.1 - 0.2 floors at 0.
    assert_eq!(summary, vec![(100, 970000), (300, 400000), (500, 0)]);
}

#[test]
fn fusion_without_blocks_uses_thirty_pixels() {
    let locator = QuestionLocator::new(vec![]);
    let fused = locator.fuse_anchors(vec![anchor("1", 100, 500000)], vec![anchor("1", 129, 600000)], &[]);
    assert_eq!(fused.len(), 1);
    assert_eq!(fused[0].confidence, 700000);
    let fused = locator.fuse_anchors(vec![anchor("1", 100, 500000)], vec![anchor("1", 130, 600000)], &[]);
    assert_eq!(fused.len(), 2);
    assert_eq!(fused[0].confidence, 300000);
}

#[test]
fn gap_threshold_cases() {
    let locator = QuestionLocator::new(vec![]);
    assert_eq!(locator.find_gap_threshold(&vec![]), 200);
    assert_eq!(locator.find_gap_threshold(&vec![30]), 240);
    assert_eq!(locator.find_gap_threshold(&vec![30, 30, 30]), 240);
    // Sorted: 27 28 40 41 41 59 100; first jump of at least max(8.1, 5): 28 -> 40.
    assert_eq!(locator.find_gap_threshold(&vec![41, 27, 100, 40, 28, 59, 41]), 340);
    // Small jumps only: 0.8 x median, at least 15.
    assert_eq!(locator.find_gap_threshold(&vec![10, 11, 12]), 150);
}

#[test]
fn dominant_x_is_the_densest_cluster_mean() {
    let locator = QuestionLocator::new(vec![]);
    let (sum, count) = locator.find_dominant_x(&[50, 52, 54, 200, 400], 10, 1);
    assert_eq!((sum, count), (156, 3));
    assert_eq!(locator.find_dominant_x(&[], 10, 1), (0, 1));
}

#[test]
fn geometry_finds_numbered_lines_at_the_margin() {
    let locator = QuestionLocator::new(vec![]);
    let mut blocks = Vec::new();
    let mut id = 0;
    for q in 0..4 {
        let top = 100 + q * 200;
        blocks.push(block(id, 50, top, 30, 20));
        id += 1;
        blocks.push(block(id, 100, top, 500, 20));
        id += 1;
        blocks.push(block(id, 100, top + 40, 400, 20));
        id += 1;
    }
    let anchors = locator.infer_from_geometry(&blocks, 800);
    let tops: Vec<i64> = anchors.iter().map(|a| a.bbox.y).collect();
    assert_eq!(tops, vec![100, 300, 500, 700]);
    let ids: Vec<&str> = anchors.iter().map(|a| a.question_id.as_str()).collect();
    assert_eq!(ids, vec!["1", "2", "3", "4"]);
    assert_eq!(anchors[0].text, "1.");
    assert_eq!(anchors[0].confidence, 600000);
    assert_eq!(anchors[0].bbox, Rect::new(50, 100, 30, 20));
}

#[test]
fn locate_returns_increasing_numbers_top_down() {
    let locator = QuestionLocator::new(QuestionPattern::default_patterns());
    let blocks = vec![block(0, 50, 100, 30, 20), block(1, 100, 100, 500, 20), block(2, 50, 300, 30, 20), block(3, 100, 300, 500, 20)];
    let ocr = vec![
        OcrResult { text: "2.".to_string(), bbox: Rect::new(50, 300, 30, 20), confidence: 900000 },
        OcrResult { text: "1.".to_string(), bbox: Rect::new(50, 100, 30, 20), confidence: 900000 },
    ];
    let anchors = locator.locate(&blocks, &ocr, 800);
    let ids: Vec<&str> = anchors.iter().map(|a| a.question_id.as_str()).collect();
    assert_eq!(ids, vec!["1", "2"]);
    assert!(anchors.windows(2).all(|w| w[0].bbox.y <= w[1].bbox.y));
}
