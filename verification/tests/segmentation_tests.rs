use exam_paper_detector::geometry::Rect;
use exam_paper_detector::segmentation::QuestionSegmenter;
use exam_paper_detector::types::{BlockType, PatternType, QuestionAnchor, TextBlock};

fn text_block(id: usize, bbox: Rect, text: Option<&str>) -> TextBlock {
    TextBlock { id, bbox, text: text.map(|t| t.to_string()), confidence: 900000, block_type: BlockType::Text }
}

fn anchor(id: &str, bbox: Rect, confidence: i64) -> QuestionAnchor {
    QuestionAnchor {
        question_id: id.to_string(),
        bbox,
        confidence,
        text: format!("{}.", id),
        pattern_type: PatternType::Numbered,
    }
}

#[test]
fn test_segmentation() {
    let segmenter = QuestionSegmenter::new();
    let anchors = vec![
        anchor("1", Rect::new(50, 100, 30, 20), 950000),
        anchor("2", Rect::new(50, 300, 30, 20), 950000),
    ];
    let blocks = vec![
        text_block(0, Rect::new(100, 105, 400, 20), Some("This is question 1 text")),
        text_block(1, Rect::new(100, 130, 400, 20), Some("More text for question 1")),
        text_block(2, Rect::new(100, 305, 400, 20), Some("This is question 2 text")),
    ];
    let questions = segmenter.segment(&blocks, &anchors, true);
    assert_eq!(questions.len(), 2);
    assert_eq!(questions[0].question_id, "1");
    assert_eq!(questions[1].question_id, "2");
    assert_eq!(questions[0].block_ids.len(), 2);
    assert_eq!(questions[1].block_ids.len(), 1);
}

#[test]
fn segment_regions_and_scores() {
    let segmenter = QuestionSegmenter::new();
    let anchors = vec![
        anchor("1", Rect::new(50, 100, 30, 20), 950000),
        anchor("2", Rect::new(50, 300, 30, 20), 950000),
    ];
    let blocks = vec![
        text_block(0, Rect::new(100, 105, 400, 20), None),
        text_block(1, Rect::new(100, 130, 400, 20), Some(" B. ")),
        text_block(2, Rect::new(100, 305, 400, 20), None),
    ];
    let questions = segmenter.segment(&blocks, &anchors, true);
    let q1 = &questions[0];
    // From the anchor's top to 3 pixels above the next anchor.
    assert_eq!(q1.bounding_box, Rect::new(50, 100, 450, 197));
    assert_eq!(q1.title_anchor_box, Some(Rect::new(50, 100, 30, 20)));
    assert_eq!(q1.recognized_title_text, Some("1.".to_string()));
    assert_eq!(q1.block_ids, vec![0, 1]);
    // 0.4 x 0.95 + 0.3 x 1 + 0.2 x 1 + 0.1 x min(1.2 x 40 / 200, 1) = 0.904
    assert_eq!(q1.confidence, 904000);
    let debug = q1.debug_info.as_ref().unwrap();
    assert_eq!(debug.num_blocks, 2);
    assert_eq!(debug.detection_method, "anchor_based");
    assert!(debug.has_options);
    // The last question ends at the lowest block.
    let q2 = &questions[1];
    assert_eq!(q2.bounding_box, Rect::new(50, 300, 450, 25));
    assert!(!q2.debug_info.as_ref().unwrap().has_options);
    // Coverage 1.2 x 20 / 25 = 0.96.
    assert_eq!(q2.confidence, 380000 + 300000 + 200000 + 96000);
}

#[test]
fn segment_without_debug_and_without_anchors() {
    let segmenter = QuestionSegmenter::new();
    let blocks = vec![text_block(0, Rect::new(100, 105, 400, 20), None)];
    assert!(segmenter.segment(&blocks, &[], false).is_empty());
    let anchors = vec![anchor("1", Rect::new(50, 100, 30, 20), 950000)];
    let questions = segmenter.segment(&blocks, &anchors, false);
    assert!(questions[0].debug_info.is_none());
}

#[test]
fn anchors_without_blocks_give_no_question() {
    let segmenter = QuestionSegmenter::new();
    let anchors = vec![
        anchor("1", Rect::new(50, 100, 30, 20), 950000),
        anchor("2", Rect::new(50, 300, 30, 20), 950000),
    ];
    let blocks = vec![text_block(0, Rect::new(100, 305, 400, 20), None)];
    let questions = segmenter.segment(&blocks, &anchors, false);
    assert_eq!(questions.len(), 1);
    assert_eq!(questions[0].question_id, "2");
}

#[test]
fn sub_question_labels() {
    let segmenter = QuestionSegmenter::new();
    let labelled = |t: &str| text_block(0, Rect::new(0, 0, 10, 10), Some(t));
    assert!(segmenter.is_sub_question(&labelled("(1) 计算")));
    assert!(segmenter.is_sub_question(&labelled(" (12)")));
    assert!(segmenter.is_sub_question(&labelled("()x")));
    assert!(segmenter.is_sub_question(&labelled("①")));
    assert!(segmenter.is_sub_question(&labelled("㉑ 题")));
    assert!(!segmenter.is_sub_question(&labelled("(a)")));
    assert!(!segmenter.is_sub_question(&labelled("()")));
    assert!(!segmenter.is_sub_question(&labelled("(1")));
    assert!(!segmenter.is_sub_question(&text_block(0, Rect::new(0, 0, 1, 1), None)));
}

#[test]
fn sub_question_below_the_centre_line_joins() {
    let segmenter = QuestionSegmenter::new();
    let a = anchor("1", Rect::new(50, 100, 30, 20), 950000);
    let blocks = vec![
        text_block(0, Rect::new(60, 190, 40, 30), Some("(1)")),
        text_block(1, Rect::new(60, 190, 40, 30), Some("text")),
    ];
    // Centre 205 is past the end 200, but the top 190 is inside.
    let picked = segmenter.find_question_blocks(&blocks, &a, 100, 200);
    assert_eq!(picked.len(), 1);
    assert_eq!(picked[0].id, 0);
}

#[test]
fn blocks_outside_the_column_are_left_out() {
    let segmenter = QuestionSegmenter::new();
    let a = anchor("1", Rect::new(50, 100, 30, 20), 950000);
    // Column limit: 2 x 50 + 30 = 130.
    let blocks = vec![
        text_block(0, Rect::new(129, 110, 10, 10), None),
        text_block(1, Rect::new(130, 110, 10, 10), None),
    ];
    let picked = segmenter.find_question_blocks(&blocks, &a, 100, 200);
    assert_eq!(picked.len(), 1);
    assert_eq!(picked[0].id, 0);
}

#[test]
fn consistency_levels() {
    let segmenter = QuestionSegmenter::new();
    let lefts = |xs: &[i64]| -> Vec<TextBlock> {
        xs.iter().enumerate().map(|(i, &x)| text_block(i, Rect::new(x, 0, 10, 10), None)).collect()
    };
    assert_eq!(segmenter.calculate_geometric_consistency(&lefts(&[100])), 1000000);
    assert_eq!(segmenter.calculate_geometric_consistency(&lefts(&[100, 118])), 1000000);
    assert_eq!(segmenter.calculate_geometric_consistency(&lefts(&[100, 120])), 800000);
    assert_eq!(segmenter.calculate_geometric_consistency(&lefts(&[100, 160])), 600000);
    assert_eq!(segmenter.calculate_geometric_consistency(&lefts(&[100, 200])), 400000);
}

#[test]
fn adaptive_threshold_from_median_gap() {
    let segmenter = QuestionSegmenter::new();
    let blocks = vec![
        text_block(0, Rect::new(0, 0, 10, 10), None),
        text_block(1, Rect::new(0, 20, 10, 10), None),
        text_block(2, Rect::new(0, 50, 10, 10), None),
    ];
    // Gaps 10 and 20: median 15, threshold 30.
    assert_eq!(segmenter.calculate_adaptive_threshold(&blocks), 30);
    assert_eq!(segmenter.calculate_adaptive_threshold(&blocks[..1]), 50);
    let touching = vec![text_block(0, Rect::new(0, 0, 10, 10), None), text_block(1, Rect::new(0, 10, 10, 10), None)];
    assert_eq!(segmenter.calculate_adaptive_threshold(&touching), 50);
}

#[test]
fn fallback_splits_paragraphs() {
    let segmenter = QuestionSegmenter::new();
    let blocks = vec![
        text_block(0, Rect::new(0, 0, 100, 10), None),
        text_block(1, Rect::new(0, 15, 100, 10), None),
        text_block(2, Rect::new(0, 30, 100, 10), None),
        text_block(3, Rect::new(10, 200, 50, 10), None),
        text_block(4, Rect::new(0, 215, 100, 10), None),
    ];
    let questions = segmenter.fallback_segment(&blocks);
    assert_eq!(questions.len(), 2);
    assert_eq!(questions[0].question_id, "1");
    assert_eq!(questions[0].block_ids, vec![0, 1, 2]);
    assert_eq!(questions[0].bounding_box, Rect::new(0, 0, 100, 40));
    assert_eq!(questions[1].question_id, "2");
    assert_eq!(questions[1].block_ids, vec![3, 4]);
    assert_eq!(questions[1].bounding_box, Rect::new(0, 200, 100, 25));
    assert_eq!(questions[1].confidence, 500000);
    assert!(questions[1].title_anchor_box.is_none());
    assert_eq!(questions[1].debug_info.as_ref().unwrap().detection_method, "fallback_paragraph");
    assert!(segmenter.fallback_segment(&[]).is_empty());
}

#[test]
fn question_from_no_blocks_is_an_empty_box() {
    let segmenter = QuestionSegmenter::new();
    let q = segmenter.create_question_from_blocks(&[], 7);
    assert_eq!(q.question_id, "7");
    assert_eq!(q.bounding_box, Rect::new(0, 0, 0, 0));
    assert!(q.block_ids.is_empty());
}

#[test]
fn options_are_detected() {
    let segmenter = QuestionSegmenter::new();
    let with = |t: &str| vec![text_block(0, Rect::new(0, 0, 1, 1), Some(t))];
    assert!(segmenter.has_options(&with("A")));
    assert!(segmenter.has_options(&with(" F ")));
    assert!(segmenter.has_options(&with("D.")));
    assert!(!segmenter.has_options(&with("E.")));
    assert!(!segmenter.has_options(&with("G")));
    assert!(!segmenter.has_options(&with("AB")));
}
