use exam_paper_detector::geometry::Rect;
use exam_paper_detector::layout_detector::{
    enhance_blocks_with_layout, extract_non_text_regions, layout_class_to_block_type, LayoutClass,
    LayoutRegion,
};
use exam_paper_detector::types::{BlockType, TextBlock};

#[test]
fn test_layout_class_from_id() {
    assert_eq!(LayoutClass::from_id(0), Some(LayoutClass::Title));
    assert_eq!(LayoutClass::from_id(1), Some(LayoutClass::PlainText));
    assert_eq!(LayoutClass::from_id(5), Some(LayoutClass::Table));
    assert_eq!(LayoutClass::from_id(10), None);
}

#[test]
fn test_layout_class_to_block_type() {
    assert_eq!(layout_class_to_block_type(LayoutClass::Title), BlockType::QuestionNumber);
    assert_eq!(layout_class_to_block_type(LayoutClass::Figure), BlockType::Image);
    assert_eq!(layout_class_to_block_type(LayoutClass::Table), BlockType::Table);
}

#[test]
fn test_enhance_blocks_with_layout() {
    let mut blocks = vec![TextBlock {
        id: 0,
        bbox: Rect::new(100, 100, 200, 30),
        text: None,
        confidence: 900000,
        block_type: BlockType::Unknown,
    }];
    let regions = vec![LayoutRegion {
        bbox: Rect::new(50, 50, 300, 100),
        class: LayoutClass::Figure,
        confidence: 850000,
    }];
    enhance_blocks_with_layout(&mut blocks, &regions);
    assert_eq!(blocks[0].block_type, BlockType::Image);
}

fn block(id: usize, bbox: Rect, block_type: BlockType) -> TextBlock {
    TextBlock { id, bbox, text: None, confidence: 1000000, block_type }
}

#[test]
fn most_confident_region_wins_and_typed_blocks_stay() {
    let mut blocks = vec![
        block(0, Rect::new(100, 100, 20, 20), BlockType::Text),
        block(1, Rect::new(100, 100, 20, 20), BlockType::Option),
        block(2, Rect::new(900, 900, 20, 20), BlockType::Unknown),
    ];
    let regions = vec![
        LayoutRegion { bbox: Rect::new(0, 0, 500, 500), class: LayoutClass::Table, confidence: 400000 },
        LayoutRegion { bbox: Rect::new(50, 50, 200, 200), class: LayoutClass::Title, confidence: 700000 },
        LayoutRegion { bbox: Rect::new(60, 60, 100, 100), class: LayoutClass::Figure, confidence: 700000 },
    ];
    enhance_blocks_with_layout(&mut blocks, &regions);
    assert_eq!(blocks[0].block_type, BlockType::QuestionNumber);
    assert_eq!(blocks[1].block_type, BlockType::Option);
    assert_eq!(blocks[2].block_type, BlockType::Unknown);
}

#[test]
fn class_names_and_ids() {
    assert_eq!(LayoutClass::Title.name(), "title");
    assert_eq!(LayoutClass::IsolateFormula.name(), "isolate_formula");
    assert_eq!(LayoutClass::FormulaCaption.name(), "formula_caption");
    assert_eq!(LayoutClass::from_id(9), Some(LayoutClass::FormulaCaption));
    assert_eq!(layout_class_to_block_type(LayoutClass::Abandon), BlockType::Unknown);
    assert_eq!(layout_class_to_block_type(LayoutClass::TableCaption), BlockType::Text);
}

#[test]
fn non_text_regions_are_figures_tables_and_formulas() {
    let regions = vec![
        LayoutRegion { bbox: Rect::new(0, 0, 10, 10), class: LayoutClass::Figure, confidence: 1 },
        LayoutRegion { bbox: Rect::new(0, 0, 10, 10), class: LayoutClass::PlainText, confidence: 2 },
        LayoutRegion { bbox: Rect::new(0, 0, 10, 10), class: LayoutClass::Table, confidence: 3 },
        LayoutRegion { bbox: Rect::new(0, 0, 10, 10), class: LayoutClass::IsolateFormula, confidence: 4 },
        LayoutRegion { bbox: Rect::new(0, 0, 10, 10), class: LayoutClass::Title, confidence: 5 },
    ];
    let kept = extract_non_text_regions(&regions);
    let confidences: Vec<i64> = kept.iter().map(|r| r.confidence).collect();
    assert_eq!(confidences, vec![1, 3, 4]);
}
