//! Page-layout classes of the layout model and their use to classify text
//! blocks.
use crate::block_detection::all_wf;
use crate::geometry::Rect;
use crate::line_analysis::block_boxes;
use crate::segmentation::{block_view, block_views, copy_block, BlockView};
use crate::types::{BlockType, TextBlock};
use vstd::prelude::*;

verus! {

/// Layout element classes of the layout model, by class id 0 to 9.
#[derive(Debug, Clone, Copy, PartialEq, Eq, Structural)]
pub enum LayoutClass {
    Title,
    PlainText,
    Abandon,
    Figure,
    FigureCaption,
    Table,
    TableCaption,
    TableFootnote,
    IsolateFormula,
    FormulaCaption,
}

/// The class with the given id.
pub open spec fn class_of_id(id: int) -> Option<LayoutClass> {
    if id == 0 {
        Some(LayoutClass::Title)
    } else if id == 1 {
        Some(LayoutClass::PlainText)
    } else if id == 2 {
        Some(LayoutClass::Abandon)
    } else if id == 3 {
        Some(LayoutClass::Figure)
    } else if id == 4 {
        Some(LayoutClass::FigureCaption)
    } else if id == 5 {
        Some(LayoutClass::Table)
    } else if id == 6 {
        Some(LayoutClass::TableCaption)
    } else if id == 7 {
        Some(LayoutClass::TableFootnote)
    } else if id == 8 {
        Some(LayoutClass::IsolateFormula)
    } else if id == 9 {
        Some(LayoutClass::FormulaCaption)
    } else {
        None
    }
}

/// The block type a layout class stands for.
pub open spec fn block_type_of(class: LayoutClass) -> BlockType {
    match class {
        LayoutClass::Title => BlockType::QuestionNumber,
        LayoutClass::PlainText => BlockType::Text,
        LayoutClass::Figure => BlockType::Image,
        LayoutClass::Table => BlockType::Table,
        LayoutClass::IsolateFormula => BlockType::Text,
        LayoutClass::Abandon => BlockType::Unknown,
        LayoutClass::FigureCaption => BlockType::Text,
        LayoutClass::TableCaption => BlockType::Text,
        LayoutClass::TableFootnote => BlockType::Text,
        LayoutClass::FormulaCaption => BlockType::Text,
    }
}

impl LayoutClass {
    /// The class with the given id (0 to 9).
    pub fn from_id(id: usize) -> (c: Option<LayoutClass>)
        ensures
            c == class_of_id(id as int),
    {
        match id {
            0 => Some(LayoutClass::Title),
            1 => Some(LayoutClass::PlainText),
            2 => Some(LayoutClass::Abandon),
            3 => Some(LayoutClass::Figure),
            4 => Some(LayoutClass::FigureCaption),
            5 => Some(LayoutClass::Table),
            6 => Some(LayoutClass::TableCaption),
            7 => Some(LayoutClass::TableFootnote),
            8 => Some(LayoutClass::IsolateFormula),
            9 => Some(LayoutClass::FormulaCaption),
            _ => None,
        }
    }

    /// The class's name in the model's label set.
    pub fn name(&self) -> (s: &'static str)
        ensures
            s@ == match *self {
                LayoutClass::Title => "title"@,
                LayoutClass::PlainText => "plain_text"@,
                LayoutClass::Abandon => "abandon"@,
                LayoutClass::Figure => "figure"@,
                LayoutClass::FigureCaption => "figure_caption"@,
                LayoutClass::Table => "table"@,
                LayoutClass::TableCaption => "table_caption"@,
                LayoutClass::TableFootnote => "table_footnote"@,
                LayoutClass::IsolateFormula => "isolate_formula"@,
                LayoutClass::FormulaCaption => "formula_caption"@,
            },
    {
        match self {
            LayoutClass::Title => "title",
            LayoutClass::PlainText => "plain_text",
            LayoutClass::Abandon => "abandon",
            LayoutClass::Figure => "figure",
            LayoutClass::FigureCaption => "figure_caption",
            LayoutClass::Table => "table",
            LayoutClass::TableCaption => "table_caption",
            LayoutClass::TableFootnote => "table_footnote",
            LayoutClass::IsolateFormula => "isolate_formula",
            LayoutClass::FormulaCaption => "formula_caption",
        }
    }
}

/// A layout element found on the page.
#[derive(Debug, Clone)]
pub struct LayoutRegion {
    pub bbox: Rect,
    pub class: LayoutClass,
    /// Confidence in millionths.
    pub confidence: i64,
}

/// The block type a layout class stands for.
pub fn layout_class_to_block_type(class: LayoutClass) -> (t: BlockType)
    ensures
        t == block_type_of(class),
{
    match class {
        LayoutClass::Title => BlockType::QuestionNumber,
        LayoutClass::PlainText => BlockType::Text,
        LayoutClass::Figure => BlockType::Image,
        LayoutClass::Table => BlockType::Table,
        LayoutClass::IsolateFormula => BlockType::Text,
        LayoutClass::Abandon => BlockType::Unknown,
        LayoutClass::FigureCaption => BlockType::Text,
        LayoutClass::TableCaption => BlockType::Text,
        LayoutClass::TableFootnote => BlockType::Text,
        LayoutClass::FormulaCaption => BlockType::Text,
    }
}

/// The region holds the point `(cx2 / 2, cy2 / 2)` (edges included).
pub open spec fn holds_half_point(r: Rect, cx2: int, cy2: int) -> bool {
    2 * r.x <= cx2 && cx2 <= 2 * (r.x + r.width) && 2 * r.y <= cy2 && cy2 <= 2 * (r.y + r.height)
}

/// Among the first `k` regions holding the centre of `b`, the position of the
/// first one with the highest confidence.
pub open spec fn best_region(regions: Seq<LayoutRegion>, b: Rect, k: int) -> Option<int>
    decreases k,
{
    if k <= 0 {
        None
    } else {
        let prev = best_region(regions, b, k - 1);
        let r = regions[k - 1];
        if holds_half_point(r.bbox, 2 * b.x + b.width, 2 * b.y + b.height) && (prev is None
            || r.confidence > regions[prev.unwrap()].confidence) {
            Some(k - 1)
        } else {
            prev
        }
    }
}

/// The block after classification by the layout: a text or unknown block
/// takes the type of the most confident region that holds its centre.
pub open spec fn enhanced_block(b: BlockView, regions: Seq<LayoutRegion>) -> BlockView {
    match best_region(regions, b.1, regions.len() as int) {
        Some(i) => if b.4 == BlockType::Unknown || b.4 == BlockType::Text {
            (b.0, b.1, b.2, b.3, block_type_of(regions[i].class))
        } else {
            b
        },
        None => b,
    }
}

/// Classification changes only the block type.
pub proof fn lemma_enhanced_keeps_box(b: BlockView, regions: Seq<LayoutRegion>)
    ensures
        enhanced_block(b, regions).0 == b.0,
        enhanced_block(b, regions).1 == b.1,
        enhanced_block(b, regions).2 == b.2,
        enhanced_block(b, regions).3 == b.3,
{
}

/// Regions whose numbers lie in the accepted coordinate range.
pub open spec fn regions_wf(regions: Seq<LayoutRegion>) -> bool {
    forall|i: int| 0 <= i < regions.len() ==> (#[trigger] regions[i]).bbox.wf()
}

/// Classifies the text and unknown blocks by the most confident layout
/// region that holds their centre.
pub fn enhance_blocks_with_layout(blocks: &mut Vec<TextBlock>, layout_regions: &[LayoutRegion])
    requires
        all_wf(block_boxes(old(blocks)@)),
        regions_wf(layout_regions@),
    ensures
        block_views(final(blocks)@) == block_views(old(blocks)@).map_values(
            |b: BlockView| enhanced_block(b, layout_regions@),
        ),
{
    let ghost original = block_views(blocks@);
    let n = blocks.len();
    let mut i: usize = 0;
    while i < n
        invariant
            n == blocks@.len(),
            i <= n,
            original.len() == n,
            all_wf(block_boxes(blocks@)),
            regions_wf(layout_regions@),
            forall|k: int|
                0 <= k < i ==> block_view(#[trigger] blocks@[k]) == enhanced_block(
                    original[k],
                    layout_regions@,
                ),
            forall|k: int| i <= k < n ==> block_view(#[trigger] blocks@[k]) == original[k],
        decreases n - i,
    {
        let b = blocks[i].bbox;
        let ghost before = blocks@;
        proof {
            assert(block_boxes(blocks@)[i as int].wf());
        }
        let cx2 = 2 * b.x + b.width;
        let cy2 = 2 * b.y + b.height;
        let mut best: Option<usize> = None;
        let mut j: usize = 0;
        while j < layout_regions.len()
            invariant
                j <= layout_regions@.len(),
                regions_wf(layout_regions@),
                b.wf(),
                cx2 == 2 * b.x + b.width,
                cy2 == 2 * b.y + b.height,
                (match best {
                    Some(k) => Some(k as int),
                    None => None,
                }) == best_region(layout_regions@, b, j as int),
                best matches Some(k) ==> k < j,
            decreases layout_regions@.len() - j,
        {
            let r = layout_regions[j].bbox;
            proof {
                assert(layout_regions@[j as int].bbox.wf());
            }
            let inside = 2 * r.x <= cx2 && cx2 <= 2 * (r.x + r.width) && 2 * r.y <= cy2 && cy2 <= 2
                * (r.y + r.height);
            if inside {
                let better = match best {
                    None => true,
                    Some(k) => layout_regions[j].confidence > layout_regions[k].confidence,
                };
                if better {
                    best = Some(j);
                }
            }
            j = j + 1;
        }
        match best {
            Some(k) => {
                let t = blocks[i].block_type;
                if t == BlockType::Unknown || t == BlockType::Text {
                    let new_type = layout_class_to_block_type(layout_regions[k].class);
                    let mut updated = copy_block(&blocks[i]);
                    updated.block_type = new_type;
                    blocks.set(i, updated);
                }
            },
            None => {},
        }
        proof {
            assert(block_view(blocks@[i as int]) == enhanced_block(original[i as int], layout_regions@));
            assert forall|k: int| 0 <= k < n implies #[trigger] block_boxes(blocks@)[k].wf() by {
                assert(blocks@[k].bbox == before[k].bbox);
                assert(block_boxes(before)[k].wf());
            }
        }
        i = i + 1;
    }
    proof {
        assert(block_views(blocks@) =~= original.map_values(
            |b: BlockView| enhanced_block(b, layout_regions@),
        ));
    }
}

/// The class is a figure, a table or a displayed formula.
pub open spec fn is_non_text_class(c: LayoutClass) -> bool {
    c == LayoutClass::Figure || c == LayoutClass::Table || c == LayoutClass::IsolateFormula
}

/// The figure, table and formula regions, in order.
pub fn extract_non_text_regions(layout_regions: &[LayoutRegion]) -> (res: Vec<LayoutRegion>)
    ensures
        res@ == layout_regions@.filter(|r: LayoutRegion| is_non_text_class(r.class)),
{
    let ghost f = |r: LayoutRegion| is_non_text_class(r.class);
    let mut res: Vec<LayoutRegion> = Vec::new();
    let mut i: usize = 0;
    while i < layout_regions.len()
        invariant
            i <= layout_regions@.len(),
            f == (|r: LayoutRegion| is_non_text_class(r.class)),
            res@ == layout_regions@.subrange(0, i as int).filter(f),
        decreases layout_regions@.len() - i,
    {
        let r = &layout_regions[i];
        let keep = r.class == LayoutClass::Figure || r.class == LayoutClass::Table || r.class
            == LayoutClass::IsolateFormula;
        if keep {
            res.push(LayoutRegion { bbox: r.bbox, class: r.class, confidence: r.confidence });
        }
        proof {
            let t = layout_regions@.subrange(0, i as int + 1);
            assert(t.drop_last() =~= layout_regions@.subrange(0, i as int));
            assert(t.last() == *r);
            reveal_with_fuel(Seq::filter, 1);
        }
        i = i + 1;
    }
    assert(layout_regions@.subrange(0, layout_regions@.len() as int) =~= layout_regions@);
    res
}

} // verus!
