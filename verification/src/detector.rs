//! The detection pipeline after preprocessing: text blocks, optional layout
//! classification, columns, question numbers and question regions.
use crate::anchor_fusion::located_anchors;
use crate::bitmap::Bitmap;
use crate::block_detection::{
    all_wf, blocks_wf, columns_of, occupancy, BlockDetector, ColumnInfo,
};
use crate::geometry::Rect;
use crate::layout_detector::{enhance_blocks_with_layout, enhanced_block, regions_wf, LayoutRegion};
use crate::line_analysis::block_boxes;
use crate::ocr::{mock_answers, mock_ocr_views, ocr_view, ocr_views, OcrAdapter, OcrResult, OcrView};
use crate::preprocessing::Preprocessor;
use crate::text::{decimal, decimal_string};
use crate::question_locator::{
    anchor_views, by_priority, ocr_boxes_wf, ocr_confidences_in_range, usable_patterns, PatternView,
    QuestionLocator,
};
use crate::segmentation::{
    block_view, block_views, box_views, copy_block, fallback_questions, lemma_view_boxes,
    question_confidences_in_range, segmented, view_boxes, BlockView, BoxView, QuestionSegmenter,
};
use crate::types::{
    DetectionResult, DetectionStatus, DetectorConfig, PreprocessingConfig, ProcessOptions,
    QuestionBox, QuestionPattern, ResultMetadata, TextBlock,
};
use vstd::prelude::*;

verus! {

/// The OCR results the detector reads: the test engine's answers, or none
/// without an OCR engine.
pub open spec fn detector_ocr(has_ocr: bool) -> Seq<OcrView> {
    if has_ocr {
        mock_ocr_views()
    } else {
        Seq::empty()
    }
}

/// The questions of a set of blocks and the number of anchors: segmentation
/// by the located anchors, or paragraphs when there are none.
pub open spec fn column_questions(
    views: Seq<PatternView>,
    bv: Seq<BlockView>,
    ocr: Seq<OcrView>,
    width: int,
    include_debug: bool,
) -> (Seq<BoxView>, int) {
    let anchors = located_anchors(views, view_boxes(bv), ocr, width);
    if anchors.len() > 0 {
        (segmented(bv, anchors, include_debug, anchors.len() as int), anchors.len() as int)
    } else {
        (fallback_questions(bv), 0)
    }
}

/// The box's horizontal centre lies in the column (start included, end
/// excluded).
pub open spec fn centred_in(r: Rect, c: ColumnInfo) -> bool {
    2 * c.x_start <= 2 * r.x + r.width && 2 * r.x + r.width < 2 * c.x_end
}

/// The width of a column as a page width, clamped to `u32`.
pub open spec fn column_width(c: ColumnInfo) -> int {
    let w = c.x_end - c.x_start;
    if w < 0 {
        0
    } else if w > u32::MAX {
        u32::MAX as int
    } else {
        w
    }
}

/// `a + b`, at most `usize::MAX`.
pub open spec fn saturating_count(a: int, b: int) -> int {
    if a + b > usize::MAX {
        usize::MAX as int
    } else {
        a + b
    }
}

/// Paragraph questions numbered on after `offset` earlier questions:
/// question `i` becomes number `offset + i + 1`.
pub open spec fn renumbered(qs: Seq<BoxView>, offset: int) -> Seq<BoxView> {
    Seq::new(
        qs.len(),
        |i: int| {
            let q = qs[i];
            (q.0, decimal((offset + i + 1) as nat), q.2, q.3, q.4, q.5, q.6, q.7)
        },
    )
}

/// The questions and the anchor count of the first `k` columns, each
/// column processed on its own blocks and OCR results; a column without
/// blocks is skipped.  A column without question numbers falls back to
/// paragraphs, and their numbers continue after the questions of the
/// columns before it.
pub open spec fn columns_scan(
    views: Seq<PatternView>,
    bv: Seq<BlockView>,
    ocr: Seq<OcrView>,
    columns: Seq<ColumnInfo>,
    include_debug: bool,
    k: int,
) -> (Seq<BoxView>, int)
    decreases k,
{
    if k <= 0 {
        (Seq::empty(), 0)
    } else {
        let (qs, n) = columns_scan(views, bv, ocr, columns, include_debug, k - 1);
        let c = columns[k - 1];
        let cb = bv.filter(|b: BlockView| centred_in(b.1, c));
        if cb.len() == 0 {
            (qs, n)
        } else {
            let co = ocr.filter(|r: OcrView| centred_in(r.1, c));
            let (q2, n2) = column_questions(views, cb, co, column_width(c), include_debug);
            if n2 == 0 {
                (qs + renumbered(q2, qs.len() as int), n)
            } else {
                (qs + q2, saturating_count(n, n2))
            }
        }
    }
}

/// Failed without questions, partial with fewer questions than anchors,
/// successful otherwise.
pub open spec fn status_of(questions: int, anchors: int) -> DetectionStatus {
    if questions == 0 {
        DetectionStatus::Failed
    } else if questions < anchors {
        DetectionStatus::PartialSuccess
    } else {
        DetectionStatus::Success
    }
}

/// A detection result as plain values: status, questions, metadata
/// (question count, time, width, height, column count) and error.
pub type ResultView = (DetectionStatus, Seq<BoxView>, (usize, u64, u32, u32, usize), Option<Seq<char>>);

pub open spec fn result_view(r: DetectionResult) -> ResultView {
    (
        r.status,
        box_views(r.questions@),
        (
            r.metadata.total_questions,
            r.metadata.processing_time_ms,
            r.metadata.image_width,
            r.metadata.image_height,
            r.metadata.num_columns,
        ),
        crate::question_locator::opt_view(r.error),
    )
}

/// The result for the blocks of a page `width × height`: per column when
/// there are several columns, for the whole page otherwise.  The time is
/// left at 0 for the caller to fill in.
pub open spec fn page_result(
    views: Seq<PatternView>,
    has_ocr: bool,
    bv: Seq<BlockView>,
    columns: Seq<ColumnInfo>,
    width: u32,
    height: u32,
    include_debug: bool,
) -> ResultView {
    let ocr = detector_ocr(has_ocr);
    let (qs, n) = if columns.len() > 1 {
        columns_scan(views, bv, ocr, columns, include_debug, columns.len() as int)
    } else {
        column_questions(views, bv, ocr, width as int, include_debug)
    };
    (status_of(qs.len() as int, n), qs, (qs.len() as usize, 0u64, width, height, columns.len() as usize), None)
}

/// The detector.
pub struct Detector {
    config: DetectorConfig,
    preprocessor: Preprocessor,
    block_detector: BlockDetector,
    ocr_adapter: Option<OcrAdapter>,
    question_locator: QuestionLocator,
    segmenter: QuestionSegmenter,
}

/// The views of a list of patterns.
pub open spec fn pattern_list_view(v: Seq<QuestionPattern>) -> Seq<PatternView> {
    v.map_values(|p: QuestionPattern| (p.pattern@, p.pattern_type, p.priority))
}

proof fn lemma_usable_same(a: Seq<QuestionPattern>, b: Seq<QuestionPattern>)
    requires
        pattern_list_view(a) == pattern_list_view(b),
    ensures
        usable_patterns(a) == usable_patterns(b),
    decreases a.len(),
{
    assert(pattern_list_view(a).len() == a.len());
    assert(pattern_list_view(b).len() == b.len());
    if a.len() > 0 {
        assert(pattern_list_view(a.drop_last()) =~= pattern_list_view(b.drop_last())) by {
            assert forall|i: int| 0 <= i < a.len() - 1 implies pattern_list_view(a.drop_last())[i]
                == pattern_list_view(b.drop_last())[i] by {
                assert(pattern_list_view(a)[i] == pattern_list_view(b)[i]);
            }
        }
        lemma_usable_same(a.drop_last(), b.drop_last());
        assert(pattern_list_view(a)[a.len() - 1] == pattern_list_view(b)[b.len() - 1]);
    }
}

fn copy_patterns(v: &Vec<QuestionPattern>) -> (r: Vec<QuestionPattern>)
    ensures
        pattern_list_view(r@) == pattern_list_view(v@),
{
    let mut r: Vec<QuestionPattern> = Vec::new();
    let mut i: usize = 0;
    while i < v.len()
        invariant
            i <= v@.len(),
            pattern_list_view(r@) == pattern_list_view(v@).subrange(0, i as int),
        decreases v@.len() - i,
    {
        let p = &v[i];
        let ghost before = r@;
        let q = QuestionPattern {
            pattern: p.pattern.clone(),
            pattern_type: p.pattern_type,
            priority: p.priority,
        };
        r.push(q);
        proof {
            assert(pattern_list_view(r@) =~= pattern_list_view(before).push(
                (q.pattern@, q.pattern_type, q.priority),
            ));
            assert(pattern_list_view(r@) =~= pattern_list_view(v@).subrange(0, i as int + 1));
        }
        i = i + 1;
    }
    assert(pattern_list_view(v@).subrange(0, v@.len() as int) =~= pattern_list_view(v@));
    r
}

impl Detector {
    /// The preprocessor works with the configuration's preprocessing settings.
    #[verifier::type_invariant]
    spec fn settings_agree(&self) -> bool {
        self.preprocessor.config == self.config.preprocessing
    }

    /// The configuration the detector was made with.
    pub closed spec fn config(&self) -> DetectorConfig {
        self.config
    }

    /// The configuration the detector was made with.
    pub fn configuration(&self) -> (c: &DetectorConfig)
        ensures
            *c == self.config(),
    {
        &self.config
    }

    /// The image preprocessor, set up with the configuration's preprocessing
    /// settings.
    pub fn preprocessor(&self) -> (p: &Preprocessor)
        ensures
            p.config == self.config().preprocessing,
    {
        proof {
            use_type_invariant(self);
        }
        &self.preprocessor
    }

    /// The question-number patterns in the order they are tried.
    pub closed spec fn pattern_views(&self) -> Seq<PatternView> {
        self.question_locator.pattern_views()
    }

    /// The detector reads OCR results.
    pub closed spec fn has_ocr(&self) -> bool {
        self.ocr_adapter is Some
    }

    /// The block detector in use.
    pub closed spec fn blocks(&self) -> BlockDetector {
        self.block_detector
    }

    /// A detector for the configuration: the question-number patterns that
    /// compile, by priority; OCR when the configuration asks for it.
    pub fn new(config: DetectorConfig) -> (d: Detector)
        ensures
            d.config() == config,
            d.pattern_views() == by_priority(usable_patterns(config.question_patterns@)),
            d.has_ocr() == config.ocr is Some,
            d.blocks().thresholds() == (100i64, 10i64, 10i64),
    {
        let pc = &config.preprocessing;
        let preprocessor = Preprocessor::new(
            PreprocessingConfig {
                enable_deskew: pc.enable_deskew,
                enable_denoise: pc.enable_denoise,
                binarization_method: pc.binarization_method,
                contrast_enhancement: pc.contrast_enhancement,
            },
        );
        let block_detector = BlockDetector::new();
        let ocr_adapter = match &config.ocr {
            Some(ocr_config) => Some(OcrAdapter::new(ocr_config)),
            None => None,
        };
        let patterns = copy_patterns(&config.question_patterns);
        proof {
            lemma_usable_same(patterns@, config.question_patterns@);
        }
        let question_locator = QuestionLocator::new(patterns);
        let segmenter = QuestionSegmenter::new();
        Detector {
            config,
            preprocessor,
            block_detector,
            ocr_adapter,
            question_locator,
            segmenter,
        }
    }

    /// The OCR results of the page.
    fn read_ocr(&self, original: &Bitmap) -> (r: Vec<OcrResult>)
        ensures
            ocr_views(r@) == detector_ocr(self.has_ocr()),
            ocr_boxes_wf(ocr_views(r@)),
            ocr_confidences_in_range(ocr_views(r@)),
    {
        proof {
            lemma_mock_boxes_wf();
        }
        match &self.ocr_adapter {
            Some(ocr) => ocr.recognize(original),
            None => {
                let r: Vec<OcrResult> = Vec::new();
                assert(ocr_views(r@) =~= Seq::<OcrView>::empty());
                r
            },
        }
    }

    /// Locates and segments the questions of one set of blocks (a page or a
    /// column) with the given OCR results.
    fn questions_of(
        &self,
        blocks: &[TextBlock],
        ocr_results: &[OcrResult],
        width: u32,
        include_debug: bool,
    ) -> (r: (Vec<QuestionBox>, usize))
        requires
            all_wf(block_boxes(blocks@)),
            ocr_boxes_wf(ocr_views(ocr_results@)),
            ocr_confidences_in_range(ocr_views(ocr_results@)),
        ensures
            question_confidences_in_range(box_views(r.0@)),
            (box_views(r.0@), r.1 as int) == column_questions(
                self.pattern_views(),
                block_views(blocks@),
                ocr_views(ocr_results@),
                width as int,
                include_debug,
            ),
    {
        proof {
            lemma_view_boxes(blocks@);
        }
        let anchors = self.question_locator.locate(blocks, ocr_results, width);
        let total = anchors.len();
        if total > 0 {
            let questions = self.segmenter.segment(blocks, anchors.as_slice(), include_debug);
            (questions, total)
        } else {
            let questions = self.segmenter.fallback_segment(blocks);
            (questions, 0)
        }
    }

    /// Whole-page processing: OCR, question numbers, segmentation.
    pub fn process_single_column(
        &self,
        blocks: &[TextBlock],
        original: &Bitmap,
        options: &ProcessOptions,
    ) -> (r: (Vec<QuestionBox>, usize))
        requires
            all_wf(block_boxes(blocks@)),
        ensures
            (box_views(r.0@), r.1 as int) == column_questions(
                self.pattern_views(),
                block_views(blocks@),
                detector_ocr(self.has_ocr()),
                original.width as int,
                options.include_debug,
            ),
            question_confidences_in_range(box_views(r.0@)),
    {
        let ocr_results = self.read_ocr(original);
        self.questions_of(blocks, ocr_results.as_slice(), original.width, options.include_debug)
    }

    /// Column-by-column processing: OCR once for the page, then question
    /// numbers and segmentation for the blocks and OCR results centred in
    /// each column, from left to right.  A column without question numbers
    /// is split into paragraphs numbered on after the questions found so far.
    pub fn process_multi_column(
        &self,
        blocks: &[TextBlock],
        columns: &[ColumnInfo],
        original: &Bitmap,
        options: &ProcessOptions,
    ) -> (r: (Vec<QuestionBox>, usize))
        requires
            all_wf(block_boxes(blocks@)),
        ensures
            (box_views(r.0@), r.1 as int) == columns_scan(
                self.pattern_views(),
                block_views(blocks@),
                detector_ocr(self.has_ocr()),
                columns@,
                options.include_debug,
                columns@.len() as int,
            ),
            question_confidences_in_range(box_views(r.0@)),
    {
        let ocr_results = self.read_ocr(original);
        let ghost bv = block_views(blocks@);
        let ghost ov = ocr_views(ocr_results@);
        let debug = options.include_debug;
        let mut all_questions: Vec<QuestionBox> = Vec::new();
        let mut total: usize = 0;
        let mut k: usize = 0;
        while k < columns.len()
            invariant
                k <= columns@.len(),
                bv == block_views(blocks@),
                ov == ocr_views(ocr_results@),
                ov == detector_ocr(self.has_ocr()),
                ocr_boxes_wf(ov),
                ocr_confidences_in_range(ov),
                question_confidences_in_range(box_views(all_questions@)),
                all_wf(block_boxes(blocks@)),
                debug == options.include_debug,
                (box_views(all_questions@), total as int) == columns_scan(
                    self.pattern_views(),
                    bv,
                    ov,
                    columns@,
                    debug,
                    k as int,
                ),
            decreases columns@.len() - k,
        {
            let c = &columns[k];
            let col_blocks = blocks_in_column(blocks, c);
            let ghost prev = columns_scan(self.pattern_views(), bv, ov, columns@, debug, k as int);
            if col_blocks.len() > 0 {
                let col_ocr = ocr_in_column(ocr_results.as_slice(), c);
                let span: i128 = (c.x_end as i128) - (c.x_start as i128);
                let width: u32 = if span < 0 {
                    0
                } else if span > u32::MAX as i128 {
                    u32::MAX
                } else {
                    span as u32
                };
                let (mut questions, n) = self.questions_of(
                    col_blocks.as_slice(),
                    col_ocr.as_slice(),
                    width,
                    debug,
                );
                let ghost before = all_questions@;
                let ghost added = questions@;
                let before_len = all_questions.len();
                all_questions.append(&mut questions);
                proof {
                    assert(box_views(all_questions@) =~= box_views(before) + box_views(added));
                }
                if n == 0 {
                    // Paragraph numbers continue after the earlier columns' questions.
                    let offset = before_len;
                    let mut j: usize = offset;
                    while j < all_questions.len()
                        invariant
                            offset == before.len(),
                            offset <= j <= all_questions@.len(),
                            all_questions@.len() == before.len() + added.len(),
                            forall|i: int|
                                0 <= i < offset ==> #[trigger] box_views(all_questions@)[i]
                                    == box_views(before)[i],
                            forall|i: int|
                                offset <= i < j ==> #[trigger] box_views(all_questions@)[i]
                                    == renumbered(box_views(added), offset as int)[i - offset],
                            forall|i: int|
                                j <= i < all_questions@.len() ==> #[trigger] box_views(
                                    all_questions@,
                                )[i] == box_views(added)[i - offset],
                        decreases all_questions@.len() - j,
                    {
                        let label = decimal_string(j as u64 + 1);
                        let ghost old_all = all_questions@;
                        all_questions[j].question_id = label;
                        proof {
                            let jj = j as int;
                            assert(all_questions@.len() == old_all.len());
                            assert forall|i: int| 0 <= i < all_questions@.len() && i != jj implies #[trigger] box_views(
                                all_questions@,
                            )[i] == box_views(old_all)[i] by {
                                assert(all_questions@[i] == old_all[i]);
                            }
                            let nq = all_questions@[jj];
                            let oq = old_all[jj];
                            assert(nq.question_id@ == decimal((j + 1) as nat));
                            assert(nq.page_index == oq.page_index);
                            assert(nq.bounding_box == oq.bounding_box);
                            assert(nq.title_anchor_box == oq.title_anchor_box);
                            assert(nq.confidence == oq.confidence);
                            assert(nq.recognized_title_text == oq.recognized_title_text);
                            assert(nq.block_ids == oq.block_ids);
                            assert(nq.debug_info == oq.debug_info);
                            assert(box_views(old_all)[jj] == box_views(added)[jj - offset]);
                            assert(box_views(all_questions@)[jj] == renumbered(
                                box_views(added),
                                offset as int,
                            )[jj - offset]);
                        }
                        j = j + 1;
                    }
                    proof {
                        assert(box_views(all_questions@) =~= box_views(before) + renumbered(
                            box_views(added),
                            offset as int,
                        ));
                    }
                } else {
                    total = if n > usize::MAX - total {
                        usize::MAX
                    } else {
                        total + n
                    };
                }
                proof {
                    assert forall|q: int| 0 <= q < all_questions@.len() implies 0 <= #[trigger] box_views(
                        all_questions@,
                    )[q].4 <= crate::geometry::PPM by {
                        if q < before.len() {
                            assert(box_views(all_questions@)[q] == box_views(before)[q]);
                        } else {
                            assert(box_views(all_questions@)[q].4 == box_views(added)[q - before.len()].4);
                        }
                    }
                }
            }
            k = k + 1;
        }
        (all_questions, total)
    }

    /// The steps that follow block detection, for the blocks of a page
    /// (see [`page_result`]); the processing time is left at 0.
    pub fn process_blocks(&self, blocks: &[TextBlock], original: &Bitmap, options: &ProcessOptions) -> (r:
        DetectionResult)
        requires
            blocks_wf(blocks@),
        ensures
            result_view(r) == page_result(
                self.pattern_views(),
                self.has_ocr(),
                block_views(blocks@),
                columns_of(occupancy(blocks@, original.width as int), original.width as int),
                original.width,
                original.height,
                options.include_debug,
            ),
            question_confidences_in_range(box_views(r.questions@)),
    {
        proof {
            crate::line_analysis::lemma_blocks_wf(blocks@);
        }
        let columns = self.block_detector.detect_columns(blocks, original.width);
        let num_columns = columns.len();
        let (questions, total_anchors) = if num_columns > 1 {
            self.process_multi_column(blocks, columns.as_slice(), original, options)
        } else {
            self.process_single_column(blocks, original, options)
        };
        let status = if questions.len() == 0 {
            DetectionStatus::Failed
        } else if questions.len() < total_anchors {
            DetectionStatus::PartialSuccess
        } else {
            DetectionStatus::Success
        };
        let metadata = ResultMetadata {
            total_questions: questions.len(),
            processing_time_ms: 0,
            image_width: original.width,
            image_height: original.height,
            num_columns,
        };
        DetectionResult { status, questions, metadata, error: None }
    }

    /// Processes a preprocessed page: text blocks of the binary image,
    /// classified by the layout regions when there are any, then
    /// [`process_blocks`](Self::process_blocks).
    pub fn process_page(
        &self,
        original: &Bitmap,
        binary: &Bitmap,
        layout_regions: Option<&Vec<LayoutRegion>>,
        options: &ProcessOptions,
    ) -> (r: DetectionResult)
        requires
            binary.wf(),
            layout_regions matches Some(regions) ==> regions_wf(regions@),
        ensures
            exists|found: Seq<TextBlock>, blocks: Seq<TextBlock>|
                {
                    &&& (exists|comps: Seq<Rect>|
                        (exists|cls: Seq<Seq<int>>|
                            crate::components::is_component_labeling(binary, comps, cls))
                            && found == #[trigger] self.blocks().blocks_from_components(comps))
                    &&& block_views(blocks) == match layout_regions {
                        Some(regions) => block_views(found).map_values(
                            |b: BlockView| enhanced_block(b, regions@),
                        ),
                        None => block_views(found),
                    }
                    &&& result_view(r) == page_result(
                        self.pattern_views(),
                        self.has_ocr(),
                        block_views(blocks),
                        columns_of(occupancy(blocks, original.width as int), original.width as int),
                        original.width,
                        original.height,
                        options.include_debug,
                    )
                },
    {
        let mut blocks = self.block_detector.detect(binary);
        let ghost found = blocks@;
        assert(blocks_wf(found));
        proof {
            crate::line_analysis::lemma_blocks_wf(blocks@);
        }
        match layout_regions {
            Some(regions) => {
                enhance_blocks_with_layout(&mut blocks, regions.as_slice());
                proof {
                    assert(block_views(blocks@).len() == blocks@.len());
                    assert(block_views(found).len() == found.len());
                    assert(blocks@.len() == found.len());
                    assert forall|i: int| 0 <= i < blocks@.len() implies #[trigger] blocks@[i].bbox.wf() by {
                        let fv = block_views(found);
                        assert(block_views(blocks@)[i] == fv.map_values(
                            |b: BlockView| enhanced_block(b, regions@),
                        )[i]);
                        crate::layout_detector::lemma_enhanced_keeps_box(fv[i], regions@);
                        assert(block_view(found[i]) == fv[i]);
                        assert(found[i].bbox.wf());
                    }
                }
            },
            None => {},
        }
        let r = self.process_blocks(blocks.as_slice(), original, options);
        proof {
            let b = blocks@;
            assert(block_views(b) == match layout_regions {
                Some(regions) => block_views(found).map_values(
                    |v: BlockView| enhanced_block(v, regions@),
                ),
                None => block_views(found),
            });
            assert(self.blocks() == self.block_detector);
        }
        r
    }
}

/// A result for a page that could not be processed: failed, no questions,
/// zero metadata, and the error message.
pub fn failed_result(message: String) -> (r: DetectionResult)
    ensures
        result_view(r) == (
            DetectionStatus::Failed,
            Seq::<BoxView>::empty(),
            (0usize, 0u64, 0u32, 0u32, 0usize),
            Some(message@),
        ),
{
    let r = DetectionResult {
        status: DetectionStatus::Failed,
        questions: Vec::new(),
        metadata: ResultMetadata {
            total_questions: 0,
            processing_time_ms: 0,
            image_width: 0,
            image_height: 0,
            num_columns: 0,
        },
        error: Some(message),
    };
    assert(box_views(r.questions@) =~= Seq::<BoxView>::empty());
    r
}

/// Releases the detector held in `slot`.
pub fn dispose_detector(slot: &mut Option<Detector>) -> (r: Result<bool, String>)
    ensures
        (*final(slot)) is None,
        r == Ok::<bool, String>(true),
{
    *slot = None;
    Ok(true)
}

/// The blocks centred in the column.
fn blocks_in_column(blocks: &[TextBlock], c: &ColumnInfo) -> (col: Vec<TextBlock>)
    requires
        all_wf(block_boxes(blocks@)),
    ensures
        block_views(col@) == block_views(blocks@).filter(|b: BlockView| centred_in(b.1, *c)),
        all_wf(block_boxes(col@)),
{
    let ghost bv = block_views(blocks@);
    let ghost fb = |b: BlockView| centred_in(b.1, *c);
    let mut col_blocks: Vec<TextBlock> = Vec::new();
    let mut i: usize = 0;
    while i < blocks.len()
        invariant
            i <= blocks@.len(),
            bv == block_views(blocks@),
            all_wf(block_boxes(blocks@)),
            fb == (|b: BlockView| centred_in(b.1, *c)),
            block_views(col_blocks@) == bv.subrange(0, i as int).filter(fb),
            all_wf(block_boxes(col_blocks@)),
        decreases blocks@.len() - i,
    {
        let b = &blocks[i];
        proof {
            assert(block_boxes(blocks@)[i as int].wf());
        }
        let centre2: i128 = 2 * (b.bbox.x as i128) + (b.bbox.width as i128);
        let keep = 2 * (c.x_start as i128) <= centre2 && centre2 < 2 * (c.x_end as i128);
        let ghost before = col_blocks@;
        if keep {
            let cb = copy_block(b);
            col_blocks.push(cb);
            proof {
                assert(block_views(col_blocks@) =~= block_views(before).push(block_view(cb)));
                assert forall|j: int| 0 <= j < col_blocks@.len() implies #[trigger] block_boxes(
                    col_blocks@,
                )[j].wf() by {
                    if j < before.len() {
                        assert(block_boxes(before)[j].wf());
                    }
                }
            }
        }
        proof {
            let t = bv.subrange(0, i as int + 1);
            assert(t.drop_last() =~= bv.subrange(0, i as int));
            assert(t.last() == block_view(*b));
            reveal_with_fuel(Seq::filter, 1);
        }
        i = i + 1;
    }
    assert(bv.subrange(0, bv.len() as int) =~= bv);
    col_blocks
}

/// The OCR results centred in the column.
fn ocr_in_column(ocr_results: &[OcrResult], c: &ColumnInfo) -> (col: Vec<OcrResult>)
    requires
        ocr_boxes_wf(ocr_views(ocr_results@)),
        ocr_confidences_in_range(ocr_views(ocr_results@)),
    ensures
        ocr_views(col@) == ocr_views(ocr_results@).filter(|r: OcrView| centred_in(r.1, *c)),
        ocr_boxes_wf(ocr_views(col@)),
        ocr_confidences_in_range(ocr_views(col@)),
{
    let ghost ov = ocr_views(ocr_results@);
    let ghost fo = |r: OcrView| centred_in(r.1, *c);
    let mut col_ocr: Vec<OcrResult> = Vec::new();
    let mut j: usize = 0;
    while j < ocr_results.len()
        invariant
            j <= ocr_results@.len(),
            ov == ocr_views(ocr_results@),
            ocr_boxes_wf(ov),
            fo == (|r: OcrView| centred_in(r.1, *c)),
            ocr_views(col_ocr@) == ov.subrange(0, j as int).filter(fo),
            ocr_boxes_wf(ocr_views(col_ocr@)),
            ocr_confidences_in_range(ov),
            ocr_confidences_in_range(ocr_views(col_ocr@)),
        decreases ocr_results@.len() - j,
    {
        let r = &ocr_results[j];
        let centre2: i128 = 2 * (r.bbox.x as i128) + (r.bbox.width as i128);
        let keep = 2 * (c.x_start as i128) <= centre2 && centre2 < 2 * (c.x_end as i128);
        let ghost before = col_ocr@;
        if keep {
            let rc = OcrResult { text: r.text.clone(), bbox: r.bbox, confidence: r.confidence };
            col_ocr.push(rc);
            proof {
                assert(ocr_views(col_ocr@) =~= ocr_views(before).push(ocr_view(rc)));
                assert(ov[j as int] == ocr_view(*r));
                assert forall|m: int| 0 <= m < col_ocr@.len() implies #[trigger] ocr_views(
                    col_ocr@,
                )[m].1.wf() by {
                    if m < before.len() {
                        assert(ocr_views(before)[m].1.wf());
                    }
                }
                assert forall|m: int| 0 <= m < col_ocr@.len() implies 0 <= #[trigger] ocr_views(
                    col_ocr@,
                )[m].2 <= crate::geometry::PPM by {
                    if m < before.len() {
                        assert(ocr_views(col_ocr@)[m] == ocr_views(before)[m]);
                    }
                }
            }
        }
        proof {
            let t = ov.subrange(0, j as int + 1);
            assert(t.drop_last() =~= ov.subrange(0, j as int));
            assert(t.last() == ocr_view(*r));
            reveal_with_fuel(Seq::filter, 1);
        }
        j = j + 1;
    }
    assert(ov.subrange(0, ov.len() as int) =~= ov);
    col_ocr
}

/// The mock OCR boxes are well formed.
proof fn lemma_mock_boxes_wf()
    ensures
        ocr_boxes_wf(mock_ocr_views()),
        ocr_confidences_in_range(mock_ocr_views()),
{
    let m = mock_ocr_views();
    assert forall|i: int| 0 <= i < m.len() implies (#[trigger] m[i]).1.wf() by {
        assert(0 <= i < 5);
        assert(m[i].1 == mock_answers()[i].0);
    }
}

} // verus!
