//! Combining the anchors read from OCR with those inferred from geometry,
//! keeping an increasing sequence of question numbers, and the full
//! question-number location.
use crate::anchor_inference::geometric_anchors;
use crate::block_detection::{abs_diff, all_wf, sum_heights, total_height};
use crate::geometry::{min_int, PPM};
use crate::line_analysis::{block_boxes, boxes_of};
use crate::ocr::OcrResult;
use crate::question_locator::{
    anchor_boxes_wf, anchor_view, anchor_views, confidences_in_range, copy_anchor, ocr_anchors,
    ocr_boxes_wf, ocr_confidences_in_range, AnchorView, QuestionLocator,
};
use crate::sorting::{is_stable_order, permute, stable_order, stable_order_of, lemma_stable_order_is};
use crate::text::{parse_u32, parse_u32_spec};
use crate::types::{QuestionAnchor, TextBlock};
use vstd::prelude::*;

verus! {

/// The tops of the anchors.
pub open spec fn anchor_tops(anchors: Seq<AnchorView>) -> Seq<i64> {
    anchors.map_values(|a: AnchorView| a.1.y)
}

/// The anchors in stable ascending order of their top.
pub open spec fn sort_anchors(anchors: Seq<AnchorView>) -> Seq<AnchorView> {
    permute(anchors, stable_order_of(anchor_tops(anchors)))
}

/// The anchors' tops never decrease along the list.
pub open spec fn tops_sorted(anchors: Seq<AnchorView>) -> bool {
    forall|i: int, j: int| 0 <= i <= j < anchors.len() ==> anchors[i].1.y <= anchors[j].1.y
}

/// Some anchor of the list lies within `num / den` (strictly) of the height `y`.
pub open spec fn any_near(anchors: Seq<AnchorView>, y: int, num: int, den: int) -> bool {
    exists|j: int| 0 <= j < anchors.len() && den * abs_diff(anchors[j].1.y as int, y) < num
}

/// `0.6 · c`, truncated toward zero.
pub open spec fn six_tenths(c: int) -> int {
    if c >= 0 {
        (6 * c) / 10
    } else {
        -((-6 * c) / 10)
    }
}

/// Confidence of an OCR anchor that geometry confirms: `min(0.6 · c + 0.4, 1)`.
pub open spec fn confirmed_confidence(c: int) -> int {
    min_int(six_tenths(c) + 400000, PPM as int)
}

/// Confidence of an OCR anchor that geometry does not confirm: `max(c − 0.2, 0)`.
pub open spec fn unconfirmed_confidence(c: int) -> int {
    if c >= 200000 {
        c - 200000
    } else {
        0
    }
}

/// The anchor with another confidence.
pub open spec fn with_confidence(a: AnchorView, c: int) -> AnchorView {
    (a.0, a.1, c as i64, a.3, a.4)
}

/// The OCR anchors with their confidence raised where a geometric anchor lies
/// on the same line and lowered where none does.
pub open spec fn weighed_ocr(
    ocr: Seq<AnchorView>,
    geo: Seq<AnchorView>,
    num: int,
    den: int,
) -> Seq<AnchorView> {
    Seq::new(
        ocr.len(),
        |i: int|
            if any_near(geo, ocr[i].1.y as int, num, den) {
                with_confidence(ocr[i], confirmed_confidence(ocr[i].2 as int))
            } else {
                with_confidence(ocr[i], unconfirmed_confidence(ocr[i].2 as int))
            },
    )
}

/// The geometric anchors, among the first `k`, that are added to `base`: those
/// with no OCR anchor on their line and no anchor of `base` or of the ones
/// added before on their line, at confidence 0.4.
pub open spec fn added_geometric(
    base: Seq<AnchorView>,
    ocr: Seq<AnchorView>,
    geo: Seq<AnchorView>,
    num: int,
    den: int,
    k: int,
) -> Seq<AnchorView>
    decreases k,
{
    if k <= 0 {
        Seq::empty()
    } else {
        let r = added_geometric(base, ocr, geo, num, den, k - 1);
        let g = geo[k - 1];
        if any_near(ocr, g.1.y as int, num, den) || any_near(base + r, g.1.y as int, num, den) {
            r
        } else {
            r.push(with_confidence(g, 400000))
        }
    }
}

/// The line-height tolerance `num / den`: the average block height, or 30
/// without blocks.
pub open spec fn line_height_tolerance(rects: Seq<crate::geometry::Rect>) -> (int, int) {
    if rects.len() == 0 {
        (30, 1)
    } else {
        (sum_heights(rects), rects.len() as int)
    }
}

/// The fused anchors, in order of their top.
pub open spec fn fused_anchors(
    ocr: Seq<AnchorView>,
    geo: Seq<AnchorView>,
    rects: Seq<crate::geometry::Rect>,
) -> Seq<AnchorView> {
    let (num, den) = line_height_tolerance(rects);
    let base = weighed_ocr(ocr, geo, num, den);
    sort_anchors(base + added_geometric(base, ocr, geo, num, den, geo.len() as int))
}

/// The number of an anchor: its question number read as a `u32`, 0 when it
/// does not read as one.
pub open spec fn id_value(a: AnchorView) -> int {
    match parse_u32_spec(a.0) {
        Some(v) => v as int,
        None => 0,
    }
}

/// Scan of the first `k` anchors (`k >= 1`) keeping each one whose number
/// exceeds the number of the last one kept.
pub open spec fn increasing_scan(s: Seq<AnchorView>, k: int) -> Seq<AnchorView>
    decreases k,
{
    if k <= 1 {
        seq![s[0]]
    } else {
        let r = increasing_scan(s, k - 1);
        if id_value(s[k - 1]) > id_value(r.last()) {
            r.push(s[k - 1])
        } else {
            r
        }
    }
}

/// The anchors in order of their top, keeping only those whose number
/// exceeds the number of the last one kept.
pub open spec fn validated(anchors: Seq<AnchorView>) -> Seq<AnchorView> {
    if anchors.len() == 0 {
        Seq::empty()
    } else {
        increasing_scan(sort_anchors(anchors), anchors.len() as int)
    }
}

/// The numbers increase strictly along the list.
pub open spec fn ids_increasing(anchors: Seq<AnchorView>) -> bool {
    forall|i: int, j: int| 0 <= i < j < anchors.len() ==> id_value(anchors[i]) < id_value(anchors[j])
}

/// The anchors of a page: OCR anchors and geometric anchors fused,
/// validated, in order of their top.
pub open spec fn located_anchors(
    views: Seq<crate::question_locator::PatternView>,
    rects: Seq<crate::geometry::Rect>,
    ocr_results: Seq<crate::ocr::OcrView>,
    image_width: int,
) -> Seq<AnchorView> {
    sort_anchors(
        validated(
            fused_anchors(
                ocr_anchors(views, ocr_results),
                geometric_anchors(rects, image_width),
                rects,
            ),
        ),
    )
}

/// The anchors in stable ascending order of their top.
pub fn sort_anchors_by_y(anchors: &Vec<QuestionAnchor>) -> (sorted: Vec<QuestionAnchor>)
    ensures
        anchor_views(sorted@) == sort_anchors(anchor_views(anchors@)),
        tops_sorted(anchor_views(sorted@)),
        sorted@.len() == anchors@.len(),
        anchor_boxes_wf(anchor_views(anchors@)) ==> anchor_boxes_wf(anchor_views(sorted@)),
        confidences_in_range(anchor_views(anchors@)) ==> confidences_in_range(anchor_views(sorted@)),
{
    let ghost av = anchor_views(anchors@);
    let mut keys: Vec<i64> = Vec::new();
    let mut i: usize = 0;
    while i < anchors.len()
        invariant
            i <= anchors@.len(),
            av == anchor_views(anchors@),
            keys@ == anchor_tops(av).subrange(0, i as int),
        decreases anchors@.len() - i,
    {
        keys.push(anchors[i].bbox.y);
        proof {
            assert(keys@ =~= anchor_tops(av).subrange(0, i as int + 1));
        }
        i = i + 1;
    }
    assert(keys@ =~= anchor_tops(av));
    let order = stable_order(&keys);
    let mut sorted: Vec<QuestionAnchor> = Vec::new();
    let mut j: usize = 0;
    while j < order.len()
        invariant
            j <= order@.len(),
            av == anchor_views(anchors@),
            keys@ == anchor_tops(av),
            is_stable_order(keys@, order@),
            order@ == stable_order_of(keys@),
            anchor_views(sorted@) == permute(av, order@).subrange(0, j as int),
            anchor_boxes_wf(av) ==> anchor_boxes_wf(anchor_views(sorted@)),
            confidences_in_range(av) ==> confidences_in_range(anchor_views(sorted@)),
        decreases order@.len() - j,
    {
        let a = copy_anchor(&anchors[order[j]]);
        let ghost before = sorted@;
        sorted.push(a);
        proof {
            assert(anchor_views(sorted@) =~= anchor_views(before).push(anchor_view(a)));
            assert(anchor_views(sorted@) =~= permute(av, order@).subrange(0, j as int + 1));
            assert(av[order@[j as int] as int] == anchor_view(a));
        }
        j = j + 1;
    }
    assert(permute(av, order@).subrange(0, order@.len() as int) =~= permute(av, order@));
    proof {
        let sv = anchor_views(sorted@);
        assert forall|a: int, b: int| 0 <= a <= b < sv.len() implies sv[a].1.y <= sv[b].1.y by {
            if a < b {
                assert(crate::sorting::stable_before(keys@, order@[a], order@[b]));
            }
        }
    }
    sorted
}

/// A list already in order of its tops is its own stable sort.
pub proof fn lemma_sorted_anchors_fixed(anchors: Seq<AnchorView>)
    requires
        tops_sorted(anchors),
        anchors.len() <= usize::MAX,
    ensures
        sort_anchors(anchors) == anchors,
{
    let keys = anchor_tops(anchors);
    let id = Seq::new(anchors.len(), |i: int| i as usize);
    assert forall|i: int| 0 <= i < id.len() implies #[trigger] id[i] as int == i by {}
    assert forall|i: int, j: int| 0 <= i < j < id.len() implies crate::sorting::stable_before(
        keys,
        #[trigger] id[i],
        #[trigger] id[j],
    ) by {
        assert(id[i] as int == i);
        assert(id[j] as int == j);
        assert(keys[i] == anchors[i].1.y);
        assert(keys[j] == anchors[j].1.y);
    }
    assert(is_stable_order(keys, id));
    lemma_stable_order_is(keys, id);
    assert forall|k: int| 0 <= k < anchors.len() implies #[trigger] permute(anchors, id)[k]
        == anchors[k] by {
        assert(id[k] as int == k);
    }
    assert(permute(anchors, id) =~= anchors);
}

/// Whether some anchor of the list lies within `num / den` of the height `y`.
fn any_close(anchors: &Vec<QuestionAnchor>, y: i64, num: i128, den: i128) -> (r: bool)
    requires
        1 <= den <= 18446744073709551616,
        0 <= num <= den * 2147483648,
    ensures
        r == any_near(anchor_views(anchors@), y as int, num as int, den as int),
{
    let ghost av = anchor_views(anchors@);
    let mut i: usize = 0;
    while i < anchors.len()
        invariant
            i <= anchors@.len(),
            av == anchor_views(anchors@),
            1 <= den <= 18446744073709551616,
            0 <= num <= den * 2147483648,
            forall|j: int|
                0 <= j < i ==> !(den * abs_diff(#[trigger] av[j].1.y as int, y as int) < num),
        decreases anchors@.len() - i,
    {
        let ay = anchors[i].bbox.y;
        let d: i128 = if (ay as i128) >= (y as i128) {
            (ay as i128) - (y as i128)
        } else {
            (y as i128) - (ay as i128)
        };
        let close = if d > 4294967296 {
            proof {
                assert(den * d > den * 2147483648) by (nonlinear_arith)
                    requires
                        d > 4294967296,
                        den >= 1,
                ;
            }
            false
        } else {
            proof {
                assert(den * d <= 18446744073709551616 * 4294967296) by (nonlinear_arith)
                    requires
                        0 <= d <= 4294967296,
                        1 <= den <= 18446744073709551616,
                ;
            }
            den * d < num
        };
        assert(av[i as int].1.y == ay);
        if close {
            return true;
        }
        i = i + 1;
    }
    false
}

/// `0.6 · c`, truncated toward zero.
fn six_tenths_of(c: i64) -> (r: i64)
    ensures
        r == six_tenths(c as int),
{
    let w = c as i128;
    if w >= 0 {
        let r: i128 = (6 * w) / 10;
        assert(0 <= r <= w);
        r as i64
    } else {
        let m: i128 = 0 - w;
        let q: i128 = (6 * m) / 10;
        assert(0 <= q <= m);
        (0 - q) as i64
    }
}

impl QuestionLocator {
    /// Fuses OCR anchors with geometric anchors.  An OCR anchor with a
    /// geometric anchor on its line (within the average block height, or 30
    /// pixels without blocks) has its confidence raised to
    /// `min(0.6 · c + 0.4, 1)`, one without has it lowered to
    /// `max(c − 0.2, 0)`.  A geometric anchor with no OCR anchor and no
    /// anchor already kept on its line is added at confidence 0.4.  The result
    /// is in order of the anchors' tops.
    pub fn fuse_anchors(
        &self,
        ocr_anchors: Vec<QuestionAnchor>,
        geo_anchors: Vec<QuestionAnchor>,
        blocks: &[TextBlock],
    ) -> (fused: Vec<QuestionAnchor>)
        requires
            all_wf(block_boxes(blocks@)),
        ensures
            anchor_views(fused@) == fused_anchors(
                anchor_views(ocr_anchors@),
                anchor_views(geo_anchors@),
                block_boxes(blocks@),
            ),
            tops_sorted(anchor_views(fused@)),
            anchor_boxes_wf(anchor_views(ocr_anchors@)) && anchor_boxes_wf(anchor_views(geo_anchors@))
                ==> anchor_boxes_wf(anchor_views(fused@)),
            confidences_in_range(anchor_views(ocr_anchors@)) ==> confidences_in_range(
                anchor_views(fused@),
            ),
    {
        let ghost ov = anchor_views(ocr_anchors@);
        let ghost gv = anchor_views(geo_anchors@);
        let boxes = boxes_of(blocks);
        let (num, den): (i128, i128) = if boxes.len() == 0 {
            (30, 1)
        } else {
            (total_height(boxes.as_slice()), boxes.len() as i128)
        };
        let ghost base = weighed_ocr(ov, gv, num as int, den as int);
        let mut fused: Vec<QuestionAnchor> = Vec::new();
        let mut i: usize = 0;
        while i < ocr_anchors.len()
            invariant
                i <= ocr_anchors@.len(),
                ov == anchor_views(ocr_anchors@),
                gv == anchor_views(geo_anchors@),
                1 <= den <= 18446744073709551616,
                0 <= num <= den * 2147483648,
                base == weighed_ocr(ov, gv, num as int, den as int),
                anchor_views(fused@) == base.subrange(0, i as int),
                anchor_boxes_wf(ov) ==> anchor_boxes_wf(anchor_views(fused@)),
                confidences_in_range(ov) ==> confidences_in_range(anchor_views(fused@)),
            decreases ocr_anchors@.len() - i,
        {
            let o = &ocr_anchors[i];
            let matched = any_close(&geo_anchors, o.bbox.y, num, den);
            proof {
                assert(ov[i as int] == anchor_view(*o));
            }
            let confidence = if matched {
                let raised = six_tenths_of(o.confidence) as i128 + 400000;
                if raised < PPM as i128 {
                    raised as i64
                } else {
                    PPM
                }
            } else if o.confidence >= 200000 {
                o.confidence - 200000
            } else {
                0
            };
            let a = QuestionAnchor {
                question_id: o.question_id.clone(),
                bbox: o.bbox,
                confidence,
                text: o.text.clone(),
                pattern_type: o.pattern_type,
            };
            let ghost before = fused@;
            fused.push(a);
            proof {
                assert(anchor_views(fused@) =~= anchor_views(before).push(anchor_view(a)));
                assert(anchor_views(fused@) =~= base.subrange(0, i as int + 1));
                assert(ov[i as int] == anchor_view(*o));
            }
            i = i + 1;
        }
        assert(base.subrange(0, ov.len() as int) =~= base);
        let mut j: usize = 0;
        while j < geo_anchors.len()
            invariant
                j <= geo_anchors@.len(),
                ov == anchor_views(ocr_anchors@),
                gv == anchor_views(geo_anchors@),
                1 <= den <= 18446744073709551616,
                0 <= num <= den * 2147483648,
                anchor_views(fused@) == base + added_geometric(
                    base,
                    ov,
                    gv,
                    num as int,
                    den as int,
                    j as int,
                ),
                anchor_boxes_wf(ov) && anchor_boxes_wf(gv) ==> anchor_boxes_wf(anchor_views(fused@)),
                confidences_in_range(ov) ==> confidences_in_range(anchor_views(fused@)),
            decreases geo_anchors@.len() - j,
        {
            let g = &geo_anchors[j];
            let ghost before = fused@;
            if !any_close(&ocr_anchors, g.bbox.y, num, den) && !any_close(&fused, g.bbox.y, num, den) {
                let a = QuestionAnchor {
                    question_id: g.question_id.clone(),
                    bbox: g.bbox,
                    confidence: 400000,
                    text: g.text.clone(),
                    pattern_type: g.pattern_type,
                };
                fused.push(a);
                proof {
                    assert(anchor_views(fused@) =~= anchor_views(before).push(anchor_view(a)));
                }
            }
            proof {
                assert(gv[j as int] == anchor_view(*g));
                assert(anchor_views(fused@) =~= base + added_geometric(
                    base,
                    ov,
                    gv,
                    num as int,
                    den as int,
                    j as int + 1,
                ));
            }
            j = j + 1;
        }
        sort_anchors_by_y(&fused)
    }

    /// Keeps, in order of their tops, the anchors whose number exceeds the
    /// number of the last anchor kept (a number that does not read as a
    /// `u32` counts as 0).
    pub fn validate_sequence(&self, anchors: Vec<QuestionAnchor>) -> (valid: Vec<QuestionAnchor>)
        ensures
            anchor_views(valid@) == validated(anchor_views(anchors@)),
            ids_increasing(anchor_views(valid@)),
            tops_sorted(anchor_views(valid@)),
            anchor_boxes_wf(anchor_views(anchors@)) ==> anchor_boxes_wf(anchor_views(valid@)),
            confidences_in_range(anchor_views(anchors@)) ==> confidences_in_range(
                anchor_views(valid@),
            ),
    {
        if anchors.len() == 0 {
            assert(anchor_views(anchors@) =~= Seq::<AnchorView>::empty());
            return anchors;
        }
        let sorted = sort_anchors_by_y(&anchors);
        let ghost sv = anchor_views(sorted@);
        let mut valid: Vec<QuestionAnchor> = Vec::new();
        valid.push(copy_anchor(&sorted[0]));
        assert(anchor_views(valid@) =~= seq![sv[0]]);
        let mut last_id: u32 = match parse_u32(sorted[0].question_id.as_str()) {
            Some(v) => v,
            None => 0,
        };
        let mut i: usize = 1;
        while i < sorted.len()
            invariant
                1 <= i <= sorted@.len(),
                sv == anchor_views(sorted@),
                sv.len() == anchors@.len(),
                tops_sorted(sv),
                anchor_boxes_wf(anchor_views(anchors@)) ==> anchor_boxes_wf(sv),
                anchor_boxes_wf(sv) ==> anchor_boxes_wf(anchor_views(valid@)),
                confidences_in_range(anchor_views(anchors@)) ==> confidences_in_range(sv),
                confidences_in_range(sv) ==> confidences_in_range(anchor_views(valid@)),
                anchor_views(valid@) == increasing_scan(sv, i as int),
                anchor_views(valid@).len() > 0,
                last_id == id_value(anchor_views(valid@).last()),
                ids_increasing(anchor_views(valid@)),
                forall|k: int|
                    0 <= k < anchor_views(valid@).len() ==> exists|m: int|
                        0 <= m < i && #[trigger] anchor_views(valid@)[k] == sv[m],
                forall|k: int|
                    0 <= k < anchor_views(valid@).len() ==> (#[trigger] anchor_views(valid@)[k]).1.y
                        <= sv[i - 1].1.y,
                forall|k: int, l: int|
                    0 <= k <= l < anchor_views(valid@).len() ==> anchor_views(valid@)[k].1.y
                        <= anchor_views(valid@)[l].1.y,
            decreases sorted@.len() - i,
        {
            let current: u32 = match parse_u32(sorted[i].question_id.as_str()) {
                Some(v) => v,
                None => 0,
            };
            let ghost before = anchor_views(valid@);
            proof {
                assert(sv[i as int] == anchor_view(sorted@[i as int]));
                assert(sv[i as int - 1].1.y <= sv[i as int].1.y);
            }
            if current > last_id {
                let a = copy_anchor(&sorted[i]);
                valid.push(a);
                last_id = current;
                proof {
                    assert(anchor_views(valid@) =~= before.push(sv[i as int]));
                    assert forall|k: int|
                        0 <= k < anchor_views(valid@).len() implies exists|m: int|
                            0 <= m < i + 1 && #[trigger] anchor_views(valid@)[k] == sv[m] by {
                        if k < before.len() {
                            let m = choose|m: int| 0 <= m < i && before[k] == sv[m];
                            assert(anchor_views(valid@)[k] == sv[m]);
                        } else {
                            assert(anchor_views(valid@)[k] == sv[i as int]);
                        }
                    }
                }
            }
            i = i + 1;
        }
        valid
    }

    /// Locates the question numbers of a page: anchors read from the OCR
    /// results and anchors inferred from the block geometry are fused, the
    /// sequence is validated, and the anchors are returned in order of their
    /// tops.
    pub fn locate(&self, blocks: &[TextBlock], ocr_results: &[OcrResult], image_width: u32) -> (
        anchors: Vec<QuestionAnchor>)
        requires
            all_wf(block_boxes(blocks@)),
        ensures
            anchor_views(anchors@) == located_anchors(
                self.pattern_views(),
                block_boxes(blocks@),
                crate::ocr::ocr_views(ocr_results@),
                image_width as int,
            ),
            tops_sorted(anchor_views(anchors@)),
            ids_increasing(anchor_views(anchors@)),
            ocr_boxes_wf(crate::ocr::ocr_views(ocr_results@)) ==> anchor_boxes_wf(
                anchor_views(anchors@),
            ),
            ocr_confidences_in_range(crate::ocr::ocr_views(ocr_results@)) ==> confidences_in_range(
                anchor_views(anchors@),
            ),
    {
        let ocr = self.match_from_ocr(ocr_results);
        let geo = self.infer_from_geometry(blocks, image_width);
        let fused = self.fuse_anchors(ocr, geo, blocks);
        let valid = self.validate_sequence(fused);
        let sorted = sort_anchors_by_y(&valid);
        let nv = valid.len();
        proof {
            lemma_sorted_anchors_fixed(anchor_views(valid@));
        }
        sorted
    }
}

} // verus!
