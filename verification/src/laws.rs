//! Properties of the library that span several functions or hold of every
//! input.
use crate::bitmap::Bitmap;
use crate::block_detection::{column_scan, columns_of, last_end, ColumnInfo};
use crate::detector::status_of;
use crate::geometry::{spec_iou, Rect};
use crate::preprocessing::{local_mean, locally_thresholded, thresholded, window_sum};
use crate::segmentation::{min_left, paragraph_scan, paragraphs, region_box, BlockView};
use crate::types::{DetectionStatus, PatternType};
use crate::block_detection::{all_wf, merge_line, merge_scan, sort_by_x, xs};
use crate::sorting::{is_stable_order, lemma_stable_order_exists, lemma_stable_order_is, permute, stable_before, stable_order_of};
use crate::geometry::{max_int, COORD_LIMIT};
use crate::line_analysis::{right_extent, sorted_values};
use crate::question_locator::{extract_id_spec, AnchorView};
use crate::pattern_match::{regex_compiles, regex_group1};
use crate::anchor_inference::{
    box_heights, is_section_header, kept_anchors, near_count, near_height_sum, without_section_headers,
};
use vstd::prelude::*;

verus! {

/// The lists joined end to end.
pub open spec fn joined(ps: Seq<Seq<BlockView>>) -> Seq<BlockView>
    decreases ps.len(),
{
    if ps.len() == 0 {
        Seq::empty()
    } else {
        joined(ps.drop_last()) + ps.last()
    }
}

proof fn lemma_paragraph_scan(blocks: Seq<BlockView>, t: int, k: int)
    requires
        0 <= k <= blocks.len(),
    ensures
        ({
            let (ps, cur, _) = paragraph_scan(blocks, t, k);
            &&& joined(ps) + cur == blocks.subrange(0, k)
            &&& forall|i: int| 0 <= i < ps.len() ==> (#[trigger] ps[i]).len() > 0
            &&& k > 0 ==> cur.len() > 0
        }),
    decreases k,
{
    if k > 0 {
        lemma_paragraph_scan(blocks, t, k - 1);
        let (ps, cur, last) = paragraph_scan(blocks, t, k - 1);
        let b = blocks[k - 1];
        assert(blocks.subrange(0, k) =~= blocks.subrange(0, k - 1).push(b));
        if cur.len() > 0 && b.1.y - last > t {
            let ps2 = ps.push(cur);
            assert(ps2.drop_last() =~= ps);
            assert(joined(ps2) == joined(ps) + cur);
            assert(joined(ps2) + seq![b] =~= (joined(ps) + cur).push(b));
            assert forall|i: int| 0 <= i < ps2.len() implies (#[trigger] ps2[i]).len() > 0 by {
                if i < ps.len() {
                    assert(ps2[i] == ps[i]);
                }
            }
        } else {
            assert(joined(ps) + cur.push(b) =~= (joined(ps) + cur).push(b));
        }
    }
}

/// Paragraph segmentation covers every block exactly once, in order: the
/// paragraphs joined end to end are the blocks, and no paragraph is empty.
pub proof fn law_paragraphs_partition(blocks: Seq<BlockView>, t: int)
    ensures
        joined(paragraphs(blocks, t)) == blocks,
        forall|i: int|
            0 <= i < paragraphs(blocks, t).len() ==> (#[trigger] paragraphs(blocks, t)[i]).len() > 0,
{
    lemma_paragraph_scan(blocks, t, blocks.len() as int);
    let (ps, cur, _) = paragraph_scan(blocks, t, blocks.len() as int);
    assert(blocks.subrange(0, blocks.len() as int) =~= blocks);
    if cur.len() > 0 {
        let ps2 = ps.push(cur);
        assert(ps2.drop_last() =~= ps);
        assert forall|i: int| 0 <= i < ps2.len() implies (#[trigger] ps2[i]).len() > 0 by {
            if i < ps.len() {
                assert(ps2[i] == ps[i]);
            }
        }
    } else {
        assert(joined(ps) + cur =~= joined(ps));
    }
}

/// The local mean of a window is a grey level: between 0 and 255.
pub proof fn law_local_mean_is_grey(
    p: Seq<u8>,
    img_width: int,
    x: int,
    y: int,
    half: int,
    width: int,
    height: int,
)
    requires
        0 <= x,
        0 <= y,
        0 <= half,
    ensures
        0 <= local_mean(p, img_width, x, y, half, width, height) <= 255,
{
    let (x1, x2, y1, y2) = crate::preprocessing::clipped_window(x, y, half, width, height);
    if !(x2 < x1 || y2 < y1) {
        crate::preprocessing::lemma_window_bounds(p, img_width, x1, x2 + 1, y1, y2 + 1);
        let count = (x2 - x1 + 1) * (y2 - y1 + 1);
        let s = window_sum(p, img_width, x1, x2 + 1, y1, y2 + 1);
        assert(255 * (x2 + 1 - x1) * (y2 + 1 - y1) == 255 * count) by (nonlinear_arith)
            requires
                count == (x2 - x1 + 1) * (y2 - y1 + 1),
        ;
        assert(count >= 1) by (nonlinear_arith)
            requires
                count == (x2 - x1 + 1) * (y2 - y1 + 1),
                x2 >= x1,
                y2 >= y1,
        ;
        assert(0 <= s / count <= 255) by (nonlinear_arith)
            requires
                0 <= s <= 255 * count,
                count >= 1,
        ;
    }
}

/// Binarisation by a threshold leaves only black (0) and white (255).
pub proof fn law_threshold_is_binary(img: Bitmap, out: Bitmap, t: int)
    requires
        thresholded(img, out, t),
    ensures
        forall|i: int|
            0 <= i < out.pixels@.len() ==> #[trigger] out.pixels@[i] == 0 || out.pixels@[i] == 255,
{
    assert forall|i: int| 0 <= i < out.pixels@.len() implies #[trigger] out.pixels@[i] == 0
        || out.pixels@[i] == 255 by {
        assert(out.pixels@[i] == if img.pixels@[i] > t {
            255u8
        } else {
            0u8
        });
    }
}

/// Binarisation by local means leaves only black (0) and white (255).
pub proof fn law_local_threshold_is_binary(img: Bitmap, out: Bitmap)
    requires
        locally_thresholded(img, out),
    ensures
        forall|x: int, y: int|
            img.in_bounds(x, y) ==> #[trigger] out.px(x, y) == 0 || out.px(x, y) == 255,
{
}

/// The intersection over union does not depend on the order of the two
/// rectangles.
pub proof fn law_iou_symmetric(a: Rect, b: Rect)
    ensures
        spec_iou(a, b) == spec_iou(b, a),
{
    if a.spec_intersects(&b) {
        assert(a.spec_intersection(&b) == b.spec_intersection(&a));
    }
}

/// The union of two rectangles does not depend on their order.
pub proof fn law_union_symmetric(a: Rect, b: Rect)
    ensures
        a.spec_union(&b) == b.spec_union(&a),
{
}

/// A page fails exactly when it has no question.
pub proof fn law_failed_iff_no_questions(questions: int, anchors: int)
    requires
        questions >= 0,
    ensures
        (status_of(questions, anchors) == DetectionStatus::Failed) == (questions == 0),
        status_of(questions, anchors) == DetectionStatus::PartialSuccess ==> questions < anchors,
{
}

/// The columns found so far are numbered in order, start at the left edge,
/// follow one another without gaps and are never reversed; the last one ends
/// inside the scanned part, at or before an open gap.
pub open spec fn columns_in_order(cols: Seq<ColumnInfo>) -> bool {
    &&& forall|k: int| 0 <= k < cols.len() ==> (#[trigger] cols[k]).index == k
    &&& forall|k: int| 0 <= k < cols.len() ==> (#[trigger] cols[k]).x_start <= cols[k].x_end
    &&& forall|k: int| 0 <= k < cols.len() - 1 ==> (#[trigger] cols[k]).x_end == cols[k + 1].x_start
    &&& cols.len() > 0 ==> cols[0].x_start == 0
}

proof fn lemma_column_scan(occ: Seq<bool>, min_gap: int)
    requires
        occ.len() <= u32::MAX,
    ensures
        ({
            let (cols, in_gap, gap_start) = column_scan(occ, min_gap);
            &&& columns_in_order(cols)
            &&& cols.len() <= occ.len()
            &&& cols.len() > 0 ==> 0 <= last_end(cols) < occ.len()
            &&& in_gap ==> 0 <= last_end(cols) <= gap_start < occ.len()
        }),
    decreases occ.len(),
{
    if occ.len() > 0 {
        let prefix = occ.drop_last();
        lemma_column_scan(prefix, min_gap);
        let (cols, in_gap, gap_start) = column_scan(prefix, min_gap);
        let x = occ.len() - 1;
        if occ.last() && in_gap && x - gap_start > min_gap {
            let c = ColumnInfo { index: cols.len() as usize, x_start: last_end(cols), x_end: gap_start as i64 };
            let cols2 = cols.push(c);
            assert(column_scan(occ, min_gap) == (cols2, false, gap_start));
            assert forall|k: int| 0 <= k < cols2.len() - 1 implies (#[trigger] cols2[k]).x_end
                == cols2[k + 1].x_start by {
                if k == cols.len() - 1 {
                    assert(cols2[k] == cols.last());
                }
            }
        }
    }
}

/// The columns of a page tile it from left to right: there is at least one;
/// they are numbered in order; the first starts at the left edge, each starts
/// where the one before ends, none ends before it starts, and the last ends at
/// the right edge.
pub proof fn law_columns_tile_page(occ: Seq<bool>, w: int)
    requires
        occ.len() == w,
        w <= u32::MAX,
    ensures
        ({
            let cols = columns_of(occ, w);
            &&& cols.len() >= 1
            &&& columns_in_order(cols)
            &&& cols.last().x_end == w
        }),
{
    lemma_column_scan(occ, w / 20);
    let (cols, _, _) = column_scan(occ, w / 20);
    if cols.len() > 0 {
        let all = columns_of(occ, w);
        assert forall|k: int| 0 <= k < all.len() - 1 implies (#[trigger] all[k]).x_end == all[k + 1].x_start by {
            if k == cols.len() - 1 {
                assert(all[k] == cols.last());
            }
        }
    }
}

/// The uncovered page columns `s..e` form a gap wider than `min_gap` that
/// begins at the left edge or after a covered column and ends at the covered
/// column `e`.
pub open spec fn cut_run(occ: Seq<bool>, s: int, e: int, min_gap: int) -> bool {
    &&& 0 <= s < e < occ.len()
    &&& occ[e]
    &&& forall|x: int| s <= x < e ==> !occ[x]
    &&& s == 0 || occ[s - 1]
    &&& e - s > min_gap
}

/// The page is cut at `s`: a gap wider than `min_gap` begins there and a
/// covered column follows it.
pub open spec fn is_cut(occ: Seq<bool>, s: int, min_gap: int) -> bool {
    exists|e: int| #[trigger] cut_run(occ, s, e, min_gap)
}

proof fn lemma_scan_cuts(occ: Seq<bool>, g: int)
    requires
        occ.len() <= u32::MAX,
    ensures
        ({
            let (cols, in_gap, gs) = column_scan(occ, g);
            &&& in_gap == (occ.len() > 0 && !occ.last())
            &&& in_gap ==> 0 <= gs < occ.len() && (forall|x: int| gs <= x < occ.len() ==> !occ[x]) && (gs
                == 0 || occ[gs - 1])
            &&& forall|k: int| 0 <= k < cols.len() ==> is_cut(occ, (#[trigger] cols[k]).x_end as int, g)
            &&& forall|t: int| #[trigger] is_cut(occ, t, g) ==> exists|k: int|
                0 <= k < cols.len() && (#[trigger] cols[k]).x_end == t
        }),
    decreases occ.len(),
{
    if occ.len() > 0 {
        let q = occ.drop_last();
        lemma_scan_cuts(q, g);
        lemma_column_scan(q, g);
        let (cols, in_gap, gs) = column_scan(q, g);
        let n = occ.len() as int;
        let x = n - 1;
        assert forall|i: int| 0 <= i < x implies q[i] == #[trigger] occ[i] by {}
        // every cut of the prefix is a cut of the whole
        assert forall|t: int| #[trigger] is_cut(q, t, g) implies is_cut(occ, t, g) by {
            let e = choose|e: int| #[trigger] cut_run(q, t, e, g);
            assert(cut_run(occ, t, e, g));
        }
        // a cut of the whole that a covered column before the last ends is a cut of the prefix
        assert forall|t: int, e: int| #[trigger] cut_run(occ, t, e, g) && e < x implies is_cut(q, t, g) by {
            assert(cut_run(q, t, e, g));
        }
        if !occ.last() {
            assert(column_scan(occ, g).0 == cols);
            assert forall|t: int| #[trigger] is_cut(occ, t, g) implies exists|k: int|
                0 <= k < cols.len() && (#[trigger] cols[k]).x_end == t by {
                let e = choose|e: int| #[trigger] cut_run(occ, t, e, g);
                assert(e < x);
                assert(is_cut(q, t, g));
            }
        } else if in_gap {
            // the gap of the prefix is the only run that ends at the last column
            assert forall|t: int, e: int| #[trigger] cut_run(occ, t, e, g) && e == x implies t == gs by {
                if t < gs {
                    assert(!occ[gs - 1]);
                } else if gs < t {
                    assert(!occ[t - 1]);
                }
            }
            if x - gs > g {
                let c = ColumnInfo { index: cols.len() as usize, x_start: last_end(cols), x_end: gs as i64 };
                let cols2 = cols.push(c);
                assert(column_scan(occ, g).0 == cols2);
                assert(cut_run(occ, gs, x, g));
                assert forall|k: int| 0 <= k < cols2.len() implies is_cut(occ, (#[trigger] cols2[k]).x_end as int, g) by {
                    if k < cols.len() {
                        assert(cols2[k] == cols[k]);
                        assert(is_cut(q, cols[k].x_end as int, g));
                    }
                }
                assert forall|t: int| #[trigger] is_cut(occ, t, g) implies exists|k: int|
                    0 <= k < cols2.len() && (#[trigger] cols2[k]).x_end == t by {
                    let e = choose|e: int| #[trigger] cut_run(occ, t, e, g);
                    if e < x {
                        assert(is_cut(q, t, g));
                        let k = choose|k: int| 0 <= k < cols.len() && (#[trigger] cols[k]).x_end == t;
                        assert(cols2[k] == cols[k]);
                    } else {
                        assert(t == gs);
                        assert(cols2[cols.len() as int].x_end == t);
                    }
                }
            } else {
                assert(column_scan(occ, g).0 == cols);
                assert forall|t: int| #[trigger] is_cut(occ, t, g) implies exists|k: int|
                    0 <= k < cols.len() && (#[trigger] cols[k]).x_end == t by {
                    let e = choose|e: int| #[trigger] cut_run(occ, t, e, g);
                    if e == x {
                        assert(t == gs);
                        assert(false);
                    }
                    assert(is_cut(q, t, g));
                }
            }
        } else {
            assert(column_scan(occ, g).0 == cols);
            assert forall|t: int| #[trigger] is_cut(occ, t, g) implies exists|k: int|
                0 <= k < cols.len() && (#[trigger] cols[k]).x_end == t by {
                let e = choose|e: int| #[trigger] cut_run(occ, t, e, g);
                if e == x {
                    assert(!occ[x - 1]);
                    assert(q.last() == occ[x - 1]);
                    assert(false);
                }
                assert(is_cut(q, t, g));
            }
        }
    }
}

/// The page is cut exactly at its gaps: every column but the last ends where
/// a run of uncovered page columns wider than a twentieth of the page begins
/// (at the left edge or after a covered column) and a covered column follows
/// the run; and every such run ends a column.
pub proof fn law_columns_cut_at_gaps(occ: Seq<bool>, w: int)
    requires
        occ.len() == w,
        w <= u32::MAX,
    ensures
        ({
            let cols = columns_of(occ, w);
            &&& forall|k: int| 0 <= k < cols.len() - 1 ==> is_cut(occ, (#[trigger] cols[k]).x_end as int, w / 20)
            &&& forall|t: int| #[trigger] is_cut(occ, t, w / 20) ==> exists|k: int|
                0 <= k < cols.len() - 1 && (#[trigger] cols[k]).x_end == t
        }),
{
    lemma_scan_cuts(occ, w / 20);
    let (scanned, _, _) = column_scan(occ, w / 20);
    let cols = columns_of(occ, w);
    if scanned.len() > 0 {
        assert forall|k: int| 0 <= k < cols.len() - 1 implies is_cut(occ, (#[trigger] cols[k]).x_end as int, w / 20) by {
            assert(cols[k] == scanned[k]);
        }
        assert forall|t: int| #[trigger] is_cut(occ, t, w / 20) implies exists|k: int|
            0 <= k < cols.len() - 1 && (#[trigger] cols[k]).x_end == t by {
            let k = choose|k: int| 0 <= k < scanned.len() && (#[trigger] scanned[k]).x_end == t;
            assert(cols[k] == scanned[k]);
        }
    } else {
        assert forall|t: int| #[trigger] is_cut(occ, t, w / 20) implies exists|k: int|
            0 <= k < cols.len() - 1 && (#[trigger] cols[k]).x_end == t by {
            let k = choose|k: int| 0 <= k < scanned.len() && (#[trigger] scanned[k]).x_end == t;
        }
    }
}

proof fn lemma_extents(s: Seq<Rect>)
    requires
        all_wf(s),
        s.len() > 0,
    ensures
        forall|i: int| 0 <= i < s.len() ==> min_left(s) <= (#[trigger] s[i]).x && s[i].right() <= right_extent(s),
        -COORD_LIMIT <= min_left(s) <= COORD_LIMIT,
        0 <= right_extent(s) <= COORD_LIMIT,
    decreases s.len(),
{
    assert(s[0].wf());
    if s.len() > 1 {
        let t = s.drop_last();
        lemma_extents(t);
        assert(s.last().wf());
        assert forall|i: int| 0 <= i < s.len() implies min_left(s) <= (#[trigger] s[i]).x && s[i].right()
            <= right_extent(s) by {
            if i < s.len() - 1 {
                assert(s[i] == t[i]);
            }
        }
    } else {
        assert(s.drop_last() =~= Seq::<Rect>::empty());
        assert(right_extent(s.drop_last()) == 0);
        assert(s.last() == s[0]);
        assert(right_extent(s) == max_int(0, s[0].right()));
    }
}

/// A question's region holds its anchor and every block given to it: it
/// starts at the anchor's top, and no block or anchor edge lies left of its
/// left edge or right of its right edge.
pub proof fn law_region_holds_blocks(rects: Seq<Rect>, a: Rect, y_end: int)
    requires
        all_wf(rects),
        a.wf(),
    ensures
        ({
            let r = region_box(rects, a, y_end);
            &&& r.y == a.y
            &&& r.x <= a.x
            &&& a.right() <= r.x + r.width
            &&& forall|i: int|
                0 <= i < rects.len() ==> r.x <= (#[trigger] rects[i]).x && rects[i].right() <= r.x + r.width
        }),
{
    if rects.len() > 0 {
        lemma_extents(rects);
    }
}

proof fn lemma_paragraph_breaks(blocks: Seq<BlockView>, t: int, k: int)
    requires
        0 <= k <= blocks.len(),
    ensures
        ({
            let (ps, cur, last) = paragraph_scan(blocks, t, k);
            &&& forall|m: int| 0 <= m < ps.len() ==> (#[trigger] ps[m]).len() > 0
            &&& k > 0 ==> cur.len() > 0 && last == cur.last().1.bottom()
            &&& forall|m: int, j: int|
                0 <= m < ps.len() && 1 <= j < ps[m].len() ==> (#[trigger] ps[m][j]).1.y - ps[m][j - 1].1.bottom()
                    <= t
            &&& forall|j: int| 1 <= j < cur.len() ==> (#[trigger] cur[j]).1.y - cur[j - 1].1.bottom() <= t
            &&& forall|m: int| 1 <= m < ps.len() ==> (#[trigger] ps[m])[0].1.y - ps[m - 1].last().1.bottom() > t
            &&& ps.len() > 0 && cur.len() > 0 ==> cur[0].1.y - ps.last().last().1.bottom() > t
        }),
    decreases k,
{
    if k > 0 {
        lemma_paragraph_breaks(blocks, t, k - 1);
        let (ps, cur, last) = paragraph_scan(blocks, t, k - 1);
        let b = blocks[k - 1];
        if cur.len() > 0 && b.1.y - last > t {
            let ps2 = ps.push(cur);
            let cur2 = seq![b];
            assert forall|m: int| 0 <= m < ps2.len() implies (#[trigger] ps2[m]).len() > 0 by {
                if m < ps.len() {
                    assert(ps2[m] == ps[m]);
                }
            }
            assert forall|m: int, j: int|
                0 <= m < ps2.len() && 1 <= j < ps2[m].len() implies (#[trigger] ps2[m][j]).1.y - ps2[m][j
                    - 1].1.bottom() <= t by {
                if m < ps.len() {
                    assert(ps2[m] == ps[m]);
                }
            }
            assert forall|m: int| 1 <= m < ps2.len() implies (#[trigger] ps2[m])[0].1.y - ps2[m - 1].last().1.bottom()
                > t by {
                if m < ps.len() {
                    assert(ps2[m] == ps[m]);
                    assert(ps2[m - 1] == ps[m - 1]);
                } else {
                    assert(ps2[m] == cur);
                    if m >= 2 {
                        assert(ps2[m - 1] == ps[m - 1]);
                    }
                }
            }
            assert(ps2.last() == cur);
        } else {
            let cur2 = cur.push(b);
            assert forall|j: int| 1 <= j < cur2.len() implies (#[trigger] cur2[j]).1.y - cur2[j - 1].1.bottom() <= t by {
                if j < cur.len() {
                    assert(cur2[j] == cur[j]);
                    assert(cur2[j - 1] == cur[j - 1]);
                } else {
                    assert(cur2[j] == b);
                    assert(cur2[j - 1] == cur.last());
                }
            }
            if ps.len() > 0 && cur.len() > 0 {
                assert(cur2[0] == cur[0]);
            }
        }
    }
}

/// Paragraphs break exactly at large gaps: within a paragraph each block's
/// top lies at most `t` below the bottom of the block before it, and each
/// paragraph after the first starts with a block whose top lies more than
/// `t` below the bottom of the last block of the paragraph before.
pub proof fn law_paragraph_breaks(blocks: Seq<BlockView>, t: int)
    ensures
        ({
            let ps = paragraphs(blocks, t);
            &&& forall|k: int, j: int|
                0 <= k < ps.len() && 1 <= j < ps[k].len() ==> (#[trigger] ps[k][j]).1.y - ps[k][j - 1].1.bottom()
                    <= t
            &&& forall|k: int| 1 <= k < ps.len() ==> (#[trigger] ps[k])[0].1.y - ps[k - 1].last().1.bottom() > t
        }),
{
    lemma_paragraph_breaks(blocks, t, blocks.len() as int);
    let (ps, cur, _) = paragraph_scan(blocks, t, blocks.len() as int);
    if cur.len() > 0 {
        let all = ps.push(cur);
        assert forall|k: int, j: int|
            0 <= k < all.len() && 1 <= j < all[k].len() implies (#[trigger] all[k][j]).1.y - all[k][j - 1].1.bottom()
                <= t by {
            if k < ps.len() {
                assert(all[k] == ps[k]);
            }
        }
        assert forall|k: int| 1 <= k < all.len() implies (#[trigger] all[k])[0].1.y - all[k - 1].last().1.bottom()
            > t by {
            if k < ps.len() {
                assert(all[k] == ps[k]);
                assert(all[k - 1] == ps[k - 1]);
            } else {
                assert(all[k - 1] == ps.last());
            }
        }
    }
}

proof fn lemma_kept_from(anchors: Seq<AnchorView>, rects: Seq<Rect>, mh: int, mg: int, k: int)
    requires
        0 <= k <= anchors.len(),
    ensures
        forall|j: int|
            0 <= j < kept_anchors(anchors, rects, mh, mg, k).len() ==> exists|i: int|
                0 <= i < k && #[trigger] kept_anchors(anchors, rects, mh, mg, k)[j] == anchors[i]
                    && !is_section_header(anchors, i, rects, mh, mg),
        kept_anchors(anchors, rects, mh, mg, k).len() <= k,
        k >= 1 && is_section_header(anchors, 0, rects, mh, mg) ==> kept_anchors(anchors, rects, mh, mg, k).len()
            <= k - 1,
    decreases k,
{
    if k > 0 {
        lemma_kept_from(anchors, rects, mh, mg, k - 1);
        let r = kept_anchors(anchors, rects, mh, mg, k - 1);
        let r2 = kept_anchors(anchors, rects, mh, mg, k);
        assert forall|j: int| 0 <= j < r2.len() implies exists|i: int|
            0 <= i < k && #[trigger] r2[j] == anchors[i] && !is_section_header(anchors, i, rects, mh, mg) by {
            if j < r.len() {
                assert(r2[j] == r[j]);
                let i = choose|i: int|
                    0 <= i < k - 1 && #[trigger] r[j] == anchors[i] && !is_section_header(anchors, i, rects, mh, mg);
                assert(r2[j] == anchors[i]);
            } else {
                assert(r2[j] == anchors[k - 1]);
            }
        }
    }
}

/// A tall first line is a section header: with three anchors or more and
/// some boxes, when the boxes on the first anchor's line average more than
/// 1.1 × the median box height, every anchor of the result sits where some
/// later anchor sat, so the first anchor is gone; and there are fewer of them.
pub proof fn law_tall_first_line_dropped(anchors: Seq<AnchorView>, rects: Seq<Rect>)
    requires
        anchors.len() >= 3,
        rects.len() > 0,
        ({
            let mh = sorted_values(box_heights(rects))[(rects.len() / 2) as int] as int;
            let y = anchors[0].1.y as int;
            &&& near_count(rects, y, mh) > 0
            &&& 10 * near_height_sum(rects, y, mh) > 11 * mh * near_count(rects, y, mh)
        }),
    ensures
        ({
            let res = without_section_headers(anchors, rects);
            &&& res.len() < anchors.len()
            &&& forall|j: int|
                0 <= j < res.len() ==> exists|i: int|
                    1 <= i < anchors.len() && (#[trigger] res[j]).1 == anchors[i].1 && res[j].2 == anchors[i].2
                        && res[j].4 == anchors[i].4
        }),
{
    let mh = sorted_values(box_heights(rects))[(rects.len() / 2) as int] as int;
    let gaps = crate::anchor_inference::anchor_gaps(anchors);
    let mg = sorted_values(gaps)[(gaps.len() / 2) as int] as int;
    let n = anchors.len() as int;
    assert(is_section_header(anchors, 0, rects, mh, mg));
    lemma_kept_from(anchors, rects, mh, mg, n);
    let kept = kept_anchors(anchors, rects, mh, mg, n);
    let res = without_section_headers(anchors, rects);
    assert(res.len() == kept.len());
    assert forall|j: int| 0 <= j < res.len() implies exists|i: int|
        1 <= i < anchors.len() && (#[trigger] res[j]).1 == anchors[i].1 && res[j].2 == anchors[i].2 && res[j].4
            == anchors[i].4 by {
        let i = choose|i: int|
            0 <= i < n && #[trigger] kept[j] == anchors[i] && !is_section_header(anchors, i, rects, mh, mg);
        assert(i != 0);
    }
}

/// A numbered label's id is group 1 of the leftmost match of `(\d+)` in the
/// label: the regex crate's first run of digits, taken whole.
pub proof fn law_numbered_id_is_digit_run(text: Seq<char>)
    ensures
        extract_id_spec(text, PatternType::Numbered) == (if regex_compiles("(\\d+)"@) {
            regex_group1("(\\d+)"@, text)
        } else {
            None
        }),
{
}

/// Sorting by `x` puts the boxes in ascending order of `x`, and sorting a
/// sorted list changes nothing.
proof fn lemma_sort_by_x(s: Seq<Rect>)
    requires
        s.len() <= usize::MAX,
    ensures
        sort_by_x(s).len() == s.len(),
        forall|i: int, j: int| 0 <= i <= j < s.len() ==> (#[trigger] sort_by_x(s)[i]).x <= (#[trigger] sort_by_x(s)[j]).x,
        sort_by_x(sort_by_x(s)) == sort_by_x(s),
{
    let keys = xs(s);
    lemma_stable_order_exists(keys);
    let p = stable_order_of(keys);
    let t = sort_by_x(s);
    assert(t == permute(s, p));
    assert forall|i: int, j: int| 0 <= i <= j < s.len() implies (#[trigger] t[i]).x <= (#[trigger] t[j]).x by {
        if i < j {
            assert(stable_before(keys, p[i], p[j]));
        }
    }
    let k2 = xs(t);
    let id = Seq::new(t.len(), |i: int| i as usize);
    assert forall|i: int| 0 <= i < id.len() implies #[trigger] id[i] as int == i by {}
    assert forall|i: int, j: int| 0 <= i < j < id.len() implies stable_before(k2, #[trigger] id[i], #[trigger] id[j]) by {
        assert(id[i] as int == i && id[j] as int == j);
        assert(k2[i] == t[i].x && k2[j] == t[j].x);
    }
    assert(is_stable_order(k2, id));
    lemma_stable_order_is(k2, id);
    assert(permute(t, id) =~= t);
}

/// Merging a line does not depend on the order in which its boxes come: it
/// is the merge of the same boxes in ascending order of `x`.
pub proof fn law_merge_line_order_free(line: Seq<Rect>, max_gap: int)
    requires
        line.len() <= usize::MAX,
    ensures
        merge_line(line, max_gap) == merge_line(sort_by_x(line), max_gap),
{
    lemma_sort_by_x(line);
}

proof fn lemma_merge_scan_apart(s: Seq<Rect>, g: int)
    requires
        s.len() > 0,
        forall|i: int, j: int| 0 <= i <= j < s.len() ==> (#[trigger] s[i]).x <= (#[trigger] s[j]).x,
    ensures
        ({
            let (done, cur) = merge_scan(s, g);
            &&& cur.x <= s.last().x
            &&& forall|i: int| 0 <= i < done.len() - 1 ==> (#[trigger] done[i + 1]).x - done[i].right() >= g
            &&& done.len() > 0 ==> cur.x - done.last().right() >= g
        }),
    decreases s.len(),
{
    if s.len() > 1 {
        let t = s.drop_last();
        assert forall|i: int, j: int| 0 <= i <= j < t.len() implies (#[trigger] t[i]).x <= (#[trigger] t[j]).x by {
            assert(t[i] == s[i] && t[j] == s[j]);
        }
        lemma_merge_scan_apart(t, g);
        let (done, cur) = merge_scan(t, g);
        let b = s.last();
        assert(t.last() == s[s.len() - 2]);
        assert(s[s.len() - 2].x <= b.x);
        if b.x - cur.right() < g {
        } else {
            let done2 = done.push(cur);
            assert forall|i: int| 0 <= i < done2.len() - 1 implies (#[trigger] done2[i + 1]).x - done2[i].right() >= g by {
                if i + 1 < done.len() {
                    assert(done2[i + 1] == done[i + 1] && done2[i] == done[i]);
                } else {
                    assert(done2[i + 1] == cur && done2[i] == done.last());
                }
            }
        }
    }
}

/// The boxes that merging a line leaves run from left to right, each at
/// least `max_gap` past the right edge of the one before: no two of them
/// are closer than the gap that would have merged them.
pub proof fn law_merged_boxes_apart(line: Seq<Rect>, max_gap: int)
    requires
        line.len() <= usize::MAX,
    ensures
        ({
            let m = merge_line(line, max_gap);
            forall|i: int| 0 <= i < m.len() - 1 ==> (#[trigger] m[i + 1]).x - m[i].right() >= max_gap
        }),
{
    if line.len() > 0 {
        lemma_sort_by_x(line);
        let s = sort_by_x(line);
        lemma_merge_scan_apart(s, max_gap);
        let (done, cur) = merge_scan(s, max_gap);
        let m = done.push(cur);
        assert forall|i: int| 0 <= i < m.len() - 1 implies (#[trigger] m[i + 1]).x - m[i].right() >= max_gap by {
            if i + 1 < done.len() {
                assert(m[i + 1] == done[i + 1] && m[i] == done[i]);
            } else {
                assert(m[i + 1] == cur && m[i] == done.last());
            }
        }
    }
}

} // verus!
