//! Question anchors inferred from the page geometry: line starts at the left
//! margin, gaps between lines, and the removal of section headers.
use crate::block_detection::{abs_diff, all_wf};
use crate::geometry::{Rect, COORD_LIMIT};
use crate::block_detection::{line_views, lines_wf};
use crate::line_analysis::{
    block_boxes, boxes_of, coords_ok, dominant_x, gap_threshold_tenths, leftmost, leftmost_block,
    line_infos_view, line_ok, line_summary, line_view, lines_ok, nonempty_lines, page_lines,
    sort_values, sorted_values, LineInfo, LineView,
};
use crate::question_locator::{
    anchor_boxes_wf, anchor_view, anchor_views, copy_anchor, AnchorView, QuestionLocator,
};
use crate::text::{decimal, decimal_string, numbered_label, numbered_label_string};
use crate::types::{PatternType, QuestionAnchor, TextBlock};
use vstd::prelude::*;

verus! {

/// The anchor placed at the start of a line: at the line's leftmost box, at
/// the line's top, at most 40 pixels wide, numbered `id`.
pub open spec fn line_anchor(l: LineView, id: nat, confidence: i64) -> AnchorView {
    let f = leftmost(l.4);
    (
        decimal(id),
        Rect { x: f.x, y: l.1, width: if f.width < 40 { f.width } else { 40 }, height: f.height },
        confidence,
        numbered_label(id),
        PatternType::Numbered,
    )
}

/// The gaps between the tops of consecutive lines.
pub open spec fn line_gaps(ls: Seq<LineView>) -> Seq<i64> {
    if ls.len() == 0 {
        Seq::empty()
    } else {
        Seq::new((ls.len() - 1) as nat, |i: int| (ls[i + 1].1 - ls[i].1) as i64)
    }
}

/// Positions of the lines that start a question by the gap rule, among the
/// first `k + 1` lines: the first line, and each line whose gap to the
/// previous line exceeds 1.5 × `median`.
pub open spec fn gap_starts(gaps: Seq<i64>, median: int, k: int) -> Seq<int>
    decreases k,
{
    if k <= 0 {
        seq![0int]
    } else {
        let r = gap_starts(gaps, median, k - 1);
        if 2 * gaps[k - 1] > 3 * median {
            r.push(k)
        } else {
            r
        }
    }
}

/// Anchors by the gap rule (confidence 0.5): none for fewer than two lines.
pub open spec fn gap_anchors(ls: Seq<LineView>) -> Seq<AnchorView> {
    if ls.len() < 2 {
        Seq::empty()
    } else {
        let gaps = line_gaps(ls);
        let m = sorted_values(gaps)[(gaps.len() / 2) as int];
        let starts = gap_starts(gaps, m as int, gaps.len() as int);
        Seq::new(starts.len(), |j: int| line_anchor(ls[starts[j]], (j + 1) as nat, 500000))
    }
}


/// The heights of the boxes.
pub open spec fn box_heights(rects: Seq<Rect>) -> Seq<i64> {
    rects.map_values(|r: Rect| r.height)
}

/// The gaps between the tops of consecutive anchors.
pub open spec fn anchor_gaps(anchors: Seq<AnchorView>) -> Seq<i64> {
    if anchors.len() == 0 {
        Seq::empty()
    } else {
        Seq::new((anchors.len() - 1) as nat, |i: int| (anchors[i + 1].1.y - anchors[i].1.y) as i64)
    }
}

/// The box lies on the anchor's line: its top is within 0.8 × `mh` of `y`.
pub open spec fn on_line(r: Rect, y: int, mh: int) -> bool {
    10 * abs_diff(r.y as int, y) < 8 * mh
}

/// How many boxes lie on the line at `y`.
pub open spec fn near_count(rects: Seq<Rect>, y: int, mh: int) -> int
    decreases rects.len(),
{
    if rects.len() == 0 {
        0
    } else {
        near_count(rects.drop_last(), y, mh) + if on_line(rects.last(), y, mh) {
            1int
        } else {
            0int
        }
    }
}

/// The sum of the heights of the boxes on the line at `y`.
pub open spec fn near_height_sum(rects: Seq<Rect>, y: int, mh: int) -> int
    decreases rects.len(),
{
    if rects.len() == 0 {
        0
    } else {
        near_height_sum(rects.drop_last(), y, mh) + if on_line(rects.last(), y, mh) {
            rects.last().height as int
        } else {
            0int
        }
    }
}

/// Anchor `i` looks like a section header: its line is taller than 1.1 × the
/// median box height and it is the first anchor or follows a gap above twice
/// the median anchor gap, or it follows such a gap and its line has more than
/// fifteen boxes.  An anchor with no box on its line is kept.
pub open spec fn is_section_header(
    anchors: Seq<AnchorView>,
    i: int,
    rects: Seq<Rect>,
    mh: int,
    mg: int,
) -> bool {
    let y = anchors[i].1.y as int;
    let cnt = near_count(rects, y, mh);
    if cnt == 0 {
        false
    } else {
        let tall = 10 * near_height_sum(rects, y, mh) > 11 * mh * cnt;
        let gap_before = if i > 0 {
            y - anchors[i - 1].1.y
        } else {
            0
        };
        let large_gap = gap_before > 2 * mg;
        (tall && (i == 0 || large_gap)) || (large_gap && cnt > 15)
    }
}

/// The first `k` anchors without the section headers.
pub open spec fn kept_anchors(
    anchors: Seq<AnchorView>,
    rects: Seq<Rect>,
    mh: int,
    mg: int,
    k: int,
) -> Seq<AnchorView>
    decreases k,
{
    if k <= 0 {
        Seq::empty()
    } else {
        let r = kept_anchors(anchors, rects, mh, mg, k - 1);
        if is_section_header(anchors, k - 1, rects, mh, mg) {
            r
        } else {
            r.push(anchors[k - 1])
        }
    }
}

/// The anchors numbered again from 1, with labels `"1."`, `"2."`, ...
pub open spec fn renumbered(anchors: Seq<AnchorView>) -> Seq<AnchorView> {
    Seq::new(
        anchors.len(),
        |j: int|
            (
                decimal((j + 1) as nat),
                anchors[j].1,
                anchors[j].2,
                numbered_label((j + 1) as nat),
                anchors[j].4,
            ),
    )
}

/// The anchors without section headers, renumbered; unchanged when there are
/// fewer than three anchors or no boxes.
pub open spec fn without_section_headers(anchors: Seq<AnchorView>, rects: Seq<Rect>) -> Seq<
    AnchorView,
> {
    if anchors.len() < 3 || rects.len() == 0 {
        anchors
    } else {
        let mh = sorted_values(box_heights(rects))[(rects.len() / 2) as int];
        let gaps = anchor_gaps(anchors);
        let mg = sorted_values(gaps)[(gaps.len() / 2) as int];
        renumbered(kept_anchors(anchors, rects, mh as int, mg as int, anchors.len() as int))
    }
}

/// The anchors' tops lie in the accepted coordinate range.
pub open spec fn anchor_tops_ok(anchors: Seq<AnchorView>) -> bool {
    forall|i: int| 0 <= i < anchors.len() ==> -COORD_LIMIT <= #[trigger] anchors[i].1.y <= COORD_LIMIT
}

/// The line starts a question by the left-margin rule: it starts within 8% of
/// the page width of the dominant margin `s / c`, it is wider than 15% of the
/// page or its leftmost box is narrower than 60 pixels, and it is not a
/// centred title (centre within 15% of the page centre, start beyond 15% of
/// the width).
pub open spec fn starts_question_line(l: LineView, w: int, s: int, c: int) -> bool {
    let near = 100 * abs_diff(c * l.0, s) < 8 * w * c;
    let substantial = 100 * l.2 > 15 * w || l.3 < 60;
    let centered = 100 * abs_diff(2 * l.0 + l.2, w) < 30 * w && 100 * l.0 > 15 * w;
    near && substantial && !centered
}

/// Scan of the lines by the left-margin rule: the anchors so far (confidence
/// 0.6, numbered from 1) and the top of the last anchor line.  A line closer
/// than the gap threshold `t10` (tenths of a pixel) below the last anchor
/// line continues that question.
pub open spec fn margin_scan(ls: Seq<LineView>, w: int, s: int, c: int, t10: int) -> (
    Seq<AnchorView>,
    Option<int>,
)
    decreases ls.len(),
{
    if ls.len() == 0 {
        (Seq::empty(), None)
    } else {
        let (anchors, last) = margin_scan(ls.drop_last(), w, s, c, t10);
        let l = ls.last();
        let continuation = match last {
            Some(p) => 10 * (l.1 - p) < t10,
            None => false,
        };
        if starts_question_line(l, w, s, c) && !continuation {
            (anchors.push(line_anchor(l, (anchors.len() + 1) as nat, 600000)), Some(l.1 as int))
        } else {
            (anchors, last)
        }
    }
}

/// The summaries of the page's text lines.
pub open spec fn page_line_views(rects: Seq<Rect>) -> Seq<LineView> {
    page_lines(rects).map_values(|l: Seq<Rect>| line_summary(l))
}

/// Anchors inferred from the geometry of a page `w` pixels wide: the
/// left-margin rule (margin: the dominant line start within 5% of the
/// width), falling back to the gap rule when it finds fewer than three, then
/// without section headers.
pub open spec fn geometric_anchors(rects: Seq<Rect>, w: int) -> Seq<AnchorView> {
    let ls = page_line_views(rects);
    if ls.len() == 0 {
        Seq::empty()
    } else {
        let xs = sorted_values(ls.map_values(|l: LineView| l.0));
        let (s, c) = dominant_x(xs, 5 * w, 100);
        let t10 = gap_threshold_tenths(line_gaps(ls));
        let primary = margin_scan(ls, w, s, c, t10).0;
        let chosen = if primary.len() < 3 {
            gap_anchors(ls)
        } else {
            primary
        };
        without_section_headers(chosen, rects)
    }
}

/// An optional integer.
pub open spec fn opt_int(o: Option<i64>) -> Option<int> {
    match o {
        Some(v) => Some(v as int),
        None => None,
    }
}

/// A copy of a list of boxes.
fn copy_rects(v: &Vec<Rect>) -> (r: Vec<Rect>)
    ensures
        r@ == v@,
{
    let mut r: Vec<Rect> = Vec::new();
    let mut i: usize = 0;
    while i < v.len()
        invariant
            i <= v@.len(),
            r@ == v@.subrange(0, i as int),
        decreases v@.len() - i,
    {
        r.push(v[i]);
        proof {
            assert(r@ =~= v@.subrange(0, i as int + 1));
        }
        i = i + 1;
    }
    assert(v@.subrange(0, v@.len() as int) =~= v@);
    r
}

/// Builds the anchor at the start of a line.
fn anchor_at_line(line: &LineInfo, question_id: u64, confidence: i64) -> (a: QuestionAnchor)
    requires
        line_ok(line_view(*line)),
    ensures
        anchor_view(a) == line_anchor(line_view(*line), question_id as nat, confidence),
        a.bbox.wf(),
{
    let first = leftmost_block(&line.blocks);
    let width = if first.width < 40 {
        first.width
    } else {
        40
    };
    QuestionAnchor {
        question_id: decimal_string(question_id),
        bbox: Rect::new(first.x, line.y, width, first.height),
        confidence,
        text: numbered_label_string(question_id),
        pattern_type: PatternType::Numbered,
    }
}

impl QuestionLocator {
    /// The anchor (confidence 0.5) at the start of a line, numbered
    /// `question_id`.
    pub fn create_anchor_from_line(&self, line: &LineInfo, question_id: u64) -> (a: QuestionAnchor)
        requires
            line_ok(line_view(*line)),
        ensures
            anchor_view(a) == line_anchor(line_view(*line), question_id as nat, 500000),
            a.bbox.wf(),
    {
        anchor_at_line(line, question_id, 500000)
    }

    /// Anchors at the first line and at every line whose gap to the previous
    /// line exceeds 1.5 × the median gap, numbered from 1.
    pub fn infer_from_line_gaps(&self, lines: &[LineInfo], _image_width: u32) -> (anchors: Vec<
        QuestionAnchor,
    >)
        requires
            lines_ok(line_infos_view(lines@)),
        ensures
            anchor_views(anchors@) == gap_anchors(line_infos_view(lines@)),
            anchor_tops_ok(anchor_views(anchors@)),
            anchor_boxes_wf(anchor_views(anchors@)),
    {
        let ghost ls = line_infos_view(lines@);
        let mut anchors: Vec<QuestionAnchor> = Vec::new();
        if lines.len() < 2 {
            assert(anchor_views(anchors@) =~= Seq::<AnchorView>::empty());
            return anchors;
        }
        let n = lines.len();
        let mut gaps: Vec<i64> = Vec::new();
        let mut i: usize = 1;
        while i < n
            invariant
                n == lines@.len(),
                n >= 2,
                1 <= i <= n,
                ls == line_infos_view(lines@),
                lines_ok(ls),
                gaps@ == line_gaps(ls).subrange(0, i as int - 1),
            decreases n - i,
        {
            proof {
                assert(line_ok(ls[i as int]));
                assert(line_ok(ls[i as int - 1]));
            }
            gaps.push(lines[i].y - lines[i - 1].y);
            proof {
                assert(gaps@ =~= line_gaps(ls).subrange(0, i as int));
            }
            i = i + 1;
        }
        assert(gaps@ =~= line_gaps(ls));
        let sorted = sort_values(&gaps);
        let m = sorted[gaps.len() / 2];
        let ghost starts = gap_starts(gaps@, m as int, gaps@.len() as int);
        let ghost full = gap_anchors(ls);
        proof {
            lemma_gap_starts(gaps@, m as int, gaps@.len() as int);
        }
        proof {
            assert(line_ok(ls[0]));
        }
        anchors.push(self.create_anchor_from_line(&lines[0], 1));
        assert(gap_starts(gaps@, m as int, 0) =~= seq![0int]);
        let mut k: usize = 0;
        while k < gaps.len()
            invariant
                n == lines@.len(),
                gaps@.len() == n - 1,
                k <= gaps@.len(),
                ls == line_infos_view(lines@),
                lines_ok(ls),
                anchors@.len() == gap_starts(gaps@, m as int, k as int).len(),
                anchors@.len() <= k + 1,
                anchor_tops_ok(anchor_views(anchors@)),
                anchor_boxes_wf(anchor_views(anchors@)),
                anchor_views(anchors@) == Seq::new(
                    gap_starts(gaps@, m as int, k as int).len(),
                    |j: int|
                        line_anchor(
                            ls[gap_starts(gaps@, m as int, k as int)[j]],
                            (j + 1) as nat,
                            500000,
                        ),
                ),
            decreases gaps@.len() - k,
        {
            let ghost before = anchors@;
            let ghost prev = gap_starts(gaps@, m as int, k as int);
            if (gaps[k] as i128) * 2 > (m as i128) * 3 {
                let id = (anchors.len() + 1) as u64;
                proof {
                    assert(line_ok(ls[k as int + 1]));
                }
                let a = self.create_anchor_from_line(&lines[k + 1], id);
                anchors.push(a);
                proof {
                    let cur = gap_starts(gaps@, m as int, k as int + 1);
                    assert(cur == prev.push(k as int + 1));
                    assert(anchor_views(anchors@) =~= anchor_views(before).push(anchor_view(a)));
                    assert(id as nat == prev.len() + 1);
                    assert(anchor_views(anchors@) =~= Seq::new(
                        cur.len(),
                        |j: int| line_anchor(ls[cur[j]], (j + 1) as nat, 500000),
                    ));
                }
            } else {
                proof {
                    let cur = gap_starts(gaps@, m as int, k as int + 1);
                    assert(cur == prev);
                }
            }
            k = k + 1;
        }
        proof {
            assert(anchor_views(anchors@) =~= full);
        }
        anchors
    }

    /// Anchors inferred from the page geometry (see [`geometric_anchors`]):
    /// starts of lines at the dominant left margin, or, when that finds fewer
    /// than three, the gap rule; section headers are then dropped.
    pub fn infer_from_geometry(&self, blocks: &[TextBlock], image_width: u32) -> (anchors: Vec<
        QuestionAnchor,
    >)
        requires
            all_wf(block_boxes(blocks@)),
        ensures
            anchor_views(anchors@) == geometric_anchors(block_boxes(blocks@), image_width as int),
            anchor_boxes_wf(anchor_views(anchors@)),
    {
        let ghost rects = block_boxes(blocks@);
        let ghost ls = page_line_views(rects);
        let lines = self.group_blocks_into_lines(blocks);
        if lines.len() == 0 {
            let empty: Vec<QuestionAnchor> = Vec::new();
            assert(anchor_views(empty@) =~= Seq::<AnchorView>::empty());
            return empty;
        }
        let n = lines.len();
        let mut infos: Vec<LineInfo> = Vec::new();
        let mut i: usize = 0;
        while i < n
            invariant
                n == lines@.len(),
                i <= n,
                line_views(lines@) == page_lines(rects),
                lines_wf(line_views(lines@)),
                nonempty_lines(line_views(lines@)),
                ls == page_line_views(rects),
                line_infos_view(infos@) == ls.subrange(0, i as int),
                lines_ok(line_infos_view(infos@)),
            decreases n - i,
        {
            let line = copy_rects(&lines[i]);
            proof {
                assert(line_views(lines@)[i as int] == lines@[i as int]@);
                assert(line@.len() > 0);
                assert forall|k: int| 0 <= k < line@.len() implies #[trigger] line@[k].wf() by {
                    assert(line_views(lines@)[i as int][k].wf());
                }
            }
            let info = LineInfo::from_blocks(line);
            let ghost before = infos@;
            infos.push(info);
            proof {
                assert(line_infos_view(infos@) =~= line_infos_view(before).push(line_view(info)));
                assert(line_infos_view(infos@) =~= ls.subrange(0, i as int + 1));
            }
            i = i + 1;
        }
        assert(line_infos_view(infos@) =~= ls);
        let mut xs: Vec<i64> = Vec::new();
        let mut k: usize = 0;
        while k < n
            invariant
                n == infos@.len(),
                k <= n,
                ls == line_infos_view(infos@),
                lines_ok(ls),
                xs@ == ls.map_values(|l: LineView| l.0).subrange(0, k as int),
                coords_ok(xs@),
            decreases n - k,
        {
            proof {
                assert(line_ok(ls[k as int]));
                assert(leftmost(ls[k as int].4).wf());
            }
            xs.push(infos[k].x_start);
            proof {
                assert(xs@ =~= ls.map_values(|l: LineView| l.0).subrange(0, k as int + 1));
            }
            k = k + 1;
        }
        assert(xs@ =~= ls.map_values(|l: LineView| l.0));
        let sorted_xs = sort_values(&xs);
        let w = image_width as i64;
        let (s, c) = self.find_dominant_x(sorted_xs.as_slice(), 5 * w, 100);
        let mut gaps: Vec<i64> = Vec::new();
        let mut k: usize = 1;
        while k < n
            invariant
                n == infos@.len(),
                n >= 1,
                1 <= k <= n,
                ls == line_infos_view(infos@),
                lines_ok(ls),
                gaps@ == line_gaps(ls).subrange(0, k as int - 1),
            decreases n - k,
        {
            proof {
                assert(line_ok(ls[k as int]));
                assert(line_ok(ls[k as int - 1]));
            }
            gaps.push(infos[k].y - infos[k - 1].y);
            proof {
                assert(gaps@ =~= line_gaps(ls).subrange(0, k as int));
            }
            k = k + 1;
        }
        assert(gaps@ =~= line_gaps(ls));
        let t10 = self.find_gap_threshold(&gaps);
        let w128 = image_width as i128;
        let mut anchors: Vec<QuestionAnchor> = Vec::new();
        let mut last: Option<i64> = None;
        let mut k: usize = 0;
        while k < n
            invariant
                n == infos@.len(),
                k <= n,
                ls == line_infos_view(infos@),
                lines_ok(ls),
                w128 == image_width,
                0 <= c <= n + 1,
                -c * COORD_LIMIT <= s <= c * COORD_LIMIT,
                (anchor_views(anchors@), opt_int(last)) == margin_scan(
                    ls.subrange(0, k as int),
                    image_width as int,
                    s as int,
                    c as int,
                    t10 as int,
                ),
                anchors@.len() <= k,
                anchor_tops_ok(anchor_views(anchors@)),
                anchor_boxes_wf(anchor_views(anchors@)),
                last matches Some(p) ==> -COORD_LIMIT <= p <= COORD_LIMIT,
            decreases n - k,
        {
            let info = &infos[k];
            proof {
                let cur = ls.subrange(0, k as int + 1);
                assert(cur.drop_last() =~= ls.subrange(0, k as int));
                assert(cur.last() == ls[k as int]);
                assert(line_ok(ls[k as int]));
                assert(leftmost(ls[k as int].4).wf());
                assert(n <= usize::MAX);
                assert(-(c * COORD_LIMIT) <= c * (info.x_start as int) <= c * COORD_LIMIT) by (
                nonlinear_arith)
                    requires
                        0 <= c,
                        -COORD_LIMIT <= info.x_start <= COORD_LIMIT,
                ;
                assert(c * COORD_LIMIT <= 18446744073709551617 * COORD_LIMIT) by (nonlinear_arith)
                    requires
                        0 <= c <= 18446744073709551617,
                ;
                assert(8 * w128 * c <= 8 * 4294967296 * 18446744073709551617) by (nonlinear_arith)
                    requires
                        0 <= c <= 18446744073709551617,
                        0 <= w128 <= 4294967296,
                ;
            }
            let x = info.x_start as i128;
            let diff: i128 = c * x - s;
            let near = 100 * (if diff >= 0 {
                diff
            } else {
                -diff
            }) < 8 * w128 * c;
            let substantial = 100 * (info.width as i128) > 15 * w128 || info.first_block_width
                < 60;
            let centre_off: i128 = 2 * x + (info.width as i128) - w128;
            let centered = 100 * (if centre_off >= 0 {
                centre_off
            } else {
                -centre_off
            }) < 30 * w128 && 100 * x > 15 * w128;
            proof {
                assert(near == (100 * abs_diff(c * ls[k as int].0, s as int) < 8 * image_width * c));
                assert(centered == (100 * abs_diff(
                    2 * ls[k as int].0 + ls[k as int].2,
                    image_width as int,
                ) < 30 * image_width && 100 * ls[k as int].0 > 15 * image_width));
            }
            if near && substantial && !centered {
                let continuation = match last {
                    Some(p) => 10 * ((info.y as i128) - (p as i128)) < t10,
                    None => false,
                };
                if !continuation {
                    let id = (anchors.len() + 1) as u64;
                    let a = anchor_at_line(info, id, 600000);
                    let ghost before = anchors@;
                    anchors.push(a);
                    last = Some(info.y);
                    proof {
                        assert(anchor_views(anchors@) =~= anchor_views(before).push(anchor_view(a)));
                    }
                }
            }
            k = k + 1;
        }
        assert(ls.subrange(0, n as int) =~= ls);
        if anchors.len() < 3 {
            anchors = self.infer_from_line_gaps(infos.as_slice(), image_width);
        }
        self.filter_section_headers(anchors, blocks)
    }

    /// Drops the anchors that look like section headers (see
    /// [`is_section_header`]) and numbers the rest from 1.  Fewer than three
    /// anchors, or no blocks, are returned unchanged.
    pub fn filter_section_headers(&self, anchors: Vec<QuestionAnchor>, blocks: &[TextBlock]) -> (res:
        Vec<QuestionAnchor>)
        requires
            all_wf(block_boxes(blocks@)),
            anchor_tops_ok(anchor_views(anchors@)),
        ensures
            anchor_views(res@) == without_section_headers(
                anchor_views(anchors@),
                block_boxes(blocks@),
            ),
            anchor_tops_ok(anchor_views(res@)),
            anchor_boxes_wf(anchor_views(anchors@)) ==> anchor_boxes_wf(anchor_views(res@)),
    {
        if anchors.len() < 3 || blocks.len() == 0 {
            return anchors;
        }
        let ghost av = anchor_views(anchors@);
        let boxes = boxes_of(blocks);
        let n = anchors.len();
        let mut heights: Vec<i64> = Vec::new();
        let mut i: usize = 0;
        while i < boxes.len()
            invariant
                i <= boxes@.len(),
                heights@ == box_heights(boxes@).subrange(0, i as int),
            decreases boxes@.len() - i,
        {
            heights.push(boxes[i].height);
            proof {
                assert(heights@ =~= box_heights(boxes@).subrange(0, i as int + 1));
            }
            i = i + 1;
        }
        assert(heights@ =~= box_heights(boxes@));
        let sorted_heights = sort_values(&heights);
        let mh = sorted_heights[boxes.len() / 2];
        proof {
            assert(heights@.contains(mh));
            let j = choose|j: int| 0 <= j < heights@.len() && heights@[j] == mh;
            assert(boxes@[j].wf());
        }
        let mut gaps: Vec<i64> = Vec::new();
        let mut i: usize = 1;
        while i < n
            invariant
                n == anchors@.len(),
                n >= 3,
                1 <= i <= n,
                av == anchor_views(anchors@),
                anchor_tops_ok(av),
                gaps@ == anchor_gaps(av).subrange(0, i as int - 1),
            decreases n - i,
        {
            proof {
                assert(-COORD_LIMIT <= av[i as int].1.y <= COORD_LIMIT);
                assert(-COORD_LIMIT <= av[i as int - 1].1.y <= COORD_LIMIT);
            }
            gaps.push(anchors[i].bbox.y - anchors[i - 1].bbox.y);
            proof {
                assert(gaps@ =~= anchor_gaps(av).subrange(0, i as int));
            }
            i = i + 1;
        }
        assert(gaps@ =~= anchor_gaps(av));
        let sorted_gaps = sort_values(&gaps);
        let mg = sorted_gaps[gaps.len() / 2];
        let mut kept: Vec<QuestionAnchor> = Vec::new();
        let nb = boxes.len();
        let mut i: usize = 0;
        while i < n
            invariant
                nb == boxes@.len(),
                n == anchors@.len(),
                i <= n,
                av == anchor_views(anchors@),
                anchor_tops_ok(av),
                all_wf(boxes@),
                0 <= mh <= 2 * COORD_LIMIT,
                anchor_views(kept@) == kept_anchors(av, boxes@, mh as int, mg as int, i as int),
                anchor_tops_ok(anchor_views(kept@)),
                anchor_boxes_wf(av) ==> anchor_boxes_wf(anchor_views(kept@)),
            decreases n - i,
        {
            let y = anchors[i].bbox.y;
            proof {
                assert(-COORD_LIMIT <= av[i as int].1.y <= COORD_LIMIT);
            }
            let (cnt, sum) = near_stats(&boxes, y, mh);
            let header = if cnt == 0 {
                false
            } else {
                proof {
                    assert((mh as int) * cnt <= 2147483648 * 18446744073709551616) by (
                    nonlinear_arith)
                        requires
                            0 <= mh <= 2147483648,
                            0 <= cnt <= 18446744073709551616,
                    ;
                    assert(sum <= 18446744073709551616 * 2147483648) by (nonlinear_arith)
                        requires
                            0 <= sum <= cnt * 2147483648,
                            0 <= cnt <= 18446744073709551616,
                    ;
                }
                let tall = 10 * sum > 11 * ((mh as i128) * cnt);
                let gap_before: i128 = if i > 0 {
                    proof {
                        assert(-COORD_LIMIT <= av[i as int - 1].1.y <= COORD_LIMIT);
                    }
                    (y as i128) - (anchors[i - 1].bbox.y as i128)
                } else {
                    0
                };
                let large_gap = gap_before > 2 * (mg as i128);
                (tall && (i == 0 || large_gap)) || (large_gap && cnt > 15)
            };
            proof {
                assert(av[i as int].1.y == y);
                assert(11 * (mh as int) * cnt == 11 * ((mh as int) * cnt)) by (nonlinear_arith);
                if i > 0 {
                    assert(av[i as int - 1].1.y == anchors@[i as int - 1].bbox.y);
                }
                assert(header == is_section_header(av, i as int, boxes@, mh as int, mg as int));
            }
            let ghost before = kept@;
            if !header {
                let a = copy_anchor(&anchors[i]);
                kept.push(a);
                proof {
                    assert(anchor_views(kept@) =~= anchor_views(before).push(av[i as int]));
                }
            }
            i = i + 1;
        }
        let ghost kv = anchor_views(kept@);
        let mut res: Vec<QuestionAnchor> = Vec::new();
        let mut j: usize = 0;
        while j < kept.len()
            invariant
                j <= kept@.len(),
                kv == anchor_views(kept@),
                anchor_tops_ok(kv),
                anchor_views(res@) == renumbered(kv).subrange(0, j as int),
                anchor_tops_ok(anchor_views(res@)),
                anchor_boxes_wf(kv) ==> anchor_boxes_wf(anchor_views(res@)),
            decreases kept@.len() - j,
        {
            let k = &kept[j];
            let a = QuestionAnchor {
                question_id: decimal_string((j + 1) as u64),
                bbox: k.bbox,
                confidence: k.confidence,
                text: numbered_label_string((j + 1) as u64),
                pattern_type: k.pattern_type,
            };
            let ghost before = res@;
            res.push(a);
            proof {
                assert(anchor_views(res@) =~= anchor_views(before).push(anchor_view(a)));
                assert(anchor_views(res@) =~= renumbered(kv).subrange(0, j as int + 1));
            }
            j = j + 1;
        }
        assert(renumbered(kv).subrange(0, kv.len() as int) =~= renumbered(kv));
        res
    }
}

/// How many boxes lie on the line at `y`, and the sum of their heights.
fn near_stats(boxes: &Vec<Rect>, y: i64, mh: i64) -> (r: (i128, i128))
    requires
        all_wf(boxes@),
        -COORD_LIMIT <= y <= COORD_LIMIT,
        0 <= mh <= 2 * COORD_LIMIT,
    ensures
        r.0 == near_count(boxes@, y as int, mh as int),
        r.1 == near_height_sum(boxes@, y as int, mh as int),
        0 <= r.0 <= boxes@.len(),
        0 <= r.1 <= r.0 * 2147483648,
{
    let n = boxes.len();
    let mut cnt: i128 = 0;
    let mut sum: i128 = 0;
    let mut i: usize = 0;
    while i < n
        invariant
            n == boxes@.len(),
            i <= n,
            all_wf(boxes@),
            -COORD_LIMIT <= y <= COORD_LIMIT,
            0 <= mh <= 2 * COORD_LIMIT,
            cnt == near_count(boxes@.subrange(0, i as int), y as int, mh as int),
            sum == near_height_sum(boxes@.subrange(0, i as int), y as int, mh as int),
            0 <= cnt <= i,
            0 <= sum <= cnt * 2147483648,
        decreases n - i,
    {
        let b = boxes[i];
        proof {
            let cur = boxes@.subrange(0, i as int + 1);
            assert(cur.drop_last() =~= boxes@.subrange(0, i as int));
            assert(cur.last() == b);
            assert(b.wf());
        }
        let d: i64 = if b.y >= y {
            b.y - y
        } else {
            y - b.y
        };
        if 10 * d < 8 * mh {
            cnt = cnt + 1;
            sum = sum + b.height as i128;
        }
        i = i + 1;
    }
    assert(boxes@.subrange(0, n as int) =~= boxes@);
    (cnt, sum)
}

proof fn lemma_gap_starts(gaps: Seq<i64>, median: int, k: int)
    requires
        0 <= k,
    ensures
        gap_starts(gaps, median, k).len() <= k + 1,
        gap_starts(gaps, median, k).len() >= 1,
    decreases k,
{
    if k > 0 {
        lemma_gap_starts(gaps, median, k - 1);
    }
}

} // verus!
