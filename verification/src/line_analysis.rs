//! Lines of text blocks and the statistics the question locator reads from
//! them: line summaries, the gap that separates questions, and the dominant
//! left margin.
use crate::block_detection::{
    abs_diff, all_wf, lemma_permute_wf, line_views, lines_wf, sort_by_y, sort_rects_by_y,
    sum_heights, total_height, ys,
};
use crate::geometry::{max_int, Rect, COORD_LIMIT};
use crate::question_locator::QuestionLocator;
use crate::sorting::{is_stable_order, permute, stable_order, stable_order_of};
use crate::types::TextBlock;
use vstd::prelude::*;

verus! {

/// The boxes of a list of text blocks.
pub open spec fn block_boxes(v: Seq<TextBlock>) -> Seq<Rect> {
    v.map_values(|b: TextBlock| b.bbox)
}

/// Scan of y-sorted boxes into lines: the finished lines and the line being
/// built.  A box joins the current line when `den · |y − y₀| ≤ num`, `y₀`
/// being the y of the line's first box.
pub open spec fn line_scan(s: Seq<Rect>, num: int, den: int) -> (Seq<Seq<Rect>>, Seq<Rect>)
    decreases s.len(),
{
    if s.len() == 0 {
        (Seq::empty(), Seq::empty())
    } else {
        let (lines, cur) = line_scan(s.drop_last(), num, den);
        let b = s.last();
        if cur.len() == 0 {
            (lines, seq![b])
        } else if den * abs_diff(b.y as int, cur[0].y as int) <= num {
            (lines, cur.push(b))
        } else {
            (lines.push(cur), seq![b])
        }
    }
}

/// The lines of a y-sorted list of boxes.
pub open spec fn scan_lines(s: Seq<Rect>, num: int, den: int) -> Seq<Seq<Rect>> {
    let (lines, cur) = line_scan(s, num, den);
    if cur.len() > 0 {
        lines.push(cur)
    } else {
        lines
    }
}

/// The text lines of a page: the boxes in y order, a box joining the current
/// line when its y is within 0.7 × the average box height of the y of the
/// line's first box.
pub open spec fn page_lines(s: Seq<Rect>) -> Seq<Seq<Rect>> {
    if s.len() == 0 {
        Seq::empty()
    } else {
        scan_lines(sort_by_y(s), 7 * sum_heights(s), 10 * (s.len() as int))
    }
}

/// `blocks_wf` is `all_wf` of the boxes.
pub proof fn lemma_blocks_wf(v: Seq<TextBlock>)
    ensures
        crate::block_detection::blocks_wf(v) <==> all_wf(block_boxes(v)),
{
    if crate::block_detection::blocks_wf(v) {
        assert forall|i: int| 0 <= i < v.len() implies #[trigger] block_boxes(v)[i].wf() by {
            assert(v[i].bbox.wf());
        }
    }
    if all_wf(block_boxes(v)) {
        assert forall|i: int| 0 <= i < v.len() implies #[trigger] v[i].bbox.wf() by {
            assert(block_boxes(v)[i].wf());
        }
    }
}

/// No line is empty.
pub open spec fn nonempty_lines(v: Seq<Seq<Rect>>) -> bool {
    forall|i: int| 0 <= i < v.len() ==> #[trigger] v[i].len() > 0
}

/// The first box with the smallest x.
pub open spec fn leftmost(s: Seq<Rect>) -> Rect
    decreases s.len(),
{
    if s.len() <= 1 {
        s[0]
    } else {
        let m = leftmost(s.drop_last());
        if s.last().x < m.x {
            s.last()
        } else {
            m
        }
    }
}

/// The smallest y of a non-empty list of boxes.
pub open spec fn top_y(s: Seq<Rect>) -> int
    decreases s.len(),
{
    if s.len() <= 1 {
        s[0].y as int
    } else {
        let m = top_y(s.drop_last());
        if s.last().y < m {
            s.last().y as int
        } else {
            m
        }
    }
}

/// The largest right edge of the boxes, and at least 0.
pub open spec fn right_extent(s: Seq<Rect>) -> int
    decreases s.len(),
{
    if s.len() == 0 {
        0
    } else {
        max_int(right_extent(s.drop_last()), s.last().right())
    }
}

/// A text line: where it starts, its top, its width, the width of its
/// leftmost box, and its boxes.
pub struct LineInfo {
    pub x_start: i64,
    pub y: i64,
    pub width: i64,
    pub first_block_width: i64,
    pub blocks: Vec<Rect>,
}

/// Start x, top y, width, leftmost box width and boxes of a line.
pub type LineView = (i64, i64, i64, i64, Seq<Rect>);

pub open spec fn line_view(l: LineInfo) -> LineView {
    (l.x_start, l.y, l.width, l.first_block_width, l.blocks@)
}

pub open spec fn line_infos_view(v: Seq<LineInfo>) -> Seq<LineView> {
    v.map_values(|l: LineInfo| line_view(l))
}

/// The summary of a non-empty line of boxes.
pub open spec fn line_summary(s: Seq<Rect>) -> LineView {
    let f = leftmost(s);
    (f.x, top_y(s) as i64, (right_extent(s) - f.x) as i64, f.width, s)
}

/// A line summary whose numbers lie in the accepted coordinate range and
/// whose boxes are well formed.
pub open spec fn line_ok(l: LineView) -> bool {
    &&& l.4.len() > 0
    &&& all_wf(l.4)
    &&& leftmost(l.4).wf()
    &&& l.0 == leftmost(l.4).x
    &&& l.3 == leftmost(l.4).width
    &&& l.1 <= leftmost(l.4).y
    &&& -COORD_LIMIT <= l.1 <= COORD_LIMIT
    &&& 0 <= l.2 <= 2 * COORD_LIMIT
}

/// Every line summary is in range.
pub open spec fn lines_ok(ls: Seq<LineView>) -> bool {
    forall|i: int| 0 <= i < ls.len() ==> line_ok(#[trigger] ls[i])
}

/// The values in ascending order.
pub open spec fn sorted_values(s: Seq<i64>) -> Seq<i64> {
    permute(s, stable_order_of(s))
}

/// The first position `i >= from` of a sorted list at which the step
/// `s[i] − s[i−1]`, in tenths, reaches `bound`.
pub open spec fn first_jump_from(s: Seq<i64>, bound: int, from: int) -> Option<int>
    decreases s.len() - from,
{
    if from < 1 || from >= s.len() {
        None
    } else if 10 * (s[from] - s[from - 1]) >= bound {
        Some(from)
    } else {
        first_jump_from(s, bound, from + 1)
    }
}

/// The gap that separates continuation lines from new questions, in tenths of
/// a pixel.  With no gaps it is 20; with one gap, or gaps all equal, 0.8 × the
/// smallest gap.  Otherwise it is the midpoint of the first step between
/// consecutive sorted gaps that reaches max(0.3 × smallest gap, 5) (0.8 × the
/// median gap when no step does), and at least 15.
pub open spec fn gap_threshold_tenths(gaps: Seq<i64>) -> int {
    let s = sorted_values(gaps);
    if s.len() == 0 {
        200
    } else if s.len() < 2 || s[s.len() - 1] == s[0] {
        8 * s[0]
    } else {
        let bound = max_int(3 * s[0], 50);
        let t = match first_jump_from(s, bound, 1) {
            Some(i) => 5 * (s[i - 1] + s[i]),
            None => 8 * s[(s.len() / 2) as int],
        };
        max_int(t, 150)
    }
}

/// `v` lies within `num / den` of `x` (strictly).
pub open spec fn within(v: int, x: int, num: int, den: int) -> bool {
    den * abs_diff(v, x) < num
}

/// How many values lie within `num / den` of `x`.
pub open spec fn count_within(xs: Seq<i64>, x: int, num: int, den: int) -> int
    decreases xs.len(),
{
    if xs.len() == 0 {
        0
    } else {
        count_within(xs.drop_last(), x, num, den) + if within(xs.last() as int, x, num, den) {
            1int
        } else {
            0int
        }
    }
}

/// The sum of the values that lie within `num / den` of `x`.
pub open spec fn sum_within(xs: Seq<i64>, x: int, num: int, den: int) -> int
    decreases xs.len(),
{
    if xs.len() == 0 {
        0
    } else {
        sum_within(xs.drop_last(), x, num, den) + if within(xs.last() as int, x, num, den) {
            xs.last() as int
        } else {
            0int
        }
    }
}

/// Among the first `k` values, the position of the first one with the most
/// values within the tolerance, and that number (0 and 0 when none has any).
pub open spec fn densest(xs: Seq<i64>, num: int, den: int, k: int) -> (int, int)
    decreases k,
{
    if k <= 0 {
        (0, 0)
    } else {
        let (b, c) = densest(xs, num, den, k - 1);
        let cnt = count_within(xs, xs[k - 1] as int, num, den);
        if cnt > c {
            (k - 1, cnt)
        } else {
            (b, c)
        }
    }
}

/// The dominant value as a fraction `(sum, count)`: the mean of the values
/// within the tolerance of the densest value; `(0, 1)` for no values.
pub open spec fn dominant_x(xs: Seq<i64>, num: int, den: int) -> (int, int) {
    if xs.len() == 0 {
        (0, 1)
    } else {
        let b = densest(xs, num, den, xs.len() as int).0;
        (sum_within(xs, xs[b] as int, num, den), count_within(xs, xs[b] as int, num, den))
    }
}

/// All values lie in the accepted coordinate range.
pub open spec fn coords_ok(xs: Seq<i64>) -> bool {
    forall|i: int| 0 <= i < xs.len() ==> -COORD_LIMIT <= #[trigger] xs[i] <= COORD_LIMIT
}

pub fn boxes_of(blocks: &[TextBlock]) -> (boxes: Vec<Rect>)
    ensures
        boxes@ == block_boxes(blocks@),
{
    let mut boxes: Vec<Rect> = Vec::new();
    let mut i: usize = 0;
    while i < blocks.len()
        invariant
            i <= blocks@.len(),
            boxes@ == block_boxes(blocks@).subrange(0, i as int),
        decreases blocks@.len() - i,
    {
        boxes.push(blocks[i].bbox);
        proof {
            assert(boxes@ =~= block_boxes(blocks@).subrange(0, i as int + 1));
        }
        i = i + 1;
    }
    assert(block_boxes(blocks@).subrange(0, blocks@.len() as int) =~= block_boxes(blocks@));
    boxes
}

/// The values in ascending order.
pub fn sort_values(values: &Vec<i64>) -> (sorted: Vec<i64>)
    ensures
        sorted@ == sorted_values(values@),
        sorted@.len() == values@.len(),
        coords_ok(values@) ==> coords_ok(sorted@),
        forall|i: int| 0 <= i < sorted@.len() ==> values@.contains(#[trigger] sorted@[i]),
        forall|i: int, j: int| 0 <= i <= j < sorted@.len() ==> sorted@[i] <= sorted@[j],
{
    let order = stable_order(values);
    let mut sorted: Vec<i64> = Vec::new();
    let mut i: usize = 0;
    while i < order.len()
        invariant
            i <= order@.len(),
            is_stable_order(values@, order@),
            sorted@ == permute(values@, order@).subrange(0, i as int),
            coords_ok(values@) ==> coords_ok(sorted@),
            forall|k: int| 0 <= k < sorted@.len() ==> values@.contains(#[trigger] sorted@[k]),
        decreases order@.len() - i,
    {
        sorted.push(values[order[i]]);
        proof {
            assert(sorted@ =~= permute(values@, order@).subrange(0, i as int + 1));
        }
        assert(coords_ok(values@) ==> -COORD_LIMIT <= values@[order@[i as int] as int] <= COORD_LIMIT);
        assert(values@.contains(values@[order@[i as int] as int]));
        i = i + 1;
    }
    assert(permute(values@, order@).subrange(0, order@.len() as int) =~= permute(values@, order@));
    proof {
        assert forall|i: int, j: int| 0 <= i <= j < sorted@.len() implies sorted@[i] <= sorted@[j] by {
            if i < j {
                assert(crate::sorting::stable_before(values@, order@[i], order@[j]));
            }
        }
    }
    sorted
}

/// The first box with the smallest x of a non-empty line.
pub fn leftmost_block(blocks: &Vec<Rect>) -> (b: Rect)
    requires
        blocks@.len() > 0,
    ensures
        b == leftmost(blocks@),
{
    let n = blocks.len();
    let mut first = blocks[0];
    assert(blocks@.subrange(0, 1) =~= seq![blocks@[0]]);
    let mut i: usize = 1;
    while i < n
        invariant
            n == blocks@.len(),
            1 <= i <= n,
            first == leftmost(blocks@.subrange(0, i as int)),
        decreases n - i,
    {
        let b = blocks[i];
        proof {
            let cur = blocks@.subrange(0, i as int + 1);
            assert(cur.drop_last() =~= blocks@.subrange(0, i as int));
            assert(cur.last() == b);
        }
        if b.x < first.x {
            first = b;
        }
        i = i + 1;
    }
    assert(blocks@.subrange(0, n as int) =~= blocks@);
    first
}

impl LineInfo {
    /// Summarises a non-empty line of boxes.
    pub fn from_blocks(blocks: Vec<Rect>) -> (l: LineInfo)
        requires
            blocks@.len() > 0,
            all_wf(blocks@),
        ensures
            line_view(l) == line_summary(blocks@),
            line_ok(line_view(l)),
    {
        let n = blocks.len();
        assert(blocks@[0].wf());
        let mut first = blocks[0];
        let mut top = blocks[0].y;
        let mut right: i64 = if blocks[0].x + blocks[0].width > 0 {
            blocks[0].x + blocks[0].width
        } else {
            0
        };
        assert(blocks@.subrange(0, 1) =~= seq![blocks@[0]]);
        assert(blocks@.subrange(0, 1).drop_last() =~= Seq::<Rect>::empty());
        assert(right_extent(Seq::<Rect>::empty()) == 0);
        assert(blocks@.subrange(0, 1).last() == blocks@[0]);
        assert(right_extent(blocks@.subrange(0, 1)) == max_int(0, blocks@[0].right()));
        let mut i: usize = 1;
        while i < n
            invariant
                n == blocks@.len(),
                1 <= i <= n,
                all_wf(blocks@),
                first == leftmost(blocks@.subrange(0, i as int)),
                top == top_y(blocks@.subrange(0, i as int)),
                right == right_extent(blocks@.subrange(0, i as int)),
                first.wf(),
                0 <= right <= COORD_LIMIT,
                -COORD_LIMIT <= top <= COORD_LIMIT,
                first.right() <= right,
                top <= first.y,
            decreases n - i,
        {
            let b = blocks[i];
            proof {
                let cur = blocks@.subrange(0, i as int + 1);
                assert(cur.drop_last() =~= blocks@.subrange(0, i as int));
                assert(cur.last() == b);
                assert(b.wf());
            }
            if b.x < first.x {
                first = b;
            }
            if b.y < top {
                top = b.y;
            }
            if b.x + b.width > right {
                right = b.x + b.width;
            }
            i = i + 1;
        }
        assert(blocks@.subrange(0, n as int) =~= blocks@);
        LineInfo {
            x_start: first.x,
            y: top,
            width: right - first.x,
            first_block_width: first.width,
            blocks,
        }
    }
}

impl QuestionLocator {
    /// Groups the blocks into text lines: in y order, a block joins the
    /// current line when its y is within 0.7 × the average block height of
    /// the y of the line's first block.
    pub fn group_blocks_into_lines(&self, blocks: &[TextBlock]) -> (lines: Vec<Vec<Rect>>)
        requires
            all_wf(block_boxes(blocks@)),
        ensures
            line_views(lines@) == page_lines(block_boxes(blocks@)),
            lines_wf(line_views(lines@)),
            nonempty_lines(line_views(lines@)),
    {
        let mut lines: Vec<Vec<Rect>> = Vec::new();
        if blocks.len() == 0 {
            assert(line_views(lines@) =~= Seq::<Seq<Rect>>::empty());
            return lines;
        }
        let boxes = boxes_of(blocks);
        let sorted = sort_rects_by_y(boxes.as_slice());
        proof {
            lemma_permute_wf(boxes@, stable_order_of(ys(boxes@)));
        }
        let total = total_height(boxes.as_slice());
        let num: i128 = 7 * total;
        let den: i128 = 10 * (boxes.len() as i128);
        let mut current: Vec<Rect> = Vec::new();
        let mut i: usize = 0;
        while i < sorted.len()
            invariant
                i <= sorted@.len(),
                all_wf(sorted@),
                (line_views(lines@), current@) == line_scan(
                    sorted@.subrange(0, i as int),
                    num as int,
                    den as int,
                ),
                lines_wf(line_views(lines@)),
                nonempty_lines(line_views(lines@)),
                all_wf(current@),
                0 <= den <= 10 * 18446744073709551616,
            decreases sorted@.len() - i,
        {
            let b = sorted[i];
            let ghost prev = sorted@.subrange(0, i as int);
            let ghost before = lines@;
            proof {
                let cur = sorted@.subrange(0, i as int + 1);
                assert(cur.drop_last() =~= prev);
                assert(cur.last() == b);
                assert(b.wf());
            }
            if current.len() == 0 {
                current.push(b);
                assert(current@ =~= seq![b]);
            } else {
                let y0 = current[0].y;
                proof {
                    assert(current@[0].wf());
                }
                let d: i64 = if b.y >= y0 {
                    b.y - y0
                } else {
                    y0 - b.y
                };
                proof {
                    assert(den * (d as int) <= 10 * 18446744073709551616 * 2147483648) by (
                    nonlinear_arith)
                        requires
                            0 <= den <= 10 * 18446744073709551616,
                            0 <= d <= 2147483648,
                    ;
                }
                if den * (d as i128) <= num {
                    current.push(b);
                } else {
                    let finished = current;
                    lines.push(finished);
                    current = Vec::new();
                    current.push(b);
                    proof {
                        assert(line_views(lines@) =~= line_views(before).push(finished@));
                        assert(current@ =~= seq![b]);
                    }
                }
            }
            i = i + 1;
        }
        assert(sorted@.subrange(0, sorted@.len() as int) =~= sorted@);
        if current.len() > 0 {
            let ghost before = lines@;
            let finished = current;
            lines.push(finished);
            proof {
                assert(line_views(lines@) =~= line_views(before).push(finished@));
            }
        }
        lines
    }

    /// The gap, in tenths of a pixel, that separates continuation lines from
    /// the start of a new question (see [`gap_threshold_tenths`]).
    pub fn find_gap_threshold(&self, gaps: &Vec<i64>) -> (t: i128)
        ensures
            t == gap_threshold_tenths(gaps@),
    {
        let s = sort_values(gaps);
        let n = s.len();
        if n == 0 {
            return 200;
        }
        if n < 2 || s[n - 1] == s[0] {
            return 8 * (s[0] as i128);
        }
        let three_min: i128 = 3 * (s[0] as i128);
        let bound: i128 = if three_min >= 50 {
            three_min
        } else {
            50
        };
        let mut i: usize = 1;
        let mut found: Option<usize> = None;
        while i < n && found.is_none()
            invariant
                n == s@.len(),
                n >= 2,
                1 <= i <= n,
                found is None ==> first_jump_from(s@, bound as int, 1) == first_jump_from(
                    s@,
                    bound as int,
                    i as int,
                ),
                found matches Some(j) ==> first_jump_from(s@, bound as int, 1) == Some(j as int)
                    && 1 <= j < n,
            decreases n - i + (if found is None { 1int } else { 0int }),
        {
            let step: i128 = 10 * ((s[i] as i128) - (s[i - 1] as i128));
            if step >= bound {
                found = Some(i);
            } else {
                i = i + 1;
            }
        }
        let t: i128 = match found {
            Some(j) => 5 * ((s[j - 1] as i128) + (s[j] as i128)),
            None => 8 * (s[n / 2] as i128),
        };
        if t >= 150 {
            t
        } else {
            150
        }
    }

    /// The dominant value of a list, as a fraction `(sum, count)`: the mean
    /// of the values within `tol_num / tol_den` of the first value that has
    /// the most such neighbours.
    pub fn find_dominant_x(&self, sorted_xs: &[i64], tol_num: i64, tol_den: u32) -> (r: (
        i128,
        i128,
    ))
        ensures
            (r.0 as int, r.1 as int) == dominant_x(sorted_xs@, tol_num as int, tol_den as int),
            coords_ok(sorted_xs@) ==> -r.1 * COORD_LIMIT <= r.0 <= r.1 * COORD_LIMIT,
            0 <= r.1 <= sorted_xs@.len() + 1,
    {
        let n = sorted_xs.len();
        if n == 0 {
            return (0, 1);
        }
        let mut best: usize = 0;
        let mut best_count: i128 = 0;
        let mut i: usize = 0;
        while i < n
            invariant
                n == sorted_xs@.len(),
                i <= n,
                (best as int, best_count as int) == densest(
                    sorted_xs@,
                    tol_num as int,
                    tol_den as int,
                    i as int,
                ),
                best < n,
            decreases n - i,
        {
            let (_, count) = within_stats(sorted_xs, sorted_xs[i], tol_num, tol_den);
            if count > best_count {
                best = i;
                best_count = count;
            }
            i = i + 1;
        }
        within_stats(sorted_xs, sorted_xs[best], tol_num, tol_den)
    }
}

/// The sum and the number of the values within `num / den` of `x`.
fn within_stats(xs: &[i64], x: i64, num: i64, den: u32) -> (r: (i128, i128))
    ensures
        r.0 == sum_within(xs@, x as int, num as int, den as int),
        r.1 == count_within(xs@, x as int, num as int, den as int),
        0 <= r.1 <= xs@.len(),
        coords_ok(xs@) ==> -r.1 * COORD_LIMIT <= r.0 <= r.1 * COORD_LIMIT,
{
    let n = xs.len();
    let mut sum: i128 = 0;
    let mut count: i128 = 0;
    let mut i: usize = 0;
    while i < n
        invariant
            n == xs@.len(),
            i <= n,
            sum == sum_within(xs@.subrange(0, i as int), x as int, num as int, den as int),
            count == count_within(xs@.subrange(0, i as int), x as int, num as int, den as int),
            0 <= count <= i,
            -count * 9223372036854775808 <= sum <= count * 9223372036854775808,
            coords_ok(xs@) ==> -count * COORD_LIMIT <= sum <= count * COORD_LIMIT,
        decreases n - i,
    {
        let v = xs[i];
        proof {
            let cur = xs@.subrange(0, i as int + 1);
            assert(cur.drop_last() =~= xs@.subrange(0, i as int));
            assert(cur.last() == v);
            assert((count + 1) * 9223372036854775808 <= usize::MAX * 9223372036854775808)
                by (nonlinear_arith)
                requires
                    0 <= count + 1 <= usize::MAX,
            ;
        }
        let d: i128 = if (v as i128) >= (x as i128) {
            (v as i128) - (x as i128)
        } else {
            (x as i128) - (v as i128)
        };
        proof {
            assert((den as int) * d <= 4294967296 * 36893488147419103232) by (nonlinear_arith)
                requires
                    0 <= den <= 4294967296,
                    0 <= d <= 36893488147419103232,
            ;
        }
        if (den as i128) * d < (num as i128) {
            sum = sum + v as i128;
            count = count + 1;
        }
        i = i + 1;
    }
    assert(xs@.subrange(0, n as int) =~= xs@);
    (sum, count)
}

} // verus!
