//! Segmentation of a page into questions: the blocks between consecutive
//! question anchors form a question, or, without anchors, paragraphs
//! separated by large vertical gaps do.
use crate::block_detection::{abs_diff, all_wf, sum_heights, xs};
use crate::geometry::{max_int, min_int, Rect, COORD_LIMIT, PPM};
use crate::line_analysis::{block_boxes, right_extent, sort_values, sorted_values};
use crate::sorting::{is_stable_order, permute, stable_order, stable_order_of};
use crate::text::{decimal, decimal_string};
use crate::question_locator::{anchor_boxes_wf, anchor_view, opt_view, AnchorView};
use crate::text::{all_digits, is_ascii_digit, trim_str, trimmed};
use crate::types::{BlockType, QuestionAnchor, QuestionBox, QuestionDebugInfo, TextBlock};
use vstd::prelude::*;

verus! {

/// A text block as plain values: id, box, text, confidence and type.
pub type BlockView = (usize, Rect, Option<Seq<char>>, i64, BlockType);

pub open spec fn block_view(b: TextBlock) -> BlockView {
    (b.id, b.bbox, opt_view(b.text), b.confidence, b.block_type)
}

pub open spec fn block_views(v: Seq<TextBlock>) -> Seq<BlockView> {
    v.map_values(|b: TextBlock| block_view(b))
}

/// The boxes of block views.
pub open spec fn view_boxes(v: Seq<BlockView>) -> Seq<Rect> {
    v.map_values(|b: BlockView| b.1)
}

/// Number of bytes of the UTF-8 encoding of a character.
pub open spec fn utf8_width(c: char) -> int {
    let v = c as u32;
    if v < 0x80 {
        1
    } else if v < 0x800 {
        2
    } else if v < 0x10000 {
        3
    } else {
        4
    }
}

/// Number of bytes of the UTF-8 encoding of a text.
pub open spec fn utf8_length(s: Seq<char>) -> int
    decreases s.len(),
{
    if s.len() == 0 {
        0
    } else {
        utf8_length(s.drop_last()) + utf8_width(s.last())
    }
}

/// A circled number: ① to ⑳ (U+2460–U+2473) or ㉑ to ㉟ (U+3251–U+325F).
pub open spec fn is_circled_number(c: char) -> bool {
    (0x2460 <= c as u32 <= 0x2473) || (0x3251 <= c as u32 <= 0x325F)
}

/// A sub-question label: after trimming, `(` then ASCII digits then `)`
/// (at least three bytes in all), or a text that starts with a circled number.
pub open spec fn is_sub_question_text(t: Seq<char>) -> bool {
    let s = trimmed(t);
    let parenthesized = s.len() > 0 && s[0] == '(' && utf8_length(s) >= 3 && exists|p: int|
        1 <= p < s.len() && s[p] == ')' && all_digits(s.subrange(1, p));
    let circled = s.len() > 0 && is_circled_number(s[0]);
    parenthesized || circled
}

/// The block's text is a sub-question label.
pub open spec fn is_sub_question_block(b: BlockView) -> bool {
    match b.2 {
        Some(t) => is_sub_question_text(t),
        None => false,
    }
}

/// An answer-option label: after trimming, one of `A`–`F` or `A.`–`D.`.
pub open spec fn is_option_label(t: Seq<char>) -> bool {
    let s = trimmed(t);
    (s.len() == 1 && 'A' <= s[0] <= 'F') || (s.len() == 2 && 'A' <= s[0] <= 'D' && s[1] == '.')
}

/// The block's text is an answer-option label.
pub open spec fn is_option_block(b: BlockView) -> bool {
    match b.2 {
        Some(t) => is_option_label(t),
        None => false,
    }
}

/// Some block's text is an answer-option label.
pub open spec fn has_option_block(blocks: Seq<BlockView>) -> bool {
    exists|i: int| 0 <= i < blocks.len() && is_option_block(#[trigger] blocks[i])
}

/// Sum of the values.
pub open spec fn sum_of(s: Seq<i64>) -> int
    decreases s.len(),
{
    if s.len() == 0 {
        0
    } else {
        sum_of(s.drop_last()) + s.last()
    }
}

/// Sum of the squares of the values.
pub open spec fn sum_of_squares(s: Seq<i64>) -> int
    decreases s.len(),
{
    if s.len() == 0 {
        0
    } else {
        sum_of_squares(s.drop_last()) + s.last() * s.last()
    }
}

/// Sum of the squared deviations of the values from `q`.
pub open spec fn sum_sq_dev(s: Seq<i64>, q: int) -> int
    decreases s.len(),
{
    if s.len() == 0 {
        0
    } else {
        sum_sq_dev(s.drop_last(), q) + (s.last() - q) * (s.last() - q)
    }
}

proof fn lemma_sum_sq_dev(s: Seq<i64>, q: int)
    ensures
        sum_sq_dev(s, q) == sum_of_squares(s) - 2 * q * sum_of(s) + (s.len() as int) * q * q,
    decreases s.len(),
{
    if s.len() > 0 {
        let t = s.drop_last();
        let b = s.last() as int;
        lemma_sum_sq_dev(t, q);
        assert((b - q) * (b - q) == b * b - 2 * q * b + q * q) by (nonlinear_arith);
        assert((t.len() as int + 1) * q * q == (t.len() as int) * q * q + q * q) by (nonlinear_arith);
        assert(2 * q * (sum_of(t) + b) == 2 * q * sum_of(t) + 2 * q * b) by (nonlinear_arith);
    }
}

/// `n · Σ(x − q)² = (n Σx² − (Σx)²) + (Σx − q n)²`.
proof fn lemma_deviation_identity(s: Seq<i64>, q: int)
    ensures
        (s.len() as int) * sum_sq_dev(s, q) == ((s.len() as int) * sum_of_squares(s) - sum_of(s)
            * sum_of(s)) + (sum_of(s) - q * (s.len() as int)) * (sum_of(s) - q * (s.len() as int)),
{
    lemma_sum_sq_dev(s, q);
    let n = s.len() as int;
    let a = sum_of_squares(s);
    let b = sum_of(s);
    assert(n * (a - 2 * q * b + n * q * q) == (n * a - b * b) + (b - q * n) * (b - q * n)) by (
    nonlinear_arith);
}

proof fn lemma_ceil_bounds(a: int, n: int, c: int)
    requires
        n >= 1,
        a >= 0,
        c == (a + n - 1) / n,
    ensures
        (c - 1) * n < a <= c * n,
{
    assert((c - 1) * n < a <= c * n) by (nonlinear_arith)
        requires
            n >= 1,
            a >= 0,
            c == (a + n - 1) / n,
    ;
}

/// With `n·t = d + r²` and `c = ⌈r² / n⌉`: `d < k n²` exactly when
/// `t − c < k n`.
proof fn lemma_threshold_equiv(d: int, n: int, t: int, r: int, c: int, k: int)
    requires
        n >= 1,
        n * t == d + r * r,
        (c - 1) * n < r * r <= c * n,
    ensures
        (d < k * n * n) == (t - c < k * n),
{
    if d < k * n * n {
        assert(n * (t - k * n) < r * r) by (nonlinear_arith)
            requires
                n * t == d + r * r,
                d < k * n * n,
        ;
        assert(t - k * n < c) by (nonlinear_arith)
            requires
                n * (t - k * n) < r * r,
                r * r <= c * n,
                n >= 1,
        ;
    }
    if t - c < k * n {
        assert(n * (t - k * n) <= n * (c - 1)) by (nonlinear_arith)
            requires
                t - k * n <= c - 1,
                n >= 1,
        ;
        assert(d < k * n * n) by (nonlinear_arith)
            requires
                n * (t - k * n) <= n * (c - 1),
                (c - 1) * n < r * r,
                n * t == d + r * r,
        ;
    }
}

/// How well the left edges line up, in millionths, from the standard
/// deviation σ of the left edges: 1 for σ < 10 (or fewer than two blocks),
/// 0.8 for σ < 30, 0.6 for σ < 50, else 0.4.  With `n` values,
/// `n² σ² = n Σx² − (Σx)²`.
pub open spec fn consistency_ppm(lefts: Seq<i64>) -> int {
    let n = lefts.len() as int;
    if n < 2 {
        1000000
    } else {
        let d = n * sum_of_squares(lefts) - sum_of(lefts) * sum_of(lefts);
        if d < 100 * n * n {
            1000000
        } else if d < 900 * n * n {
            800000
        } else if d < 2500 * n * n {
            600000
        } else {
            400000
        }
    }
}

/// `0.4 · c`, truncated toward zero.
pub open spec fn four_tenths(c: int) -> int {
    if c >= 0 {
        (4 * c) / 10
    } else {
        -((-4 * c) / 10)
    }
}

/// Confidence of a question region, in millionths: 0.4 × the anchor's
/// confidence, 0.3 × the left-edge consistency, 0.2 × the block-count score
/// (1 for 1–20 blocks, 0.5 for more, 0.3 for none) and 0.1 × the coverage
/// score `min(1.2 × block heights / region height, 1)`, the region being at
/// least 1 pixel high.  The first and last terms are rounded down.
pub open spec fn question_confidence(anchor_confidence: int, rects: Seq<Rect>, y_start: int, y_end: int) -> int {
    let n = rects.len();
    let count_score = if 1 <= n <= 20 {
        200000int
    } else if n > 20 {
        100000
    } else {
        60000
    };
    let region = max_int(y_end - y_start, 1);
    let coverage = min_int((120000 * sum_heights(rects)) / region, 100000);
    four_tenths(anchor_confidence) + (3 * consistency_ppm(xs(rects))) / 10 + count_score + coverage
}

/// The smallest left edge of a non-empty list of boxes.
pub open spec fn min_left(s: Seq<Rect>) -> int
    decreases s.len(),
{
    if s.len() <= 1 {
        s[0].x as int
    } else {
        min_int(min_left(s.drop_last()), s.last().x as int)
    }
}

/// The region of a question: from the anchor's top to `y_end` (at least the
/// anchor's height), spanning the blocks and the anchor horizontally; the
/// anchor's column down to `y_end` without blocks.
pub open spec fn region_box(rects: Seq<Rect>, a: Rect, y_end: int) -> Rect {
    if rects.len() == 0 {
        Rect { x: a.x, y: a.y, width: a.width, height: (y_end - a.y) as i64 }
    } else {
        let left = min_int(min_left(rects), a.x as int);
        let right = max_int(right_extent(rects), a.right());
        Rect {
            x: left as i64,
            y: a.y,
            width: (right - left) as i64,
            height: max_int(y_end - a.y, a.height as int) as i64,
        }
    }
}

/// The bottom of the lowest box, and at least 0.
pub open spec fn bottom_extent(s: Seq<Rect>) -> int
    decreases s.len(),
{
    if s.len() == 0 {
        0
    } else {
        max_int(bottom_extent(s.drop_last()), s.last().bottom())
    }
}

/// The block belongs to the question anchored at `a` whose rows run from
/// `y_start` (included) to `y_end` (excluded): it lies in the anchor's column
/// (left of `2·a.x + a.width`, right edge past 0), and its vertical centre is
/// in the rows, or its top is and it is a sub-question label.
pub open spec fn belongs_to_question(b: BlockView, a: Rect, y_start: int, y_end: int) -> bool {
    let r = b.1;
    let in_column = r.x < 2 * a.x + a.width && r.right() > 0;
    let centre2 = 2 * r.y + r.height;
    if 2 * y_start <= centre2 && centre2 < 2 * y_end {
        in_column
    } else {
        y_start <= r.y && r.y < y_end && is_sub_question_block(b) && in_column
    }
}

/// The tops of the blocks.
pub open spec fn block_tops(v: Seq<BlockView>) -> Seq<i64> {
    v.map_values(|b: BlockView| b.1.y)
}

/// The blocks in stable ascending order of their top.
pub open spec fn sort_blocks(v: Seq<BlockView>) -> Seq<BlockView> {
    permute(v, stable_order_of(block_tops(v)))
}

/// The blocks of a question, in order of their tops.
pub open spec fn question_blocks(blocks: Seq<BlockView>, a: Rect, y_start: int, y_end: int) -> Seq<
    BlockView,
> {
    sort_blocks(blocks.filter(|b: BlockView| belongs_to_question(b, a, y_start, y_end)))
}

/// The ids of the blocks.
pub open spec fn block_ids(v: Seq<BlockView>) -> Seq<usize> {
    v.map_values(|b: BlockView| b.0)
}

/// Debug information as plain values: block count, method, options, image.
pub type DebugView = (usize, Seq<char>, bool, bool);

/// A question region as plain values.
pub type BoxView = (
    usize,
    Seq<char>,
    Rect,
    Option<Rect>,
    i64,
    Option<Seq<char>>,
    Seq<usize>,
    Option<DebugView>,
);

pub open spec fn debug_view(d: Option<QuestionDebugInfo>) -> Option<DebugView> {
    match d {
        Some(i) => Some((i.num_blocks, i.detection_method@, i.has_options, i.has_image)),
        None => None,
    }
}

pub open spec fn box_view(q: QuestionBox) -> BoxView {
    (
        q.page_index,
        q.question_id@,
        q.bounding_box,
        q.title_anchor_box,
        q.confidence,
        opt_view(q.recognized_title_text),
        q.block_ids@,
        debug_view(q.debug_info),
    )
}

pub open spec fn box_views(v: Seq<QuestionBox>) -> Seq<BoxView> {
    v.map_values(|q: QuestionBox| box_view(q))
}

/// Where question `i` ends: the next anchor's top, or for the last question
/// the bottom of the lowest block.
pub open spec fn question_end(anchors: Seq<AnchorView>, i: int, blocks: Seq<BlockView>) -> int {
    if i + 1 < anchors.len() {
        anchors[i + 1].1.y as int
    } else {
        bottom_extent(view_boxes(blocks))
    }
}

/// The region of question `i`, if it has blocks: its region ends 3 pixels
/// above the next anchor (at the lowest block for the last question).
pub open spec fn anchored_question(
    anchors: Seq<AnchorView>,
    i: int,
    blocks: Seq<BlockView>,
    include_debug: bool,
) -> Option<BoxView> {
    let a = anchors[i];
    let y_start = a.1.y as int;
    let y_end = question_end(anchors, i, blocks);
    let qb = question_blocks(blocks, a.1, y_start, y_end);
    if qb.len() == 0 {
        None
    } else {
        let rects = view_boxes(qb);
        let margin = if i + 1 < anchors.len() {
            3int
        } else {
            0int
        };
        Some(
            (
                0usize,
                a.0,
                region_box(rects, a.1, y_end - margin),
                Some(a.1),
                question_confidence(a.2 as int, rects, y_start, y_end) as i64,
                Some(a.3),
                block_ids(qb),
                if include_debug {
                    Some((qb.len() as usize, "anchor_based"@, has_option_block(qb), false))
                } else {
                    None
                },
            ),
        )
    }
}

/// The question regions of the first `k` anchors.
pub open spec fn segmented(
    blocks: Seq<BlockView>,
    anchors: Seq<AnchorView>,
    include_debug: bool,
    k: int,
) -> Seq<BoxView>
    decreases k,
{
    if k <= 0 {
        Seq::empty()
    } else {
        let r = segmented(blocks, anchors, include_debug, k - 1);
        match anchored_question(anchors, k - 1, blocks, include_debug) {
            Some(q) => r.push(q),
            None => r,
        }
    }
}

/// Every question's confidence lies between 0 and 1 (in millionths).
pub open spec fn question_confidences_in_range(qs: Seq<BoxView>) -> bool {
    forall|i: int| 0 <= i < qs.len() ==> 0 <= #[trigger] qs[i].4 <= PPM
}

/// Every id is the id of one of the blocks.
pub open spec fn ids_from(ids: Seq<usize>, blocks: Seq<BlockView>) -> bool {
    forall|k: int| 0 <= k < ids.len() ==> block_ids(blocks).contains(#[trigger] ids[k])
}

/// The positive gaps between the bottom of a block and the top of the next,
/// among the first `k` boxes.
pub open spec fn positive_gaps(s: Seq<Rect>, k: int) -> Seq<i64>
    decreases k,
{
    if k <= 1 {
        Seq::empty()
    } else {
        let r = positive_gaps(s, k - 1);
        let g = s[k - 1].y - s[k - 2].bottom();
        if g > 0 {
            r.push(g as i64)
        } else {
            r
        }
    }
}

/// The paragraph gap: twice the median positive gap between consecutive
/// blocks in y order, at least 20; 50 with fewer than two blocks or no
/// positive gap.
pub open spec fn adaptive_threshold(blocks: Seq<BlockView>) -> int {
    if blocks.len() < 2 {
        50
    } else {
        let s = view_boxes(sort_blocks(blocks));
        let gaps = positive_gaps(s, s.len() as int);
        if gaps.len() == 0 {
            50
        } else {
            let g = sorted_values(gaps);
            let m = g.len() as int;
            let twice_median = if m % 2 == 0 {
                g[m / 2 - 1] + g[m / 2]
            } else {
                2 * g[m / 2]
            };
            max_int(twice_median, 20)
        }
    }
}

/// Paragraph scan of the first `k` blocks, in list order: the finished
/// paragraphs, the current one and the bottom of the last block.  A block
/// starts a new paragraph when its top is more than `t` below that bottom.
pub open spec fn paragraph_scan(blocks: Seq<BlockView>, t: int, k: int) -> (
    Seq<Seq<BlockView>>,
    Seq<BlockView>,
    int,
)
    decreases k,
{
    if k <= 0 {
        (Seq::empty(), Seq::empty(), 0)
    } else {
        let (ps, cur, last) = paragraph_scan(blocks, t, k - 1);
        let b = blocks[k - 1];
        if cur.len() > 0 && b.1.y - last > t {
            (ps.push(cur), seq![b], b.1.bottom())
        } else {
            (ps, cur.push(b), b.1.bottom())
        }
    }
}

/// The paragraphs of the blocks.
pub open spec fn paragraphs(blocks: Seq<BlockView>, t: int) -> Seq<Seq<BlockView>> {
    let (ps, cur, _) = paragraph_scan(blocks, t, blocks.len() as int);
    if cur.len() > 0 {
        ps.push(cur)
    } else {
        ps
    }
}

/// The smallest box holding all the boxes (an empty box at the origin for
/// none).
pub open spec fn union_all(s: Seq<Rect>) -> Rect
    decreases s.len(),
{
    if s.len() == 0 {
        Rect { x: 0, y: 0, width: 0, height: 0 }
    } else if s.len() == 1 {
        s[0]
    } else {
        union_all(s.drop_last()).spec_union(&s.last())
    }
}

/// The question region of a paragraph numbered `index`.
pub open spec fn paragraph_box(p: Seq<BlockView>, index: nat) -> BoxView {
    (
        0usize,
        decimal(index),
        union_all(view_boxes(p)),
        None,
        500000,
        None,
        block_ids(p),
        Some((p.len() as usize, "fallback_paragraph"@, false, false)),
    )
}

/// The question regions of the paragraphs, numbered from 1.
pub open spec fn fallback_questions(blocks: Seq<BlockView>) -> Seq<BoxView> {
    if blocks.len() == 0 {
        Seq::empty()
    } else {
        let ps = paragraphs(blocks, adaptive_threshold(blocks));
        Seq::new(ps.len(), |i: int| paragraph_box(ps[i], (i + 1) as nat))
    }
}

/// Question segmenter.
pub struct QuestionSegmenter {}

impl Default for QuestionSegmenter {
    fn default() -> (s: Self)
        ensures
            s == (QuestionSegmenter {}),
    {
        QuestionSegmenter::new()
    }
}

impl QuestionSegmenter {
    pub fn new() -> (s: Self)
        ensures
            s == (QuestionSegmenter {}),
    {
        QuestionSegmenter {  }
    }

    /// Whether the block's text is a sub-question label such as `(1)` or `①`.
    pub fn is_sub_question(&self, block: &TextBlock) -> (b: bool)
        ensures
            b == is_sub_question_block(block_view(*block)),
    {
        match &block.text {
            None => false,
            Some(text) => {
                let t = trim_str(text.as_str());
                let n = t.unicode_len();
                let ghost s = t@;
                if n > 0 && t.get_char(0) == '(' && at_least_three_bytes(t) {
                    let mut k: usize = 1;
                    while k < n && t.get_char(k) != ')'
                        invariant
                            n == s.len(),
                            s == t@,
                            1 <= k <= n,
                            forall|q: int| 1 <= q < k ==> #[trigger] s[q] != ')',
                        decreases n - k,
                    {
                        k = k + 1;
                    }
                    if k < n {
                        let mut all = true;
                        let mut j: usize = 1;
                        while j < k
                            invariant
                                n == s.len(),
                                s == t@,
                                1 <= j <= k < n,
                                all == all_digits(s.subrange(1, j as int)),
                            decreases k - j,
                        {
                            let c = t.get_char(j);
                            proof {
                                let a = s.subrange(1, j as int);
                                let b = s.subrange(1, j as int + 1);
                                assert(b =~= a.push(c));
                                if all_digits(b) {
                                    assert forall|q: int| 0 <= q < a.len() implies is_ascii_digit(
                                        #[trigger] a[q],
                                    ) by {
                                        assert(a[q] == b[q]);
                                    }
                                    assert(is_ascii_digit(b[a.len() as int]));
                                }
                                if all_digits(a) && is_ascii_digit(c) {
                                    assert forall|q: int| 0 <= q < b.len() implies is_ascii_digit(
                                        #[trigger] b[q],
                                    ) by {
                                        if q < a.len() {
                                            assert(a[q] == b[q]);
                                        }
                                    }
                                }
                            }
                            if !('0' <= c && c <= '9') {
                                all = false;
                            }
                            j = j + 1;
                        }
                        if all {
                            return true;
                        }
                        proof {
                            assert forall|p: int|
                                1 <= p < s.len() && s[p] == ')' implies !all_digits(s.subrange(1, p)) by {
                                if p > k {
                                    assert(s.subrange(1, p)[k - 1] == s[k as int]);
                                } else if p < k {
                                    assert(s[p] != ')');
                                } else {
                                }
                            }
                        }
                    } else {
                        proof {
                            assert forall|p: int| 1 <= p < s.len() implies s[p] != ')' by {}
                        }
                    }
                }
                if n > 0 {
                    let c = t.get_char(0);
                    if ('\u{2460}' <= c && c <= '\u{2473}') || ('\u{3251}' <= c && c <= '\u{325F}') {
                        return true;
                    }
                }
                false
            },
        }
    }

    /// Whether some block's text is an answer-option label (`A`–`F`,
    /// `A.`–`D.`).
    pub fn has_options(&self, blocks: &[TextBlock]) -> (b: bool)
        ensures
            b == has_option_block(block_views(blocks@)),
    {
        let ghost bv = block_views(blocks@);
        let mut i: usize = 0;
        while i < blocks.len()
            invariant
                i <= blocks@.len(),
                bv == block_views(blocks@),
                forall|k: int| 0 <= k < i ==> !is_option_block(#[trigger] bv[k]),
            decreases blocks@.len() - i,
        {
            assert(bv[i as int] == block_view(blocks@[i as int]));
            match &blocks[i].text {
                Some(text) => {
                    let t = trim_str(text.as_str());
                    let n = t.unicode_len();
                    let label = if n == 1 {
                        let c = t.get_char(0);
                        'A' <= c && c <= 'F'
                    } else if n == 2 {
                        let c = t.get_char(0);
                        'A' <= c && c <= 'D' && t.get_char(1) == '.'
                    } else {
                        false
                    };
                    if label {
                        return true;
                    }
                },
                None => {},
            }
            i = i + 1;
        }
        false
    }

    /// How well the blocks' left edges line up, in millionths (see
    /// [`consistency_ppm`]).  The comparisons `n²σ² < k·n²` are made
    /// exactly through the deviations from the floor of the mean.
    pub fn calculate_geometric_consistency(&self, blocks: &[TextBlock]) -> (c: i64)
        requires
            all_wf(block_boxes(blocks@)),
        ensures
            c == consistency_ppm(xs(block_boxes(blocks@))),
    {
        let ghost lefts = xs(block_boxes(blocks@));
        let n = blocks.len();
        if n < 2 {
            return 1000000;
        }
        let mut s1: i128 = 0;
        let mut i: usize = 0;
        while i < n
            invariant
                n == blocks@.len(),
                i <= n,
                lefts == xs(block_boxes(blocks@)),
                all_wf(block_boxes(blocks@)),
                s1 == sum_of(lefts.subrange(0, i as int)),
                -(i * COORD_LIMIT) <= s1 <= i * COORD_LIMIT,
            decreases n - i,
        {
            let x = blocks[i].bbox.x;
            proof {
                let cur = lefts.subrange(0, i as int + 1);
                assert(cur.drop_last() =~= lefts.subrange(0, i as int));
                assert(cur.last() == x);
                assert(block_boxes(blocks@)[i as int].wf());
                assert((i + 1) * COORD_LIMIT == i * COORD_LIMIT + COORD_LIMIT) by (nonlinear_arith);
            }
            s1 = s1 + x as i128;
            i = i + 1;
        }
        assert(lefts.subrange(0, n as int) =~= lefts);
        let nn = n as i128;
        let shifted: i128 = s1 + nn * (COORD_LIMIT as i128);
        let q0: i128 = shifted / nn;
        let r: i128 = shifted % nn;
        let q: i128 = q0 - COORD_LIMIT as i128;
        proof {
            assert(nn * (2 * COORD_LIMIT) == nn * COORD_LIMIT + nn * COORD_LIMIT) by (nonlinear_arith);
            assert(0 <= shifted <= nn * (2 * COORD_LIMIT));
            assert(0 <= q0 <= 2 * COORD_LIMIT) by (nonlinear_arith)
                requires
                    0 <= shifted <= nn * (2 * COORD_LIMIT),
                    nn >= 1,
                    q0 == shifted / nn,
            ;
            assert(shifted == q0 * nn + r && 0 <= r < nn) by (nonlinear_arith)
                requires
                    q0 == shifted / nn,
                    r == shifted % nn,
                    nn >= 1,
                    shifted >= 0,
            ;
            assert(s1 - q * nn == r) by (nonlinear_arith)
                requires
                    shifted == s1 + nn * COORD_LIMIT,
                    shifted == q0 * nn + r,
                    q == q0 - COORD_LIMIT,
            ;
        }
        let mut t: i128 = 0;
        let mut k: usize = 0;
        while k < n
            invariant
                n == blocks@.len(),
                k <= n,
                lefts == xs(block_boxes(blocks@)),
                all_wf(block_boxes(blocks@)),
                -COORD_LIMIT <= q <= COORD_LIMIT,
                t == sum_sq_dev(lefts.subrange(0, k as int), q as int),
                0 <= t <= k * (4 * COORD_LIMIT * COORD_LIMIT),
            decreases n - k,
        {
            let x = blocks[k].bbox.x;
            proof {
                let cur = lefts.subrange(0, k as int + 1);
                assert(cur.drop_last() =~= lefts.subrange(0, k as int));
                assert(cur.last() == x);
                assert(block_boxes(blocks@)[k as int].wf());
                assert(0 <= (x - q) * (x - q) <= 4 * COORD_LIMIT * COORD_LIMIT) by (nonlinear_arith)
                    requires
                        -COORD_LIMIT <= x <= COORD_LIMIT,
                        -COORD_LIMIT <= q <= COORD_LIMIT,
                ;
                assert((k + 1) * (4 * COORD_LIMIT * COORD_LIMIT) == k * (4 * COORD_LIMIT
                    * COORD_LIMIT) + 4 * COORD_LIMIT * COORD_LIMIT) by (nonlinear_arith);
                assert(k * (4 * COORD_LIMIT * COORD_LIMIT) <= 18446744073709551616 * (4
                    * COORD_LIMIT * COORD_LIMIT)) by (nonlinear_arith)
                    requires
                        k <= 18446744073709551616,
                ;
            }
            let dev = (x as i128) - q;
            t = t + dev * dev;
            k = k + 1;
        }
        assert(lefts.subrange(0, n as int) =~= lefts);
        let ru = r as u128;
        let nu = nn as u128;
        proof {
            assert(ru * ru + nu - 1 <= nu * nu - 1) by (nonlinear_arith)
                requires
                    0 <= ru < nu,
            ;
            assert(nu * nu <= 18446744073709551615 * 18446744073709551615) by (nonlinear_arith)
                requires
                    0 <= nu <= 18446744073709551615,
            ;
            assert(ru * ru <= nu * nu) by (nonlinear_arith)
                requires
                    0 <= ru < nu,
            ;
        }
        let ceil_ratio: u128 = (ru * ru + nu - 1) / nu;
        proof {
            assert(ceil_ratio <= nu - 1) by (nonlinear_arith)
                requires
                    ceil_ratio == (ru * ru + nu - 1) / (nu as int),
                    ru * ru + nu - 1 <= nu * nu - 1,
                    nu >= 1,
            ;
        }
        proof {
            lemma_deviation_identity(lefts, q as int);
            lemma_ceil_bounds(ru as int * ru as int, nu as int, ceil_ratio as int);
        }
        let f: i128 = t - ceil_ratio as i128;
        let result: i64 = if f < 100 * nn {
            1000000
        } else if f < 900 * nn {
            800000
        } else if f < 2500 * nn {
            600000
        } else {
            400000
        };
        proof {
            let d = (n as int) * sum_of_squares(lefts) - sum_of(lefts) * sum_of(lefts);
            lemma_threshold_equiv(d, n as int, t as int, r as int, ceil_ratio as int, 100);
            lemma_threshold_equiv(d, n as int, t as int, r as int, ceil_ratio as int, 900);
            lemma_threshold_equiv(d, n as int, t as int, r as int, ceil_ratio as int, 2500);
        }
        result
    }

    /// The region of a question (see [`region_box`]).
    pub fn calculate_bounding_box(&self, blocks: &[TextBlock], anchor: &QuestionAnchor, y_end: i64) -> (r:
        Rect)
        requires
            all_wf(block_boxes(blocks@)),
            anchor.bbox.wf(),
            -2 * COORD_LIMIT <= y_end <= 2 * COORD_LIMIT,
        ensures
            r == region_box(block_boxes(blocks@), anchor.bbox, y_end as int),
            r.y == anchor.bbox.y,
            r.x <= anchor.bbox.x,
            anchor.bbox.right() <= r.x + r.width,
            forall|i: int|
                0 <= i < blocks@.len() ==> r.x <= (#[trigger] blocks@[i]).bbox.x && blocks@[i].bbox.right()
                    <= r.x + r.width,
    {
        proof {
            let rs = block_boxes(blocks@);
            let rb = region_box(rs, anchor.bbox, y_end as int);
            crate::laws::law_region_holds_blocks(rs, anchor.bbox, y_end as int);
            assert forall|i: int| 0 <= i < blocks@.len() implies rb.x <= (#[trigger] blocks@[i]).bbox.x
                && blocks@[i].bbox.right() <= rb.x + rb.width by {
                assert(rs[i] == blocks@[i].bbox);
            }
        }
        let a = anchor.bbox;
        if blocks.len() == 0 {
            return Rect::new(a.x, a.y, a.width, y_end - a.y);
        }
        let ghost rects = block_boxes(blocks@);
        let n = blocks.len();
        assert(rects[0].wf());
        let mut left: i64 = blocks[0].bbox.x;
        let mut right: i64 = if blocks[0].bbox.x + blocks[0].bbox.width > 0 {
            blocks[0].bbox.x + blocks[0].bbox.width
        } else {
            0
        };
        assert(rects.subrange(0, 1) =~= seq![rects[0]]);
        assert(rects.subrange(0, 1).drop_last() =~= Seq::<Rect>::empty());
        assert(right_extent(Seq::<Rect>::empty()) == 0);
        let mut i: usize = 1;
        while i < n
            invariant
                n == blocks@.len(),
                1 <= i <= n,
                rects == block_boxes(blocks@),
                all_wf(rects),
                left == min_left(rects.subrange(0, i as int)),
                right == right_extent(rects.subrange(0, i as int)),
                -COORD_LIMIT <= left <= COORD_LIMIT,
                0 <= right <= COORD_LIMIT,
            decreases n - i,
        {
            let b = blocks[i].bbox;
            proof {
                let cur = rects.subrange(0, i as int + 1);
                assert(cur.drop_last() =~= rects.subrange(0, i as int));
                assert(cur.last() == b);
                assert(b.wf());
            }
            if b.x < left {
                left = b.x;
            }
            if b.x + b.width > right {
                right = b.x + b.width;
            }
            i = i + 1;
        }
        assert(rects.subrange(0, n as int) =~= rects);
        if a.x < left {
            left = a.x;
        }
        if a.x + a.width > right {
            right = a.x + a.width;
        }
        let height = if y_end - a.y > a.height {
            y_end - a.y
        } else {
            a.height
        };
        Rect::new(left, a.y, right - left, height)
    }

    /// The confidence of a question region, in millionths (see
    /// [`question_confidence`]).
    pub fn calculate_confidence(
        &self,
        anchor: &QuestionAnchor,
        blocks: &[TextBlock],
        y_start: i64,
        y_end: i64,
    ) -> (c: i64)
        requires
            all_wf(block_boxes(blocks@)),
            -2 * COORD_LIMIT <= y_start <= 2 * COORD_LIMIT,
            -2 * COORD_LIMIT <= y_end <= 2 * COORD_LIMIT,
        ensures
            c == question_confidence(
                anchor.confidence as int,
                block_boxes(blocks@),
                y_start as int,
                y_end as int,
            ),
            0 <= anchor.confidence <= PPM ==> 0 <= c <= PPM,
    {
        let ac = anchor.confidence as i128;
        let t1: i128 = if ac >= 0 {
            (4 * ac) / 10
        } else {
            let m: i128 = 0 - ac;
            0 - (4 * m) / 10
        };
        let consistency = self.calculate_geometric_consistency(blocks);
        let t2: i128 = (3 * consistency as i128) / 10;
        let n = blocks.len();
        let t3: i128 = if 1 <= n && n <= 20 {
            200000
        } else if n > 20 {
            100000
        } else {
            60000
        };
        let region: i128 = if (y_end as i128) - (y_start as i128) > 1 {
            (y_end as i128) - (y_start as i128)
        } else {
            1
        };
        let boxes = crate::line_analysis::boxes_of(blocks);
        let total = crate::block_detection::total_height(boxes.as_slice());
        let ratio: i128 = (120000 * total) / region;
        let t4: i128 = if ratio < 100000 {
            ratio
        } else {
            100000
        };
        proof {
            assert(0 <= ratio <= 120000 * total) by (nonlinear_arith)
                requires
                    ratio == (120000 * total) / (region as int),
                    region >= 1,
                    total >= 0,
            ;
        }
        (t1 + t2 + t3 + t4) as i64
    }

    /// The blocks of the question anchored at `anchor` whose rows run from
    /// `y_start` to `y_end` (see [`belongs_to_question`]), in order of their
    /// tops.
    pub fn find_question_blocks(
        &self,
        all_blocks: &[TextBlock],
        anchor: &QuestionAnchor,
        y_start: i64,
        y_end: i64,
    ) -> (res: Vec<TextBlock>)
        requires
            all_wf(block_boxes(all_blocks@)),
            anchor.bbox.wf(),
            -2 * COORD_LIMIT <= y_start <= 2 * COORD_LIMIT,
            -2 * COORD_LIMIT <= y_end <= 2 * COORD_LIMIT,
        ensures
            block_views(res@) == question_blocks(
                block_views(all_blocks@),
                anchor.bbox,
                y_start as int,
                y_end as int,
            ),
            res@.len() <= all_blocks@.len(),
            all_wf(block_boxes(res@)),
            forall|i: int|
                0 <= i < res@.len() ==> belongs_to_question(
                    #[trigger] block_views(res@)[i],
                    anchor.bbox,
                    y_start as int,
                    y_end as int,
                ) && block_views(all_blocks@).contains(block_views(res@)[i]),
    {
        let ghost bv = block_views(all_blocks@);
        let ghost f = |b: BlockView| belongs_to_question(b, anchor.bbox, y_start as int, y_end as int);
        let a = anchor.bbox;
        let x_limit = 2 * a.x + a.width;
        let mut picked: Vec<TextBlock> = Vec::new();
        let mut i: usize = 0;
        while i < all_blocks.len()
            invariant
                i <= all_blocks@.len(),
                bv == block_views(all_blocks@),
                f == (|b: BlockView| belongs_to_question(b, anchor.bbox, y_start as int, y_end as int)),
                all_wf(block_boxes(all_blocks@)),
                anchor.bbox.wf(),
                x_limit == 2 * anchor.bbox.x + anchor.bbox.width,
                -2 * COORD_LIMIT <= y_start <= 2 * COORD_LIMIT,
                -2 * COORD_LIMIT <= y_end <= 2 * COORD_LIMIT,
                block_views(picked@) == bv.subrange(0, i as int).filter(f),
                picked@.len() <= i,
                all_wf(block_boxes(picked@)),
                forall|k: int|
                    0 <= k < picked@.len() ==> belongs_to_question(
                        #[trigger] block_views(picked@)[k],
                        anchor.bbox,
                        y_start as int,
                        y_end as int,
                    ) && bv.contains(block_views(picked@)[k]),
            decreases all_blocks@.len() - i,
        {
            let b = &all_blocks[i];
            let r = b.bbox;
            proof {
                assert(block_boxes(all_blocks@)[i as int].wf());
            }
            let centre2 = 2 * r.y + r.height;
            let in_column = r.x < x_limit && r.x + r.width > 0;
            let keep = if 2 * y_start <= centre2 && centre2 < 2 * y_end {
                in_column
            } else if y_start <= r.y && r.y < y_end {
                self.is_sub_question(b) && in_column
            } else {
                false
            };
            let ghost before = picked@;
            if keep {
                let c = copy_block(b);
                picked.push(c);
                proof {
                    assert(block_views(picked@) =~= block_views(before).push(block_view(c)));
                    assert forall|k: int| 0 <= k < picked@.len() implies #[trigger] block_boxes(
                        picked@,
                    )[k].wf() by {
                        if k < before.len() {
                            assert(block_boxes(before)[k].wf());
                        }
                    }
                    assert(bv[i as int] == block_view(*b));
                    assert(keep == belongs_to_question(block_view(*b), anchor.bbox, y_start as int, y_end as int));
                    assert forall|k: int| 0 <= k < picked@.len() implies belongs_to_question(
                        #[trigger] block_views(picked@)[k],
                        anchor.bbox,
                        y_start as int,
                        y_end as int,
                    ) && bv.contains(block_views(picked@)[k]) by {
                        if k < before.len() {
                            assert(block_views(picked@)[k] == block_views(before)[k]);
                        }
                    }
                }
            }
            proof {
                let t = bv.subrange(0, i as int + 1);
                assert(t.drop_last() =~= bv.subrange(0, i as int));
                assert(t.last() == block_view(*b));
                assert(keep == f(block_view(*b)));
                reveal_with_fuel(Seq::filter, 1);
            }
            i = i + 1;
        }
        assert(bv.subrange(0, bv.len() as int) =~= bv);
        let res = sort_blocks_by_y(picked.as_slice());
        proof {
            assert forall|i: int| 0 <= i < res@.len() implies belongs_to_question(
                #[trigger] block_views(res@)[i],
                anchor.bbox,
                y_start as int,
                y_end as int,
            ) && bv.contains(block_views(res@)[i]) by {
                assert(block_views(picked@).contains(block_views(res@)[i]));
                let k = choose|k: int| 0 <= k < block_views(picked@).len() && block_views(picked@)[k]
                    == block_views(res@)[i];
                assert(belongs_to_question(block_views(picked@)[k], anchor.bbox, y_start as int, y_end as int));
            }
        }
        res
    }

    /// Splits the page into questions: question `i` runs from its anchor's
    /// top to the next anchor's top (the last one to the lowest block) and
    /// holds the blocks of [`find_question_blocks`]; anchors without blocks
    /// give no question.
    pub fn segment(&self, blocks: &[TextBlock], anchors: &[QuestionAnchor], include_debug: bool) -> (
        questions: Vec<QuestionBox>)
        requires
            all_wf(block_boxes(blocks@)),
            anchor_boxes_wf(crate::question_locator::anchor_views(anchors@)),
        ensures
            box_views(questions@) == segmented(
                block_views(blocks@),
                crate::question_locator::anchor_views(anchors@),
                include_debug,
                anchors@.len() as int,
            ),
            crate::question_locator::confidences_in_range(crate::question_locator::anchor_views(anchors@))
                ==> question_confidences_in_range(box_views(questions@)),
            forall|q: int|
                0 <= q < questions@.len() ==> ids_from(
                    #[trigger] box_views(questions@)[q].6,
                    block_views(blocks@),
                ),
    {
        let ghost bv = block_views(blocks@);
        let ghost av = crate::question_locator::anchor_views(anchors@);
        proof {
            lemma_view_boxes(blocks@);
        }
        let bottom = lowest_bottom(blocks);
        let n = anchors.len();
        let mut questions: Vec<QuestionBox> = Vec::new();
        let mut i: usize = 0;
        while i < n
            invariant
                n == anchors@.len(),
                i <= n,
                bv == block_views(blocks@),
                av == crate::question_locator::anchor_views(anchors@),
                view_boxes(bv) == block_boxes(blocks@),
                all_wf(block_boxes(blocks@)),
                anchor_boxes_wf(av),
                bottom == bottom_extent(block_boxes(blocks@)),
                0 <= bottom <= COORD_LIMIT,
                box_views(questions@) == segmented(bv, av, include_debug, i as int),
                crate::question_locator::confidences_in_range(av) ==> question_confidences_in_range(
                    box_views(questions@),
                ),
                forall|q: int| 0 <= q < questions@.len() ==> ids_from(#[trigger] box_views(questions@)[q].6, bv),
            decreases n - i,
        {
            let a = &anchors[i];
            proof {
                assert(av[i as int] == anchor_view(*a));
                assert(av[i as int].1.wf());
                if i + 1 < n {
                    assert(av[i as int + 1].1.wf());
                }
            }
            let y_start = a.bbox.y;
            let y_end = if i + 1 < n {
                anchors[i + 1].bbox.y
            } else {
                bottom
            };
            let qb = self.find_question_blocks(blocks, a, y_start, y_end);
            let ghost before = questions@;
            if qb.len() > 0 {
                let margin: i64 = if i + 1 < n {
                    3
                } else {
                    0
                };
                let bounding_box = self.calculate_bounding_box(qb.as_slice(), a, y_end - margin);
                let confidence = self.calculate_confidence(a, qb.as_slice(), y_start, y_end);
                let debug_info = if include_debug {
                    Some(
                        QuestionDebugInfo {
                            num_blocks: qb.len(),
                            detection_method: String::from_str("anchor_based"),
                            has_options: self.has_options(qb.as_slice()),
                            has_image: false,
                        },
                    )
                } else {
                    None
                };
                let ids = ids_of(&qb);
                proof {
                    assert forall|k: int| 0 <= k < ids@.len() implies block_ids(bv).contains(
                        #[trigger] ids@[k],
                    ) by {
                        let v = block_views(qb@)[k];
                        assert(ids@[k] == v.0);
                        assert(bv.contains(v));
                        let j = choose|j: int| 0 <= j < bv.len() && bv[j] == v;
                        assert(block_ids(bv)[j] == ids@[k]);
                    }
                }
                let q = QuestionBox {
                    page_index: 0,
                    question_id: a.question_id.clone(),
                    bounding_box,
                    title_anchor_box: Some(a.bbox),
                    confidence,
                    recognized_title_text: Some(a.text.clone()),
                    block_ids: ids,
                    debug_info,
                };
                questions.push(q);
                proof {
                    lemma_view_boxes(qb@);
                    assert(box_views(questions@) =~= box_views(before).push(box_view(q)));
                    assert(box_views(questions@)[before.len() as int] == box_view(q));
                    assert forall|p: int| 0 <= p < questions@.len() implies ids_from(
                        #[trigger] box_views(questions@)[p].6,
                        bv,
                    ) by {
                        if p < before.len() {
                            assert(box_views(questions@)[p] == box_views(before)[p]);
                        }
                    }
                }
            }
            i = i + 1;
        }
        questions
    }

    /// The gap that separates paragraphs (see [`adaptive_threshold`]).
    pub fn calculate_adaptive_threshold(&self, blocks: &[TextBlock]) -> (t: i64)
        requires
            all_wf(block_boxes(blocks@)),
        ensures
            t == adaptive_threshold(block_views(blocks@)),
    {
        if blocks.len() < 2 {
            return 50;
        }
        let sorted = sort_blocks_by_y(blocks);
        let ghost s = view_boxes(block_views(sorted@));
        proof {
            lemma_view_boxes(sorted@);
        }
        let n = sorted.len();
        let mut gaps: Vec<i64> = Vec::new();
        let mut i: usize = 1;
        while i < n
            invariant
                n == sorted@.len(),
                n >= 2,
                1 <= i <= n,
                s == block_boxes(sorted@),
                all_wf(s),
                gaps@ == positive_gaps(s, i as int),
                forall|k: int| 0 <= k < gaps@.len() ==> 0 < #[trigger] gaps@[k] <= 2 * COORD_LIMIT,
            decreases n - i,
        {
            let prev = sorted[i - 1].bbox;
            let cur = sorted[i].bbox;
            proof {
                assert(s[i as int - 1] == prev && s[i as int] == cur);
                assert(prev.wf() && cur.wf());
            }
            let g = cur.y - (prev.y + prev.height);
            if g > 0 {
                gaps.push(g);
            }
            i = i + 1;
        }
        if gaps.len() == 0 {
            return 50;
        }
        let g = sort_values(&gaps);
        let m = g.len();
        proof {
            assert(gaps@.contains(g@[(m / 2) as int]));
            if m >= 2 {
                assert(gaps@.contains(g@[(m / 2 - 1) as int]));
            }
        }
        let twice: i64 = if m % 2 == 0 {
            g[m / 2 - 1] + g[m / 2]
        } else {
            2 * g[m / 2]
        };
        if twice > 20 {
            twice
        } else {
            20
        }
    }

    /// The question region of a paragraph, numbered `index` (see
    /// [`paragraph_box`]).
    pub fn create_question_from_blocks(&self, blocks: &[TextBlock], index: usize) -> (q: QuestionBox)
        requires
            all_wf(block_boxes(blocks@)),
        ensures
            box_view(q) == paragraph_box(block_views(blocks@), index as nat),
    {
        let ghost rects = block_boxes(blocks@);
        proof {
            lemma_view_boxes(blocks@);
        }
        let mut bbox = Rect::new(0, 0, 0, 0);
        if blocks.len() > 0 {
            bbox = blocks[0].bbox;
            assert(rects.subrange(0, 1) =~= seq![rects[0]]);
            let mut i: usize = 1;
            while i < blocks.len()
                invariant
                    1 <= i <= blocks@.len(),
                    rects == block_boxes(blocks@),
                    all_wf(rects),
                    bbox == union_all(rects.subrange(0, i as int)),
                    bbox.wf(),
                decreases blocks@.len() - i,
            {
                let r = blocks[i].bbox;
                proof {
                    let cur = rects.subrange(0, i as int + 1);
                    assert(cur.drop_last() =~= rects.subrange(0, i as int));
                    assert(cur.last() == r);
                    assert(r.wf());
                }
                bbox = bbox.union(&r);
                i = i + 1;
            }
            assert(rects.subrange(0, blocks@.len() as int) =~= rects);
        }
        let mut all: Vec<TextBlock> = Vec::new();
        let mut k: usize = 0;
        while k < blocks.len()
            invariant
                k <= blocks@.len(),
                block_views(all@) == block_views(blocks@).subrange(0, k as int),
            decreases blocks@.len() - k,
        {
            let c = copy_block(&blocks[k]);
            let ghost before = all@;
            all.push(c);
            proof {
                assert(block_views(all@) =~= block_views(before).push(block_view(c)));
                assert(block_views(all@) =~= block_views(blocks@).subrange(0, k as int + 1));
            }
            k = k + 1;
        }
        assert(block_views(blocks@).subrange(0, blocks@.len() as int) =~= block_views(blocks@));
        QuestionBox {
            page_index: 0,
            question_id: decimal_string(index as u64),
            bounding_box: bbox,
            title_anchor_box: None,
            confidence: 500000,
            recognized_title_text: None,
            block_ids: ids_of(&all),
            debug_info: Some(
                QuestionDebugInfo {
                    num_blocks: blocks.len(),
                    detection_method: String::from_str("fallback_paragraph"),
                    has_options: false,
                    has_image: false,
                },
            ),
        }
    }

    /// Without anchors: splits the blocks, in list order, into paragraphs at
    /// gaps larger than [`calculate_adaptive_threshold`], one question per
    /// paragraph, numbered from 1.
    pub fn fallback_segment(&self, blocks: &[TextBlock]) -> (questions: Vec<QuestionBox>)
        requires
            all_wf(block_boxes(blocks@)),
        ensures
            box_views(questions@) == fallback_questions(block_views(blocks@)),
            question_confidences_in_range(box_views(questions@)),
    {
        let ghost bv = block_views(blocks@);
        let mut questions: Vec<QuestionBox> = Vec::new();
        if blocks.len() == 0 {
            assert(box_views(questions@) =~= Seq::<BoxView>::empty());
            return questions;
        }
        let threshold = self.calculate_adaptive_threshold(blocks);
        let ghost t = threshold as int;
        let mut current: Vec<TextBlock> = Vec::new();
        let mut last_y: i64 = 0;
        let n = blocks.len();
        let mut i: usize = 0;
        while i < n
            invariant
                n == blocks@.len(),
                i <= n,
                bv == block_views(blocks@),
                t == threshold,
                all_wf(block_boxes(blocks@)),
                all_wf(block_boxes(current@)),
                ({
                    let (ps, cur, last) = paragraph_scan(bv, t, i as int);
                    &&& box_views(questions@) == Seq::new(
                        ps.len(),
                        |j: int| paragraph_box(ps[j], (j + 1) as nat),
                    )
                    &&& block_views(current@) == cur
                    &&& last_y == last
                }),
                questions@.len() + (if current@.len() > 0 {
                    1int
                } else {
                    0int
                }) <= i,
                -COORD_LIMIT <= last_y <= COORD_LIMIT,
            decreases n - i,
        {
            let b = &blocks[i];
            proof {
                assert(block_boxes(blocks@)[i as int].wf());
                assert(bv[i as int] == block_view(*b));
            }
            let ghost before = questions@;
            let ghost (ps0, cur0, last0) = paragraph_scan(bv, t, i as int);
            if current.len() > 0 && b.bbox.y - last_y > threshold {
                let q = self.create_question_from_blocks(current.as_slice(), questions.len() + 1);
                questions.push(q);
                current = Vec::new();
                proof {
                    assert(box_views(questions@) =~= box_views(before).push(box_view(q)));
                    let ps1 = ps0.push(cur0);
                    assert(box_views(questions@) =~= Seq::new(
                        ps1.len(),
                        |j: int| paragraph_box(ps1[j], (j + 1) as nat),
                    ));
                }
            }
            let c = copy_block(b);
            let ghost cb = current@;
            current.push(c);
            proof {
                assert(block_views(current@) =~= block_views(cb).push(block_view(c)));
                assert forall|k: int| 0 <= k < current@.len() implies #[trigger] block_boxes(
                    current@,
                )[k].wf() by {
                    if k < cb.len() {
                        assert(block_boxes(cb)[k].wf());
                    }
                }
            }
            last_y = b.bbox.y + b.bbox.height;
            i = i + 1;
        }
        let ghost (ps, cur, last) = paragraph_scan(bv, t, n as int);
        proof {
            lemma_fallback_confidences(bv);
        }
        if current.len() > 0 {
            let ghost before = questions@;
            let q = self.create_question_from_blocks(current.as_slice(), questions.len() + 1);
            questions.push(q);
            proof {
                assert(box_views(questions@) =~= box_views(before).push(box_view(q)));
                let ps1 = ps.push(cur);
                assert(box_views(questions@) =~= Seq::new(
                    ps1.len(),
                    |j: int| paragraph_box(ps1[j], (j + 1) as nat),
                ));
            }
        }
        questions
    }
}


/// A copy of a block.
pub fn copy_block(b: &TextBlock) -> (r: TextBlock)
    ensures
        block_view(r) == block_view(*b),
{
    let text = match &b.text {
        Some(t) => Some(t.clone()),
        None => None,
    };
    TextBlock { id: b.id, bbox: b.bbox, text, confidence: b.confidence, block_type: b.block_type }
}

/// The boxes of the block views are the blocks' boxes.
pub proof fn lemma_view_boxes(v: Seq<TextBlock>)
    ensures
        view_boxes(block_views(v)) == block_boxes(v),
{
    assert(view_boxes(block_views(v)) =~= block_boxes(v));
}

/// The blocks in stable ascending order of their top.
pub fn sort_blocks_by_y(blocks: &[TextBlock]) -> (sorted: Vec<TextBlock>)
    ensures
        block_views(sorted@) == sort_blocks(block_views(blocks@)),
        sorted@.len() == blocks@.len(),
        all_wf(block_boxes(blocks@)) ==> all_wf(block_boxes(sorted@)),
        forall|i: int|
            0 <= i < sorted@.len() ==> block_views(blocks@).contains(#[trigger] block_views(sorted@)[i]),
{
    let ghost bv = block_views(blocks@);
    let mut keys: Vec<i64> = Vec::new();
    let mut i: usize = 0;
    while i < blocks.len()
        invariant
            i <= blocks@.len(),
            bv == block_views(blocks@),
            keys@ == block_tops(bv).subrange(0, i as int),
        decreases blocks@.len() - i,
    {
        keys.push(blocks[i].bbox.y);
        proof {
            assert(keys@ =~= block_tops(bv).subrange(0, i as int + 1));
        }
        i = i + 1;
    }
    assert(keys@ =~= block_tops(bv));
    let order = stable_order(&keys);
    let mut sorted: Vec<TextBlock> = Vec::new();
    let mut j: usize = 0;
    while j < order.len()
        invariant
            j <= order@.len(),
            bv == block_views(blocks@),
            keys@ == block_tops(bv),
            is_stable_order(keys@, order@),
            block_views(sorted@) == permute(bv, order@).subrange(0, j as int),
            sorted@.len() == j,
            all_wf(block_boxes(blocks@)) ==> all_wf(block_boxes(sorted@)),
            forall|i: int| 0 <= i < sorted@.len() ==> bv.contains(#[trigger] block_views(sorted@)[i]),
        decreases order@.len() - j,
    {
        let b = copy_block(&blocks[order[j]]);
        let ghost before = sorted@;
        proof {
            if all_wf(block_boxes(blocks@)) {
                assert(block_boxes(blocks@)[order@[j as int] as int].wf());
            }
        }
        sorted.push(b);
        proof {
            assert(block_views(sorted@) =~= block_views(before).push(block_view(b)));
            assert(block_views(sorted@) =~= permute(bv, order@).subrange(0, j as int + 1));
            assert(bv[order@[j as int] as int] == block_view(b));
            assert forall|i: int| 0 <= i < sorted@.len() implies bv.contains(
                #[trigger] block_views(sorted@)[i],
            ) by {
                if i < before.len() {
                    assert(block_views(sorted@)[i] == block_views(before)[i]);
                } else {
                    assert(block_views(sorted@)[i] == bv[order@[j as int] as int]);
                }
            }
            if all_wf(block_boxes(blocks@)) {
                assert forall|k: int| 0 <= k < sorted@.len() implies #[trigger] block_boxes(
                    sorted@,
                )[k].wf() by {
                    if k < before.len() {
                        assert(block_boxes(before)[k].wf());
                    }
                }
            }
        }
        j = j + 1;
    }
    assert(permute(bv, order@).subrange(0, order@.len() as int) =~= permute(bv, order@));
    sorted
}

/// The ids of the blocks.
fn ids_of(blocks: &Vec<TextBlock>) -> (ids: Vec<usize>)
    ensures
        ids@ == block_ids(block_views(blocks@)),
{
    let mut ids: Vec<usize> = Vec::new();
    let mut i: usize = 0;
    while i < blocks.len()
        invariant
            i <= blocks@.len(),
            ids@ == block_ids(block_views(blocks@)).subrange(0, i as int),
        decreases blocks@.len() - i,
    {
        ids.push(blocks[i].id);
        proof {
            assert(ids@ =~= block_ids(block_views(blocks@)).subrange(0, i as int + 1));
        }
        i = i + 1;
    }
    assert(block_ids(block_views(blocks@)).subrange(0, blocks@.len() as int) =~= block_ids(
        block_views(blocks@),
    ));
    ids
}

/// The bottom of the lowest block, and at least 0.
fn lowest_bottom(blocks: &[TextBlock]) -> (b: i64)
    requires
        all_wf(block_boxes(blocks@)),
    ensures
        b == bottom_extent(block_boxes(blocks@)),
        0 <= b <= COORD_LIMIT,
{
    let ghost rects = block_boxes(blocks@);
    let mut bottom: i64 = 0;
    let mut i: usize = 0;
    while i < blocks.len()
        invariant
            i <= blocks@.len(),
            rects == block_boxes(blocks@),
            all_wf(rects),
            bottom == bottom_extent(rects.subrange(0, i as int)),
            0 <= bottom <= COORD_LIMIT,
        decreases blocks@.len() - i,
    {
        let r = blocks[i].bbox;
        proof {
            let cur = rects.subrange(0, i as int + 1);
            assert(cur.drop_last() =~= rects.subrange(0, i as int));
            assert(cur.last() == r);
            assert(r.wf());
        }
        if r.y + r.height > bottom {
            bottom = r.y + r.height;
        }
        i = i + 1;
    }
    assert(rects.subrange(0, blocks@.len() as int) =~= rects);
    bottom
}

proof fn lemma_fallback_confidences(bv: Seq<BlockView>)
    ensures
        question_confidences_in_range(fallback_questions(bv)),
{
    let qs = fallback_questions(bv);
    assert forall|i: int| 0 <= i < qs.len() implies 0 <= #[trigger] qs[i].4 <= PPM by {}
}

/// Whether a text has at least three bytes in UTF-8.
fn at_least_three_bytes(t: &str) -> (b: bool)
    ensures
        b == (utf8_length(t@) >= 3),
{
    let n = t.unicode_len();
    let mut total: usize = 0;
    let mut i: usize = 0;
    while i < n && total < 3
        invariant
            n == t@.len(),
            i <= n,
            total == utf8_length(t@.subrange(0, i as int)),
            total <= 6,
        decreases n - i,
    {
        let c = t.get_char(i);
        proof {
            let cur = t@.subrange(0, i as int + 1);
            assert(cur.drop_last() =~= t@.subrange(0, i as int));
            assert(cur.last() == c);
        }
        let v = c as u32;
        let w: usize = if v < 0x80 {
            1
        } else if v < 0x800 {
            2
        } else if v < 0x10000 {
            3
        } else {
            4
        };
        total = total + w;
        i = i + 1;
    }
    proof {
        if total < 3 {
            assert(t@.subrange(0, n as int) =~= t@);
        } else {
            lemma_utf8_length_prefix(t@, i as int);
        }
    }
    total >= 3
}

proof fn lemma_utf8_length_prefix(s: Seq<char>, k: int)
    requires
        0 <= k <= s.len(),
    ensures
        utf8_length(s.subrange(0, k)) <= utf8_length(s),
    decreases s.len() - k,
{
    if k < s.len() {
        lemma_utf8_length_prefix(s, k + 1);
        let cur = s.subrange(0, k + 1);
        assert(cur.drop_last() =~= s.subrange(0, k));
    } else {
        assert(s.subrange(0, k) =~= s);
    }
}

} // verus!
