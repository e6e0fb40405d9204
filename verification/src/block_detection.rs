//! Text-block detection by geometric analysis of the binary page: connected
//! components, noise filtering, grouping into lines and merging of close
//! neighbours within a line.
use crate::bitmap::Bitmap;
use crate::components::{find_connected_components, is_component_labeling, rect_in_image};
use crate::geometry::{Rect, PPM};
use crate::sorting::{permute, stable_order, stable_order_of};
use crate::types::{BlockType, TextBlock};
use vstd::prelude::*;

verus! {

/// The y coordinates of a list of rectangles.
pub open spec fn ys(s: Seq<Rect>) -> Seq<i64> {
    s.map_values(|r: Rect| r.y)
}

/// The x coordinates of a list of rectangles.
pub open spec fn xs(s: Seq<Rect>) -> Seq<i64> {
    s.map_values(|r: Rect| r.x)
}

/// The rectangles in stable ascending order of `y`.
pub open spec fn sort_by_y(s: Seq<Rect>) -> Seq<Rect> {
    permute(s, stable_order_of(ys(s)))
}

/// The rectangles in stable ascending order of `x`.
pub open spec fn sort_by_x(s: Seq<Rect>) -> Seq<Rect> {
    permute(s, stable_order_of(xs(s)))
}

/// Every rectangle of the list is well formed.
pub open spec fn all_wf(s: Seq<Rect>) -> bool {
    forall|i: int| 0 <= i < s.len() ==> #[trigger] s[i].wf()
}

pub open spec fn abs_diff(a: int, b: int) -> int {
    if a >= b { a - b } else { b - a }
}

/// Scan of `s` (already in y order) into lines: the finished lines and the
/// line being built.  A rectangle joins the current line when its `y` differs
/// from the `y` of the line's last rectangle by less than `tol`.
pub open spec fn group_scan(s: Seq<Rect>, tol: int) -> (Seq<Seq<Rect>>, Seq<Rect>)
    decreases s.len(),
{
    if s.len() == 0 {
        (Seq::empty(), Seq::empty())
    } else {
        let (lines, cur) = group_scan(s.drop_last(), tol);
        let b = s.last();
        if cur.len() == 0 {
            (lines, seq![b])
        } else if abs_diff(b.y as int, cur.last().y as int) < tol {
            (lines, cur.push(b))
        } else {
            (lines.push(cur), seq![b])
        }
    }
}

/// The lines of `s` (already in y order).
pub open spec fn lines_of(s: Seq<Rect>, tol: int) -> Seq<Seq<Rect>> {
    let (lines, cur) = group_scan(s, tol);
    if cur.len() > 0 {
        lines.push(cur)
    } else {
        lines
    }
}

/// Scan of a non-empty line (already in x order): the finished rectangles and
/// the one being grown.  A rectangle is merged into the current one when the
/// horizontal gap between them is below `max_gap`.
pub open spec fn merge_scan(s: Seq<Rect>, max_gap: int) -> (Seq<Rect>, Rect)
    decreases s.len(),
{
    if s.len() <= 1 {
        (Seq::empty(), s[0])
    } else {
        let (done, cur) = merge_scan(s.drop_last(), max_gap);
        let b = s.last();
        if b.x - cur.right() < max_gap {
            (done, cur.spec_union(&b))
        } else {
            (done.push(cur), b)
        }
    }
}

/// The merged rectangles of one line.
pub open spec fn merge_line(line: Seq<Rect>, max_gap: int) -> Seq<Rect> {
    if line.len() == 0 {
        Seq::empty()
    } else {
        let (done, cur) = merge_scan(sort_by_x(line), max_gap);
        done.push(cur)
    }
}

/// The merged rectangles of all lines, line after line.
pub open spec fn merge_lines(lines: Seq<Seq<Rect>>, max_gap: int) -> Seq<Rect>
    decreases lines.len(),
{
    if lines.len() == 0 {
        Seq::empty()
    } else {
        merge_lines(lines.drop_last(), max_gap) + merge_line(lines.last(), max_gap)
    }
}

/// Sum of the heights of the rectangles.
pub open spec fn sum_heights(s: Seq<Rect>) -> int
    decreases s.len(),
{
    if s.len() == 0 {
        0
    } else {
        sum_heights(s.drop_last()) + s.last().height
    }
}

/// Smallest integer at least `num / den` (for `num >= 0`, `den > 0`).
pub open spec fn ceil_div(num: int, den: int) -> int {
    (num + den - 1) / den
}

/// Line tolerance: half the average height, as an integer bound for `<`.
pub open spec fn line_tolerance(s: Seq<Rect>) -> int {
    ceil_div(sum_heights(s), 2 * (s.len() as int))
}

/// Character gap: 0.3 × the average height, capped at 15 pixels, as an
/// integer bound for `<`.
pub open spec fn char_gap(s: Seq<Rect>) -> int {
    let g = ceil_div(3 * sum_heights(s), 10 * (s.len() as int));
    if g <= 15 {
        g
    } else {
        15
    }
}

/// The result of merging nearby blocks: lines by half the average height,
/// then merging within each line by the character gap.
pub open spec fn merge_nearby(s: Seq<Rect>) -> Seq<Rect> {
    if s.len() == 0 {
        Seq::empty()
    } else {
        merge_lines(lines_of(sort_by_y(s), line_tolerance(s)), char_gap(s))
    }
}

/// Geometric text-block detector.
pub struct BlockDetector {
    /// Smallest block area kept, in square pixels.
    min_area: i64,
    /// Smallest block width kept, in pixels.
    min_width: i64,
    /// Smallest block height kept, in pixels.
    min_height: i64,
}

impl BlockDetector {
    /// `(min_area, min_width, min_height)`.
    pub closed spec fn thresholds(&self) -> (i64, i64, i64) {
        (self.min_area, self.min_width, self.min_height)
    }

    /// The rectangle is large enough to be kept as a block.
    pub open spec fn keeps(&self, r: Rect) -> bool {
        &&& r.spec_area() >= self.thresholds().0
        &&& r.width >= self.thresholds().1
        &&& r.height >= self.thresholds().2
    }
}

impl Default for BlockDetector {
    fn default() -> (d: Self)
        ensures
            d.thresholds() == (100i64, 10i64, 10i64),
    {
        BlockDetector { min_area: 100, min_width: 10, min_height: 10 }
    }
}

/// The views of a list of lines.
pub open spec fn line_views(v: Seq<Vec<Rect>>) -> Seq<Seq<Rect>> {
    v.map_values(|l: Vec<Rect>| l@)
}

/// Every rectangle of every line is well formed.
pub open spec fn lines_wf(v: Seq<Seq<Rect>>) -> bool {
    forall|i: int, j: int| 0 <= i < v.len() && 0 <= j < v[i].len() ==> #[trigger] v[i][j].wf()
}

impl BlockDetector {
    pub fn new() -> (d: Self)
        ensures
            d.thresholds() == (100i64, 10i64, 10i64),
    {
        Self::default()
    }

    /// Keeps the rectangles that are large enough.
    pub fn filter_noise(&self, blocks: &[Rect]) -> (res: Vec<Rect>)
        requires
            all_wf(blocks@),
        ensures
            res@ == blocks@.filter(|r: Rect| self.keeps(r)),
    {
        let ghost f = |r: Rect| self.keeps(r);
        let mut res: Vec<Rect> = Vec::new();
        let mut i: usize = 0;
        while i < blocks.len()
            invariant
                i <= blocks@.len(),
                all_wf(blocks@),
                f == (|r: Rect| self.keeps(r)),
                res@ == blocks@.subrange(0, i as int).filter(f),
            decreases blocks@.len() - i,
        {
            let r = blocks[i];
            assert(r.wf());
            let keep = r.area() >= self.min_area && r.width >= self.min_width && r.height
                >= self.min_height;
            if keep {
                res.push(r);
            }
            proof {
                let t = blocks@.subrange(0, i as int + 1);
                assert(t.drop_last() =~= blocks@.subrange(0, i as int));
                assert(t.last() == r);
                reveal_with_fuel(Seq::filter, 1);
            }
            i = i + 1;
        }
        assert(blocks@.subrange(0, blocks@.len() as int) =~= blocks@);
        res
    }

    /// Groups the rectangles into lines: sorted by `y`, a rectangle joins the
    /// current line when its `y` is within `tolerance` (exclusive) of the `y`
    /// of the line's last rectangle.
    pub fn group_into_lines(&self, blocks: &[Rect], tolerance: i64) -> (lines: Vec<Vec<Rect>>)
        requires
            all_wf(blocks@),
        ensures
            line_views(lines@) == lines_of(sort_by_y(blocks@), tolerance as int),
            lines_wf(line_views(lines@)),
    {
        let sorted = sort_rects_by_y(blocks);
        proof {
            lemma_permute_wf(blocks@, stable_order_of(ys(blocks@)));
        }
        let ghost t = tolerance as int;
        let mut lines: Vec<Vec<Rect>> = Vec::new();
        let mut current_line: Vec<Rect> = Vec::new();
        let mut i: usize = 0;
        while i < sorted.len()
            invariant
                i <= sorted@.len(),
                all_wf(sorted@),
                t == tolerance,
                (line_views(lines@), current_line@) == group_scan(sorted@.subrange(0, i as int), t),
                lines_wf(line_views(lines@)),
                all_wf(current_line@),
            decreases sorted@.len() - i,
        {
            let block = sorted[i];
            let ghost prev = sorted@.subrange(0, i as int);
            proof {
                let cur = sorted@.subrange(0, i as int + 1);
                assert(cur.drop_last() =~= prev);
                assert(cur.last() == block);
            }
            if current_line.len() == 0 {
                current_line.push(block);
                proof {
                    assert(current_line@ =~= seq![block]);
                }
            } else {
                assert(current_line@[current_line@.len() - 1].wf());
                assert(block.wf());
                let last_y = current_line[current_line.len() - 1].y;
                let d: i64 = if block.y >= last_y { block.y - last_y } else { last_y - block.y };
                if d < tolerance {
                    current_line.push(block);
                } else {
                    let ghost old_lines = lines@;
                    let finished = current_line;
                    lines.push(finished);
                    current_line = Vec::new();
                    current_line.push(block);
                    proof {
                        assert(current_line@ =~= seq![block]);
                        assert(line_views(lines@) =~= line_views(old_lines).push(finished@));
                    }
                }
            }
            i = i + 1;
        }
        assert(sorted@.subrange(0, sorted@.len() as int) =~= sorted@);
        if current_line.len() > 0 {
            let ghost old_lines = lines@;
            let ghost last = current_line@;
            lines.push(current_line);
            proof {
                assert(line_views(lines@) =~= line_views(old_lines).push(last));
            }
        }
        lines
    }

    /// Merges the rectangles of one line, in `x` order, whenever the gap to
    /// the rectangle being grown is below `max_gap`.
    pub fn merge_horizontal_neighbors(&self, line: &[Rect], max_gap: i64) -> (merged: Vec<Rect>)
        requires
            all_wf(line@),
        ensures
            merged@ == merge_line(line@, max_gap as int),
            all_wf(merged@),
            forall|i: int|
                0 <= i < merged@.len() - 1 ==> (#[trigger] merged@[i + 1]).x - merged@[i].right() >= max_gap,
    {
        if line.len() == 0 {
            return Vec::new();
        }
        proof {
            crate::laws::law_merged_boxes_apart(line@, max_gap as int);
        }
        let sorted = sort_rects_by_x(line);
        proof {
            lemma_permute_wf(line@, stable_order_of(xs(line@)));
        }
        let ghost g = max_gap as int;
        let mut merged: Vec<Rect> = Vec::new();
        let mut current = sorted[0];
        proof {
            assert(sorted@.subrange(0, 1).len() == 1);
            assert(sorted@.subrange(0, 1)[0] == current);
        }
        let mut i: usize = 1;
        while i < sorted.len()
            invariant
                1 <= i <= sorted@.len(),
                all_wf(sorted@),
                g == max_gap,
                (merged@, current) == merge_scan(sorted@.subrange(0, i as int), g),
                all_wf(merged@),
                current.wf(),
            decreases sorted@.len() - i,
        {
            let block = sorted[i];
            proof {
                let cur = sorted@.subrange(0, i as int + 1);
                assert(cur.drop_last() =~= sorted@.subrange(0, i as int));
                assert(cur.last() == block);
            }
            assert(block.wf());
            let gap = block.x - (current.x + current.width);
            if gap < max_gap {
                current = current.union(&block);
            } else {
                merged.push(current);
                current = block;
            }
            i = i + 1;
        }
        assert(sorted@.subrange(0, sorted@.len() as int) =~= sorted@);
        merged.push(current);
        merged
    }

    /// Merges close blocks: lines within half the average block height, then
    /// neighbours closer than 0.3 × the average height (at most 15 pixels).
    pub fn merge_nearby_blocks(&self, blocks: &[Rect], _image: &Bitmap) -> (merged: Vec<Rect>)
        requires
            all_wf(blocks@),
        ensures
            merged@ == merge_nearby(blocks@),
            all_wf(merged@),
    {
        if blocks.len() == 0 {
            return Vec::new();
        }
        let n = blocks.len();
        let total = total_height(blocks);
        let n128 = n as i128;
        let tol128: i128 = (total + 2 * n128 - 1) / (2 * n128);
        let gap128: i128 = (3 * total + 10 * n128 - 1) / (10 * n128);
        proof {
            assert(tol128 <= total / n128 + 1) by (nonlinear_arith)
                requires tol128 == (total + 2 * n128 - 1) / (2 * n128), n128 >= 1, total >= 0;
            assert(total / n128 <= 2147483648) by (nonlinear_arith)
                requires 0 <= total <= n128 * 2147483648, n128 >= 1;
            assert(tol128 >= 0) by (nonlinear_arith)
                requires tol128 == (total + 2 * n128 - 1) / (2 * n128), n128 >= 1, total >= 0;
        }
        let tolerance = tol128 as i64;
        let char_gap_px: i64 = if gap128 <= 15 { gap128 as i64 } else { 15 };
        proof {
            assert(gap128 >= 0) by (nonlinear_arith)
                requires gap128 == (3 * total + 10 * n128 - 1) / (10 * n128), n128 >= 1, total >= 0;
        }
        let lines = self.group_into_lines(blocks, tolerance);
        let ghost lv = line_views(lines@);
        let mut merged: Vec<Rect> = Vec::new();
        let mut k: usize = 0;
        while k < lines.len()
            invariant
                k <= lines@.len(),
                lv == line_views(lines@),
                lines_wf(lv),
                merged@ == merge_lines(lv.subrange(0, k as int), char_gap_px as int),
                all_wf(merged@),
            decreases lines@.len() - k,
        {
            proof {
                assert(lv[k as int] == lines@[k as int]@);
                assert forall|j: int| 0 <= j < lines@[k as int]@.len() implies #[trigger] lines@[k as int]@[j].wf() by {
                    assert(lv[k as int][j].wf());
                }
            }
            let part = self.merge_horizontal_neighbors(lines[k].as_slice(), char_gap_px);
            let ghost before_merge = merged@;
            let mut j: usize = 0;
            while j < part.len()
                invariant
                    j <= part@.len(),
                    merged@ == before_merge + part@.subrange(0, j as int),
                    all_wf(before_merge),
                    all_wf(part@),
                decreases part@.len() - j,
            {
                merged.push(part[j]);
                proof {
                    assert(before_merge + part@.subrange(0, j as int + 1) =~= (before_merge
                        + part@.subrange(0, j as int)).push(part@[j as int]));
                }
                j = j + 1;
            }
            proof {
                assert(part@.subrange(0, part@.len() as int) =~= part@);
                let t = lv.subrange(0, k as int + 1);
                assert(t.drop_last() =~= lv.subrange(0, k as int));
                assert(t.last() == lv[k as int]);
                assert(merge_lines(t, char_gap_px as int) == merge_lines(
                    lv.subrange(0, k as int),
                    char_gap_px as int,
                ) + merge_line(lv[k as int], char_gap_px as int));
            }
            k = k + 1;
        }
        assert(lv.subrange(0, lv.len() as int) =~= lv);
        proof {
            assert(sum_heights(blocks@) == total);
            assert(line_tolerance(blocks@) == tolerance);
            assert(char_gap(blocks@) == char_gap_px);
        }
        merged
    }
}

/// A text column: its position among the columns and its horizontal extent.
#[derive(Debug, Clone, Copy, PartialEq, Eq)]
pub struct ColumnInfo {
    pub index: usize,
    pub x_start: i64,
    pub x_end: i64,
}

/// Text blocks numbered in order, with no text, full confidence and type `Text`.
pub open spec fn text_blocks_of(rects: Seq<Rect>) -> Seq<TextBlock> {
    Seq::new(
        rects.len(),
        |i: int|
            TextBlock {
                id: i as usize,
                bbox: rects[i],
                text: None,
                confidence: PPM,
                block_type: BlockType::Text,
            },
    )
}

/// Number of blocks whose x-range `[x, x + width)` holds column `x`.
pub open spec fn coverage(blocks: Seq<TextBlock>, x: int) -> int
    decreases blocks.len(),
{
    if blocks.len() == 0 {
        0
    } else {
        coverage(blocks.drop_last(), x) + if blocks.last().bbox.x <= x < blocks.last().bbox.right() {
            1int
        } else {
            0int
        }
    }
}

/// End of the last column found so far (zero before the first).
pub open spec fn last_end(cols: Seq<ColumnInfo>) -> i64 {
    if cols.len() == 0 {
        0
    } else {
        cols.last().x_end
    }
}

/// Scan of the page columns `0..occ.len()` (true where some block covers the
/// column): the columns closed so far, whether a gap is open, and where it began.
/// A gap wider than `min_gap` ends the current column at the gap's start.
pub open spec fn column_scan(occ: Seq<bool>, min_gap: int) -> (Seq<ColumnInfo>, bool, int)
    decreases occ.len(),
{
    if occ.len() == 0 {
        (Seq::empty(), false, 0)
    } else {
        let (cols, in_gap, gap_start) = column_scan(occ.drop_last(), min_gap);
        let x = occ.len() - 1;
        if !occ.last() {
            if in_gap {
                (cols, true, gap_start)
            } else {
                (cols, true, x)
            }
        } else if in_gap {
            if x - gap_start > min_gap {
                (
                    cols.push(
                        ColumnInfo {
                            index: cols.len() as usize,
                            x_start: last_end(cols),
                            x_end: gap_start as i64,
                        },
                    ),
                    false,
                    gap_start,
                )
            } else {
                (cols, false, gap_start)
            }
        } else {
            (cols, in_gap, gap_start)
        }
    }
}

/// The columns of a page of width `w` whose covered columns are `occ`.
pub open spec fn columns_of(occ: Seq<bool>, w: int) -> Seq<ColumnInfo> {
    let (cols, _, _) = column_scan(occ, w / 20);
    if cols.len() == 0 {
        seq![ColumnInfo { index: 0, x_start: 0, x_end: w as i64 }]
    } else {
        cols.push(ColumnInfo { index: cols.len() as usize, x_start: last_end(cols), x_end: w as i64 })
    }
}

/// Which page columns `0..w` are covered by some block.
pub open spec fn occupancy(blocks: Seq<TextBlock>, w: int) -> Seq<bool> {
    Seq::new(w as nat, |x: int| coverage(blocks, x) > 0)
}

/// Every block's box is well formed.
pub open spec fn blocks_wf(blocks: Seq<TextBlock>) -> bool {
    forall|i: int| 0 <= i < blocks.len() ==> #[trigger] blocks[i].bbox.wf()
}

impl BlockDetector {
    /// The text blocks made from a list of connected components.
    pub open spec fn blocks_from_components(&self, comps: Seq<Rect>) -> Seq<TextBlock> {
        text_blocks_of(merge_nearby(comps.filter(|r: Rect| self.keeps(r))))
    }

    /// Detects the text blocks of a binary page: connected components of the
    /// ink, without the small ones, merged into words and phrases.
    pub fn detect(&self, binary_image: &Bitmap) -> (blocks: Vec<TextBlock>)
        requires
            binary_image.wf(),
        ensures
            exists|comps: Seq<Rect>|
                (exists|cls: Seq<Seq<int>>| is_component_labeling(binary_image, comps, cls))
                    && blocks@ == #[trigger] self.blocks_from_components(comps),
            blocks_wf(blocks@),
    {
        let components = find_connected_components(binary_image);
        proof {
            assert forall|i: int| 0 <= i < components@.len() implies #[trigger] components@[i].wf() by {
                assert(rect_in_image(binary_image, components@[i]));
            }
        }
        let filtered = self.filter_noise(components.as_slice());
        proof {
            lemma_filter_wf(components@, |r: Rect| self.keeps(r));
        }
        let merged = self.merge_nearby_blocks(filtered.as_slice(), binary_image);
        let mut blocks: Vec<TextBlock> = Vec::new();
        let mut id: usize = 0;
        while id < merged.len()
            invariant
                id <= merged@.len(),
                blocks@ == text_blocks_of(merged@).subrange(0, id as int),
                all_wf(merged@),
            decreases merged@.len() - id,
        {
            blocks.push(
                TextBlock {
                    id,
                    bbox: merged[id],
                    text: None,
                    confidence: PPM,
                    block_type: BlockType::Text,
                },
            );
            proof {
                assert(blocks@ =~= text_blocks_of(merged@).subrange(0, id as int + 1));
            }
            id = id + 1;
        }
        assert(text_blocks_of(merged@).subrange(0, merged@.len() as int) =~= text_blocks_of(merged@));
        proof {
            assert forall|i: int| 0 <= i < blocks@.len() implies #[trigger] blocks@[i].bbox.wf() by {
                assert(merged@[i].wf());
            }
            assert(blocks@ == self.blocks_from_components(components@));
        }
        blocks
    }

    /// Splits the page into text columns at vertical gaps wider than a
    /// twentieth of the page width.
    pub fn detect_columns(&self, blocks: &[TextBlock], image_width: u32) -> (columns: Vec<ColumnInfo>)
        requires
            blocks_wf(blocks@),
        ensures
            columns@ == columns_of(occupancy(blocks@, image_width as int), image_width as int),
    {
        let w = image_width as usize;
        let mut projection: Vec<usize> = Vec::new();
        let mut i: usize = 0;
        while i < w
            invariant
                w == image_width,
                i <= w,
                projection@.len() == i,
                forall|x: int| 0 <= x < i ==> #[trigger] projection@[x] == 0,
            decreases w - i,
        {
            projection.push(0);
            i = i + 1;
        }
        let mut k: usize = 0;
        while k < blocks.len()
            invariant
                w == image_width,
                k <= blocks@.len(),
                blocks_wf(blocks@),
                projection@.len() == w,
                forall|x: int|
                    0 <= x < w ==> #[trigger] projection@[x] == coverage(blocks@.subrange(0, k as int), x),
                forall|x: int| 0 <= x < w ==> #[trigger] projection@[x] <= k,
            decreases blocks@.len() - k,
        {
            assert(blocks@[k as int].bbox.wf());
            let b = blocks[k].bbox;
            let x_start: usize = if b.x <= 0 { 0 } else if b.x as u64 >= w as u64 { w } else { b.x as usize };
            let right = b.x + b.width;
            let x_end_raw: usize = if right <= 0 { 0 } else if right as u64 >= w as u64 { w } else { right as usize };
            let ghost before_proj = projection@;
            let mut x: usize = x_start;
            while x < x_end_raw
                invariant
                    x_start <= x <= x_end_raw <= w,
                    k < blocks@.len(),
                    blocks@.len() <= usize::MAX,
                    before_proj.len() == w,
                    projection@.len() == w,
                    forall|z: int|
                        0 <= z < w ==> #[trigger] projection@[z] == before_proj[z] + if x_start <= z < x {
                            1int
                        } else {
                            0int
                        },
                    forall|z: int| 0 <= z < w ==> before_proj[z] <= k,
                decreases x_end_raw - x,
            {
                assert(projection@[x as int] == before_proj[x as int]);
                assert(k + 1 <= blocks@.len());
                projection.set(x, projection[x] + 1);
                x = x + 1;
            }
            proof {
                let t = blocks@.subrange(0, k as int + 1);
                assert(t.drop_last() =~= blocks@.subrange(0, k as int));
                assert(t.last() == blocks@[k as int]);
                assert forall|z: int| 0 <= z < w implies #[trigger] projection@[z] == coverage(t, z) by {
                    assert((x_start <= z < x_end_raw) == (b.x <= z < b.right()));
                }
            }
            k = k + 1;
        }
        assert(blocks@.subrange(0, blocks@.len() as int) =~= blocks@);
        let ghost occ = occupancy(blocks@, w as int);
        let min_gap_width = image_width / 20;
        let mut columns: Vec<ColumnInfo> = Vec::new();
        let mut in_gap = false;
        let mut gap_start: usize = 0;
        let mut x: usize = 0;
        while x < w
            invariant
                w == image_width,
                x <= w,
                occ == occupancy(blocks@, w as int),
                projection@.len() == w,
                forall|z: int| 0 <= z < w ==> (#[trigger] projection@[z] > 0) == occ[z],
                (columns@, in_gap, gap_start as int) == column_scan(
                    occ.subrange(0, x as int),
                    min_gap_width as int,
                ),
                gap_start <= x,
                forall|c: int| 0 <= c < columns@.len() ==> 0 <= #[trigger] columns@[c].x_end <= x,
            decreases w - x,
        {
            let count = projection[x];
            proof {
                let t = occ.subrange(0, x as int + 1);
                assert(t.drop_last() =~= occ.subrange(0, x as int));
                assert(t.last() == occ[x as int]);
            }
            if count == 0 {
                if !in_gap {
                    gap_start = x;
                    in_gap = true;
                }
            } else if in_gap {
                let gap_width = x - gap_start;
                if gap_width > min_gap_width as usize {
                    let x_start: i64 = if columns.len() == 0 { 0 } else { columns[columns.len() - 1].x_end };
                    let idx = columns.len();
                    columns.push(ColumnInfo { index: idx, x_start, x_end: gap_start as i64 });
                }
                in_gap = false;
            }
            x = x + 1;
        }
        assert(occ.subrange(0, w as int) =~= occ);
        if columns.len() == 0 {
            columns.push(ColumnInfo { index: 0, x_start: 0, x_end: image_width as i64 });
            proof {
                assert(columns@ =~= seq![ColumnInfo { index: 0, x_start: 0, x_end: image_width as i64 }]);
            }
        } else {
            let x_start = columns[columns.len() - 1].x_end;
            let idx = columns.len();
            columns.push(ColumnInfo { index: idx, x_start, x_end: image_width as i64 });
        }
        columns
    }
}

/// Filtering keeps rectangles well formed.
proof fn lemma_filter_wf(s: Seq<Rect>, f: spec_fn(Rect) -> bool)
    requires
        all_wf(s),
    ensures
        all_wf(s.filter(f)),
    decreases s.len(),
{
    reveal_with_fuel(Seq::filter, 1);
    if s.len() > 0 {
        lemma_filter_wf(s.drop_last(), f);
        assert(s.last().wf());
    }
}

/// Sum of the heights of the rectangles.
pub fn total_height(blocks: &[Rect]) -> (total: i128)
    requires
        all_wf(blocks@),
    ensures
        total == sum_heights(blocks@),
        0 <= total <= blocks@.len() * 2147483648,
{
    let n = blocks.len();
    let mut total: i128 = 0;
    let mut i: usize = 0;
    while i < n
        invariant
            n == blocks@.len(),
            i <= n,
            all_wf(blocks@),
            total == sum_heights(blocks@.subrange(0, i as int)),
            0 <= total <= i * 2147483648,
        decreases n - i,
    {
        proof {
            let cur = blocks@.subrange(0, i as int + 1);
            assert(cur.drop_last() =~= blocks@.subrange(0, i as int));
            assert(blocks@[i as int].wf());
            assert(0 <= blocks@[i as int].height <= 2 * crate::geometry::COORD_LIMIT);
            assert((i + 1) * 2147483648 == i * 2147483648 + 2147483648) by (nonlinear_arith);
            assert(i * 2147483648 <= usize::MAX * 2147483648) by (nonlinear_arith)
                requires
                    i <= usize::MAX,
            ;
        }
        total = total + blocks[i].height as i128;
        i = i + 1;
    }
    assert(blocks@.subrange(0, n as int) =~= blocks@);
    total
}

/// Copies `s[p[i]]` for every `i`.
fn gather(s: &[Rect], p: &Vec<usize>) -> (res: Vec<Rect>)
    requires
        forall|i: int| 0 <= i < p@.len() ==> #[trigger] p@[i] < s@.len(),
    ensures
        res@ == permute(s@, p@),
{
    let mut res: Vec<Rect> = Vec::new();
    let mut i: usize = 0;
    while i < p.len()
        invariant
            i <= p@.len(),
            forall|j: int| 0 <= j < p@.len() ==> #[trigger] p@[j] < s@.len(),
            res@ == permute(s@, p@).subrange(0, i as int),
        decreases p@.len() - i,
    {
        res.push(s[p[i]]);
        i = i + 1;
    }
    assert(permute(s@, p@).subrange(0, p@.len() as int) =~= permute(s@, p@));
    res
}

/// The rectangles in stable ascending order of `y`.
pub fn sort_rects_by_y(s: &[Rect]) -> (res: Vec<Rect>)
    ensures
        res@ == sort_by_y(s@),
        crate::sorting::is_stable_order(ys(s@), stable_order_of(ys(s@))),
{
    let mut keys: Vec<i64> = Vec::new();
    let mut i: usize = 0;
    while i < s.len()
        invariant
            i <= s@.len(),
            keys@ == ys(s@).subrange(0, i as int),
        decreases s@.len() - i,
    {
        keys.push(s[i].y);
        i = i + 1;
    }
    assert(keys@ =~= ys(s@));
    let p = stable_order(&keys);
    gather(s, &p)
}

/// The rectangles in stable ascending order of `x`.
pub fn sort_rects_by_x(s: &[Rect]) -> (res: Vec<Rect>)
    ensures
        res@ == sort_by_x(s@),
        crate::sorting::is_stable_order(xs(s@), stable_order_of(xs(s@))),
{
    let mut keys: Vec<i64> = Vec::new();
    let mut i: usize = 0;
    while i < s.len()
        invariant
            i <= s@.len(),
            keys@ == xs(s@).subrange(0, i as int),
        decreases s@.len() - i,
    {
        keys.push(s[i].x);
        i = i + 1;
    }
    assert(keys@ =~= xs(s@));
    let p = stable_order(&keys);
    gather(s, &p)
}

/// A rearrangement of well-formed rectangles is well formed.
pub proof fn lemma_permute_wf(s: Seq<Rect>, p: Seq<usize>)
    requires
        all_wf(s),
        forall|i: int| 0 <= i < p.len() ==> #[trigger] p[i] < s.len(),
    ensures
        all_wf(permute(s, p)),
{
    assert forall|i: int| 0 <= i < permute(s, p).len() implies #[trigger] permute(s, p)[i].wf() by {
        assert(s[p[i] as int].wf());
    }
}

} // verus!
