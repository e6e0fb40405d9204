//! Row and column projections of a binary text map, and the runs of
//! non-empty rows and columns that split the map into text boxes.
use crate::bitmap::lemma_pixel_index;
use vstd::prelude::*;

verus! {

/// The maximal runs of nonzero entries of `p`, left to right, each as
/// `(start, end)` with `end` exclusive.
pub open spec fn runs(p: Seq<u32>) -> Seq<(int, int)>
    decreases p.len(),
{
    if p.len() == 0 {
        Seq::empty()
    } else {
        let r = runs(p.drop_last());
        let i = p.len() - 1;
        if p.last() == 0 {
            r
        } else if r.len() > 0 && r.last().1 == i {
            r.update(r.len() - 1, (r.last().0, i + 1))
        } else {
            r.push((i, i + 1))
        }
    }
}

/// `r` lists the maximal runs of nonzero entries of `p` in order: each run
/// is non-empty, lies in `p`, holds only nonzero entries and cannot be
/// extended on either side; runs are apart and ordered; every nonzero entry
/// lies in a run.
pub open spec fn are_nonzero_runs(p: Seq<u32>, r: Seq<(int, int)>) -> bool {
    &&& forall|k: int| 0 <= k < r.len() ==> 0 <= (#[trigger] r[k]).0 < r[k].1 <= p.len()
    &&& forall|k: int, i: int| 0 <= k < r.len() && (#[trigger] r[k]).0 <= i < r[k].1 ==> #[trigger] p[i] > 0
    &&& forall|k: int| 0 <= k < r.len() ==> (#[trigger] r[k]).0 == 0 || p[r[k].0 - 1] == 0
    &&& forall|k: int| 0 <= k < r.len() ==> (#[trigger] r[k]).1 == p.len() || p[r[k].1] == 0
    &&& forall|k: int, l: int| 0 <= k < l < r.len() ==> (#[trigger] r[k]).1 < (#[trigger] r[l]).0
    &&& forall|i: int|
        0 <= i < p.len() && #[trigger] p[i] > 0 ==> exists|k: int|
            0 <= k < r.len() && (#[trigger] r[k]).0 <= i < r[k].1
}

/// The runs as integer pairs.
pub open spec fn pairs_view(v: Seq<(usize, usize)>) -> Seq<(int, int)> {
    v.map_values(|r: (usize, usize)| (r.0 as int, r.1 as int))
}

/// The last run of a prefix ends inside it, and ends at its end only if its
/// last entry is nonzero.
proof fn lemma_runs_last(p: Seq<u32>)
    ensures
        runs(p).len() > 0 ==> 0 <= runs(p).last().0 < runs(p).last().1 <= p.len(),
        runs(p).len() > 0 && runs(p).last().1 == p.len() ==> p.len() > 0 && p.last() > 0,
    decreases p.len(),
{
    if p.len() > 0 {
        lemma_runs_last(p.drop_last());
    }
}

/// [`runs`] lists exactly the maximal runs of nonzero entries.
pub proof fn lemma_runs_are_nonzero_runs(p: Seq<u32>)
    ensures
        are_nonzero_runs(p, runs(p)),
    decreases p.len(),
{
    if p.len() > 0 {
        let q = p.drop_last();
        lemma_runs_are_nonzero_runs(q);
        lemma_runs_last(q);
        let r = runs(q);
        let n = q.len() as int;
        assert forall|i: int| 0 <= i < n implies p[i] == #[trigger] q[i] by {}
        if p.last() == 0 {
            assert(runs(p) == r);
            assert forall|k: int, i: int| 0 <= k < r.len() && (#[trigger] r[k]).0 <= i < r[k].1
                implies #[trigger] p[i] > 0 by {
                assert(q[i] > 0);
            }
            assert forall|i: int| 0 <= i < p.len() && #[trigger] p[i] > 0 implies exists|k: int|
                0 <= k < r.len() && (#[trigger] r[k]).0 <= i < r[k].1 by {
                assert(q[i] > 0);
            }
        } else if r.len() > 0 && r.last().1 == n {
            let s = runs(p);
            let last = r.len() - 1;
            assert(s == r.update(last, (r[last].0, n + 1)));
            assert forall|k: int, i: int| 0 <= k < s.len() && (#[trigger] s[k]).0 <= i < s[k].1
                implies #[trigger] p[i] > 0 by {
                if i < n {
                    assert(q[i] > 0);
                }
            }
            assert forall|k: int, l: int| 0 <= k < l < s.len() implies (#[trigger] s[k]).1 < (
            #[trigger] s[l]).0 by {
                assert(r[k].1 < r[l].0);
            }
            assert forall|k: int| 0 <= k < s.len() implies (#[trigger] s[k]).1 == p.len() || p[s[k].1]
                == 0 by {
                if k < last {
                    assert(r[k].1 < r[last].0);
                    assert(q[r[k].1] == 0);
                }
            }
            assert forall|i: int| 0 <= i < p.len() && #[trigger] p[i] > 0 implies exists|k: int|
                0 <= k < s.len() && (#[trigger] s[k]).0 <= i < s[k].1 by {
                if i < n {
                    assert(q[i] > 0);
                    let k = choose|k: int| 0 <= k < r.len() && (#[trigger] r[k]).0 <= i < r[k].1;
                    assert(s[k].0 <= i < s[k].1);
                } else {
                    assert(s[last].0 <= i < s[last].1);
                }
            }
        } else {
            let s = runs(p);
            assert(s == r.push((n, n + 1)));
            // The entry before the new run is zero: otherwise some run of the
            // prefix covers it, ends at the prefix's end and is the last one.
            if n > 0 && q[n - 1] > 0 {
                let k = choose|k: int| 0 <= k < r.len() && (#[trigger] r[k]).0 <= n - 1 < r[k].1;
                assert(r[k].1 == n);
                if k < r.len() - 1 {
                    assert(r[k].1 < r[r.len() - 1].0);
                }
                assert(false);
            }
            assert forall|k: int| 0 <= k < r.len() implies (#[trigger] r[k]).1 < n by {
                if k < r.len() - 1 {
                    assert(r[k].1 < r[r.len() - 1].0);
                }
            }
            assert forall|k: int, i: int| 0 <= k < s.len() && (#[trigger] s[k]).0 <= i < s[k].1
                implies #[trigger] p[i] > 0 by {
                if k < r.len() {
                    assert(q[i] > 0);
                }
            }
            assert forall|k: int| 0 <= k < s.len() implies (#[trigger] s[k]).0 == 0 || p[s[k].0 - 1]
                == 0 by {
                if k < r.len() {
                    assert(r[k].0 == 0 || q[r[k].0 - 1] == 0);
                }
            }
            assert forall|k: int| 0 <= k < s.len() implies (#[trigger] s[k]).1 == p.len() || p[s[k].1]
                == 0 by {
                if k < r.len() {
                    assert(r[k].1 < n);
                    assert(q[r[k].1] == 0);
                }
            }
            assert forall|k: int, l: int| 0 <= k < l < s.len() implies (#[trigger] s[k]).1 < (
            #[trigger] s[l]).0 by {
                if l < r.len() {
                    assert(r[k].1 < r[l].0);
                } else {
                    assert(r[k].1 < n);
                }
            }
            assert forall|i: int| 0 <= i < p.len() && #[trigger] p[i] > 0 implies exists|k: int|
                0 <= k < s.len() && (#[trigger] s[k]).0 <= i < s[k].1 by {
                if i < n {
                    assert(q[i] > 0);
                    let k = choose|k: int| 0 <= k < r.len() && (#[trigger] r[k]).0 <= i < r[k].1;
                    assert(s[k] == r[k]);
                } else {
                    assert(s[r.len() as int].0 <= i < s[r.len() as int].1);
                }
            }
        }
    }
}

/// The maximal runs of nonzero entries of `proj`, as `(start, end)` pairs
/// with `end` exclusive, left to right.
pub fn find_nonzero_ranges(proj: &[u32]) -> (ranges: Vec<(usize, usize)>)
    ensures
        pairs_view(ranges@) == runs(proj@),
        are_nonzero_runs(proj@, pairs_view(ranges@)),
{
    let ghost p = proj@;
    let mut ranges: Vec<(usize, usize)> = Vec::new();
    let mut i: usize = 0;
    while i < proj.len()
        invariant
            i <= p.len(),
            p == proj@,
            pairs_view(ranges@) == runs(p.subrange(0, i as int)),
            i == 0 || p[i - 1] == 0 || i == p.len() || p[i as int] == 0,
        decreases p.len() - i,
    {
        proof {
            lemma_runs_last(p.subrange(0, i as int));
        }
        if proj[i] > 0 {
            let start = i;
            let ghost before = ranges@;
            proof {
                let q = p.subrange(0, i as int + 1);
                assert(q.drop_last() =~= p.subrange(0, i as int));
                let r = runs(p.subrange(0, i as int));
                if r.len() > 0 && r.last().1 == i {
                    assert(p.subrange(0, i as int).last() == p[i - 1]);
                }
                assert(runs(q) == r.push((i as int, i as int + 1)));
            }
            i = i + 1;
            while i < proj.len() && proj[i] > 0
                invariant
                    start < i <= p.len(),
                    p == proj@,
                    pairs_view(before) + seq![(start as int, i as int)] == runs(p.subrange(0, i as int)),
                decreases p.len() - i,
            {
                proof {
                    let q = p.subrange(0, i as int + 1);
                    assert(q.drop_last() =~= p.subrange(0, i as int));
                    let r = runs(p.subrange(0, i as int));
                    assert(r.last() == (start as int, i as int));
                    assert(runs(q) =~= pairs_view(before) + seq![(start as int, i as int + 1)]);
                }
                i = i + 1;
            }
            ranges.push((start, i));
            proof {
                assert(pairs_view(ranges@) =~= pairs_view(before) + seq![(start as int, i as int)]);
            }
        } else {
            proof {
                let q = p.subrange(0, i as int + 1);
                assert(q.drop_last() =~= p.subrange(0, i as int));
            }
            i = i + 1;
        }
    }
    proof {
        assert(p.subrange(0, p.len() as int) =~= p);
        lemma_runs_are_nonzero_runs(p);
    }
    ranges
}

/// Number of nonzero values in `s`.
pub open spec fn count_nonzero(s: Seq<u8>) -> nat
    decreases s.len(),
{
    if s.len() == 0 {
        0
    } else {
        count_nonzero(s.drop_last()) + if s.last() > 0 {
            1nat
        } else {
            0nat
        }
    }
}

/// Row `y` of a row-major map of the given width.
pub open spec fn map_row(map: Seq<u8>, width: int, y: int) -> Seq<u8> {
    map.subrange(y * width, y * width + width)
}

/// The horizontal projection: each row's number of nonzero values.
pub open spec fn row_counts(map: Seq<u8>, width: int, height: int) -> Seq<u32> {
    Seq::new(height as nat, |y: int| count_nonzero(map_row(map, width, y)) as u32)
}

/// Number of rows `y` in `[y0, y1)` whose value in column `x` is nonzero.
pub open spec fn column_count(map: Seq<u8>, width: int, x: int, y0: int, y1: int) -> nat
    decreases y1 - y0,
{
    if y1 <= y0 {
        0
    } else {
        column_count(map, width, x, y0, y1 - 1) + if map[(y1 - 1) * width + x] > 0 {
            1nat
        } else {
            0nat
        }
    }
}

/// The vertical projection of the rows `[y0, y1)`: each column's number of
/// nonzero values.
pub open spec fn column_counts(map: Seq<u8>, width: int, y0: int, y1: int) -> Seq<u32> {
    Seq::new(width as nat, |x: int| column_count(map, width, x, y0, y1) as u32)
}

/// The boxes of the given row bands: for each band in order, the runs of
/// non-empty columns within it, as `(row_start, row_end, col_start, col_end)`.
pub open spec fn band_boxes(map: Seq<u8>, width: int, rows: Seq<(int, int)>) -> Seq<(int, int, int, int)>
    decreases rows.len(),
{
    if rows.len() == 0 {
        Seq::empty()
    } else {
        let b = rows.last();
        band_boxes(map, width, rows.drop_last()) + runs(column_counts(map, width, b.0, b.1)).map_values(
            |c: (int, int)| (b.0, b.1, c.0, c.1),
        )
    }
}

/// The text boxes of a binary map: the runs of non-empty rows, each split
/// into the runs of its non-empty columns.
pub open spec fn text_boxes(map: Seq<u8>, width: int, height: int) -> Seq<(int, int, int, int)> {
    band_boxes(map, width, runs(row_counts(map, width, height)))
}

/// The boxes as integer quadruples.
pub open spec fn quad_view(v: Seq<(usize, usize, usize, usize)>) -> Seq<(int, int, int, int)> {
    v.map_values(|b: (usize, usize, usize, usize)| (b.0 as int, b.1 as int, b.2 as int, b.3 as int))
}

proof fn lemma_row_bounds(width: int, height: int, y: int)
    requires
        0 <= y < height,
        0 <= width,
    ensures
        0 <= y * width,
        y * width + width <= height * width,
{
    assert(0 <= y * width) by (nonlinear_arith)
        requires 0 <= y, 0 <= width;
    assert(y * width + width <= height * width) by (nonlinear_arith)
        requires 0 <= y < height, 0 <= width;
}

/// The horizontal projection of a `height` × `width` row-major map.
pub fn row_projection(binary: &[u8], height: usize, width: usize) -> (proj: Vec<u32>)
    requires
        binary@.len() == height * width,
        width <= u32::MAX,
    ensures
        proj@ == row_counts(binary@, width as int, height as int),
{
    let ghost b = binary@;
    let total: usize = binary.len();
    let mut proj: Vec<u32> = Vec::new();
    let mut y: usize = 0;
    while y < height
        invariant
            y <= height,
            b == binary@,
            total == b.len(),
            b.len() == height * width,
            width <= u32::MAX,
            proj@.len() == y,
            forall|yy: int| 0 <= yy < y ==> proj@[yy] == row_counts(b, width as int, height as int)[yy],
        decreases height - y,
    {
        proof {
            lemma_row_bounds(width as int, height as int, y as int);
        }
        let row = y * width;
        let ghost line = map_row(b, width as int, y as int);
        let mut count: u32 = 0;
        let mut x: usize = 0;
        while x < width
            invariant
                x <= width,
                width <= u32::MAX,
                b == binary@,
                row == y * width,
                row + width <= b.len(),
                total == b.len(),
                line == b.subrange(row as int, row + width),
                count as int == count_nonzero(line.subrange(0, x as int)),
                count <= x,
            decreases width - x,
        {
            proof {
                assert(line.subrange(0, x as int + 1).drop_last() =~= line.subrange(0, x as int));
            }
            if binary[row + x] > 0 {
                count = count + 1;
            }
            x = x + 1;
        }
        proof {
            assert(line.subrange(0, width as int) =~= line);
        }
        proj.push(count);
        y = y + 1;
    }
    assert(proj@ =~= row_counts(b, width as int, height as int));
    proj
}

/// The vertical projection of the rows `[row_start, row_end)` of a
/// `height` × `width` row-major map.
pub fn column_projection(
    binary: &[u8],
    height: usize,
    width: usize,
    row_start: usize,
    row_end: usize,
) -> (proj: Vec<u32>)
    requires
        binary@.len() == height * width,
        row_start <= row_end <= height,
        row_end - row_start <= u32::MAX,
    ensures
        proj@ == column_counts(binary@, width as int, row_start as int, row_end as int),
{
    let ghost b = binary@;
    let mut proj: Vec<u32> = Vec::new();
    let mut x: usize = 0;
    while x < width
        invariant
            x <= width,
            proj@.len() == x,
            forall|xx: int| 0 <= xx < x ==> proj@[xx] == 0,
        decreases width - x,
    {
        proj.push(0);
        x = x + 1;
    }
    let total: usize = binary.len();
    let mut y: usize = row_start;
    while y < row_end
        invariant
            total == b.len(),
            row_start <= y <= row_end <= height,
            row_end - row_start <= u32::MAX,
            b == binary@,
            b.len() == height * width,
            proj@.len() == width,
            forall|xx: int|
                0 <= xx < width ==> proj@[xx] as int == column_count(
                    b,
                    width as int,
                    xx,
                    row_start as int,
                    y as int,
                ) && proj@[xx] <= y - row_start,
        decreases row_end - y,
    {
        proof {
            lemma_row_bounds(width as int, height as int, y as int);
        }
        let row = y * width;
        let mut x: usize = 0;
        while x < width
            invariant
                x <= width,
                row_start <= y < row_end <= height,
                row_end - row_start <= u32::MAX,
                b == binary@,
                row == y * width,
                row + width <= b.len(),
                total == b.len(),
                proj@.len() == width,
                forall|xx: int|
                    0 <= xx < x ==> proj@[xx] as int == column_count(
                        b,
                        width as int,
                        xx,
                        row_start as int,
                        y + 1,
                    ) && proj@[xx] <= y + 1 - row_start,
                forall|xx: int|
                    x <= xx < width ==> proj@[xx] as int == column_count(
                        b,
                        width as int,
                        xx,
                        row_start as int,
                        y as int,
                    ) && proj@[xx] <= y - row_start,
            decreases width - x,
        {
            proof {
                assert(column_count(b, width as int, x as int, row_start as int, y + 1) == column_count(
                    b,
                    width as int,
                    x as int,
                    row_start as int,
                    y as int,
                ) + if b[y * width + x] > 0 {
                    1nat
                } else {
                    0nat
                });
            }
            if binary[row + x] > 0 {
                let c = proj[x];
                proj.set(x, c + 1);
            }
            x = x + 1;
        }
        y = y + 1;
    }
    assert(proj@ =~= column_counts(b, width as int, row_start as int, row_end as int));
    proj
}

/// The text boxes of a `height` × `width` binary map, as
/// `(row_start, row_end, col_start, col_end)` with exclusive ends: the runs
/// of rows holding a nonzero value, each split into the runs of columns that
/// hold a nonzero value within those rows (see [`text_boxes`]).
pub fn text_bands(binary: &[u8], height: usize, width: usize) -> (boxes: Vec<(usize, usize, usize, usize)>)
    requires
        binary@.len() == height * width,
        width <= u32::MAX,
        height <= u32::MAX,
    ensures
        quad_view(boxes@) == text_boxes(binary@, width as int, height as int),
{
    let ghost b = binary@;
    let rows_proj = row_projection(binary, height, width);
    let row_bands = find_nonzero_ranges(rows_proj.as_slice());
    let ghost rows = pairs_view(row_bands@);
    assert(rows == runs(row_counts(b, width as int, height as int)));
    let mut boxes: Vec<(usize, usize, usize, usize)> = Vec::new();
    let mut k: usize = 0;
    while k < row_bands.len()
        invariant
            k <= row_bands@.len(),
            b == binary@,
            b.len() == height * width,
            height <= u32::MAX,
            rows == pairs_view(row_bands@),
            are_nonzero_runs(rows_proj@, rows),
            rows_proj@.len() == height,
            quad_view(boxes@) == band_boxes(b, width as int, rows.subrange(0, k as int)),
        decreases row_bands@.len() - k,
    {
        let (row_start, row_end) = row_bands[k];
        proof {
            assert(rows[k as int] == (row_start as int, row_end as int));
        }
        let cols_proj = column_projection(binary, height, width, row_start, row_end);
        let col_bands = find_nonzero_ranges(cols_proj.as_slice());
        let ghost cols = runs(column_counts(b, width as int, row_start as int, row_end as int));
        let ghost added = cols.map_values(|c: (int, int)| (row_start as int, row_end as int, c.0, c.1));
        let ghost before = quad_view(boxes@);
        let mut j: usize = 0;
        while j < col_bands.len()
            invariant
                j <= col_bands@.len(),
                pairs_view(col_bands@) == cols,
                added == cols.map_values(|c: (int, int)| (row_start as int, row_end as int, c.0, c.1)),
                quad_view(boxes@) == before + added.subrange(0, j as int),
            decreases col_bands@.len() - j,
        {
            let (col_start, col_end) = col_bands[j];
            let ghost old_boxes = boxes@;
            boxes.push((row_start, row_end, col_start, col_end));
            proof {
                assert(pairs_view(col_bands@)[j as int] == (col_start as int, col_end as int));
                assert(added[j as int] == (row_start as int, row_end as int, col_start as int, col_end as int));
                assert(quad_view(boxes@) =~= quad_view(old_boxes).push(
                    (row_start as int, row_end as int, col_start as int, col_end as int),
                ));
                assert(quad_view(boxes@) =~= before + added.subrange(0, j as int + 1));
            }
            j = j + 1;
        }
        proof {
            assert(added.subrange(0, added.len() as int) =~= added);
            let upto = rows.subrange(0, k as int + 1);
            assert(upto.drop_last() =~= rows.subrange(0, k as int));
            assert(upto.last() == (row_start as int, row_end as int));
        }
        k = k + 1;
    }
    proof {
        assert(rows.subrange(0, rows.len() as int) =~= rows);
    }
    boxes
}

} // verus!
