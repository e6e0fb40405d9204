//! Binarisation of grey-level pages: fixed threshold, Otsu's global
//! threshold and a local-mean threshold computed from an integral image, and
//! the row-projection variance used to measure skew.
use crate::bitmap::{lemma_pixel_index, pixel_index, Bitmap, MAX_DIM};
use crate::types::{BinarizationMethod, PreprocessingConfig};
use vstd::prelude::*;

verus! {

/// Sum of the pixels of row `y` from column `x0` (included) to `x1`
/// (excluded), in a row-major image of width `w`.
pub open spec fn row_sum(p: Seq<u8>, w: int, y: int, x0: int, x1: int) -> int
    decreases x1 - x0,
{
    if x1 <= x0 {
        0
    } else {
        row_sum(p, w, y, x0, x1 - 1) + p[pixel_index(w, x1 - 1, y)]
    }
}

/// Sum of the pixels in columns `x0..x1` and rows `y0..y1`.
pub open spec fn window_sum(p: Seq<u8>, w: int, x0: int, x1: int, y0: int, y1: int) -> int
    decreases y1 - y0,
{
    if y1 <= y0 {
        0
    } else {
        window_sum(p, w, x0, x1, y0, y1 - 1) + row_sum(p, w, y1 - 1, x0, x1)
    }
}

proof fn lemma_row_split(p: Seq<u8>, w: int, y: int, x0: int, x1: int, x2: int)
    requires
        x0 <= x1 <= x2,
    ensures
        row_sum(p, w, y, x0, x2) == row_sum(p, w, y, x0, x1) + row_sum(p, w, y, x1, x2),
    decreases x2 - x1,
{
    if x2 > x1 {
        lemma_row_split(p, w, y, x0, x1, x2 - 1);
    }
}

proof fn lemma_window_split_y(p: Seq<u8>, w: int, x0: int, x1: int, y0: int, y1: int, y2: int)
    requires
        y0 <= y1 <= y2,
    ensures
        window_sum(p, w, x0, x1, y0, y2) == window_sum(p, w, x0, x1, y0, y1) + window_sum(
            p,
            w,
            x0,
            x1,
            y1,
            y2,
        ),
    decreases y2 - y1,
{
    if y2 > y1 {
        lemma_window_split_y(p, w, x0, x1, y0, y1, y2 - 1);
    }
}

proof fn lemma_window_split_x(p: Seq<u8>, w: int, x0: int, x1: int, x2: int, y0: int, y1: int)
    requires
        x0 <= x1 <= x2,
        y0 <= y1,
    ensures
        window_sum(p, w, x0, x2, y0, y1) == window_sum(p, w, x0, x1, y0, y1) + window_sum(
            p,
            w,
            x1,
            x2,
            y0,
            y1,
        ),
    decreases y1 - y0,
{
    if y1 > y0 {
        lemma_window_split_x(p, w, x0, x1, x2, y0, y1 - 1);
        lemma_row_split(p, w, y1 - 1, x0, x1, x2);
    }
}

proof fn lemma_window_empty(p: Seq<u8>, w: int, x: int, y0: int, y1: int)
    ensures
        window_sum(p, w, x, x, y0, y1) == 0,
    decreases y1 - y0,
{
    if y1 > y0 {
        lemma_window_empty(p, w, x, y0, y1 - 1);
    }
}

proof fn lemma_row_bounds(p: Seq<u8>, w: int, y: int, x0: int, x1: int)
    requires
        x0 <= x1,
    ensures
        0 <= row_sum(p, w, y, x0, x1) <= 255 * (x1 - x0),
    decreases x1 - x0,
{
    if x1 > x0 {
        lemma_row_bounds(p, w, y, x0, x1 - 1);
    }
}

pub proof fn lemma_window_bounds(p: Seq<u8>, w: int, x0: int, x1: int, y0: int, y1: int)
    requires
        x0 <= x1,
        y0 <= y1,
    ensures
        0 <= window_sum(p, w, x0, x1, y0, y1) <= 255 * (x1 - x0) * (y1 - y0),
    decreases y1 - y0,
{
    if y1 > y0 {
        lemma_window_bounds(p, w, x0, x1, y0, y1 - 1);
        lemma_row_bounds(p, w, y1 - 1, x0, x1);
        assert(255 * (x1 - x0) * (y1 - 1 - y0) + 255 * (x1 - x0) == 255 * (x1 - x0) * (y1 - y0))
            by (nonlinear_arith);
    }
}

/// The sum over a window from the sums over the four corner blocks
/// (inclusion–exclusion on a summed-area table).
pub proof fn lemma_window_from_blocks(p: Seq<u8>, w: int, x1: int, x2: int, y1: int, y2: int)
    requires
        0 <= x1 <= x2,
        0 <= y1 <= y2,
    ensures
        window_sum(p, w, 0, x2, 0, y2) - window_sum(p, w, 0, x2, 0, y1) - window_sum(
            p,
            w,
            0,
            x1,
            0,
            y2,
        ) + window_sum(p, w, 0, x1, 0, y1) == window_sum(p, w, x1, x2, y1, y2),
{
    lemma_window_split_y(p, w, 0, x2, 0, y1, y2);
    lemma_window_split_y(p, w, 0, x1, 0, y1, y2);
    lemma_window_split_x(p, w, 0, x1, x2, y1, y2);
}

proof fn lemma_mean_in_range(sum: int, count: int, a: int, b: int)
    requires
        count == a * b,
        a >= 1,
        b >= 1,
        0 <= sum <= 255 * a * b,
    ensures
        count >= 1,
        0 <= sum / count <= 255,
{
    assert(255 * a * b == 255 * count) by (nonlinear_arith)
        requires
            count == a * b,
    ;
    assert(count >= 1) by (nonlinear_arith)
        requires
            count == a * b,
            a >= 1,
            b >= 1,
    ;
    assert(0 <= sum / count <= 255) by (nonlinear_arith)
        requires
            count >= 1,
            0 <= sum <= 255 * count,
    ;
}

/// A summed-area table of an image: `table[y][x]` is the sum of the pixels
/// above row `y` and left of column `x`.
pub struct IntegralImage {
    table: Vec<Vec<u64>>,
    width: u32,
    height: u32,
    source: Ghost<Seq<u8>>,
}

impl IntegralImage {
    #[verifier::type_invariant]
    spec fn sums_blocks(&self) -> bool {
        &&& self.width <= MAX_DIM
        &&& self.height <= MAX_DIM
        &&& self.source@.len() == self.width * self.height
        &&& self.table@.len() == self.height + 1
        &&& forall|y: int| 0 <= y <= self.height ==> (#[trigger] self.table@[y])@.len() == self.width + 1
        &&& forall|y: int, x: int|
            0 <= y <= self.height && 0 <= x <= self.width ==> (#[trigger] self.table@[y]@[x]) as int
                == window_sum(self.source@, self.width as int, 0, x, 0, y)
    }

    /// The pixels the table sums.
    pub closed spec fn pixels(&self) -> Seq<u8> {
        self.source@
    }

    pub closed spec fn spec_width(&self) -> u32 {
        self.width
    }

    pub closed spec fn spec_height(&self) -> u32 {
        self.height
    }
}

/// The window of radius `half` around `(x, y)`, clipped to the image:
/// first column, last column, first row, last row (all included).
pub open spec fn clipped_window(x: int, y: int, half: int, width: int, height: int) -> (
    int,
    int,
    int,
    int,
) {
    let x1 = if x >= half {
        x - half
    } else {
        0
    };
    let y1 = if y >= half {
        y - half
    } else {
        0
    };
    let wl = if width >= 1 {
        width - 1
    } else {
        0
    };
    let hl = if height >= 1 {
        height - 1
    } else {
        0
    };
    let x2 = if x + half <= wl {
        x + half
    } else {
        wl
    };
    let y2 = if y + half <= hl {
        y + half
    } else {
        hl
    };
    (x1, x2, y1, y2)
}

/// The mean grey level, rounded down, of the clipped window of radius `half`
/// around `(x, y)`; 128 when the window is empty.
pub open spec fn local_mean(p: Seq<u8>, img_width: int, x: int, y: int, half: int, width: int, height: int) -> int {
    let (x1, x2, y1, y2) = clipped_window(x, y, half, width, height);
    if x2 < x1 || y2 < y1 {
        128
    } else {
        window_sum(p, img_width, x1, x2 + 1, y1, y2 + 1) / ((x2 - x1 + 1) * (y2 - y1 + 1))
    }
}

/// The block size of the local-mean threshold: max(15, min(w, h) / 40).
pub open spec fn adaptive_block_size(width: int, height: int) -> int {
    let m = if width <= height {
        width
    } else {
        height
    };
    if m / 40 > 15 {
        m / 40
    } else {
        15
    }
}

/// `a − b`, or 0 below.
pub open spec fn saturating_sub(a: int, b: int) -> int {
    if a >= b {
        a - b
    } else {
        0
    }
}

/// The pixels of `out` are those of `img` set to 255 where `keep` holds and
/// to 0 elsewhere, on the same grid.
pub open spec fn same_grid(img: Bitmap, out: Bitmap) -> bool {
    &&& out.wf()
    &&& out.width == img.width
    &&& out.height == img.height
}


/// `out` is `img` thresholded at `t`: white (255) above `t`, black (0) at
/// or below.
pub open spec fn thresholded(img: Bitmap, out: Bitmap, t: int) -> bool {
    &&& same_grid(img, out)
    &&& forall|i: int|
        0 <= i < out.pixels@.len() ==> #[trigger] out.pixels@[i] == if img.pixels@[i] > t {
            255u8
        } else {
            0u8
        }
}

/// `out` is `img` thresholded pixel by pixel at the local mean of its window
/// less 10 (see [`local_mean`] and [`adaptive_block_size`]).
pub open spec fn locally_thresholded(img: Bitmap, out: Bitmap) -> bool {
    &&& same_grid(img, out)
    &&& forall|x: int, y: int|
        img.in_bounds(x, y) ==> #[trigger] out.px(x, y) == if img.px(x, y) as int > saturating_sub(
            local_mean(
                img.pixels@,
                img.width as int,
                x,
                y,
                adaptive_block_size(img.width as int, img.height as int) / 2,
                img.width as int,
                img.height as int,
            ),
            10,
        ) {
            255u8
        } else {
            0u8
        }
}

/// Number of dark pixels (below 128) in row `y`, among the first `k` columns.
pub open spec fn dark_count(img: Bitmap, y: int, k: int) -> int
    decreases k,
{
    if k <= 0 {
        0
    } else {
        dark_count(img, y, k - 1) + if img.px(k - 1, y) < 128 {
            1int
        } else {
            0int
        }
    }
}

/// The dark-pixel counts of the first `k` rows.
pub open spec fn row_projections(img: Bitmap, k: int) -> Seq<int>
    decreases k,
{
    if k <= 0 {
        Seq::empty()
    } else {
        row_projections(img, k - 1).push(dark_count(img, k - 1, img.width as int))
    }
}

/// Sum of a list of integers.
pub open spec fn int_sum(s: Seq<int>) -> int
    decreases s.len(),
{
    if s.len() == 0 {
        0
    } else {
        int_sum(s.drop_last()) + s.last()
    }
}

/// Sum of the squares of a list of integers.
pub open spec fn int_sum_sq(s: Seq<int>) -> int
    decreases s.len(),
{
    if s.len() == 0 {
        0
    } else {
        int_sum_sq(s.drop_last()) + s.last() * s.last()
    }
}

/// Variance of the rows' dark-pixel counts, in millionths, rounded down:
/// with `n` rows, `10⁶ · (n Σv² − (Σv)²) / n²`; 0 for an image with no rows.
pub open spec fn projection_variance_ppm(img: Bitmap) -> int {
    let v = row_projections(img, img.height as int);
    let n = v.len() as int;
    if n == 0 {
        0
    } else {
        (1000000 * (n * int_sum_sq(v) - int_sum(v) * int_sum(v))) / (n * n)
    }
}


/// `Σ (v − a)²` expanded: `Σv² − 2aΣv + n a²` is never negative.
proof fn lemma_spread_nonneg(s: Seq<int>, a: int)
    ensures
        int_sum_sq(s) - 2 * a * int_sum(s) + (s.len() as int) * a * a >= 0,
    decreases s.len(),
{
    if s.len() > 0 {
        let t = s.drop_last();
        let b = s.last();
        lemma_spread_nonneg(t, a);
        assert(int_sum_sq(s) - 2 * a * int_sum(s) + (s.len() as int) * a * a == (int_sum_sq(t) - 2
            * a * int_sum(t) + (t.len() as int) * a * a) + (b - a) * (b - a)) by (nonlinear_arith)
            requires
                int_sum_sq(s) == int_sum_sq(t) + b * b,
                int_sum(s) == int_sum(t) + b,
                s.len() == t.len() + 1,
        ;
        assert((b - a) * (b - a) >= 0) by (nonlinear_arith);
    }
}

/// `(Σv)² ≤ n Σv²`.
pub proof fn lemma_sum_square_bound(s: Seq<int>)
    ensures
        int_sum(s) * int_sum(s) <= (s.len() as int) * int_sum_sq(s),
    decreases s.len(),
{
    if s.len() > 0 {
        let t = s.drop_last();
        let b = s.last();
        lemma_sum_square_bound(t);
        lemma_spread_nonneg(t, b);
        let n = t.len() as int;
        assert((n + 1) * int_sum_sq(s) - int_sum(s) * int_sum(s) == (n * int_sum_sq(t) - int_sum(t)
            * int_sum(t)) + (int_sum_sq(t) - 2 * b * int_sum(t) + n * b * b)) by (nonlinear_arith)
            requires
                int_sum_sq(s) == int_sum_sq(t) + b * b,
                int_sum(s) == int_sum(t) + b,
        ;
    }
}


/// How many of the values equal `v`.
pub open spec fn value_count(p: Seq<u8>, v: int) -> int
    decreases p.len(),
{
    if p.len() == 0 {
        0
    } else {
        value_count(p.drop_last(), v) + if p.last() as int == v {
            1int
        } else {
            0int
        }
    }
}

/// The grey-level histogram: how many pixels have each value 0 to 255.
pub open spec fn histogram_of(p: Seq<u8>) -> Seq<int> {
    Seq::new(256, |v: int| value_count(p, v))
}

/// `Σ_{t<k} h[t]`.
pub open spec fn cumulative(h: Seq<int>, k: int) -> int
    decreases k,
{
    if k <= 0 {
        0
    } else {
        cumulative(h, k - 1) + h[k - 1]
    }
}

/// `Σ_{t<k} t · h[t]`.
pub open spec fn weighted(h: Seq<int>, k: int) -> int
    decreases k,
{
    if k <= 0 {
        0
    } else {
        weighted(h, k - 1) + (k - 1) * h[k - 1]
    }
}

/// Otsu's scan over the thresholds `0..k` of a histogram `h` of `n` pixels
/// with grey-level sum `s`: background weight and sum so far, the best
/// `(X, P)` so far, the best threshold, and whether the scan stopped (the
/// foreground became empty).  Threshold `t` splits the pixels into
/// `≤ t` (background) and `> t`; its between-class variance
/// `wB·wF·(μB − μF)²` equals `X² / P` with `X = n·sumB − s·wB` and
/// `P = wB·wF`.  A threshold replaces the best one when its variance is
/// strictly larger (the first 0 counts as the initial best variance).
pub open spec fn otsu_scan(h: Seq<int>, n: int, s: int, k: int) -> (int, int, int, int, int, bool)
    decreases k,
{
    if k <= 0 {
        (0, 0, 0, 1, 0, false)
    } else {
        let (wb, sb, bx, bp, bt, stopped) = otsu_scan(h, n, s, k - 1);
        let t = k - 1;
        if stopped {
            (wb, sb, bx, bp, bt, true)
        } else {
            let wb2 = wb + h[t];
            if wb2 == 0 {
                (wb2, sb, bx, bp, bt, false)
            } else if n - wb2 == 0 {
                (wb2, sb, bx, bp, bt, true)
            } else {
                let sb2 = sb + t * h[t];
                let x = sb2 * n - s * wb2;
                let p = wb2 * (n - wb2);
                if x * x * bp > bx * bx * p {
                    (wb2, sb2, x, p, t, false)
                } else {
                    (wb2, sb2, bx, bp, bt, false)
                }
            }
        }
    }
}

/// Otsu's threshold of the pixels: the first grey level that maximises the
/// between-class variance (0 when no level separates two non-empty classes).
pub open spec fn otsu_threshold(p: Seq<u8>) -> int {
    let h = histogram_of(p);
    otsu_scan(h, p.len() as int, weighted(h, 256), 256).4
}


proof fn lemma_cumulative_shift(h1: Seq<int>, h2: Seq<int>, v: int, k: int)
    requires
        0 <= k <= 256,
        h1.len() == 256,
        h2.len() == 256,
        forall|t: int| 0 <= t < 256 ==> #[trigger] h2[t] == h1[t] + if t == v {
            1int
        } else {
            0int
        },
    ensures
        cumulative(h2, k) == cumulative(h1, k) + if 0 <= v < k {
            1int
        } else {
            0int
        },
    decreases k,
{
    if k > 0 {
        lemma_cumulative_shift(h1, h2, v, k - 1);
    }
}

/// The histogram counts every pixel once.
pub proof fn lemma_histogram_total(p: Seq<u8>)
    ensures
        cumulative(histogram_of(p), 256) == p.len(),
    decreases p.len(),
{
    if p.len() > 0 {
        let q = p.drop_last();
        lemma_histogram_total(q);
        let v = p.last() as int;
        assert forall|t: int| 0 <= t < 256 implies #[trigger] histogram_of(p)[t] == histogram_of(
            q,
        )[t] + if t == v {
            1int
        } else {
            0int
        } by {
            assert(histogram_of(p)[t] == value_count(p, t));
            assert(histogram_of(q)[t] == value_count(q, t));
        }
        lemma_cumulative_shift(histogram_of(q), histogram_of(p), v, 256);
        assert(0 <= v < 256);
    } else {
        assert forall|t: int| 0 <= t < 256 implies #[trigger] histogram_of(p)[t] == 0 by {
            assert(histogram_of(p)[t] == value_count(p, t));
        }
        lemma_cumulative_zero(histogram_of(p), 256);
    }
}

proof fn lemma_cumulative_zero(h: Seq<int>, k: int)
    requires
        0 <= k <= h.len(),
        forall|t: int| 0 <= t < k ==> #[trigger] h[t] == 0,
    ensures
        cumulative(h, k) == 0,
    decreases k,
{
    if k > 0 {
        lemma_cumulative_zero(h, k - 1);
    }
}

proof fn lemma_cumulative_bounds(h: Seq<int>, k: int, j: int)
    requires
        0 <= k <= j <= h.len(),
        forall|t: int| 0 <= t < h.len() ==> #[trigger] h[t] >= 0,
    ensures
        0 <= cumulative(h, k) <= cumulative(h, j),
        0 <= weighted(h, k) <= weighted(h, j),
        weighted(h, k) <= 255 * cumulative(h, k) || k > 256,
        weighted(h, j) - weighted(h, k) >= k * (cumulative(h, j) - cumulative(h, k)),
        j <= 256 ==> weighted(h, j) - weighted(h, k) <= 255 * (cumulative(h, j) - cumulative(h, k)),
    decreases j,
{
    if j > k {
        lemma_cumulative_bounds(h, k, j - 1);
        assert((j - 1) * h[j - 1] >= k * h[j - 1]) by (nonlinear_arith)
            requires
                j - 1 >= k,
                h[j - 1] >= 0,
        ;
        assert(k * (cumulative(h, j - 1) - cumulative(h, k)) + k * h[j - 1] == k * (cumulative(
            h,
            j - 1,
        ) + h[j - 1] - cumulative(h, k))) by (nonlinear_arith);
        if j <= 256 {
            assert((j - 1) * h[j - 1] <= 255 * h[j - 1]) by (nonlinear_arith)
                requires
                    j - 1 <= 255,
                    h[j - 1] >= 0,
            ;
        }
    } else if k > 0 {
        lemma_cumulative_bounds(h, k - 1, k - 1);
        assert((k - 1) * h[k - 1] >= 0) by (nonlinear_arith)
            requires
                k >= 1,
                h[k - 1] >= 0,
        ;
        if k <= 256 {
            assert((k - 1) * h[k - 1] <= 255 * h[k - 1]) by (nonlinear_arith)
                requires
                    k - 1 <= 255,
                    h[k - 1] >= 0,
            ;
        }
    }
}

proof fn lemma_scan_stays(h: Seq<int>, n: int, s: int, k: int, j: int)
    requires
        0 <= k <= j,
        otsu_scan(h, n, s, k).5,
    ensures
        otsu_scan(h, n, s, j) == otsu_scan(h, n, s, k),
    decreases j - k,
{
    if j > k {
        lemma_scan_stays(h, n, s, k, j - 1);
    }
}

/// The histogram of the image.
fn histogram(image: &Bitmap) -> (h: Vec<u64>)
    requires
        image.wf(),
    ensures
        h@.len() == 256,
        forall|v: int| 0 <= v < 256 ==> (#[trigger] h@[v]) as int == histogram_of(image.pixels@)[v],
{
    let mut h: Vec<u64> = Vec::new();
    let mut v: usize = 0;
    while v < 256
        invariant
            v <= 256,
            h@.len() == v,
            forall|k: int| 0 <= k < v ==> #[trigger] h@[k] == 0,
        decreases 256 - v,
    {
        h.push(0);
        v = v + 1;
    }
    let ghost p = image.pixels@;
    let mut i: usize = 0;
    while i < image.pixels.len()
        invariant
            p == image.pixels@,
            i <= p.len(),
            h@.len() == 256,
            forall|k: int| 0 <= k < 256 ==> (#[trigger] h@[k]) as int == value_count(p.subrange(0, i as int), k),
            forall|k: int| 0 <= k < 256 ==> #[trigger] h@[k] <= i,
        decreases p.len() - i,
    {
        let b = image.pixels[i] as usize;
        proof {
            let cur = p.subrange(0, i as int + 1);
            assert(cur.drop_last() =~= p.subrange(0, i as int));
            assert(cur.last() == p[i as int]);
        }
        let old_count = h[b];
        h.set(b, old_count + 1);
        i = i + 1;
    }
    assert(p.subrange(0, p.len() as int) =~= p);
    h
}

/// The number `hi · 2¹²⁸ + lo`.
pub open spec fn wide(hi: u128, lo: u128) -> int {
    hi * 340282366920938463463374607431768211456int + lo
}

/// The full product of two 128-bit numbers, as high and low halves.
fn mul_wide(a: u128, b: u128) -> (r: (u128, u128))
    ensures
        wide(r.0, r.1) == a * b,
{
    let m: u128 = 0x1_0000_0000_0000_0000;
    let a0 = a % m;
    let a1 = a / m;
    let b0 = b % m;
    let b1 = b / m;
    proof {
        assert(a0 < m && a1 < m && b0 < m && b1 < m);
        assert(a0 * b0 < m * m && a0 * b1 < m * m && a1 * b0 < m * m && a1 * b1 < m * m) by (
        nonlinear_arith)
            requires
                a0 < m,
                a1 < m,
                b0 < m,
                b1 < m,
                m == 0x1_0000_0000_0000_0000u128,
        ;
    }
    let p00 = a0 * b0;
    let p01 = a0 * b1;
    let p10 = a1 * b0;
    let p11 = a1 * b1;
    let mid = p00 / m + p01 % m + p10 % m;
    let lo = p00 % m + (mid % m) * m;
    let ghost hi_val: int = p11 + p01 / m + p10 / m + mid / m;
    proof {
        let ai = a as int;
        let bi = b as int;
        let mi = m as int;
        assert(ai * bi == (a1 * mi) * bi + a0 * bi) by (nonlinear_arith)
            requires
                ai == a1 * mi + a0,
        ;
        assert((a1 * mi) * bi == (a1 * mi) * (b1 * mi) + (a1 * mi) * b0) by (nonlinear_arith)
            requires
                bi == b1 * mi + b0,
        ;
        assert(a0 * bi == a0 * (b1 * mi) + a0 * b0) by (nonlinear_arith)
            requires
                bi == b1 * mi + b0,
        ;
        assert((a1 * mi) * (b1 * mi) == (a1 * b1) * (mi * mi)) by (nonlinear_arith);
        assert((a1 * mi) * b0 == (a1 * b0) * mi) by (nonlinear_arith);
        assert(a0 * (b1 * mi) == (a0 * b1) * mi) by (nonlinear_arith);
        assert(a * b == p11 * (m * m) + (p01 + p10) * m + p00);
        assert(hi_val * (m * m) + lo == a * b) by (nonlinear_arith)
            requires
                a * b == p11 * (m * m) + (p01 + p10) * m + p00,
                p00 == (p00 / m) * m + p00 % m,
                p01 == (p01 / m) * m + p01 % m,
                p10 == (p10 / m) * m + p10 % m,
                mid == (mid / m) * m + mid % m,
                mid == p00 / m + p01 % m + p10 % m,
                lo == p00 % m + (mid % m) * m,
                hi_val == p11 + p01 / m + p10 / m + mid / m,
        ;
        assert(a * b < (m * m) * (m * m)) by (nonlinear_arith)
            requires
                a < m * m,
                b < m * m,
        ;
        assert(hi_val < m * m) by (nonlinear_arith)
            requires
                hi_val * (m * m) + lo == a * b,
                a * b < (m * m) * (m * m),
                lo >= 0,
        ;
    }
    let hi = p11 + p01 / m + p10 / m + mid / m;
    (hi, lo)
}

/// `x² · p` as a wide number, for `x < 2⁸⁸` and `p < 2⁸⁰`.
fn square_times(x: u128, p: u128) -> (r: (u128, u128))
    requires
        x < 0x100_0000_0000_0000_0000_0000,
        p < 0x1_0000_0000_0000_0000_0000,
    ensures
        wide(r.0, r.1) == x * x * p,
{
    let (h1, l1) = mul_wide(x, x);
    let (h2, l2) = mul_wide(l1, p);
    proof {
        let m2: int = 340282366920938463463374607431768211456int;
        assert(x * x < 95780971304118053647396689196894323976171195136475136int) by (
        nonlinear_arith)
            requires
                x < 0x100_0000_0000_0000_0000_0000,
        ;
        assert(h1 < 281474976710656int) by (nonlinear_arith)
            requires
                h1 * 340282366920938463463374607431768211456int + l1 == x * x,
                x * x < 95780971304118053647396689196894323976171195136475136int,
                l1 >= 0,
        ;
        assert(x * x * p == (h1 * p + h2) * m2 + l2) by (nonlinear_arith)
            requires
                h1 * m2 + l1 == x * x,
                h2 * m2 + l2 == l1 * p,
        ;
        assert(x * x * p < 95780971304118053647396689196894323976171195136475136int * 1208925819614629174706176int) by (nonlinear_arith)
            requires
                x * x < 95780971304118053647396689196894323976171195136475136int,
                p < 0x1_0000_0000_0000_0000_0000,
        ;
        assert(h1 * p + h2 < m2) by (nonlinear_arith)
            requires
                x * x * p == (h1 * p + h2) * m2 + l2,
                x * x * p < 95780971304118053647396689196894323976171195136475136int * 1208925819614629174706176int,
                l2 >= 0,
                m2 == 340282366920938463463374607431768211456int,
        ;
        assert(h1 * p <= h1 * p + h2);
    }
    (h1 * p + h2, l2)
}

/// Compares two wide numbers.
fn wide_greater(a: (u128, u128), b: (u128, u128)) -> (r: bool)
    ensures
        r == (wide(a.0, a.1) > wide(b.0, b.1)),
{
    proof {
        let m2: int = 340282366920938463463374607431768211456int;
        if a.0 > b.0 {
            assert(wide(a.0, a.1) >= (b.0 + 1) * m2);
        } else if a.0 < b.0 {
            assert(wide(b.0, b.1) >= (a.0 + 1) * m2);
        }
    }
    a.0 > b.0 || (a.0 == b.0 && a.1 > b.1)
}

/// Image preprocessing.
pub struct Preprocessor {
    pub config: PreprocessingConfig,
}

impl Preprocessor {
    pub fn new(config: PreprocessingConfig) -> (p: Self)
        ensures
            p.config == config,
    {
        Preprocessor { config }
    }

    /// Binarisation with Otsu's threshold.
    pub fn otsu_binarize(&self, image: &Bitmap) -> (out: Bitmap)
        requires
            image.wf(),
        ensures
            thresholded(*image, out, otsu_threshold(image.pixels@)),
    {
        let t = self.calculate_otsu_threshold(image);
        Self::threshold_binary(image, t)
    }

    /// Binarisation by the chosen method: Otsu's threshold, the local-mean
    /// threshold, or the fixed threshold 128.
    pub fn binarize(&self, image: &Bitmap, method: BinarizationMethod) -> (out: Bitmap)
        requires
            image.wf(),
        ensures
            match method {
                BinarizationMethod::Otsu => thresholded(*image, out, otsu_threshold(image.pixels@)),
                BinarizationMethod::Adaptive => locally_thresholded(*image, out),
                BinarizationMethod::Fixed => thresholded(*image, out, 128),
            },
    {
        match method {
            BinarizationMethod::Otsu => self.otsu_binarize(image),
            BinarizationMethod::Adaptive => self.adaptive_binarize(image),
            BinarizationMethod::Fixed => Self::threshold_binary(image, 128),
        }
    }

    /// Otsu's threshold of the image (see [`otsu_threshold`]), computed
    /// exactly.
    pub fn calculate_otsu_threshold(&self, image: &Bitmap) -> (t: u8)
        requires
            image.wf(),
        ensures
            t as int == otsu_threshold(image.pixels@),
    {
        let ghost p = image.pixels@;
        let ghost hs = histogram_of(p);
        let h = histogram(image);
        proof {
            lemma_histogram_total(p);
            assert(p.len() <= 1048576 * 1048576) by (nonlinear_arith)
                requires
                    p.len() == image.width * image.height,
                    image.width <= 1048576,
                    image.height <= 1048576,
            ;
            assert forall|t: int| 0 <= t < 256 implies #[trigger] hs[t] >= 0 by {
                assert(h@[t] as int == hs[t]);
            }
        }
        let n: u64 = image.pixels.len() as u64;
        let mut s: u64 = 0;
        let mut k: usize = 0;
        while k < 256
            invariant
                k <= 256,
                h@.len() == 256,
                forall|v: int| 0 <= v < 256 ==> (#[trigger] h@[v]) as int == hs[v],
                hs == histogram_of(p),
                forall|t: int| 0 <= t < 256 ==> #[trigger] hs[t] >= 0,
                cumulative(hs, 256) == p.len(),
                p.len() <= 1048576 * 1048576,
                s as int == weighted(hs, k as int),
            decreases 256 - k,
        {
            proof {
                lemma_cumulative_bounds(hs, k as int + 1, 256);
            }
            s = s + (k as u64) * h[k];
            k = k + 1;
        }
        proof {
            lemma_cumulative_bounds(hs, 0, 256);
        }
        let ghost ni = n as int;
        let ghost si = s as int;
        let mut wb: u64 = 0;
        let mut sb: u64 = 0;
        let mut bx: i128 = 0;
        let mut bp: u128 = 1;
        let mut bt: u8 = 0;
        let mut stopped = false;
        let mut t: usize = 0;
        while t < 256 && !stopped
            invariant
                t <= 256,
                h@.len() == 256,
                forall|v: int| 0 <= v < 256 ==> (#[trigger] h@[v]) as int == hs[v],
                forall|v: int| 0 <= v < 256 ==> #[trigger] hs[v] >= 0,
                hs.len() == 256,
                ni == n,
                si == s,
                ni == cumulative(hs, 256),
                si == weighted(hs, 256),
                ni <= 1048576 * 1048576,
                (wb as int, sb as int, bx as int, bp as int, bt as int, stopped) == otsu_scan(
                    hs,
                    ni,
                    si,
                    t as int,
                ),
                !stopped ==> wb as int == cumulative(hs, t as int) && sb as int == weighted(
                    hs,
                    t as int,
                ),
                1 <= bp < 1208925819614629174706176,
                -255 * (bp as int) <= bx <= 255 * (bp as int),
            decreases 256 - t,
        {
            proof {
                lemma_cumulative_bounds(hs, t as int + 1, 256);
                lemma_cumulative_bounds(hs, t as int, t as int + 1);
            }
            let wb2 = wb + h[t];
            if wb2 == 0 {
                wb = wb2;
            } else if n - wb2 == 0 {
                wb = wb2;
                stopped = true;
            } else {
                let sb2 = sb + (t as u64) * h[t];
                let wf = n - wb2;
                let ghost sf = si - sb2;
                proof {
                    assert(0 <= sb2 <= 255 * wb2);
                    assert(0 <= sf <= 255 * wf);
                    assert(sb2 as int * ni - si * wb2 == sb2 * wf - sf * wb2) by (nonlinear_arith)
                        requires
                            ni == wb2 + wf,
                            sf == si - sb2,
                    ;
                    assert(0 <= sb2 * wf <= 255 * (wb2 * wf)) by (nonlinear_arith)
                        requires
                            0 <= sb2 <= 255 * wb2,
                            wf >= 0,
                    ;
                    assert(0 <= sf * wb2 <= 255 * (wb2 * wf)) by (nonlinear_arith)
                        requires
                            0 <= sf <= 255 * wf,
                            wb2 >= 0,
                    ;
                    assert(wb2 * wf >= 1) by (nonlinear_arith)
                        requires
                            wb2 >= 1,
                            wf >= 1,
                    ;
                    assert(4 * (wb2 * wf) <= ni * ni) by (nonlinear_arith)
                        requires
                            ni == wb2 + wf,
                    ;
                    assert(ni * ni <= (1048576 * 1048576) * (1048576 * 1048576)) by (nonlinear_arith)
                        requires
                            0 <= ni <= 1048576 * 1048576,
                    ;
                    assert(sb2 * ni <= 255 * (1048576 * 1048576) * (1048576 * 1048576)) by (
                    nonlinear_arith)
                        requires
                            0 <= sb2 <= 255 * ni,
                            0 <= ni <= 1048576 * 1048576,
                    ;
                    assert(si * wb2 <= 255 * (1048576 * 1048576) * (1048576 * 1048576)) by (
                    nonlinear_arith)
                        requires
                            0 <= si <= 255 * ni,
                            0 <= wb2 <= ni,
                            0 <= ni <= 1048576 * 1048576,
                    ;
                }
                let x: i128 = (sb2 as i128) * (n as i128) - (s as i128) * (wb2 as i128);
                let pw: u128 = (wb2 as u128) * (wf as u128);
                let ax: u128 = if x >= 0 {
                    x as u128
                } else {
                    (0 - x) as u128
                };
                let abx: u128 = if bx >= 0 {
                    bx as u128
                } else {
                    (0 - bx) as u128
                };
                proof {
                    assert(ax as int * ax as int == x * x) by (nonlinear_arith)
                        requires
                            ax as int == (if x >= 0 { x as int } else { -x }),
                    ;
                    assert(abx as int * abx as int == bx * bx) by (nonlinear_arith)
                        requires
                            abx as int == (if bx >= 0 { bx as int } else { -bx }),
                    ;
                }
                let lhs = square_times(ax, bp);
                let rhs = square_times(abx, pw);
                wb = wb2;
                sb = sb2;
                if wide_greater(lhs, rhs) {
                    bx = x;
                    bp = pw;
                    bt = t as u8;
                }
            }
            t = t + 1;
        }
        proof {
            if stopped {
                lemma_scan_stays(hs, ni, si, t as int, 256);
            }
        }
        bt
    }

    /// The summed-area table of the image.
    pub fn compute_integral_image(&self, image: &Bitmap) -> (t: IntegralImage)
        requires
            image.wf(),
        ensures
            t.pixels() == image.pixels@,
            t.spec_width() == image.width,
            t.spec_height() == image.height,
    {
        let w = image.width;
        let h = image.height;
        let ghost p = image.pixels@;
        let ghost wi = w as int;
        let mut table: Vec<Vec<u64>> = Vec::new();
        let mut first: Vec<u64> = Vec::new();
        let mut x: u32 = 0;
        while x <= w
            invariant
                x <= w + 1,
                w <= MAX_DIM,
                first@.len() == x,
                forall|k: int| 0 <= k < x ==> #[trigger] first@[k] == 0,
            decreases w + 1 - x,
        {
            first.push(0);
            x = x + 1;
        }
        proof {
            assert forall|k: int| 0 <= k <= w implies (#[trigger] first@[k]) as int == window_sum(
                p,
                wi,
                0,
                k,
                0,
                0,
            ) by {}
        }
        table.push(first);
        let mut y: u32 = 0;
        while y < h
            invariant
                image.wf(),
                w == image.width,
                h == image.height,
                p == image.pixels@,
                wi == w,
                y <= h,
                table@.len() == y + 1,
                forall|r: int| 0 <= r <= y ==> (#[trigger] table@[r])@.len() == w + 1,
                forall|r: int, c: int|
                    0 <= r <= y && 0 <= c <= w ==> (#[trigger] table@[r]@[c]) as int == window_sum(
                        p,
                        wi,
                        0,
                        c,
                        0,
                        r,
                    ),
            decreases h - y,
        {
            let mut row: Vec<u64> = Vec::new();
            row.push(0);
            proof {
                lemma_window_empty(p, wi, 0, 0, y as int + 1);
            }
            let mut row_total: u64 = 0;
            let mut x: u32 = 0;
            while x < w
                invariant
                    image.wf(),
                    w == image.width,
                    h == image.height,
                    p == image.pixels@,
                    wi == w,
                    y < h,
                    x <= w,
                    table@.len() == y + 1,
                    (table@[y as int])@.len() == w + 1,
                    forall|c: int|
                        0 <= c <= w ==> (#[trigger] table@[y as int]@[c]) as int == window_sum(
                            p,
                            wi,
                            0,
                            c,
                            0,
                            y as int,
                        ),
                    row@.len() == x + 1,
                    row_total as int == row_sum(p, wi, y as int, 0, x as int),
                    forall|c: int|
                        0 <= c <= x ==> (#[trigger] row@[c]) as int == window_sum(
                            p,
                            wi,
                            0,
                            c,
                            0,
                            y as int + 1,
                        ),
                decreases w - x,
            {
                let v = image.get_pixel(x, y);
                proof {
                    lemma_row_bounds(p, wi, y as int, 0, x as int + 1);
                    lemma_window_bounds(p, wi, 0, x as int + 1, 0, y as int);
                    assert(255 * (x as int + 1) * (y as int) <= 255 * 1048576 * 1048576) by (
                    nonlinear_arith)
                        requires
                            x + 1 <= 1048576,
                            y <= 1048576,
                    ;
                }
                row_total = row_total + v as u64;
                let above = table[y as usize][x as usize + 1];
                row.push(above + row_total);
                x = x + 1;
            }
            table.push(row);
            y = y + 1;
        }
        IntegralImage { table, width: w, height: h, source: Ghost(image.pixels@) }
    }

    /// The mean grey level of the clipped window of radius `half_size`
    /// around `(x, y)`, read from the summed-area table (see [`local_mean`]).
    pub fn query_integral_mean(
        integral: &IntegralImage,
        x: u32,
        y: u32,
        half_size: u32,
        width: u32,
        height: u32,
    ) -> (m: u8)
        requires
            width <= integral.spec_width(),
            height <= integral.spec_height(),
            x + half_size <= u32::MAX,
            y + half_size <= u32::MAX,
            (1 <= width && 1 <= height) || ({
                let (x1, x2, y1, y2) = clipped_window(
                    x as int,
                    y as int,
                    half_size as int,
                    width as int,
                    height as int,
                );
                x2 < x1 || y2 < y1
            }),
        ensures
            m as int == local_mean(
                integral.pixels(),
                integral.spec_width() as int,
                x as int,
                y as int,
                half_size as int,
                width as int,
                height as int,
            ),
    {
        proof {
            use_type_invariant(integral);
        }
        let x1 = if x >= half_size {
            x - half_size
        } else {
            0
        };
        let y1 = if y >= half_size {
            y - half_size
        } else {
            0
        };
        let last_x = if width >= 1 {
            width - 1
        } else {
            0
        };
        let last_y = if height >= 1 {
            height - 1
        } else {
            0
        };
        let x2 = if x + half_size <= last_x {
            x + half_size
        } else {
            last_x
        };
        let y2 = if y + half_size <= last_y {
            y + half_size
        } else {
            last_y
        };
        if x2 < x1 || y2 < y1 {
            return 128;
        }
        proof {
            assert(1 <= (x2 - x1 + 1) * (y2 - y1 + 1) <= 1048576 * 1048576) by (nonlinear_arith)
                requires
                    1 <= x2 - x1 + 1 <= 1048576,
                    1 <= y2 - y1 + 1 <= 1048576,
            ;
        }
        let count: u64 = ((x2 - x1 + 1) as u64) * ((y2 - y1 + 1) as u64);
        let t = &integral.table;
        let a = t[y2 as usize + 1][x2 as usize + 1] as i128;
        let b = t[y1 as usize][x2 as usize + 1] as i128;
        let c = t[y2 as usize + 1][x1 as usize] as i128;
        let d = t[y1 as usize][x1 as usize] as i128;
        let ghost p = integral.pixels();
        let ghost wi = integral.spec_width() as int;
        proof {
            assert(t@[y2 as int + 1]@[x2 as int + 1] as int == window_sum(
                p,
                wi,
                0,
                x2 as int + 1,
                0,
                y2 as int + 1,
            ));
            assert(t@[y1 as int]@[x2 as int + 1] as int == window_sum(
                p,
                wi,
                0,
                x2 as int + 1,
                0,
                y1 as int,
            ));
            assert(t@[y2 as int + 1]@[x1 as int] as int == window_sum(
                p,
                wi,
                0,
                x1 as int,
                0,
                y2 as int + 1,
            ));
            assert(t@[y1 as int]@[x1 as int] as int == window_sum(p, wi, 0, x1 as int, 0, y1 as int));
            lemma_window_from_blocks(p, wi, x1 as int, x2 as int + 1, y1 as int, y2 as int + 1);
            lemma_window_bounds(p, wi, x1 as int, x2 as int + 1, y1 as int, y2 as int + 1);
        }
        let sum = a - b - c + d;
        proof {
            lemma_mean_in_range(sum as int, count as int, (x2 - x1 + 1) as int, (y2 - y1 + 1) as int);
        }
        let mean = sum / (count as i128);
        mean as u8
    }

    /// Local-mean binarisation: a pixel becomes white (255) when it is
    /// brighter than the mean of its window less 10, black (0) otherwise.
    /// The window has the block size max(15, min(w, h) / 40).
    pub fn adaptive_binarize(&self, image: &Bitmap) -> (out: Bitmap)
        requires
            image.wf(),
        ensures
            same_grid(*image, out),
            forall|x: int, y: int|
                image.in_bounds(x, y) ==> #[trigger] out.px(x, y) == if image.px(x, y) as int
                    > saturating_sub(
                    local_mean(
                        image.pixels@,
                        image.width as int,
                        x,
                        y,
                        adaptive_block_size(image.width as int, image.height as int) / 2,
                        image.width as int,
                        image.height as int,
                    ),
                    10,
                ) {
                    255u8
                } else {
                    0u8
                },
    {
        let width = image.width;
        let height = image.height;
        let min_dim = if width <= height {
            width
        } else {
            height
        };
        let block_size: u32 = if min_dim / 40 > 15 {
            min_dim / 40
        } else {
            15
        };
        let half_size = block_size / 2;
        let c: u8 = 10;
        let integral = self.compute_integral_image(image);
        let mut result = Bitmap::filled(width, height, 0);
        let ghost hs = half_size as int;
        let mut y: u32 = 0;
        while y < height
            invariant
                image.wf(),
                width == image.width,
                height == image.height,
                hs == adaptive_block_size(width as int, height as int) / 2,
                hs == half_size,
                half_size <= 13107,
                c == 10,
                integral.pixels() == image.pixels@,
                integral.spec_width() == width,
                integral.spec_height() == height,
                y <= height,
                same_grid(*image, result),
                forall|x2: int, y2: int|
                    0 <= x2 < width && 0 <= y2 < y ==> #[trigger] result.px(x2, y2) == if image.px(
                        x2,
                        y2,
                    ) as int > saturating_sub(
                        local_mean(
                            image.pixels@,
                            width as int,
                            x2,
                            y2,
                            hs,
                            width as int,
                            height as int,
                        ),
                        10,
                    ) {
                        255u8
                    } else {
                        0u8
                    },
            decreases height - y,
        {
            let mut x: u32 = 0;
            while x < width
                invariant
                    image.wf(),
                    width == image.width,
                    height == image.height,
                    hs == half_size,
                    half_size <= 13107,
                    c == 10,
                    integral.pixels() == image.pixels@,
                    integral.spec_width() == width,
                    integral.spec_height() == height,
                    y < height,
                    x <= width,
                    same_grid(*image, result),
                    forall|x2: int, y2: int|
                        0 <= x2 < width && 0 <= y2 < y || (0 <= x2 < x && y2 == y)
                            ==> #[trigger] result.px(x2, y2) == if image.px(x2, y2) as int
                            > saturating_sub(
                            local_mean(
                                image.pixels@,
                                width as int,
                                x2,
                                y2,
                                hs,
                                width as int,
                                height as int,
                            ),
                            10,
                        ) {
                            255u8
                        } else {
                            0u8
                        },
                decreases width - x,
            {
                let local = Self::query_integral_mean(&integral, x, y, half_size, width, height);
                let pixel = image.get_pixel(x, y);
                let threshold = if local >= c {
                    local - c
                } else {
                    0
                };
                let value: u8 = if pixel > threshold {
                    255
                } else {
                    0
                };
                assert(local as int == local_mean(
                    image.pixels@,
                    width as int,
                    x as int,
                    y as int,
                    hs,
                    width as int,
                    height as int,
                ));
                assert(pixel == image.px(x as int, y as int));
                assert(threshold as int == saturating_sub(local as int, 10));
                assert(value == if image.px(x as int, y as int) as int > saturating_sub(
                    local_mean(
                        image.pixels@,
                        width as int,
                        x as int,
                        y as int,
                        hs,
                        width as int,
                        height as int,
                    ),
                    10,
                ) {
                    255u8
                } else {
                    0u8
                });
                result.put_pixel(x, y, value);
                x = x + 1;
            }
            y = y + 1;
        }
        result
    }

    /// Binary threshold: a pixel becomes white (255) when it is brighter than
    /// `threshold`, black (0) otherwise.
    pub fn threshold_binary(image: &Bitmap, threshold: u8) -> (out: Bitmap)
        requires
            image.wf(),
        ensures
            same_grid(*image, out),
            forall|i: int|
                0 <= i < out.pixels@.len() ==> #[trigger] out.pixels@[i] == if image.pixels@[i]
                    > threshold {
                    255u8
                } else {
                    0u8
                },
    {
        let mut pixels: Vec<u8> = Vec::new();
        let mut i: usize = 0;
        while i < image.pixels.len()
            invariant
                i <= image.pixels@.len(),
                pixels@.len() == i,
                forall|k: int|
                    0 <= k < i ==> #[trigger] pixels@[k] == if image.pixels@[k] > threshold {
                        255u8
                    } else {
                        0u8
                    },
            decreases image.pixels@.len() - i,
        {
            let v: u8 = if image.pixels[i] > threshold {
                255
            } else {
                0
            };
            pixels.push(v);
            i = i + 1;
        }
        Bitmap { width: image.width, height: image.height, pixels }
    }

    /// Variance of the rows' dark-pixel counts, in millionths (see
    /// [`projection_variance_ppm`]).
    pub fn horizontal_projection_variance(image: &Bitmap) -> (v: u64)
        requires
            image.wf(),
        ensures
            v as int == projection_variance_ppm(*image),
    {
        let width = image.width;
        let height = image.height;
        let mut s1: i128 = 0;
        let mut s2: i128 = 0;
        let mut y: u32 = 0;
        while y < height
            invariant
                image.wf(),
                width == image.width,
                height == image.height,
                y <= height,
                row_projections(*image, y as int).len() == y,
                s1 == int_sum(row_projections(*image, y as int)),
                s2 == int_sum_sq(row_projections(*image, y as int)),
                0 <= s1 <= (y as int) * (width as int),
                0 <= s2 <= (y as int) * ((width as int) * (width as int)),
            decreases height - y,
        {
            let mut dark: u32 = 0;
            let mut x: u32 = 0;
            while x < width
                invariant
                    image.wf(),
                    width == image.width,
                    height == image.height,
                    y < height,
                    x <= width,
                    dark as int == dark_count(*image, y as int, x as int),
                    dark <= x,
                decreases width - x,
            {
                if image.get_pixel(x, y) < 128 {
                    dark = dark + 1;
                }
                x = x + 1;
            }
            proof {
                let r = row_projections(*image, y as int + 1);
                assert(r.drop_last() == row_projections(*image, y as int));
                assert(r.last() == dark as int);
                assert((dark as int) * (dark as int) <= (width as int) * (width as int)) by (
                nonlinear_arith)
                    requires
                        0 <= dark <= width,
                ;
                assert((y as int + 1) * (width as int) == (y as int) * (width as int) + width) by (
                nonlinear_arith);
                assert((y as int + 1) * ((width as int) * (width as int)) == (y as int) * ((
                width as int) * (width as int)) + (width as int) * (width as int)) by (
                nonlinear_arith);
                assert((y as int + 1) * ((width as int) * (width as int)) <= 1048576 * (1048576
                    * 1048576)) by (nonlinear_arith)
                    requires
                        y + 1 <= 1048576,
                        width <= 1048576,
                ;
                assert((y as int + 1) * (width as int) <= 1048576 * 1048576) by (nonlinear_arith)
                    requires
                        y + 1 <= 1048576,
                        width <= 1048576,
                ;
            }
            s1 = s1 + dark as i128;
            s2 = s2 + (dark as i128) * (dark as i128);
            y = y + 1;
        }
        if height == 0 {
            return 0;
        }
        let n = height as i128;
        proof {
            assert(n * s2 <= 1048576 * (1048576 * (1048576 * 1048576))) by (nonlinear_arith)
                requires
                    0 <= n <= 1048576,
                    0 <= s2 <= n * ((width as int) * (width as int)),
                    width <= 1048576,
            ;
            assert(s1 * s1 <= (n * (width as int)) * (n * (width as int))) by (nonlinear_arith)
                requires
                    0 <= s1 <= n * (width as int),
            ;
            assert((n * (width as int)) * (n * (width as int)) <= (1048576 * 1048576) * (1048576
                * 1048576)) by (nonlinear_arith)
                requires
                    0 <= n <= 1048576,
                    width <= 1048576,
            ;
            assert(0 <= s1 * s1) by (nonlinear_arith);
            lemma_sum_square_bound(row_projections(*image, height as int));
        }
        let d = n * s2 - s1 * s1;
        proof {
            assert(1 <= n * n <= 1048576 * 1048576) by (nonlinear_arith)
                requires
                    1 <= n <= 1048576,
            ;
        }
        let nn = n * n;
        let v = (1000000 * d) / nn;
        proof {
            assert(n * s2 <= n * (n * ((width as int) * (width as int)))) by (nonlinear_arith)
                requires
                    0 <= n,
                    0 <= s2 <= n * ((width as int) * (width as int)),
            ;
            assert(0 <= v <= 1000000 * ((width as int) * (width as int))) by (nonlinear_arith)
                requires
                    0 <= d <= n * (n * ((width as int) * (width as int))),
                    nn == n * n,
                    n >= 1,
                    v == (1000000 * d) / (nn as int),
            ;
            assert(1000000 * ((width as int) * (width as int)) <= 1000000 * (1048576 * 1048576)) by (
            nonlinear_arith)
                requires
                    width <= 1048576,
            ;
        }
        v as u64
    }
}

} // verus!
