//! Connected-component analysis of the dark pixels of a binary page image
//! (8-connectivity, two passes with a union-find over provisional labels).
use crate::bitmap::{lemma_pixel_index, pixel_index, Bitmap, MAX_DIM};
use crate::geometry::Rect;
use crate::union_find::UnionFind;
use vstd::prelude::*;

verus! {

/// Pixel values below this are foreground (ink).
pub const FOREGROUND_BELOW: u8 = 128;

/// `(x, y)` is an ink pixel of `img`.
pub open spec fn is_fg(img: &Bitmap, x: int, y: int) -> bool {
    img.px(x, y) < FOREGROUND_BELOW
}

/// The two pixels are equal or touch by an edge or a corner.
pub open spec fn adjacent8(x1: int, y1: int, x2: int, y2: int) -> bool {
    -1 <= x1 - x2 <= 1 && -1 <= y1 - y2 <= 1
}

/// `p` is an ink pixel of `img`.
pub open spec fn on_ink(img: &Bitmap, p: (int, int)) -> bool {
    img.in_bounds(p.0, p.1) && is_fg(img, p.0, p.1)
}

/// `path` is a non-empty chain of ink pixels, each touching the next.
pub open spec fn is_ink_path(img: &Bitmap, path: Seq<(int, int)>) -> bool {
    &&& path.len() > 0
    &&& forall|i: int| 0 <= i < path.len() ==> #[trigger] on_ink(img, path[i])
    &&& forall|i: int, j: int|
        #![trigger path[i], path[j]]
        0 <= i && j == i + 1 && j < path.len() ==> adjacent8(path[i].0, path[i].1, path[j].0, path[j].1)
}

/// A chain of touching ink pixels leads from `(x1, y1)` to `(x2, y2)`.
pub open spec fn ink_connected(img: &Bitmap, x1: int, y1: int, x2: int, y2: int) -> bool {
    exists|path: Seq<(int, int)>|
        #[trigger] is_ink_path(img, path) && path[0] == (x1, y1) && path.last() == (x2, y2)
}

/// A chain of touching ink pixels, all of class `k`, leads from `(x1, y1)`
/// to `(x2, y2)`.
pub open spec fn class_connected(
    img: &Bitmap,
    cls: Seq<Seq<int>>,
    k: int,
    x1: int,
    y1: int,
    x2: int,
    y2: int,
) -> bool {
    exists|path: Seq<(int, int)>|
        #[trigger] is_ink_path(img, path) && path[0] == (x1, y1) && path.last() == (x2, y2) && forall|
            i: int,
        | 0 <= i < path.len() ==> cls[(#[trigger] path[i]).1][path[i].0] == k
}

proof fn lemma_connected_refl(img: &Bitmap, x: int, y: int)
    requires
        on_ink(img, (x, y)),
    ensures
        ink_connected(img, x, y, x, y),
{
    let path = seq![(x, y)];
    assert(is_ink_path(img, path));
}

proof fn lemma_connected_step(img: &Bitmap, x1: int, y1: int, x2: int, y2: int, x3: int, y3: int)
    requires
        ink_connected(img, x1, y1, x2, y2),
        on_ink(img, (x3, y3)),
        adjacent8(x2, y2, x3, y3),
    ensures
        ink_connected(img, x1, y1, x3, y3),
{
    let p = choose|path: Seq<(int, int)>|
        #[trigger] is_ink_path(img, path) && path[0] == (x1, y1) && path.last() == (x2, y2);
    let q = p.push((x3, y3));
    let n = p.len() as int;
    assert forall|i: int| 0 <= i < q.len() implies #[trigger] on_ink(img, q[i]) by {
        if i < n {
            assert(q[i] == p[i]);
        }
    }
    assert forall|i: int, j: int| #![trigger q[i], q[j]] 0 <= i && j == i + 1 && j < q.len() implies adjacent8(
        q[i].0,
        q[i].1,
        q[j].0,
        q[j].1,
    ) by {
        assert(q[i] == p[i]);
        if j < n {
            assert(q[j] == p[j]);
        }
    }
    assert(is_ink_path(img, q));
    assert(q[0] == p[0]);
}

proof fn lemma_connected_sym(img: &Bitmap, x1: int, y1: int, x2: int, y2: int)
    requires
        ink_connected(img, x1, y1, x2, y2),
    ensures
        ink_connected(img, x2, y2, x1, y1),
{
    let p = choose|path: Seq<(int, int)>|
        #[trigger] is_ink_path(img, path) && path[0] == (x1, y1) && path.last() == (x2, y2);
    let n = p.len() as int;
    let q = Seq::new(p.len(), |i: int| p[n - 1 - i]);
    assert forall|i: int| 0 <= i < q.len() implies #[trigger] on_ink(img, q[i]) by {
        assert(on_ink(img, p[n - 1 - i]));
    }
    assert forall|i: int, j: int| #![trigger q[i], q[j]] 0 <= i && j == i + 1 && j < q.len() implies adjacent8(
        q[i].0,
        q[i].1,
        q[j].0,
        q[j].1,
    ) by {
        let a = n - 1 - j;
        let b = n - 1 - i;
        assert(adjacent8(p[a].0, p[a].1, p[b].0, p[b].1));
    }
    assert(is_ink_path(img, q));
}

proof fn lemma_connected_trans(img: &Bitmap, x1: int, y1: int, x2: int, y2: int, x3: int, y3: int)
    requires
        ink_connected(img, x1, y1, x2, y2),
        ink_connected(img, x2, y2, x3, y3),
    ensures
        ink_connected(img, x1, y1, x3, y3),
{
    let p1 = choose|path: Seq<(int, int)>|
        #[trigger] is_ink_path(img, path) && path[0] == (x1, y1) && path.last() == (x2, y2);
    let p2 = choose|path: Seq<(int, int)>|
        #[trigger] is_ink_path(img, path) && path[0] == (x2, y2) && path.last() == (x3, y3);
    let n1 = p1.len() as int;
    let head = p1.drop_last();
    let q = head + p2;
    assert forall|i: int| 0 <= i < q.len() implies #[trigger] on_ink(img, q[i]) by {
        if i < n1 - 1 {
            assert(q[i] == p1[i]);
        } else {
            assert(q[i] == p2[i - (n1 - 1)]);
        }
    }
    assert forall|i: int, j: int| #![trigger q[i], q[j]] 0 <= i && j == i + 1 && j < q.len() implies adjacent8(
        q[i].0,
        q[i].1,
        q[j].0,
        q[j].1,
    ) by {
        if j < n1 - 1 {
            assert(q[i] == p1[i] && q[j] == p1[j]);
        } else if j == n1 - 1 {
            assert(q[i] == p1[i]);
            assert(q[j] == p2[0]);
            assert(p1[j] == p1.last());
        } else {
            assert(q[i] == p2[i - (n1 - 1)]);
            assert(q[j] == p2[j - (n1 - 1)]);
        }
    }
    assert(is_ink_path(img, q));
    if n1 > 1 {
        assert(q[0] == p1[0]);
    } else {
        assert(q[0] == p2[0]);
    }
    assert(q.last() == p2.last());
}

/// Along a chain of touching ink pixels the class stays that of its start,
/// when touching ink pixels share their class.
proof fn lemma_path_in_class(img: &Bitmap, cls: Seq<Seq<int>>, path: Seq<(int, int)>, k: int)
    requires
        is_ink_path(img, path),
        cls[path[0].1][path[0].0] == k,
        forall|x1: int, y1: int, x2: int, y2: int|
            img.in_bounds(x1, y1) && img.in_bounds(x2, y2) && is_fg(img, x1, y1) && is_fg(img, x2, y2)
                && adjacent8(x1, y1, x2, y2) ==> #[trigger] cls[y1][x1] == #[trigger] cls[y2][x2],
    ensures
        forall|i: int| 0 <= i < path.len() ==> cls[(#[trigger] path[i]).1][path[i].0] == k,
{
    assert forall|i: int| 0 <= i < path.len() implies cls[(#[trigger] path[i]).1][path[i].0] == k by {
        lemma_path_in_class_upto(img, cls, path, k, i);
    }
}

proof fn lemma_path_in_class_upto(img: &Bitmap, cls: Seq<Seq<int>>, path: Seq<(int, int)>, k: int, i: int)
    requires
        is_ink_path(img, path),
        0 <= i < path.len(),
        cls[path[0].1][path[0].0] == k,
        forall|x1: int, y1: int, x2: int, y2: int|
            img.in_bounds(x1, y1) && img.in_bounds(x2, y2) && is_fg(img, x1, y1) && is_fg(img, x2, y2)
                && adjacent8(x1, y1, x2, y2) ==> #[trigger] cls[y1][x1] == #[trigger] cls[y2][x2],
    ensures
        cls[path[i].1][path[i].0] == k,
    decreases i,
{
    if i > 0 {
        lemma_path_in_class_upto(img, cls, path, k, i - 1);
        let a = path[i - 1];
        let b = path[i];
        assert(on_ink(img, a));
        assert(on_ink(img, b));
        assert(adjacent8(a.0, a.1, b.0, b.1));
        assert(cls[a.1][a.0] == cls[b.1][b.0]);
    }
}

/// `r` is the bounding box of the pixels that `cls` puts in class `k`.
pub open spec fn is_class_bbox(img: &Bitmap, cls: Seq<Seq<int>>, k: int, r: Rect) -> bool {
    &&& forall|x: int, y: int|
        img.in_bounds(x, y) && #[trigger] cls[y][x] == k ==> r.x <= x < r.right() && r.y <= y
            < r.bottom()
    &&& exists|x: int, y: int| img.in_bounds(x, y) && #[trigger] cls[y][x] == k && x == r.x
    &&& exists|x: int, y: int|
        img.in_bounds(x, y) && #[trigger] cls[y][x] == k && x == r.right() - 1
    &&& exists|x: int, y: int| img.in_bounds(x, y) && #[trigger] cls[y][x] == k && y == r.y
    &&& exists|x: int, y: int|
        img.in_bounds(x, y) && #[trigger] cls[y][x] == k && y == r.bottom() - 1
}

/// `cls` assigns every ink pixel of `img` a class in `0..rects.len()` (and every
/// other pixel none), touching ink pixels share their class, `rects[k]` is the
/// bounding box of class `k`, and any two pixels of one class are joined by a
/// chain of touching ink pixels of that class: the classes are exactly the
/// 8-connected components of the ink, one box each.
pub open spec fn is_component_labeling(img: &Bitmap, rects: Seq<Rect>, cls: Seq<Seq<int>>) -> bool {
    &&& cls.len() == img.height
    &&& forall|y: int| 0 <= y < img.height ==> #[trigger] cls[y].len() == img.width
    &&& forall|x: int, y: int|
        img.in_bounds(x, y) ==> (is_fg(img, x, y) <==> 0 <= #[trigger] cls[y][x] < rects.len())
    &&& forall|x1: int, y1: int, x2: int, y2: int|
        img.in_bounds(x1, y1) && img.in_bounds(x2, y2) && is_fg(img, x1, y1) && is_fg(img, x2, y2)
            && adjacent8(x1, y1, x2, y2) ==> #[trigger] cls[y1][x1] == #[trigger] cls[y2][x2]
    &&& forall|k: int| 0 <= k < rects.len() ==> is_class_bbox(img, cls, k, #[trigger] rects[k])
    &&& forall|x1: int, y1: int, x2: int, y2: int|
        img.in_bounds(x1, y1) && img.in_bounds(x2, y2) && 0 <= #[trigger] cls[y1][x1] && cls[y1][x1]
            == #[trigger] cls[y2][x2] ==> class_connected(img, cls, cls[y1][x1], x1, y1, x2, y2)
}

/// Provisional label of pixel `(x, y)` in a row-major label list.
pub open spec fn lab(labels: Seq<usize>, width: int, x: int, y: int) -> usize {
    labels[pixel_index(width, x, y)]
}

/// `(x2, y2)` comes before `(x, y)` in row-major order.
pub open spec fn before(x2: int, y2: int, x: int, y: int) -> bool {
    y2 < y || (y2 == y && x2 < x)
}

proof fn lemma_index_order(width: int, x2: int, y2: int, x: int, y: int)
    requires
        0 <= x < width,
        0 <= x2 < width,
        0 <= y,
        0 <= y2,
        before(x2, y2, x, y),
    ensures
        pixel_index(width, x2, y2) < pixel_index(width, x, y),
{
    if y2 < y {
        assert(y2 * width + x2 < y * width + x) by (nonlinear_arith)
            requires 0 <= x2 < width, 0 <= x, y2 < y;
    }
}

proof fn lemma_row_step(width: int, y: int)
    ensures
        pixel_index(width, 0, y + 1) == pixel_index(width, 0, y) + width,
        pixel_index(width, 0, y - 1) == pixel_index(width, 0, y) - width,
{
    assert((y + 1) * width == y * width + width) by (nonlinear_arith);
    assert((y - 1) * width == y * width - width) by (nonlinear_arith);
}

/// Facts maintained by the labelling pass about the pixels scanned so far.
pub open spec fn label_pass_inv(
    img: &Bitmap,
    labels: Seq<usize>,
    next_label: usize,
    uf: UnionFind,
    x: int,
    y: int,
) -> bool {
    let w = img.width as int;
    &&& uf.inv()
    &&& labels.len() == pixel_index(w, x, y)
    &&& 1 <= next_label
    &&& next_label <= labels.len() + 1
    &&& forall|x2: int, y2: int|
        img.in_bounds(x2, y2) && before(x2, y2, x, y) ==> ((#[trigger] lab(labels, w, x2, y2) > 0)
            <==> is_fg(img, x2, y2)) && lab(labels, w, x2, y2) < next_label
    &&& forall|l: usize| 1 <= l < next_label ==> 1 <= #[trigger] uf.rep(l) < next_label
    &&& forall|l: usize| l >= next_label ==> #[trigger] uf.rep(l) == l && !uf.contains(l)
    &&& forall|x1: int, y1: int, x2: int, y2: int|
        img.in_bounds(x1, y1) && img.in_bounds(x2, y2) && before(x1, y1, x, y) && before(
            x2,
            y2,
            x,
            y,
        ) && is_fg(img, x1, y1) && is_fg(img, x2, y2) && adjacent8(x1, y1, x2, y2) ==> uf.rep(
            #[trigger] lab(labels, w, x1, y1),
        ) == uf.rep(#[trigger] lab(labels, w, x2, y2))
}

/// Any two scanned ink pixels whose labels lie in one set are joined by a
/// chain of touching ink pixels.
pub open spec fn conn_inv(img: &Bitmap, labels: Seq<usize>, uf: UnionFind, x: int, y: int) -> bool {
    let w = img.width as int;
    forall|x1: int, y1: int, x2: int, y2: int|
        img.in_bounds(x1, y1) && img.in_bounds(x2, y2) && before(x1, y1, x, y) && before(x2, y2, x, y)
            && lab(labels, w, x1, y1) > 0 && lab(labels, w, x2, y2) > 0 && uf.rep(
            #[trigger] lab(labels, w, x1, y1),
        ) == uf.rep(#[trigger] lab(labels, w, x2, y2)) ==> ink_connected(img, x1, y1, x2, y2)
}

/// Every scanned ink pixel in the set of label `m` is joined to `(x, y)`.
pub open spec fn joined_to(img: &Bitmap, labels: Seq<usize>, uf: UnionFind, m: usize, x: int, y: int) -> bool {
    let w = img.width as int;
    forall|x2: int, y2: int|
        img.in_bounds(x2, y2) && before(x2, y2, x, y) && lab(labels, w, x2, y2) > 0 && uf.rep(
            #[trigger] lab(labels, w, x2, y2),
        ) == uf.rep(m) ==> ink_connected(img, x2, y2, x, y)
}

/// `l` is the label of a scanned pixel touching `(x, y)`.
pub open spec fn neighbour_label(img: &Bitmap, labels: Seq<usize>, l: usize, x: int, y: int) -> bool {
    exists|x2: int, y2: int|
        img.in_bounds(x2, y2) && before(x2, y2, x, y) && adjacent8(x2, y2, x, y) && #[trigger] lab(
            labels,
            img.width as int,
            x2,
            y2,
        ) == l
}

/// Each listed label is that of a scanned pixel touching `(x, y)`.
pub open spec fn from_neighbours(img: &Bitmap, labels: Seq<usize>, v: Seq<usize>, x: int, y: int) -> bool {
    forall|i: int| 0 <= i < v.len() ==> #[trigger] neighbour_label(img, labels, v[i], x, y)
}

proof fn lemma_push_neighbour(
    img: &Bitmap,
    labels: Seq<usize>,
    old_v: Seq<usize>,
    new_v: Seq<usize>,
    l: usize,
    xn: int,
    yn: int,
    x: int,
    y: int,
)
    requires
        from_neighbours(img, labels, old_v, x, y),
        new_v == (if l > 0 {
            old_v.push(l)
        } else {
            old_v
        }),
        l > 0 ==> img.in_bounds(xn, yn) && before(xn, yn, x, y) && adjacent8(xn, yn, x, y) && lab(
            labels,
            img.width as int,
            xn,
            yn,
        ) == l,
    ensures
        from_neighbours(img, labels, new_v, x, y),
{
    assert forall|i: int| 0 <= i < new_v.len() implies #[trigger] neighbour_label(img, labels, new_v[i], x, y) by {
        if i < old_v.len() {
            assert(new_v[i] == old_v[i]);
            assert(neighbour_label(img, labels, old_v[i], x, y));
        } else {
            assert(new_v[i] == l);
            assert(lab(labels, img.width as int, xn, yn) == l);
        }
    }
}

/// The sets of the union-find stay joined to `(x, y)` through the first
/// neighbour's label.
proof fn lemma_joined_start(
    img: &Bitmap,
    labels: Seq<usize>,
    uf: UnionFind,
    m: usize,
    xn: int,
    yn: int,
    x: int,
    y: int,
)
    requires
        conn_inv(img, labels, uf, x, y),
        on_ink(img, (x, y)),
        img.in_bounds(xn, yn),
        before(xn, yn, x, y),
        adjacent8(xn, yn, x, y),
        lab(labels, img.width as int, xn, yn) == m,
        m > 0,
    ensures
        joined_to(img, labels, uf, m, x, y),
{
    let w = img.width as int;
    assert forall|x2: int, y2: int|
        img.in_bounds(x2, y2) && before(x2, y2, x, y) && lab(labels, w, x2, y2) > 0 && uf.rep(
            #[trigger] lab(labels, w, x2, y2),
        ) == uf.rep(m) implies ink_connected(img, x2, y2, x, y) by {
        assert(uf.rep(lab(labels, w, x2, y2)) == uf.rep(lab(labels, w, xn, yn)));
        lemma_connected_step(img, x2, y2, xn, yn, x, y);
    }
}

/// A union with the label of a scanned neighbour of `(x, y)` keeps every set
/// connected and the set of `m` joined to `(x, y)`.
#[verifier::spinoff_prover]
proof fn lemma_union_connects(
    img: &Bitmap,
    labels: Seq<usize>,
    uf: UnionFind,
    uf2: UnionFind,
    m: usize,
    lbl: usize,
    xn: int,
    yn: int,
    x: int,
    y: int,
)
    requires
        conn_inv(img, labels, uf, x, y),
        joined_to(img, labels, uf, m, x, y),
        on_ink(img, (x, y)),
        img.in_bounds(xn, yn),
        before(xn, yn, x, y),
        adjacent8(xn, yn, x, y),
        lab(labels, img.width as int, xn, yn) == lbl,
        lbl > 0,
        forall|l: usize| #[trigger]
            uf2.rep(l) == (if uf.rep(l) == uf.rep(m) || uf.rep(l) == uf.rep(lbl) {
                uf2.rep(m)
            } else {
                uf.rep(l)
            }),
        uf2.rep(m) == uf.rep(m) || uf2.rep(m) == uf.rep(lbl),
    ensures
        conn_inv(img, labels, uf2, x, y),
        joined_to(img, labels, uf2, m, x, y),
{
    let w = img.width as int;
    assert(uf2.rep(m) == (if uf.rep(m) == uf.rep(m) || uf.rep(m) == uf.rep(lbl) {
        uf2.rep(m)
    } else {
        uf.rep(m)
    }));
    // members of the merged set are joined to (x, y)
    assert forall|x2: int, y2: int|
        img.in_bounds(x2, y2) && before(x2, y2, x, y) && lab(labels, w, x2, y2) > 0 && uf2.rep(
            #[trigger] lab(labels, w, x2, y2),
        ) == uf2.rep(m) implies ink_connected(img, x2, y2, x, y) by {
        let l = lab(labels, w, x2, y2);
        assert(uf2.rep(l) == (if uf.rep(l) == uf.rep(m) || uf.rep(l) == uf.rep(lbl) {
            uf2.rep(m)
        } else {
            uf.rep(l)
        }));
        if uf.rep(l) == uf.rep(m) {
        } else if uf.rep(l) == uf.rep(lbl) {
            assert(uf.rep(lab(labels, w, x2, y2)) == uf.rep(lab(labels, w, xn, yn)));
            lemma_connected_step(img, x2, y2, xn, yn, x, y);
        } else {
            assert(false);
        }
    }
    assert forall|x1: int, y1: int, x2: int, y2: int|
        img.in_bounds(x1, y1) && img.in_bounds(x2, y2) && before(x1, y1, x, y) && before(x2, y2, x, y)
            && lab(labels, w, x1, y1) > 0 && lab(labels, w, x2, y2) > 0 && uf2.rep(
            #[trigger] lab(labels, w, x1, y1),
        ) == uf2.rep(#[trigger] lab(labels, w, x2, y2)) implies ink_connected(img, x1, y1, x2, y2) by {
        let l1 = lab(labels, w, x1, y1);
        let l2 = lab(labels, w, x2, y2);
        let in1 = uf.rep(l1) == uf.rep(m) || uf.rep(l1) == uf.rep(lbl);
        let in2 = uf.rep(l2) == uf.rep(m) || uf.rep(l2) == uf.rep(lbl);
        assert(uf2.rep(l1) == (if in1 { uf2.rep(m) } else { uf.rep(l1) }));
        assert(uf2.rep(l2) == (if in2 { uf2.rep(m) } else { uf.rep(l2) }));
        if in1 && in2 {
            assert(ink_connected(img, x1, y1, x, y));
            assert(ink_connected(img, x2, y2, x, y));
            lemma_connected_sym(img, x2, y2, x, y);
            lemma_connected_trans(img, x1, y1, x, y, x2, y2);
        } else if !in1 && !in2 {
            assert(uf.rep(l1) == uf.rep(l2));
        } else {
            assert(false);
        }
    }
}

/// A union-find with the same sets keeps the scanned sets connected.
proof fn lemma_conn_same_reps(img: &Bitmap, labels: Seq<usize>, uf: UnionFind, uf2: UnionFind, x: int, y: int)
    requires
        conn_inv(img, labels, uf, x, y),
        forall|l: usize| #[trigger] uf2.rep(l) == uf.rep(l),
    ensures
        conn_inv(img, labels, uf2, x, y),
{
    let w = img.width as int;
    assert forall|x1: int, y1: int, x2: int, y2: int|
        img.in_bounds(x1, y1) && img.in_bounds(x2, y2) && before(x1, y1, x, y) && before(x2, y2, x, y)
            && lab(labels, w, x1, y1) > 0 && lab(labels, w, x2, y2) > 0 && uf2.rep(
            #[trigger] lab(labels, w, x1, y1),
        ) == uf2.rep(#[trigger] lab(labels, w, x2, y2)) implies ink_connected(img, x1, y1, x2, y2) by {
        assert(uf.rep(lab(labels, w, x1, y1)) == uf.rep(lab(labels, w, x2, y2)));
    }
}

/// Unions preserve the facts of the labelling pass when both labels are in use.
#[verifier::spinoff_prover]
proof fn lemma_union_keeps_inv(
    img: &Bitmap,
    labels: Seq<usize>,
    next_label: usize,
    uf: UnionFind,
    uf2: UnionFind,
    a: usize,
    b: usize,
    x: int,
    y: int,
)
    requires
        label_pass_inv(img, labels, next_label, uf, x, y),
        1 <= a < next_label,
        1 <= b < next_label,
        uf2.inv(),
        forall|l: usize| #[trigger]
            uf2.rep(l) == (if uf.rep(l) == uf.rep(a) || uf.rep(l) == uf.rep(b) {
                uf2.rep(a)
            } else {
                uf.rep(l)
            }),
        uf2.rep(a) == uf.rep(a) || uf2.rep(a) == uf.rep(b),
        forall|l: usize| #[trigger]
            uf2.contains(l) ==> uf.contains(l) || l == uf.rep(a) || l == uf.rep(b),
    ensures
        label_pass_inv(img, labels, next_label, uf2, x, y),
        forall|l1: usize, l2: usize|
            uf.rep(l1) == uf.rep(l2) ==> #[trigger] uf2.rep(l1) == #[trigger] uf2.rep(l2),
{
    assert(1 <= uf.rep(a) < next_label);
    assert(1 <= uf.rep(b) < next_label);
    assert forall|l: usize| 1 <= l < next_label implies 1 <= #[trigger] uf2.rep(l) < next_label by {
        assert(1 <= uf.rep(l) < next_label);
    }
    assert forall|l: usize| l >= next_label implies #[trigger] uf2.rep(l) == l && !uf2.contains(l) by {
        assert(uf.rep(l) == l && !uf.contains(l));
    }
    assert forall|l1: usize, l2: usize|
        uf.rep(l1) == uf.rep(l2) implies #[trigger] uf2.rep(l1) == #[trigger] uf2.rep(l2) by {
        assert(uf2.rep(l1) == (if uf.rep(l1) == uf.rep(a) || uf.rep(l1) == uf.rep(b) {
            uf2.rep(a)
        } else {
            uf.rep(l1)
        }));
        assert(uf2.rep(l2) == (if uf.rep(l2) == uf.rep(a) || uf.rep(l2) == uf.rep(b) {
            uf2.rep(a)
        } else {
            uf.rep(l2)
        }));
    }
    let w = img.width as int;
    assert forall|x1: int, y1: int, x2: int, y2: int|
        img.in_bounds(x1, y1) && img.in_bounds(x2, y2) && before(x1, y1, x, y) && before(
            x2,
            y2,
            x,
            y,
        ) && is_fg(img, x1, y1) && is_fg(img, x2, y2) && adjacent8(
            x1,
            y1,
            x2,
            y2,
        ) implies uf2.rep(#[trigger] lab(labels, w, x1, y1)) == uf2.rep(
        #[trigger] lab(labels, w, x2, y2),
    ) by {
        assert(uf.rep(lab(labels, w, x1, y1)) == uf.rep(lab(labels, w, x2, y2)));
        let l1 = lab(labels, w, x1, y1);
        let l2 = lab(labels, w, x2, y2);
        assert(uf2.rep(l1) == uf2.rep(l2));
    }
}

/// Scanned pixels keep their label when one more label is appended.
#[verifier::spinoff_prover]
proof fn lemma_prefix_labels(img: &Bitmap, l0: Seq<usize>, l1: Seq<usize>, x: int, y: int)
    requires
        img.wf(),
        img.in_bounds(x, y),
        l0.len() == pixel_index(img.width as int, x, y),
        l1.len() == l0.len() + 1,
        forall|i: int| 0 <= i < l0.len() ==> l1[i] == l0[i],
    ensures
        forall|x2: int, y2: int|
            img.in_bounds(x2, y2) && before(x2, y2, x, y) ==> #[trigger] lab(
                l1,
                img.width as int,
                x2,
                y2,
            ) == lab(l0, img.width as int, x2, y2),
        forall|x2: int, y2: int|
            img.in_bounds(x2, y2) ==> (#[trigger] before(x2, y2, x + 1, y) <==> (before(x2, y2, x, y)
                || (x2 == x && y2 == y))),
        lab(l1, img.width as int, x, y) == l1[l0.len() as int],
{
    let w = img.width as int;
    assert forall|x2: int, y2: int|
        img.in_bounds(x2, y2) && before(x2, y2, x, y) implies #[trigger] lab(l1, w, x2, y2) == lab(
        l0,
        w,
        x2,
        y2,
    ) by {
        lemma_index_order(w, x2, y2, x, y);
        lemma_pixel_index(w, img.height as int, x2, y2);
    }
}

/// Appending a background pixel keeps the labelling facts.
#[verifier::spinoff_prover]
proof fn background_step(
    img: &Bitmap,
    l0: Seq<usize>,
    l1: Seq<usize>,
    next_label: usize,
    uf: UnionFind,
    x: int,
    y: int,
)
    requires
        img.wf(),
        img.in_bounds(x, y),
        !is_fg(img, x, y),
        label_pass_inv(img, l0, next_label, uf, x, y),
        l1 == l0.push(0),
    ensures
        label_pass_inv(img, l1, next_label, uf, x + 1, y),
{
    let w = img.width as int;
    lemma_prefix_labels(img, l0, l1, x, y);
    assert(pixel_index(w, x + 1, y) == pixel_index(w, x, y) + 1);
    assert forall|x2: int, y2: int|
        img.in_bounds(x2, y2) && before(x2, y2, x + 1, y) implies ((#[trigger] lab(l1, w, x2, y2)
        > 0) <==> is_fg(img, x2, y2)) && lab(l1, w, x2, y2) < next_label by {
        if !(x2 == x && y2 == y) {
            assert(before(x2, y2, x, y));
        }
    }
    assert forall|x1: int, y1: int, x2: int, y2: int|
        img.in_bounds(x1, y1) && img.in_bounds(x2, y2) && before(x1, y1, x + 1, y) && before(
            x2,
            y2,
            x + 1,
            y,
        ) && is_fg(img, x1, y1) && is_fg(img, x2, y2) && adjacent8(
            x1,
            y1,
            x2,
            y2,
        ) implies uf.rep(#[trigger] lab(l1, w, x1, y1)) == uf.rep(#[trigger] lab(l1, w, x2, y2)) by {
        assert(before(x1, y1, x, y));
        assert(before(x2, y2, x, y));
        assert(uf.rep(lab(l0, w, x1, y1)) == uf.rep(lab(l0, w, x2, y2)));
    }
}

/// Appending an ink pixel with no scanned ink neighbour under a fresh label.
#[verifier::spinoff_prover]
proof fn self_label_step(
    img: &Bitmap,
    l0: Seq<usize>,
    l1: Seq<usize>,
    fresh: usize,
    next_label: usize,
    uf0: UnionFind,
    uf: UnionFind,
    x: int,
    y: int,
)
    requires
        img.wf(),
        img.in_bounds(x, y),
        is_fg(img, x, y),
        label_pass_inv(img, l0, fresh, uf0, x, y),
        next_label == fresh + 1,
        l1 == l0.push(fresh),
        uf.inv(),
        forall|l: usize| #[trigger] uf.rep(l) == uf0.rep(l),
        forall|l: usize| #[trigger] uf.contains(l) == (uf0.contains(l) || l == fresh),
        forall|x2: int, y2: int|
            img.in_bounds(x2, y2) && before(x2, y2, x, y) && is_fg(img, x2, y2) ==> !adjacent8(
                x2,
                y2,
                x,
                y,
            ),
    ensures
        label_pass_inv(img, l1, next_label, uf, x + 1, y),
{
    let w = img.width as int;
    lemma_prefix_labels(img, l0, l1, x, y);
    assert(pixel_index(w, x + 1, y) == pixel_index(w, x, y) + 1);
    assert(uf0.rep(fresh) == fresh);
    assert forall|x2: int, y2: int|
        img.in_bounds(x2, y2) && before(x2, y2, x + 1, y) implies ((#[trigger] lab(l1, w, x2, y2)
        > 0) <==> is_fg(img, x2, y2)) && lab(l1, w, x2, y2) < next_label by {
        if !(x2 == x && y2 == y) {
            assert(before(x2, y2, x, y));
        }
    }
    assert forall|l: usize| 1 <= l < next_label implies 1 <= #[trigger] uf.rep(l) < next_label by {
        if l != fresh {
            assert(1 <= uf0.rep(l) < fresh);
        }
    }
    assert forall|l: usize| l >= next_label implies #[trigger] uf.rep(l) == l && !uf.contains(l) by {
        assert(uf0.rep(l) == l && !uf0.contains(l));
    }
    assert forall|x1: int, y1: int, x2: int, y2: int|
        img.in_bounds(x1, y1) && img.in_bounds(x2, y2) && before(x1, y1, x + 1, y) && before(
            x2,
            y2,
            x + 1,
            y,
        ) && is_fg(img, x1, y1) && is_fg(img, x2, y2) && adjacent8(
            x1,
            y1,
            x2,
            y2,
        ) implies uf.rep(#[trigger] lab(l1, w, x1, y1)) == uf.rep(#[trigger] lab(l1, w, x2, y2)) by {
        if (x1 == x && y1 == y) && (x2 == x && y2 == y) {
        } else if x1 == x && y1 == y {
            assert(before(x2, y2, x, y));
            assert(!adjacent8(x2, y2, x, y));
        } else if x2 == x && y2 == y {
            assert(before(x1, y1, x, y));
            assert(!adjacent8(x1, y1, x, y));
        } else {
            assert(uf0.rep(lab(l0, w, x1, y1)) == uf0.rep(lab(l0, w, x2, y2)));
        }
    }
}

/// Appending an ink pixel under the smallest label of its scanned neighbours,
/// once all those labels have been merged.
#[verifier::spinoff_prover]
proof fn merge_label_step(
    img: &Bitmap,
    l0: Seq<usize>,
    l1: Seq<usize>,
    m: usize,
    next_label: usize,
    uf0: UnionFind,
    uf: UnionFind,
    nb: Seq<usize>,
    x: int,
    y: int,
)
    requires
        img.wf(),
        img.in_bounds(x, y),
        is_fg(img, x, y),
        label_pass_inv(img, l0, next_label, uf, x, y),
        l1 == l0.push(m),
        nb.contains(m),
        forall|i: int| 0 <= i < nb.len() ==> 1 <= #[trigger] nb[i] < next_label,
        forall|i: int| 0 <= i < nb.len() ==> uf.rep(#[trigger] nb[i]) == uf.rep(m),
        forall|x2: int, y2: int|
            img.in_bounds(x2, y2) && before(x2, y2, x, y) && is_fg(img, x2, y2) && adjacent8(
                x2,
                y2,
                x,
                y,
            ) ==> nb.contains(#[trigger] lab(l0, img.width as int, x2, y2)),
    ensures
        label_pass_inv(img, l1, next_label, uf, x + 1, y),
{
    let w = img.width as int;
    lemma_prefix_labels(img, l0, l1, x, y);
    assert(pixel_index(w, x + 1, y) == pixel_index(w, x, y) + 1);
    let k = choose|k: int| 0 <= k < nb.len() && nb[k] == m;
    assert(1 <= nb[k] < next_label);
    assert forall|x2: int, y2: int|
        img.in_bounds(x2, y2) && before(x2, y2, x + 1, y) implies ((#[trigger] lab(l1, w, x2, y2)
        > 0) <==> is_fg(img, x2, y2)) && lab(l1, w, x2, y2) < next_label by {
        if !(x2 == x && y2 == y) {
            assert(before(x2, y2, x, y));
        }
    }
    assert forall|x1: int, y1: int, x2: int, y2: int|
        img.in_bounds(x1, y1) && img.in_bounds(x2, y2) && before(x1, y1, x + 1, y) && before(
            x2,
            y2,
            x + 1,
            y,
        ) && is_fg(img, x1, y1) && is_fg(img, x2, y2) && adjacent8(
            x1,
            y1,
            x2,
            y2,
        ) implies uf.rep(#[trigger] lab(l1, w, x1, y1)) == uf.rep(#[trigger] lab(l1, w, x2, y2)) by {
        if (x1 == x && y1 == y) && (x2 == x && y2 == y) {
        } else if x1 == x && y1 == y {
            assert(before(x2, y2, x, y));
            assert(adjacent8(x2, y2, x, y));
            assert(nb.contains(lab(l0, w, x2, y2)));
            let j = choose|j: int| 0 <= j < nb.len() && nb[j] == lab(l0, w, x2, y2);
            assert(uf.rep(nb[j]) == uf.rep(m));
        } else if x2 == x && y2 == y {
            assert(before(x1, y1, x, y));
            assert(adjacent8(x1, y1, x, y));
            assert(nb.contains(lab(l0, w, x1, y1)));
            let j = choose|j: int| 0 <= j < nb.len() && nb[j] == lab(l0, w, x1, y1);
            assert(uf.rep(nb[j]) == uf.rep(m));
        } else {
            assert(uf.rep(lab(l0, w, x1, y1)) == uf.rep(lab(l0, w, x2, y2)));
        }
    }
}

/// Appending a background pixel keeps the scanned sets connected.
#[verifier::spinoff_prover]
proof fn lemma_conn_background(img: &Bitmap, l0: Seq<usize>, l1: Seq<usize>, uf: UnionFind, x: int, y: int)
    requires
        img.wf(),
        img.in_bounds(x, y),
        l0.len() == pixel_index(img.width as int, x, y),
        l1 == l0.push(0),
        conn_inv(img, l0, uf, x, y),
    ensures
        conn_inv(img, l1, uf, x + 1, y),
{
    let w = img.width as int;
    lemma_prefix_labels(img, l0, l1, x, y);
    assert forall|x1: int, y1: int, x2: int, y2: int|
        img.in_bounds(x1, y1) && img.in_bounds(x2, y2) && before(x1, y1, x + 1, y) && before(
            x2,
            y2,
            x + 1,
            y,
        ) && lab(l1, w, x1, y1) > 0 && lab(l1, w, x2, y2) > 0 && uf.rep(#[trigger] lab(l1, w, x1, y1))
            == uf.rep(#[trigger] lab(l1, w, x2, y2)) implies ink_connected(img, x1, y1, x2, y2) by {
        assert(before(x1, y1, x, y) || (x1 == x && y1 == y));
        assert(before(x2, y2, x, y) || (x2 == x && y2 == y));
        if x1 == x && y1 == y {
            assert(lab(l1, w, x1, y1) == 0);
        } else if x2 == x && y2 == y {
            assert(lab(l1, w, x2, y2) == 0);
        } else {
            assert(uf.rep(lab(l0, w, x1, y1)) == uf.rep(lab(l0, w, x2, y2)));
        }
    }
}

/// Appending an ink pixel under a fresh label keeps the scanned sets connected.
#[verifier::spinoff_prover]
proof fn lemma_conn_fresh(
    img: &Bitmap,
    l0: Seq<usize>,
    l1: Seq<usize>,
    fresh: usize,
    uf0: UnionFind,
    uf: UnionFind,
    x: int,
    y: int,
)
    requires
        img.wf(),
        img.in_bounds(x, y),
        is_fg(img, x, y),
        label_pass_inv(img, l0, fresh, uf0, x, y),
        conn_inv(img, l0, uf0, x, y),
        l1 == l0.push(fresh),
        forall|l: usize| #[trigger] uf.rep(l) == uf0.rep(l),
    ensures
        conn_inv(img, l1, uf, x + 1, y),
{
    let w = img.width as int;
    lemma_prefix_labels(img, l0, l1, x, y);
    assert(uf0.rep(fresh) == fresh);
    assert forall|x1: int, y1: int, x2: int, y2: int|
        img.in_bounds(x1, y1) && img.in_bounds(x2, y2) && before(x1, y1, x + 1, y) && before(
            x2,
            y2,
            x + 1,
            y,
        ) && lab(l1, w, x1, y1) > 0 && lab(l1, w, x2, y2) > 0 && uf.rep(#[trigger] lab(l1, w, x1, y1))
            == uf.rep(#[trigger] lab(l1, w, x2, y2)) implies ink_connected(img, x1, y1, x2, y2) by {
        assert(before(x1, y1, x, y) || (x1 == x && y1 == y));
        assert(before(x2, y2, x, y) || (x2 == x && y2 == y));
        let a = lab(l1, w, x1, y1);
        let b = lab(l1, w, x2, y2);
        assert(uf.rep(a) == uf0.rep(a));
        assert(uf.rep(b) == uf0.rep(b));
        if x1 == x && y1 == y && x2 == x && y2 == y {
            lemma_connected_refl(img, x, y);
        } else if x1 == x && y1 == y {
            assert(lab(l0, w, x2, y2) < fresh);
            assert(1 <= uf0.rep(b) < fresh);
        } else if x2 == x && y2 == y {
            assert(lab(l0, w, x1, y1) < fresh);
            assert(1 <= uf0.rep(a) < fresh);
        } else {
            assert(uf0.rep(lab(l0, w, x1, y1)) == uf0.rep(lab(l0, w, x2, y2)));
        }
    }
}

/// Appending an ink pixel under label `m`, once every scanned pixel in the
/// set of `m` is joined to it, keeps the scanned sets connected.
#[verifier::spinoff_prover]
proof fn lemma_conn_merged(img: &Bitmap, l0: Seq<usize>, l1: Seq<usize>, m: usize, uf: UnionFind, x: int, y: int)
    requires
        img.wf(),
        img.in_bounds(x, y),
        is_fg(img, x, y),
        l0.len() == pixel_index(img.width as int, x, y),
        l1 == l0.push(m),
        conn_inv(img, l0, uf, x, y),
        joined_to(img, l0, uf, m, x, y),
    ensures
        conn_inv(img, l1, uf, x + 1, y),
{
    let w = img.width as int;
    lemma_prefix_labels(img, l0, l1, x, y);
    assert forall|x1: int, y1: int, x2: int, y2: int|
        img.in_bounds(x1, y1) && img.in_bounds(x2, y2) && before(x1, y1, x + 1, y) && before(
            x2,
            y2,
            x + 1,
            y,
        ) && lab(l1, w, x1, y1) > 0 && lab(l1, w, x2, y2) > 0 && uf.rep(#[trigger] lab(l1, w, x1, y1))
            == uf.rep(#[trigger] lab(l1, w, x2, y2)) implies ink_connected(img, x1, y1, x2, y2) by {
        assert(before(x1, y1, x, y) || (x1 == x && y1 == y));
        assert(before(x2, y2, x, y) || (x2 == x && y2 == y));
        if x1 == x && y1 == y && x2 == x && y2 == y {
            lemma_connected_refl(img, x, y);
        } else if x1 == x && y1 == y {
            assert(uf.rep(lab(l0, w, x2, y2)) == uf.rep(m));
            assert(ink_connected(img, x2, y2, x, y));
            lemma_connected_sym(img, x2, y2, x, y);
        } else if x2 == x && y2 == y {
            assert(uf.rep(lab(l0, w, x1, y1)) == uf.rep(m));
        } else {
            assert(uf.rep(lab(l0, w, x1, y1)) == uf.rep(lab(l0, w, x2, y2)));
        }
    }
}

/// The facts of both passes carry over from the end of a row to the start of
/// the next.
proof fn lemma_next_row(img: &Bitmap, labels: Seq<usize>, nl: usize, uf: UnionFind, y: int)
    requires
        img.wf(),
        0 <= y < img.height,
        label_pass_inv(img, labels, nl, uf, img.width as int, y),
        conn_inv(img, labels, uf, img.width as int, y),
    ensures
        label_pass_inv(img, labels, nl, uf, 0, y + 1),
        conn_inv(img, labels, uf, 0, y + 1),
{
    let w = img.width as int;
    lemma_row_step(w, y);
    assert(pixel_index(w, w, y) == pixel_index(w, 0, y + 1));
    assert forall|x2: int, y2: int|
        img.in_bounds(x2, y2) implies #[trigger] before(x2, y2, 0, y + 1) == before(x2, y2, w, y) by {}
}

/// Appends `l` to the list when it is a real (non-zero) label.
fn push_if_labelled(v: &mut Vec<usize>, l: usize)
    ensures
        final(v)@ == (if l > 0 {
            old(v)@.push(l)
        } else {
            old(v)@
        }),
        forall|z: usize| old(v)@.contains(z) ==> #[trigger] final(v)@.contains(z),
        l > 0 ==> final(v)@.contains(l),
        forall|z: usize| #[trigger] final(v)@.contains(z) ==> old(v)@.contains(z) || z == l,
{
    if l > 0 {
        v.push(l);
        proof {
            assert(v@[v@.len() - 1] == l);
            assert forall|z: usize| old(v)@.contains(z) implies #[trigger] v@.contains(z) by {
                let k = choose|k: int| 0 <= k < old(v)@.len() && old(v)@[k] == z;
                assert(v@[k] == z);
            }
            assert forall|z: usize| #[trigger] v@.contains(z) implies old(v)@.contains(z) || z == l by {
                let k = choose|k: int| 0 <= k < v@.len() && v@[k] == z;
                if k < old(v)@.len() {
                    assert(old(v)@[k] == z);
                }
            }
        }
    }
}

/// The smallest of a non-empty list of labels.
fn min_label(v: &Vec<usize>) -> (m: usize)
    requires
        v@.len() > 0,
    ensures
        v@.contains(m),
        forall|i: int| 0 <= i < v@.len() ==> m <= #[trigger] v@[i],
{
    let mut m = v[0];
    let mut i: usize = 1;
    assert(v@.subrange(0, 1)[0] == v@[0]);
    while i < v.len()
        invariant
            1 <= i <= v@.len(),
            v@.subrange(0, i as int).contains(m),
            forall|j: int| 0 <= j < i ==> m <= #[trigger] v@[j],
        decreases v@.len() - i,
    {
        if v[i] < m {
            m = v[i];
        }
        proof {
            assert(v@.subrange(0, i as int + 1)[i as int] == v@[i as int]);
            if m != v@[i as int] {
                let k = choose|k: int| 0 <= k < i && v@.subrange(0, i as int)[k] == m;
                assert(v@.subrange(0, i as int + 1)[k] == m);
            }
        }
        i = i + 1;
    }
    proof {
        assert(v@.subrange(0, v@.len() as int) =~= v@);
    }
    m
}

/// Labels pixel `(x, y)` from its already scanned neighbours.
fn scan_pixel(
    image: &Bitmap,
    labels: &mut Vec<usize>,
    next_label: &mut usize,
    uf: &mut UnionFind,
    x: usize,
    y: usize,
)
    requires
        image.wf(),
        x < image.width,
        y < image.height,
        label_pass_inv(image, old(labels)@, *old(next_label), *old(uf), x as int, y as int),
        conn_inv(image, old(labels)@, *old(uf), x as int, y as int),
    ensures
        label_pass_inv(image, final(labels)@, *final(next_label), *final(uf), x as int + 1, y as int),
        conn_inv(image, final(labels)@, *final(uf), x as int + 1, y as int),
{
    let width = image.width as usize;
    let height = image.height as usize;
    let ghost w = width as int;
    let _npix = image.pixels.len();
    let nl: usize = *next_label;
    proof {
        lemma_pixel_index(w, height as int, x as int, y as int);
        lemma_row_step(w, y as int);
        assert(labels@.len() < w * height as int);
    }
    let idx = labels.len();
    let pixel = image.get_pixel(x as u32, y as u32);
    let ghost l0 = labels@;
    let ghost uf0 = *uf;
    if pixel < FOREGROUND_BELOW {
        let mut neighbor_labels: Vec<usize> = Vec::new();
        proof {
            assert(from_neighbours(image, l0, neighbor_labels@, x as int, y as int));
            assert(on_ink(image, (x as int, y as int)));
        }
        if y > 0 {
            proof {
                assert(idx >= width);
                assert(pixel_index(w, x as int, y as int - 1) == idx - width);
                assert(lab(l0, w, x as int, y as int - 1) == l0[idx - width]);
            }
            let up = labels[idx - width];
            let ghost v0 = neighbor_labels@;
            push_if_labelled(&mut neighbor_labels, up);
            proof {
                lemma_push_neighbour(image, l0, v0, neighbor_labels@, up, x as int, y as int - 1,
                    x as int, y as int);
            }
            if x > 0 {
                proof {
                    assert(pixel_index(w, x as int - 1, y as int - 1) == idx - width - 1);
                    assert(lab(l0, w, x as int - 1, y as int - 1) == l0[idx - width - 1]);
                }
                let ul = labels[idx - width - 1];
                let ghost v1 = neighbor_labels@;
                push_if_labelled(&mut neighbor_labels, ul);
                proof {
                    lemma_push_neighbour(image, l0, v1, neighbor_labels@, ul, x as int - 1,
                        y as int - 1, x as int, y as int);
                }
            }
            if x + 1 < width {
                proof {
                    assert(pixel_index(w, x as int + 1, y as int - 1) == idx - width + 1);
                    assert(lab(l0, w, x as int + 1, y as int - 1) == l0[idx - width + 1]);
                }
                let ur = labels[idx - width + 1];
                let ghost v2 = neighbor_labels@;
                push_if_labelled(&mut neighbor_labels, ur);
                proof {
                    lemma_push_neighbour(image, l0, v2, neighbor_labels@, ur, x as int + 1,
                        y as int - 1, x as int, y as int);
                }
            }
            proof {
                assert(up == lab(l0, w, x as int, y as int - 1));
                assert(up > 0 ==> neighbor_labels@.contains(up));
            }
        }
        let ghost nb_up = neighbor_labels@;
        if x > 0 {
            proof {
                assert(pixel_index(w, x as int - 1, y as int) == idx - 1);
                assert(lab(l0, w, x as int - 1, y as int) == l0[idx - 1]);
            }
            let left = labels[idx - 1];
            let ghost v3 = neighbor_labels@;
            push_if_labelled(&mut neighbor_labels, left);
            proof {
                lemma_push_neighbour(image, l0, v3, neighbor_labels@, left, x as int - 1, y as int,
                    x as int, y as int);
            }
        }
        // every scanned ink pixel touching (x, y) carries a label in the list
        proof {
            assert forall|x2: int, y2: int|
                image.in_bounds(x2, y2) && before(x2, y2, x as int, y as int) && is_fg(
                    image,
                    x2,
                    y2,
                ) && adjacent8(x2, y2, x as int, y as int) implies neighbor_labels@.contains(
                #[trigger] lab(l0, w, x2, y2),
            ) by {
                assert(lab(l0, w, x2, y2) > 0);
                if y2 == y {
                    assert(x2 == x - 1);
                } else {
                    assert(y2 == y - 1);
                    assert(nb_up.contains(lab(l0, w, x2, y2)));
                }
            }
            assert forall|i: int|
                0 <= i < neighbor_labels@.len() implies 1 <= #[trigger] neighbor_labels@[i]
                < nl by {}
        }
        if neighbor_labels.len() == 0 {
            labels.push(nl);
            assert(uf.rep(nl) == nl);
            uf.make_set(nl);
            proof {
                assert(uf.rep(nl) == nl);
            }
            proof {
                assert(labels@.len() <= image.pixels@.len());
            }
            *next_label = nl + 1;
            proof {
                self_label_step(image, l0, labels@, nl, (nl + 1) as usize, uf0, *uf, x as int,
                    y as int);
                lemma_conn_fresh(image, l0, labels@, nl, uf0, *uf, x as int, y as int);
            }
        } else {
            let m = min_label(&neighbor_labels);
            labels.push(m);
            proof {
                let j = choose|j: int| 0 <= j < neighbor_labels@.len() && neighbor_labels@[j] == m;
                assert(neighbour_label(image, l0, neighbor_labels@[j], x as int, y as int));
                let (xn, yn) = choose|xn: int, yn: int|
                    image.in_bounds(xn, yn) && before(xn, yn, x as int, y as int) && adjacent8(
                        xn,
                        yn,
                        x as int,
                        y as int,
                    ) && #[trigger] lab(l0, w, xn, yn) == m;
                lemma_joined_start(image, l0, *uf, m, xn, yn, x as int, y as int);
            }
            let mut k: usize = 0;
            while k < neighbor_labels.len()
                invariant
                    image.wf(),
                    w == image.width,
                    x < image.width,
                    y < image.height,
                    labels@ == l0.push(m),
                    neighbor_labels@.contains(m),
                    forall|i: int|
                        0 <= i < neighbor_labels@.len() ==> 1 <= #[trigger] neighbor_labels@[i]
                            < nl,
                    label_pass_inv(image, l0, nl, *uf, x as int, y as int),
                    k <= neighbor_labels@.len(),
                    forall|i: int|
                        0 <= i < k ==> uf.rep(#[trigger] neighbor_labels@[i]) == uf.rep(m),
                    forall|l1: usize, l2: usize|
                        uf0.rep(l1) == uf0.rep(l2) ==> #[trigger] uf.rep(l1)
                            == #[trigger] uf.rep(l2),
                    on_ink(image, (x as int, y as int)),
                    from_neighbours(image, l0, neighbor_labels@, x as int, y as int),
                    conn_inv(image, l0, *uf, x as int, y as int),
                    joined_to(image, l0, *uf, m, x as int, y as int),
                decreases neighbor_labels@.len() - k,
            {
                let lbl = neighbor_labels[k];
                if lbl != m {
                    let ghost ufb = *uf;
                    uf.union(m, lbl);
                    proof {
                        lemma_union_keeps_inv(image, l0, nl, ufb, *uf, m, lbl,
                            x as int, y as int);
                        assert(neighbour_label(image, l0, neighbor_labels@[k as int], x as int, y as int));
                        let (xn, yn) = choose|xn: int, yn: int|
                            image.in_bounds(xn, yn) && before(xn, yn, x as int, y as int) && adjacent8(
                                xn,
                                yn,
                                x as int,
                                y as int,
                            ) && #[trigger] lab(l0, w, xn, yn) == lbl;
                        lemma_union_connects(image, l0, ufb, *uf, m, lbl, xn, yn, x as int, y as int);
                    }
                }
                k = k + 1;
            }
            proof {
                merge_label_step(image, l0, labels@, m, nl, uf0, *uf,
                    neighbor_labels@, x as int, y as int);
                lemma_conn_merged(image, l0, labels@, m, *uf, x as int, y as int);
            }
        }
    } else {
        labels.push(0);
        proof {
            background_step(image, l0, labels@, nl, *uf, x as int, y as int);
            lemma_conn_background(image, l0, labels@, *uf, x as int, y as int);
        }
    }
}

/// First pass: provisional labels for every pixel (zero for background) and
/// the equivalences between labels of touching ink pixels.
fn label_pass(image: &Bitmap) -> (res: (Vec<usize>, usize, UnionFind))
    requires
        image.wf(),
    ensures
        label_pass_inv(image, res.0@, res.1, res.2, 0, image.height as int),
        conn_inv(image, res.0@, res.2, 0, image.height as int),
{
    let width = image.width as usize;
    let height = image.height as usize;
    let ghost w = width as int;
    let mut labels: Vec<usize> = Vec::new();
    let mut next_label: usize = 1;
    let mut uf = UnionFind::new();
    let mut y: usize = 0;
    proof {
        assert(pixel_index(w, 0, 0) == 0);
        assert(conn_inv(image, labels@, uf, 0, 0));
    }
    while y < height
        invariant
            width == image.width,
            height == image.height,
            w == width,
            image.wf(),
            y <= height,
            label_pass_inv(image, labels@, next_label, uf, 0, y as int),
            conn_inv(image, labels@, uf, 0, y as int),
        decreases height - y,
    {
        let mut x: usize = 0;
        while x < width
            invariant
                width == image.width,
                height == image.height,
                w == width,
                image.wf(),
                y < height,
                x <= width,
                label_pass_inv(image, labels@, next_label, uf, x as int, y as int),
                conn_inv(image, labels@, uf, x as int, y as int),
            decreases width - x,
        {
            scan_pixel(image, &mut labels, &mut next_label, &mut uf, x, y);
            x = x + 1;
        }
        proof {
            lemma_next_row(image, labels@, next_label, uf, y as int);
        }
        y = y + 1;
    }
    (labels, next_label, uf)
}

} // verus!

verus! {

/// Bounding-box accumulator entry: `(min_x, max_x, min_y, max_y)`.
pub type BoxEntry = Option<(usize, usize, usize, usize)>;

/// Representative label of pixel `(x, y)`.
pub open spec fn class_at(uf: UnionFind, labels: Seq<usize>, width: int, x: int, y: int) -> usize {
    uf.rep(lab(labels, width, x, y))
}

/// Witness pixels for the four edges of every accumulated box.
pub struct EdgeWitnesses {
    pub min_x: Seq<(int, int)>,
    pub max_x: Seq<(int, int)>,
    pub min_y: Seq<(int, int)>,
    pub max_y: Seq<(int, int)>,
}

/// `(x2, y2)` is a scanned ink pixel whose class is `r`.
pub open spec fn scanned_member(
    img: &Bitmap,
    labels: Seq<usize>,
    uf: UnionFind,
    r: int,
    x2: int,
    y2: int,
    x: int,
    y: int,
) -> bool {
    &&& img.in_bounds(x2, y2)
    &&& before(x2, y2, x, y)
    &&& lab(labels, img.width as int, x2, y2) > 0
    &&& class_at(uf, labels, img.width as int, x2, y2) == r
}

/// Entry `r` of the table is the bounding box of the scanned pixels of class `r`.
pub open spec fn entry_ok(
    img: &Bitmap,
    labels: Seq<usize>,
    uf: UnionFind,
    table: Seq<BoxEntry>,
    wit: EdgeWitnesses,
    r: int,
    x: int,
    y: int,
) -> bool {
    match table[r] {
        None => forall|x2: int, y2: int| !#[trigger] scanned_member(img, labels, uf, r, x2, y2, x, y),
        Some(e) => {
            &&& forall|x2: int, y2: int|
                #[trigger] scanned_member(img, labels, uf, r, x2, y2, x, y) ==> e.0 <= x2 <= e.1
                    && e.2 <= y2 <= e.3
            &&& scanned_member(img, labels, uf, r, wit.min_x[r].0, wit.min_x[r].1, x, y)
                && wit.min_x[r].0 == e.0
            &&& scanned_member(img, labels, uf, r, wit.max_x[r].0, wit.max_x[r].1, x, y)
                && wit.max_x[r].0 == e.1
            &&& scanned_member(img, labels, uf, r, wit.min_y[r].0, wit.min_y[r].1, x, y)
                && wit.min_y[r].1 == e.2
            &&& scanned_member(img, labels, uf, r, wit.max_y[r].0, wit.max_y[r].1, x, y)
                && wit.max_y[r].1 == e.3
        },
    }
}

/// Facts maintained by the box-collecting pass.
pub open spec fn box_pass_inv(
    img: &Bitmap,
    labels: Seq<usize>,
    next_label: usize,
    uf: UnionFind,
    table: Seq<BoxEntry>,
    wit: EdgeWitnesses,
    x: int,
    y: int,
) -> bool {
    &&& label_pass_inv(img, labels, next_label, uf, 0, img.height as int)
    &&& 0 <= y <= img.height
    &&& 0 <= x <= img.width
    &&& table.len() == next_label
    &&& wit.min_x.len() == next_label
    &&& wit.max_x.len() == next_label
    &&& wit.min_y.len() == next_label
    &&& wit.max_y.len() == next_label
    &&& forall|r: int| 0 <= r < next_label ==> #[trigger] entry_ok(img, labels, uf, table, wit, r, x, y)
}

} // verus!

verus! {

/// A union-find with the same sets keeps the facts of the labelling pass.
#[verifier::spinoff_prover]
proof fn lemma_label_inv_same_sets(
    img: &Bitmap,
    labels: Seq<usize>,
    next_label: usize,
    uf: UnionFind,
    uf2: UnionFind,
    x: int,
    y: int,
)
    requires
        label_pass_inv(img, labels, next_label, uf, x, y),
        uf2.inv(),
        forall|l: usize| #[trigger] uf2.rep(l) == uf.rep(l),
        forall|l: usize| #[trigger] uf2.contains(l) == uf.contains(l),
    ensures
        label_pass_inv(img, labels, next_label, uf2, x, y),
{
    let w = img.width as int;
    assert forall|x1: int, y1: int, x2: int, y2: int|
        img.in_bounds(x1, y1) && img.in_bounds(x2, y2) && before(x1, y1, x, y) && before(
            x2,
            y2,
            x,
            y,
        ) && is_fg(img, x1, y1) && is_fg(img, x2, y2) && adjacent8(
            x1,
            y1,
            x2,
            y2,
        ) implies uf2.rep(#[trigger] lab(labels, w, x1, y1)) == uf2.rep(
        #[trigger] lab(labels, w, x2, y2),
    ) by {
        assert(uf.rep(lab(labels, w, x1, y1)) == uf.rep(lab(labels, w, x2, y2)));
    }
    assert forall|l: usize| 1 <= l < next_label implies 1 <= #[trigger] uf2.rep(l) < next_label by {
        assert(1 <= uf.rep(l) < next_label);
    }
    assert forall|l: usize| l >= next_label implies #[trigger] uf2.rep(l) == l && !uf2.contains(l) by {
        assert(uf.rep(l) == l && !uf.contains(l));
    }
}

/// Adds pixel `(x, y)` to the box of its class.
fn box_pixel(
    image: &Bitmap,
    labels: &Vec<usize>,
    next_label: usize,
    uf: &mut UnionFind,
    table: &mut Vec<BoxEntry>,
    Ghost(wit): Ghost<EdgeWitnesses>,
    x: usize,
    y: usize,
    idx: usize,
) -> (wit2: Ghost<EdgeWitnesses>)
    requires
        image.wf(),
        x < image.width,
        y < image.height,
        idx == pixel_index(image.width as int, x as int, y as int),
        box_pass_inv(image, labels@, next_label, *old(uf), old(table)@, wit, x as int, y as int),
    ensures
        box_pass_inv(
            image,
            labels@,
            next_label,
            *final(uf),
            final(table)@,
            wit2@,
            x as int + 1,
            y as int,
        ),
        forall|l: usize| #[trigger] final(uf).rep(l) == old(uf).rep(l),
{
    let ghost w = image.width as int;
    let ghost uf0 = *uf;
    let ghost t0 = table@;
    proof {
        lemma_pixel_index(w, image.height as int, x as int, y as int);
        assert(before(x as int, y as int, 0, image.height as int));
    }
    let lbl = labels[idx];
    assert(lbl == lab(labels@, w, x as int, y as int));
    if lbl == 0 {
        proof {
            assert forall|r: int| 0 <= r < next_label implies #[trigger] entry_ok(
                image,
                labels@,
                *uf,
                table@,
                wit,
                r,
                x as int + 1,
                y as int,
            ) by {
                assert(entry_ok(image, labels@, *uf, table@, wit, r, x as int, y as int));
                assert forall|x2: int, y2: int|
                    #[trigger] scanned_member(image, labels@, *uf, r, x2, y2, x as int + 1, y as int)
                    == scanned_member(image, labels@, *uf, r, x2, y2, x as int, y as int) by {}
            }
        }
        return Ghost(wit);
    }
    assert(1 <= lbl < next_label);
    let root = uf.find(lbl);
    proof {
        assert(1 <= uf0.rep(lbl) < next_label);
        lemma_label_inv_same_sets(image, labels@, next_label, uf0, *uf, 0, image.height as int);
    }
    let ghost uf1 = *uf;
    let ghost r = root as int;
    let old_entry = table[root];
    let new_entry: BoxEntry = match old_entry {
        None => Some((x, x, y, y)),
        Some(e) => {
            let (a, b, c, d) = e;
            Some(
                (
                    if a <= x { a } else { x },
                    if b >= x { b } else { x },
                    if c <= y { c } else { y },
                    if d >= y { d } else { y },
                ),
            )
        },
    };
    table.set(root, new_entry);
    let ghost me: (int, int) = (x as int, y as int);
    let ghost wit2 = match old_entry {
        None => EdgeWitnesses {
            min_x: wit.min_x.update(r, me),
            max_x: wit.max_x.update(r, me),
            min_y: wit.min_y.update(r, me),
            max_y: wit.max_y.update(r, me),
        },
        Some(e) => EdgeWitnesses {
            min_x: if x < e.0 { wit.min_x.update(r, me) } else { wit.min_x },
            max_x: if x > e.1 { wit.max_x.update(r, me) } else { wit.max_x },
            min_y: if y < e.2 { wit.min_y.update(r, me) } else { wit.min_y },
            max_y: if y > e.3 { wit.max_y.update(r, me) } else { wit.max_y },
        },
    };
    proof {
        assert forall|q: int, x2: int, y2: int|
            #[trigger] scanned_member(image, labels@, uf1, q, x2, y2, x as int + 1, y as int) == (
            scanned_member(image, labels@, uf0, q, x2, y2, x as int, y as int) || (x2 == x && y2
                == y && q == r)) by {
            if !(x2 == x && y2 == y) {
                assert(uf1.rep(lab(labels@, w, x2, y2)) == uf0.rep(lab(labels@, w, x2, y2)));
            }
        }
        assert forall|q: int, x2: int, y2: int|
            #[trigger] scanned_member(image, labels@, uf1, q, x2, y2, x as int, y as int)
            == scanned_member(image, labels@, uf0, q, x2, y2, x as int, y as int) by {
            assert(uf1.rep(lab(labels@, w, x2, y2)) == uf0.rep(lab(labels@, w, x2, y2)));
        }
        assert forall|q: int| 0 <= q < next_label implies #[trigger] entry_ok(
            image,
            labels@,
            uf1,
            table@,
            wit2,
            q,
            x as int + 1,
            y as int,
        ) by {
            assert(entry_ok(image, labels@, uf0, t0, wit, q, x as int, y as int));
            if q != r {
                assert(table@[q] == t0[q]);
            }
        }
    }
    Ghost(wit2)
}

} // verus!

verus! {

/// The rectangle described by a box entry (inclusive pixel bounds).
pub open spec fn entry_rect(e: (usize, usize, usize, usize)) -> Rect {
    Rect {
        x: e.0 as i64,
        y: e.2 as i64,
        width: (e.1 - e.0 + 1) as i64,
        height: (e.3 - e.2 + 1) as i64,
    }
}

/// The rectangle lies inside the image and covers at least one pixel.
pub open spec fn rect_in_image(img: &Bitmap, r: Rect) -> bool {
    &&& r.wf()
    &&& 0 <= r.x
    &&& 0 <= r.y
    &&& 1 <= r.width
    &&& 1 <= r.height
    &&& r.right() <= img.width
    &&& r.bottom() <= img.height
}

/// Second pass: the bounding box of every class, in increasing order of the
/// class representative.
fn collect_boxes(image: &Bitmap, labels: &Vec<usize>, next_label: usize, uf: &mut UnionFind) -> (rects:
    Vec<Rect>)
    requires
        image.wf(),
        label_pass_inv(image, labels@, next_label, *old(uf), 0, image.height as int),
        conn_inv(image, labels@, *old(uf), 0, image.height as int),
    ensures
        exists|cls: Seq<Seq<int>>| is_component_labeling(image, rects@, cls),
        forall|k: int| 0 <= k < rects@.len() ==> rect_in_image(image, #[trigger] rects@[k]),
{
    let width = image.width as usize;
    let height = image.height as usize;
    let ghost w = width as int;
    let ghost uf_start = *uf;
    let mut table: Vec<BoxEntry> = Vec::new();
    let mut i: usize = 0;
    while i < next_label
        invariant
            i <= next_label,
            table@.len() == i,
            forall|j: int| 0 <= j < i ==> table@[j] is None,
        decreases next_label - i,
    {
        table.push(None);
        i = i + 1;
    }
    let ghost zero = Seq::new(next_label as nat, |j: int| (0int, 0int));
    let ghost mut wit = EdgeWitnesses { min_x: zero, max_x: zero, min_y: zero, max_y: zero };
    proof {
        assert forall|r: int| 0 <= r < next_label implies #[trigger] entry_ok(
            image,
            labels@,
            *uf,
            table@,
            wit,
            r,
            0,
            0,
        ) by {
            assert forall|x2: int, y2: int|
                !#[trigger] scanned_member(image, labels@, *uf, r, x2, y2, 0, 0) by {}
        }
    }
    let mut y: usize = 0;
    let mut idx: usize = 0;
    while y < height
        invariant
            width == image.width,
            height == image.height,
            w == width,
            image.wf(),
            y <= height,
            idx == pixel_index(w, 0, y as int),
            box_pass_inv(image, labels@, next_label, *uf, table@, wit, 0, y as int),
            forall|l: usize| #[trigger] uf.rep(l) == uf_start.rep(l),
        decreases height - y,
    {
        let mut x: usize = 0;
        while x < width
            invariant
                width == image.width,
                height == image.height,
                w == width,
                image.wf(),
                y < height,
                x <= width,
                idx == pixel_index(w, x as int, y as int),
                box_pass_inv(image, labels@, next_label, *uf, table@, wit, x as int, y as int),
                forall|l: usize| #[trigger] uf.rep(l) == uf_start.rep(l),
            decreases width - x,
        {
            proof {
                lemma_pixel_index(w, height as int, x as int, y as int);
            }
            let ghost uf_before = *uf;
            let g = box_pixel(image, labels, next_label, uf, &mut table, Ghost(wit), x, y, idx);
            proof {
                wit = g@;
                assert forall|l: usize| #[trigger] uf.rep(l) == uf_start.rep(l) by {
                    assert(uf.rep(l) == uf_before.rep(l));
                }
            }
            x = x + 1;
            idx = idx + 1;
        }
        proof {
            lemma_row_step(w, y as int);
            assert forall|q: int, x2: int, y2: int|
                #[trigger] scanned_member(image, labels@, *uf, q, x2, y2, 0, y as int + 1)
                == scanned_member(image, labels@, *uf, q, x2, y2, x as int, y as int) by {}
            assert forall|r: int| 0 <= r < next_label implies #[trigger] entry_ok(
                image,
                labels@,
                *uf,
                table@,
                wit,
                r,
                0,
                y as int + 1,
            ) by {
                assert(entry_ok(image, labels@, *uf, table@, wit, r, x as int, y as int));
            }
        }
        y = y + 1;
    }
    // every ink pixel has been scanned
    proof {
        assert forall|x2: int, y2: int|
            image.in_bounds(x2, y2) implies #[trigger] before(x2, y2, 0, height as int) by {}
    }
    let mut rects: Vec<Rect> = Vec::new();
    let ghost mut idx_map: Seq<int> = Seq::empty();
    let ghost mut rect_root: Seq<int> = Seq::empty();
    let mut r: usize = 0;
    while r < next_label
        invariant
            image.wf(),
            w == image.width,
            r <= next_label,
            table@.len() == next_label,
            box_pass_inv(image, labels@, next_label, *uf, table@, wit, 0, image.height as int),
            idx_map.len() == r,
            rect_root.len() == rects@.len(),
            forall|q: int|
                0 <= q < r ==> (table@[q] is None ==> #[trigger] idx_map[q] == -1) && (table@[q] is Some
                    ==> 0 <= idx_map[q] < rects@.len() && rect_root[idx_map[q]] == q),
            forall|k: int|
                0 <= k < rects@.len() ==> 0 <= #[trigger] rect_root[k] < r && table@[rect_root[k]] is Some
                    && idx_map[rect_root[k]] == k && rects@[k] == entry_rect(
                    table@[rect_root[k]]->0,
                ) && rect_in_image(image, rects@[k]),
        decreases next_label - r,
    {
        match table[r] {
            Some(e) => {
                let (a, b, c, d) = e;
                proof {
                    let rr = r as int;
                    assert(entry_ok(image, labels@, *uf, table@, wit, rr, 0, image.height as int));
                    assert(a <= b && c <= d);
                    assert(b < image.width && d < image.height);
                }
                let rect = Rect::new(a as i64, c as i64, (b - a + 1) as i64, (d - c + 1) as i64);
                rects.push(rect);
                proof {
                    idx_map = idx_map.push(rects@.len() - 1);
                    rect_root = rect_root.push(r as int);
                }
            },
            None => {
                proof {
                    idx_map = idx_map.push(-1);
                }
            },
        }
        r = r + 1;
    }
    let ghost cls = Seq::new(
        height as nat,
        |yy: int|
            Seq::new(
                width as nat,
                |xx: int|
                    if lab(labels@, w, xx, yy) > 0 {
                        idx_map[class_at(*uf, labels@, w, xx, yy) as int]
                    } else {
                        -1
                    },
            ),
    );
    proof {
        lemma_conn_same_reps(image, labels@, uf_start, *uf, 0, height as int);
        lemma_components_witness(image, labels@, next_label, *uf, table@, wit, rects@, idx_map,
            rect_root, cls);
    }
    rects
}

/// The class map built from the final labels is a component labelling.
proof fn lemma_components_witness(
    img: &Bitmap,
    labels: Seq<usize>,
    next_label: usize,
    uf: UnionFind,
    table: Seq<BoxEntry>,
    wit: EdgeWitnesses,
    rects: Seq<Rect>,
    idx_map: Seq<int>,
    rect_root: Seq<int>,
    cls: Seq<Seq<int>>,
)
    requires
        img.wf(),
        box_pass_inv(img, labels, next_label, uf, table, wit, 0, img.height as int),
        idx_map.len() == next_label,
        rect_root.len() == rects.len(),
        forall|q: int|
            0 <= q < next_label ==> (table[q] is None ==> #[trigger] idx_map[q] == -1) && (table[q] is Some
                ==> 0 <= idx_map[q] < rects.len() && rect_root[idx_map[q]] == q),
        forall|k: int|
            0 <= k < rects.len() ==> 0 <= #[trigger] rect_root[k] < next_label && table[rect_root[k]] is Some
                && idx_map[rect_root[k]] == k && rects[k] == entry_rect(table[rect_root[k]]->0),
        forall|x2: int, y2: int| img.in_bounds(x2, y2) ==> #[trigger] before(x2, y2, 0, img.height as int),
        conn_inv(img, labels, uf, 0, img.height as int),
        cls == Seq::new(
            img.height as nat,
            |yy: int|
                Seq::new(
                    img.width as nat,
                    |xx: int|
                        if lab(labels, img.width as int, xx, yy) > 0 {
                            idx_map[class_at(uf, labels, img.width as int, xx, yy) as int]
                        } else {
                            -1
                        },
                ),
        ),
    ensures
        is_component_labeling(img, rects, cls),
{
    let w = img.width as int;
    let h = img.height as int;
    // class of an ink pixel
    assert forall|x: int, y: int|
        img.in_bounds(x, y) implies (is_fg(img, x, y) <==> 0 <= #[trigger] cls[y][x] < rects.len()) by {
        assert(before(x, y, 0, h));
        if lab(labels, w, x, y) > 0 {
            let q = class_at(uf, labels, w, x, y) as int;
            assert(1 <= uf.rep(lab(labels, w, x, y)) < next_label);
            assert(scanned_member(img, labels, uf, q, x, y, 0, h));
            assert(entry_ok(img, labels, uf, table, wit, q, 0, h));
        }
    }
    assert forall|x1: int, y1: int, x2: int, y2: int|
        img.in_bounds(x1, y1) && img.in_bounds(x2, y2) && is_fg(img, x1, y1) && is_fg(img, x2, y2)
            && adjacent8(x1, y1, x2, y2) implies #[trigger] cls[y1][x1] == #[trigger] cls[y2][x2] by {
        assert(before(x1, y1, 0, h));
        assert(before(x2, y2, 0, h));
        assert(uf.rep(lab(labels, w, x1, y1)) == uf.rep(lab(labels, w, x2, y2)));
    }
    assert forall|k: int| 0 <= k < rects.len() implies is_class_bbox(img, cls, k, #[trigger] rects[k]) by {
        let q = rect_root[k];
        assert(entry_ok(img, labels, uf, table, wit, q, 0, h));
        let e = table[q]->0;
        assert forall|x: int, y: int|
            img.in_bounds(x, y) && #[trigger] cls[y][x] == k implies rects[k].x <= x < rects[k].right()
            && rects[k].y <= y < rects[k].bottom() by {
            assert(before(x, y, 0, h));
            assert(lab(labels, w, x, y) > 0);
            let c = class_at(uf, labels, w, x, y) as int;
            assert(1 <= uf.rep(lab(labels, w, x, y)) < next_label);
            assert(table[c] is Some);
            assert(rect_root[idx_map[c]] == c);
            assert(c == q);
            assert(scanned_member(img, labels, uf, q, x, y, 0, h));
        }
        let (ax, ay) = wit.min_x[q];
        assert(cls[ay][ax] == k);
        let (bx, by) = wit.max_x[q];
        assert(cls[by][bx] == k);
        let (cx, cy) = wit.min_y[q];
        assert(cls[cy][cx] == k);
        let (dx, dy) = wit.max_y[q];
        assert(cls[dy][dx] == k);
    }
    // pixels of one class are joined by a chain of touching ink pixels of that class
    assert forall|x1: int, y1: int, x2: int, y2: int|
        img.in_bounds(x1, y1) && img.in_bounds(x2, y2) && 0 <= #[trigger] cls[y1][x1] && cls[y1][x1]
            == #[trigger] cls[y2][x2] implies class_connected(img, cls, cls[y1][x1], x1, y1, x2, y2) by {
        assert(before(x1, y1, 0, h));
        assert(before(x2, y2, 0, h));
        assert(lab(labels, w, x1, y1) > 0);
        assert(lab(labels, w, x2, y2) > 0);
        let c1 = class_at(uf, labels, w, x1, y1) as int;
        let c2 = class_at(uf, labels, w, x2, y2) as int;
        assert(1 <= uf.rep(lab(labels, w, x1, y1)) < next_label);
        assert(1 <= uf.rep(lab(labels, w, x2, y2)) < next_label);
        assert(scanned_member(img, labels, uf, c1, x1, y1, 0, h));
        assert(scanned_member(img, labels, uf, c2, x2, y2, 0, h));
        assert(entry_ok(img, labels, uf, table, wit, c1, 0, h));
        assert(entry_ok(img, labels, uf, table, wit, c2, 0, h));
        assert(table[c1] is Some);
        assert(table[c2] is Some);
        assert(rect_root[idx_map[c1]] == c1);
        assert(rect_root[idx_map[c2]] == c2);
        assert(c1 == c2);
        assert(ink_connected(img, x1, y1, x2, y2));
        let path = choose|path: Seq<(int, int)>|
            #[trigger] is_ink_path(img, path) && path[0] == (x1, y1) && path.last() == (x2, y2);
        lemma_path_in_class(img, cls, path, cls[y1][x1]);
    }
}

/// Bounding boxes of the 8-connected groups of ink pixels.
pub fn find_connected_components(image: &Bitmap) -> (rects: Vec<Rect>)
    requires
        image.wf(),
    ensures
        exists|cls: Seq<Seq<int>>| is_component_labeling(image, rects@, cls),
        forall|k: int| 0 <= k < rects@.len() ==> rect_in_image(image, #[trigger] rects@[k]),
{
    let (labels, next_label, mut uf) = label_pass(image);
    collect_boxes(image, &labels, next_label, &mut uf)
}

} // verus!
