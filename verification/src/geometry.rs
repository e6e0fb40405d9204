//! Geometry on the integer pixel grid: points, sizes and axis-aligned rectangles.
//!
//! Coordinates are whole pixels.  Quantities that the geometry produces as
//! fractions (ratios such as the intersection-over-union) are returned as
//! fixed-point integers in millionths, see [`PPM`].
use vstd::prelude::*;

verus! {

/// Largest absolute coordinate that the geometry accepts.
///
/// Every rectangle that the library manipulates lies in the square
/// `[-COORD_LIMIT, COORD_LIMIT]²`, which keeps every area and sum of areas
/// inside `i64`.
pub const COORD_LIMIT: i64 = 1073741824;

/// One in the fixed-point unit used for ratios and confidences (millionths).
pub const PPM: i64 = 1000000;

/// A point on the pixel grid.
#[derive(Debug, Clone, Copy, PartialEq, Eq)]
pub struct Point {
    pub x: i64,
    pub y: i64,
}

/// A size in pixels.
#[derive(Debug, Clone, Copy, PartialEq, Eq)]
pub struct Size {
    pub width: i64,
    pub height: i64,
}

/// An axis-aligned rectangle: top-left corner `(x, y)`, extent `width` × `height`.
#[derive(Debug, Clone, Copy, PartialEq, Eq)]
pub struct Rect {
    pub x: i64,
    pub y: i64,
    pub width: i64,
    pub height: i64,
}

/// A coordinate inside the accepted square.
pub open spec fn coord_ok(v: int) -> bool {
    -COORD_LIMIT <= v <= COORD_LIMIT
}

pub open spec fn min_int(a: int, b: int) -> int {
    if a <= b { a } else { b }
}

pub open spec fn max_int(a: int, b: int) -> int {
    if a >= b { a } else { b }
}

pub open spec fn abs_int(a: int) -> int {
    if a >= 0 { a } else { -a }
}

/// `r` is the integer square root of `n`, rounded down.
pub open spec fn is_floor_sqrt(n: int, r: int) -> bool {
    0 <= r && r * r <= n && n < (r + 1) * (r + 1)
}

/// Integer square root rounded down.
pub fn floor_sqrt(n: u64) -> (r: u64)
    ensures
        is_floor_sqrt(n as int, r as int),
        r < 4294967296,
{
    // invariant: lo * lo <= n < hi * hi
    let mut lo: u64 = 0;
    let mut hi: u64 = 4294967296;
    assert(n < 4294967296 * 4294967296) by (nonlinear_arith)
        requires n <= u64::MAX;
    while hi - lo > 1
        invariant
            lo < hi <= 4294967296,
            lo * lo <= n,
            n < hi * hi,
        decreases hi - lo,
    {
        let mid: u64 = lo + (hi - lo) / 2;
        assert(lo < mid < hi);
        assert(mid * mid <= 4294967296 * 4294967296) by (nonlinear_arith)
            requires mid < 4294967296;
        let sq: u128 = (mid as u128) * (mid as u128);
        if sq <= n as u128 {
            lo = mid;
        } else {
            hi = mid;
        }
    }
    assert(hi == lo + 1);
    lo
}

impl Point {
    /// Both coordinates lie in the accepted square.
    pub open spec fn wf(&self) -> bool {
        coord_ok(self.x as int) && coord_ok(self.y as int)
    }

    pub fn new(x: i64, y: i64) -> (p: Point)
        ensures
            p.x == x,
            p.y == y,
    {
        Point { x, y }
    }

    /// Squared Euclidean distance to `other`.
    pub open spec fn dist2(&self, other: &Point) -> int {
        (self.x - other.x) * (self.x - other.x) + (self.y - other.y) * (self.y - other.y)
    }

    /// Euclidean distance to `other`, rounded down to whole pixels.
    pub fn distance_to(&self, other: &Point) -> (d: i64)
        requires
            self.wf(),
            other.wf(),
        ensures
            is_floor_sqrt(self.dist2(other), d as int),
    {
        let dx: i64 = self.x - other.x;
        let dy: i64 = self.y - other.y;
        let sq = square_sum(dx, dy);
        floor_sqrt(sq) as i64
    }
}

/// `dx² + dy²` for offsets that come from two points of the accepted square.
fn square_sum(dx: i64, dy: i64) -> (s: u64)
    requires
        -2 * COORD_LIMIT <= dx <= 2 * COORD_LIMIT,
        -2 * COORD_LIMIT <= dy <= 2 * COORD_LIMIT,
    ensures
        s == dx * dx + dy * dy,
        s <= 8 * COORD_LIMIT * COORD_LIMIT,
{
    assert(dx * dx <= 4 * COORD_LIMIT * COORD_LIMIT) by (nonlinear_arith)
        requires -2 * COORD_LIMIT <= dx <= 2 * COORD_LIMIT;
    assert(dy * dy <= 4 * COORD_LIMIT * COORD_LIMIT) by (nonlinear_arith)
        requires -2 * COORD_LIMIT <= dy <= 2 * COORD_LIMIT;
    assert(0 <= dx * dx) by (nonlinear_arith);
    assert(0 <= dy * dy) by (nonlinear_arith);
    let a: i64 = dx * dx;
    let b: i64 = dy * dy;
    (a as u64) + (b as u64)
}

impl Size {
    pub fn new(width: i64, height: i64) -> (s: Size)
        ensures
            s.width == width,
            s.height == height,
    {
        Size { width, height }
    }

    pub fn area(&self) -> (a: i64)
        requires
            0 <= self.width <= 2 * COORD_LIMIT,
            0 <= self.height <= 2 * COORD_LIMIT,
        ensures
            a == self.width * self.height,
            0 <= a <= 4 * COORD_LIMIT * COORD_LIMIT,
    {
        assert(self.width * self.height <= 4 * COORD_LIMIT * COORD_LIMIT) by (nonlinear_arith)
            requires
                0 <= self.width <= 2 * COORD_LIMIT,
                0 <= self.height <= 2 * COORD_LIMIT,
        ;
        assert(0 <= self.width * self.height) by (nonlinear_arith)
            requires 0 <= self.width, 0 <= self.height;
        self.width * self.height
    }
}

impl Rect {
    /// Right edge (exclusive extent end) `x + width`.
    pub open spec fn right(&self) -> int {
        self.x + self.width
    }

    /// Bottom edge `y + height`.
    pub open spec fn bottom(&self) -> int {
        self.y + self.height
    }

    /// The rectangle has a non-negative extent and lies in the accepted square.
    pub open spec fn wf(&self) -> bool {
        &&& 0 <= self.width
        &&& 0 <= self.height
        &&& -COORD_LIMIT <= self.x
        &&& self.right() <= COORD_LIMIT
        &&& -COORD_LIMIT <= self.y
        &&& self.bottom() <= COORD_LIMIT
    }

    pub open spec fn spec_area(&self) -> int {
        self.width * self.height
    }

    /// The two rectangles touch or overlap (closed intervals on both axes).
    pub open spec fn spec_intersects(&self, other: &Rect) -> bool {
        !(self.right() < other.x || other.right() < self.x || self.bottom() < other.y
            || other.bottom() < self.y)
    }

    /// The smallest rectangle that holds both.
    pub open spec fn spec_union(&self, other: &Rect) -> Rect {
        let x = min_int(self.x as int, other.x as int);
        let y = min_int(self.y as int, other.y as int);
        let x2 = max_int(self.right(), other.right());
        let y2 = max_int(self.bottom(), other.bottom());
        Rect { x: x as i64, y: y as i64, width: (x2 - x) as i64, height: (y2 - y) as i64 }
    }

    /// The common part of two intersecting rectangles.
    pub open spec fn spec_intersection(&self, other: &Rect) -> Rect {
        let x = max_int(self.x as int, other.x as int);
        let y = max_int(self.y as int, other.y as int);
        let x2 = min_int(self.right(), other.right());
        let y2 = min_int(self.bottom(), other.bottom());
        Rect { x: x as i64, y: y as i64, width: (x2 - x) as i64, height: (y2 - y) as i64 }
    }

    pub fn new(x: i64, y: i64, width: i64, height: i64) -> (r: Rect)
        ensures
            r.x == x,
            r.y == y,
            r.width == width,
            r.height == height,
    {
        Rect { x, y, width, height }
    }

    /// The rectangle spanned by two corner points.
    pub fn from_points(p1: Point, p2: Point) -> (r: Rect)
        requires
            p1.wf(),
            p2.wf(),
        ensures
            r.x == min_int(p1.x as int, p2.x as int),
            r.y == min_int(p1.y as int, p2.y as int),
            r.width == abs_int(p1.x - p2.x),
            r.height == abs_int(p1.y - p2.y),
            r.wf(),
    {
        let x = if p1.x <= p2.x { p1.x } else { p2.x };
        let y = if p1.y <= p2.y { p1.y } else { p2.y };
        let width = if p1.x >= p2.x { p1.x - p2.x } else { p2.x - p1.x };
        let height = if p1.y >= p2.y { p1.y - p2.y } else { p2.y - p1.y };
        Rect::new(x, y, width, height)
    }

    /// Centre point, each coordinate rounded down to the pixel grid.
    pub fn center(&self) -> (p: Point)
        requires
            self.wf(),
        ensures
            p.x == self.x + self.width / 2,
            p.y == self.y + self.height / 2,
    {
        Point::new(self.x + self.width / 2, self.y + self.height / 2)
    }

    pub fn area(&self) -> (a: i64)
        requires
            self.wf(),
        ensures
            a == self.spec_area(),
            0 <= a <= 4 * COORD_LIMIT * COORD_LIMIT,
    {
        Size::new(self.width, self.height).area()
    }

    pub fn top_left(&self) -> (p: Point)
        ensures
            p.x == self.x,
            p.y == self.y,
    {
        Point::new(self.x, self.y)
    }

    pub fn bottom_right(&self) -> (p: Point)
        requires
            self.wf(),
        ensures
            p.x == self.right(),
            p.y == self.bottom(),
    {
        Point::new(self.x + self.width, self.y + self.height)
    }

    /// The point lies in the closed rectangle.
    pub fn contains_point(&self, point: &Point) -> (b: bool)
        requires
            self.wf(),
        ensures
            b == (point.x >= self.x && point.x <= self.right() && point.y >= self.y && point.y
                <= self.bottom()),
    {
        point.x >= self.x && point.x <= self.x + self.width && point.y >= self.y && point.y
            <= self.y + self.height
    }

    pub fn intersects(&self, other: &Rect) -> (b: bool)
        requires
            self.wf(),
            other.wf(),
        ensures
            b == self.spec_intersects(other),
    {
        !(self.x + self.width < other.x || other.x + other.width < self.x || self.y
            + self.height < other.y || other.y + other.height < self.y)
    }

    /// The common part of the two rectangles, or `None` when they do not touch.
    pub fn intersection(&self, other: &Rect) -> (r: Option<Rect>)
        requires
            self.wf(),
            other.wf(),
        ensures
            r.is_some() == self.spec_intersects(other),
            r matches Some(i) ==> i == self.spec_intersection(other) && i.wf(),
    {
        if !self.intersects(other) {
            return None;
        }
        let x = if self.x >= other.x { self.x } else { other.x };
        let y = if self.y >= other.y { self.y } else { other.y };
        let sr = self.x + self.width;
        let orr = other.x + other.width;
        let sb = self.y + self.height;
        let ob = other.y + other.height;
        let x2 = if sr <= orr { sr } else { orr };
        let y2 = if sb <= ob { sb } else { ob };
        Some(Rect::new(x, y, x2 - x, y2 - y))
    }

    /// The smallest rectangle holding both.
    pub fn union(&self, other: &Rect) -> (r: Rect)
        requires
            self.wf(),
            other.wf(),
        ensures
            r == self.spec_union(other),
            r.wf(),
    {
        let x = if self.x <= other.x { self.x } else { other.x };
        let y = if self.y <= other.y { self.y } else { other.y };
        let sr = self.x + self.width;
        let orr = other.x + other.width;
        let sb = self.y + self.height;
        let ob = other.y + other.height;
        let x2 = if sr >= orr { sr } else { orr };
        let y2 = if sb >= ob { sb } else { ob };
        Rect::new(x, y, x2 - x, y2 - y)
    }

    /// Intersection over union, in millionths, rounded down; zero when the
    /// rectangles do not touch or the union has no area.
    pub fn iou(&self, other: &Rect) -> (v: i64)
        requires
            self.wf(),
            other.wf(),
        ensures
            v == spec_iou(*self, *other),
            0 <= v <= PPM,
    {
        match self.intersection(other) {
            Some(inter) => {
                let inter_area = inter.area();
                let a = self.area() as i128;
                let b = other.area() as i128;
                let union_area: i128 = a + b - inter_area as i128;
                proof {
                    lemma_intersection_area_bounds(*self, *other);
                }
                if union_area > 0 {
                    assert((inter_area as i128) * (PPM as i128) <= 4 * COORD_LIMIT * COORD_LIMIT * PPM) by (nonlinear_arith)
                        requires 0 <= inter_area <= 4 * COORD_LIMIT * COORD_LIMIT;
                    assert(0 <= (inter_area as i128) * (PPM as i128)) by (nonlinear_arith)
                        requires 0 <= inter_area;
                    let q: i128 = (inter_area as i128) * (PPM as i128) / union_area;
                    proof {
                        lemma_ratio_ppm(inter_area as int, union_area as int);
                    }
                    q as i64
                } else {
                    0
                }
            },
            None => 0,
        }
    }

    /// The rectangle grown by `pixels` on every side.
    pub fn expand(&self, pixels: i64) -> (r: Rect)
        requires
            self.wf(),
            -COORD_LIMIT <= pixels <= COORD_LIMIT,
        ensures
            r.x == self.x - pixels,
            r.y == self.y - pixels,
            r.width == self.width + 2 * pixels,
            r.height == self.height + 2 * pixels,
    {
        Rect::new(self.x - pixels, self.y - pixels, self.width + 2 * pixels, self.height + 2 * pixels)
    }

    /// Shortest Euclidean distance between the two rectangles, rounded down;
    /// zero when they touch.
    pub fn distance_to(&self, other: &Rect) -> (d: i64)
        requires
            self.wf(),
            other.wf(),
        ensures
            is_floor_sqrt(
                rect_gap_x(*self, *other) * rect_gap_x(*self, *other) + rect_gap_y(*self, *other)
                    * rect_gap_y(*self, *other),
                d as int,
            ),
            self.spec_intersects(other) ==> d == 0,
    {
        if self.intersects(other) {
            assert(rect_gap_x(*self, *other) == 0 && rect_gap_y(*self, *other) == 0);
            assert(is_floor_sqrt(0, 0));
            return 0;
        }
        let dx: i64 = if self.x + self.width < other.x {
            other.x - (self.x + self.width)
        } else if other.x + other.width < self.x {
            self.x - (other.x + other.width)
        } else {
            0
        };
        let dy: i64 = if self.y + self.height < other.y {
            other.y - (self.y + self.height)
        } else if other.y + other.height < self.y {
            self.y - (other.y + other.height)
        } else {
            0
        };
        let sq = square_sum(dx, dy);
        floor_sqrt(sq) as i64
    }

    /// The x-ranges of the two rectangles overlap (open intervals).
    pub fn is_vertically_aligned(&self, other: &Rect) -> (b: bool)
        requires
            self.wf(),
            other.wf(),
        ensures
            b == (self.x < other.right() && other.x < self.right()),
    {
        let x1_min = self.x;
        let x1_max = self.x + self.width;
        let x2_min = other.x;
        let x2_max = other.x + other.width;
        x1_min < x2_max && x2_min < x1_max
    }

    /// The y-ranges of the two rectangles overlap (open intervals).
    pub fn is_horizontally_aligned(&self, other: &Rect) -> (b: bool)
        requires
            self.wf(),
            other.wf(),
        ensures
            b == (self.y < other.bottom() && other.y < self.bottom()),
    {
        let y1_min = self.y;
        let y1_max = self.y + self.height;
        let y2_min = other.y;
        let y2_max = other.y + other.height;
        y1_min < y2_max && y2_min < y1_max
    }
}

/// Horizontal gap between two rectangles that do not touch (zero when the
/// x-ranges meet).
pub open spec fn rect_gap_x(a: Rect, b: Rect) -> int {
    if a.spec_intersects(&b) {
        0
    } else if a.right() < b.x {
        b.x - a.right()
    } else if b.right() < a.x {
        a.x - b.right()
    } else {
        0
    }
}

/// Vertical gap between two rectangles that do not touch.
pub open spec fn rect_gap_y(a: Rect, b: Rect) -> int {
    if a.spec_intersects(&b) {
        0
    } else if a.bottom() < b.y {
        b.y - a.bottom()
    } else if b.bottom() < a.y {
        a.y - b.bottom()
    } else {
        0
    }
}

/// Intersection over union in millionths, rounded down.
pub open spec fn spec_iou(a: Rect, b: Rect) -> int {
    if a.spec_intersects(&b) {
        let inter = a.spec_intersection(&b).spec_area();
        let uni = a.spec_area() + b.spec_area() - inter;
        if uni > 0 {
            inter * PPM / uni
        } else {
            0
        }
    } else {
        0
    }
}

proof fn lemma_intersection_area_bounds(a: Rect, b: Rect)
    requires
        a.wf(),
        b.wf(),
        a.spec_intersects(&b),
    ensures
        0 <= a.spec_intersection(&b).spec_area() <= a.spec_area(),
        a.spec_intersection(&b).spec_area() <= b.spec_area(),
{
    let i = a.spec_intersection(&b);
    assert(0 <= i.width <= a.width && i.width <= b.width);
    assert(0 <= i.height <= a.height && i.height <= b.height);
    assert(0 <= i.width * i.height <= a.width * a.height) by (nonlinear_arith)
        requires 0 <= i.width <= a.width, 0 <= i.height <= a.height;
    assert(i.width * i.height <= b.width * b.height) by (nonlinear_arith)
        requires 0 <= i.width <= b.width, 0 <= i.height <= b.height;
}

proof fn lemma_ratio_ppm(inter: int, uni: int)
    requires
        0 <= inter <= uni,
        uni > 0,
    ensures
        0 <= inter * PPM / uni <= PPM,
{
    assert(0 <= inter * PPM / uni <= PPM) by (nonlinear_arith)
        requires 0 <= inter <= uni, uni > 0;
}

} // verus!
