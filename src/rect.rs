use vstd::prelude::*;

verus! {

/// Whether an integer can be stored as an `i32` coordinate.
pub open spec fn fits_i32(v: int) -> bool {
    i32::MIN <= v <= i32::MAX
}

/// Halving toward zero, as integer division does.
pub open spec fn half(v: int) -> int {
    if v >= 0 {
        v / 2
    } else {
        -((-v) / 2)
    }
}

/// The smaller of two integers.
pub open spec fn min_int(a: int, b: int) -> int {
    if a <= b {
        a
    } else {
        b
    }
}

/// The larger of two integers.
pub open spec fn max_int(a: int, b: int) -> int {
    if a >= b {
        a
    } else {
        b
    }
}

/// A point or a size: a pair of integer coordinates.
#[derive(Clone, Copy, Debug, PartialEq, Eq, Structural)]
pub struct Vec2 {
    /// Horizontal coordinate (a width, for a size).
    pub x: i32,
    /// Vertical coordinate (a height, for a size).
    pub y: i32,
}

impl Vec2 {
    pub fn new(x: i32, y: i32) -> (r: Self)
        ensures
            r.x == x,
            r.y == y,
    {
        Vec2 { x, y }
    }
}

pub(crate) fn half_i32(v: i32) -> (r: i32)
    ensures
        r == half(v as int),
{
    if v >= 0 {
        v / 2
    } else {
        let m: i64 = -(v as i64);
        -((m / 2) as i32)
    }
}

fn min_i64(a: i64, b: i64) -> (r: i64)
    ensures
        r == min_int(a as int, b as int),
{
    if a <= b {
        a
    } else {
        b
    }
}

fn max_i64(a: i64, b: i64) -> (r: i64)
    ensures
        r == max_int(a as int, b as int),
{
    if a >= b {
        a
    } else {
        b
    }
}


/// An axis-aligned rectangle: a position and a size (width, height).
///
/// A negative size is allowed; it makes containment and intersection tests fail.
#[derive(Clone, Copy, Debug, PartialEq, Eq, Structural)]
pub struct Rect {
    /// Position of the top left corner.
    pub position: Vec2,
    /// Size of the rectangle: x is the width, y the height.
    pub size: Vec2,
}

impl Rect {
    /// The x coordinate of the right edge.
    pub open spec fn right(self) -> int {
        self.position.x + self.size.x
    }

    /// The y coordinate of the bottom edge.
    pub open spec fn bottom(self) -> int {
        self.position.y + self.size.y
    }

    /// Both far edges can be stored as coordinates.
    pub open spec fn edges_fit(self) -> bool {
        fits_i32(self.right()) && fits_i32(self.bottom())
    }

    /// Inclusive containment: a point on an edge is inside.
    pub open spec fn has_point(self, p: Vec2) -> bool {
        &&& self.position.x <= p.x <= self.right()
        &&& self.position.y <= p.y <= self.bottom()
    }

    /// The point lies inside and on no edge.
    pub open spec fn has_point_strictly(self, p: Vec2) -> bool {
        &&& self.position.x < p.x < self.right()
        &&& self.position.y < p.y < self.bottom()
    }

    /// Open intersection: rectangles that only touch along an edge do not overlap.
    pub open spec fn overlaps(self, other: Rect) -> bool {
        &&& other.position.x < self.right()
        &&& self.position.x < other.right()
        &&& other.position.y < self.bottom()
        &&& self.position.y < other.bottom()
    }

    /// The rectangle is the smallest one whose corners include `(ax, ay)` and `(bx, by)`.
    pub open spec fn spans(self, ax: int, ay: int, bx: int, by: int) -> bool {
        &&& self.position.x == min_int(ax, bx)
        &&& self.position.y == min_int(ay, by)
        &&& self.size.x == max_int(ax, bx) - min_int(ax, bx)
        &&& self.size.y == max_int(ay, by) - min_int(ay, by)
    }

    /// The rectangle spanning two corners can be stored.
    pub open spec fn span_fits(ax: int, ay: int, bx: int, by: int) -> bool {
        &&& fits_i32(min_int(ax, bx))
        &&& fits_i32(min_int(ay, by))
        &&& fits_i32(max_int(ax, bx) - min_int(ax, bx))
        &&& fits_i32(max_int(ay, by) - min_int(ay, by))
    }

    /// Creates a rectangle from its position `(x, y)` and size `(w, h)`.
    pub fn new(x: i32, y: i32, w: i32, h: i32) -> (r: Self)
        ensures
            r.position == (Vec2 { x, y }),
            r.size == (Vec2 { x: w, y: h }),
    {
        Rect { position: Vec2::new(x, y), size: Vec2::new(w, h) }
    }

    fn spanning(ax: i64, ay: i64, bx: i64, by: i64) -> (r: Self)
        requires
            Self::span_fits(ax as int, ay as int, bx as int, by as int),
        ensures
            r.spans(ax as int, ay as int, bx as int, by as int),
    {
        let x0 = min_i64(ax, bx);
        let y0 = min_i64(ay, by);
        let x1 = max_i64(ax, bx);
        let y1 = max_i64(ay, by);
        Rect::new(x0 as i32, y0 as i32, (x1 - x0) as i32, (y1 - y0) as i32)
    }

    /// The smallest rectangle that has both points as corners.
    pub fn from_points(p0: Vec2, p1: Vec2) -> (r: Self)
        requires
            Self::span_fits(p0.x as int, p0.y as int, p1.x as int, p1.y as int),
        ensures
            r.spans(p0.x as int, p0.y as int, p1.x as int, p1.y as int),
    {
        Self::spanning(p0.x as i64, p0.y as i64, p1.x as i64, p1.y as i64)
    }

    /// The same rectangle moved to `position`.
    pub fn with_position(self, position: Vec2) -> (r: Self)
        ensures
            r.position == position,
            r.size == self.size,
    {
        Rect { position, size: self.size }
    }

    /// The same rectangle resized to `size`.
    pub fn with_size(self, size: Vec2) -> (r: Self)
        ensures
            r.position == self.position,
            r.size == size,
    {
        Rect { position: self.position, size }
    }

    /// Moves the rectangle by `(-dw, -dh)` and grows its size by `(2 * dw, 2 * dh)`.
    pub fn inflate(&self, dw: i32, dh: i32) -> (r: Self)
        requires
            fits_i32(self.position.x - dw),
            fits_i32(self.position.y - dh),
            fits_i32(self.size.x + 2 * dw),
            fits_i32(self.size.y + 2 * dh),
        ensures
            r.position.x == self.position.x - dw,
            r.position.y == self.position.y - dh,
            r.size.x == self.size.x + 2 * dw,
            r.size.y == self.size.y + 2 * dh,
    {
        let w = self.size.x as i64 + 2 * (dw as i64);
        let h = self.size.y as i64 + 2 * (dh as i64);
        Rect::new(self.position.x - dw, self.position.y - dh, w as i32, h as i32)
    }

    /// Moves the rectangle by `(dw, dh)` and shrinks its size by `(2 * dw, 2 * dh)`.
    pub fn deflate(&self, dw: i32, dh: i32) -> (r: Self)
        requires
            fits_i32(self.position.x + dw),
            fits_i32(self.position.y + dh),
            fits_i32(self.size.x - 2 * dw),
            fits_i32(self.size.y - 2 * dh),
        ensures
            r.position.x == self.position.x + dw,
            r.position.y == self.position.y + dh,
            r.size.x == self.size.x - 2 * dw,
            r.size.y == self.size.y - 2 * dh,
    {
        let w = self.size.x as i64 - 2 * (dw as i64);
        let h = self.size.y as i64 - 2 * (dh as i64);
        Rect::new(self.position.x + dw, self.position.y + dh, w as i32, h as i32)
    }

    /// Whether `pt` lies in the rectangle, edges included.
    pub fn contains(&self, pt: Vec2) -> (r: bool)
        ensures
            r == self.has_point(pt),
    {
        let px = pt.x as i64;
        let py = pt.y as i64;
        let x = self.position.x as i64;
        let y = self.position.y as i64;
        px >= x && px <= x + self.size.x as i64 && py >= y && py <= y + self.size.y as i64
    }

    /// The center: the position plus half the size, each half rounded toward zero.
    pub fn center(&self) -> (r: Vec2)
        requires
            fits_i32(self.position.x + half(self.size.x as int)),
            fits_i32(self.position.y + half(self.size.y as int)),
        ensures
            r.x == self.position.x + half(self.size.x as int),
            r.y == self.position.y + half(self.size.y as int),
    {
        Vec2::new(self.position.x + half_i32(self.size.x), self.position.y + half_i32(self.size.y))
    }

    /// Grows the rectangle so that it contains `p`.
    pub fn push(&mut self, p: Vec2)
        requires
            Self::span_fits(
                min_int(p.x as int, old(self).position.x as int),
                min_int(p.y as int, old(self).position.y as int),
                max_int(p.x as int, old(self).right()),
                max_int(p.y as int, old(self).bottom()),
            ),
        ensures
            final(self).spans(
                min_int(p.x as int, old(self).position.x as int),
                min_int(p.y as int, old(self).position.y as int),
                max_int(p.x as int, old(self).right()),
                max_int(p.y as int, old(self).bottom()),
            ),
    {
        let x = self.position.x as i64;
        let y = self.position.y as i64;
        let r = x + self.size.x as i64;
        let b = y + self.size.y as i64;
        *self = Self::spanning(
            min_i64(p.x as i64, x),
            min_i64(p.y as i64, y),
            max_i64(p.x as i64, r),
            max_i64(p.y as i64, b),
        );
    }

    /// Grows the rectangle so that it contains `other`.
    pub fn extend_to_contain(&mut self, other: Rect)
        requires
            Self::span_fits(
                min_int(old(self).position.x as int, other.position.x as int),
                min_int(old(self).position.y as int, other.position.y as int),
                max_int(old(self).right(), other.right()),
                max_int(old(self).bottom(), other.bottom()),
            ),
        ensures
            final(self).spans(
                min_int(old(self).position.x as int, other.position.x as int),
                min_int(old(self).position.y as int, other.position.y as int),
                max_int(old(self).right(), other.right()),
                max_int(old(self).bottom(), other.bottom()),
            ),
    {
        let x = self.position.x as i64;
        let y = self.position.y as i64;
        let ox = other.position.x as i64;
        let oy = other.position.y as i64;
        *self = Self::spanning(
            min_i64(x, ox),
            min_i64(y, oy),
            max_i64(x + self.size.x as i64, ox + other.size.x as i64),
            max_i64(y + self.size.y as i64, oy + other.size.y as i64),
        );
    }

    /// Whether the two rectangles overlap; touching along an edge is no overlap.
    pub fn intersects(&self, other: Rect) -> (r: bool)
        ensures
            r == self.overlaps(other),
    {
        let x = self.position.x as i64;
        let y = self.position.y as i64;
        let ox = other.position.x as i64;
        let oy = other.position.y as i64;
        if ox < x + self.size.x as i64 && x < ox + other.size.x as i64 && oy < y
            + self.size.y as i64 {
            y < oy + other.size.y as i64
        } else {
            false
        }
    }

    /// The rectangle moved by `translation`.
    pub fn translate(&self, translation: Vec2) -> (r: Self)
        requires
            fits_i32(self.position.x + translation.x),
            fits_i32(self.position.y + translation.y),
        ensures
            r.position.x == self.position.x + translation.x,
            r.position.y == self.position.y + translation.y,
            r.size == self.size,
    {
        Rect {
            position: Vec2::new(
                self.position.x + translation.x,
                self.position.y + translation.y,
            ),
            size: self.size,
        }
    }

    /// The top left corner.
    pub fn left_top_corner(&self) -> (r: Vec2)
        ensures
            r == self.position,
    {
        self.position
    }

    /// The top right corner.
    pub fn right_top_corner(&self) -> (r: Vec2)
        requires
            fits_i32(self.right()),
        ensures
            r.x == self.right(),
            r.y == self.position.y,
    {
        Vec2::new(self.position.x + self.size.x, self.position.y)
    }

    /// The bottom right corner.
    pub fn right_bottom_corner(&self) -> (r: Vec2)
        requires
            self.edges_fit(),
        ensures
            r.x == self.right(),
            r.y == self.bottom(),
    {
        Vec2::new(self.position.x + self.size.x, self.position.y + self.size.y)
    }

    /// The bottom left corner.
    pub fn left_bottom_corner(&self) -> (r: Vec2)
        requires
            fits_i32(self.bottom()),
        ensures
            r.x == self.position.x,
            r.y == self.bottom(),
    {
        Vec2::new(self.position.x, self.position.y + self.size.y)
    }

    /// The width.
    pub fn w(&self) -> (r: i32)
        ensures
            r == self.size.x,
    {
        self.size.x
    }

    /// The height.
    pub fn h(&self) -> (r: i32)
        ensures
            r == self.size.y,
    {
        self.size.y
    }

    /// The horizontal position.
    pub fn x(&self) -> (r: i32)
        ensures
            r == self.position.x,
    {
        self.position.x
    }

    /// The vertical position.
    pub fn y(&self) -> (r: i32)
        ensures
            r == self.position.y,
    {
        self.position.y
    }
}


impl Rect {
    /// The two rectangles are apart: no clipped rectangle exists.
    pub open spec fn apart(self, other: Rect) -> bool {
        ||| other.right() < self.position.x
        ||| other.position.x > self.right()
        ||| other.bottom() < self.position.y
        ||| other.position.y > self.bottom()
    }

    /// The horizontal extent of the part of `self` that lies in `other`.
    pub open spec fn clipped_w(self, other: Rect) -> int {
        min_int(self.right(), other.right()) - max_int(
            self.position.x as int,
            other.position.x as int,
        )
    }

    /// The vertical extent of the part of `self` that lies in `other`.
    pub open spec fn clipped_h(self, other: Rect) -> int {
        min_int(self.bottom(), other.bottom()) - max_int(
            self.position.y as int,
            other.position.y as int,
        )
    }

    /// The part of `self` that lies in `other`, as far as it can be stored.
    pub open spec fn clip_fits(self, other: Rect) -> bool {
        !self.apart(other) ==> fits_i32(self.clipped_w(other)) && fits_i32(self.clipped_h(other))
    }

    /// The part of `self` that lies in `other`, or none when they are apart.
    pub open spec fn clipped(self, other: Rect) -> Option<Rect> {
        if self.apart(other) {
            None
        } else {
            Some(
                Rect {
                    position: Vec2 {
                        x: max_int(self.position.x as int, other.position.x as int) as i32,
                        y: max_int(self.position.y as int, other.position.y as int) as i32,
                    },
                    size: Vec2 {
                        x: self.clipped_w(other) as i32,
                        y: self.clipped_h(other) as i32,
                    },
                },
            )
        }
    }

    /// The squared distance from `c` to the nearest point of the rectangle is below
    /// `radius` squared.
    pub open spec fn meets_circle(self, c: Vec2, radius: int) -> bool {
        let dx = c.x - clamp_int(c.x as int, self.position.x as int, self.right());
        let dy = c.y - clamp_int(c.y as int, self.position.y as int, self.bottom());
        dx * dx + dy * dy < radius * radius
    }

    /// Left edge of the rectangle mapped through `m`.
    pub open spec fn mapped_left(self, m: Matrix3) -> int {
        m.m13 + min_int(m.m11 * self.position.x, m.m11 * self.right()) + min_int(
            m.m12 * self.position.y,
            m.m12 * self.bottom(),
        )
    }

    /// Right edge of the rectangle mapped through `m`.
    pub open spec fn mapped_right(self, m: Matrix3) -> int {
        m.m13 + max_int(m.m11 * self.position.x, m.m11 * self.right()) + max_int(
            m.m12 * self.position.y,
            m.m12 * self.bottom(),
        )
    }

    /// Top edge of the rectangle mapped through `m`.
    pub open spec fn mapped_top(self, m: Matrix3) -> int {
        m.m23 + min_int(m.m21 * self.position.x, m.m21 * self.right()) + min_int(
            m.m22 * self.position.y,
            m.m22 * self.bottom(),
        )
    }

    /// Bottom edge of the rectangle mapped through `m`.
    pub open spec fn mapped_bottom(self, m: Matrix3) -> int {
        m.m23 + max_int(m.m21 * self.position.x, m.m21 * self.right()) + max_int(
            m.m22 * self.position.y,
            m.m22 * self.bottom(),
        )
    }

    /// The part of the rectangle that lies in `other`, or none when they are apart
    /// (touching along an edge counts as meeting).
    pub fn clip_by(&self, other: Rect) -> (r: OptionRect)
        requires
            self.clip_fits(other),
        ensures
            r.0 == self.clipped(other),
    {
        let x = self.position.x as i64;
        let y = self.position.y as i64;
        let ox = other.position.x as i64;
        let oy = other.position.y as i64;
        let right = x + self.size.x as i64;
        let bottom = y + self.size.y as i64;
        let o_right = ox + other.size.x as i64;
        let o_bottom = oy + other.size.y as i64;
        if o_right < x || ox > right || o_bottom < y || oy > bottom {
            return OptionRect(None);
        }
        let cx = max_i64(x, ox);
        let cy = max_i64(y, oy);
        let cw = min_i64(right, o_right) - cx;
        let ch = min_i64(bottom, o_bottom) - cy;
        OptionRect(Some(Rect::new(cx as i32, cy as i32, cw as i32, ch as i32)))
    }

    /// Whether the rectangle meets the circle of the given center and radius.
    pub fn intersects_circle(&self, center: Vec2, radius: i32) -> (r: bool)
        ensures
            r == self.meets_circle(center, radius as int),
    {
        let x = self.position.x as i64;
        let y = self.position.y as i64;
        let right = x + self.size.x as i64;
        let bottom = y + self.size.y as i64;
        let cx = center.x as i64;
        let cy = center.y as i64;
        let closest_x = if cx < x {
            x
        } else if cx > right {
            right
        } else {
            cx
        };
        let closest_y = if cy < y {
            y
        } else if cy > bottom {
            bottom
        } else {
            cy
        };
        let dx = (cx - closest_x) as i128;
        let dy = (cy - closest_y) as i128;
        let rr = radius as i128;
        proof {
            let (a, b, c) = (dx as int, dy as int, rr as int);
            assert(0 <= a * a <= 0x4_0000_0000_0000_0000) by (nonlinear_arith)
                requires
                    -0x2_0000_0000 <= a <= 0x2_0000_0000,
            ;
            assert(0 <= b * b <= 0x4_0000_0000_0000_0000) by (nonlinear_arith)
                requires
                    -0x2_0000_0000 <= b <= 0x2_0000_0000,
            ;
            assert(0 <= c * c <= 0x4_0000_0000_0000_0000) by (nonlinear_arith)
                requires
                    -0x2_0000_0000 <= c <= 0x2_0000_0000,
            ;
        }
        dx * dx + dy * dy < rr * rr
    }

    /// The smallest rectangle that holds the image of this one under the affine map `m`.
    pub fn transform(&self, m: &Matrix3) -> (r: Self)
        requires
            fits_i32(self.mapped_left(*m)),
            fits_i32(self.mapped_top(*m)),
            fits_i32(self.mapped_right(*m) - self.mapped_left(*m)),
            fits_i32(self.mapped_bottom(*m) - self.mapped_top(*m)),
        ensures
            r.position.x == self.mapped_left(*m),
            r.position.y == self.mapped_top(*m),
            r.size.x == self.mapped_right(*m) - self.mapped_left(*m),
            r.size.y == self.mapped_bottom(*m) - self.mapped_top(*m),
    {
        let x0 = self.position.x as i64;
        let y0 = self.position.y as i64;
        let x1 = x0 + self.size.x as i64;
        let y1 = y0 + self.size.y as i64;
        let (lo_a, hi_a) = ordered(scaled(m.m11, x0), scaled(m.m11, x1));
        let (lo_b, hi_b) = ordered(scaled(m.m12, y0), scaled(m.m12, y1));
        let (lo_c, hi_c) = ordered(scaled(m.m21, x0), scaled(m.m21, x1));
        let (lo_d, hi_d) = ordered(scaled(m.m22, y0), scaled(m.m22, y1));
        let left = m.m13 as i128 + lo_a + lo_b;
        let right = m.m13 as i128 + hi_a + hi_b;
        let top = m.m23 as i128 + lo_c + lo_d;
        let bottom = m.m23 as i128 + hi_c + hi_d;
        Rect::new(left as i32, top as i32, (right - left) as i32, (bottom - top) as i32)
    }
}

/// A 3x3 matrix of an affine map of the plane, written by rows: `m13` and `m23`
/// are the translation.
#[derive(Clone, Copy, Debug, PartialEq, Eq, Structural)]
pub struct Matrix3 {
    pub m11: i32,
    pub m12: i32,
    pub m13: i32,
    pub m21: i32,
    pub m22: i32,
    pub m23: i32,
    pub m31: i32,
    pub m32: i32,
    pub m33: i32,
}

impl Matrix3 {
    /// Creates a matrix from its entries, row by row.
    pub fn new(
        m11: i32,
        m12: i32,
        m13: i32,
        m21: i32,
        m22: i32,
        m23: i32,
        m31: i32,
        m32: i32,
        m33: i32,
    ) -> (r: Self)
        ensures
            r == (Matrix3 { m11, m12, m13, m21, m22, m23, m31, m32, m33 }),
    {
        Matrix3 { m11, m12, m13, m21, m22, m23, m31, m32, m33 }
    }
}

/// `v` moved into `lo..=hi`, `lo` checked first.
pub open spec fn clamp_int(v: int, lo: int, hi: int) -> int {
    if v < lo {
        lo
    } else if v > hi {
        hi
    } else {
        v
    }
}

fn scaled(a: i32, b: i64) -> (r: i128)
    ensures
        r == a * b,
        -0x8000_0000_0000_0000_0000_0000 <= r <= 0x8000_0000_0000_0000_0000_0000,
{
    proof {
        let (p, q) = (a as int, b as int);
        assert(-0x8000_0000_0000_0000_0000_0000 <= p * q <= 0x8000_0000_0000_0000_0000_0000)
            by (nonlinear_arith)
            requires
                -0x8000_0000 <= p <= 0x8000_0000,
                -0x8000_0000_0000_0000 <= q <= 0x8000_0000_0000_0000,
        ;
    }
    (a as i128) * (b as i128)
}

fn ordered(a: i128, b: i128) -> (r: (i128, i128))
    ensures
        r.0 == min_int(a as int, b as int),
        r.1 == max_int(a as int, b as int),
{
    if a < b {
        (a, b)
    } else {
        (b, a)
    }
}

/// A rectangle that may be absent; a bounding rectangle starts empty and grows.
#[derive(Clone, Copy, Debug, PartialEq, Eq, Structural)]
pub struct OptionRect(pub Option<Rect>);

impl OptionRect {
    /// Clips the rectangle, if any, to `bounds`.
    pub fn clip(&mut self, bounds: Rect)
        requires
            old(self).0 matches Some(r) ==> r.clip_fits(bounds),
        ensures
            final(self).0 == (match old(self).0 {
                Some(r) => r.clipped(bounds),
                None => None,
            }),
    {
        if let Some(rect) = self.0 {
            *self = rect.clip_by(bounds);
        }
    }

    /// Grows the rectangle so that it contains `p`; an absent one becomes the point itself.
    pub fn push(&mut self, p: Vec2)
        requires
            old(self).0 matches Some(r) ==> Rect::span_fits(
                min_int(p.x as int, r.position.x as int),
                min_int(p.y as int, r.position.y as int),
                max_int(p.x as int, r.right()),
                max_int(p.y as int, r.bottom()),
            ),
        ensures
            final(self).0 matches Some(n) && match old(self).0 {
                Some(r) => n.spans(
                    min_int(p.x as int, r.position.x as int),
                    min_int(p.y as int, r.position.y as int),
                    max_int(p.x as int, r.right()),
                    max_int(p.y as int, r.bottom()),
                ),
                None => n.position == p && n.size == (Vec2 { x: 0, y: 0 }),
            },
    {
        match &mut self.0 {
            Some(rect) => rect.push(p),
            None => self.0 = Some(Rect::new(p.x, p.y, 0, 0)),
        }
    }

    /// Grows the rectangle so that it contains `other`; an absent one becomes `other`.
    pub fn extend_to_contain(&mut self, other: Rect)
        requires
            old(self).0 matches Some(r) ==> Rect::span_fits(
                min_int(r.position.x as int, other.position.x as int),
                min_int(r.position.y as int, other.position.y as int),
                max_int(r.right(), other.right()),
                max_int(r.bottom(), other.bottom()),
            ),
        ensures
            final(self).0 matches Some(n) && match old(self).0 {
                Some(r) => n.spans(
                    min_int(r.position.x as int, other.position.x as int),
                    min_int(r.position.y as int, other.position.y as int),
                    max_int(r.right(), other.right()),
                    max_int(r.bottom(), other.bottom()),
                ),
                None => n == other,
            },
    {
        match &mut self.0 {
            Some(rect) => rect.extend_to_contain(other),
            None => self.0 = Some(other),
        }
    }
}

impl std::ops::Deref for OptionRect {
    type Target = Option<Rect>;

    fn deref(&self) -> (r: &Option<Rect>)
        ensures
            *r == self.0,
    {
        &self.0
    }
}

impl std::ops::DerefMut for OptionRect {
    fn deref_mut(&mut self) -> (r: &mut Option<Rect>)
        ensures
            *r == old(self).0,
            final(self).0 == *final(r),
    {
        &mut self.0
    }
}

impl Default for OptionRect {
    fn default() -> (r: Self)
        ensures
            r.0.is_none(),
    {
        OptionRect(None)
    }
}

impl From<Rect> for OptionRect {
    fn from(source: Rect) -> (r: Self) {
        OptionRect(Some(source))
    }
}

impl vstd::std_specs::convert::FromSpecImpl<Rect> for OptionRect {
    open spec fn obeys_from_spec() -> bool {
        true
    }

    open spec fn from_spec(v: Rect) -> Self {
        OptionRect(Some(v))
    }
}

impl From<Option<Rect>> for OptionRect {
    fn from(source: Option<Rect>) -> (r: Self) {
        OptionRect(source)
    }
}

impl vstd::std_specs::convert::FromSpecImpl<Option<Rect>> for OptionRect {
    open spec fn obeys_from_spec() -> bool {
        true
    }

    open spec fn from_spec(v: Option<Rect>) -> Self {
        OptionRect(v)
    }
}

impl Default for Rect {
    fn default() -> (r: Self)
        ensures
            r.position == (Vec2 { x: 0, y: 0 }),
            r.size == (Vec2 { x: 0, y: 0 }),
    {
        Rect::new(0, 0, 0, 0)
    }
}

} // verus!
