//! Grid points, one-step displacements and line segments, with an exact test
//! for whether two segments touch.

use vstd::prelude::*;

verus! {

/// A grid coordinate.
pub type Coord = i16;

/// A cell of the grid.
#[derive(Clone, Copy, Debug, PartialEq, Eq, Structural)]
pub struct Point {
    pub x: Coord,
    pub y: Coord,
}

/// The displacement of one move.
#[derive(Clone, Copy, Debug, PartialEq, Eq, Structural)]
pub struct Vector2 {
    pub x: Coord,
    pub y: Coord,
}

/// A directed line segment. Two segments are equal when their endpoints are
/// equal in order; a segment and its reverse are different values.
#[derive(Clone, Copy, Debug, PartialEq, Eq, Structural)]
pub struct Segment {
    pub from: Point,
    pub to: Point,
}

/// The axis-aligned box around a segment.
#[derive(Clone, Copy, Debug, PartialEq, Eq, Structural)]
pub struct Bounds {
    pub left: Coord,
    pub right: Coord,
    pub top: Coord,
    pub bottom: Coord,
}

/// Whether `v` can be stored in a [`Coord`].
pub open spec fn is_coord(v: int) -> bool {
    Coord::MIN <= v <= Coord::MAX
}

/// Whether `v` can be stored in a [`Coord`].
#[verifier::when_used_as_spec(is_coord_i32)]
pub fn fits_coord(v: i32) -> (fits: bool)
    ensures
        fits == is_coord(v as int),
{
    -0x8000 <= v && v <= 0x7fff
}

/// Whether `v` can be stored in a [`Coord`].
pub open spec fn is_coord_i32(v: i32) -> bool {
    is_coord(v as int)
}

/// The z component of the cross product of `(ax, ay)` and `(bx, by)`.
pub open spec fn cross(ax: int, ay: int, bx: int, by: int) -> int {
    ax * by - ay * bx
}

/// Whether the fraction `num / den` lies in the closed interval from 0 to 1.
/// A zero denominator is never in range.
pub open spec fn in_unit_range(num: int, den: int) -> bool {
    (den > 0 && 0 <= num <= den) || (den < 0 && den <= num <= 0)
}

/// The smaller of `a` and `b`.
pub open spec fn min_of(a: int, b: int) -> int {
    if a <= b {
        a
    } else {
        b
    }
}

/// The larger of `a` and `b`.
pub open spec fn max_of(a: int, b: int) -> int {
    if a >= b {
        a
    } else {
        b
    }
}

impl Point {
    /// The point reached from `self` by `v`, meaningful where it stays on the grid.
    pub open spec fn moved(self, v: Vector2) -> Point {
        Point { x: (self.x + v.x) as Coord, y: (self.y + v.y) as Coord }
    }

    /// Whether moving by `v` stays on the grid.
    pub open spec fn can_move(self, v: Vector2) -> bool {
        is_coord(self.x + v.x) && is_coord(self.y + v.y)
    }
}

impl core::ops::Add<Vector2> for Point {
    type Output = Point;

    /// The point that `other` leads to from `self`. The move has to stay on
    /// the grid.
    fn add(self, other: Vector2) -> (sum: Point) {
        Point { x: self.x + other.x, y: self.y + other.y }
    }
}

impl vstd::std_specs::ops::AddSpecImpl<Vector2> for Point {
    open spec fn obeys_add_spec() -> bool {
        true
    }

    open spec fn add_req(self, rhs: Vector2) -> bool {
        self.can_move(rhs)
    }

    open spec fn add_spec(self, rhs: Vector2) -> Point {
        self.moved(rhs)
    }
}

impl Vector2 {
    /// The vector with both components multiplied by `k`.
    pub open spec fn scaled(self, k: Coord) -> Vector2 {
        Vector2 { x: (self.x * k) as Coord, y: (self.y * k) as Coord }
    }

    /// Whether scaling by `k` keeps both components in range.
    pub open spec fn can_scale(self, k: Coord) -> bool {
        is_coord(self.x * k) && is_coord(self.y * k)
    }

    /// The segment from `p` to `p + self`.
    pub fn anchor_at(self, p: Point) -> (segment: Segment)
        requires
            p.can_move(self),
        ensures
            segment == (Segment { from: p, to: p.moved(self) }),
    {
        Segment { from: p, to: p + self }
    }
}

impl core::ops::Mul<Coord> for Vector2 {
    type Output = Vector2;

    /// The vector with both components multiplied by `other`. Both products
    /// have to stay in the range of a coordinate.
    fn mul(self, other: Coord) -> (product: Vector2) {
        Vector2 { x: self.x * other, y: self.y * other }
    }
}

impl vstd::std_specs::ops::MulSpecImpl<Coord> for Vector2 {
    open spec fn obeys_mul_spec() -> bool {
        true
    }

    open spec fn mul_req(self, rhs: Coord) -> bool {
        self.can_scale(rhs)
    }

    open spec fn mul_spec(self, rhs: Coord) -> Vector2 {
        self.scaled(rhs)
    }
}

impl Bounds {
    /// Whether the two boxes have no point in common.
    pub open spec fn spec_apart(self, other: Bounds) -> bool {
        self.left > other.right || self.right < other.left || self.top > other.bottom
            || self.bottom < other.top
    }

    /// Whether the two boxes have no point in common.
    #[verifier::when_used_as_spec(spec_apart)]
    pub fn apart(self, other: Bounds) -> (apart: bool)
        ensures
            apart == self.spec_apart(other),
    {
        self.left > other.right || self.right < other.left || self.top > other.bottom
            || self.bottom < other.top
    }
}

impl Segment {
    /// The box around the segment.
    pub open spec fn spec_bounds(self) -> Bounds {
        Bounds {
            left: min_of(self.from.x as int, self.to.x as int) as Coord,
            right: max_of(self.from.x as int, self.to.x as int) as Coord,
            top: min_of(self.from.y as int, self.to.y as int) as Coord,
            bottom: max_of(self.from.y as int, self.to.y as int) as Coord,
        }
    }

    /// Horizontal extent of the segment's direction.
    pub open spec fn dx(self) -> int {
        self.to.x - self.from.x
    }

    /// Vertical extent of the segment's direction.
    pub open spec fn dy(self) -> int {
        self.to.y - self.from.y
    }

    /// The same segment walked the other way.
    pub open spec fn reversed(self) -> Segment {
        Segment { from: self.to, to: self.from }
    }

    /// Cross product of the two directions; zero exactly when the segments
    /// are parallel (or one of them is a single point).
    pub open spec fn denominator(self, other: Segment) -> int {
        cross(self.dx(), self.dy(), other.dx(), other.dy())
    }

    /// `denominator` times the position along `self`, counted from `from` (0)
    /// to `to` (1), at which the two carrying lines meet.
    pub open spec fn t_numerator(self, other: Segment) -> int {
        cross(other.from.x - self.from.x, other.from.y - self.from.y, other.dx(), other.dy())
    }

    /// `denominator` times the position along `other` at which the two
    /// carrying lines meet.
    pub open spec fn u_numerator(self, other: Segment) -> int {
        cross(other.from.x - self.from.x, other.from.y - self.from.y, self.dx(), self.dy())
    }

    /// Whether the axis-aligned boxes around the two segments share a point.
    pub open spec fn boxes_overlap(self, other: Segment) -> bool {
        &&& min_of(self.from.x as int, self.to.x as int) <= max_of(
            other.from.x as int,
            other.to.x as int,
        )
        &&& min_of(other.from.x as int, other.to.x as int) <= max_of(
            self.from.x as int,
            self.to.x as int,
        )
        &&& min_of(self.from.y as int, self.to.y as int) <= max_of(
            other.from.y as int,
            other.to.y as int,
        )
        &&& min_of(other.from.y as int, other.to.y as int) <= max_of(
            self.from.y as int,
            self.to.y as int,
        )
    }

    /// The segments are not parallel and their lines meet at a point that lies
    /// on both of them, endpoints included.
    pub open spec fn crosses(self, other: Segment) -> bool {
        &&& in_unit_range(self.t_numerator(other), self.denominator(other))
        &&& in_unit_range(self.u_numerator(other), self.denominator(other))
    }

    /// The segments lie on one line and overlap there. A segment that is a
    /// single point counts as lying on every line through it.
    pub open spec fn overlaps_on_line(self, other: Segment) -> bool {
        &&& self.denominator(other) == 0
        &&& self.t_numerator(other) == 0
        &&& self.u_numerator(other) == 0
        &&& self.boxes_overlap(other)
    }

    /// Whether the two closed segments have a point in common.
    pub open spec fn spec_intersects(self, other: Segment) -> bool {
        self.crosses(other) || self.overlaps_on_line(other)
    }

    /// What the determinants alone say: the segments cross, or all three
    /// determinants vanish. For segments whose boxes overlap this is whether
    /// they intersect.
    pub open spec fn determinants_meet(self, other: Segment) -> bool {
        ||| self.crosses(other)
        ||| {
            &&& self.denominator(other) == 0
            &&& self.t_numerator(other) == 0
            &&& self.u_numerator(other) == 0
        }
    }

    /// The segment from `first` to `second`.
    pub fn from_pair(first: Point, second: Point) -> (segment: Self)
        ensures
            segment == (Segment { from: first, to: second }),
    {
        Segment { from: first, to: second }
    }

    /// The smallest x on the segment.
    pub fn left(self) -> (x: Coord)
        ensures
            x == min_of(self.from.x as int, self.to.x as int),
    {
        if self.from.x <= self.to.x {
            self.from.x
        } else {
            self.to.x
        }
    }

    /// The largest x on the segment.
    pub fn right(self) -> (x: Coord)
        ensures
            x == max_of(self.from.x as int, self.to.x as int),
    {
        if self.from.x >= self.to.x {
            self.from.x
        } else {
            self.to.x
        }
    }

    /// The box around the segment.
    #[verifier::when_used_as_spec(spec_bounds)]
    pub fn bounds(self) -> (bounds: Bounds)
        ensures
            bounds == self.spec_bounds(),
    {
        let (top, bottom) = if self.from.y <= self.to.y {
            (self.from.y, self.to.y)
        } else {
            (self.to.y, self.from.y)
        };
        Bounds { left: self.left(), right: self.right(), top, bottom }
    }

    /// Exact test for a common point of the two closed segments.
    ///
    /// Segments whose boxes are apart are rejected first; the determinants
    /// decide for the others. Parallel segments meet only when they lie on
    /// one line and overlap.
    #[verifier::when_used_as_spec(spec_intersects)]
    pub fn intersects(self, other: Self) -> (hit: bool)
        ensures
            hit == self.spec_intersects(other),
    {
        if self.bounds().apart(other.bounds()) {
            proof {
                lemma_bounds_apart(self, other);
                lemma_crossing_boxes_overlap(self, other);
            }
            return false;
        }
        proof {
            lemma_bounds_apart(self, other);
        }
        self.meets_by_determinants(other)
    }

    /// The determinant test of the parametric form. The determinants are
    /// taken in 64-bit integers, where they cannot overflow, and only their
    /// signs and sizes are compared, so nothing is ever divided.
    #[verifier::when_used_as_spec(determinants_meet)]
    pub fn meets_by_determinants(self, other: Self) -> (hit: bool)
        ensures
            hit == self.determinants_meet(other),
    {
        let wx: i64 = other.from.x as i64 - self.from.x as i64;
        let wy: i64 = other.from.y as i64 - self.from.y as i64;
        let ax: i64 = self.to.x as i64 - self.from.x as i64;
        let ay: i64 = self.to.y as i64 - self.from.y as i64;
        let bx: i64 = other.to.x as i64 - other.from.x as i64;
        let by: i64 = other.to.y as i64 - other.from.y as i64;
        proof {
            lemma_product_bound(ax as int, by as int);
            lemma_product_bound(ay as int, bx as int);
            lemma_product_bound(wx as int, by as int);
            lemma_product_bound(wy as int, bx as int);
            lemma_product_bound(wx as int, ay as int);
            lemma_product_bound(wy as int, ax as int);
        }
        let den: i64 = ax * by - ay * bx;
        let t: i64 = wx * by - wy * bx;
        let u: i64 = wx * ay - wy * ax;
        if den > 0 {
            0 <= t && t <= den && 0 <= u && u <= den
        } else if den < 0 {
            den <= t && t <= 0 && den <= u && u <= 0
        } else {
            t == 0 && u == 0
        }
    }
}

/// The product of two differences of coordinates stays far inside 64 bits.
#[verifier::rlimit(40)]
proof fn lemma_product_bound(a: int, b: int)
    by (nonlinear_arith)
    requires
        -0x1_0000 < a < 0x1_0000,
        -0x1_0000 < b < 0x1_0000,
    ensures
        -0x1_0000_0000 < a * b < 0x1_0000_0000,
{
}

/// A weighted mean of `a` and `b` with weights `den - num` and `num` lies
/// between them, scaled by `den`.
#[verifier::rlimit(40)]
proof fn lemma_between(a: int, b: int, num: int, den: int)
    by (nonlinear_arith)
    requires
        0 <= num <= den,
    ensures
        den * min_of(a, b) <= (den - num) * a + num * b <= den * max_of(a, b),
{
}

/// Cramer's rule for the meeting point of two lines: with `w` from the first
/// start to the second start, and `a` and `b` the two directions,
/// `den * w == t * a - u * b` on each axis.
#[verifier::rlimit(40)]
pub proof fn lemma_cramer(w1: int, w2: int, a1: int, a2: int, b1: int, b2: int)
    ensures
        cross(a1, a2, b1, b2) * w1 == cross(w1, w2, b1, b2) * a1 - cross(w1, w2, a1, a2) * b1,
        cross(a1, a2, b1, b2) * w2 == cross(w1, w2, b1, b2) * a2 - cross(w1, w2, a1, a2) * b2,
{
    assert((a1 * b2 - a2 * b1) * w1 == a1 * b2 * w1 - a2 * b1 * w1) by (nonlinear_arith);
    assert((w1 * b2 - w2 * b1) * a1 == w1 * b2 * a1 - w2 * b1 * a1) by (nonlinear_arith);
    assert((w1 * a2 - w2 * a1) * b1 == w1 * a2 * b1 - w2 * a1 * b1) by (nonlinear_arith);
    assert(a1 * b2 * w1 == w1 * b2 * a1) by (nonlinear_arith);
    assert(a2 * b1 * w1 == w1 * a2 * b1) by (nonlinear_arith);
    assert(w2 * b1 * a1 == w2 * a1 * b1) by (nonlinear_arith);

    assert((a1 * b2 - a2 * b1) * w2 == a1 * b2 * w2 - a2 * b1 * w2) by (nonlinear_arith);
    assert((w1 * b2 - w2 * b1) * a2 == w1 * b2 * a2 - w2 * b1 * a2) by (nonlinear_arith);
    assert((w1 * a2 - w2 * a1) * b2 == w1 * a2 * b2 - w2 * a1 * b2) by (nonlinear_arith);
    assert(a1 * b2 * w2 == w2 * a1 * b2) by (nonlinear_arith);
    assert(a2 * b1 * w2 == w2 * b1 * a2) by (nonlinear_arith);
    assert(w1 * b2 * a2 == w1 * a2 * b2) by (nonlinear_arith);
}

/// On one axis: if both parameters are in range, the two extents overlap.
#[verifier::rlimit(40)]
proof fn lemma_extents_overlap(a1: int, a2: int, b1: int, b2: int, t: int, u: int, den: int)
    requires
        den > 0,
        0 <= t <= den,
        0 <= u <= den,
        den * (b1 - a1) == t * (a2 - a1) - u * (b2 - b1),
    ensures
        min_of(a1, a2) <= max_of(b1, b2),
        min_of(b1, b2) <= max_of(a1, a2),
{
    lemma_between(a1, a2, t, den);
    lemma_between(b1, b2, u, den);
    assert((den - t) * a1 == den * a1 - t * a1) by (nonlinear_arith);
    assert(t * (a2 - a1) == t * a2 - t * a1) by (nonlinear_arith);
    assert((den - u) * b1 == den * b1 - u * b1) by (nonlinear_arith);
    assert(u * (b2 - b1) == u * b2 - u * b1) by (nonlinear_arith);
    assert(den * (b1 - a1) == den * b1 - den * a1) by (nonlinear_arith);
    assert((den - t) * a1 + t * a2 == (den - u) * b1 + u * b2);
    assert(min_of(a1, a2) <= max_of(b1, b2)) by (nonlinear_arith)
        requires
            den > 0,
            den * min_of(a1, a2) <= den * max_of(b1, b2),
    ;
    assert(min_of(b1, b2) <= max_of(a1, a2)) by (nonlinear_arith)
        requires
            den > 0,
            den * min_of(b1, b2) <= den * max_of(a1, a2),
    ;
}

/// The boxes of two segments overlap exactly when their bounds are not apart.
pub proof fn lemma_bounds_apart(a: Segment, b: Segment)
    ensures
        a.spec_bounds().spec_apart(b.spec_bounds()) == !a.boxes_overlap(b),
        !a.spec_bounds().spec_apart(b.spec_bounds()) ==> a.spec_intersects(b)
            == a.determinants_meet(b),
{
}

/// Segments that cross have overlapping boxes, so rejecting by the boxes
/// first never changes the answer.
#[verifier::rlimit(40)]
pub proof fn lemma_crossing_boxes_overlap(a: Segment, b: Segment)
    ensures
        a.spec_intersects(b) ==> a.boxes_overlap(b),
{
    if a.crosses(b) {
        let den = a.denominator(b);
        let t = a.t_numerator(b);
        let u = a.u_numerator(b);
        let wx = b.from.x - a.from.x;
        let wy = b.from.y - a.from.y;
        lemma_cramer(wx, wy, a.dx(), a.dy(), b.dx(), b.dy());
        if den > 0 {
            lemma_extents_overlap(
                a.from.x as int,
                a.to.x as int,
                b.from.x as int,
                b.to.x as int,
                t,
                u,
                den,
            );
            lemma_extents_overlap(
                a.from.y as int,
                a.to.y as int,
                b.from.y as int,
                b.to.y as int,
                t,
                u,
                den,
            );
        } else {
            assert((-den) * wx == (-t) * a.dx() - (-u) * b.dx()) by (nonlinear_arith)
                requires
                    den * wx == t * a.dx() - u * b.dx(),
            ;
            assert((-den) * wy == (-t) * a.dy() - (-u) * b.dy()) by (nonlinear_arith)
                requires
                    den * wy == t * a.dy() - u * b.dy(),
            ;
            lemma_extents_overlap(
                a.from.x as int,
                a.to.x as int,
                b.from.x as int,
                b.to.x as int,
                -t,
                -u,
                -den,
            );
            lemma_extents_overlap(
                a.from.y as int,
                a.to.y as int,
                b.from.y as int,
                b.to.y as int,
                -t,
                -u,
                -den,
            );
        }
    }
}

/// Swapping the two segments negates the denominator and swaps the two
/// numerators, negated.
#[verifier::rlimit(40)]
proof fn lemma_swapped_determinants(a: Segment, b: Segment)
    ensures
        b.denominator(a) == -a.denominator(b),
        b.t_numerator(a) == -a.u_numerator(b),
        b.u_numerator(a) == -a.t_numerator(b),
{
    let wx = b.from.x - a.from.x;
    let wy = b.from.y - a.from.y;
    assert(cross(b.dx(), b.dy(), a.dx(), a.dy()) == -cross(a.dx(), a.dy(), b.dx(), b.dy()))
        by (nonlinear_arith);
    assert(cross(-wx, -wy, a.dx(), a.dy()) == -cross(wx, wy, a.dx(), a.dy()))
        by (nonlinear_arith);
    assert(cross(-wx, -wy, b.dx(), b.dy()) == -cross(wx, wy, b.dx(), b.dy()))
        by (nonlinear_arith);
}

/// Whether two segments intersect does not depend on which one is asked.
pub proof fn lemma_intersects_symmetric(a: Segment, b: Segment)
    ensures
        a.spec_intersects(b) == b.spec_intersects(a),
{
    lemma_swapped_determinants(a, b);
}

/// Every segment intersects its own reverse: the two lie on one line and
/// share both endpoints.
#[verifier::rlimit(40)]
pub proof fn lemma_intersects_reverse(a: Segment)
    ensures
        a.spec_intersects(a.reversed()),
        a.reversed().spec_intersects(a),
{
    let r = a.reversed();
    assert(cross(a.dx(), a.dy(), -a.dx(), -a.dy()) == 0) by (nonlinear_arith);
    assert(cross(a.dx(), a.dy(), a.dx(), a.dy()) == 0) by (nonlinear_arith);
    assert(a.overlaps_on_line(r));
    lemma_intersects_symmetric(a, r);
}

} // verus!
