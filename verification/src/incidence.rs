//! What the intersection test means: two segments intersect exactly when
//! some point lies on both of them.

use crate::geometry::{cross, in_unit_range, lemma_cramer, max_of, min_of, Segment};
use vstd::prelude::*;

verus! {

impl Segment {
    /// Whether the point with the coordinates `px / q` and `py / q` lies on
    /// the closed segment: on its line and within its box. For a segment that
    /// is a single point this is the point itself.
    pub open spec fn holds_point(self, px: int, py: int, q: int) -> bool {
        &&& q > 0
        &&& cross(px - q * self.from.x, py - q * self.from.y, self.dx(), self.dy()) == 0
        &&& q * min_of(self.from.x as int, self.to.x as int) <= px <= q * max_of(
            self.from.x as int,
            self.to.x as int,
        )
        &&& q * min_of(self.from.y as int, self.to.y as int) <= py <= q * max_of(
            self.from.y as int,
            self.to.y as int,
        )
    }

    /// Whether some point, with rational coordinates, lies on both segments.
    pub open spec fn shares_point_with(self, other: Segment) -> bool {
        exists|px: int, py: int, q: int|
            #![trigger self.holds_point(px, py, q)]
            self.holds_point(px, py, q) && other.holds_point(px, py, q)
    }
}

/// For a vector `(a, b)` along the direction `(dx, dy)`, the cross product
/// with any `(ex, ey)` is that of the direction, in the proportion of the
/// vector to the direction.
#[verifier::rlimit(40)]
proof fn lemma_cross_along(a: int, b: int, dx: int, dy: int, ex: int, ey: int)
    requires
        cross(a, b, dx, dy) == 0,
    ensures
        cross(a, b, ex, ey) * dx == a * cross(dx, dy, ex, ey),
        cross(a, b, ex, ey) * dy == b * cross(dx, dy, ex, ey),
{
    assert(a * dy == b * dx);
    assert((a * ey - b * ex) * dx == a * ey * dx - b * ex * dx) by (nonlinear_arith);
    assert(a * (dx * ey - dy * ex) == a * dx * ey - a * dy * ex) by (nonlinear_arith);
    assert(b * ex * dx == (b * dx) * ex) by (nonlinear_arith);
    assert(a * dy * ex == (a * dy) * ex) by (nonlinear_arith);
    assert(a * ey * dx == a * dx * ey) by (nonlinear_arith);

    assert((a * ey - b * ex) * dy == a * ey * dy - b * ex * dy) by (nonlinear_arith);
    assert(b * (dx * ey - dy * ex) == b * dx * ey - b * dy * ex) by (nonlinear_arith);
    assert(a * ey * dy == (a * dy) * ey) by (nonlinear_arith);
    assert(b * dx * ey == (b * dx) * ey) by (nonlinear_arith);
    assert(b * ex * dy == b * dy * ex) by (nonlinear_arith);
}

/// Where `num` is to `den` as `part` is to `whole`, and `part` lies between
/// zero and `whole`, the fraction `num / den` lies between zero and one.
#[verifier::rlimit(40)]
proof fn lemma_same_proportion(num: int, den: int, part: int, whole: int)
    by (nonlinear_arith)
    requires
        whole != 0,
        (0 <= part <= whole) || (whole <= part <= 0),
        num * whole == part * den,
    ensures
        den != 0 ==> in_unit_range(num, den),
        den == 0 ==> num == 0,
{
    if whole > 0 {
        if den > 0 {
            assert(0 <= part * den <= whole * den);
            assert(0 <= num * whole <= den * whole);
        } else if den < 0 {
            assert(whole * den <= part * den <= 0);
            assert(den * whole <= num * whole <= 0);
        }
    } else {
        if den > 0 {
            assert(whole * den <= part * den <= 0);
            assert(den * whole <= num * whole <= 0);
        } else if den < 0 {
            assert(0 <= part * den <= whole * den);
            assert(0 <= num * whole <= den * whole);
        }
    }
}

/// What lies between scaled bounds lies between the bounds.
#[verifier::rlimit(40)]
proof fn lemma_unscaled_order(q: int, low: int, high: int)
    by (nonlinear_arith)
    requires
        q > 0,
        q * low <= q * high,
    ensures
        low <= high,
{
}

/// On a line that is not upright: a point of the line whose x lies within the
/// extent of a segment of that line has its y within the extent too.
#[verifier::rlimit(40)]
proof fn lemma_on_line_within(a: int, b: int, dx: int, dy: int)
    by (nonlinear_arith)
    requires
        dx != 0,
        a * dy == b * dx,
        (0 <= a <= dx) || (dx <= a <= 0),
    ensures
        (0 <= b <= dy) || (dy <= b <= 0),
{
    if dx > 0 {
        if dy >= 0 {
            assert(0 <= a * dy <= dx * dy);
            assert(0 <= b * dx <= dy * dx);
        } else {
            assert(dx * dy <= a * dy <= 0);
            assert(dy * dx <= b * dx <= 0);
        }
    } else {
        if dy >= 0 {
            assert(dx * dy <= a * dy <= 0);
            assert(dy * dx <= b * dx <= 0);
        } else {
            assert(0 <= a * dy <= dx * dy);
            assert(0 <= b * dx <= dy * dx);
        }
    }
}

/// A grid point on the line of a segment, with one coordinate within the
/// extent of the segment along an axis on which the segment is not flat, lies
/// on the segment.
#[verifier::rlimit(40)]
proof fn lemma_grid_point_on_segment(s: Segment, px: int, py: int)
    requires
        cross(px - s.from.x, py - s.from.y, s.dx(), s.dy()) == 0,
        s.dx() != 0 || s.dy() != 0,
        s.dx() != 0 ==> min_of(s.from.x as int, s.to.x as int) <= px <= max_of(
            s.from.x as int,
            s.to.x as int,
        ),
        s.dx() == 0 ==> min_of(s.from.y as int, s.to.y as int) <= py <= max_of(
            s.from.y as int,
            s.to.y as int,
        ),
    ensures
        s.holds_point(px, py, 1),
{
    let a = px - s.from.x;
    let b = py - s.from.y;
    assert(a * s.dy() == b * s.dx());
    if s.dx() != 0 {
        lemma_on_line_within(a, b, s.dx(), s.dy());
    } else {
        assert(a * s.dy() == 0);
        assert(a == 0) by (nonlinear_arith)
            requires
                a * s.dy() == 0,
                s.dy() != 0,
        ;
    }
}

/// Two overlapping ranges: an end of one lies within the other.
proof fn lemma_overlap_has_end(a1: int, a2: int, b1: int, b2: int)
    requires
        min_of(a1, a2) <= max_of(b1, b2),
        min_of(b1, b2) <= max_of(a1, a2),
    ensures
        ({
            ||| min_of(b1, b2) <= a1 <= max_of(b1, b2)
            ||| min_of(b1, b2) <= a2 <= max_of(b1, b2)
            ||| min_of(a1, a2) <= b1 <= max_of(a1, a2)
            ||| min_of(a1, a2) <= b2 <= max_of(a1, a2)
        }),
{
}

/// The meeting point of two segments that cross lies on both.
#[verifier::rlimit(40)]
proof fn lemma_crossing_shares_point(a: Segment, b: Segment)
    requires
        a.crosses(b),
    ensures
        a.shares_point_with(b),
{
    let den = a.denominator(b);
    let t = a.t_numerator(b);
    let u = a.u_numerator(b);
    let wx = b.from.x - a.from.x;
    let wy = b.from.y - a.from.y;
    // Cramer's rule, on each axis
    assert(den * wx == t * a.dx() - u * b.dx() && den * wy == t * a.dy() - u * b.dy()) by {
        lemma_cramer(wx, wy, a.dx(), a.dy(), b.dx(), b.dy());
    }
    let (q, n, m) = if den > 0 {
        (den, t, u)
    } else {
        (-den, -t, -u)
    };
    assert(q > 0 && 0 <= n <= q && 0 <= m <= q);
    assert(q * wx == n * a.dx() - m * b.dx()) by (nonlinear_arith)
        requires
            den * wx == t * a.dx() - u * b.dx(),
            (q == den && n == t && m == u) || (q == -den && n == -t && m == -u),
    ;
    assert(q * wy == n * a.dy() - m * b.dy()) by (nonlinear_arith)
        requires
            den * wy == t * a.dy() - u * b.dy(),
            (q == den && n == t && m == u) || (q == -den && n == -t && m == -u),
    ;
    let px = q * a.from.x + n * a.dx();
    let py = q * a.from.y + n * a.dy();
    assert(px == q * b.from.x + m * b.dx()) by (nonlinear_arith)
        requires
            q * wx == n * a.dx() - m * b.dx(),
            wx == b.from.x - a.from.x,
            px == q * a.from.x + n * a.dx(),
    ;
    assert(py == q * b.from.y + m * b.dy()) by (nonlinear_arith)
        requires
            q * wy == n * a.dy() - m * b.dy(),
            wy == b.from.y - a.from.y,
            py == q * a.from.y + n * a.dy(),
    ;
    lemma_dividing_point(a, n, q);
    lemma_dividing_point(b, m, q);
    assert(a.holds_point(px, py, q));
    assert(b.holds_point(px, py, q));
}

/// The point that divides a segment in the proportion `n` to `q - n` lies on it.
#[verifier::rlimit(40)]
proof fn lemma_dividing_point(s: Segment, n: int, q: int)
    requires
        q > 0,
        0 <= n <= q,
    ensures
        s.holds_point(q * s.from.x + n * s.dx(), q * s.from.y + n * s.dy(), q),
{
    let px = q * s.from.x + n * s.dx();
    let py = q * s.from.y + n * s.dy();
    assert(cross(n * s.dx(), n * s.dy(), s.dx(), s.dy()) == 0) by (nonlinear_arith);
    lemma_dividing_value(s.from.x as int, s.to.x as int, n, q);
    lemma_dividing_value(s.from.y as int, s.to.y as int, n, q);
}

/// On one axis: the value that divides the range from `v1` to `v2` in the
/// proportion `n` to `q - n` lies within the range, all scaled by `q`.
#[verifier::rlimit(40)]
proof fn lemma_dividing_value(v1: int, v2: int, n: int, q: int)
    by (nonlinear_arith)
    requires
        q > 0,
        0 <= n <= q,
    ensures
        q * min_of(v1, v2) <= q * v1 + n * (v2 - v1) <= q * max_of(v1, v2),
{
    if v1 <= v2 {
        assert(0 <= n * (v2 - v1) <= q * (v2 - v1));
    } else {
        assert(q * (v2 - v1) <= n * (v2 - v1) <= 0);
    }
}

/// Segments on one line that overlap have an endpoint in common with each
/// other's extent.
#[verifier::rlimit(40)]
proof fn lemma_overlap_shares_point(a: Segment, b: Segment)
    requires
        a.overlaps_on_line(b),
    ensures
        a.shares_point_with(b),
{
    let wx = b.from.x - a.from.x;
    let wy = b.from.y - a.from.y;
    // every endpoint lies on the line of either segment
    assert(cross(-wx, -wy, b.dx(), b.dy()) == 0) by (nonlinear_arith)
        requires
            cross(wx, wy, b.dx(), b.dy()) == 0,
    ;
    assert(cross(a.dx() - wx, a.dy() - wy, b.dx(), b.dy()) == 0) by (nonlinear_arith)
        requires
            cross(wx, wy, b.dx(), b.dy()) == 0,
            cross(a.dx(), a.dy(), b.dx(), b.dy()) == 0,
    ;
    assert(cross(wx + b.dx(), wy + b.dy(), a.dx(), a.dy()) == 0) by (nonlinear_arith)
        requires
            cross(wx, wy, a.dx(), a.dy()) == 0,
            cross(a.dx(), a.dy(), b.dx(), b.dy()) == 0,
    ;
    assert(cross(0, 0, a.dx(), a.dy()) == 0 && cross(0, 0, b.dx(), b.dy()) == 0)
        by (nonlinear_arith);
    assert(cross(a.dx(), a.dy(), a.dx(), a.dy()) == 0 && cross(b.dx(), b.dy(), b.dx(), b.dy()) == 0)
        by (nonlinear_arith);
    let a_is_point = a.dx() == 0 && a.dy() == 0;
    let b_is_point = b.dx() == 0 && b.dy() == 0;
    if a_is_point {
        // the box of `a` is the point itself, and it meets the box of `b`
        assert(a.holds_point(a.from.x as int, a.from.y as int, 1));
        assert(b.holds_point(a.from.x as int, a.from.y as int, 1));
    } else if b_is_point {
        assert(a.holds_point(b.from.x as int, b.from.y as int, 1));
        assert(b.holds_point(b.from.x as int, b.from.y as int, 1));
    } else {
        // parallel segments are flat on the same axes
        assert(a.dx() != 0 <==> b.dx() != 0) by (nonlinear_arith)
            requires
                a.dx() * b.dy() - a.dy() * b.dx() == 0,
                a.dx() != 0 || a.dy() != 0,
                b.dx() != 0 || b.dy() != 0,
        ;
        if a.dx() != 0 {
            lemma_overlap_has_end(
                a.from.x as int,
                a.to.x as int,
                b.from.x as int,
                b.to.x as int,
            );
        } else {
            lemma_overlap_has_end(
                a.from.y as int,
                a.to.y as int,
                b.from.y as int,
                b.to.y as int,
            );
        }
        let a_from_in_b = if a.dx() != 0 {
            min_of(b.from.x as int, b.to.x as int) <= a.from.x <= max_of(
                b.from.x as int,
                b.to.x as int,
            )
        } else {
            min_of(b.from.y as int, b.to.y as int) <= a.from.y <= max_of(
                b.from.y as int,
                b.to.y as int,
            )
        };
        let a_to_in_b = if a.dx() != 0 {
            min_of(b.from.x as int, b.to.x as int) <= a.to.x <= max_of(
                b.from.x as int,
                b.to.x as int,
            )
        } else {
            min_of(b.from.y as int, b.to.y as int) <= a.to.y <= max_of(
                b.from.y as int,
                b.to.y as int,
            )
        };
        let b_from_in_a = if a.dx() != 0 {
            min_of(a.from.x as int, a.to.x as int) <= b.from.x <= max_of(
                a.from.x as int,
                a.to.x as int,
            )
        } else {
            min_of(a.from.y as int, a.to.y as int) <= b.from.y <= max_of(
                a.from.y as int,
                a.to.y as int,
            )
        };
        if a_from_in_b {
            lemma_grid_point_on_segment(a, a.from.x as int, a.from.y as int);
            lemma_grid_point_on_segment(b, a.from.x as int, a.from.y as int);
        } else if a_to_in_b {
            lemma_grid_point_on_segment(a, a.to.x as int, a.to.y as int);
            lemma_grid_point_on_segment(b, a.to.x as int, a.to.y as int);
        } else if b_from_in_a {
            lemma_grid_point_on_segment(a, b.from.x as int, b.from.y as int);
            lemma_grid_point_on_segment(b, b.from.x as int, b.from.y as int);
        } else {
            lemma_grid_point_on_segment(a, b.to.x as int, b.to.y as int);
            lemma_grid_point_on_segment(b, b.to.x as int, b.to.y as int);
        }
    }
}

/// Along a segment that holds the point `(px, py) / q`, seen from its start:
/// the determinant of the point against any direction is to the determinant
/// of the segment against it as a part is to a whole.
#[verifier::rlimit(40)]
proof fn lemma_point_proportion(s: Segment, px: int, py: int, q: int, ex: int, ey: int)
    requires
        s.holds_point(px, py, q),
    ensures
        cross(s.dx(), s.dy(), ex, ey) != 0 ==> in_unit_range(
            cross(px - q * s.from.x, py - q * s.from.y, ex, ey),
            q * cross(s.dx(), s.dy(), ex, ey),
        ),
        cross(s.dx(), s.dy(), ex, ey) == 0 ==> cross(px - q * s.from.x, py - q * s.from.y, ex, ey)
            == 0,
{
    let vx = px - q * s.from.x;
    let vy = py - q * s.from.y;
    let den = cross(s.dx(), s.dy(), ex, ey);
    let num = cross(vx, vy, ex, ey);
    lemma_cross_along(vx, vy, s.dx(), s.dy(), ex, ey);
    // the point lies between the ends on both axes
    assert((0 <= vx <= q * s.dx()) || (q * s.dx() <= vx <= 0)) by (nonlinear_arith)
        requires
            q > 0,
            q * min_of(s.from.x as int, s.to.x as int) <= px <= q * max_of(
                s.from.x as int,
                s.to.x as int,
            ),
            vx == px - q * s.from.x,
            s.dx() == s.to.x - s.from.x,
    ;
    assert((0 <= vy <= q * s.dy()) || (q * s.dy() <= vy <= 0)) by (nonlinear_arith)
        requires
            q > 0,
            q * min_of(s.from.y as int, s.to.y as int) <= py <= q * max_of(
                s.from.y as int,
                s.to.y as int,
            ),
            vy == py - q * s.from.y,
            s.dy() == s.to.y - s.from.y,
    ;
    if s.dx() != 0 {
        assert(q * s.dx() != 0) by (nonlinear_arith)
            requires
                q > 0,
                s.dx() != 0,
        ;
        assert(num * (q * s.dx()) == vx * (q * den)) by (nonlinear_arith)
            requires
                num * s.dx() == vx * den,
        ;
        lemma_same_proportion(num, q * den, vx, q * s.dx());
    } else if s.dy() != 0 {
        assert(q * s.dy() != 0) by (nonlinear_arith)
            requires
                q > 0,
                s.dy() != 0,
        ;
        assert(num * (q * s.dy()) == vy * (q * den)) by (nonlinear_arith)
            requires
                num * s.dy() == vy * den,
        ;
        lemma_same_proportion(num, q * den, vy, q * s.dy());
    } else {
        assert(den == 0) by (nonlinear_arith)
            requires
                den == s.dx() * ey - s.dy() * ex,
                s.dx() == 0,
                s.dy() == 0,
        ;
        assert(vx == 0 && vy == 0);
        assert(num == 0) by (nonlinear_arith)
            requires
                num == vx * ey - vy * ex,
                vx == 0,
                vy == 0,
        ;
    }
    if den != 0 {
        assert(q * den != 0) by (nonlinear_arith)
            requires
                q > 0,
                den != 0,
        ;
    } else {
        assert(q * den == 0) by (nonlinear_arith)
            requires
                den == 0,
        ;
    }
}

/// Segments with a point in common intersect.
#[verifier::rlimit(40)]
proof fn lemma_shared_point_intersects(a: Segment, b: Segment, px: int, py: int, q: int)
    requires
        a.holds_point(px, py, q),
        b.holds_point(px, py, q),
    ensures
        a.spec_intersects(b),
{
    let den = a.denominator(b);
    let t = a.t_numerator(b);
    let u = a.u_numerator(b);
    let wx = b.from.x - a.from.x;
    let wy = b.from.y - a.from.y;
    let vx = px - q * a.from.x;
    let vy = py - q * a.from.y;
    let zx = px - q * b.from.x;
    let zy = py - q * b.from.y;
    let bx = b.dx();
    let by = b.dy();
    let ax = a.dx();
    let ay = a.dy();
    // from the start of `a` to the start of `b`, scaled: the difference of the
    // two views of the point
    assert(q * wx == q * b.from.x - q * a.from.x) by (nonlinear_arith)
        requires
            wx == b.from.x - a.from.x,
    ;
    assert(q * wy == q * b.from.y - q * a.from.y) by (nonlinear_arith)
        requires
            wy == b.from.y - a.from.y,
    ;
    assert(q * wx == vx - zx && q * wy == vy - zy);
    // q * t is the determinant of the point, seen from `a`, against `b`
    assert(q * (wx * by - wy * bx) == (q * wx) * by - (q * wy) * bx) by (nonlinear_arith);
    assert((vx - zx) * by == vx * by - zx * by) by (nonlinear_arith);
    assert((vy - zy) * bx == vy * bx - zy * bx) by (nonlinear_arith);
    assert(zx * by - zy * bx == 0);
    assert(q * t == cross(vx, vy, bx, by));
    // q * u is the determinant of the point, seen from `b`, against `a`, negated
    assert(q * (wx * ay - wy * ax) == (q * wx) * ay - (q * wy) * ax) by (nonlinear_arith);
    assert((vx - zx) * ay == vx * ay - zx * ay) by (nonlinear_arith);
    assert((vy - zy) * ax == vy * ax - zy * ax) by (nonlinear_arith);
    assert(vx * ay - vy * ax == 0);
    assert(q * u == -cross(zx, zy, ax, ay));
    lemma_point_proportion(a, px, py, q, b.dx(), b.dy());
    lemma_point_proportion(b, px, py, q, a.dx(), a.dy());
    assert(cross(b.dx(), b.dy(), a.dx(), a.dy()) == -den) by (nonlinear_arith)
        requires
            den == a.dx() * b.dy() - a.dy() * b.dx(),
    ;
    if den != 0 {
        assert(in_unit_range(q * t, q * den));
        assert(in_unit_range(t, den)) by (nonlinear_arith)
            requires
                q > 0,
                in_unit_range(q * t, q * den),
        ;
        assert(in_unit_range(-(q * u), q * (-den)));
        assert(in_unit_range(u, den)) by (nonlinear_arith)
            requires
                q > 0,
                in_unit_range(-(q * u), q * (-den)),
        ;
    } else {
        assert(q * t == 0 && q * u == 0);
        assert(t == 0 && u == 0) by (nonlinear_arith)
            requires
                q > 0,
                q * t == 0,
                q * u == 0,
        ;
        lemma_unscaled_order(
            q,
            min_of(a.from.x as int, a.to.x as int),
            max_of(b.from.x as int, b.to.x as int),
        );
        lemma_unscaled_order(
            q,
            min_of(b.from.x as int, b.to.x as int),
            max_of(a.from.x as int, a.to.x as int),
        );
        lemma_unscaled_order(
            q,
            min_of(a.from.y as int, a.to.y as int),
            max_of(b.from.y as int, b.to.y as int),
        );
        lemma_unscaled_order(
            q,
            min_of(b.from.y as int, b.to.y as int),
            max_of(a.from.y as int, a.to.y as int),
        );
    }
}

/// Two segments intersect exactly when a point lies on both of them: the
/// determinant test, with its rule for parallel segments, is the test for a
/// point in common of the two closed segments.
pub proof fn lemma_intersects_means_common_point(a: Segment, b: Segment)
    ensures
        a.spec_intersects(b) <==> a.shares_point_with(b),
{
    if a.crosses(b) {
        lemma_crossing_shares_point(a, b);
    }
    if a.overlaps_on_line(b) {
        lemma_overlap_shares_point(a, b);
    }
    if a.shares_point_with(b) {
        let (px, py, q) = choose|px: int, py: int, q: int|
            #![trigger a.holds_point(px, py, q)]
            a.holds_point(px, py, q) && b.holds_point(px, py, q);
        lemma_shared_point_intersects(a, b, px, py, q);
    }
}

} // verus!
