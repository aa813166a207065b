//! What a renderer is handed: the moves of a path as segments in display units.

use crate::geometry::{fits_coord, is_coord, Coord, Point, Segment, Vector2};
use vstd::prelude::*;

verus! {

/// The side of a grid cell in display units.
pub const CELL_SIZE: Coord = 20;

/// The point that comes before point `i` of `path`: `first_root` before the
/// first point.
pub open spec fn point_before(first_root: Point, path: Seq<Point>, i: int) -> Point {
    if i == 0 {
        first_root
    } else {
        path[i - 1]
    }
}

/// Whether the move from `from` to `to` can be drawn with cells of side
/// `cell`: the displacement is one that a vector holds, and it and both
/// points stay in range when scaled.
#[verifier::opaque]
pub open spec fn can_draw(from: Point, to: Point, cell: Coord) -> bool {
    &&& is_coord(to.x - from.x) && is_coord(to.y - from.y)
    &&& is_coord((to.x - from.x) * cell) && is_coord((to.y - from.y) * cell)
    &&& is_coord(from.x * cell) && is_coord(from.y * cell)
    &&& is_coord(to.x * cell) && is_coord(to.y * cell)
}

/// The move from `from` to `to` in display units.
#[verifier::opaque]
pub open spec fn drawn(from: Point, to: Point, cell: Coord) -> Segment {
    Segment {
        from: Point { x: (from.x * cell) as Coord, y: (from.y * cell) as Coord },
        to: Point { x: (to.x * cell) as Coord, y: (to.y * cell) as Coord },
    }
}

/// Whether every move of `path`, the one from `first_root` to its first point
/// included, can be drawn.
pub open spec fn can_draw_path(first_root: Point, path: Seq<Point>, cell: Coord) -> bool {
    forall|i: int|
        0 <= i < path.len() ==> can_draw(point_before(first_root, path, i), #[trigger] path[i], cell)
}

/// `value` times `cell`, where that is a coordinate.
#[verifier::rlimit(40)]
fn scale(value: Coord, cell: Coord) -> (scaled: Option<Coord>)
    ensures
        match scaled {
            Some(s) => s == value * cell,
            None => !is_coord(value * cell),
        },
{
    let wide: i32 = value as i32;
    let by: i32 = cell as i32;
    assert(-0x4000_0000 <= wide * by <= 0x4000_0000) by (nonlinear_arith)
        requires
            -0x8000 <= wide < 0x8000,
            -0x8000 <= by < 0x8000,
    ;
    let product: i32 = wide * by;
    if -0x8000 <= product && product <= 0x7fff {
        Some(product as Coord)
    } else {
        None
    }
}

/// The move from `from` to `to` in display units: the displacement scaled by
/// `cell` and anchored at the scaled start. `None` where a value leaves the
/// range of a coordinate on the way.
#[verifier::rlimit(40)]
pub fn display_move(from: Point, to: Point, cell: Coord) -> (stroke: Option<Segment>)
    ensures
        match stroke {
            Some(segment) => can_draw(from, to, cell) && segment == drawn(from, to, cell),
            None => !can_draw(from, to, cell),
        },
{
    reveal(can_draw);
    reveal(drawn);
    let dx: i32 = to.x as i32 - from.x as i32;
    let dy: i32 = to.y as i32 - from.y as i32;
    if dx < -0x8000 || dx > 0x7fff || dy < -0x8000 || dy > 0x7fff {
        return None;
    }
    let step = Vector2 { x: dx as Coord, y: dy as Coord };
    let scaled_x = match scale(step.x, cell) {
        Some(s) => s,
        None => {
            return None;
        },
    };
    let scaled_y = match scale(step.y, cell) {
        Some(s) => s,
        None => {
            return None;
        },
    };
    let anchor_x = match scale(from.x, cell) {
        Some(s) => s,
        None => {
            return None;
        },
    };
    let anchor_y = match scale(from.y, cell) {
        Some(s) => s,
        None => {
            return None;
        },
    };
    let anchor = Point { x: anchor_x, y: anchor_y };
    let scaled = Vector2 { x: scaled_x, y: scaled_y };
    assert(anchor_x + scaled_x == to.x * cell && anchor_y + scaled_y == to.y * cell)
        by (nonlinear_arith)
        requires
            scaled_x == (to.x - from.x) * cell,
            scaled_y == (to.y - from.y) * cell,
            anchor_x == from.x * cell,
            anchor_y == from.y * cell,
    ;
    if !fits_coord(anchor_x as i32 + scaled_x as i32) || !fits_coord(
        anchor_y as i32 + scaled_y as i32,
    ) {
        return None;
    }
    Some(scaled.anchor_at(anchor))
}

/// The moves of `path` in display units, one segment for each point of the
/// path: the first leads from `first_root` to the first point, each later one
/// from the point before. `None` where a move cannot be drawn.
pub fn display_moves(first_root: Point, path: &Vec<Point>, cell: Coord) -> (strokes: Option<
    Vec<Segment>,
>)
    ensures
        match strokes {
            Some(segments) => {
                &&& can_draw_path(first_root, path@, cell)
                &&& segments@.len() == path@.len()
                &&& forall|i: int|
                    0 <= i < path@.len() ==> #[trigger] segments@[i] == drawn(
                        point_before(first_root, path@, i),
                        path@[i],
                        cell,
                    )
            },
            None => !can_draw_path(first_root, path@, cell),
        },
{
    let mut segments: Vec<Segment> = Vec::new();
    let mut prev_pos = first_root;
    let mut i: usize = 0;
    while i < path.len()
        invariant
            0 <= i <= path.len(),
            prev_pos == point_before(first_root, path@, i as int),
            segments@.len() == i,
            forall|j: int|
                0 <= j < i ==> can_draw(point_before(first_root, path@, j), #[trigger] path@[j], cell),
            forall|j: int|
                0 <= j < i ==> #[trigger] segments@[j] == drawn(
                    point_before(first_root, path@, j),
                    path@[j],
                    cell,
                ),
        decreases path.len() - i,
    {
        let cur_pos = path[i];
        match display_move(prev_pos, cur_pos, cell) {
            Some(segment) => {
                segments.push(segment);
            },
            None => {
                assert(!can_draw(point_before(first_root, path@, i as int), path@[i as int], cell));
                return None;
            },
        }
        prev_pos = cur_pos;
        i += 1;
    }
    Some(segments)
}

} // verus!
