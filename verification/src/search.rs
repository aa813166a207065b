//! The search for the shortest finishing paths: branch and bound over partial
//! paths in the order of their length.

use crate::boundary::{lemma_finish_in_reach, Boundaries, Crossing};
use crate::geometry::{fits_coord, Coord, Point, Segment, Vector2};
use crate::levels::{
    is_level, lemma_level_end, lemma_level_start, lemma_push_contains, lemma_push_no_duplicates,
    lemma_reseen, lemma_search_done, lemma_search_start, lemma_seen_end, lemma_seen_fresh,
    lemma_seen_start, lemma_seen_step, lemma_visit, level_inv, outer_inv, seen_in, seen_through,
};
use crate::rules::{is_legal_target, is_search_result};
use crate::step::Step;
use crate::store::{paths_of, Frontier, StepStore};
use vstd::prelude::*;

verus! {

/// How far, on each axis, the first move may lead.
pub const SEED_RANGE: Coord = 40;

/// The paths that a list of vectors of points holds.
pub open spec fn path_views(paths: Seq<Vec<Point>>) -> Seq<Seq<Point>> {
    Seq::new(paths.len(), |k: int| paths[k]@)
}

/// Whether the token at the end of `path` may move by `vector`: the move
/// stays on the grid and obeys the rules.
pub open spec fn is_candidate(path: Seq<Point>, vector: Vector2, range: int) -> bool {
    &&& path.len() >= 1
    &&& path.last().can_move(vector)
    &&& is_legal_target(path, path.last().moved(vector), range)
}

/// The paths found and the frontier after the move from the end of `path` to
/// `target` was tried. A move into a wall changes nothing. A move that
/// finishes is recorded, and the frontier is told its length. A clear move is
/// offered to the frontier.
pub open spec fn after_move(
    track: &Boundaries,
    path: Seq<Point>,
    target: Point,
    found: Seq<Seq<Point>>,
    frontier: Frontier,
) -> (Seq<Seq<Point>>, Frontier) {
    let child = path.push(target);
    match track.crossing(Segment { from: path.last(), to: target }) {
        Crossing::Finish => (found.push(child), frontier.tightened(child.len())),
        Crossing::Wall => (found, frontier),
        Crossing::Clear => (found, frontier.pushed(child)),
    }
}

/// Trying a move never raises the watermark.
pub proof fn lemma_move_never_raises_watermark(
    track: &Boundaries,
    path: Seq<Point>,
    target: Point,
    found: Seq<Seq<Point>>,
    frontier: Frontier,
)
    ensures
        after_move(track, path, target, found, frontier).1.watermark <= frontier.watermark,
{
}

/// The x component of the displacement that the rules are centred on: the
/// last move, or zero where the path has no move yet.
spec fn center_x(path: Seq<Point>) -> int {
    if path.len() >= 2 {
        path[path.len() - 1].x - path[path.len() - 2].x
    } else {
        0
    }
}

/// The y component of that displacement.
spec fn center_y(path: Seq<Point>) -> int {
    if path.len() >= 2 {
        path[path.len() - 1].y - path[path.len() - 2].y
    } else {
        0
    }
}

/// How far from the centre a move may lie on each axis.
spec fn radius(path: Seq<Point>, range: int) -> int {
    if path.len() >= 2 {
        1
    } else {
        range
    }
}

/// Whether the offset `(ox, oy)` comes before `(cx, cy)` when offsets are
/// walked row by row.
spec fn is_before(ox: int, oy: int, cx: int, cy: int) -> bool {
    ox < cx || (ox == cx && oy < cy)
}

/// A candidate is a move, on the grid, whose offset from the centre is within
/// the radius on both axes.
proof fn lemma_candidate_by_offset(path: Seq<Point>, vector: Vector2, range: int)
    requires
        path.len() >= 1,
    ensures
        is_candidate(path, vector, range) <==> {
            &&& path.last().can_move(vector)
            &&& (vector.x != 0 || vector.y != 0)
            &&& -radius(path, range) <= vector.x - center_x(path) <= radius(path, range)
            &&& -radius(path, range) <= vector.y - center_y(path) <= radius(path, range)
        },
{
}

/// The paths of a list with one more vector are the paths of the list and
/// the view of that vector.
proof fn lemma_path_views_push(paths: Seq<Vec<Point>>, path: Vec<Point>)
    ensures
        path_views(paths.push(path)) == path_views(paths).push(path@),
{
    assert(path_views(paths.push(path)) =~= path_views(paths).push(path@));
}

/// The vectors by which the token at the end of `element` may move: any
/// vector but zero within `seed_range` of zero on each axis where `element`
/// has no move yet, else any vector but zero that differs from the last move
/// by at most one on each axis; in both cases only those that stay on the grid.
pub fn candidate_vectors(element: &Step, seed_range: Coord) -> (vectors: Vec<Vector2>)
    ensures
        vectors@.no_duplicates(),
        forall|v: Vector2| vectors@.contains(v) <==> is_candidate(element@, v, seed_range as int),
{
    let mut vectors: Vec<Vector2> = Vec::new();
    fill_candidates(element, seed_range, &mut vectors);
    vectors
}

/// Whether `vectors` holds exactly the candidates of `path` whose offset from
/// the centre comes before `(cx, cy)`.
spec fn holds_candidates_before(
    vectors: Seq<Vector2>,
    path: Seq<Point>,
    range: int,
    cx: int,
    cy: int,
) -> bool {
    forall|v: Vector2|
        vectors.contains(v) <==> is_candidate(path, v, range) && is_before(
            v.x - center_x(path),
            v.y - center_y(path),
            cx,
            cy,
        )
}

/// Replaces what `vectors` holds by the candidate vectors of `element`.
fn fill_candidates(element: &Step, seed_range: Coord, vectors: &mut Vec<Vector2>)
    ensures
        final(vectors)@.no_duplicates(),
        forall|v: Vector2|
            final(vectors)@.contains(v) <==> is_candidate(element@, v, seed_range as int),
{
    vectors.clear();
    let position = element.position();
    let (center, reach): (Vector2, Coord) = match element.last_vector() {
        Some(pv) => (pv, 1),
        None => (Vector2 { x: 0, y: 0 }, seed_range),
    };
    let ghost path = element@;
    let ghost range = seed_range as int;
    assert(center.x == center_x(path) && center.y == center_y(path));
    assert(reach == radius(path, range));
    let r: i32 = reach as i32;
    let mut dx: i32 = -r;
    proof {
        assert forall|w: Vector2| !is_before(w.x - center_x(path), w.y - center_y(path), -r, -r)
            || !is_candidate(path, w, range) by {
            lemma_candidate_by_offset(path, w, range);
        }
        assert(holds_candidates_before(vectors@, path, range, dx as int, -r));
    }
    while dx <= r
        invariant
            path == element@,
            path.len() >= 1,
            position == path.last(),
            center.x == center_x(path) && center.y == center_y(path),
            r == radius(path, range),
            -0x8000 <= r < 0x8000,
            -r <= dx,
            dx <= r + 1 || r < 0,
            vectors@.no_duplicates(),
            holds_candidates_before(vectors@, path, range, dx as int, -r),
        decreases r + 1 - dx,
    {
        let mut dy: i32 = -r;
        while dy <= r
            invariant
                path == element@,
                path.len() >= 1,
                position == path.last(),
                center.x == center_x(path) && center.y == center_y(path),
                r == radius(path, range),
                0 <= r < 0x8000,
                -r <= dx <= r,
                -r <= dy <= r + 1,
                vectors@.no_duplicates(),
                holds_candidates_before(vectors@, path, range, dx as int, dy as int),
            decreases r + 1 - dy,
        {
            let vx: i32 = center.x as i32 + dx;
            let vy: i32 = center.y as i32 + dy;
            let tx: i32 = position.x as i32 + vx;
            let ty: i32 = position.y as i32 + vy;
            let ghost before = vectors@;
            // a vector that keeps the token in place is no move
            if (vx != 0 || vy != 0) && fits_coord(vx) && fits_coord(vy) && fits_coord(tx)
                && fits_coord(ty) {
                let v = Vector2 { x: vx as Coord, y: vy as Coord };
                proof {
                    lemma_candidate_by_offset(path, v, range);
                    lemma_push_no_duplicates(before, v);
                }
                vectors.push(v);
                proof {
                    assert(vectors@ == before.push(v));
                    assert forall|w: Vector2|
                        vectors@.contains(w) <==> is_candidate(path, w, range) && is_before(
                            w.x - center_x(path),
                            w.y - center_y(path),
                            dx as int,
                            dy + 1,
                        ) by {
                        lemma_push_contains(before, v, w);
                        lemma_candidate_by_offset(path, w, range);
                    }
                }
            } else {
                proof {
                    assert(vectors@ == before);
                    assert forall|w: Vector2|
                        vectors@.contains(w) <==> is_candidate(path, w, range) && is_before(
                            w.x - center_x(path),
                            w.y - center_y(path),
                            dx as int,
                            dy + 1,
                        ) by {
                        lemma_candidate_by_offset(path, w, range);
                    }
                }
            }
            assert(holds_candidates_before(vectors@, path, range, dx as int, dy + 1));
            dy += 1;
        }
        proof {
            assert forall|w: Vector2|
                vectors@.contains(w) <==> is_candidate(path, w, range) && is_before(
                    w.x - center_x(path),
                    w.y - center_y(path),
                    dx + 1,
                    -r,
                ) by {
                lemma_candidate_by_offset(path, w, range);
            }
            assert(holds_candidates_before(vectors@, path, range, dx + 1, -r));
        }
        dx += 1;
    }
    proof {
        assert forall|w: Vector2| vectors@.contains(w) <==> is_candidate(path, w, range) by {
            lemma_candidate_by_offset(path, w, range);
        }
    }
}

/// Tries the move by `v` from the end of `element`: drops it where it runs
/// into a wall, records the finished path and tightens the frontier where it
/// reaches the finish, and offers the longer path to the frontier where it
/// touches nothing.
pub fn handle_vector(
    points: &mut StepStore,
    final_paths: &mut Vec<Vec<Point>>,
    element: &Step,
    v: Vector2,
    boundaries: &Boundaries,
)
    requires
        element@.len() < usize::MAX,
        element@.last().can_move(v),
    ensures
        (path_views(final(final_paths)@), final(points)@) == after_move(
            boundaries,
            element@,
            element@.last().moved(v),
            path_views(old(final_paths)@),
            old(points)@,
        ),
        final(points)@.watermark <= old(points)@.watermark,
{
    let needle = v.anchor_at(element.position());
    // Once the longer path could no longer wait in the frontier, the move
    // matters only if it finishes: one that cannot is not even classified.
    if element.len() + 1 >= points.min_distance() && !boundaries.may_finish(needle) {
        proof {
            lemma_finish_in_reach(boundaries, needle);
        }
        return ;
    }
    match boundaries.classify(needle) {
        Crossing::Finish => {
            let path = element.with_vector(v).into_points();
            // nothing that is as long as this path can beat it
            points.apply_final_distance(path.len());
            proof {
                lemma_path_views_push(final_paths@, path);
            }
            final_paths.push(path);
        },
        Crossing::Wall => {},
        Crossing::Clear => {
            // a path that the frontier would turn away is not even built
            if element.len() + 1 < points.min_distance() {
                points.push(element.with_vector(v));
            }
        },
    }
}

/// Tries every move from the end of parent `k` of a level.
fn expand(
    points: &mut StepStore,
    final_paths: &mut Vec<Vec<Point>>,
    element: &Step,
    seed_range: Coord,
    boundaries: &Boundaries,
    vectors: &mut Vec<Vector2>,
    Ghost(root): Ghost<Point>,
    Ghost(limit): Ghost<nat>,
    Ghost(parents): Ghost<Seq<Seq<Point>>>,
    Ghost(k): Ghost<int>,
)
    requires
        0 <= k < parents.len(),
        element@ == parents[k],
        limit <= usize::MAX,
        is_level(boundaries, root, seed_range as int, parents, element@.len()),
        level_inv(
            boundaries,
            root,
            seed_range as int,
            limit,
            element@.len(),
            seen_through(parents, k),
            path_views(old(final_paths)@),
            old(points)@,
        ),
    ensures
        level_inv(
            boundaries,
            root,
            seed_range as int,
            limit,
            element@.len(),
            seen_through(parents, k + 1),
            path_views(final(final_paths)@),
            final(points)@,
        ),
{
    let ghost range = seed_range as int;
    let ghost n = element@.len();
    fill_candidates(element, seed_range, vectors);
    proof {
        lemma_seen_start(parents, k, vectors@);
        assert forall|j: int| 0 <= j < vectors.len() implies parents[k].last().can_move(
            #[trigger] vectors@[j],
        ) by {
            assert(vectors@.contains(vectors@[j]));
        }
    }
    let mut i: usize = 0;
    while i < vectors.len()
        invariant
            0 <= i <= vectors.len(),
            0 <= k < parents.len(),
            element@ == parents[k],
            n == element@.len(),
            range == seed_range as int,
            limit <= usize::MAX,
            is_level(boundaries, root, range, parents, n),
            vectors@.no_duplicates(),
            forall|v: Vector2| vectors@.contains(v) <==> is_candidate(parents[k], v, range),
            forall|j: int|
                0 <= j < vectors.len() ==> parents[k].last().can_move(#[trigger] vectors@[j]),
            level_inv(
                boundaries,
                root,
                range,
                limit,
                n,
                seen_in(parents, k, vectors@, i as int),
                path_views(final_paths@),
                points@,
            ),
        decreases vectors.len() - i,
    {
        let v = vectors[i];
        proof {
            assert(vectors@.contains(v));
            lemma_seen_fresh(parents, k, vectors@, i as int);
            lemma_visit(
                boundaries,
                root,
                range,
                limit,
                n,
                seen_in(parents, k, vectors@, i as int),
                path_views(final_paths@),
                points@,
                parents[k],
                parents[k].last().moved(v),
            );
            lemma_seen_step(parents, k, vectors@, i as int);
        }
        handle_vector(points, final_paths, element, v, boundaries);
        i += 1;
    }
    proof {
        lemma_seen_end(boundaries, root, range, parents, k, vectors@);
        lemma_reseen(
            boundaries,
            root,
            range,
            limit,
            n,
            seen_in(parents, k, vectors@, vectors@.len() as int),
            seen_through(parents, k + 1),
            path_views(final_paths@),
            points@,
        );
    }
}

/// All shortest paths from `first_root` to the finish of `boundaries`, each
/// once, among the paths of at most `max_length` points whose first move lies
/// within `seed_range` of zero on both axes. The result is empty where no
/// such path reaches the finish.
///
/// The search extends all open paths of one length before it turns to the
/// next, so the first length at which a path finishes is the shortest, and
/// every path that finishes at that length is found. All paths that are
/// recorded have that length: nothing has to be sorted out at the end. A step
/// that comes out of the frontier lies below the watermark, since the
/// frontier keeps nothing else, so none is ever skipped.
///
/// `max_length` bounds the search on a track whose finish cannot be reached:
/// no path of `max_length` points or more waits in the frontier.
pub fn compute_final_paths_within(
    first_root: Point,
    boundaries: &Boundaries,
    seed_range: Coord,
    max_length: usize,
) -> (final_paths: Vec<Vec<Point>>)
    ensures
        is_search_result(
            boundaries,
            first_root,
            seed_range as int,
            max_length as nat,
            path_views(final_paths@),
        ),
{
    let ghost range = seed_range as int;
    let ghost limit = max_length as nat;
    let mut points = StepStore::new();
    points.apply_final_distance(max_length);
    points.push(Step::from_point(first_root));
    let mut final_paths: Vec<Vec<Point>> = Vec::new();
    // the candidate vectors of the path at hand; one buffer serves all paths
    let mut vectors: Vec<Vector2> = Vec::new();
    let ghost mut n: nat = 1;
    proof {
        lemma_search_start(boundaries, first_root, range, limit);
        assert(path_views(final_paths@) =~= Seq::<Seq<Point>>::empty());
    }
    loop
        invariant
            range == seed_range as int,
            limit == max_length as nat,
            outer_inv(boundaries, first_root, range, limit, n, path_views(final_paths@), points@),
        ensures
            outer_inv(boundaries, first_root, range, limit, n, path_views(final_paths@), points@),
            points@.is_empty(),
        decreases limit - n,
    {
        let ghost before = points@;
        let bucket = match points.pop() {
            None => {
                break ;
            },
            Some(bucket) => bucket,
        };
        let ghost parents = paths_of(bucket@);
        proof {
            lemma_level_start(
                boundaries,
                first_root,
                range,
                limit,
                n,
                path_views(final_paths@),
                before,
                bucket@[0]@.len(),
            );
        }
        let mut k: usize = 0;
        while k < bucket.len()
            invariant
                0 <= k <= bucket.len(),
                range == seed_range as int,
                limit == max_length as nat,
                parents == paths_of(bucket@),
                is_level(boundaries, first_root, range, parents, n),
                level_inv(
                    boundaries,
                    first_root,
                    range,
                    limit,
                    n,
                    seen_through(parents, k as int),
                    path_views(final_paths@),
                    points@,
                ),
            decreases bucket.len() - k,
        {
            let element = &bucket[k];
            assert(element@ == parents[k as int]);
            expand(
                &mut points,
                &mut final_paths,
                element,
                seed_range,
                boundaries,
                &mut vectors,
                Ghost(first_root),
                Ghost(limit),
                Ghost(parents),
                Ghost(k as int),
            );
            k += 1;
        }
        proof {
            use_type_invariant(&points);
            points.lemma_view_well_formed();
            lemma_level_end(
                boundaries,
                first_root,
                range,
                limit,
                n,
                parents,
                path_views(final_paths@),
                points@,
            );
            n = n + 1;
        }
    }
    proof {
        lemma_search_done(
            boundaries,
            first_root,
            range,
            limit,
            n,
            path_views(final_paths@),
            points@,
        );
    }
    final_paths
}

/// All shortest paths from `first_root` to the finish of `boundaries`, each
/// once, with the first move within [`SEED_RANGE`] of zero on both axes.
pub fn compute_final_paths(first_root: Point, boundaries: &Boundaries) -> (final_paths: Vec<
    Vec<Point>,
>)
    ensures
        is_search_result(
            boundaries,
            first_root,
            SEED_RANGE as int,
            usize::MAX as nat,
            path_views(final_paths@),
        ),
{
    compute_final_paths_within(first_root, boundaries, SEED_RANGE, usize::MAX)
}

} // verus!
