//! The rules of the race, stated over plain sequences of points: which moves
//! are allowed, which paths are still open, and which paths finish.

use crate::boundary::{lemma_classify_first_hit, Boundaries, Crossing};
use crate::geometry::{is_coord, Point, Segment};
use vstd::prelude::*;

verus! {

/// The x component of move number `i` of `path`, from point `i` to point `i + 1`.
pub open spec fn step_x(path: Seq<Point>, i: int) -> int {
    path[i + 1].x - path[i].x
}

/// The y component of move number `i` of `path`.
pub open spec fn step_y(path: Seq<Point>, i: int) -> int {
    path[i + 1].y - path[i].y
}

/// Whether `(dx, dy)` is a displacement at all: each component fits a
/// coordinate, and the token does not stay in place.
pub open spec fn is_move(dx: int, dy: int) -> bool {
    is_coord(dx) && is_coord(dy) && (dx != 0 || dy != 0)
}

/// Whether `(dx, dy)` may be the first move: both components within `range`
/// of zero.
pub open spec fn is_seed_move(dx: int, dy: int, range: int) -> bool {
    is_move(dx, dy) && -range <= dx <= range && -range <= dy <= range
}

/// Whether `(dx, dy)` may follow the move `(pdx, pdy)`: on each axis the two
/// differ by at most one.
pub open spec fn is_inertia_move(pdx: int, pdy: int, dx: int, dy: int) -> bool {
    is_move(dx, dy) && -1 <= dx - pdx <= 1 && -1 <= dy - pdy <= 1
}

/// Whether move number `i` of `path` is allowed: the first move by the seed
/// range, every later one by inertia.
pub open spec fn legal_move_at(path: Seq<Point>, i: int, range: int) -> bool {
    if i == 0 {
        is_seed_move(step_x(path, 0), step_y(path, 0), range)
    } else {
        is_inertia_move(step_x(path, i - 1), step_y(path, i - 1), step_x(path, i), step_y(path, i))
    }
}

/// Whether the token may go on from the end of `path` to `target`.
pub open spec fn is_legal_target(path: Seq<Point>, target: Point, range: int) -> bool {
    let n = path.len() as int;
    let dx = target.x - path[n - 1].x;
    let dy = target.y - path[n - 1].y;
    if n == 1 {
        is_seed_move(dx, dy, range)
    } else {
        is_inertia_move(path[n - 1].x - path[n - 2].x, path[n - 1].y - path[n - 2].y, dx, dy)
    }
}

/// Whether every move of `path` is allowed.
pub open spec fn obeys_inertia(path: Seq<Point>, range: int) -> bool {
    forall|i: int| 0 <= i < path.len() - 1 ==> #[trigger] legal_move_at(path, i, range)
}

/// How the track classifies move number `i` of `path`.
pub open spec fn crossing_at(track: &Boundaries, path: Seq<Point>, i: int) -> Crossing {
    track.crossing(Segment { from: path[i], to: path[i + 1] })
}

/// A path that starts at `root`, moves by the rules and has touched no edge of
/// the track so far.
pub open spec fn is_open_path(track: &Boundaries, root: Point, range: int, path: Seq<Point>) -> bool {
    &&& path.len() >= 1
    &&& path[0] == root
    &&& obeys_inertia(path, range)
    &&& forall|i: int|
        0 <= i < path.len() - 1 ==> #[trigger] crossing_at(track, path, i) == Crossing::Clear
}

/// A path that starts at `root`, moves by the rules, touches no edge before its
/// last move, and reaches the finish with its last move before any wall.
pub open spec fn is_finishing_path(
    track: &Boundaries,
    root: Point,
    range: int,
    path: Seq<Point>,
) -> bool {
    &&& path.len() >= 2
    &&& path[0] == root
    &&& obeys_inertia(path, range)
    &&& forall|i: int|
        0 <= i < path.len() - 2 ==> #[trigger] crossing_at(track, path, i) == Crossing::Clear
    &&& crossing_at(track, path, path.len() - 2) == Crossing::Finish
}

/// A finishing path of at most `limit` points that no finishing path is
/// shorter than.
pub open spec fn is_shortest_finishing_path(
    track: &Boundaries,
    root: Point,
    range: int,
    limit: nat,
    path: Seq<Point>,
) -> bool {
    &&& is_finishing_path(track, root, range, path)
    &&& path.len() <= limit
    &&& forall|other: Seq<Point>| #[trigger]
        is_finishing_path(track, root, range, other) ==> path.len() <= other.len()
}

/// What the search owes: each shortest finishing path once, and nothing else.
/// The order of the paths is left open.
pub open spec fn is_search_result(
    track: &Boundaries,
    root: Point,
    range: int,
    limit: nat,
    paths: Seq<Seq<Point>>,
) -> bool {
    &&& paths.no_duplicates()
    &&& forall|path: Seq<Point>|
        paths.contains(path) <==> is_shortest_finishing_path(track, root, range, limit, path)
}

/// The path of the root alone is the only open path with one point.
pub proof fn lemma_root_path(track: &Boundaries, root: Point, range: int, path: Seq<Point>)
    ensures
        is_open_path(track, root, range, path) && path.len() == 1 <==> path == seq![root],
{
    if path.len() == 1 && path[0] == root {
        assert(path =~= seq![root]);
    }
}

/// A path with a move is its parent extended by its last point.
pub proof fn lemma_parent_push(path: Seq<Point>)
    requires
        path.len() >= 1,
    ensures
        path == path.drop_last().push(path.last()),
        path.drop_last().len() == path.len() - 1,
{
    assert(path =~= path.drop_last().push(path.last()));
}

/// What extending a path by one point gives: an open path exactly when the
/// parent is open and the move is allowed and clear, a finishing path exactly
/// when the parent is open and the move is allowed and reaches the finish.
pub proof fn lemma_child_paths(
    track: &Boundaries,
    root: Point,
    range: int,
    parent: Seq<Point>,
    target: Point,
)
    requires
        parent.len() >= 1,
    ensures
        is_open_path(track, root, range, parent.push(target)) <==> {
            &&& is_open_path(track, root, range, parent)
            &&& is_legal_target(parent, target, range)
            &&& track.crossing(Segment { from: parent.last(), to: target }) == Crossing::Clear
        },
        is_finishing_path(track, root, range, parent.push(target)) <==> {
            &&& is_open_path(track, root, range, parent)
            &&& is_legal_target(parent, target, range)
            &&& track.crossing(Segment { from: parent.last(), to: target }) == Crossing::Finish
        },
{
    let child = parent.push(target);
    let n = parent.len() as int;
    assert(child.len() == n + 1);
    assert(child[n] == target);
    assert forall|i: int| 0 <= i < n implies child[i] == parent[i] by {}
    assert(legal_move_at(child, n - 1, range) == is_legal_target(parent, target, range));
    assert(crossing_at(track, child, n - 1) == track.crossing(
        Segment { from: parent.last(), to: target },
    ));
    assert forall|i: int| 0 <= i < n - 1 implies legal_move_at(child, i, range) == legal_move_at(
        parent,
        i,
        range,
    ) && crossing_at(track, child, i) == crossing_at(track, parent, i) by {
        assert(child[i] == parent[i]);
        assert(child[i + 1] == parent[i + 1]);
        if i > 0 {
            assert(child[i - 1] == parent[i - 1]);
        }
    }
    if is_open_path(track, root, range, child) || is_finishing_path(track, root, range, child) {
        assert(legal_move_at(child, n - 1, range));
        assert forall|i: int| 0 <= i < n - 1 implies #[trigger] legal_move_at(parent, i, range) by {
            assert(legal_move_at(child, i, range));
        }
        assert forall|i: int| 0 <= i < n - 1 implies #[trigger] crossing_at(track, parent, i)
            == Crossing::Clear by {
            assert(crossing_at(track, child, i) == Crossing::Clear);
        }
        assert(parent[0] == child[0]);
        assert(is_open_path(track, root, range, parent));
    }
    if is_open_path(track, root, range, child) {
        assert(crossing_at(track, child, n - 1) == Crossing::Clear);
    }
    if is_open_path(track, root, range, parent) && is_legal_target(parent, target, range) {
        assert(child[0] == parent[0]);
        assert forall|i: int| 0 <= i < child.len() - 1 implies #[trigger] legal_move_at(
            child,
            i,
            range,
        ) by {
            if i < n - 1 {
                assert(legal_move_at(parent, i, range));
            }
        }
        assert forall|i: int| 0 <= i < child.len() - 2 implies #[trigger] crossing_at(
            track,
            child,
            i,
        ) == Crossing::Clear by {
            assert(crossing_at(track, parent, i) == Crossing::Clear);
        }
    }
}

/// Every path that is open or finishing comes from an open parent by one
/// allowed move.
pub proof fn lemma_parent_is_open(track: &Boundaries, root: Point, range: int, path: Seq<Point>)
    requires
        path.len() >= 2,
        is_open_path(track, root, range, path) || is_finishing_path(track, root, range, path),
    ensures
        is_open_path(track, root, range, path.drop_last()),
        is_legal_target(path.drop_last(), path.last(), range),
        path.drop_last().len() == path.len() - 1,
        path == path.drop_last().push(path.last()),
{
    lemma_parent_push(path);
    lemma_child_paths(track, root, range, path.drop_last(), path.last());
}

/// Every beginning of an open or finishing path, short of a finishing path
/// itself, is an open path.
pub proof fn lemma_prefix_is_open(
    track: &Boundaries,
    root: Point,
    range: int,
    path: Seq<Point>,
    k: int,
)
    requires
        1 <= k <= path.len(),
        is_open_path(track, root, range, path) || (is_finishing_path(track, root, range, path) && k
            < path.len()),
    ensures
        is_open_path(track, root, range, path.take(k)),
        path.take(k).len() == k,
    decreases path.len() - k,
{
    if k + 1 == path.len() {
        lemma_parent_is_open(track, root, range, path);
        assert(path.drop_last() =~= path.take(k));
    } else if k < path.len() {
        lemma_prefix_is_open(track, root, range, path, k + 1);
        let longer = path.take(k + 1);
        lemma_parent_is_open(track, root, range, longer);
        assert(longer.drop_last() =~= path.take(k));
    } else {
        assert(path.take(k) =~= path);
    }
}

/// Where no open path has `n` points, no path finishes with more than `n`.
pub proof fn lemma_dead_end(track: &Boundaries, root: Point, range: int, n: int, path: Seq<Point>)
    requires
        n >= 1,
        forall|open: Seq<Point>| #[trigger]
            is_open_path(track, root, range, open) ==> open.len() != n,
        is_finishing_path(track, root, range, path),
    ensures
        path.len() <= n,
{
    if path.len() > n {
        lemma_prefix_is_open(track, root, range, path, n);
    }
}

/// The answer of the search is fixed by the start, the track, the seed range
/// and the limit: two answers to one question hold the same paths, and as
/// many of them, whatever the order.
pub proof fn lemma_search_result_is_unique(
    track: &Boundaries,
    root: Point,
    range: int,
    limit: nat,
    first: Seq<Seq<Point>>,
    second: Seq<Seq<Point>>,
)
    requires
        is_search_result(track, root, range, limit, first),
        is_search_result(track, root, range, limit, second),
    ensures
        first.to_set() == second.to_set(),
        first.len() == second.len(),
{
    assert(first.to_set() =~= second.to_set());
    first.unique_seq_to_set();
    second.unique_seq_to_set();
}

/// All paths of an answer have the same length, and no path that reaches the
/// finish at all is shorter.
pub proof fn lemma_results_are_shortest(
    track: &Boundaries,
    root: Point,
    range: int,
    limit: nat,
    paths: Seq<Seq<Point>>,
    i: int,
    j: int,
    other: Seq<Point>,
)
    requires
        is_search_result(track, root, range, limit, paths),
        0 <= i < paths.len(),
        0 <= j < paths.len(),
    ensures
        paths[i].len() == paths[j].len(),
        paths[i].len() <= limit,
        is_finishing_path(track, root, range, other) ==> paths[i].len() <= other.len(),
{
    assert(paths.contains(paths[i]));
    assert(paths.contains(paths[j]));
    assert(is_finishing_path(track, root, range, paths[i]));
    assert(is_finishing_path(track, root, range, paths[j]));
}

/// Every path of an answer starts at the root with a move within the seed
/// range, and each later move differs from the move before it by at most one
/// on each axis. No move stays in place.
pub proof fn lemma_results_obey_inertia(
    track: &Boundaries,
    root: Point,
    range: int,
    limit: nat,
    paths: Seq<Seq<Point>>,
    k: int,
    i: int,
)
    requires
        is_search_result(track, root, range, limit, paths),
        0 <= k < paths.len(),
        0 <= i < paths[k].len() - 1,
    ensures
        paths[k][0] == root,
        is_move(step_x(paths[k], i), step_y(paths[k], i)),
        i == 0 ==> is_seed_move(step_x(paths[k], 0), step_y(paths[k], 0), range),
        i >= 1 ==> -1 <= step_x(paths[k], i) - step_x(paths[k], i - 1) <= 1,
        i >= 1 ==> -1 <= step_y(paths[k], i) - step_y(paths[k], i - 1) <= 1,
{
    assert(paths.contains(paths[k]));
    assert(legal_move_at(paths[k], i, range));
}

/// No move of a path of an answer touches an edge of the track, but the last
/// one: that one touches the finish, and no edge that comes before the finish
/// in the order of the track.
pub proof fn lemma_results_touch_no_wall(
    track: &Boundaries,
    root: Point,
    range: int,
    limit: nat,
    paths: Seq<Seq<Point>>,
    k: int,
    i: int,
)
    requires
        is_search_result(track, root, range, limit, paths),
        0 <= k < paths.len(),
        0 <= i < paths[k].len() - 1,
    ensures
        i < paths[k].len() - 2 ==> forall|e: int|
            0 <= e < track.edges().len() ==> !(Segment {
                from: paths[k][i],
                to: paths[k][i + 1],
            }).spec_intersects(#[trigger] track.edges()[e]),
        i == paths[k].len() - 2 ==> exists|f: int|
            {
                &&& 0 <= f < track.edges().len()
                &&& #[trigger] track.edges()[f] == track.finish_edge()
                &&& (Segment { from: paths[k][i], to: paths[k][i + 1] }).spec_intersects(
                    track.edges()[f],
                )
                &&& forall|e: int|
                    0 <= e < f ==> !(Segment {
                        from: paths[k][i],
                        to: paths[k][i + 1],
                    }).spec_intersects(#[trigger] track.edges()[e])
            },
{
    let path = paths[k];
    let needle = Segment { from: path[i], to: path[i + 1] };
    assert(paths.contains(path));
    assert(is_finishing_path(track, root, range, path));
    lemma_classify_first_hit(track.edges(), track.finish_edge(), needle, 0);
    if i < path.len() - 2 {
        assert(crossing_at(track, path, i) == Crossing::Clear);
    } else {
        assert(crossing_at(track, path, i) == Crossing::Finish);
        let f = choose|f: int|
            {
                &&& 0 <= f < track.edges().len()
                &&& needle.spec_intersects(#[trigger] track.edges()[f])
                &&& (forall|j: int|
                    0 <= j < f ==> !needle.spec_intersects(#[trigger] track.edges()[j]))
                &&& (track.crossing(needle) == Crossing::Finish <==> track.edges()[f]
                    == track.finish_edge())
            };
        assert(track.edges()[f] == track.finish_edge());
    }
}

} // verus!
