//! Why the search finds what it owes: the state of the search between two
//! lengths and within one, and the steps that keep it.

use crate::boundary::{Boundaries, Crossing};
use crate::geometry::{Coord, Point, Segment, Vector2};
use crate::rules::{
    is_finishing_path, is_legal_target, is_open_path, is_shortest_finishing_path,
    lemma_child_paths, lemma_dead_end, lemma_parent_is_open, lemma_root_path,
};
use crate::search::{after_move, is_candidate};
use crate::store::Frontier;
use vstd::prelude::*;

verus! {

/// What a sequence holds after a push: what it held, and the new element.
pub(crate) proof fn lemma_push_contains<T>(s: Seq<T>, v: T, w: T)
    ensures
        s.push(v).contains(w) <==> (s.contains(w) || w == v),
{
    let pushed = s.push(v);
    if s.contains(w) {
        let i = choose|i: int| 0 <= i < s.len() && s[i] == w;
        assert(pushed[i] == w);
    }
    if w == v {
        assert(pushed[s.len() as int] == w);
    }
    if pushed.contains(w) {
        let i = choose|i: int| 0 <= i < pushed.len() && pushed[i] == w;
        if i < s.len() {
            assert(s[i] == w);
        }
    }
}

/// Pushing an element that a sequence without duplicates does not hold
/// leaves it without duplicates.
pub(crate) proof fn lemma_push_no_duplicates<T>(s: Seq<T>, v: T)
    requires
        s.no_duplicates(),
        !s.contains(v),
    ensures
        s.push(v).no_duplicates(),
{
    let pushed = s.push(v);
    assert forall|i: int, j: int|
        0 <= i < pushed.len() && 0 <= j < pushed.len() && i != j implies pushed[i] != pushed[j] by {
        if i < s.len() && j < s.len() {
            assert(s[i] != s[j]);
        } else if i < s.len() {
            assert(s[i] != v);
        } else {
            assert(s[j] != v);
        }
    }
}

/// Whether `path` extends one of the first `k` of `parents` by one point.
pub(crate) open spec fn from_earlier(parents: Seq<Seq<Point>>, k: int, path: Seq<Point>) -> bool {
    exists|j: int| 0 <= j < k && j < parents.len() && #[trigger] parents[j] == path.drop_last()
}

/// The paths that extend one of the first `k` of `parents` by one point.
pub(crate) open spec fn seen_through(parents: Seq<Seq<Point>>, k: int) -> Set<Seq<Point>> {
    Set::new(|path: Seq<Point>| path.len() >= 2 && from_earlier(parents, k, path))
}

/// Whether `path` extends `parent` by one of the first `i` of `vectors`.
pub(crate) open spec fn by_earlier_vector(
    parent: Seq<Point>,
    vectors: Seq<Vector2>,
    i: int,
    path: Seq<Point>,
) -> bool {
    &&& path.drop_last() == parent
    &&& exists|j: int|
        0 <= j < i && j < vectors.len() && path.last() == parent.last().moved(#[trigger] vectors[j])
}

/// The paths that extend one of the first `k` of `parents` by one point, or
/// parent `k` by one of the first `i` of `vectors`.
pub(crate) open spec fn seen_in(parents: Seq<Seq<Point>>, k: int, vectors: Seq<Vector2>, i: int) -> Set<
    Seq<Point>,
> {
    Set::new(
        |path: Seq<Point>|
            path.len() >= 2 && (from_earlier(parents, k, path) || (0 <= k < parents.len()
                && by_earlier_vector(parents[k], vectors, i, path))),
    )
}

/// `parents` holds each open path of `n` points once, and nothing else.
pub(crate) open spec fn is_level(
    track: &Boundaries,
    root: Point,
    range: int,
    parents: Seq<Seq<Point>>,
    n: nat,
) -> bool {
    &&& n >= 1
    &&& parents.no_duplicates()
    &&& forall|j: int|
        0 <= j < parents.len() ==> is_open_path(track, root, range, #[trigger] parents[j])
            && parents[j].len() == n
    &&& forall|path: Seq<Point>| #[trigger]
        is_open_path(track, root, range, path) && path.len() == n ==> parents.contains(path)
}

/// The state of the search while the open paths of `n` points are extended,
/// when the extensions in `seen` have been tried: `found` holds each finishing
/// path among them once; the frontier holds each open path among them once,
/// unless a finish is known or the limit is reached, and nothing else.
pub(crate) open spec fn level_inv(
    track: &Boundaries,
    root: Point,
    range: int,
    limit: nat,
    n: nat,
    seen: Set<Seq<Point>>,
    found: Seq<Seq<Point>>,
    frontier: Frontier,
) -> bool {
    &&& n < limit
    &&& found.no_duplicates()
    &&& forall|path: Seq<Point>| #[trigger]
        found.contains(path) ==> is_finishing_path(track, root, range, path) && seen.contains(
            path,
        )
    &&& forall|path: Seq<Point>|
        is_finishing_path(track, root, range, path) && #[trigger] seen.contains(path)
            ==> found.contains(path)
    &&& frontier.watermark == (if found.len() > 0 {
        n + 1
    } else {
        limit
    })
    &&& forall|m: nat| m != n + 1 ==> !frontier.buckets.dom().contains(m)
    &&& frontier.bucket(n + 1).no_duplicates()
    &&& forall|path: Seq<Point>| #[trigger]
        frontier.bucket(n + 1).contains(path) ==> {
            &&& found.len() == 0
            &&& n + 1 < limit
            &&& is_open_path(track, root, range, path)
            &&& seen.contains(path)
        }
    &&& forall|path: Seq<Point>|
        found.len() == 0 && n + 1 < limit && is_open_path(track, root, range, path)
            && #[trigger] seen.contains(path) ==> frontier.bucket(n + 1).contains(path)
}

/// The state of the search between two lengths, when every path of fewer than
/// `n` points has been dealt with: no path finishes with fewer than `n`
/// points, and `found` holds each finishing path of `n` points once. Where
/// there is one, nothing waits any more; where there is none, exactly the open
/// paths of `n` points wait, each once, unless the limit is reached.
pub(crate) open spec fn outer_inv(
    track: &Boundaries,
    root: Point,
    range: int,
    limit: nat,
    n: nat,
    found: Seq<Seq<Point>>,
    frontier: Frontier,
) -> bool {
    &&& n >= 1
    &&& forall|path: Seq<Point>| #[trigger]
        is_finishing_path(track, root, range, path) ==> path.len() >= n
    &&& found.no_duplicates()
    &&& forall|path: Seq<Point>| #[trigger]
        found.contains(path) ==> is_finishing_path(track, root, range, path) && path.len() == n
    &&& forall|path: Seq<Point>| #[trigger]
        is_finishing_path(track, root, range, path) && path.len() == n ==> found.contains(path)
    &&& found.len() > 0 ==> n <= limit && frontier.is_empty()
    &&& found.len() == 0 ==> {
        &&& frontier.watermark == limit
        &&& forall|m: nat| m != n ==> !frontier.buckets.dom().contains(m)
        &&& frontier.bucket(n).no_duplicates()
        &&& forall|path: Seq<Point>| #[trigger]
            frontier.bucket(n).contains(path) ==> {
                &&& n < limit
                &&& is_open_path(track, root, range, path)
                &&& path.len() == n
            }
        &&& forall|path: Seq<Point>|
            n < limit && #[trigger] is_open_path(track, root, range, path) && path.len() == n
                ==> frontier.bucket(n).contains(path)
    }
}

/// Trying one more extension keeps the state of the level.
pub(crate) proof fn lemma_visit(
    track: &Boundaries,
    root: Point,
    range: int,
    limit: nat,
    n: nat,
    seen: Set<Seq<Point>>,
    found: Seq<Seq<Point>>,
    frontier: Frontier,
    parent: Seq<Point>,
    target: Point,
)
    requires
        level_inv(track, root, range, limit, n, seen, found, frontier),
        is_open_path(track, root, range, parent),
        parent.len() == n,
        is_legal_target(parent, target, range),
        !seen.contains(parent.push(target)),
    ensures
        level_inv(
            track,
            root,
            range,
            limit,
            n,
            seen.insert(parent.push(target)),
            after_move(track, parent, target, found, frontier).0,
            after_move(track, parent, target, found, frontier).1,
        ),
{
    let child = parent.push(target);
    let seen2 = seen.insert(child);
    let found2 = after_move(track, parent, target, found, frontier).0;
    let frontier2 = after_move(track, parent, target, found, frontier).1;
    let kind = track.crossing(Segment { from: parent.last(), to: target });
    lemma_child_paths(track, root, range, parent, target);
    assert(child.len() == n + 1);
    assert(!found.contains(child));
    assert(!frontier.bucket(n + 1).contains(child));
    match kind {
        Crossing::Finish => {
            lemma_push_no_duplicates(found, child);
            assert forall|path: Seq<Point>| #[trigger] found2.contains(path) implies is_finishing_path(
                track,
                root,
                range,
                path,
            ) && seen2.contains(path) by {
                lemma_push_contains(found, child, path);
            }
            assert forall|path: Seq<Point>|
                is_finishing_path(track, root, range, path) && #[trigger] seen2.contains(
                    path,
                ) implies found2.contains(path) by {
                lemma_push_contains(found, child, path);
            }
            assert(found2.len() > 0);
            assert(frontier2.watermark == n + 1);
            assert forall|m: nat| !frontier2.buckets.dom().contains(m) by {
                if frontier2.buckets.dom().contains(m) {
                    assert(frontier.buckets.dom().contains(m));
                }
            }
            assert(frontier2.bucket(n + 1) =~= Seq::<Seq<Point>>::empty());
        },
        Crossing::Wall => {
            assert forall|path: Seq<Point>|
                is_finishing_path(track, root, range, path) && #[trigger] seen2.contains(
                    path,
                ) implies found2.contains(path) by {
                assert(seen.contains(path));
            }
            assert forall|path: Seq<Point>|
                found2.len() == 0 && n + 1 < limit && is_open_path(track, root, range, path)
                    && #[trigger] seen2.contains(path) implies frontier2.bucket(n + 1).contains(
                path,
            ) by {
                assert(seen.contains(path));
            }
        },
        Crossing::Clear => {
            assert forall|path: Seq<Point>|
                is_finishing_path(track, root, range, path) && #[trigger] seen2.contains(
                    path,
                ) implies found2.contains(path) by {
                assert(seen.contains(path));
            }
            if child.len() >= frontier.watermark {
                assert(frontier2 == frontier);
                assert(found.len() > 0 || n + 1 >= limit);
            } else {
                let bucket = frontier.bucket(n + 1);
                assert(found.len() == 0 && n + 1 < limit);
                assert(frontier2.bucket(n + 1) == bucket.push(child));
                lemma_push_no_duplicates(bucket, child);
                assert forall|m: nat| m != n + 1 implies !frontier2.buckets.dom().contains(m) by {
                    if frontier2.buckets.dom().contains(m) {
                        assert(frontier.buckets.dom().contains(m));
                    }
                }
                assert forall|path: Seq<Point>| #[trigger]
                    frontier2.bucket(n + 1).contains(path) implies {
                    &&& found2.len() == 0
                    &&& n + 1 < limit
                    &&& is_open_path(track, root, range, path)
                    &&& seen2.contains(path)
                } by {
                    lemma_push_contains(bucket, child, path);
                }
                assert forall|path: Seq<Point>|
                    found2.len() == 0 && n + 1 < limit && is_open_path(track, root, range, path)
                        && #[trigger] seen2.contains(path) implies frontier2.bucket(
                    n + 1,
                ).contains(path) by {
                    lemma_push_contains(bucket, child, path);
                }
            }
        },
    }
}

/// The state of the level depends on `seen` only through the paths that are
/// open or finishing.
pub(crate) proof fn lemma_reseen(
    track: &Boundaries,
    root: Point,
    range: int,
    limit: nat,
    n: nat,
    seen: Set<Seq<Point>>,
    seen2: Set<Seq<Point>>,
    found: Seq<Seq<Point>>,
    frontier: Frontier,
)
    requires
        level_inv(track, root, range, limit, n, seen, found, frontier),
        forall|path: Seq<Point>|
            #![trigger seen2.contains(path)]
            #![trigger seen.contains(path)]
            is_open_path(track, root, range, path) || is_finishing_path(track, root, range, path)
                ==> seen.contains(path) == seen2.contains(path),
    ensures
        level_inv(track, root, range, limit, n, seen2, found, frontier),
{
    assert forall|path: Seq<Point>| #[trigger] found.contains(path) implies is_finishing_path(
        track,
        root,
        range,
        path,
    ) && seen2.contains(path) by {
        assert(seen.contains(path));
    }
    assert forall|path: Seq<Point>|
        is_finishing_path(track, root, range, path) && #[trigger] seen2.contains(
            path,
        ) implies found.contains(path) by {
        assert(seen.contains(path));
    }
    assert forall|path: Seq<Point>| #[trigger] frontier.bucket(n + 1).contains(path) implies {
        &&& found.len() == 0
        &&& n + 1 < limit
        &&& is_open_path(track, root, range, path)
        &&& seen2.contains(path)
    } by {
        assert(seen.contains(path));
    }
    assert forall|path: Seq<Point>|
        found.len() == 0 && n + 1 < limit && is_open_path(track, root, range, path)
            && #[trigger] seen2.contains(path) implies frontier.bucket(n + 1).contains(path) by {
        assert(seen.contains(path));
    }
}

/// Before the first vector of a parent is tried, exactly the extensions of
/// the parents before it have been seen.
pub(crate) proof fn lemma_seen_start(parents: Seq<Seq<Point>>, k: int, vectors: Seq<Vector2>)
    ensures
        seen_in(parents, k, vectors, 0) == seen_through(parents, k),
{
    assert(seen_in(parents, k, vectors, 0) =~= seen_through(parents, k));
}

/// The extension by vector `i` has not been seen before vector `i` is tried.
pub(crate) proof fn lemma_seen_fresh(parents: Seq<Seq<Point>>, k: int, vectors: Seq<Vector2>, i: int)
    requires
        parents.no_duplicates(),
        vectors.no_duplicates(),
        0 <= k < parents.len(),
        0 <= i < vectors.len(),
        parents[k].len() >= 1,
        forall|j: int| 0 <= j < vectors.len() ==> parents[k].last().can_move(#[trigger] vectors[j]),
    ensures
        !seen_in(parents, k, vectors, i).contains(
            parents[k].push(parents[k].last().moved(vectors[i])),
        ),
{
    let parent = parents[k];
    let child = parent.push(parent.last().moved(vectors[i]));
    assert(child.drop_last() =~= parent);
    assert(child.last() == parent.last().moved(vectors[i]));
    if from_earlier(parents, k, child) {
        let j = choose|j: int| 0 <= j < k && j < parents.len() && #[trigger] parents[j] == child.drop_last();
        assert(parents[j] == parents[k]);
    }
    if by_earlier_vector(parent, vectors, i, child) {
        let j = choose|j: int|
            0 <= j < i && j < vectors.len() && child.last() == parent.last().moved(
                #[trigger] vectors[j],
            );
        assert(parent.last().can_move(vectors[j]));
        assert(parent.last().can_move(vectors[i]));
        assert(vectors[j] == vectors[i]);
    }
}

/// Trying vector `i` adds exactly the extension by it to what has been seen.
pub(crate) proof fn lemma_seen_step(parents: Seq<Seq<Point>>, k: int, vectors: Seq<Vector2>, i: int)
    requires
        0 <= k < parents.len(),
        0 <= i < vectors.len(),
        parents[k].len() >= 1,
    ensures
        seen_in(parents, k, vectors, i + 1) == seen_in(parents, k, vectors, i).insert(
            parents[k].push(parents[k].last().moved(vectors[i])),
        ),
{
    let parent = parents[k];
    let child = parent.push(parent.last().moved(vectors[i]));
    let before = seen_in(parents, k, vectors, i);
    let after = seen_in(parents, k, vectors, i + 1);
    assert(child.drop_last() =~= parent);
    assert(child.last() == parent.last().moved(vectors[i]));
    assert forall|path: Seq<Point>| after.contains(path) == before.insert(child).contains(path) by {
        if before.contains(path) {
            if by_earlier_vector(parent, vectors, i, path) {
                let j = choose|j: int|
                    0 <= j < i && j < vectors.len() && path.last() == parent.last().moved(
                        #[trigger] vectors[j],
                    );
                assert(0 <= j < i + 1);
            }
            assert(after.contains(path));
        }
        if path == child {
            assert(by_earlier_vector(parent, vectors, i + 1, child));
            assert(after.contains(path));
        }
        if after.contains(path) && !before.contains(path) {
            assert(by_earlier_vector(parent, vectors, i + 1, path));
            let j = choose|j: int|
                0 <= j < i + 1 && j < vectors.len() && path.last() == parent.last().moved(
                    #[trigger] vectors[j],
                );
            if j < i {
                assert(by_earlier_vector(parent, vectors, i, path));
            }
            assert(j == i);
            assert(path =~= path.drop_last().push(path.last()));
        }
    }
    assert(after =~= before.insert(child));
}

/// When every candidate vector of a parent has been tried, every open or
/// finishing extension of that parent has been seen.
pub(crate) proof fn lemma_seen_end(
    track: &Boundaries,
    root: Point,
    range: int,
    parents: Seq<Seq<Point>>,
    k: int,
    vectors: Seq<Vector2>,
)
    requires
        0 <= k < parents.len(),
        parents[k].len() >= 1,
        forall|v: Vector2| vectors.contains(v) <==> is_candidate(parents[k], v, range),
    ensures
        forall|path: Seq<Point>|
            #![trigger seen_through(parents, k + 1).contains(path)]
            #![trigger seen_in(parents, k, vectors, vectors.len() as int).contains(path)]
            is_open_path(track, root, range, path) || is_finishing_path(track, root, range, path)
                ==> seen_in(parents, k, vectors, vectors.len() as int).contains(path)
                == seen_through(parents, k + 1).contains(path),
{
    let parent = parents[k];
    let all = vectors.len() as int;
    assert forall|path: Seq<Point>|
        is_open_path(track, root, range, path) || is_finishing_path(
            track,
            root,
            range,
            path,
        ) implies seen_in(parents, k, vectors, all).contains(path) == seen_through(
        parents,
        k + 1,
    ).contains(path) by {
        if seen_in(parents, k, vectors, all).contains(path) {
            if from_earlier(parents, k, path) {
                let j = choose|j: int|
                    0 <= j < k && j < parents.len() && #[trigger] parents[j] == path.drop_last();
                assert(0 <= j < k + 1);
            } else {
                assert(parents[k] == path.drop_last());
            }
            assert(from_earlier(parents, k + 1, path));
        }
        if seen_through(parents, k + 1).contains(path) {
            let j = choose|j: int|
                0 <= j < k + 1 && j < parents.len() && #[trigger] parents[j] == path.drop_last();
            if j < k {
                assert(from_earlier(parents, k, path));
            } else {
                lemma_parent_is_open(track, root, range, path);
                let v = Vector2 {
                    x: (path.last().x - parent.last().x) as Coord,
                    y: (path.last().y - parent.last().y) as Coord,
                };
                assert(parent.last().moved(v) == path.last());
                assert(is_candidate(parent, v, range));
                assert(vectors.contains(v));
                let at = choose|at: int| 0 <= at < vectors.len() && vectors[at] == v;
                assert(path.last() == parent.last().moved(vectors[at]));
                assert(by_earlier_vector(parent, vectors, all, path));
            }
        }
    }
}

/// The search begins between the lengths 0 and 1, with the root's own path
/// waiting unless the limit forbids even that.
pub(crate) proof fn lemma_search_start(track: &Boundaries, root: Point, range: int, limit: nat)
    requires
        limit <= usize::MAX,
    ensures
        outer_inv(
            track,
            root,
            range,
            limit,
            1,
            Seq::empty(),
            (Frontier { watermark: usize::MAX as nat, buckets: Map::empty() }).tightened(
                limit,
            ).pushed(seq![root]),
        ),
{
    let empty = Frontier { watermark: usize::MAX as nat, buckets: Map::empty() };
    let tight = empty.tightened(limit);
    let frontier = tight.pushed(seq![root]);
    let found = Seq::<Seq<Point>>::empty();
    assert(tight.watermark == limit);
    assert(tight.buckets =~= Map::empty());
    assert(frontier.watermark == limit);
    assert forall|m: nat| m != 1 implies !frontier.buckets.dom().contains(m) by {}
    if 1 < limit {
        assert(tight.bucket(1) =~= Seq::<Seq<Point>>::empty());
        assert(frontier.bucket(1) =~= seq![seq![root]]);
    } else {
        assert(frontier.bucket(1) =~= Seq::<Seq<Point>>::empty());
    }
    assert forall|path: Seq<Point>| #[trigger] frontier.bucket(1).contains(path) implies {
        &&& 1 < limit
        &&& is_open_path(track, root, range, path)
        &&& path.len() == 1
    } by {
        lemma_root_path(track, root, range, path);
    }
    assert forall|path: Seq<Point>|
        1 < limit && #[trigger] is_open_path(track, root, range, path) && path.len()
            == 1 implies frontier.bucket(1).contains(path) by {
        lemma_root_path(track, root, range, path);
        assert(frontier.bucket(1)[0] == path);
    }
}

/// Taking the lowest bucket out of the frontier begins a level.
pub(crate) proof fn lemma_level_start(
    track: &Boundaries,
    root: Point,
    range: int,
    limit: nat,
    n: nat,
    found: Seq<Seq<Point>>,
    frontier: Frontier,
    m: nat,
)
    requires
        outer_inv(track, root, range, limit, n, found, frontier),
        frontier.is_lowest(m),
        frontier.buckets[m].len() > 0,
    ensures
        m == n,
        found.len() == 0,
        is_level(track, root, range, frontier.buckets[m], n),
        level_inv(
            track,
            root,
            range,
            limit,
            n,
            seen_through(frontier.buckets[m], 0),
            found,
            frontier.without(m),
        ),
{
    let parents = frontier.buckets[m];
    let rest = frontier.without(m);
    assert(frontier.buckets.dom().contains(m));
    assert(!frontier.is_empty());
    assert(m == n);
    assert(frontier.bucket(n) == parents);
    assert(parents.contains(parents[0]));
    assert forall|j: int| 0 <= j < parents.len() implies is_open_path(
        track,
        root,
        range,
        #[trigger] parents[j],
    ) && parents[j].len() == n by {
        assert(parents.contains(parents[j]));
    }
    assert forall|at: nat| !rest.buckets.dom().contains(at) by {}
    assert(rest.bucket(n + 1) =~= Seq::<Seq<Point>>::empty());
}

/// When every parent of a level has been extended, the search stands between
/// this length and the next.
pub(crate) proof fn lemma_level_end(
    track: &Boundaries,
    root: Point,
    range: int,
    limit: nat,
    n: nat,
    parents: Seq<Seq<Point>>,
    found: Seq<Seq<Point>>,
    frontier: Frontier,
)
    requires
        is_level(track, root, range, parents, n),
        level_inv(
            track,
            root,
            range,
            limit,
            n,
            seen_through(parents, parents.len() as int),
            found,
            frontier,
        ),
        frontier.well_formed(),
        forall|path: Seq<Point>| #[trigger]
            is_finishing_path(track, root, range, path) ==> path.len() > n,
    ensures
        outer_inv(track, root, range, limit, n + 1, found, frontier),
{
    let seen = seen_through(parents, parents.len() as int);
    assert forall|path: Seq<Point>| seen.contains(path) implies path.len() == n + 1 by {
        let j = choose|j: int|
            0 <= j < parents.len() && j < parents.len() && #[trigger] parents[j]
                == path.drop_last();
        assert(parents[j].len() == n);
    }
    assert forall|path: Seq<Point>|
        path.len() == n + 1 && (is_open_path(track, root, range, path) || is_finishing_path(
            track,
            root,
            range,
            path,
        )) implies seen.contains(path) by {
        lemma_parent_is_open(track, root, range, path);
        let parent = path.drop_last();
        assert(parents.contains(parent));
        let j = choose|j: int| 0 <= j < parents.len() && parents[j] == parent;
        assert(parents[j] == path.drop_last());
        assert(from_earlier(parents, parents.len() as int, path));
    }
    assert forall|path: Seq<Point>| #[trigger]
        found.contains(path) implies is_finishing_path(track, root, range, path) && path.len() == n
        + 1 by {
        assert(seen.contains(path));
    }
    assert forall|path: Seq<Point>| #[trigger]
        is_finishing_path(track, root, range, path) && path.len() == n + 1 implies found.contains(
        path,
    ) by {
        assert(seen.contains(path));
    }
    if found.len() > 0 {
        assert forall|m: nat| !frontier.buckets.dom().contains(m) by {
            if frontier.buckets.dom().contains(m) {
                assert(m == n + 1);
                let first = frontier.buckets[m][0];
                assert(frontier.bucket(n + 1).contains(first));
            }
        }
    } else {
        assert forall|path: Seq<Point>| #[trigger]
            frontier.bucket(n + 1).contains(path) implies {
            &&& n + 1 < limit
            &&& is_open_path(track, root, range, path)
            &&& path.len() == n + 1
        } by {
            assert(seen.contains(path));
        }
        assert forall|path: Seq<Point>|
            n + 1 < limit && #[trigger] is_open_path(track, root, range, path) && path.len() == n
                + 1 implies frontier.bucket(n + 1).contains(path) by {
            assert(seen.contains(path));
        }
    }
}

/// When nothing waits any more, what was found is what was asked for.
pub(crate) proof fn lemma_search_done(
    track: &Boundaries,
    root: Point,
    range: int,
    limit: nat,
    n: nat,
    found: Seq<Seq<Point>>,
    frontier: Frontier,
)
    requires
        outer_inv(track, root, range, limit, n, found, frontier),
        frontier.is_empty(),
    ensures
        forall|path: Seq<Point>|
            found.contains(path) <==> is_shortest_finishing_path(track, root, range, limit, path),
{
    assert forall|path: Seq<Point>|
        found.contains(path) <==> is_shortest_finishing_path(
            track,
            root,
            range,
            limit,
            path,
        ) by {
        if found.len() > 0 {
            let first = found[0];
            assert(found.contains(first));
            if is_shortest_finishing_path(track, root, range, limit, path) {
                assert(is_finishing_path(track, root, range, first));
                assert(path.len() <= first.len());
            }
        } else {
            if is_shortest_finishing_path(track, root, range, limit, path) {
                assert(path.len() >= n);
                if path.len() == n {
                    assert(found.contains(path));
                } else {
                    assert(frontier.bucket(n) =~= Seq::<Seq<Point>>::empty());
                    assert forall|open: Seq<Point>| #[trigger]
                        is_open_path(track, root, range, open) implies open.len() != n by {
                        if open.len() == n {
                            assert(frontier.bucket(n).contains(open));
                        }
                    }
                    lemma_dead_end(track, root, range, n as int, path);
                }
            }
        }
    }
}

} // verus!
