//! A partial path: the points visited so far, oldest first.

use crate::geometry::{is_coord, Coord, Point, Vector2};
use crate::list::{List, ListIter};
use vstd::prelude::*;

verus! {

/// A path under construction. A step is never changed: extending it gives a
/// new step that shares the history of the old one.
#[derive(Debug)]
pub struct Step {
    length: usize,
    points: List<Point>,
    /// The last point, kept at hand.
    position: Point,
    /// The last move, kept at hand.
    vector: Option<Vector2>,
}

impl View for Step {
    type V = Seq<Point>;

    /// The points of the path, from the root to the current position.
    closed spec fn view(&self) -> Seq<Point> {
        self.points@.reverse()
    }
}

/// The displacement of the last move of `path`, or `None` for a path with no
/// move or with a last move that no [`Vector2`] holds.
pub open spec fn last_move(path: Seq<Point>) -> Option<Vector2> {
    let n = path.len() as int;
    if n >= 2 && is_coord(path[n - 1].x - path[n - 2].x) && is_coord(path[n - 1].y - path[n - 2].y) {
        Some(
            Vector2 {
                x: (path[n - 1].x - path[n - 2].x) as Coord,
                y: (path[n - 1].y - path[n - 2].y) as Coord,
            },
        )
    } else {
        None
    }
}

impl Clone for Step {
    fn clone(&self) -> (step: Self)
        ensures
            step@ == self@,
    {
        proof {
            use_type_invariant(self);
        }
        Step {
            length: self.length,
            points: self.points.clone(),
            position: self.position,
            vector: self.vector,
        }
    }
}

impl Step {
    /// The stored length is the number of points, which is at least one; the
    /// stored position is the last point; the stored vector is the last move.
    #[verifier::type_invariant]
    pub closed spec fn well_formed(&self) -> bool {
        &&& self.length == self.points@.len()
        &&& self.length >= 1
        &&& self.position == self@.last()
        &&& self.vector == last_move(self@)
        &&& self.length >= 2 ==> self.vector.is_some()
    }

    /// The path extended by the point that `vector` leads to from its end.
    #[must_use]
    pub fn with_vector(&self, vector: Vector2) -> (next: Self)
        requires
            self@.len() < usize::MAX,
            self@.last().can_move(vector),
        ensures
            next@ == self@.push(self@.last().moved(vector)),
    {
        proof {
            use_type_invariant(self);
        }
        let target = self.position + vector;
        let points = self.points.push(target);
        proof {
            lemma_reverse_of_cons(self.points@, target);
        }
        Step { length: self.length + 1, points, position: target, vector: Some(vector) }
    }

    /// The path that consists of `pt` alone.
    pub fn from_point(pt: Point) -> (step: Self)
        ensures
            step@ == seq![pt],
    {
        let points = List::new().push(pt);
        proof {
            assert(seq![pt] + Seq::<Point>::empty() =~= seq![pt]);
            assert(seq![pt].reverse() =~= seq![pt]);
        }
        Step { points, length: 1, position: pt, vector: None }
    }

    /// The displacement of the last move, or `None` for a path with no move.
    pub fn last_vector(&self) -> (vector: Option<Vector2>)
        ensures
            vector == last_move(self@),
            vector.is_some() == (self@.len() >= 2),
    {
        proof {
            use_type_invariant(self);
        }
        self.vector
    }

    /// The number of points on the path; at least one.
    pub fn len(&self) -> (n: usize)
        ensures
            n == self@.len(),
            n >= 1,
    {
        proof {
            use_type_invariant(self);
        }
        self.length
    }

    /// The points from the current position back to the root.
    pub fn points(&self) -> (iter: ListIter<'_, Point>)
        ensures
            iter@ == self@.reverse(),
    {
        proof {
            lemma_reverse_twice(self.points@);
        }
        self.points.iter()
    }

    /// The points of the path, from the root to the current position.
    pub fn into_points(self) -> (path: Vec<Point>)
        ensures
            path@ == self@,
    {
        let mut pts = self.points.iter().collect();
        // the list holds the newest point first
        reverse_in_place(&mut pts);
        pts
    }

    /// The current position: the last point of the path.
    pub fn position(&self) -> (position: Point)
        ensures
            self@.len() >= 1,
            position == self@.last(),
    {
        proof {
            use_type_invariant(self);
        }
        self.position
    }
}

/// Reverses the order of the elements of `v`.
fn reverse_in_place(v: &mut Vec<Point>)
    ensures
        final(v)@ == old(v)@.reverse(),
{
    let n = v.len();
    let mut i: usize = 0;
    while i < n / 2
        invariant
            n == v.len(),
            n == old(v)@.len(),
            0 <= i <= n / 2,
            forall|k: int| 0 <= k < i ==> v@[k] == old(v)@[n - 1 - k],
            forall|k: int| n - i <= k < n ==> v@[k] == old(v)@[n - 1 - k],
            forall|k: int| i <= k < n - i ==> v@[k] == old(v)@[k],
        decreases n / 2 - i,
    {
        let a = v[i];
        let b = v[n - 1 - i];
        v.set(i, b);
        v.set(n - 1 - i, a);
        i += 1;
    }
    assert(v@ =~= old(v)@.reverse());
}

/// Putting an element in front of a sequence puts it at the end of the
/// reversed sequence.
proof fn lemma_reverse_of_cons(s: Seq<Point>, p: Point)
    ensures
        (seq![p] + s).reverse() == s.reverse().push(p),
{
    assert((seq![p] + s).reverse() =~= s.reverse().push(p));
}

/// Reversing twice gives the sequence back.
proof fn lemma_reverse_twice(s: Seq<Point>)
    ensures
        s.reverse().reverse() == s,
{
    assert(s.reverse().reverse() =~= s);
}

} // verus!
