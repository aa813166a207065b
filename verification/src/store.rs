//! The frontier of the search: partial paths bucketed by their length, with
//! the length of the best finish known so far as a watermark.

use crate::geometry::Point;
use crate::step::Step;
use vstd::prelude::*;

verus! {

/// What a frontier holds, as plain values: the watermark, and for each length
/// that has paths waiting, those paths in the order in which they came.
pub struct Frontier {
    pub watermark: nat,
    pub buckets: Map<nat, Seq<Seq<Point>>>,
}

impl Frontier {
    /// The paths of `length` points that wait, none where there is no bucket.
    pub open spec fn bucket(self, length: nat) -> Seq<Seq<Point>> {
        if self.buckets.dom().contains(length) {
            self.buckets[length]
        } else {
            Seq::empty()
        }
    }

    /// Nothing waits.
    pub open spec fn is_empty(self) -> bool {
        forall|length: nat| !self.buckets.dom().contains(length)
    }

    /// `length` has paths waiting and no smaller length has.
    pub open spec fn is_lowest(self, length: nat) -> bool {
        &&& self.buckets.dom().contains(length)
        &&& forall|smaller: nat| smaller < length ==> !self.buckets.dom().contains(smaller)
    }

    /// Every bucket holds at least one path, holds only paths of its own
    /// length, and lies below the watermark.
    pub open spec fn well_formed(self) -> bool {
        forall|length: nat| #[trigger]
            self.buckets.dom().contains(length) ==> {
                &&& length < self.watermark
                &&& self.buckets[length].len() > 0
                &&& forall|k: int|
                    0 <= k < self.buckets[length].len() ==> (#[trigger] self.buckets[length][k]).len()
                        == length
            }
    }

    /// The frontier after `path` was offered: unchanged where `path` has
    /// reached the watermark, else with `path` at the end of its bucket.
    pub open spec fn pushed(self, path: Seq<Point>) -> Frontier {
        if path.len() >= self.watermark {
            self
        } else {
            Frontier {
                watermark: self.watermark,
                buckets: self.buckets.insert(path.len(), self.bucket(path.len()).push(path)),
            }
        }
    }

    /// The frontier after a finish of `length` points became known: the
    /// watermark is the smaller of the two, and every bucket at or above it
    /// is gone.
    pub open spec fn tightened(self, length: nat) -> Frontier {
        let watermark = if length < self.watermark {
            length
        } else {
            self.watermark
        };
        Frontier {
            watermark,
            buckets: self.buckets.restrict(Set::new(|at: nat| at < watermark)),
        }
    }

    /// The frontier without the bucket of `length`.
    pub open spec fn without(self, length: nat) -> Frontier {
        Frontier { watermark: self.watermark, buckets: self.buckets.remove(length) }
    }
}

/// The watermark never rises: offering a path and taking a bucket out leave
/// it as it is, and a finish can only lower it.
pub proof fn lemma_watermark_never_rises(frontier: Frontier, path: Seq<Point>, length: nat)
    ensures
        frontier.pushed(path).watermark == frontier.watermark,
        frontier.without(length).watermark == frontier.watermark,
        frontier.tightened(length).watermark <= frontier.watermark,
        frontier.tightened(length).watermark <= length,
{
}

/// Nothing at or above the watermark is ever let in or kept: a well-formed
/// frontier stays well-formed when a path is offered, when a finish becomes
/// known, and when a bucket is taken out.
pub proof fn lemma_frontier_stays_well_formed(frontier: Frontier, path: Seq<Point>, length: nat)
    requires
        frontier.well_formed(),
    ensures
        frontier.pushed(path).well_formed(),
        frontier.tightened(length).well_formed(),
        frontier.without(length).well_formed(),
{
    let pushed = frontier.pushed(path);
    if path.len() < frontier.watermark {
        assert forall|at: nat| #[trigger] pushed.buckets.dom().contains(at) implies {
            &&& at < pushed.watermark
            &&& pushed.buckets[at].len() > 0
            &&& forall|k: int|
                0 <= k < pushed.buckets[at].len() ==> (#[trigger] pushed.buckets[at][k]).len() == at
        } by {
            if at != path.len() {
                assert(frontier.buckets.dom().contains(at));
            } else if frontier.buckets.dom().contains(at) {
                assert(frontier.buckets[at].len() > 0);
            }
        }
    }
    let tight = frontier.tightened(length);
    assert forall|at: nat| #[trigger] tight.buckets.dom().contains(at) implies {
        &&& at < tight.watermark
        &&& tight.buckets[at].len() > 0
        &&& forall|k: int|
            0 <= k < tight.buckets[at].len() ==> (#[trigger] tight.buckets[at][k]).len() == at
    } by {
        assert(frontier.buckets.dom().contains(at));
    }
    let rest = frontier.without(length);
    assert forall|at: nat| #[trigger] rest.buckets.dom().contains(at) implies {
        &&& at < rest.watermark
        &&& rest.buckets[at].len() > 0
        &&& forall|k: int|
            0 <= k < rest.buckets[at].len() ==> (#[trigger] rest.buckets[at][k]).len() == at
    } by {
        assert(frontier.buckets.dom().contains(at));
    }
}

/// The paths of a sequence of steps.
pub open spec fn paths_of(steps: Seq<Step>) -> Seq<Seq<Point>> {
    Seq::new(steps.len(), |k: int| steps[k]@)
}

/// The frontier store: bucket `n` holds the steps of length `n`.
pub struct StepStore {
    min_distance: usize,
    steps: Vec<Vec<Step>>,
}

impl View for StepStore {
    type V = Frontier;

    closed spec fn view(&self) -> Frontier {
        Frontier {
            watermark: self.min_distance as nat,
            buckets: Map::new(
                |length: nat| length < self.steps@.len() && self.steps@[length as int]@.len() > 0,
                |length: nat| paths_of(self.steps@[length as int]@),
            ),
        }
    }
}

/// Whether bucket `n` of `steps` holds only steps of length `n`, for every `n`.
spec fn sorted_by_length(steps: Seq<Vec<Step>>) -> bool {
    forall|n: int, k: int|
        0 <= n < steps.len() && 0 <= k < steps[n]@.len() ==> (#[trigger] steps[n]@[k])@.len() == n
}

impl StepStore {
    /// No bucket exists at or above the watermark, and each step lies in the
    /// bucket of its length.
    #[verifier::type_invariant]
    pub closed spec fn well_formed(&self) -> bool {
        &&& self.steps@.len() <= self.min_distance
        &&& sorted_by_length(self.steps@)
    }

    /// What the type guarantees of every store's contents.
    pub proof fn lemma_view_well_formed(&self)
        requires
            self.well_formed(),
        ensures
            self@.well_formed(),
            self@.watermark <= usize::MAX,
    {
        let view = self@;
        assert forall|length: nat| #[trigger] view.buckets.dom().contains(length) implies {
            &&& length < view.watermark
            &&& view.buckets[length].len() > 0
            &&& forall|k: int|
                0 <= k < view.buckets[length].len() ==> (#[trigger] view.buckets[length][k]).len()
                    == length
        } by {
            let bucket = self.steps@[length as int]@;
            assert forall|k: int| 0 <= k < view.buckets[length].len() implies (
            #[trigger] view.buckets[length][k]).len() == length by {
                assert(bucket[k]@.len() == length);
            }
        }
    }

    /// An empty store without a known finish: the watermark is as high as it
    /// can be.
    pub fn new() -> (store: StepStore)
        ensures
            store@ == (Frontier { watermark: usize::MAX as nat, buckets: Map::empty() }),
    {
        let store = StepStore { min_distance: usize::MAX, steps: Vec::new() };
        assert(store@.buckets =~= Map::empty());
        store
    }

    /// The watermark: the length of the shortest finish that the store was
    /// told of.
    pub fn min_distance(&self) -> (watermark: usize)
        ensures
            watermark == self@.watermark,
    {
        self.min_distance
    }

    /// Tells the store of a finish of `distance` points: the watermark never
    /// rises, and what can no longer beat it is dropped.
    pub fn apply_final_distance(&mut self, distance: usize)
        ensures
            final(self)@ == old(self)@.tightened(distance as nat),
            final(self)@.watermark <= old(self)@.watermark,
    {
        proof {
            use_type_invariant(&*self);
        }
        let mut steps: Vec<Vec<Step>> = Vec::new();
        core::mem::swap(&mut steps, &mut self.steps);
        if distance < self.min_distance {
            self.min_distance = distance;
        }
        if self.min_distance < steps.len() {
            steps.truncate(self.min_distance);
        }
        self.steps = steps;
        assert(self@.buckets =~= old(self)@.tightened(distance as nat).buckets);
    }

    /// Offers `element` to the store. A step that has reached the watermark
    /// cannot beat the known finish and is dropped.
    pub fn push(&mut self, element: Step)
        ensures
            final(self)@ == old(self)@.pushed(element@),
            final(self)@.watermark == old(self)@.watermark,
    {
        proof {
            use_type_invariant(&*self);
        }
        let insert_len = element.len();
        if insert_len >= self.min_distance {
            // nothing this long can beat the known finish
            return ;
        }
        let mut steps: Vec<Vec<Step>> = Vec::new();
        core::mem::swap(&mut steps, &mut self.steps);
        while steps.len() <= insert_len
            invariant
                steps@.len() <= insert_len + 1 || steps@.len() == old(self).steps@.len(),
                insert_len < self.min_distance,
                old(self).steps@.len() <= steps@.len(),
                forall|n: int| 0 <= n < old(self).steps@.len() ==> steps@[n] == old(self).steps@[n],
                forall|n: int| old(self).steps@.len() <= n < steps@.len() ==> steps@[n]@.len() == 0,
            decreases insert_len + 1 - steps.len(),
        {
            steps.push(Vec::new());
        }
        let ghost padded = steps@;
        steps[insert_len].push(element);
        proof {
            assert(steps@.len() == padded.len());
            assert(steps@[insert_len as int]@ == padded[insert_len as int]@.push(element));
            assert forall|n: int, k: int|
                0 <= n < steps@.len() && 0 <= k < steps@[n]@.len() implies (
            #[trigger] steps@[n]@[k])@.len() == n by {
                if n == insert_len {
                    if k < padded[n]@.len() {
                        assert(steps@[n]@[k] == padded[n]@[k]);
                        assert(padded[n]@[k] == old(self).steps@[n]@[k]);
                    }
                } else {
                    assert(steps@[n] == padded[n]);
                    assert(padded[n]@[k] == old(self).steps@[n]@[k]);
                }
            }
        }
        self.steps = steps;
        proof {
            let before = old(self)@;
            let after = before.pushed(element@);
            assert forall|length: nat| self@.buckets.dom().contains(length)
                == after.buckets.dom().contains(length) by {}
            assert forall|length: nat| self@.buckets.dom().contains(length) implies
                self@.buckets[length] == after.buckets[length] by {
                if length == insert_len {
                    assert(self@.buckets[length] =~= before.bucket(length).push(element@));
                } else {
                    assert(self.steps@[length as int] == old(self).steps@[length as int]);
                }
            }
            assert(self@.buckets =~= after.buckets);
        }
    }

    /// Takes the waiting steps of the smallest length out of the store, all of
    /// them at once and in the order in which they came; `None` when nothing
    /// waits.
    pub fn pop(&mut self) -> (lowest: Option<Vec<Step>>)
        ensures
            final(self)@.watermark == old(self)@.watermark,
            match lowest {
                None => old(self)@.is_empty() && final(self)@ == old(self)@,
                Some(bucket) => {
                    &&& bucket@.len() > 0
                    &&& old(self)@.is_lowest(bucket@[0]@.len())
                    &&& paths_of(bucket@) == old(self)@.buckets[bucket@[0]@.len()]
                    &&& final(self)@ == old(self)@.without(bucket@[0]@.len())
                },
            },
    {
        proof {
            use_type_invariant(&*self);
        }
        let mut steps: Vec<Vec<Step>> = Vec::new();
        core::mem::swap(&mut steps, &mut self.steps);
        let mut i: usize = 0;
        while i < steps.len() && steps[i].len() == 0
            invariant
                steps@ == old(self).steps@,
                0 <= i <= steps@.len(),
                forall|n: int| 0 <= n < i ==> steps@[n]@.len() == 0,
            decreases steps@.len() - i,
        {
            i += 1;
        }
        if i == steps.len() {
            self.steps = steps;
            return None;
        }
        let mut bucket: Vec<Step> = Vec::new();
        core::mem::swap(&mut bucket, &mut steps[i]);
        proof {
            assert(bucket == old(self).steps@[i as int]);
            assert(bucket@[0]@.len() == i);
            assert forall|n: int, k: int|
                0 <= n < steps@.len() && 0 <= k < steps@[n]@.len() implies (
            #[trigger] steps@[n]@[k])@.len() == n by {
                assert(steps@[n] == old(self).steps@[n]);
            }
        }
        self.steps = steps;
        proof {
            let before = old(self)@;
            let after = before.without(i as nat);
            assert forall|length: nat| self@.buckets.dom().contains(length) implies
                self@.buckets[length] == after.buckets[length] by {
                assert(self.steps@[length as int] == old(self).steps@[length as int]);
            }
            assert(self@.buckets =~= after.buckets);
        }
        Some(bucket)
    }
}

} // verus!
