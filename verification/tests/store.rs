use vector_track::geometry::{Point, Vector2};
use vector_track::step::Step;
use vector_track::store::StepStore;

fn pt(x: i16, y: i16) -> Point {
    Point { x, y }
}

/// A step of `length` points that starts at `(tag, 0)` and goes up.
fn step(length: usize, tag: i16) -> Step {
    let mut step = Step::from_point(pt(tag, 0));
    for _ in 1..length {
        step = step.with_vector(Vector2 { x: 0, y: 1 });
    }
    step
}

/// The lengths and tags of the steps of a popped bucket.
fn tags(bucket: Option<Vec<Step>>) -> Option<Vec<(usize, i16)>> {
    bucket.map(|steps| steps.iter().map(|s| (s.len(), s.clone().into_points()[0].x)).collect())
}

#[test]
fn a_new_store_is_empty_and_has_no_known_finish() {
    let mut store = StepStore::new();
    assert_eq!(store.min_distance(), usize::MAX);
    assert!(store.pop().is_none());
    assert!(store.pop().is_none());
    assert_eq!(store.min_distance(), usize::MAX);
}

#[test]
fn pop_hands_out_the_shortest_steps_first_and_all_of_one_length_at_once() {
    let mut store = StepStore::new();
    store.push(step(3, 1));
    store.push(step(1, 2));
    store.push(step(3, 3));
    store.push(step(2, 4));
    store.push(step(1, 5));
    assert_eq!(tags(store.pop()), Some(vec![(1, 2), (1, 5)]));
    assert_eq!(tags(store.pop()), Some(vec![(2, 4)]));
    store.push(step(1, 6));
    assert_eq!(tags(store.pop()), Some(vec![(1, 6)]));
    assert_eq!(tags(store.pop()), Some(vec![(3, 1), (3, 3)]));
    assert_eq!(tags(store.pop()), None);
}

#[test]
fn a_gap_between_lengths_is_skipped() {
    let mut store = StepStore::new();
    store.push(step(5, 1));
    store.push(step(2, 2));
    assert_eq!(tags(store.pop()), Some(vec![(2, 2)]));
    assert_eq!(tags(store.pop()), Some(vec![(5, 1)]));
    assert_eq!(tags(store.pop()), None);
}

#[test]
fn tightening_drops_what_cannot_beat_the_finish() {
    let mut store = StepStore::new();
    store.push(step(2, 1));
    store.push(step(3, 2));
    store.push(step(4, 3));
    store.push(step(5, 4));
    store.apply_final_distance(4);
    assert_eq!(store.min_distance(), 4);
    assert_eq!(tags(store.pop()), Some(vec![(2, 1)]));
    assert_eq!(tags(store.pop()), Some(vec![(3, 2)]));
    assert_eq!(tags(store.pop()), None);
}

#[test]
fn a_step_at_or_above_the_watermark_is_turned_away() {
    let mut store = StepStore::new();
    store.apply_final_distance(3);
    store.push(step(3, 1));
    store.push(step(4, 2));
    store.push(step(2, 3));
    store.push(step(7, 4));
    assert_eq!(tags(store.pop()), Some(vec![(2, 3)]));
    assert_eq!(tags(store.pop()), None);
    assert_eq!(store.min_distance(), 3);
}

#[test]
fn the_watermark_never_rises() {
    let mut store = StepStore::new();
    let mut last = store.min_distance();
    for distance in [9usize, 12, 9, 7, 30, 7, 1, 5, 0, 3] {
        store.push(step(distance + 1, 0));
        assert_eq!(store.min_distance(), last);
        store.apply_final_distance(distance);
        assert!(store.min_distance() <= last);
        assert_eq!(store.min_distance(), last.min(distance));
        last = store.min_distance();
        store.push(step(2, 0));
        assert_eq!(store.min_distance(), last);
        store.pop();
        assert_eq!(store.min_distance(), last);
    }
    assert_eq!(store.min_distance(), 0);
}

#[test]
fn a_watermark_of_zero_or_one_lets_nothing_in() {
    let mut store = StepStore::new();
    store.apply_final_distance(1);
    store.push(step(1, 1));
    assert!(store.pop().is_none());
    store.apply_final_distance(0);
    store.push(step(1, 1));
    assert!(store.pop().is_none());
    // a later, longer finish changes nothing
    store.apply_final_distance(100);
    assert_eq!(store.min_distance(), 0);
    store.push(step(1, 1));
    assert!(store.pop().is_none());
}

#[test]
fn tightening_above_every_bucket_keeps_them_all() {
    let mut store = StepStore::new();
    store.push(step(1, 1));
    store.push(step(2, 2));
    store.apply_final_distance(3);
    assert_eq!(tags(store.pop()), Some(vec![(1, 1)]));
    assert_eq!(tags(store.pop()), Some(vec![(2, 2)]));
    assert_eq!(tags(store.pop()), None);
}
