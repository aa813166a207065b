use vector_track::geometry::{Point, Vector2};
use vector_track::step::Step;

fn pt(x: i16, y: i16) -> Point {
    Point { x, y }
}

fn v(x: i16, y: i16) -> Vector2 {
    Vector2 { x, y }
}

#[test]
fn a_step_from_a_point_is_the_root_alone() {
    let step = Step::from_point(pt(6, 30));
    assert_eq!(step.len(), 1);
    assert_eq!(step.position(), pt(6, 30));
    assert_eq!(step.last_vector(), None);
    assert_eq!(step.into_points(), vec![pt(6, 30)]);
}

#[test]
fn with_vector_appends_the_point_it_leads_to() {
    let root = Step::from_point(pt(6, 30));
    let one = root.with_vector(v(0, -5));
    assert_eq!(one.len(), 2);
    assert_eq!(one.position(), pt(6, 25));
    assert_eq!(one.last_vector(), Some(v(0, -5)));
    let two = one.with_vector(v(1, -4));
    assert_eq!(two.len(), 3);
    assert_eq!(two.position(), pt(7, 21));
    assert_eq!(two.last_vector(), Some(v(1, -4)));
    assert_eq!(two.into_points(), vec![pt(6, 30), pt(6, 25), pt(7, 21)]);
}

#[test]
fn extending_a_step_leaves_it_as_it_was() {
    let root = Step::from_point(pt(0, 0));
    let one = root.with_vector(v(1, 1));
    let left = one.with_vector(v(0, 1));
    let right = one.with_vector(v(2, 1));
    assert_eq!(root.len(), 1);
    assert_eq!(one.len(), 2);
    assert_eq!(one.position(), pt(1, 1));
    assert_eq!(one.clone().into_points(), vec![pt(0, 0), pt(1, 1)]);
    assert_eq!(left.into_points(), vec![pt(0, 0), pt(1, 1), pt(1, 2)]);
    assert_eq!(right.into_points(), vec![pt(0, 0), pt(1, 1), pt(3, 2)]);
    assert_eq!(one.into_points(), vec![pt(0, 0), pt(1, 1)]);
    assert_eq!(root.into_points(), vec![pt(0, 0)]);
}

#[test]
fn points_run_from_the_position_back_to_the_root() {
    let step = Step::from_point(pt(1, 1)).with_vector(v(1, 0)).with_vector(v(2, 1));
    let mut points = step.points();
    assert_eq!(points.next(), Some(pt(4, 2)));
    assert_eq!(points.next(), Some(pt(2, 1)));
    assert_eq!(points.next(), Some(pt(1, 1)));
    assert_eq!(points.next(), None);
    assert_eq!(step.points().collect(), vec![pt(4, 2), pt(2, 1), pt(1, 1)]);
}

#[test]
fn into_points_of_even_and_odd_lengths() {
    let mut step = Step::from_point(pt(0, 0));
    let mut expected = vec![pt(0, 0)];
    for i in 1..=7i16 {
        step = step.with_vector(v(i, -i));
        let last = *expected.last().unwrap();
        expected.push(pt(last.x + i, last.y - i));
        assert_eq!(step.len(), expected.len());
        assert_eq!(step.clone().into_points(), expected);
    }
}

#[test]
fn a_step_may_reach_the_corners_of_the_grid() {
    let step = Step::from_point(pt(-1, 0)).with_vector(v(-32767, 32767));
    assert_eq!(step.position(), pt(-32768, 32767));
    assert_eq!(step.last_vector(), Some(v(-32767, 32767)));
    let back = step.with_vector(v(32767, -32768));
    assert_eq!(back.position(), pt(-1, -1));
    assert_eq!(back.last_vector(), Some(v(32767, -32768)));
}
