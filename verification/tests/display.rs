use vector_track::display::{display_move, display_moves, CELL_SIZE};
use vector_track::geometry::{Point, Segment};

fn pt(x: i16, y: i16) -> Point {
    Point { x, y }
}

fn seg(x1: i16, y1: i16, x2: i16, y2: i16) -> Segment {
    Segment::from_pair(pt(x1, y1), pt(x2, y2))
}

#[test]
fn a_cell_is_twenty_units_wide() {
    assert_eq!(CELL_SIZE, 20);
}

#[test]
fn a_move_is_scaled_at_both_ends() {
    assert_eq!(display_move(pt(6, 30), pt(6, 25), 20), Some(seg(120, 600, 120, 500)));
    assert_eq!(display_move(pt(-1, 2), pt(3, -4), 10), Some(seg(-10, 20, 30, -40)));
    assert_eq!(display_move(pt(5, 5), pt(5, 5), 7), Some(seg(35, 35, 35, 35)));
    assert_eq!(display_move(pt(5, 5), pt(9, 1), 0), Some(seg(0, 0, 0, 0)));
    assert_eq!(display_move(pt(1, 1), pt(2, 3), -1), Some(seg(-1, -1, -2, -3)));
}

#[test]
fn a_move_that_leaves_the_range_when_scaled_is_not_drawn() {
    // the end leaves the range
    assert_eq!(display_move(pt(0, 0), pt(1639, 0), 20), None);
    assert_eq!(display_move(pt(0, 0), pt(1638, 0), 20), Some(seg(0, 0, 32760, 0)));
    // the start leaves the range
    assert_eq!(display_move(pt(0, -1639), pt(0, 0), 20), None);
    assert_eq!(display_move(pt(0, -1638), pt(0, 0), 20), Some(seg(0, -32760, 0, 0)));
    // both ends fit, the scaled displacement does not
    assert_eq!(display_move(pt(-1000, 0), pt(1000, 0), 20), None);
    // the displacement itself is more than a vector holds
    assert_eq!(display_move(pt(-20000, 0), pt(20000, 0), 1), None);
    assert_eq!(display_move(pt(-20000, 0), pt(12767, 0), 1), Some(seg(-20000, 0, 12767, 0)));
    assert_eq!(display_move(pt(-20000, 0), pt(12768, 0), 1), None);
}

#[test]
fn the_first_stroke_leads_from_the_root_to_the_first_point() {
    let path = vec![pt(1, 1), pt(2, 1), pt(4, 2)];
    assert_eq!(
        display_moves(pt(1, 1), &path, 20),
        Some(vec![seg(20, 20, 20, 20), seg(20, 20, 40, 20), seg(40, 20, 80, 40)])
    );
    assert_eq!(
        display_moves(pt(0, 0), &path, 2),
        Some(vec![seg(0, 0, 2, 2), seg(2, 2, 4, 2), seg(4, 2, 8, 4)])
    );
    assert_eq!(display_moves(pt(3, 3), &vec![], 20), Some(vec![]));
}

#[test]
fn a_path_with_one_move_that_cannot_be_drawn_is_not_drawn() {
    let path = vec![pt(1, 1), pt(2, 1), pt(1700, 2), pt(3, 3)];
    assert_eq!(display_moves(pt(1, 1), &path, 20), None);
    assert!(display_moves(pt(1, 1), &path, 19).is_some());
    assert_eq!(display_moves(pt(1700, 1), &vec![pt(1, 1)], 20), None);
}
