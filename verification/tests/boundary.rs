use vector_track::boundary::{Boundaries, BoundaryError, Crossing};
use vector_track::geometry::{Point, Segment};

fn pt(x: i16, y: i16) -> Point {
    Point { x, y }
}

fn seg(x1: i16, y1: i16, x2: i16, y2: i16) -> Segment {
    Segment::from_pair(pt(x1, y1), pt(x2, y2))
}

fn square() -> Vec<Point> {
    vec![pt(0, 0), pt(2, 0), pt(2, 2), pt(0, 2)]
}

#[test]
fn the_builtin_track_has_eighteen_edges_and_ends_with_the_finish() {
    let track = Boundaries::new();
    let edges = track.segments();
    assert_eq!(edges.len(), 18);
    assert_eq!(edges[0], seg(24, 30, 20, 29));
    assert_eq!(edges[1], seg(20, 29, 16, 23));
    assert_eq!(edges[6], seg(10, 31, 5, 31));
    assert_eq!(edges[16], seg(29, 26, 31, 30));
    assert_eq!(edges[17], seg(31, 30, 24, 30));
    assert_eq!(track.end(), seg(31, 30, 24, 30));
    for i in 0..18 {
        assert_eq!(edges[i].from, edges[(i + 17) % 18].to);
    }
}

#[test]
fn edges_connect_the_vertices_in_order_and_close_the_polygon() {
    let track = Boundaries::from_vertices(&square(), 2).unwrap();
    assert_eq!(
        track.segments(),
        &vec![seg(0, 2, 0, 0), seg(0, 0, 2, 0), seg(2, 0, 2, 2), seg(2, 2, 0, 2)]
    );
    assert_eq!(track.end(), seg(2, 0, 2, 2));
    let first = Boundaries::from_vertices(&square(), 0).unwrap();
    assert_eq!(first.end(), seg(0, 2, 0, 0));
}

#[test]
fn fewer_than_three_vertices_are_refused() {
    assert_eq!(Boundaries::from_vertices(&vec![], 0).err(), Some(BoundaryError::TooFewVertices));
    assert_eq!(
        Boundaries::from_vertices(&vec![pt(0, 0)], 0).err(),
        Some(BoundaryError::TooFewVertices)
    );
    assert_eq!(
        Boundaries::from_vertices(&vec![pt(0, 0), pt(1, 1)], 1).err(),
        Some(BoundaryError::TooFewVertices)
    );
    // too few vertices is reported before anything else
    assert_eq!(
        Boundaries::from_vertices(&vec![pt(0, 0), pt(0, 0)], 7).err(),
        Some(BoundaryError::TooFewVertices)
    );
    assert!(Boundaries::from_vertices(&vec![pt(0, 0), pt(1, 1), pt(2, 0)], 1).is_ok());
}

#[test]
fn a_finish_that_is_no_edge_is_refused() {
    assert_eq!(Boundaries::from_vertices(&square(), 4).err(), Some(BoundaryError::NoSuchEdge));
    assert_eq!(
        Boundaries::from_vertices(&square(), usize::MAX).err(),
        Some(BoundaryError::NoSuchEdge)
    );
    assert!(Boundaries::from_vertices(&square(), 3).is_ok());
    // reported before a repeated vertex
    assert_eq!(
        Boundaries::from_vertices(&vec![pt(0, 0), pt(0, 0), pt(1, 1)], 3).err(),
        Some(BoundaryError::NoSuchEdge)
    );
}

#[test]
fn a_repeated_vertex_is_refused() {
    assert_eq!(
        Boundaries::from_vertices(&vec![pt(0, 0), pt(2, 0), pt(2, 0), pt(0, 2)], 1).err(),
        Some(BoundaryError::DegenerateEdge)
    );
    // the last vertex and the first are neighbours too
    assert_eq!(
        Boundaries::from_vertices(&vec![pt(0, 0), pt(2, 0), pt(2, 2), pt(0, 0)], 1).err(),
        Some(BoundaryError::DegenerateEdge)
    );
    // the same point twice, but not in a row, is fine
    assert!(Boundaries::from_vertices(&vec![pt(0, 0), pt(2, 0), pt(0, 0), pt(0, 2)], 1).is_ok());
}

#[test]
fn a_move_that_touches_nothing_is_clear() {
    let track = Boundaries::from_vertices(&vec![pt(0, 0), pt(10, 0), pt(10, 10), pt(0, 10)], 2).unwrap();
    assert_eq!(track.classify(seg(5, 5, 6, 6)), Crossing::Clear);
    assert_eq!(track.classify(seg(1, 1, 9, 9)), Crossing::Clear);
    assert_eq!(track.classify(seg(5, 5, 5, 5)), Crossing::Clear);
    // outside the polygon, touching nothing
    assert_eq!(track.classify(seg(20, 20, 30, 30)), Crossing::Clear);
}

#[test]
fn a_move_into_a_wall_or_the_finish_is_told_apart() {
    // edges: left, bottom, right (finish), top
    let track = Boundaries::from_vertices(&vec![pt(0, 0), pt(10, 0), pt(10, 10), pt(0, 10)], 2).unwrap();
    assert_eq!(track.classify(seg(5, 5, 15, 5)), Crossing::Finish);
    assert_eq!(track.classify(seg(5, 5, 10, 5)), Crossing::Finish);
    assert_eq!(track.classify(seg(5, 5, -1, 5)), Crossing::Wall);
    assert_eq!(track.classify(seg(5, 5, 5, 0)), Crossing::Wall);
    assert_eq!(track.classify(seg(5, 5, 5, 12)), Crossing::Wall);
    // starting on an edge counts as touching it
    assert_eq!(track.classify(seg(0, 5, 1, 5)), Crossing::Wall);
    assert_eq!(track.classify(seg(10, 5, 9, 5)), Crossing::Finish);
    // running along an edge counts as touching it
    assert_eq!(track.classify(seg(2, 0, 4, 0)), Crossing::Wall);
    assert_eq!(track.classify(seg(10, 2, 10, 4)), Crossing::Finish);
}

#[test]
fn the_first_edge_in_the_order_of_the_track_decides() {
    let corners = vec![pt(0, 0), pt(10, 0), pt(10, 10), pt(0, 10)];
    // edges in order: left, bottom, right, top
    let right = Boundaries::from_vertices(&corners, 2).unwrap();
    // through the corner (10, 0): bottom comes before right
    assert_eq!(right.classify(seg(9, 1, 11, -1)), Crossing::Wall);
    // through the corner (10, 10): right comes before top
    assert_eq!(right.classify(seg(9, 9, 11, 11)), Crossing::Finish);
    // a long move through the left wall and the finish: left comes first
    assert_eq!(right.classify(seg(-5, 5, 15, 5)), Crossing::Wall);
    let left = Boundaries::from_vertices(&corners, 0).unwrap();
    assert_eq!(left.classify(seg(-5, 5, 15, 5)), Crossing::Finish);
    assert_eq!(left.classify(seg(1, 1, -1, -1)), Crossing::Finish);
    let top = Boundaries::from_vertices(&corners, 3).unwrap();
    assert_eq!(top.classify(seg(9, 9, 11, 11)), Crossing::Wall);
    assert_eq!(top.classify(seg(1, 9, -1, 11)), Crossing::Wall);
    assert_eq!(top.classify(seg(5, 9, 5, 11)), Crossing::Finish);
}

#[test]
fn an_edge_equal_to_the_finish_counts_as_the_finish() {
    // the polygon runs over the same edge twice, in the same direction
    let corners = vec![pt(0, 0), pt(4, 0), pt(0, 4), pt(0, 0), pt(4, 0), pt(4, 4)];
    let track = Boundaries::from_vertices(&corners, 4).unwrap();
    assert_eq!(track.segments()[1], track.segments()[4]);
    assert_eq!(track.classify(seg(2, -1, 2, 1)), Crossing::Finish);
    // its reverse is another edge
    let back = vec![pt(0, 0), pt(4, 0), pt(0, 0), pt(0, 4)];
    let spike = Boundaries::from_vertices(&back, 2).unwrap();
    assert_eq!(spike.classify(seg(2, -1, 2, 1)), Crossing::Wall);
    let spike = Boundaries::from_vertices(&back, 1).unwrap();
    assert_eq!(spike.classify(seg(2, -1, 2, 1)), Crossing::Finish);
}

#[test]
fn may_finish_tests_the_box_of_the_finish_edge() {
    let track = Boundaries::from_vertices(&vec![pt(0, 0), pt(10, 0), pt(10, 10), pt(0, 10)], 2).unwrap();
    assert!(track.may_finish(seg(5, 5, 10, 5)));
    assert!(track.may_finish(seg(9, 10, 11, 12)));
    assert!(!track.may_finish(seg(5, 5, 9, 5)));
    assert!(!track.may_finish(seg(11, 5, 12, 5)));
    assert!(!track.may_finish(seg(9, 11, 11, 12)));
}

#[test]
fn moves_on_the_builtin_track() {
    let track = Boundaries::new();
    assert_eq!(track.classify(seg(6, 30, 6, 25)), Crossing::Clear);
    assert_eq!(track.classify(seg(6, 30, 5, 30)), Crossing::Wall);
    assert_eq!(track.classify(seg(6, 30, 6, 31)), Crossing::Wall);
    assert_eq!(track.classify(seg(6, 30, 11, 30)), Crossing::Wall);
    assert_eq!(track.classify(seg(22, 25, 25, 30)), Crossing::Finish);
    assert_eq!(track.classify(seg(26, 28, 27, 31)), Crossing::Finish);
    // through the corner (24, 30), where the first edge starts
    assert_eq!(track.classify(seg(24, 29, 24, 31)), Crossing::Wall);
}
