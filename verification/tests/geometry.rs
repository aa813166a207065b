use vector_track::geometry::{Bounds, Point, Segment, Vector2};

fn seg(x1: i16, y1: i16, x2: i16, y2: i16) -> Segment {
    Segment::from_pair(Point { x: x1, y: y1 }, Point { x: x2, y: y2 })
}

#[test]
fn from_pair_keeps_the_order_of_the_endpoints() {
    let s = seg(1, 2, 3, 4);
    assert_eq!(s.from, Point { x: 1, y: 2 });
    assert_eq!(s.to, Point { x: 3, y: 4 });
    assert_ne!(s, seg(3, 4, 1, 2));
    assert_eq!(s, seg(1, 2, 3, 4));
}

#[test]
fn left_and_right_are_the_extreme_x() {
    assert_eq!(seg(5, 0, -3, 9).left(), -3);
    assert_eq!(seg(5, 0, -3, 9).right(), 5);
    assert_eq!(seg(-3, 0, 5, 9).left(), -3);
    assert_eq!(seg(-3, 0, 5, 9).right(), 5);
    assert_eq!(seg(7, 1, 7, 2).left(), 7);
    assert_eq!(seg(7, 1, 7, 2).right(), 7);
}

#[test]
fn bounds_are_the_box_around_the_segment() {
    assert_eq!(seg(5, 9, -3, 0).bounds(), Bounds { left: -3, right: 5, top: 0, bottom: 9 });
    let a = seg(0, 0, 2, 2).bounds();
    assert!(a.apart(seg(3, 0, 4, 2).bounds()));
    assert!(a.apart(seg(0, 3, 2, 4).bounds()));
    assert!(!a.apart(seg(2, 2, 4, 4).bounds()));
    assert!(!a.apart(seg(1, -5, 1, 5).bounds()));
}

#[test]
fn anchor_at_leads_from_the_point_by_the_vector() {
    let v = Vector2 { x: 3, y: -4 };
    let s = v.anchor_at(Point { x: 10, y: 20 });
    assert_eq!(s, seg(10, 20, 13, 16));
    let edge = Vector2 { x: 32767, y: -32768 }.anchor_at(Point { x: 0, y: 0 });
    assert_eq!(edge, seg(0, 0, 32767, -32768));
}

#[test]
fn a_point_plus_a_vector_is_the_moved_point() {
    assert_eq!(Point { x: 6, y: 30 } + Vector2 { x: 0, y: -5 }, Point { x: 6, y: 25 });
    assert_eq!(Point { x: -1, y: -1 } + Vector2 { x: 1, y: 1 }, Point { x: 0, y: 0 });
}

#[test]
fn a_vector_times_a_factor_is_scaled_on_both_axes() {
    assert_eq!(Vector2 { x: 2, y: -3 } * 20, Vector2 { x: 40, y: -60 });
    assert_eq!(Vector2 { x: 2, y: -3 } * 0, Vector2 { x: 0, y: 0 });
}

#[test]
fn crossing_segments_intersect() {
    assert!(seg(0, 0, 4, 4).intersects(seg(0, 4, 4, 0)));
    assert!(seg(0, 0, 10, 0).intersects(seg(3, -1, 3, 1)));
    // the crossing point need not be a grid point
    assert!(seg(0, 0, 1, 1).intersects(seg(0, 1, 1, 0)));
}

#[test]
fn segments_that_miss_each_other_do_not_intersect() {
    // the boxes are apart
    assert!(!seg(0, 0, 1, 1).intersects(seg(5, 5, 6, 7)));
    // the boxes overlap, the segments do not meet
    assert!(!seg(0, 0, 4, 4).intersects(seg(3, 0, 4, 1)));
    assert!(!seg(0, 0, 10, 10).intersects(seg(0, 1, 9, 10)));
    // the lines cross beyond the end of one segment
    assert!(!seg(0, 0, 2, 0).intersects(seg(3, -1, 3, 1)));
    assert!(!seg(0, 0, 4, 0).intersects(seg(2, 1, 2, 5)));
}

#[test]
fn touching_counts_as_intersecting() {
    // an endpoint on the inside of the other segment
    assert!(seg(0, 0, 4, 0).intersects(seg(2, 0, 2, 5)));
    assert!(seg(2, 0, 2, 5).intersects(seg(0, 0, 4, 0)));
    // a shared endpoint
    assert!(seg(0, 0, 4, 0).intersects(seg(4, 0, 4, 4)));
    // the start of the first segment on the second
    assert!(seg(2, 0, 2, 5).intersects(seg(0, 0, 4, 0)));
    assert!(seg(1, 1, 5, 5).intersects(seg(0, 2, 2, 0)));
}

#[test]
fn parallel_segments_intersect_only_where_they_overlap_on_one_line() {
    // parallel, on different lines
    assert!(!seg(0, 0, 4, 0).intersects(seg(0, 1, 4, 1)));
    assert!(!seg(0, 0, 4, 4).intersects(seg(1, 0, 5, 4)));
    // on one line, apart
    assert!(!seg(0, 0, 1, 0).intersects(seg(2, 0, 3, 0)));
    assert!(!seg(0, 0, 1, 1).intersects(seg(2, 2, 3, 3)));
    // on one line, touching or overlapping
    assert!(seg(0, 0, 2, 0).intersects(seg(2, 0, 3, 0)));
    assert!(seg(0, 0, 3, 3).intersects(seg(2, 2, 5, 5)));
    assert!(seg(0, 0, 9, 0).intersects(seg(3, 0, 4, 0)));
    assert!(seg(5, 5, 2, 2).intersects(seg(0, 0, 3, 3)));
}

#[test]
fn a_single_point_intersects_what_it_lies_on() {
    let p = seg(2, 2, 2, 2);
    assert!(p.intersects(seg(0, 0, 4, 4)));
    assert!(seg(0, 0, 4, 4).intersects(p));
    assert!(p.intersects(p));
    assert!(!p.intersects(seg(0, 0, 4, 0)));
    assert!(!seg(0, 0, 4, 0).intersects(p));
    assert!(!p.intersects(seg(3, 3, 4, 4)));
    assert!(!p.intersects(seg(3, 3, 3, 3)));
    // in the box of the segment, but off its line
    assert!(!seg(1, 2, 1, 2).intersects(seg(0, 0, 4, 4)));
}

#[test]
fn intersects_is_symmetric_on_a_grid_of_segments() {
    let mut segments = Vec::new();
    for x1 in -1..=1i16 {
        for y1 in -1..=1i16 {
            for x2 in -1..=1i16 {
                for y2 in -1..=1i16 {
                    segments.push(seg(2 * x1, 3 * y1, x2, 2 * y2));
                }
            }
        }
    }
    for a in segments.iter() {
        for b in segments.iter() {
            assert_eq!(a.intersects(*b), b.intersects(*a), "{:?} {:?}", a, b);
        }
    }
}

#[test]
fn a_segment_intersects_its_own_reverse() {
    for s in [seg(0, 0, 1, 0), seg(3, 7, -2, 5), seg(4, 4, 4, 4), seg(-32768, 32767, 32767, -32768)] {
        let reverse = Segment::from_pair(s.to, s.from);
        assert!(s.intersects(reverse));
        assert!(reverse.intersects(s));
        assert!(s.intersects(s));
    }
}

#[test]
fn the_determinants_do_not_overflow_at_the_corners_of_the_grid() {
    let a = seg(-32768, -32768, 32767, 32767);
    let b = seg(-32768, 32767, 32767, -32768);
    assert!(a.intersects(b));
    assert!(b.intersects(a));
    let c = seg(-32768, -32768, -32768, 32767);
    let d = seg(32767, -32768, 32767, 32767);
    assert!(!c.intersects(d));
    assert!(a.intersects(c));
    assert!(a.intersects(d));
    // one line through the whole grid
    assert!(a.meets_by_determinants(seg(-1, -1, 1, 1)));
    assert!(!a.meets_by_determinants(seg(-1, 0, 1, 2)));
}
