use train_game::boundary::{contains, sharpest_turn};
use train_game::point::{saturate, Point, PRECISION, UNIT};
use train_game::segment::{Angle, Segment};

/// A point given in whole units.
fn at(x: i32, y: i32) -> Point {
    Point::new(x * 1000, y * 1000)
}

fn seg(ax: i32, ay: i32, bx: i32, by: i32) -> Segment {
    Segment::new(at(ax, ay), at(bx, by))
}

#[test]
fn points_within_a_hundredth_are_equal() {
    // (0.001, 0.001), (0.006, 0.004) and (0.02, 0.02) in thousandths of a unit.
    let a = Point::new(1, 1);
    let b = Point::new(6, 4);
    let c = Point::new(20, 20);
    assert!(a == b);
    assert!(b == a);
    assert!(a != c);
    assert!(b != c);
    assert_eq!(a.get_hashable(), (0, 0));
    assert_eq!(b.get_hashable(), (0, 0));
    assert_eq!(c.get_hashable(), (2, 2));
}

#[test]
fn point_equality_is_an_equivalence() {
    let points = [
        Point::new(0, 0),
        Point::new(9, 9),
        Point::new(-9, 4),
        Point::new(10, 0),
        Point::new(19, 5),
        Point::new(-10, -10),
        Point::new(-19, -11),
        Point::new(123_456, -654_321),
        Point::new(123_459, -654_329),
    ];
    for a in points {
        assert!(a == a);
        for b in points {
            assert_eq!(a == b, b == a);
            assert_eq!(a == b, a.get_hashable() == b.get_hashable());
            for c in points {
                if a == b && b == c {
                    assert!(a == c);
                }
            }
        }
    }
    assert!(points[0] == points[1]);
    assert!(points[0] == points[2]);
    assert!(points[3] == points[4]);
    assert!(points[5] == points[6]);
    assert!(points[7] == points[8]);
    assert!(points[0] != points[3]);
}

#[test]
fn coordinates_are_cut_towards_zero() {
    let p = Point::new(1234, -5678);
    assert_eq!(p.get_hashable(), (123, -567));
    assert_eq!(p.as_ivec2(), (1, -5));
    assert_eq!(Point::new(-999, 999).as_ivec2(), (0, 0));
    assert_eq!(Point::new(-1000, 1000).as_ivec2(), (-1, 1));
    assert_eq!(Point::new(i32::MIN, i32::MAX).get_hashable(), (-214_748_364, 214_748_364));
    assert_eq!(UNIT, 1000);
    assert_eq!(PRECISION, 10);
}

#[test]
fn points_add_and_subtract_within_range() {
    let a = Point::new(1500, -250);
    let b = Point::new(-500, 750);
    let sum = a + b;
    assert_eq!((sum.x, sum.y), (1000, 500));
    let difference = a - b;
    assert_eq!((difference.x, difference.y), (2000, -1000));
    let far = Point::new(i32::MAX, i32::MIN) + Point::new(1, -1);
    assert_eq!((far.x, far.y), (i32::MAX, i32::MIN));
    let near = Point::new(i32::MIN, i32::MAX) - Point::new(1, -1);
    assert_eq!((near.x, near.y), (i32::MIN, i32::MAX));
    assert_eq!(saturate(5_000_000_000), i32::MAX);
    assert_eq!(saturate(-5_000_000_000), i32::MIN);
    assert_eq!(saturate(-17), -17);
}

#[test]
fn axes_are_clamped() {
    let p = Point::new(500, -700).clamp_axes(300);
    assert_eq!((p.x, p.y), (300, -300));
    let q = Point::new(-299, 300).clamp_axes(300);
    assert_eq!((q.x, q.y), (-299, 300));
    let r = Point::new(5, -5).clamp_axes(0);
    assert_eq!((r.x, r.y), (0, 0));
}

#[test]
fn a_segment_equals_its_reverse() {
    let s = seg(1, 2, 1, 4);
    let r = s.reverse();
    assert_eq!((r.a.x, r.a.y, r.b.x, r.b.y), (1000, 4000, 1000, 2000));
    assert!(s == r);
    assert!(r == s);
    assert!(s == s);
    assert_eq!(s.get_hashable(), r.get_hashable());
    assert_eq!(s.get_hashable(), ((100, 200), (100, 400)));
    // Nearly the same end points, the other way round.
    let near = Segment::new(Point::new(1003, 4008), Point::new(1009, 2001));
    assert!(s == near);
    assert_eq!(s.get_hashable(), near.get_hashable());
    let other = seg(1, 2, 2, 4);
    assert!(s != other);
    assert_ne!(s.get_hashable(), other.get_hashable());
}

#[test]
fn segment_equality_is_an_equivalence() {
    let segments = [
        seg(0, 0, 1, 0),
        seg(1, 0, 0, 0),
        Segment::new(Point::new(5, 5), Point::new(1005, -5)),
        seg(0, 0, 0, 1),
        seg(0, 1, 0, 0),
        seg(0, 0, 0, 0),
        seg(3, 3, 4, 4),
    ];
    for s in segments {
        assert!(s == s);
        for t in segments {
            assert_eq!(s == t, t == s);
            assert_eq!(s == t, s.get_hashable() == t.get_hashable());
            for u in segments {
                if s == t && t == u {
                    assert!(s == u);
                }
            }
        }
    }
    assert!(segments[0] == segments[1]);
    assert!(segments[0] == segments[2]);
    assert!(segments[3] == segments[4]);
    assert!(segments[0] != segments[3]);
}

#[test]
fn slopes_are_kept_in_hundredths() {
    assert_eq!(seg(0, 0, 1, 1).get_slope_correlate(), 100);
    assert_eq!(seg(0, 0, 1, 0).get_slope_correlate(), 0);
    assert_eq!(seg(1, 0, 0, 0).get_slope_correlate(), 0);
    assert_eq!(seg(0, 0, 3, 1).get_slope_correlate(), 33);
    assert_eq!(seg(0, 0, 3, -1).get_slope_correlate(), -33);
    assert_eq!(seg(0, 0, -3, 1).get_slope_correlate(), -33);
    assert_eq!(seg(3, 1, 0, 0).get_slope_correlate(), 33);
    assert_eq!(seg(0, 0, 1, 2).get_slope_correlate(), 200);
    assert_eq!(seg(0, 0, 0, 5).get_slope_correlate(), i32::MAX);
    assert_eq!(seg(0, 5, 0, 0).get_slope_correlate(), i32::MIN);
    assert_eq!(seg(2, 2, 2, 2).get_slope_correlate(), 0);
    // Too steep for the range.
    let steep = Segment::new(Point::new(0, 0), Point::new(1, i32::MAX));
    assert_eq!(steep.get_slope_correlate(), i32::MAX);
    let down = Segment::new(Point::new(0, 0), Point::new(1, i32::MIN));
    assert_eq!(down.get_slope_correlate(), i32::MIN);
    assert_eq!(seg(1, 2, 4, 6).as_vec2(), (3000, 4000));
}

#[test]
fn angles_are_cross_and_dot_products() {
    let east = seg(0, 0, 1, 0);
    let north = seg(5, 5, 5, 6);
    let west = seg(0, 0, -2, 0);
    let south = seg(0, 0, 0, -1);
    // Headings are taken on the precision grid: a unit is a hundred cells.
    assert_eq!(east.angle_between(&north), Angle { sin: 10_000, cos: 0 });
    assert_eq!(east.angle_between(&south), Angle { sin: -10_000, cos: 0 });
    assert_eq!(east.angle_between(&west), Angle { sin: 0, cos: -20_000 });
    assert_eq!(east.angle_between(&east), Angle { sin: 0, cos: 10_000 });
    assert_eq!(north.angle_between(&west), Angle { sin: 20_000, cos: 0 });
    assert!(east.angle_between(&north).left_turn());
    assert!(!east.angle_between(&south).left_turn());
    assert!(!east.angle_between(&west).left_turn());
    assert!(!east.angle_between(&east).left_turn());
    let none = east.angle_between(&seg(3, 3, 3, 3));
    assert_eq!(none, Angle { sin: 0, cos: 0 });
    assert!(!none.defined());
    assert!(east.angle_between(&east).defined());
}

#[test]
fn angles_are_ordered_counter_clockwise_from_zero() {
    let east = seg(0, 0, 4, 0);
    // Directions at 0, 27, 45, 90, 135, 180, 225, 270 and 315 degrees.
    let round = [
        seg(0, 0, 1, 0),
        seg(0, 0, 2, 1),
        seg(0, 0, 1, 1),
        seg(0, 0, 0, 3),
        seg(0, 0, -1, 1),
        seg(0, 0, -5, 0),
        seg(0, 0, -1, -1),
        seg(0, 0, 0, -1),
        seg(0, 0, 2, -2),
    ];
    for (i, a) in round.iter().enumerate() {
        for (j, b) in round.iter().enumerate() {
            let first = east.angle_between(a);
            let second = east.angle_between(b);
            assert_eq!(first.less_than(&second), i < j, "{} against {}", i, j);
        }
    }
    // The same direction at another length is neither smaller nor larger.
    let short = east.angle_between(&seg(0, 0, 1, 2));
    let long = east.angle_between(&seg(0, 0, 3, 6));
    assert!(!short.less_than(&long));
    assert!(!long.less_than(&short));
    // Where there is no angle nothing is smaller.
    let none = Angle { sin: 0, cos: 0 };
    assert!(!none.less_than(&short));
    assert!(!short.less_than(&none));
}

#[test]
fn the_walk_takes_the_sharpest_turn_to_the_right() {
    // Arriving at the origin heading east.
    let incoming = seg(-1, 0, 0, 0);
    let north = seg(0, 0, 0, 1);
    let east = seg(0, 0, 1, 0);
    let south = seg(0, 0, 0, -1);
    let north_east = seg(0, 0, 1, 1);
    assert_eq!(sharpest_turn(&incoming, &vec![north, east, south]), 2);
    assert_eq!(sharpest_turn(&incoming, &vec![south, east, north]), 0);
    assert_eq!(sharpest_turn(&incoming, &vec![north, east]), 1);
    assert_eq!(sharpest_turn(&incoming, &vec![north, north_east]), 1);
    assert_eq!(sharpest_turn(&incoming, &vec![north]), 0);
    // Of two that turn alike the first is taken.
    assert_eq!(sharpest_turn(&incoming, &vec![north, seg(0, 0, 2, -2), seg(0, 0, 1, -1)]), 1);
    // A candidate without length makes no angle and is passed over.
    assert_eq!(sharpest_turn(&incoming, &vec![seg(0, 0, 0, 0), north]), 1);
    assert_eq!(sharpest_turn(&incoming, &vec![seg(0, 0, 0, 0), seg(0, 0, 0, 0)]), 0);
    // Turning back on the incoming edge is the sharpest turn of all.
    assert_eq!(sharpest_turn(&incoming, &vec![south, seg(0, 0, -1, 0)]), 1);
}

#[test]
fn corners_are_found_by_their_cell() {
    let corners = vec![at(0, 0), at(1, 0), at(1, 1)];
    assert!(contains(&corners, at(1, 1)));
    assert!(contains(&corners, Point::new(1004, 9)));
    assert!(!contains(&corners, at(0, 1)));
    assert!(!contains(&vec![], at(0, 0)));
}
