use meteoroids::intersect::{line_intersects, line_segment_intersect};
use meteoroids::point::{Point, Turn, TURN_SCALE};
use meteoroids::polygon::{make_convex, Polygon};
use meteoroids::rect::Rectangle;

fn pt(x: i64, y: i64) -> Point {
    Point::new(x, y)
}

fn square(cx: i64, cy: i64, half: i64) -> Polygon {
    Polygon::new(vec![
        pt(cx - half, cy - half),
        pt(cx + half, cy - half),
        pt(cx + half, cy + half),
        pt(cx - half, cy + half),
    ])
}

#[test]
fn point_arithmetic() {
    let a = pt(3, -4);
    let b = pt(-1, 2);
    assert_eq!(a.add(b), pt(2, -2));
    assert_eq!(a.sub(b), pt(4, -6));
    assert_eq!(a.neg(), pt(-3, 4));
    assert_eq!(a.mul(3), pt(9, -12));
    assert_eq!(a.dot(b), -11);
    assert_eq!(a.cross(b), 2);
    assert_eq!(a.len_squared(), 25);
    assert_eq!(a.dist_squared(b), 52);
}

#[test]
fn point_division_rounds_down() {
    assert_eq!(pt(7, -7).div(2), pt(3, -4));
    assert_eq!(pt(-1, 1).div(3), pt(-1, 0));
}

#[test]
fn rotation_by_a_quarter() {
    let quarter = Turn::new(0, TURN_SCALE);
    assert_eq!(pt(10, 0).rotated(quarter, pt(0, 0)), pt(0, 10));
    assert_eq!(pt(12, 5).rotated(quarter, pt(2, 5)), pt(2, 15));
    assert_eq!(pt(12, 5).rotated(Turn::identity(), pt(2, 5)), pt(12, 5));
}

#[test]
fn rotation_rounds_down() {
    // an eighth of a turn: cos = sin = 46341 / 65536
    let t = Turn::new(46341, 46341);
    let r = pt(100, 0).rotated(t, pt(0, 0));
    assert_eq!(r, pt(70, 70));
}

#[test]
fn ray_meets_segment() {
    let p = line_intersects(pt(0, -10), pt(0, 10), pt(-5, 0), pt(5, 0));
    assert_eq!(p, Some(pt(0, 0)));
    // the half-line starts at pb1 and does not run backwards
    let q = line_intersects(pt(0, -10), pt(0, 10), pt(5, 0), pt(10, 0));
    assert_eq!(q, None);
    // but it runs on past pb2
    let r = line_intersects(pt(20, -10), pt(20, 10), pt(5, 0), pt(10, 0));
    assert_eq!(r, Some(pt(20, 0)));
}

#[test]
fn segments_meet_only_within_both() {
    assert_eq!(line_segment_intersect(pt(0, 0), pt(10, 10), pt(0, 10), pt(10, 0)), Some(pt(5, 5)));
    assert_eq!(line_segment_intersect(pt(20, -10), pt(20, 10), pt(5, 0), pt(10, 0)), None);
}

#[test]
fn parallel_lines_do_not_meet() {
    assert_eq!(line_intersects(pt(0, 0), pt(10, 0), pt(0, 5), pt(10, 5)), None);
    assert_eq!(line_segment_intersect(pt(0, 0), pt(10, 0), pt(0, 0), pt(10, 0)), None);
}

#[test]
fn meeting_point_rounds_down() {
    // the lines meet at (1/3, 1/3)
    let p = line_segment_intersect(pt(0, 0), pt(1, 1), pt(0, 1), pt(1, -1));
    assert_eq!(p, Some(pt(0, 0)));
}

#[test]
fn centre_and_radius() {
    let p = Polygon::new(vec![pt(0, 0), pt(4, 0), pt(4, 3)]);
    // mean (8/3, 1) rounded down
    assert_eq!(p.centre, pt(2, 1));
    // farthest corner (4, 3): squared distance 8, radius 3
    assert_eq!(p.radius, 3);
    assert_eq!(p.corners(), 3);
}

#[test]
fn empty_polygon_is_inert() {
    let p = Polygon::new(vec![]);
    assert_eq!(p.centre, pt(0, 0));
    assert_eq!(p.radius, 0);
    assert_eq!(p.corners(), 0);
    assert!(!p.contains_point(pt(0, 0)));
    let two = Polygon::new(vec![pt(0, 0), pt(5, 5)]);
    assert!(!two.contains_point(pt(1, 1)));
}

#[test]
fn lines_close_the_outline() {
    let p = Polygon::new(vec![pt(0, 0), pt(4, 0), pt(4, 3)]);
    let l = p.lines();
    assert_eq!(l, vec![(pt(4, 3), pt(0, 0)), (pt(0, 0), pt(4, 0)), (pt(4, 0), pt(4, 3))]);
}

#[test]
fn bounds_of_corners() {
    let p = Polygon::new(vec![pt(3, -2), pt(7, 5), pt(-1, 4)]);
    assert_eq!(p.bounds(), Rectangle::new(-1, -2, 8, 7));
}

#[test]
fn area_of_triangle_and_square() {
    let t = Polygon::new(vec![pt(0, 0), pt(4, 0), pt(4, 3)]);
    assert_eq!(t.twice_area(), 12);
    assert_eq!(t.area(), 6);
    let odd = Polygon::new(vec![pt(0, 0), pt(1, 0), pt(0, 1)]);
    assert_eq!(odd.twice_area(), 1);
    assert_eq!(odd.area(), 0);
    // the winding does not change the area
    let cw = Polygon::new(vec![pt(4, 3), pt(4, 0), pt(0, 0)]);
    assert_eq!(cw.twice_area(), 12);
}

#[test]
fn square_contains_centre_not_far_points() {
    let sq = square(0, 0, 10);
    assert!(sq.contains_point(sq.centre));
    assert!(sq.contains_point(pt(9, -9)));
    assert!(!sq.contains_point(pt(100, 100)));
    assert!(!sq.contains_point(pt(-40, 0)));
    assert!(!sq.contains_point(pt(0, 35)));
}

#[test]
fn containment_is_the_same_on_every_call() {
    let sq = square(0, 0, 10);
    for p in [pt(10, 0), pt(-10, 0), pt(0, 10), pt(0, -10), pt(10, 10), pt(-10, -10)] {
        let first = sq.contains_point(p);
        for _ in 0..5 {
            assert_eq!(sq.contains_point(p), first);
        }
    }
}

#[test]
fn shift_moves_centre_exactly() {
    let mut p = Polygon::new(vec![pt(0, 0), pt(4, 0), pt(4, 3)]);
    let before = p.centre;
    let radius = p.radius;
    assert!(p.can_shift(-7, 11));
    p.shift(-7, 11);
    assert_eq!(p.points, vec![pt(-7, 11), pt(-3, 11), pt(-3, 14)]);
    assert_eq!(p.centre, pt(before.x - 7, before.y + 11));
    assert_eq!(p.radius, radius);
}

#[test]
fn shift_and_quarter_turns_keep_area() {
    let mut p = Polygon::new(vec![pt(0, 0), pt(40, 3), pt(35, 27), pt(6, 31)]);
    let area = p.twice_area();
    p.shift(123, -45);
    assert_eq!(p.twice_area(), area);
    p.rotate(Turn::new(0, TURN_SCALE));
    assert_eq!(p.twice_area(), area);
    p.rotate(Turn::new(0, -TURN_SCALE));
    assert_eq!(p.twice_area(), area);
    p.shift(-1000, 77);
    assert_eq!(p.twice_area(), area);
}

#[test]
fn rotation_about_centre() {
    let mut p = square(100, 100, 10);
    p.rotate(Turn::new(0, TURN_SCALE));
    assert_eq!(p.points, vec![pt(110, 90), pt(110, 110), pt(90, 110), pt(90, 90)]);
    assert_eq!(p.centre, pt(100, 100));
}

#[test]
fn general_rotation_keeps_area_nearly() {
    let mut p = Polygon::new(vec![pt(0, 0), pt(4000, 300), pt(3500, 2700), pt(600, 3100)]);
    let area = p.twice_area();
    let t = Turn::new(56756, 32768); // about 30 degrees
    for _ in 0..12 {
        p.rotate(t);
    }
    let after = p.twice_area();
    assert!((after - area).abs() * 100 < area, "{} against {}", after, area);
}

#[test]
fn range_checks() {
    let p = square(0, 0, 10);
    assert!(p.fits_within(10));
    assert!(!p.fits_within(9));
    assert!(p.can_shift(1_000, 0));
    assert!(!p.can_shift(meteoroids::point::COORD_LIMIT, 0));
}

#[test]
fn broad_phase_overlap() {
    let a = square(0, 0, 10);
    let b = square(25, 0, 10);
    let c = square(40, 0, 10);
    assert!(a.may_touch(&b));
    assert!(!a.may_touch(&c));
}

#[test]
fn collision_found_both_ways() {
    let a = square(0, 0, 10);
    // a wedge whose tip (8, 0) reaches into a; no corner of a lies in it
    let b = Polygon::new(vec![pt(8, 0), pt(30, -6), pt(30, 6)]);
    let ab = a.get_collision(&b);
    let ba = b.get_collision(&a);
    // the tip joined to b's centre (22, 0) leaves a through its right edge
    assert_eq!(ab, Some((pt(10, 0), pt(2, 0), pt(-TURN_SCALE, 0))));
    assert_eq!(ba, Some((pt(10, 0), pt(-2, 0), pt(-TURN_SCALE, 0))));
}

#[test]
fn collision_when_corners_reach_both_ways() {
    let a = square(0, 0, 10);
    let b = Polygon::new(vec![pt(8, 3), pt(20, 3), pt(20, 15), pt(8, 15)]);
    // corner (8, 3) of b lies in a; towards b's centre (14, 9) it leaves a at (10, 5)
    assert_eq!(a.get_collision(&b), Some((pt(10, 5), pt(2, 2), pt(-TURN_SCALE, 0))));
    // corner (10, 10) of a lies in b; towards a's centre it leaves b at (8, 8)
    let (c, o, n) = b.get_collision(&a).unwrap();
    assert_eq!((c, o), (pt(8, 8), pt(-2, -2)));
    assert!(n.x > 0 && n.y == 0);
}

#[test]
fn no_collision_when_apart() {
    let a = square(0, 0, 10);
    let b = square(50, 50, 10);
    assert_eq!(a.get_collision(&b), None);
    assert_eq!(b.get_collision(&a), None);
}

#[test]
fn closest_point_on_square() {
    let sq = square(0, 0, 10);
    let (q, n) = sq.closest_point(pt(25, 3));
    assert_eq!(q, pt(10, 3));
    assert!(n.x > 0 && n.y == 0);
    let (q2, n2) = sq.closest_point(pt(2, -30));
    assert_eq!(q2, pt(2, -10));
    assert!(n2.y < 0 && n2.x == 0);
    // beyond a corner the projection is clamped to the edge
    let (q3, _) = sq.closest_point(pt(30, 30));
    assert_eq!(q3, pt(10, 10));
}

#[test]
fn split_square_into_halves() {
    let sq = Polygon::new(vec![pt(-1, -1), pt(1, -1), pt(1, 1), pt(-1, 1)]);
    let (a, b) = sq.split(pt(-100, 0), pt(100, 0)).expect("the cut crosses the square");
    assert_eq!(a.area(), 2);
    assert_eq!(b.area(), 2);
    assert_eq!(a.area() + b.area(), sq.area());
    assert_eq!(a.points, vec![pt(-1, 0), pt(1, 0), pt(1, 1), pt(-1, 1)]);
    assert_eq!(b.points, vec![pt(-1, 0), pt(-1, -1), pt(1, -1), pt(1, 0)]);
}

#[test]
fn split_keeps_every_corner_once() {
    let poly = Polygon::new(vec![pt(0, 0), pt(100, 0), pt(130, 60), pt(50, 110), pt(-30, 60)]);
    let (a, b) = poly.split(pt(-200, 40), pt(300, 40)).expect("the cut crosses the polygon");
    let cut = [a.points[..].iter().filter(|p| !poly.points.contains(p)).count(),
        b.points[..].iter().filter(|p| !poly.points.contains(p)).count()];
    assert_eq!(cut, [2, 2]);
    for p in &poly.points {
        let n = a.points.iter().filter(|q| *q == p).count() + b.points.iter().filter(|q| *q == p).count();
        assert_eq!(n, 1);
    }
    let total = poly.twice_area();
    let sum = a.twice_area() + b.twice_area();
    assert!((sum - total).abs() <= 400, "{} against {}", sum, total);
}

#[test]
fn split_needs_two_crossings() {
    let sq = square(0, 0, 10);
    assert!(sq.split(pt(-100, 50), pt(100, 50)).is_none());
    // a half-line that starts inside crosses only once
    assert!(sq.split(pt(0, 0), pt(100, 0)).is_none());
}

#[test]
fn wall_contact_on_each_side() {
    let r = Rectangle::new(0, 0, 100, 50);
    assert_eq!(r.wall_contact(pt(50, 25)), None);
    assert_eq!(r.wall_contact(pt(-5, 25)), Some((pt(5, 0), pt(1, 0))));
    assert_eq!(r.wall_contact(pt(107, 25)), Some((pt(-7, 0), pt(-1, 0))));
    assert_eq!(r.wall_contact(pt(50, -3)), Some((pt(0, 3), pt(0, 1))));
    assert_eq!(r.wall_contact(pt(50, 60)), Some((pt(0, -10), pt(0, -1))));
    // beyond two sides: the left or right side counts first
    assert_eq!(r.wall_contact(pt(-5, -5)), Some((pt(5, 0), pt(1, 0))));
}

#[test]
fn expanded_rectangle() {
    let r = Rectangle::new(0, 0, 100, 50).expand(10);
    assert_eq!(r, Rectangle::new(-10, -10, 120, 70));
    assert_eq!(r.wall_contact(pt(-5, 25)), None);
}

#[test]
fn wall_shift_puts_corner_back() {
    let r = Rectangle::new(0, 0, 100, 50);
    let mut p = Polygon::new(vec![pt(90, 10), pt(112, 20), pt(95, 30)]);
    let (off, _) = r.wall_contact(p.points[1]).unwrap();
    p.shift(off.x, off.y);
    assert_eq!(p.points[1], pt(100, 20));
    assert_eq!(r.wall_contact(p.points[1]), None);
}

#[test]
fn make_convex_drops_dents() {
    // (5, 2) dents the square inwards
    let pts = vec![pt(0, 0), pt(10, 0), pt(10, 10), pt(5, 2), pt(0, 10)];
    let r = make_convex(pts);
    assert_eq!(r, vec![pt(0, 0), pt(10, 0), pt(10, 10), pt(0, 10)]);
    let convex = vec![pt(0, 0), pt(10, 0), pt(10, 10), pt(0, 10)];
    assert_eq!(make_convex(convex.clone()), convex);
    let tri = vec![pt(0, 0), pt(0, 10), pt(10, 0)];
    assert_eq!(make_convex(tri.clone()), tri);
}

#[test]
fn wall_pass_moves_back_in_order() {
    let r = Rectangle::new(0, 0, 100, 50);
    // the second corner lies past the right side, the third past the bottom
    let mut p = Polygon::new(vec![pt(80, 10), pt(110, 20), pt(90, 60)]);
    let hits = p.resolve_walls(&r);
    // first moved left by 10, then the third corner (80, 60) moved up by 10
    assert_eq!(p.points, vec![pt(70, 0), pt(100, 10), pt(80, 50)]);
    assert_eq!(hits.len(), 2);
    assert_eq!(hits[0].0, pt(100, 20));
    assert_eq!(hits[0].1, pt(-1, 0));
    assert_eq!(hits[1].0, pt(80, 50));
    assert_eq!(hits[1].1, pt(0, -1));
    assert_eq!(hits[1].2, p.centre);
    for q in &p.points {
        assert_eq!(r.wall_contact(*q), None);
    }
}

#[test]
fn wall_pass_leaves_inside_polygon_alone() {
    let r = Rectangle::new(-100, -100, 200, 200);
    let mut p = square(0, 0, 10);
    let before = p.points.clone();
    assert!(p.resolve_walls(&r).is_empty());
    assert_eq!(p.points, before);
}

#[test]
fn rectangle_range_check() {
    assert!(Rectangle::new(0, 0, 10, 10).fits_within(10));
    assert!(!Rectangle::new(0, 0, 10, 10).fits_within(9));
    assert!(!Rectangle::new(0, 0, -1, 10).fits_within(100));
}

#[test]
fn lengths_round_up() {
    assert_eq!(pt(3, 4).len(), 5);
    assert_eq!(pt(1, 1).len(), 2);
    assert_eq!(pt(0, 0).len(), 0);
    assert_eq!(pt(1, 2).dist(pt(4, 6)), 5);
    assert_eq!(pt(-1, -1).dist(pt(1, 1)), 3);
}

#[test]
fn degenerate_polygon_touches_nothing() {
    let sq = Polygon::new(vec![pt(-2, -2), pt(2, -2), pt(2, 2), pt(-2, 2)]);
    let seg = Polygon::new(vec![pt(0, 0), pt(10, 0)]);
    assert_eq!(seg.get_collision(&sq), None);
    assert_eq!(sq.get_collision(&seg), None);
    let dot = Polygon::new(vec![pt(0, 0)]);
    assert_eq!(sq.get_collision(&dot), None);
}

#[test]
fn corner_beyond_two_sides_is_moved_back_on_both() {
    let r = Rectangle::new(0, 0, 100, 50);
    let mut p = Polygon::new(vec![pt(90, 40), pt(108, 58), pt(95, 45)]);
    let hits = p.resolve_walls(&r);
    assert_eq!(p.points, vec![pt(82, 32), pt(100, 50), pt(87, 37)]);
    assert_eq!(hits.len(), 2);
    assert_eq!((hits[0].0, hits[0].1), (pt(100, 58), pt(-1, 0)));
    assert_eq!((hits[1].0, hits[1].1), (pt(100, 50), pt(0, -1)));
    for q in &p.points {
        assert_eq!(r.wall_contact(*q), None);
    }
}

#[test]
fn turns_must_be_rotations() {
    assert_eq!(Turn::checked(0, 0), None);
    assert_eq!(Turn::checked(TURN_SCALE, TURN_SCALE), None);
    assert_eq!(Turn::checked(TURN_SCALE + 1, 0), None);
    assert_eq!(Turn::checked(0, -TURN_SCALE), Some(Turn::new(0, -TURN_SCALE)));
    assert_eq!(Turn::checked(46341, 46341), Some(Turn::new(46341, 46341)));
    assert_eq!(Turn::checked(56756, 32768), Some(Turn::new(56756, 32768)));
}

#[test]
fn turning_keeps_distance_to_centre_nearly() {
    let t = Turn::new(56756, 32768); // about 30 degrees
    let c = pt(1000, -500);
    for q in [pt(1000 + 3000, -500), pt(-200, 700), pt(1001, -499)] {
        let r = q.rotated(t, c);
        let d = q.dist_squared(c);
        let e = r.dist_squared(c);
        let (dx, dy) = ((q.x - c.x).abs() as i128, (q.y - c.y).abs() as i128);
        let s = TURN_SCALE as i128;
        assert!((e - d).abs() * s <= s * (4 * (dx + dy) + 2) + 2 * d);
    }
}

#[test]
fn area_threshold() {
    let t = Polygon::new(vec![pt(0, 0), pt(4, 0), pt(4, 3)]);
    assert!(t.smaller_than(7));
    assert!(!t.smaller_than(6));
    let seg = Polygon::new(vec![pt(0, 0), pt(4, 0)]);
    assert!(seg.smaller_than(1));
    assert!(!seg.smaller_than(0));
}

#[test]
fn points_outside_the_extent_are_outside() {
    let p = Polygon::new(vec![pt(0, 0), pt(40, 3), pt(35, 27), pt(6, 31)]);
    for q in [pt(-1, 10), pt(41, 10), pt(20, -1), pt(20, 31), pt(-50, 15), pt(100, 100)] {
        assert!(!p.contains_point(q));
    }
}

#[test]
fn turning_nearly_keeps_the_centre() {
    let mut p = Polygon::new(vec![pt(0, 0), pt(4001, 300), pt(3500, 2700), pt(600, 3103)]);
    let t = Turn::new(56756, 32768); // about 30 degrees
    for _ in 0..12 {
        let before = p.centre;
        p.rotate(t);
        assert!((p.centre.x - before.x).abs() <= 3 && (p.centre.y - before.y).abs() <= 3);
    }
}

#[test]
fn collision_normal_has_unit_length() {
    let a = Polygon::new(vec![pt(0, 0), pt(10, 0), pt(0, 10)]);
    // corner (3, 3) of b lies in a; towards b's centre (11, 11) it leaves a
    // through the slanted edge at (5, 5)
    let b = Polygon::new(vec![pt(3, 3), pt(20, 10), pt(10, 20)]);
    let (c, o, n) = a.get_collision(&b).unwrap();
    assert_eq!((c, o), (pt(5, 5), pt(2, 2)));
    // (-1, -1) / sqrt(2) in units of 1 / 65536, rounded down
    assert_eq!(n, pt(-46341, -46341));
    let s = TURN_SCALE as i128;
    let len = n.len_squared();
    assert!(s * s - 6 * s <= len && len <= s * s + 6 * s);
}

#[test]
fn unit_vectors() {
    assert_eq!(pt(0, 0).unit(), pt(0, 0));
    assert_eq!(pt(3, 4).unit(), pt(39321, 52428));
    assert_eq!(pt(0, -7).unit(), pt(0, -TURN_SCALE));
    let s = TURN_SCALE as i128;
    for v in [pt(1, 1), pt(-5, 2), pt(1000000, -3), pt(-1, -1)] {
        let len = v.unit().len_squared();
        assert!(s * s - 6 * s <= len && len <= s * s + 6 * s, "{:?}", v);
    }
}

#[test]
fn closest_point_normal_points_away_from_centre() {
    let p = Polygon::new(vec![pt(0, 0), pt(40, 3), pt(35, 27), pt(6, 31)]);
    for q in [pt(60, 10), pt(20, -20), pt(-10, 15), pt(20, 50)] {
        let (c, n) = p.closest_point(q);
        let side = n.x as i128 * (p.centre.x - c.x) as i128 + n.y as i128 * (p.centre.y - c.y) as i128;
        assert!(side < 0, "{:?}", q);
    }
}
