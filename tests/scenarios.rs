use meteoroids::point::{Point, TURN_SCALE};
use meteoroids::polygon::Polygon;

fn pt(x: i64, y: i64) -> Point {
    Point::new(x, y)
}

#[test]
fn moving_square_meets_standing_square() {
    // 256 units to a pixel: side 2, A centred at (0, 0), B at (5, 0);
    // A moves at 10 per second, 43 units in each sixtieth of a second
    let u = 256;
    let mut a = Polygon::new(vec![pt(u, u), pt(-u, u), pt(-u, -u), pt(u, -u)]);
    let b = Polygon::new(vec![pt(6 * u, u), pt(4 * u, u), pt(4 * u, -u), pt(6 * u, -u)]);
    let mut steps = 0;
    let contact = loop {
        if a.may_touch(&b) {
            if let Some(c) = a.get_collision(&b) {
                break c;
            }
        }
        a.shift(43, 0);
        steps += 1;
        assert!(steps < 60);
    };
    assert_eq!(steps, 18);
    let (_, _, normal) = contact;
    // B's surface normal points back towards A: (-1, 0) in units of 1 / TURN_SCALE
    assert_eq!(normal, pt(-TURN_SCALE, 0));
}

#[test]
fn cut_through_square_gives_two_halves() {
    let sq = Polygon::new(vec![pt(-1, -1), pt(1, -1), pt(1, 1), pt(-1, 1)]);
    let (a, b) = sq.split(pt(-100, 0), pt(100, 0)).unwrap();
    assert_eq!(a.area(), 2);
    assert_eq!(b.area(), 2);
    assert_eq!(a.area() + b.area(), 4);
    assert_eq!(sq.area(), 4);
}
