use vstd::prelude::*;
use crate::arith::{floor_div, lemma_mul_abs_bound};
use crate::point::{Point, COORD_LIMIT};

verus! {

/// The determinant of the two directions; zero when the lines are parallel.
pub open spec fn denom_spec(a1: Point, a2: Point, b1: Point, b2: Point) -> int {
    (a1.x - a2.x) * (b1.y - b2.y) - (a1.y - a2.y) * (b1.x - b2.x)
}

/// `t * denom`, where `a1 + t * (a2 - a1)` is the meeting point on the first line.
pub open spec fn t_num_spec(a1: Point, a2: Point, b1: Point, b2: Point) -> int {
    (a1.x - b1.x) * (b1.y - b2.y) - (a1.y - b1.y) * (b1.x - b2.x)
}

/// `u * denom`, where `b1 + u * (b2 - b1)` is the meeting point on the second line.
pub open spec fn u_num_spec(a1: Point, a2: Point, b1: Point, b2: Point) -> int {
    -((a1.x - a2.x) * (a1.y - b1.y) - (a1.y - a2.y) * (a1.x - b1.x))
}

/// `0 <= num / den <= 1` for `den != 0`.
pub open spec fn unit_fraction(num: int, den: int) -> bool {
    if den > 0 {
        0 <= num <= den
    } else {
        den <= num <= 0
    }
}

/// `0 <= num / den` for `den != 0`.
pub open spec fn nonneg_fraction(num: int, den: int) -> bool {
    if den > 0 {
        0 <= num
    } else {
        num <= 0
    }
}

/// The segment `a1 -> a2` meets the half-line that starts at `b1` and runs
/// through `b2` (`to_end == false`), or the segment `b1 -> b2` (`to_end == true`).
pub open spec fn meets(a1: Point, a2: Point, b1: Point, b2: Point, to_end: bool) -> bool {
    let d = denom_spec(a1, a2, b1, b2);
    let t = t_num_spec(a1, a2, b1, b2);
    let u = u_num_spec(a1, a2, b1, b2);
    &&& d != 0
    &&& unit_fraction(t, d)
    &&& if to_end {
        unit_fraction(u, d)
    } else {
        nonneg_fraction(u, d)
    }
}

/// `a + (t / den) * (b - a)` rounded down.
pub open spec fn along(a: int, b: int, t: int, den: int) -> int {
    if den > 0 {
        a + (t * (b - a)) / den
    } else {
        a + ((-t) * (b - a)) / (-den)
    }
}

/// Where the two lines meet, each coordinate rounded down to the lattice.
pub open spec fn meeting_point(a1: Point, a2: Point, b1: Point, b2: Point) -> Point {
    let d = denom_spec(a1, a2, b1, b2);
    let t = t_num_spec(a1, a2, b1, b2);
    Point { x: along(a1.x as int, a2.x as int, t, d) as i64, y: along(a1.y as int, a2.y as int, t, d) as i64 }
}

pub open spec fn crossing_spec(a1: Point, a2: Point, b1: Point, b2: Point, to_end: bool) -> Option<Point> {
    if meets(a1, a2, b1, b2, to_end) {
        Some(meeting_point(a1, a2, b1, b2))
    } else {
        None
    }
}

/// `(t / den) * d` rounded down lies between `0` and `d` when `0 <= t <= den`.
pub proof fn lemma_fraction_between(t: int, den: int, d: int)
    requires
        den > 0,
        0 <= t <= den,
    ensures
        d >= 0 ==> 0 <= (t * d) / den <= d,
        d < 0 ==> d <= (t * d) / den <= 0,
{
    vstd::arithmetic::div_mod::lemma_fundamental_div_mod(t * d, den);
    vstd::arithmetic::div_mod::lemma_mod_bound(t * d, den);
    let q = (t * d) / den;
    let r = (t * d) % den;
    assert(d >= 0 ==> 0 <= q <= d) by (nonlinear_arith)
        requires
            t * d == den * q + r,
            0 <= r < den,
            0 <= t <= den,
    ;
    assert(d < 0 ==> d <= q <= 0) by (nonlinear_arith)
        requires
            t * d == den * q + r,
            0 <= r < den,
            0 <= t <= den,
    ;
}

fn along_exec(a: i64, b: i64, t: i128, den: i128) -> (r: i64)
    requires
        den > 0,
        0 <= t <= den,
        den <= 0x10_0000_0000_0000_0000,
        -COORD_LIMIT <= a <= COORD_LIMIT,
        -COORD_LIMIT <= b <= COORD_LIMIT,
    ensures
        r == a + (t * (b - a)) / (den as int),
        a <= b ==> a <= r <= b,
        b < a ==> b <= r <= a,
{
    let d = b as i128 - a as i128;
    proof {
        lemma_mul_abs_bound(t as int, d as int, 0x10_0000_0000_0000_0000, 2 * COORD_LIMIT as int);
        lemma_fraction_between(t as int, den as int, d as int);
    }
    let q = floor_div(t * d, den);
    (a as i128 + q) as i64
}

/// The shared work of `line_intersects` and `line_segment_intersect`.
fn crossing(a1: Point, a2: Point, b1: Point, b2: Point, to_end: bool) -> (r: Option<Point>)
    requires
        a1.bounded(),
        a2.bounded(),
        b1.bounded(),
        b2.bounded(),
    ensures
        r == crossing_spec(a1, a2, b1, b2, to_end),
        r matches Some(p) ==> p.bounded(),
{
    let lim = 2 * COORD_LIMIT as i128;
    let ax = a1.x as i128 - a2.x as i128;
    let ay = a1.y as i128 - a2.y as i128;
    let bx = b1.x as i128 - b2.x as i128;
    let by = b1.y as i128 - b2.y as i128;
    let cx = a1.x as i128 - b1.x as i128;
    let cy = a1.y as i128 - b1.y as i128;
    proof {
        let l = lim as int;
        lemma_mul_abs_bound(ax as int, by as int, l, l);
        lemma_mul_abs_bound(ay as int, bx as int, l, l);
        lemma_mul_abs_bound(cx as int, by as int, l, l);
        lemma_mul_abs_bound(cy as int, bx as int, l, l);
        lemma_mul_abs_bound(ax as int, cy as int, l, l);
        lemma_mul_abs_bound(ay as int, cx as int, l, l);
    }
    let den = ax * by - ay * bx;
    if den == 0 {
        return None;
    }
    let t = cx * by - cy * bx;
    let u = -(ax * cy - ay * cx);
    let (den_p, t_p, u_p) = if den > 0 {
        (den, t, u)
    } else {
        (-den, -t, -u)
    };
    if !(0 <= t_p && t_p <= den_p && 0 <= u_p) {
        return None;
    }
    if to_end && u_p > den_p {
        return None;
    }
    let x = along_exec(a1.x, a2.x, t_p, den_p);
    let y = along_exec(a1.y, a2.y, t_p, den_p);
    Some(Point { x, y })
}

/// Where the segment `pa1 -> pa2` meets the half-line that starts at `pb1`
/// and runs through `pb2`; `None` when they do not meet or are parallel.
pub fn line_intersects(pa1: Point, pa2: Point, pb1: Point, pb2: Point) -> (r: Option<Point>)
    requires
        pa1.bounded(),
        pa2.bounded(),
        pb1.bounded(),
        pb2.bounded(),
    ensures
        r == crossing_spec(pa1, pa2, pb1, pb2, false),
        r matches Some(p) ==> p.bounded(),
{
    crossing(pa1, pa2, pb1, pb2, false)
}

/// Where the segments `pa1 -> pa2` and `pb1 -> pb2` meet; `None` when they
/// do not meet or are parallel.
pub fn line_segment_intersect(pa1: Point, pa2: Point, pb1: Point, pb2: Point) -> (r: Option<Point>)
    requires
        pa1.bounded(),
        pa2.bounded(),
        pb1.bounded(),
        pb2.bounded(),
    ensures
        r == crossing_spec(pa1, pa2, pb1, pb2, true),
        r matches Some(p) ==> p.bounded(),
{
    crossing(pa1, pa2, pb1, pb2, true)
}

} // verus!
