use vstd::prelude::*;
use crate::arith::{abs, ceil_sqrt, floor_div, is_ceil_sqrt, lemma_mul_abs_bound};
use crate::intersect::{line_intersects, line_segment_intersect, meeting_point, meets};
use crate::point::{
    Point, Turn, COORD_LIMIT, TURN_LIMIT, near_unit, zero_or_unit, cross_spec, dot_spec, in_limit, lemma_quotient_bound,
    rotated_spec,
};
use crate::rect::{Rectangle, WALL_LIMIT, inside_closed, wall_spec};
use crate::outline::{
    convex_walk,
    distance_nearly_kept,
    fits_in, wall_step,
    all_bounded, all_within, centre_of, chain, check_spec, closest_spec, collision_spec,
    contains_spec, corner_inside, crosses, crossings, cut_point, dist_sq, edge, edge_cut,
    edge_dist, edge_hit, first_from, intersect_spec, kept_in_order, left_turn,
    lemma_centre_within, lemma_cross_bound, lemma_max_dist_bound, max_dist_sq, max_x, max_y,
    min_x, min_y, nearest_edge, nearest_on_edge, no_left_turns, prev, rotated_all, shift_fits,
    shifted, split_spec, sum_x, sum_y, twice_signed_area, wall_hits, wall_pass,
};

verus! {

/// A convex polygon: its corners in order, with the centre and bounding
/// radius kept alongside them.
pub struct Polygon {
    pub points: Vec<Point>,
    /// The mean of the corners, each coordinate rounded down.
    pub centre: Point,
    /// The least integer that is at least the largest distance from the
    /// centre to a corner.
    pub radius: i64,
}

fn crosses_exec(p: Point, a: Point, b: Point) -> (r: bool)
    requires
        p.bounded(),
        a.bounded(),
        b.bounded(),
    ensures
        r == crosses(p, a, b),
{
    let spans = (b.y <= p.y && p.y < a.y) || (a.y <= p.y && p.y < b.y);
    if !spans {
        return false;
    }
    let l = 2 * COORD_LIMIT as i128;
    let dx = p.x as i128 - b.x as i128;
    let ey = a.y as i128 - b.y as i128;
    let ex = a.x as i128 - b.x as i128;
    let dy = p.y as i128 - b.y as i128;
    proof {
        lemma_mul_abs_bound(dx as int, ey as int, l as int, l as int);
        lemma_mul_abs_bound(ex as int, dy as int, l as int, l as int);
    }
    let lhs = dx * ey;
    let rhs = ex * dy;
    if a.y > b.y {
        lhs < rhs
    } else {
        lhs > rhs
    }
}

proof fn lemma_radius_bound(r: int, v: int)
    requires
        is_ceil_sqrt(r, v),
        v <= 8 * COORD_LIMIT * COORD_LIMIT,
    ensures
        r <= 0x1_0000_0000,
{
    if r > 0x1_0000_0000 {
        assert((r - 1) * (r - 1) >= 0x1_0000_0000 * 0x1_0000_0000) by (nonlinear_arith)
            requires
                r > 0x1_0000_0000,
        ;
    }
}

proof fn lemma_mod_wrap(x: int, n: int)
    requires
        0 <= x < 2 * n,
    ensures
        x % n == if x < n { x } else { x - n },
{
    if x < n {
        vstd::arithmetic::div_mod::lemma_fundamental_div_mod_converse(x, n, 0, x);
    } else {
        vstd::arithmetic::div_mod::lemma_fundamental_div_mod_converse(x, n, 1, x - n);
    }
}

fn left_turn_exec(a: Point, b: Point, c: Point) -> (r: bool)
    requires
        a.bounded(),
        b.bounded(),
        c.bounded(),
    ensures
        r == left_turn(a, b, c),
{
    let ghost l = 2 * COORD_LIMIT as int;
    let ux = c.x as i128 - a.x as i128;
    let uy = a.y as i128 - b.y as i128;
    let vy = a.y as i128 - c.y as i128;
    let vx = b.x as i128 - a.x as i128;
    proof {
        lemma_mul_abs_bound(ux as int, uy as int, l, l);
        lemma_mul_abs_bound(vy as int, vx as int, l, l);
    }
    ux * uy - vy * vx < 0
}

/// Removes corners until no three consecutive corners make a left turn
/// (see `convex_walk`): the corners are walked from the first, and where the
/// turn at the next corner goes left that corner is removed and the walk
/// starts over. The walk stops early once fewer than four corners are left.
pub fn make_convex(points: Vec<Point>) -> (r: Vec<Point>)
    requires
        all_bounded(points@),
    ensures
        r@ == convex_walk(points@, 0),
        exists|idx: Seq<int>| kept_in_order(r@, points@, idx),
        all_bounded(r@),
        points@.len() < 4 ==> r@ == points@,
        points@.len() >= 4 ==> r@.len() >= 3,
        r@.len() >= 4 ==> no_left_turns(r@),
        no_left_turns(points@) ==> r@ == points@,
{
    let ghost s = points@;
    let ghost mut idx: Seq<int> = Seq::new(s.len(), |j: int| j);
    let mut points = points;
    let mut i: usize = 0;
    assert(kept_in_order(points@, s, idx));
    while points.len() >= 4 && i < points.len()
        invariant
            kept_in_order(points@, s, idx),
            all_bounded(points@),
            s.len() < 4 ==> points@ == s,
            s.len() >= 4 ==> points@.len() >= 3,
            no_left_turns(s) ==> points@ == s,
            convex_walk(s, 0) == convex_walk(points@, i as int),
            i <= points@.len(),
            forall|k: int|
                0 <= k < i ==> !#[trigger] left_turn(
                    points@[k],
                    points@[(k + 1) % (points@.len() as int)],
                    points@[(k + 2) % (points@.len() as int)],
                ),
        decreases points@.len(), points@.len() - i,
    {
        let n = points.len();
        let m: usize = if i + 1 == n {
            0
        } else {
            i + 1
        };
        let m2: usize = if m + 1 == n {
            0
        } else {
            m + 1
        };
        proof {
            lemma_mod_wrap(i as int, n as int);
            lemma_mod_wrap(i + 1, n as int);
            lemma_mod_wrap(i + 2, n as int);
        }
        let a = points[i];
        let b = points[m];
        let c = points[m2];
        if left_turn_exec(a, b, c) {
            let ghost old_points = points@;
            let ghost old_idx = idx;
            points.remove(m);
            proof {
                idx = idx.remove(m as int);
                assert forall|j: int| 0 <= j < points@.len() implies 0 <= #[trigger] idx[j] < s.len()
                    && points@[j] == s[idx[j]] by {
                    if j < m {
                        assert(idx[j] == old_idx[j]);
                    } else {
                        assert(idx[j] == old_idx[j + 1]);
                    }
                }
                assert forall|j: int, k: int| 0 <= j < k < points@.len() implies #[trigger] idx[j]
                    < #[trigger] idx[k] by {
                    let j0 = if j < m { j } else { j + 1 };
                    let k0 = if k < m { k } else { k + 1 };
                    assert(idx[j] == old_idx[j0]);
                    assert(idx[k] == old_idx[k0]);
                    assert(old_idx[j0] < old_idx[k0]);
                }
                assert forall|j: int| 0 <= j < points@.len() implies #[trigger] points@[j].within(
                    COORD_LIMIT as int,
                ) by {
                    if j < m {
                        assert(points@[j] == old_points[j]);
                    } else {
                        assert(points@[j] == old_points[j + 1]);
                    }
                }
            }
            i = 0;
        } else {
            i = i + 1;
        }
    }
    points
}

proof fn lemma_nearest_bounded(a: Point, b: Point, p: Point)
    requires
        a.bounded(),
        b.bounded(),
        p.bounded(),
    ensures
        nearest_on_edge(a, b, p).bounded(),
        0 <= dist_sq(p, nearest_on_edge(a, b, p)) <= 8 * COORD_LIMIT * COORD_LIMIT,
{
    let bx = b.x - a.x;
    let by = b.y - a.y;
    let num = (p.x - a.x) * bx + (p.y - a.y) * by;
    let den = bx * bx + by * by;
    if !(num <= 0 || den == 0) && num < den {
        crate::intersect::lemma_fraction_between(num, den, bx);
        crate::intersect::lemma_fraction_between(num, den, by);
    }
    let q = nearest_on_edge(a, b, p);
    let l = 2 * COORD_LIMIT as int;
    lemma_mul_abs_bound(p.x - q.x, p.x - q.x, l, l);
    lemma_mul_abs_bound(p.y - q.y, p.y - q.y, l, l);
    assert(0 <= dist_sq(p, q)) by (nonlinear_arith);
}

fn nearest_on_edge_exec(a: Point, b: Point, p: Point) -> (r: Point)
    requires
        a.bounded(),
        b.bounded(),
        p.bounded(),
    ensures
        r == nearest_on_edge(a, b, p),
        r.bounded(),
{
    proof {
        lemma_nearest_bounded(a, b, p);
    }
    let ghost l = 2 * COORD_LIMIT as int;
    let bx = b.x as i128 - a.x as i128;
    let by = b.y as i128 - a.y as i128;
    let ax = p.x as i128 - a.x as i128;
    let ay = p.y as i128 - a.y as i128;
    proof {
        lemma_mul_abs_bound(ax as int, bx as int, l, l);
        lemma_mul_abs_bound(ay as int, by as int, l, l);
        lemma_mul_abs_bound(bx as int, bx as int, l, l);
        lemma_mul_abs_bound(by as int, by as int, l, l);
    }
    let num = ax * bx + ay * by;
    let den = bx * bx + by * by;
    if num <= 0 || den == 0 {
        a
    } else if num >= den {
        b
    } else {
        proof {
            lemma_mul_abs_bound(num as int, bx as int, 2 * l * l, l);
            lemma_mul_abs_bound(num as int, by as int, 2 * l * l, l);
            crate::intersect::lemma_fraction_between(num as int, den as int, bx as int);
            crate::intersect::lemma_fraction_between(num as int, den as int, by as int);
        }
        let qx = floor_div(num * bx, den);
        let qy = floor_div(num * by, den);
        Point::new((a.x as i128 + qx) as i64, (a.y as i128 + qy) as i64)
    }
}

proof fn lemma_shift_twice(s: Seq<Point>, ox: int, oy: int, dx: int, dy: int)
    requires
        shift_fits(s, ox, oy),
        shift_fits(s, ox + dx, oy + dy),
    ensures
        shift_fits(shifted(s, ox, oy), dx, dy),
        shifted(shifted(s, ox, oy), dx, dy) == shifted(s, ox + dx, oy + dy),
{
    let t = shifted(s, ox, oy);
    assert forall|i: int| 0 <= i < t.len() implies in_limit(#[trigger] t[i].x + dx, COORD_LIMIT as int)
        && in_limit(t[i].y + dy, COORD_LIMIT as int) && shifted(t, dx, dy)[i] == shifted(s, ox + dx, oy + dy)[i] by {
        assert(in_limit(s[i].x + ox, COORD_LIMIT as int));
        assert(in_limit(s[i].x + ox + dx, COORD_LIMIT as int));
    }
    assert(shifted(t, dx, dy) == shifted(s, ox + dx, oy + dy));
}

/// A vector near unit length in units of `1 / TURN_SCALE` can be negated.
proof fn lemma_within_product(n: Point)
    ensures
        zero_or_unit(n) ==> n.symmetric(),
{
    if near_unit(n) {
        assert(-0x2_0000 <= n.x <= 0x2_0000 && -0x2_0000 <= n.y <= 0x2_0000) by (nonlinear_arith)
            requires
                n.x * n.x + n.y * n.y <= 0x1_0000 * 0x1_0000 + 6 * 0x1_0000,
        ;
    }
}

impl Polygon {
    /// The corners lie within the coordinate range, and the centre and the
    /// radius are those of the corners.
    pub open spec fn wf(&self) -> bool {
        &&& all_bounded(self.points@)
        &&& self.centre == centre_of(self.points@)
        &&& is_ceil_sqrt(self.radius as int, max_dist_sq(self.points@, self.centre))
    }

    pub fn new(points: Vec<Point>) -> (r: Polygon)
        requires
            all_bounded(points@),
        ensures
            r.wf(),
            r.points@ == points@,
    {
        let mut poly = Polygon { points, centre: Point::new(0, 0), radius: 0 };
        poly.calc_centre();
        poly.calc_radius();
        poly
    }

    /// Sets the centre to the mean of the corners, rounded down.
    pub fn calc_centre(&mut self)
        requires
            all_bounded(old(self).points@),
        ensures
            final(self).points == old(self).points,
            final(self).radius == old(self).radius,
            final(self).centre == centre_of(old(self).points@),
            final(self).centre.bounded(),
    {
        let n = self.points.len();
        let ghost s = self.points@;
        let mut sx: i128 = 0;
        let mut sy: i128 = 0;
        let mut i: usize = 0;
        while i < n
            invariant
                s == self.points@,
                n == s.len(),
                all_bounded(s),
                0 <= i <= n,
                sx == sum_x(s.take(i as int)),
                sy == sum_y(s.take(i as int)),
                -(COORD_LIMIT * i) <= sx <= COORD_LIMIT * i,
                -(COORD_LIMIT * i) <= sy <= COORD_LIMIT * i,
            decreases n - i,
        {
            let p = self.points[i];
            assert(s.take(i as int + 1).drop_last() == s.take(i as int));
            assert(p.bounded());
            sx = sx + p.x as i128;
            sy = sy + p.y as i128;
            i = i + 1;
        }
        assert(s.take(n as int) == s);
        proof {
            lemma_centre_within(s, COORD_LIMIT as int);
        }
        if n == 0 {
            self.centre = Point::new(0, 0);
        } else {
            let cx = floor_div(sx, n as i128);
            let cy = floor_div(sy, n as i128);
            self.centre = Point::new(cx as i64, cy as i64);
        }
    }

    /// Sets the radius from the corners and the current centre.
    pub fn calc_radius(&mut self)
        requires
            all_bounded(old(self).points@),
            old(self).centre.bounded(),
        ensures
            final(self).points == old(self).points,
            final(self).centre == old(self).centre,
            is_ceil_sqrt(final(self).radius as int, max_dist_sq(old(self).points@, old(self).centre)),
    {
        let n = self.points.len();
        let ghost s = self.points@;
        let c = self.centre;
        let mut best: i128 = 0;
        let mut i: usize = 0;
        while i < n
            invariant
                s == self.points@,
                c == self.centre,
                c.bounded(),
                n == s.len(),
                all_bounded(s),
                0 <= i <= n,
                best == max_dist_sq(s.take(i as int), c),
            decreases n - i,
        {
            let p = self.points[i];
            assert(s.take(i as int + 1).drop_last() == s.take(i as int));
            assert(s.take(i as int + 1).last() == p);
            assert(p.bounded());
            let d = p.dist_squared(c);
            if best < d {
                best = d;
            }
            i = i + 1;
        }
        assert(s.take(n as int) == s);
        proof {
            lemma_max_dist_bound(s, c);
        }
        self.radius = ceil_sqrt(best);
    }

    /// Twice the area enclosed by the outline.
    pub fn twice_area(&self) -> (r: i128)
        requires
            self.points@.len() >= 3,
            all_bounded(self.points@),
        ensures
            r == abs(twice_signed_area(self.points@)),
    {
        let n = self.points.len();
        let ghost s = self.points@;
        let bound: i128 = 0x4000_0000_0000_0000;
        proof {
            assert(s[n - 1].bounded() && s[0].bounded());
            lemma_cross_bound(s[n - 1], s[0]);
        }
        let mut sum: i128 = self.points[n - 1].cross(self.points[0]);
        let mut i: usize = 1;
        while i < n
            invariant
                s == self.points@,
                n == s.len(),
                n >= 3,
                all_bounded(s),
                1 <= i <= n,
                bound == 0x4000_0000_0000_0000,
                sum == cross_spec(s.last(), s[0]) + chain(s, i as int),
                -(bound * i) <= sum <= bound * i,
            decreases n - i,
        {
            proof {
                assert(s[i - 1].bounded() && s[i as int].bounded());
                lemma_cross_bound(s[i - 1], s[i as int]);
            }
            sum = sum + self.points[i - 1].cross(self.points[i]);
            i = i + 1;
        }
        if sum < 0 {
            -sum
        } else {
            sum
        }
    }

    /// The area enclosed by the outline, rounded down.
    pub fn area(&self) -> (r: i128)
        requires
            self.points@.len() >= 3,
            all_bounded(self.points@),
        ensures
            r == abs(twice_signed_area(self.points@)) / 2,
    {
        self.twice_area() / 2
    }

    /// Whether the enclosed area, rounded down, is below `limit`; a polygon
    /// with fewer than three corners encloses nothing.
    pub fn smaller_than(&self, limit: i128) -> (r: bool)
        requires
            all_bounded(self.points@),
        ensures
            r == ((if self.points@.len() < 3 {
                0
            } else {
                abs(twice_signed_area(self.points@)) / 2
            }) < limit),
    {
        if self.points.len() < 3 {
            0 < limit
        } else {
            self.area() < limit
        }
    }

    /// Whether `p` lies inside the outline by the even-odd rule. Always false
    /// for fewer than three corners. A point on the outline may count either way.
    pub fn contains_point(&self, p: Point) -> (r: bool)
        requires
            all_bounded(self.points@),
            p.bounded(),
        ensures
            r == contains_spec(self.points@, p),
    {
        let n = self.points.len();
        if n <= 2 {
            return false;
        }
        let ghost s = self.points@;
        let mut c = false;
        let mut a = self.points[n - 1];
        let mut i: usize = 0;
        while i < n
            invariant
                s == self.points@,
                n == s.len(),
                n >= 3,
                all_bounded(s),
                p.bounded(),
                0 <= i <= n,
                a == s[prev(n as int, i as int)],
                c == (crossings(s, p, i as int) % 2 == 1),
            decreases n - i,
        {
            let b = self.points[i];
            assert(a.bounded() && b.bounded());
            if crosses_exec(p, a, b) {
                c = !c;
            }
            a = b;
            i = i + 1;
        }
        c
    }

    /// Where the segment from `p1` (outside) to `p2` (inside) first meets an
    /// edge, and that edge's unit normal turned towards `p1`, in units of
    /// `1 / TURN_SCALE` (zero where the segment runs along the edge).
    fn get_intersect(&self, p1: Point, p2: Point) -> (r: Option<(Point, Point)>)
        requires
            all_bounded(self.points@),
            p1.bounded(),
            p2.bounded(),
        ensures
            r == intersect_spec(self.points@, p1, p2),
            r matches Some((h, n)) ==> h.bounded() && n.symmetric() && zero_or_unit(n),
    {
        let n = self.points.len();
        let ghost s = self.points@;
        let ghost f = edge_hit(s, p1, p2);
        if n == 0 {
            return None;
        }
        let mut a = self.points[n - 1];
        let mut i: usize = 0;
        while i < n
            invariant
                s == self.points@,
                n == s.len(),
                n >= 1,
                all_bounded(s),
                p1.bounded(),
                p2.bounded(),
                f == edge_hit(s, p1, p2),
                0 <= i <= n,
                i < n ==> a == s[prev(n as int, i as int)],
                first_from(n as int, 0, f) == first_from(n as int, i as int, f),
            decreases n - i,
        {
            let b = self.points[i];
            assert(a.bounded() && b.bounded());
            assert(edge(s, i as int) == (a, b));
            match line_segment_intersect(p1, p2, a, b) {
                Some(h) => {
                    let d = b.sub(a);
                    let rot = Point::new(-d.y, d.x);
                    let out = p1.sub(h);
                    let k = rot.dot(out);
                    let normal = if k > 0 {
                        rot
                    } else if k < 0 {
                        rot.neg()
                    } else {
                        Point::new(0, 0)
                    };
                    let unit = normal.unit();
                    proof {
                        lemma_within_product(unit);
                    }
                    return Some((h, unit));
                },
                None => {},
            }
            a = b;
            i = i + 1;
        }
        None
    }

    /// Contact found by testing the corners of `other` against this polygon
    /// (see `check_spec`).
    fn check_collision(&self, other: &Polygon) -> (r: Option<(Point, Point, Point)>)
        requires
            all_bounded(self.points@),
            other.wf(),
        ensures
            r == check_spec(self.points@, other.points@, other.centre),
            r matches Some((c, o, n)) ==> c.bounded() && o.symmetric() && n.symmetric() && zero_or_unit(n),
    {
        let n = other.points.len();
        let ghost q = other.points@;
        let ghost f = corner_inside(self.points@, q);
        let mut i: usize = 0;
        proof {
            lemma_centre_within(q, COORD_LIMIT as int);
        }
        while i < n
            invariant
                q == other.points@,
                n == q.len(),
                all_bounded(self.points@),
                other.wf(),
                other.centre.bounded(),
                f == corner_inside(self.points@, q),
                0 <= i <= n,
                first_from(n as int, 0, f) == first_from(n as int, i as int, f),
            decreases n - i,
        {
            let p = other.points[i];
            assert(p.bounded());
            if self.contains_point(p) {
                return match self.get_intersect(p, other.centre) {
                    Some((h, normal)) => Some((h, h.sub(p), normal)),
                    None => None,
                };
            }
            i = i + 1;
        }
        None
    }

    /// The contact between this polygon and `other`, if one is found: the
    /// contact point, the shift that moves this polygon clear of `other`,
    /// and the normal at the contact (see `collision_spec`). A polygon with
    /// fewer than three corners touches nothing.
    pub fn get_collision(&self, other: &Polygon) -> (r: Option<(Point, Point, Point)>)
        requires
            self.wf(),
            other.wf(),
        ensures
            r == collision_spec(self.points@, self.centre, other.points@, other.centre),
            self.points@.len() < 3 || other.points@.len() < 3 ==> r is None,
            r matches Some((c, o, n)) ==> zero_or_unit(n),
    {
        if self.points.len() < 3 || other.points.len() < 3 {
            return None;
        }
        match self.check_collision(other) {
            Some(t) => Some(t),
            None => match other.check_collision(self) {
                Some((c, o, n)) => Some((c, o.neg(), n)),
                None => None,
            },
        }
    }

    /// Whether every corner lies within `-limit ..= limit`.
    pub fn fits_within(&self, limit: i64) -> (r: bool)
        ensures
            r == all_within(self.points@, limit as int),
    {
        let n = self.points.len();
        let mut i: usize = 0;
        while i < n
            invariant
                n == self.points@.len(),
                0 <= i <= n,
                all_within(self.points@.take(i as int), limit as int),
            decreases n - i,
        {
            let p = self.points[i];
            if !(-(limit as i128) <= p.x as i128 && p.x as i128 <= limit as i128 && -(limit as i128)
                <= p.y as i128 && p.y as i128 <= limit as i128) {
                assert(!self.points@[i as int].within(limit as int));
                return false;
            }
            assert(all_within(self.points@.take(i as int + 1), limit as int)) by {
                assert forall|k: int| 0 <= k < i + 1 implies #[trigger] self.points@.take(
                    i as int + 1,
                )[k].within(limit as int) by {
                    if k < i {
                        assert(self.points@.take(i as int)[k] == self.points@[k]);
                    }
                }
            }
            i = i + 1;
        }
        assert(self.points@.take(n as int) == self.points@);
        true
    }

    /// Whether every corner moved by `(dx, dy)` stays within the coordinate range.
    pub fn can_shift(&self, dx: i64, dy: i64) -> (r: bool)
        ensures
            r == shift_fits(self.points@, dx as int, dy as int),
    {
        let n = self.points.len();
        let lim = COORD_LIMIT as i128;
        let mut i: usize = 0;
        while i < n
            invariant
                n == self.points@.len(),
                lim == COORD_LIMIT,
                0 <= i <= n,
                forall|k: int|
                    0 <= k < i ==> in_limit(#[trigger] self.points@[k].x + dx, COORD_LIMIT as int)
                        && in_limit(self.points@[k].y + dy, COORD_LIMIT as int),
            decreases n - i,
        {
            let p = self.points[i];
            let x = p.x as i128 + dx as i128;
            let y = p.y as i128 + dy as i128;
            if !(-lim <= x && x <= lim && -lim <= y && y <= lim) {
                return false;
            }
            i = i + 1;
        }
        true
    }

    /// Moves every corner by `(dx, dy)`.
    pub fn shift(&mut self, dx: i64, dy: i64)
        requires
            old(self).wf(),
            shift_fits(old(self).points@, dx as int, dy as int),
        ensures
            final(self).wf(),
            final(self).points@ == shifted(old(self).points@, dx as int, dy as int),
            old(self).points@.len() > 0 ==> final(self).centre.x == old(self).centre.x + dx,
            old(self).points@.len() > 0 ==> final(self).centre.y == old(self).centre.y + dy,
            final(self).radius == old(self).radius,
    {
        let n = self.points.len();
        let ghost t = shifted(self.points@, dx as int, dy as int);
        let mut v: Vec<Point> = Vec::new();
        let mut i: usize = 0;
        while i < n
            invariant
                n == self.points@.len(),
                t == shifted(self.points@, dx as int, dy as int),
                shift_fits(self.points@, dx as int, dy as int),
                0 <= i <= n,
                v@ == t.take(i as int),
            decreases n - i,
        {
            let p = self.points[i];
            assert(in_limit(self.points@[i as int].x + dx, COORD_LIMIT as int));
            v.push(Point::new(p.x + dx, p.y + dy));
            assert(v@ == t.take(i as int + 1));
            i = i + 1;
        }
        assert(t.take(n as int) == t);
        assert(all_bounded(t)) by {
            assert forall|k: int| 0 <= k < t.len() implies #[trigger] t[k].within(COORD_LIMIT as int) by {
                assert(in_limit(self.points@[k].x + dx, COORD_LIMIT as int));
            }
        }
        let ghost old_radius = self.radius;
        let ghost old_max = max_dist_sq(self.points@, self.centre);
        let ghost s = self.points@;
        self.points = v;
        self.calc_centre();
        self.calc_radius();
        proof {
            if n > 0 {
                crate::laws::lemma_shift_moves_centre(s, dx as int, dy as int);
                crate::arith::lemma_ceil_sqrt_unique(old_radius as int, self.radius as int, old_max);
            } else {
                assert(self.points@.len() == 0);
            }
        }
    }

    /// Turns every corner by `t` around the centre, rounding each coordinate down.
    pub fn rotate(&mut self, t: Turn)
        requires
            old(self).wf(),
            t.wf(),
            all_within(old(self).points@, TURN_LIMIT as int),
        ensures
            final(self).wf(),
            final(self).points@ == rotated_all(old(self).points@, t, old(self).centre),
            forall|i: int|
                0 <= i < old(self).points@.len() ==> distance_nearly_kept(
                    old(self).points@[i],
                    #[trigger] final(self).points@[i],
                    old(self).centre,
                ),
            old(self).points@.len() > 0 ==> old(self).centre.x - 3 <= final(self).centre.x <= old(self).centre.x + 3,
            old(self).points@.len() > 0 ==> old(self).centre.y - 3 <= final(self).centre.y <= old(self).centre.y + 3,
    {
        let n = self.points.len();
        let c = self.centre;
        let ghost s = self.points@;
        let ghost u = rotated_all(s, t, c);
        proof {
            lemma_centre_within(s, TURN_LIMIT as int);
        }
        let mut v: Vec<Point> = Vec::new();
        let mut i: usize = 0;
        while i < n
            invariant
                s == self.points@,
                n == s.len(),
                u == rotated_all(s, t, c),
                t.wf(),
                c.within(TURN_LIMIT as int),
                all_within(s, TURN_LIMIT as int),
                0 <= i <= n,
                v@ == u.take(i as int),
                all_bounded(v@),
                forall|k: int| 0 <= k < i ==> distance_nearly_kept(s[k], #[trigger] v@[k], c),
            decreases n - i,
        {
            let p = self.points[i];
            assert(p.within(TURN_LIMIT as int));
            let r = p.rotated(t, c);
            assert(distance_nearly_kept(p, r, c));
            v.push(r);
            assert(v@ == u.take(i as int + 1));
            i = i + 1;
        }
        assert(u.take(n as int) == u);
        proof {
            if n > 0 {
                crate::laws::lemma_rotation_nearly_keeps_centre(s, t);
            }
        }
        self.points = v;
        self.calc_centre();
        self.calc_radius();
    }

    /// Whether the bounding circles of the two polygons overlap: when they
    /// do not, the polygons cannot touch.
    pub fn may_touch(&self, other: &Polygon) -> (r: bool)
        requires
            self.wf(),
            other.wf(),
        ensures
            r == (dist_sq(self.centre, other.centre) < (self.radius + other.radius) * (self.radius
                + other.radius)),
    {
        proof {
            lemma_centre_within(self.points@, COORD_LIMIT as int);
            lemma_centre_within(other.points@, COORD_LIMIT as int);
            lemma_max_dist_bound(self.points@, self.centre);
            lemma_max_dist_bound(other.points@, other.centre);
            lemma_radius_bound(self.radius as int, max_dist_sq(self.points@, self.centre));
            lemma_radius_bound(other.radius as int, max_dist_sq(other.points@, other.centre));
        }
        let d = self.centre.dist_squared(other.centre);
        let s = self.radius as i128 + other.radius as i128;
        proof {
            lemma_mul_abs_bound(s as int, s as int, 0x2_0000_0000, 0x2_0000_0000);
        }
        d < s * s
    }

    /// The first edge from `k` on that the half-line from `p1` through `p2`
    /// meets, and where.
    fn first_cut_from(&self, k: usize, p1: Point, p2: Point) -> (r: Option<(usize, Point)>)
        requires
            all_bounded(self.points@),
            self.points@.len() >= 1,
            k <= self.points@.len(),
            p1.bounded(),
            p2.bounded(),
        ensures
            match r {
                None => first_from(self.points@.len() as int, k as int, edge_cut(self.points@, p1, p2)) is None,
                Some((i, p)) => {
                    &&& first_from(self.points@.len() as int, k as int, edge_cut(self.points@, p1, p2)) == Some(i as int)
                    &&& k <= i < self.points@.len()
                    &&& p == cut_point(self.points@, i as int, p1, p2)
                    &&& p.bounded()
                },
            },
    {
        let n = self.points.len();
        let ghost s = self.points@;
        let ghost f = edge_cut(s, p1, p2);
        let mut i: usize = k;
        while i < n
            invariant
                s == self.points@,
                n == s.len(),
                n >= 1,
                all_bounded(s),
                p1.bounded(),
                p2.bounded(),
                f == edge_cut(s, p1, p2),
                k <= i <= n,
                first_from(n as int, k as int, f) == first_from(n as int, i as int, f),
            decreases n - i,
        {
            let a = if i == 0 {
                self.points[n - 1]
            } else {
                self.points[i - 1]
            };
            let b = self.points[i];
            assert(a.bounded() && b.bounded());
            assert(edge(s, i as int) == (a, b));
            match line_intersects(a, b, p1, p2) {
                Some(p) => {
                    return Some((i, p));
                },
                None => {},
            }
            i = i + 1;
        }
        None
    }

    /// Cuts the polygon along the half-line from `p1` through `p2` (see
    /// `split_spec`); `None` when it meets fewer than two edges.
    pub fn split(&self, p1: Point, p2: Point) -> (r: Option<(Polygon, Polygon)>)
        requires
            self.wf(),
            self.points@.len() >= 3,
            p1.bounded(),
            p2.bounded(),
        ensures
            match r {
                None => split_spec(self.points@, p1, p2) is None,
                Some((a, b)) => {
                    &&& split_spec(self.points@, p1, p2) == Some((a.points@, b.points@))
                    &&& a.wf()
                    &&& b.wf()
                },
            },
    {
        let n = self.points.len();
        let ghost s = self.points@;
        let ghost f = edge_cut(s, p1, p2);
        let (ix, p) = match self.first_cut_from(0, p1, p2) {
            None => {
                return None;
            },
            Some(t) => t,
        };
        let (ix2, q) = match self.first_cut_from(ix + 1, p1, p2) {
            None => {
                return None;
            },
            Some(t) => t,
        };
        assert(p.bounded() && q.bounded());
        let mut kept: Vec<Point> = Vec::new();
        let mut cut: Vec<Point> = Vec::new();
        cut.push(p);
        let mut k: usize = 0;
        while k < ix
            invariant
                s == self.points@,
                n == s.len(),
                0 <= k <= ix < n,
                kept@ == s.take(k as int),
            decreases ix - k,
        {
            kept.push(self.points[k]);
            assert(kept@ == s.take(k as int + 1));
            k = k + 1;
        }
        kept.push(p);
        kept.push(q);
        while k < ix2
            invariant
                s == self.points@,
                n == s.len(),
                ix <= k <= ix2 < n,
                cut@ == seq![p] + s.subrange(ix as int, k as int),
            decreases ix2 - k,
        {
            cut.push(self.points[k]);
            assert(cut@ == seq![p] + s.subrange(ix as int, k as int + 1));
            k = k + 1;
        }
        cut.push(q);
        let ghost head = kept@;
        while k < n
            invariant
                s == self.points@,
                n == s.len(),
                ix2 <= k <= n,
                kept@ == head + s.subrange(ix2 as int, k as int),
            decreases n - k,
        {
            kept.push(self.points[k]);
            assert(kept@ == head + s.subrange(ix2 as int, k as int + 1));
            k = k + 1;
        }
        assert(s.subrange(ix2 as int, n as int) == s.skip(ix2 as int));
        assert(all_bounded(kept@)) by {
            assert forall|i: int| 0 <= i < kept@.len() implies #[trigger] kept@[i].within(COORD_LIMIT as int) by {
                if i < ix {
                    assert(kept@[i] == s[i]);
                } else if i >= ix + 2 {
                    assert(kept@[i] == s[i - ix - 2 + ix2]);
                }
            }
        }
        assert(all_bounded(cut@)) by {
            assert forall|i: int| 0 <= i < cut@.len() implies #[trigger] cut@[i].within(COORD_LIMIT as int) by {
                if 1 <= i < cut@.len() - 1 {
                    assert(cut@[i] == s[i - 1 + ix]);
                }
            }
        }
        Some((Polygon::new(kept), Polygon::new(cut)))
    }

    /// The point of the outline nearest to `p`, and there the perpendicular
    /// of its edge turned away from the centre (its length is the edge's).
    /// Of edges equally near, the first counts.
    pub fn closest_point(&self, p: Point) -> (r: (Point, Point))
        requires
            self.wf(),
            self.points@.len() >= 3,
            p.bounded(),
        ensures
            r == closest_spec(self.points@, self.centre, p),
            ({
                let (a, b) = edge(self.points@, nearest_edge(self.points@, p, self.points@.len() as int));
                let c = self.centre;
                let n = r.1;
                let side = n.x * (c.x - a.x) + n.y * (c.y - a.y);
                &&& n.x * (b.x - a.x) + n.y * (b.y - a.y) == 0
                &&& side <= 0
                &&& ((b.y - a.y) * (c.x - a.x) - (b.x - a.x) * (c.y - a.y) != 0 ==> side < 0)
            }),
    {
        let n = self.points.len();
        let ghost s = self.points@;
        let c = self.centre;
        proof {
            lemma_centre_within(s, COORD_LIMIT as int);
        }
        let mut best_k: usize = 0;
        let mut best_d: i128 = 0;
        let mut best_a = self.points[n - 1];
        let mut best_b = self.points[0];
        let mut best_q = best_a;
        let mut a = self.points[n - 1];
        let mut i: usize = 0;
        while i < n
            invariant
                s == self.points@,
                n == s.len(),
                n >= 3,
                all_bounded(s),
                p.bounded(),
                0 <= i <= n,
                i < n ==> a == s[prev(n as int, i as int)],
                i > 0 ==> best_k == nearest_edge(s, p, i as int),
                i > 0 ==> best_d == edge_dist(s, p, best_k as int),
                i > 0 ==> (best_a, best_b) == edge(s, best_k as int),
                i > 0 ==> best_q == nearest_on_edge(best_a, best_b, p),
                best_k < n,
                best_a.bounded() && best_b.bounded() && best_q.bounded(),
            decreases n - i,
        {
            let b = self.points[i];
            assert(a.bounded() && b.bounded());
            assert(edge(s, i as int) == (a, b));
            let q = nearest_on_edge_exec(a, b, p);
            proof {
                lemma_nearest_bounded(a, b, p);
            }
            let d = p.dist_squared(q);
            if i == 0 || d < best_d {
                best_k = i;
                best_d = d;
                best_a = a;
                best_b = b;
                best_q = q;
            }
            a = b;
            i = i + 1;
        }
        let ghost l = 2 * COORD_LIMIT as int;
        let nx = best_b.y as i128 - best_a.y as i128;
        let ny = -(best_b.x as i128 - best_a.x as i128);
        let vx = c.x as i128 - best_a.x as i128;
        let vy = c.y as i128 - best_a.y as i128;
        proof {
            lemma_mul_abs_bound(nx as int, vx as int, l, l);
            lemma_mul_abs_bound(ny as int, vy as int, l, l);
        }
        let side = nx * vx + ny * vy;
        let ghost ex = best_b.x - best_a.x;
        let ghost ey = best_b.y - best_a.y;
        let normal = if side < 0 {
            Point::new(nx as i64, ny as i64)
        } else {
            Point::new((-nx) as i64, (-ny) as i64)
        };
        proof {
            assert(nx * ex + ny * ey == 0) by (nonlinear_arith)
                requires
                    nx == ey,
                    ny == -ex,
            ;
            assert(side == ey * vx - ex * vy) by (nonlinear_arith)
                requires
                    side == nx * vx + ny * vy,
                    nx == ey,
                    ny == -ex,
            ;
            if side >= 0 {
                assert((-nx) * ex + (-ny) * ey == 0) by (nonlinear_arith)
                    requires
                        nx * ex + ny * ey == 0,
                ;
                assert((-nx) * vx + (-ny) * vy == -side) by (nonlinear_arith)
                    requires
                        side == nx * vx + ny * vy,
                ;
            }
        }
        (best_q, normal)
    }

    /// Tests the corners in order against the boundary `r`, each twice in a
    /// row; a corner beyond a side moves the polygon back onto that side
    /// before the next test. Each offending corner is resolved where it
    /// stands; the second test matters only for a corner beyond a side on
    /// each axis, which one correction leaves outside on the other. Returns the corrections in order: where the
    /// corner was put back, the side's inward normal, and the centre after the
    /// move. When the polygon fits the rectangle, every corner ends inside it.
    #[verifier::rlimit(60)]
    pub fn resolve_walls(&mut self, r: &Rectangle) -> (hits: Vec<(Point, Point, Point)>)
        requires
            old(self).wf(),
            r.within(WALL_LIMIT as int),
            all_within(old(self).points@, WALL_LIMIT as int),
        ensures
            final(self).wf(),
            final(self).points@ == wall_pass(old(self).points@, *r, 2 * old(self).points@.len() as int),
            hits@ == wall_hits(old(self).points@, *r, 2 * old(self).points@.len() as int),
            fits_in(old(self).points@, *r) ==> forall|j: int|
                0 <= j < final(self).points@.len() ==> #[trigger] inside_closed(*r, final(self).points@[j]),
    {
        let n = self.points.len();
        let ghost s = self.points@;
        let ghost mut ox: int = 0;
        let ghost mut oy: int = 0;
        let ghost wl = WALL_LIMIT as int;
        let mut hits: Vec<(Point, Point, Point)> = Vec::new();
        let mut i: usize = 0;
        assert(shifted(s, 0, 0) == s && shift_fits(s, 0, 0)) by {
            assert forall|k: int| 0 <= k < s.len() implies #[trigger] shifted(s, 0, 0)[k] == s[k] && in_limit(
                s[k].x + 0,
                COORD_LIMIT as int,
            ) && in_limit(s[k].y + 0, COORD_LIMIT as int) by {
                assert(s[k].bounded());
            }
        }
        while i < n
            invariant
                self.wf(),
                r.within(wl),
                wl == WALL_LIMIT,
                all_within(s, wl),
                n == s.len(),
                0 <= i <= n,
                -2 * wl <= ox <= 2 * wl,
                -2 * wl <= oy <= 2 * wl,
                shift_fits(s, ox, oy),
                self.points@ == shifted(s, ox, oy),
                self.points@ == wall_pass(s, *r, 2 * i),
                hits@ == wall_hits(s, *r, 2 * i),
                fits_in(s, *r) ==> fits_in(self.points@, *r),
                fits_in(s, *r) ==> forall|j: int| 0 <= j < i ==> #[trigger] inside_closed(*r, self.points@[j]),
            decreases n - i,
        {
            let mut round: usize = 0;
            while round < 2
                invariant
                    self.wf(),
                    r.within(wl),
                    wl == WALL_LIMIT,
                    all_within(s, wl),
                    n == s.len(),
                    0 <= i < n,
                    0 <= round <= 2,
                    -2 * wl <= ox <= 2 * wl,
                    -2 * wl <= oy <= 2 * wl,
                    shift_fits(s, ox, oy),
                    self.points@ == shifted(s, ox, oy),
                    self.points@ == wall_pass(s, *r, 2 * i + round),
                    hits@ == wall_hits(s, *r, 2 * i + round),
                    fits_in(s, *r) ==> fits_in(self.points@, *r),
                    fits_in(s, *r) ==> forall|j: int| 0 <= j < i ==> #[trigger] inside_closed(*r, self.points@[j]),
                    fits_in(s, *r) && round >= 1 ==> r.x <= self.points@[i as int].x <= r.x + r.w,
                    fits_in(s, *r) && round == 2 ==> inside_closed(*r, self.points@[i as int]),
                decreases 2 - round,
            {
                let ghost t = self.points@;
                let p = self.points[i];
                assert(p.bounded());
                assert(s[i as int].within(wl));
                assert((2 * i + round) / 2 == i as int);
                match r.wall_contact(p) {
                    Some((o, normal)) => {
                        proof {
                            let nx = ox + o.x;
                            let ny = oy + o.y;
                            assert(-2 * wl <= nx <= 2 * wl && -2 * wl <= ny <= 2 * wl);
                            assert(shift_fits(s, nx, ny)) by {
                                assert forall|k: int| 0 <= k < s.len() implies in_limit(
                                    #[trigger] s[k].x + nx,
                                    COORD_LIMIT as int,
                                ) && in_limit(s[k].y + ny, COORD_LIMIT as int) by {
                                    assert(s[k].within(wl));
                                }
                            }
                            lemma_shift_twice(s, ox, oy, o.x as int, o.y as int);
                            ox = nx;
                            oy = ny;
                            if fits_in(s, *r) {
                                crate::laws::lemma_wall_step(t, *r, i as int);
                            }
                        }
                        self.shift(o.x, o.y);
                        hits.push((self.points[i], normal, self.centre));
                    },
                    None => {
                        proof {
                            if fits_in(s, *r) {
                                crate::laws::lemma_wall_step(t, *r, i as int);
                            }
                        }
                    },
                }
                round = round + 1;
            }
            i = i + 1;
        }
        hits
    }

    pub fn corners(&self) -> (r: usize)
        ensures
            r == self.points@.len(),
    {
        self.points.len()
    }

    /// The edges in order: edge `i` runs from the corner before `i` to corner `i`.
    pub fn lines(&self) -> (r: Vec<(Point, Point)>)
        requires
            self.points@.len() >= 3,
        ensures
            r@.len() == self.points@.len(),
            forall|i: int| 0 <= i < r@.len() ==> #[trigger] r@[i] == edge(self.points@, i),
    {
        let n = self.points.len();
        let mut r: Vec<(Point, Point)> = Vec::new();
        let mut last = self.points[n - 1];
        let mut i: usize = 0;
        while i < n
            invariant
                n == self.points@.len(),
                n >= 3,
                0 <= i <= n,
                r@.len() == i,
                last == self.points@[prev(n as int, i as int)],
                forall|k: int| 0 <= k < i ==> #[trigger] r@[k] == edge(self.points@, k),
            decreases n - i,
        {
            let p = self.points[i];
            r.push((last, p));
            last = p;
            i = i + 1;
        }
        r
    }

    /// The smallest axis-aligned rectangle that holds every corner.
    pub fn bounds(&self) -> (r: Rectangle)
        requires
            self.points@.len() > 0,
            all_bounded(self.points@),
        ensures
            r.x == min_x(self.points@),
            r.y == min_y(self.points@),
            r.w == max_x(self.points@) - min_x(self.points@),
            r.h == max_y(self.points@) - min_y(self.points@),
    {
        let n = self.points.len();
        let ghost s = self.points@;
        let mut lo = self.points[0];
        let mut hi = lo;
        let mut i: usize = 1;
        assert(s.take(1).drop_last().len() == 0);
        while i < n
            invariant
                s == self.points@,
                n == s.len(),
                all_bounded(s),
                1 <= i <= n,
                lo.x == min_x(s.take(i as int)),
                lo.y == min_y(s.take(i as int)),
                hi.x == max_x(s.take(i as int)),
                hi.y == max_y(s.take(i as int)),
                lo.x <= hi.x,
                lo.y <= hi.y,
                lo.bounded(),
                hi.bounded(),
            decreases n - i,
        {
            let p = self.points[i];
            assert(s.take(i as int + 1).drop_last() == s.take(i as int));
            assert(s.take(i as int + 1).last() == p);
            assert(p.bounded());
            if p.x < lo.x {
                lo.x = p.x;
            } else if p.x > hi.x {
                hi.x = p.x;
            }
            if p.y < lo.y {
                lo.y = p.y;
            } else if p.y > hi.y {
                hi.y = p.y;
            }
            i = i + 1;
        }
        assert(s.take(n as int) == s);
        Rectangle::new(lo.x, lo.y, hi.x - lo.x, hi.y - lo.y)
    }
}

} // verus!
