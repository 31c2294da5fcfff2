// The mathematical model of a polygon's outline: spec functions over the
// sequence of its corners, which the contracts of `polygon` are stated in,
// and facts about the ranges of their values.

use vstd::prelude::*;
use crate::arith::{abs, lemma_mul_abs_bound};
use crate::intersect::{meeting_point, meets};
use crate::point::{
    Point, Turn, COORD_LIMIT, TURN_SCALE, cross_spec, dot_spec, in_limit, lemma_quotient_bound, rotated_spec, unit_spec,
};
use crate::rect::{Rectangle, wall_spec};

verus! {

/// Every corner lies within `-limit ..= limit` on both axes.
pub open spec fn all_within(s: Seq<Point>, limit: int) -> bool {
    forall|i: int| 0 <= i < s.len() ==> #[trigger] s[i].within(limit)
}

/// Every corner lies within the coordinate range.
pub open spec fn all_bounded(s: Seq<Point>) -> bool {
    all_within(s, COORD_LIMIT as int)
}

/// The sum of the corners' `x` coordinates.
pub open spec fn sum_x(s: Seq<Point>) -> int
    decreases s.len(),
{
    if s.len() == 0 {
        0
    } else {
        sum_x(s.drop_last()) + s.last().x
    }
}

/// The sum of the corners' `y` coordinates.
pub open spec fn sum_y(s: Seq<Point>) -> int
    decreases s.len(),
{
    if s.len() == 0 {
        0
    } else {
        sum_y(s.drop_last()) + s.last().y
    }
}

/// The mean of the corners, rounded down; the origin for no corners.
pub open spec fn centre_of(s: Seq<Point>) -> Point {
    if s.len() == 0 {
        Point { x: 0, y: 0 }
    } else {
        Point { x: (sum_x(s) / s.len() as int) as i64, y: (sum_y(s) / s.len() as int) as i64 }
    }
}

/// The squared distance between two points.
pub open spec fn dist_sq(p: Point, c: Point) -> int {
    (p.x - c.x) * (p.x - c.x) + (p.y - c.y) * (p.y - c.y)
}

/// The largest squared distance from `c` to a corner.
pub open spec fn max_dist_sq(s: Seq<Point>, c: Point) -> int
    decreases s.len(),
{
    if s.len() == 0 {
        0
    } else {
        let m = max_dist_sq(s.drop_last(), c);
        let d = dist_sq(s.last(), c);
        if m < d {
            d
        } else {
            m
        }
    }
}

/// The index of the corner before corner `i`, the last for the first.
pub open spec fn prev(n: int, i: int) -> int {
    if i == 0 {
        n - 1
    } else {
        i - 1
    }
}

/// Edge `i` runs from the corner before `i` to corner `i`.
pub open spec fn edge(s: Seq<Point>, i: int) -> (Point, Point) {
    (s[prev(s.len() as int, i)], s[i])
}

/// The least `x` coordinate of a corner (of a non-empty sequence).
pub open spec fn min_x(s: Seq<Point>) -> int
    decreases s.len(),
{
    if s.len() <= 1 {
        s[0].x as int
    } else {
        let m = min_x(s.drop_last());
        if s.last().x < m { s.last().x as int } else { m }
    }
}

/// The greatest `x` coordinate of a corner.
pub open spec fn max_x(s: Seq<Point>) -> int
    decreases s.len(),
{
    if s.len() <= 1 {
        s[0].x as int
    } else {
        let m = max_x(s.drop_last());
        if s.last().x > m { s.last().x as int } else { m }
    }
}

/// The least `y` coordinate of a corner.
pub open spec fn min_y(s: Seq<Point>) -> int
    decreases s.len(),
{
    if s.len() <= 1 {
        s[0].y as int
    } else {
        let m = min_y(s.drop_last());
        if s.last().y < m { s.last().y as int } else { m }
    }
}

/// The greatest `y` coordinate of a corner.
pub open spec fn max_y(s: Seq<Point>) -> int
    decreases s.len(),
{
    if s.len() <= 1 {
        s[0].y as int
    } else {
        let m = max_y(s.drop_last());
        if s.last().y > m { s.last().y as int } else { m }
    }
}

/// The sum of `cross(s[i - 1], s[i])` over `1 <= i < k`.
pub open spec fn chain(s: Seq<Point>, k: int) -> int
    decreases k,
{
    if k <= 1 {
        0
    } else {
        chain(s, k - 1) + cross_spec(s[k - 2], s[k - 1])
    }
}

/// Twice the signed area of the closed outline, positive when the corners
/// run counter-clockwise (the shoelace formula).
pub open spec fn twice_signed_area(s: Seq<Point>) -> int {
    if s.len() == 0 {
        0
    } else {
        cross_spec(s.last(), s[0]) + chain(s, s.len() as int)
    }
}

/// The half-line from `p` towards increasing `x` crosses the edge from `a`
/// to `b` (the even-odd rule: an edge counts when it spans `p.y`, its lower
/// end included, and meets the half-line strictly right of `p`).
pub open spec fn crosses(p: Point, a: Point, b: Point) -> bool {
    let spans = (b.y <= p.y && p.y < a.y) || (a.y <= p.y && p.y < b.y);
    let lhs = (p.x - b.x) * (a.y - b.y);
    let rhs = (a.x - b.x) * (p.y - b.y);
    spans && if a.y > b.y {
        lhs < rhs
    } else {
        lhs > rhs
    }
}

/// How many of the first `k` edges the half-line from `p` crosses.
pub open spec fn crossings(s: Seq<Point>, p: Point, k: int) -> nat
    decreases k,
{
    if k <= 0 {
        0
    } else {
        let e = edge(s, k - 1);
        crossings(s, p, k - 1) + if crosses(p, e.0, e.1) { 1nat } else { 0nat }
    }
}

/// `p` is inside by the even-odd rule; never for fewer than three corners.
pub open spec fn contains_spec(s: Seq<Point>, p: Point) -> bool {
    s.len() >= 3 && crossings(s, p, s.len() as int) % 2 == 1
}

/// The least index `i` with `k <= i < n` and `f(i)`, if any.
pub open spec fn first_from(n: int, k: int, f: spec_fn(int) -> bool) -> Option<int>
    decreases n - k,
{
    if k >= n {
        None
    } else if f(k) {
        Some(k)
    } else {
        first_from(n, k + 1, f)
    }
}

/// `a - b`.
pub open spec fn sub_spec(a: Point, b: Point) -> Point {
    Point { x: (a.x - b.x) as i64, y: (a.y - b.y) as i64 }
}

/// `-a`.
pub open spec fn neg_spec(a: Point) -> Point {
    Point { x: (-a.x) as i64, y: (-a.y) as i64 }
}

/// `r` or `-r`, whichever points the same way as `out`; zero when `out`
/// runs along the edge.
pub open spec fn facing(r: Point, out: Point) -> Point {
    let d = dot_spec(r, out);
    if d > 0 {
        r
    } else if d < 0 {
        neg_spec(r)
    } else {
        Point { x: 0, y: 0 }
    }
}

/// Edge `k` meets the segment `p1 -> p2`.
pub open spec fn edge_hit(s: Seq<Point>, p1: Point, p2: Point) -> spec_fn(int) -> bool {
    |k: int| meets(p1, p2, edge(s, k).0, edge(s, k).1, true)
}

/// The first edge that the segment `p1 -> p2` meets: where it meets it, and
/// the edge's unit normal (in units of `1 / TURN_SCALE`, see `unit_spec`)
/// turned towards `p1`; zero where the segment runs along the edge.
pub open spec fn intersect_spec(s: Seq<Point>, p1: Point, p2: Point) -> Option<(Point, Point)> {
    match first_from(s.len() as int, 0, edge_hit(s, p1, p2)) {
        None => None,
        Some(k) => {
            let (a, b) = edge(s, k);
            let h = meeting_point(p1, p2, a, b);
            let d = sub_spec(b, a);
            Some((h, unit_spec(facing(Point { x: (-d.y) as i64, y: d.x }, sub_spec(p1, h)))))
        },
    }
}

/// Corner `i` of `q` lies inside `s`.
pub open spec fn corner_inside(s: Seq<Point>, q: Seq<Point>) -> spec_fn(int) -> bool {
    |i: int| contains_spec(s, q[i])
}

/// Contact found by testing the corners of `q` against `s`: the first corner
/// of `q` inside `s` is joined to `q`'s centre `qc`, and where that segment
/// leaves `s` is the contact point. The triple is the contact point, the
/// shift that takes that corner to it, and the normal there.
pub open spec fn check_spec(s: Seq<Point>, q: Seq<Point>, qc: Point) -> Option<(Point, Point, Point)> {
    match first_from(q.len() as int, 0, corner_inside(s, q)) {
        None => None,
        Some(i) => match intersect_spec(s, q[i], qc) {
            None => None,
            Some((h, n)) => Some((h, sub_spec(h, q[i]), n)),
        },
    }
}

/// Contact between `a` and `b` (corners and centres): none where either has
/// fewer than three corners; else the corners of `b` tested against `a`
/// first, then those of `a` against `b`, whose shift is then reversed, so
/// that the shift is always one for `a`.
pub open spec fn collision_spec(a: Seq<Point>, ac: Point, b: Seq<Point>, bc: Point) -> Option<(Point, Point, Point)> {
    if a.len() < 3 || b.len() < 3 {
        None
    } else {
        match check_spec(a, b, bc) {
        Some(t) => Some(t),
        None => match check_spec(b, a, ac) {
            Some((c, o, n)) => Some((c, neg_spec(o), n)),
            None => None,
        },
        }
    }
}

/// Every corner moved by `(dx, dy)`.
pub open spec fn shifted(s: Seq<Point>, dx: int, dy: int) -> Seq<Point> {
    Seq::new(s.len(), |i: int| Point { x: (s[i].x + dx) as i64, y: (s[i].y + dy) as i64 })
}

/// `p` turned by `t` around `c`, rounded down to the lattice.
pub open spec fn rotated_point(p: Point, t: Turn, c: Point) -> Point {
    Point { x: rotated_spec(p, t, c).0 as i64, y: rotated_spec(p, t, c).1 as i64 }
}

/// Every corner moved by `(dx, dy)` stays within the coordinate range.
pub open spec fn shift_fits(s: Seq<Point>, dx: int, dy: int) -> bool {
    forall|i: int|
        0 <= i < s.len() ==> in_limit(#[trigger] s[i].x + dx, COORD_LIMIT as int) && in_limit(
            s[i].y + dy,
            COORD_LIMIT as int,
        )
}

/// Turning `p` about `c` to `q` changed its squared distance from `c` by
/// at most `4 * (|dx| + |dy|) + 2 + 2 * d / TURN_SCALE`, where `(dx, dy)` is
/// `p - c` and `d` that squared distance (see `Point::rotated`).
pub open spec fn distance_nearly_kept(p: Point, q: Point, c: Point) -> bool {
    let dx = p.x - c.x;
    let dy = p.y - c.y;
    let d = dx * dx + dy * dy;
    let e = (q.x - c.x) * (q.x - c.x) + (q.y - c.y) * (q.y - c.y);
    abs(e - d) * TURN_SCALE <= TURN_SCALE * (4 * (abs(dx) + abs(dy)) + 2) + 2 * d
}

/// Every corner turned by `t` around `c`.
pub open spec fn rotated_all(s: Seq<Point>, t: Turn, c: Point) -> Seq<Point> {
    Seq::new(s.len(), |i: int| rotated_point(s[i], t, c))
}

/// Edge `k` meets the half-line from `p1` through `p2`.
pub open spec fn edge_cut(s: Seq<Point>, p1: Point, p2: Point) -> spec_fn(int) -> bool {
    |k: int| meets(edge(s, k).0, edge(s, k).1, p1, p2, false)
}

/// Where the half-line from `p1` through `p2` meets edge `k`.
pub open spec fn cut_point(s: Seq<Point>, k: int, p1: Point, p2: Point) -> Point {
    meeting_point(edge(s, k).0, edge(s, k).1, p1, p2)
}

/// The two outlines that the half-line from `p1` through `p2` cuts `s`
/// into, at the first edge `ix` that it meets and the next edge `ix2` after
/// it: the corners before `ix`, both cut points, and the corners from `ix2`
/// on; and the first cut point, the corners from `ix` to before `ix2`, and
/// the second cut point. `None` when it meets fewer than two edges.
pub open spec fn split_spec(s: Seq<Point>, p1: Point, p2: Point) -> Option<(Seq<Point>, Seq<Point>)> {
    let f = edge_cut(s, p1, p2);
    match first_from(s.len() as int, 0, f) {
        None => None,
        Some(ix) => match first_from(s.len() as int, ix + 1, f) {
            None => None,
            Some(ix2) => {
                let p = cut_point(s, ix, p1, p2);
                let q = cut_point(s, ix2, p1, p2);
                Some((s.take(ix) + seq![p, q] + s.skip(ix2), seq![p] + s.subrange(ix, ix2) + seq![q]))
            },
        },
    }
}

/// Walking `a -> b -> c` turns towards negative orientation at `b` (with
/// the `y` axis pointing down, as on screen, a turn to the left).
pub open spec fn left_turn(a: Point, b: Point, c: Point) -> bool {
    (c.x - a.x) * (a.y - b.y) - (a.y - c.y) * (b.x - a.x) < 0
}

/// No three consecutive corners of the closed outline make a left turn.
pub open spec fn no_left_turns(s: Seq<Point>) -> bool {
    forall|i: int|
        0 <= i < s.len() ==> !#[trigger] left_turn(
            s[i],
            s[(i + 1) % (s.len() as int)],
            s[(i + 2) % (s.len() as int)],
        )
}

/// The corner after corner `i` of `n`, going round.
pub open spec fn next_corner(n: int, i: int) -> int {
    if i + 1 == n {
        0
    } else {
        i + 1
    }
}

/// The walk that makes an outline convex, from corner `i` on: where the
/// turn at the corner after `i` goes left, that corner is removed and the
/// walk starts over from the first corner; else it goes on with the next.
/// It stops at the end of the corners, or once fewer than four are left.
pub open spec fn convex_walk(s: Seq<Point>, i: int) -> Seq<Point>
    decreases s.len(), s.len() - i,
{
    if s.len() < 4 || i < 0 || i >= s.len() {
        s
    } else {
        let m = next_corner(s.len() as int, i);
        let m2 = next_corner(s.len() as int, m);
        if left_turn(s[i], s[m], s[m2]) {
            convex_walk(s.remove(m), 0)
        } else {
            convex_walk(s, i + 1)
        }
    }
}

/// `r` keeps some of the elements of `s`, in their order: `idx` gives the
/// place in `s` of each element of `r`.
pub open spec fn kept_in_order(r: Seq<Point>, s: Seq<Point>, idx: Seq<int>) -> bool {
    &&& idx.len() == r.len()
    &&& forall|j: int| 0 <= j < r.len() ==> 0 <= #[trigger] idx[j] < s.len() && r[j] == s[idx[j]]
    &&& forall|j: int, k: int| 0 <= j < k < r.len() ==> #[trigger] idx[j] < #[trigger] idx[k]
}

/// The point of edge `(a, b)` nearest to `p`: `p` projected onto the edge's
/// line, the projection clamped to the edge and rounded down to the lattice.
pub open spec fn nearest_on_edge(a: Point, b: Point, p: Point) -> Point {
    let bx = b.x - a.x;
    let by = b.y - a.y;
    let num = (p.x - a.x) * bx + (p.y - a.y) * by;
    let den = bx * bx + by * by;
    if num <= 0 || den == 0 {
        a
    } else if num >= den {
        b
    } else {
        Point { x: (a.x + (num * bx) / den) as i64, y: (a.y + (num * by) / den) as i64 }
    }
}

/// The squared distance from `p` to the nearest point of edge `k`.
pub open spec fn edge_dist(s: Seq<Point>, p: Point, k: int) -> int {
    dist_sq(p, nearest_on_edge(edge(s, k).0, edge(s, k).1, p))
}

/// The first of the edges `0 .. k` nearest to `p`.
pub open spec fn nearest_edge(s: Seq<Point>, p: Point, k: int) -> int
    decreases k,
{
    if k <= 1 {
        0
    } else {
        let j = nearest_edge(s, p, k - 1);
        if edge_dist(s, p, k - 1) < edge_dist(s, p, j) {
            k - 1
        } else {
            j
        }
    }
}

/// The perpendicular of edge `(a, b)`, as long as the edge, turned away
/// from `c`: to the side of the edge's line where `c` is not.
pub open spec fn away_from(a: Point, b: Point, c: Point) -> Point {
    let nx = b.y - a.y;
    let ny = -(b.x - a.x);
    if nx * (c.x - a.x) + ny * (c.y - a.y) < 0 {
        Point { x: nx as i64, y: ny as i64 }
    } else {
        Point { x: (-nx) as i64, y: (-ny) as i64 }
    }
}

/// The nearest point to `p` on the outline, and there the perpendicular of
/// its edge turned away from the centre `c`.
pub open spec fn closest_spec(s: Seq<Point>, c: Point, p: Point) -> (Point, Point) {
    let k = nearest_edge(s, p, s.len() as int);
    let (a, b) = edge(s, k);
    let q = nearest_on_edge(a, b, p);
    (q, away_from(a, b, c))
}

/// One test of corner `i` against the boundary `r`: a corner beyond a side
/// moves the whole polygon back onto that side (see `wall_spec`).
pub open spec fn wall_step(t: Seq<Point>, r: Rectangle, i: int) -> Seq<Point> {
    match wall_spec(r, t[i]) {
        Some((o, _)) => shifted(t, o.x as int, o.y as int),
        None => t,
    }
}

/// The corners after the first `k` tests of a wall pass. Each corner in
/// turn is tested twice in a row, test `k` being of corner `k / 2`. One test
/// corrects one side only (`wall_spec` looks at the sides in turn), so a
/// corner beyond a side on each axis needs the second test to end on or
/// inside the boundary; a corner beyond one side only is corrected once,
/// and one inside not at all.
pub open spec fn wall_pass(s: Seq<Point>, r: Rectangle, k: int) -> Seq<Point>
    decreases k,
{
    if k <= 0 {
        s
    } else {
        wall_step(wall_pass(s, r, k - 1), r, (k - 1) / 2)
    }
}

/// The corrections made in the first `k` tests of a wall pass: for each,
/// the corner where it was put back, the inward normal of the side, and the
/// polygon's centre just after the move.
pub open spec fn wall_hits(s: Seq<Point>, r: Rectangle, k: int) -> Seq<(Point, Point, Point)>
    decreases k,
{
    if k <= 0 {
        seq![]
    } else {
        let t = wall_pass(s, r, k - 1);
        let h = wall_hits(s, r, k - 1);
        let i = (k - 1) / 2;
        match wall_spec(r, t[i]) {
            Some((o, n)) => {
                let u = shifted(t, o.x as int, o.y as int);
                h.push((u[i], n, centre_of(u)))
            },
            None => h,
        }
    }
}

/// No two corners lie further apart along an axis than the rectangle is
/// wide or high.
pub open spec fn fits_in(s: Seq<Point>, r: Rectangle) -> bool {
    forall|j: int, k: int|
        0 <= j < s.len() && 0 <= k < s.len() ==> #[trigger] s[j].x - #[trigger] s[k].x <= r.w && s[j].y
            - s[k].y <= r.h
}

/// Sums of `n` coordinates within a range lie within `n` times it.
pub proof fn lemma_sums_bounded(s: Seq<Point>, limit: int)
    requires
        all_within(s, limit),
    ensures
        -(limit * s.len()) <= sum_x(s) <= limit * s.len(),
        -(limit * s.len()) <= sum_y(s) <= limit * s.len(),
    decreases s.len(),
{
    if s.len() > 0 {
        let t = s.drop_last();
        assert(all_within(t, limit)) by {
            assert forall|i: int| 0 <= i < t.len() implies #[trigger] t[i].within(limit) by {
                assert(t[i] == s[i]);
            }
        }
        lemma_sums_bounded(t, limit);
        assert(s.last().within(limit)) by {
            assert(s[s.len() - 1].within(limit));
        }
        assert(limit * s.len() == limit * t.len() + limit) by (nonlinear_arith)
            requires
                s.len() == t.len() + 1,
        ;
    }
}

/// The centre of corners that lie within a range lies within it too.
pub proof fn lemma_centre_within(s: Seq<Point>, limit: int)
    requires
        0 <= limit <= i64::MAX,
        all_within(s, limit),
    ensures
        centre_of(s).within(limit),
        s.len() > 0 ==> in_limit(sum_x(s) / s.len() as int, limit),
        s.len() > 0 ==> in_limit(sum_y(s) / s.len() as int, limit),
{
    if s.len() > 0 {
        lemma_sums_bounded(s, limit);
        lemma_quotient_bound(sum_x(s), limit, s.len() as int);
        lemma_quotient_bound(sum_y(s), limit, s.len() as int);
    }
}

/// Squared distances within the coordinate range fit the radius computation.
pub proof fn lemma_max_dist_bound(s: Seq<Point>, c: Point)
    requires
        all_bounded(s),
        c.bounded(),
    ensures
        0 <= max_dist_sq(s, c) <= 8 * COORD_LIMIT * COORD_LIMIT,
    decreases s.len(),
{
    if s.len() > 0 {
        let t = s.drop_last();
        assert(all_bounded(t)) by {
            assert forall|i: int| 0 <= i < t.len() implies #[trigger] t[i].within(COORD_LIMIT as int) by {
                assert(t[i] == s[i]);
            }
        }
        lemma_max_dist_bound(t, c);
        let p = s.last();
        assert(p.bounded()) by {
            assert(s[s.len() - 1].within(COORD_LIMIT as int));
        }
        let l = 2 * COORD_LIMIT as int;
        lemma_mul_abs_bound(p.x - c.x, p.x - c.x, l, l);
        lemma_mul_abs_bound(p.y - c.y, p.y - c.y, l, l);
        assert(0 <= dist_sq(p, c)) by (nonlinear_arith);
    }
}

/// The cross product of two points of the coordinate range fits in `i128` with room to add.
pub proof fn lemma_cross_bound(a: Point, b: Point)
    requires
        a.bounded(),
        b.bounded(),
    ensures
        -0x4000_0000_0000_0000 <= cross_spec(a, b) <= 0x4000_0000_0000_0000,
{
    let l = COORD_LIMIT as int;
    lemma_mul_abs_bound(a.x as int, b.y as int, l, l);
    lemma_mul_abs_bound(a.y as int, b.x as int, l, l);
}

} // verus!
