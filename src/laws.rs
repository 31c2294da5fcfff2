use vstd::prelude::*;
use crate::arith::abs;
use vstd::arithmetic::div_mod::lemma_hoist_over_denominator;
use crate::intersect::{along, denom_spec, lemma_fraction_between, meeting_point, meets, t_num_spec};
use crate::rect::{Rectangle, inside_closed, wall_spec};
use crate::point::{Point, Turn, COORD_LIMIT, TURN_LIMIT, TURN_SCALE, cross_spec, in_limit};
use crate::outline::{
    all_bounded, all_within, centre_of, chain, check_spec, collision_spec, cut_point, edge, edge_cut,
    first_from, fits_in, wall_step, neg_spec, split_spec, contains_spec, crosses, crossings, max_x, max_y, min_x, min_y, prev, max_dist_sq, rotated_all, shift_fits,
    shifted, sum_x, sum_y, twice_signed_area,
};

verus! {

proof fn lemma_sums_shift(s: Seq<Point>, dx: int, dy: int)
    requires
        shift_fits(s, dx, dy),
    ensures
        sum_x(shifted(s, dx, dy)) == sum_x(s) + s.len() * dx,
        sum_y(shifted(s, dx, dy)) == sum_y(s) + s.len() * dy,
    decreases s.len(),
{
    if s.len() > 0 {
        let t = shifted(s, dx, dy);
        let s0 = s.drop_last();
        assert(shift_fits(s0, dx, dy)) by {
            assert forall|i: int| 0 <= i < s0.len() implies in_limit(#[trigger] s0[i].x + dx, COORD_LIMIT as int)
                && in_limit(s0[i].y + dy, COORD_LIMIT as int) by {
                assert(s0[i] == s[i]);
            }
        }
        lemma_sums_shift(s0, dx, dy);
        assert(t.drop_last() == shifted(s0, dx, dy));
        assert(in_limit(s[s.len() - 1].x + dx, COORD_LIMIT as int));
        assert(s.len() * dx == s0.len() * dx + dx) by (nonlinear_arith)
            requires
                s.len() == s0.len() + 1,
        ;
        assert(s.len() * dy == s0.len() * dy + dy) by (nonlinear_arith)
            requires
                s.len() == s0.len() + 1,
        ;
    }
}

proof fn lemma_max_dist_shift(s: Seq<Point>, c: Point, dx: int, dy: int, c2: Point)
    requires
        shift_fits(s, dx, dy),
        c2.x == c.x + dx,
        c2.y == c.y + dy,
    ensures
        max_dist_sq(shifted(s, dx, dy), c2) == max_dist_sq(s, c),
    decreases s.len(),
{
    if s.len() > 0 {
        let s0 = s.drop_last();
        assert(shift_fits(s0, dx, dy)) by {
            assert forall|i: int| 0 <= i < s0.len() implies in_limit(#[trigger] s0[i].x + dx, COORD_LIMIT as int)
                && in_limit(s0[i].y + dy, COORD_LIMIT as int) by {
                assert(s0[i] == s[i]);
            }
        }
        lemma_max_dist_shift(s0, c, dx, dy, c2);
        assert(shifted(s, dx, dy).drop_last() == shifted(s0, dx, dy));
        assert(in_limit(s[s.len() - 1].x + dx, COORD_LIMIT as int));
    }
}

/// Moving the corners by `(dx, dy)` moves the centre by exactly `(dx, dy)`
/// and keeps every distance from the centre, so the bounding radius stays.
pub proof fn lemma_shift_moves_centre(s: Seq<Point>, dx: int, dy: int)
    requires
        all_bounded(s),
        s.len() > 0,
        shift_fits(s, dx, dy),
    ensures
        centre_of(shifted(s, dx, dy)).x == centre_of(s).x + dx,
        centre_of(shifted(s, dx, dy)).y == centre_of(s).y + dy,
        max_dist_sq(shifted(s, dx, dy), centre_of(shifted(s, dx, dy))) == max_dist_sq(s, centre_of(s)),
{
    let n = s.len();
    lemma_sums_shift(s, dx, dy);
    lemma_hoist_over_denominator(sum_x(s), dx, n);
    lemma_hoist_over_denominator(sum_y(s), dy, n);
    assert(dx * n == n * dx && dy * n == n * dy) by (nonlinear_arith);
    let t = shifted(s, dx, dy);
    assert(all_bounded(t)) by {
        assert forall|i: int| 0 <= i < t.len() implies #[trigger] t[i].within(COORD_LIMIT as int) by {
            assert(in_limit(s[i].x + dx, COORD_LIMIT as int));
        }
    }
    crate::outline::lemma_centre_within(s, COORD_LIMIT as int);
    crate::outline::lemma_centre_within(t, COORD_LIMIT as int);
    assert(sum_x(t) / (n as int) == sum_x(s) / (n as int) + dx);
    assert(sum_y(t) / (n as int) == sum_y(s) / (n as int) + dy);
    assert(centre_of(t).x == sum_x(t) / (n as int));
    assert(centre_of(s).x == sum_x(s) / (n as int));
    lemma_max_dist_shift(s, centre_of(s), dx, dy, centre_of(shifted(s, dx, dy)));
}

/// The chain sum over the first `k` corners depends on those corners alone.
proof fn lemma_chain_prefix(s: Seq<Point>, t: Seq<Point>, k: int)
    requires
        0 <= k <= s.len(),
        k <= t.len(),
        forall|i: int| 0 <= i < k ==> s[i] == t[i],
    ensures
        chain(s, k) == chain(t, k),
    decreases k,
{
    if k > 1 {
        lemma_chain_prefix(s, t, k - 1);
    }
}

proof fn lemma_cross_expand(ax: int, ay: int, bx: int, bk: int, dx: int, dy: int)
    by (nonlinear_arith)
    ensures
        (ax + dx) * (bk + dy) - (ay + dy) * (bx + dx) == ax * bk - ay * bx + (ax - bx) * dy - (ay - bk) * dx,
{
}

proof fn lemma_cross_shift(a: Point, b: Point, a2: Point, b2: Point, dx: int, dy: int)
    requires
        a2.x == a.x + dx,
        a2.y == a.y + dy,
        b2.x == b.x + dx,
        b2.y == b.y + dy,
    ensures
        cross_spec(a2, b2) == cross_spec(a, b) + (a.x - b.x) * dy - (a.y - b.y) * dx,
{
    lemma_cross_expand(a.x as int, a.y as int, b.x as int, b.y as int, dx, dy);
}

proof fn lemma_chain_shift(s: Seq<Point>, dx: int, dy: int, k: int)
    requires
        shift_fits(s, dx, dy),
        1 <= k <= s.len(),
    ensures
        chain(shifted(s, dx, dy), k) == chain(s, k) + (s[0].x - s[k - 1].x) * dy - (s[0].y - s[k - 1].y) * dx,
    decreases k,
{
    let t = shifted(s, dx, dy);
    if k > 1 {
        lemma_chain_shift(s, dx, dy, k - 1);
        assert(in_limit(s[k - 2].x + dx, COORD_LIMIT as int));
        assert(in_limit(s[k - 1].x + dx, COORD_LIMIT as int));
        lemma_cross_shift(s[k - 2], s[k - 1], t[k - 2], t[k - 1], dx, dy);
        assert((s[0].x - s[k - 2].x) * dy + (s[k - 2].x - s[k - 1].x) * dy == (s[0].x - s[k - 1].x) * dy) by (nonlinear_arith);
        assert((s[0].y - s[k - 2].y) * dx + (s[k - 2].y - s[k - 1].y) * dx == (s[0].y - s[k - 1].y) * dx) by (nonlinear_arith);
    } else {
        assert((s[0].x - s[0].x) * dy == 0 && (s[0].y - s[0].y) * dx == 0) by (nonlinear_arith);
    }
}

/// Moving a polygon keeps its signed area exactly.
pub proof fn lemma_shift_keeps_area(s: Seq<Point>, dx: int, dy: int)
    requires
        shift_fits(s, dx, dy),
    ensures
        twice_signed_area(shifted(s, dx, dy)) == twice_signed_area(s),
{
    let t = shifted(s, dx, dy);
    let n = s.len() as int;
    if n > 0 {
        lemma_chain_shift(s, dx, dy, n);
        assert(in_limit(s[0].x + dx, COORD_LIMIT as int));
        assert(in_limit(s[n - 1].x + dx, COORD_LIMIT as int));
        lemma_cross_shift(s[n - 1], s[0], t[n - 1], t[0], dx, dy);
        assert((s[0].x - s[n - 1].x) * dy + (s[n - 1].x - s[0].x) * dy == 0) by (nonlinear_arith);
        assert((s[0].y - s[n - 1].y) * dx + (s[n - 1].y - s[0].y) * dx == 0) by (nonlinear_arith);
    }
}

proof fn lemma_exact_div(b: int, d: int)
    requires
        d > 0,
    ensures
        (b * d) / d == b,
{
    vstd::arithmetic::div_mod::lemma_fundamental_div_mod_converse(b * d, d, b, 0);
}

/// Every corner turned a quarter about the origin, by `sigma` in `{1, -1}`.
spec fn quarter_all(s: Seq<Point>, sigma: int) -> Seq<Point> {
    Seq::new(s.len(), |i: int| Point { x: (-sigma * s[i].y) as i64, y: (sigma * s[i].x) as i64 })
}

proof fn lemma_chain_quarter(s: Seq<Point>, sigma: int, k: int)
    requires
        all_bounded(s),
        sigma == 1 || sigma == -1,
        0 <= k <= s.len(),
    ensures
        chain(quarter_all(s, sigma), k) == chain(s, k),
    decreases k,
{
    if k > 1 {
        lemma_chain_quarter(s, sigma, k - 1);
        lemma_cross_quarter(s, sigma, k - 2, k - 1);
    }
}

proof fn lemma_cross_quarter(s: Seq<Point>, sigma: int, i: int, j: int)
    requires
        all_bounded(s),
        sigma == 1 || sigma == -1,
        0 <= i < s.len(),
        0 <= j < s.len(),
    ensures
        cross_spec(quarter_all(s, sigma)[i], quarter_all(s, sigma)[j]) == cross_spec(s[i], s[j]),
{
    let q = quarter_all(s, sigma);
    assert(s[i].bounded() && s[j].bounded());
    let (a, b) = (s[i], s[j]);
    assert(q[i].x == -sigma * a.y && q[i].y == sigma * a.x && q[j].x == -sigma * b.y && q[j].y == sigma * b.x);
    assert(cross_spec(q[i], q[j]) == cross_spec(a, b)) by (nonlinear_arith)
        requires
            sigma == 1 || sigma == -1,
            q[i].x == -sigma * a.y,
            q[i].y == sigma * a.x,
            q[j].x == -sigma * b.y,
            q[j].y == sigma * b.x,
    ;
}

/// A quarter turn, either way, keeps the signed area exactly: it moves
/// every corner to another lattice point with no rounding.
pub proof fn lemma_quarter_turn_keeps_area(s: Seq<Point>, t: Turn, c: Point)
    requires
        all_within(s, TURN_LIMIT as int),
        c.within(TURN_LIMIT as int),
        t.cos == 0,
        t.sin == TURN_SCALE || t.sin == -TURN_SCALE,
    ensures
        twice_signed_area(rotated_all(s, t, c)) == twice_signed_area(s),
{
    let sigma: int = if t.sin == TURN_SCALE { 1 } else { -1 };
    let n = s.len() as int;
    let q = quarter_all(s, sigma);
    let r = rotated_all(s, t, c);
    let dx = if sigma == 1 { c.x + c.y } else { c.x - c.y };
    let dy = if sigma == 1 { c.y - c.x } else { c.y + c.x };
    assert(all_bounded(s)) by {
        assert forall|i: int| 0 <= i < n implies #[trigger] s[i].within(COORD_LIMIT as int) by {
            assert(s[i].within(TURN_LIMIT as int));
        }
    }
    assert forall|i: int| 0 <= i < n implies #[trigger] r[i] == shifted(q, dx, dy)[i] && in_limit(q[i].x + dx, COORD_LIMIT as int)
        && in_limit(q[i].y + dy, COORD_LIMIT as int) by {
        let p = s[i];
        assert(p.within(TURN_LIMIT as int));
        let ex = p.x - c.x;
        let ey = p.y - c.y;
        assert(-sigma * ey == (if sigma == 1 { -ey } else { ey })) by (nonlinear_arith)
            requires
                sigma == 1 || sigma == -1,
        ;
        assert(sigma * ex == (if sigma == 1 { ex } else { -ex })) by (nonlinear_arith)
            requires
                sigma == 1 || sigma == -1,
        ;
        assert(-sigma * p.y == (if sigma == 1 { -p.y } else { p.y as int })) by (nonlinear_arith)
            requires
                sigma == 1 || sigma == -1,
        ;
        assert(sigma * p.x == (if sigma == 1 { p.x as int } else { -p.x })) by (nonlinear_arith)
            requires
                sigma == 1 || sigma == -1,
        ;
        lemma_exact_div(-sigma * ey, TURN_SCALE as int);
        lemma_exact_div(sigma * ex, TURN_SCALE as int);
        assert(ex * t.cos - ey * t.sin == (-sigma * ey) * TURN_SCALE) by (nonlinear_arith)
            requires
                t.cos == 0,
                t.sin == sigma * TURN_SCALE,
        ;
        assert(ey * t.cos + ex * t.sin == (sigma * ex) * TURN_SCALE) by (nonlinear_arith)
            requires
                t.cos == 0,
                t.sin == sigma * TURN_SCALE,
        ;
    }
    assert(shift_fits(q, dx, dy)) by {
        assert forall|i: int| 0 <= i < q.len() implies in_limit(#[trigger] q[i].x + dx, COORD_LIMIT as int)
            && in_limit(q[i].y + dy, COORD_LIMIT as int) by {
            assert(r[i] == shifted(q, dx, dy)[i]);
        }
    }
    assert(r == shifted(q, dx, dy));
    lemma_shift_keeps_area(q, dx, dy);
    if n > 0 {
        lemma_chain_quarter(s, sigma, n);
        lemma_cross_quarter(s, sigma, n - 1, 0);
    }
}

/// Where a segment meets a line, rounded down to the lattice, lies within
/// the coordinate range when the segment does.
proof fn lemma_meeting_bounded(a1: Point, a2: Point, b1: Point, b2: Point)
    requires
        a1.bounded(),
        a2.bounded(),
        b1.bounded(),
        b2.bounded(),
        meets(a1, a2, b1, b2, true),
    ensures
        meeting_point(a1, a2, b1, b2).bounded(),
{
    let d = denom_spec(a1, a2, b1, b2);
    let t = t_num_spec(a1, a2, b1, b2);
    let den: int = if d > 0 { d } else { -d };
    let tt: int = if d > 0 { t } else { -t };
    lemma_fraction_between(tt, den, a2.x - a1.x);
    lemma_fraction_between(tt, den, a2.y - a1.y);
    assert(along(a1.x as int, a2.x as int, t, d) == a1.x + (tt * (a2.x - a1.x)) / den);
    assert(along(a1.y as int, a2.y as int, t, d) == a1.y + (tt * (a2.y - a1.y)) / den);
}

/// The shift of a contact found by testing the corners of `q` against `s`
/// can be negated twice without loss.
proof fn lemma_check_shift_negates(s: Seq<Point>, q: Seq<Point>, qc: Point)
    requires
        all_bounded(s),
        all_bounded(q),
        qc.bounded(),
    ensures
        check_spec(s, q, qc) matches Some((c, o, n)) ==> neg_spec(neg_spec(o)) == o,
{
    let f = crate::outline::corner_inside(s, q);
    lemma_first_from_range(q.len() as int, 0, f);
    if let Some(i) = first_from(q.len() as int, 0, f) {
        let p1 = q[i];
        assert(p1.bounded());
        let g = crate::outline::edge_hit(s, p1, qc);
        lemma_first_from_range(s.len() as int, 0, g);
        if let Some(k) = first_from(s.len() as int, 0, g) {
            let (a, b) = edge(s, k);
            assert(a == s[prev(s.len() as int, k)] && b == s[k]);
            assert(s[prev(s.len() as int, k)].bounded() && s[k].bounded());
            assert(g(k));
            lemma_meeting_bounded(p1, qc, a, b);
        }
    }
}

/// Whether two polygons are found to touch does not depend on which one
/// asks. Where the corners of only one of them are found to reach into the
/// other, both orders report the same contact point and normal, and shifts
/// of opposite sign.
pub proof fn lemma_collision_symmetric(a: Seq<Point>, ac: Point, b: Seq<Point>, bc: Point)
    requires
        all_bounded(a),
        all_bounded(b),
        ac.bounded(),
        bc.bounded(),
    ensures
        collision_spec(a, ac, b, bc) is Some <==> collision_spec(b, bc, a, ac) is Some,
        check_spec(a, b, bc) is None || check_spec(b, a, ac) is None ==> match collision_spec(a, ac, b, bc) {
            Some((c, o, n)) => collision_spec(b, bc, a, ac) == Some((c, neg_spec(o), n)),
            None => true,
        },
{
    lemma_check_shift_negates(a, b, bc);
    lemma_check_shift_negates(b, a, ac);
}

/// One test of a wall pass, on a polygon that fits the rectangle: corners
/// that were inside the rectangle stay inside; the tested corner ends
/// within the rectangle's span along `x`, and inside the rectangle if it
/// was within that span before. So a corner tested twice ends inside.
pub proof fn lemma_wall_step(t: Seq<Point>, r: Rectangle, i: int)
    requires
        r.wf(),
        all_bounded(t),
        0 <= i < t.len(),
        fits_in(t, r),
        wall_spec(r, t[i]) matches Some((o, _)) ==> shift_fits(t, o.x as int, o.y as int),
    ensures
        ({
            let u = wall_step(t, r, i);
            &&& u.len() == t.len()
            &&& all_bounded(u)
            &&& fits_in(u, r)
            &&& forall|j: int| 0 <= j < t.len() && inside_closed(r, t[j]) ==> #[trigger] inside_closed(r, u[j])
            &&& r.x <= u[i].x <= r.x + r.w
            &&& r.x <= t[i].x <= r.x + r.w ==> inside_closed(r, u[i])
        }),
{
    let u = wall_step(t, r, i);
    assert(t[i].bounded());
    match wall_spec(r, t[i]) {
        None => {},
        Some((o, _)) => {
            assert forall|j: int| 0 <= j < t.len() implies #[trigger] u[j].x == t[j].x + o.x && u[j].y
                == t[j].y + o.y && u[j].within(COORD_LIMIT as int) by {
                assert(in_limit(t[j].x + o.x, COORD_LIMIT as int));
            }
            assert forall|j: int, k: int| 0 <= j < u.len() && 0 <= k < u.len() implies #[trigger] u[j].x
                - #[trigger] u[k].x <= r.w && u[j].y - u[k].y <= r.h by {
                assert(t[j].x - t[k].x <= r.w);
            }
            assert forall|j: int| 0 <= j < t.len() && inside_closed(r, t[j]) implies #[trigger] inside_closed(
                r,
                u[j],
            ) by {
                assert(t[j].x - t[i].x <= r.w && t[i].x - t[j].x <= r.w);
                assert(t[j].y - t[i].y <= r.h && t[i].y - t[j].y <= r.h);
            }
        },
    }
}

/// The chain sum over all corners.
spec fn path(s: Seq<Point>) -> int {
    chain(s, s.len() as int)
}

proof fn lemma_path_push(w: Seq<Point>, e: Point)
    requires
        w.len() >= 1,
    ensures
        path(w.push(e)) == path(w) + cross_spec(w.last(), e),
{
    lemma_chain_prefix(w.push(e), w, w.len() as int);
}

proof fn lemma_path_concat(x: Seq<Point>, y: Seq<Point>)
    requires
        x.len() >= 1,
        y.len() >= 1,
    ensures
        path(x + y) == path(x) + cross_spec(x.last(), y[0]) + path(y),
    decreases y.len(),
{
    if y.len() == 1 {
        assert(x + y == x.push(y[0]));
        lemma_path_push(x, y[0]);
    } else {
        let y0 = y.drop_last();
        let e = y.last();
        assert(x + y == (x + y0).push(e));
        lemma_path_push(x + y0, e);
        lemma_path_concat(x, y0);
        lemma_path_push(y0, e);
        assert(y0.push(e) == y);
    }
}

proof fn lemma_first_from_range(n: int, k: int, f: spec_fn(int) -> bool)
    ensures
        first_from(n, k, f) matches Some(i) ==> k <= i < n && f(i),
    decreases n - k,
{
    if k < n && !f(k) {
        lemma_first_from_range(n, k + 1, f);
    }
}

/// How far `p` lies off the line through edge `e`, as the cross product of
/// `p - e.0` with the edge: zero when `p` lies on that line.
pub open spec fn cut_defect(e: (Point, Point), p: Point) -> int {
    (p.x - e.0.x) * (e.1.y - e.0.y) - (p.y - e.0.y) * (e.1.x - e.0.x)
}

/// The edges at which `split_spec` cuts `s`.
pub open spec fn cut_edges(s: Seq<Point>, p1: Point, p2: Point) -> (int, int) {
    let f = edge_cut(s, p1, p2);
    let ix = first_from(s.len() as int, 0, f).unwrap();
    (ix, first_from(s.len() as int, ix + 1, f).unwrap())
}

/// Cutting a polygon in two keeps its corners and its area. Every corner
/// lies in exactly one piece, in its order: the first piece's corners before
/// the cut points, then the second piece's corners between its cut points,
/// then the rest of the first piece; the two cut points lie on both pieces.
/// The signed areas of the pieces add up to that of the polygon but for how
/// far each cut point, rounded to the lattice, lies off its edge.
pub proof fn lemma_split_conserves(s: Seq<Point>, p1: Point, p2: Point)
    requires
        s.len() >= 3,
        split_spec(s, p1, p2) is Some,
    ensures
        ({
            let (a, b) = split_spec(s, p1, p2).unwrap();
            let (ix, ix2) = cut_edges(s, p1, p2);
            &&& 0 <= ix < ix2 < s.len()
            &&& a.len() >= ix + 2
            &&& b.len() >= 3
            &&& a.take(ix) + b.subrange(1, b.len() - 1) + a.skip(ix + 2) == s
            &&& a[ix] == b[0]
            &&& a[ix + 1] == b.last()
            &&& twice_signed_area(a) + twice_signed_area(b) == twice_signed_area(s) + cut_defect(
                edge(s, ix),
                a[ix],
            ) + cut_defect(edge(s, ix2), a[ix + 1])
        }),
{
    let n = s.len() as int;
    let f = edge_cut(s, p1, p2);
    lemma_first_from_range(n, 0, f);
    let ix = first_from(n, 0, f).unwrap();
    lemma_first_from_range(n, ix + 1, f);
    let ix2 = first_from(n, ix + 1, f).unwrap();
    let p = cut_point(s, ix, p1, p2);
    let q = cut_point(s, ix2, p1, p2);
    let (a, b) = split_spec(s, p1, p2).unwrap();
    let x = s.take(ix);
    let z = s.subrange(ix, ix2);
    let y = s.skip(ix2);
    let pq = seq![p, q];
    assert(a == x + pq + y);
    assert(b == seq![p] + z + seq![q]);
    assert(a.take(ix) + b.subrange(1, b.len() - 1) + a.skip(ix + 2) =~= s);
    let (ea, eb) = edge(s, ix);
    let (ec, ed) = edge(s, ix2);
    assert(ed == y[0] && ec == z.last() && eb == z[0]);
    assert(chain(pq, 1) == 0);
    assert(pq[0] == p && pq[1] == q);
    assert(path(pq) == cross_spec(p, q));
    assert(path(seq![q]) == 0);
    assert(path(seq![p]) == 0);
    // the second piece
    lemma_path_concat(seq![p] + z, seq![q]);
    lemma_path_concat(seq![p], z);
    assert((seq![p] + z).last() == z.last());
    assert(b.last() == q && b[0] == p);
    // the first piece and the polygon
    lemma_path_concat(x + pq, y);
    assert((x + pq).last() == q);
    assert(a.last() == s.last());
    if ix > 0 {
        lemma_path_concat(x, pq);
        assert(x.last() == ea);
        assert(s =~= (x + z) + y);
        lemma_path_concat(x + z, y);
        lemma_path_concat(x, z);
        assert((x + z).last() == z.last());
        assert(a[0] == s[0]);
    } else {
        assert(x + pq == pq);
        assert(s =~= z + y);
        lemma_path_concat(z, y);
        assert(ea == s.last());
        assert(a[0] == p);
    }
    assert(cross_spec(ea, p) + cross_spec(p, eb) - cross_spec(ea, eb) == cut_defect((ea, eb), p))
        by (nonlinear_arith);
    assert(cross_spec(ec, q) + cross_spec(q, ed) - cross_spec(ec, ed) == cut_defect((ec, ed), q))
        by (nonlinear_arith);
    assert(cross_spec(p, q) + cross_spec(q, p) == 0) by (nonlinear_arith);
}

/// `a + (t / den) * d`, rounded down, lies between `a` and `a + d`, and the
/// remainder that the rounding drops.
proof fn lemma_along_parts(a: int, d: int, t: int, den: int) -> (r: int)
    requires
        den > 0,
        0 <= t <= den,
    ensures
        0 <= r < den,
        t * d == den * ((t * d) / den) + r,
        d >= 0 ==> 0 <= (t * d) / den <= d,
        d < 0 ==> d <= (t * d) / den <= 0,
{
    vstd::arithmetic::div_mod::lemma_fundamental_div_mod(t * d, den);
    vstd::arithmetic::div_mod::lemma_mod_bound(t * d, den);
    lemma_fraction_between(t, den, d);
    (t * d) % den
}

/// A cut point lies off the line of its edge by less than the edge's extent
/// along the two axes: rounding moves it by less than one unit on each axis.
pub proof fn lemma_cut_defect_small(a: Point, b: Point, p1: Point, p2: Point)
    requires
        a.bounded(),
        b.bounded(),
        p1.bounded(),
        p2.bounded(),
        meets(a, b, p1, p2, false),
    ensures
        abs(cut_defect((a, b), meeting_point(a, b, p1, p2))) <= abs(b.x - a.x) + abs(b.y - a.y),
{
    let d = denom_spec(a, b, p1, p2);
    let t = t_num_spec(a, b, p1, p2);
    let den: int = if d > 0 { d } else { -d };
    let tt: int = if d > 0 { t } else { -t };
    let dx = b.x - a.x;
    let dy = b.y - a.y;
    let rx = lemma_along_parts(a.x as int, dx, tt, den);
    let ry = lemma_along_parts(a.y as int, dy, tt, den);
    let fx = (tt * dx) / den;
    let fy = (tt * dy) / den;
    let m = meeting_point(a, b, p1, p2);
    assert(along(a.x as int, b.x as int, t, d) == a.x + fx);
    assert(along(a.y as int, b.y as int, t, d) == a.y + fy);
    assert(m.x == a.x + fx && m.y == a.y + fy);
    let e = cut_defect((a, b), m);
    assert(e == fx * dy - fy * dx);
    assert(den * e == ry * dx - rx * dy) by (nonlinear_arith)
        requires
            e == fx * dy - fy * dx,
            tt * dx == den * fx + rx,
            tt * dy == den * fy + ry,
    ;
    assert(abs(e) <= abs(dx) + abs(dy)) by (nonlinear_arith)
        requires
            den > 0,
            den * e == ry * dx - rx * dy,
            0 <= rx < den,
            0 <= ry < den,
    ;
}

/// The signed areas of the two pieces of a cut add up to that of the polygon
/// to within the extents, along the two axes, of the two edges that were cut.
pub proof fn lemma_split_area_tolerance(s: Seq<Point>, p1: Point, p2: Point)
    requires
        s.len() >= 3,
        all_bounded(s),
        p1.bounded(),
        p2.bounded(),
        split_spec(s, p1, p2) is Some,
    ensures
        ({
            let (a, b) = split_spec(s, p1, p2).unwrap();
            let (ix, ix2) = cut_edges(s, p1, p2);
            let (e0, e1) = edge(s, ix);
            let (g0, g1) = edge(s, ix2);
            abs(twice_signed_area(a) + twice_signed_area(b) - twice_signed_area(s)) <= abs(e1.x - e0.x)
                + abs(e1.y - e0.y) + abs(g1.x - g0.x) + abs(g1.y - g0.y)
        }),
{
    lemma_split_conserves(s, p1, p2);
    let n = s.len() as int;
    let f = edge_cut(s, p1, p2);
    lemma_first_from_range(n, 0, f);
    let ix = first_from(n, 0, f).unwrap();
    lemma_first_from_range(n, ix + 1, f);
    let ix2 = first_from(n, ix + 1, f).unwrap();
    let (e0, e1) = edge(s, ix);
    let (g0, g1) = edge(s, ix2);
    assert(e0.bounded() && e1.bounded() && g0.bounded() && g1.bounded()) by {
        assert(s[crate::outline::prev(n, ix)].bounded());
        assert(s[ix].bounded());
        assert(s[crate::outline::prev(n, ix2)].bounded());
        assert(s[ix2].bounded());
    }
    assert(f(ix) && f(ix2));
    lemma_cut_defect_small(e0, e1, p1, p2);
    lemma_cut_defect_small(g0, g1, p1, p2);
}

/// The extents bound every corner.
proof fn lemma_extents(s: Seq<Point>)
    requires
        s.len() >= 1,
    ensures
        forall|i: int|
            #![trigger s[i]]
            0 <= i < s.len() ==> min_x(s) <= s[i].x <= max_x(s) && min_y(s) <= s[i].y <= max_y(s),
    decreases s.len(),
{
    if s.len() > 1 {
        let t = s.drop_last();
        lemma_extents(t);
        assert forall|i: int| #![trigger s[i]] 0 <= i < s.len() implies min_x(s) <= s[i].x <= max_x(s) && min_y(s)
            <= s[i].y <= max_y(s) by {
            if i < t.len() {
                assert(s[i] == t[i]);
            }
        }
    }
}

proof fn lemma_no_crossing(p: Point, a: Point, b: Point)
    requires
        (p.x > a.x && p.x > b.x) || (p.y < a.y && p.y < b.y) || (p.y >= a.y && p.y >= b.y),
    ensures
        !crosses(p, a, b),
{
    if (p.x > a.x && p.x > b.x) && ((b.y <= p.y && p.y < a.y) || (a.y <= p.y && p.y < b.y)) {
        let lhs = (p.x - b.x) * (a.y - b.y);
        let rhs = (a.x - b.x) * (p.y - b.y);
        if a.y > b.y {
            assert(lhs >= rhs) by (nonlinear_arith)
                requires
                    lhs == (p.x - b.x) * (a.y - b.y),
                    rhs == (a.x - b.x) * (p.y - b.y),
                    p.x > a.x,
                    p.x > b.x,
                    b.y <= p.y < a.y,
            ;
        } else {
            assert(lhs <= rhs) by (nonlinear_arith)
                requires
                    lhs == (p.x - b.x) * (a.y - b.y),
                    rhs == (a.x - b.x) * (p.y - b.y),
                    p.x > a.x,
                    p.x > b.x,
                    a.y <= p.y < b.y,
            ;
        }
    }
}

/// No point outside a polygon's extent lies inside it. To the right, above
/// or below it the half-line to the right crosses no edge; to the left it
/// crosses every edge that spans the point's height, and a closed outline
/// spans any height an even number of times.
pub proof fn lemma_outside_extent_not_contained(s: Seq<Point>, p: Point)
    requires
        s.len() >= 1,
        p.x > max_x(s) || p.x < min_x(s) || p.y < min_y(s) || p.y >= max_y(s),
    ensures
        !contains_spec(s, p),
{
    lemma_extents(s);
    let n = s.len() as int;
    if p.x < min_x(s) && !(p.y < min_y(s) || p.y >= max_y(s)) {
        lemma_left_parity(s, p, n);
        assert(crossings(s, p, n) % 2 == 0);
    } else {
        lemma_no_crossings_upto(s, p, n);
    }
}

/// 1 where `q` lies at or below the height of `p`, else 0.
spec fn at_or_below(q: Point, p: Point) -> int {
    if q.y <= p.y {
        1
    } else {
        0
    }
}

proof fn lemma_left_crossing(p: Point, a: Point, b: Point)
    requires
        p.x < a.x,
        p.x < b.x,
    ensures
        crosses(p, a, b) == (at_or_below(a, p) != at_or_below(b, p)),
{
    if (b.y <= p.y && p.y < a.y) || (a.y <= p.y && p.y < b.y) {
        let lhs = (p.x - b.x) * (a.y - b.y);
        let rhs = (a.x - b.x) * (p.y - b.y);
        if a.y > b.y {
            assert(lhs < rhs) by (nonlinear_arith)
                requires
                    lhs == (p.x - b.x) * (a.y - b.y),
                    rhs == (a.x - b.x) * (p.y - b.y),
                    p.x < a.x,
                    p.x < b.x,
                    b.y <= p.y < a.y,
            ;
        } else {
            assert(lhs > rhs) by (nonlinear_arith)
                requires
                    lhs == (p.x - b.x) * (a.y - b.y),
                    rhs == (a.x - b.x) * (p.y - b.y),
                    p.x < a.x,
                    p.x < b.x,
                    a.y <= p.y < b.y,
            ;
        }
    }
}

/// Left of every corner, the crossings of the first `k` edges have the
/// parity of the heights of their two ends.
proof fn lemma_left_parity(s: Seq<Point>, p: Point, k: int)
    requires
        1 <= k <= s.len(),
        forall|i: int| #![trigger s[i]] 0 <= i < s.len() ==> p.x < s[i].x,
    ensures
        (crossings(s, p, k) + at_or_below(s[s.len() - 1], p) + at_or_below(s[k - 1], p)) % 2 == 0,
    decreases k,
{
    let n = s.len() as int;
    let e = edge(s, k - 1);
    assert(e.0 == s[prev(n, k - 1)] && e.1 == s[k - 1]);
    assert(p.x < s[prev(n, k - 1)].x && p.x < s[k - 1].x);
    lemma_left_crossing(p, e.0, e.1);
    if k > 1 {
        lemma_left_parity(s, p, k - 1);
    } else {
        assert(crossings(s, p, 0) == 0);
    }
}

proof fn lemma_no_crossings_upto(s: Seq<Point>, p: Point, k: int)
    requires
        s.len() >= 1,
        0 <= k <= s.len(),
        p.x > max_x(s) || p.y < min_y(s) || p.y >= max_y(s),
        forall|i: int| #![trigger s[i]] 0 <= i < s.len() ==> s[i].x <= max_x(s) && min_y(s) <= s[i].y <= max_y(s),
    ensures
        crossings(s, p, k) == 0,
    decreases k,
{
    if k > 0 {
        lemma_no_crossings_upto(s, p, k - 1);
        let e = edge(s, k - 1);
        let j = prev(s.len() as int, k - 1);
        assert(e.0 == s[j] && e.1 == s[k - 1]);
        assert(s[j].x <= max_x(s) && s[k - 1].x <= max_x(s));
        lemma_no_crossing(p, e.0, e.1);
    }
}

proof fn lemma_rotated_sums(s: Seq<Point>, t: Turn, c: Point, k: int)
    requires
        all_within(s, TURN_LIMIT as int),
        c.within(TURN_LIMIT as int),
        t.wf(),
        0 <= k <= s.len(),
    ensures
        ({
            let u = rotated_all(s, t, c).take(k);
            let sc = TURN_SCALE as int;
            let gx = sum_x(s.take(k)) - k * c.x;
            let gy = sum_y(s.take(k)) - k * c.y;
            let a = gx * t.cos - gy * t.sin;
            let b = gy * t.cos + gx * t.sin;
            &&& a - k * sc <= sc * (sum_x(u) - k * c.x) <= a
            &&& b - k * sc <= sc * (sum_y(u) - k * c.y) <= b
        }),
    decreases k,
{
    let sc = TURN_SCALE as int;
    let u = rotated_all(s, t, c);
    if k == 0 {
        assert(s.take(0).len() == 0 && u.take(0).len() == 0);
        let gx = sum_x(s.take(k)) - k * c.x;
        let gy = sum_y(s.take(k)) - k * c.y;
        assert(gx == 0 && gy == 0);
        assert(gx * t.cos - gy * t.sin == 0 && gy * t.cos + gx * t.sin == 0) by (nonlinear_arith)
            requires
                gx == 0,
                gy == 0,
        ;
    } else {
        lemma_rotated_sums(s, t, c, k - 1);
        let p = s[k - 1];
        assert(p.within(TURN_LIMIT as int));
        assert(s.take(k).drop_last() == s.take(k - 1));
        assert(u.take(k).drop_last() == u.take(k - 1));
        assert(s.take(k).last() == p);
        assert(u.take(k).last() == u[k - 1]);
        let dx = p.x - c.x;
        let dy = p.y - c.y;
        let nx = dx * t.cos - dy * t.sin;
        let ny = dy * t.cos + dx * t.sin;
        vstd::arithmetic::div_mod::lemma_fundamental_div_mod(nx, sc);
        vstd::arithmetic::div_mod::lemma_mod_bound(nx, sc);
        vstd::arithmetic::div_mod::lemma_fundamental_div_mod(ny, sc);
        vstd::arithmetic::div_mod::lemma_mod_bound(ny, sc);
        let l = 2 * TURN_LIMIT as int;
        crate::arith::lemma_mul_abs_bound(dx, t.cos as int, l, sc);
        crate::arith::lemma_mul_abs_bound(dy, t.sin as int, l, sc);
        crate::arith::lemma_mul_abs_bound(dy, t.cos as int, l, sc);
        crate::arith::lemma_mul_abs_bound(dx, t.sin as int, l, sc);
        crate::point::lemma_quotient_bound(nx, 2 * l, sc);
        crate::point::lemma_quotient_bound(ny, 2 * l, sc);
        assert(u[k - 1].x == c.x + nx / sc);
        assert(u[k - 1].y == c.y + ny / sc);
        let gx0 = sum_x(s.take(k - 1)) - (k - 1) * c.x;
        let gy0 = sum_y(s.take(k - 1)) - (k - 1) * c.y;
        assert(k * c.x == (k - 1) * c.x + c.x && k * c.y == (k - 1) * c.y + c.y) by (nonlinear_arith);
        assert(sum_x(s.take(k)) - k * c.x == gx0 + dx);
        assert(sum_y(s.take(k)) - k * c.y == gy0 + dy);
        lemma_turn_linear(gx0, gy0, dx, dy, t.cos as int, t.sin as int);
        assert(sc * (nx / sc) <= nx < sc * (nx / sc) + sc);
        assert(sc * (ny / sc) <= ny < sc * (ny / sc) + sc);
        assert(sum_x(u.take(k)) - k * c.x == (sum_x(u.take(k - 1)) - (k - 1) * c.x) + nx / sc);
        assert(sum_y(u.take(k)) - k * c.y == (sum_y(u.take(k - 1)) - (k - 1) * c.y) + ny / sc);
        lemma_mul_add(sc, sum_x(u.take(k - 1)) - (k - 1) * c.x, nx / sc);
        lemma_mul_add(sc, sum_y(u.take(k - 1)) - (k - 1) * c.y, ny / sc);
        assert(k * sc == (k - 1) * sc + sc) by (nonlinear_arith);
    }
}

proof fn lemma_mul_add(a: int, b: int, c: int)
    ensures
        a * (b + c) == a * b + a * c,
{
    assert(a * (b + c) == a * b + a * c) by (nonlinear_arith);
}

proof fn lemma_turn_linear(gx: int, gy: int, dx: int, dy: int, c: int, s: int)
    ensures
        (gx + dx) * c - (gy + dy) * s == (gx * c - gy * s) + (dx * c - dy * s),
        (gy + dy) * c + (gx + dx) * s == (gy * c + gx * s) + (dy * c + dx * s),
{
    assert((gx + dx) * c - (gy + dy) * s == (gx * c - gy * s) + (dx * c - dy * s)) by (nonlinear_arith);
    assert((gy + dy) * c + (gx + dx) * s == (gy * c + gx * s) + (dy * c + dx * s)) by (nonlinear_arith);
}

/// Turning a polygon about its centre moves the centre by at most three
/// units on each axis: the corners' offsets from the centre, which is their
/// mean rounded down, add up to less than one unit per corner, and rounding
/// each turned corner down loses less than one more.
pub proof fn lemma_rotation_nearly_keeps_centre(s: Seq<Point>, t: Turn)
    requires
        s.len() > 0,
        all_within(s, TURN_LIMIT as int),
        t.wf(),
    ensures
        ({
            let c = centre_of(s);
            let c2 = centre_of(rotated_all(s, t, c));
            &&& c.x - 3 <= c2.x <= c.x + 3
            &&& c.y - 3 <= c2.y <= c.y + 3
        }),
{
    let n = s.len() as int;
    let sc = TURN_SCALE as int;
    let c = centre_of(s);
    let u = rotated_all(s, t, c);
    crate::outline::lemma_centre_within(s, TURN_LIMIT as int);
    lemma_rotated_sums(s, t, c, n);
    assert(s.take(n) == s && u.take(n) == u);
    // the offsets from the centre add up to less than n on each axis
    vstd::arithmetic::div_mod::lemma_fundamental_div_mod(sum_x(s), n);
    vstd::arithmetic::div_mod::lemma_mod_bound(sum_x(s), n);
    vstd::arithmetic::div_mod::lemma_fundamental_div_mod(sum_y(s), n);
    vstd::arithmetic::div_mod::lemma_mod_bound(sum_y(s), n);
    let gx = sum_x(s) - n * c.x;
    let gy = sum_y(s) - n * c.y;
    assert(c.x == sum_x(s) / n && c.y == sum_y(s) / n);
    assert(0 <= gx < n && 0 <= gy < n) by (nonlinear_arith)
        requires
            sum_x(s) == n * (sum_x(s) / n) + sum_x(s) % n,
            sum_y(s) == n * (sum_y(s) / n) + sum_y(s) % n,
            0 <= sum_x(s) % n < n,
            0 <= sum_y(s) % n < n,
            c.x == sum_x(s) / n,
            c.y == sum_y(s) / n,
            gx == sum_x(s) - n * c.x,
            gy == sum_y(s) - n * c.y,
    ;
    let a = gx * t.cos - gy * t.sin;
    let b = gy * t.cos + gx * t.sin;
    assert(-2 * n * sc <= a <= 2 * n * sc && -2 * n * sc <= b <= 2 * n * sc) by (nonlinear_arith)
        requires
            0 <= gx < n,
            0 <= gy < n,
            -sc <= t.cos <= sc,
            -sc <= t.sin <= sc,
            a == gx * t.cos - gy * t.sin,
            b == gy * t.cos + gx * t.sin,
    ;
    let xs = sum_x(u) - n * c.x;
    let ys = sum_y(u) - n * c.y;
    assert(-3 * n <= xs <= 2 * n && -3 * n <= ys <= 2 * n) by (nonlinear_arith)
        requires
            a - n * sc <= sc * xs <= a,
            b - n * sc <= sc * ys <= b,
            -2 * n * sc <= a <= 2 * n * sc,
            -2 * n * sc <= b <= 2 * n * sc,
            sc > 0,
            n > 0,
    ;
    lemma_hoist_over_denominator(xs, c.x as int, n as nat);
    lemma_hoist_over_denominator(ys, c.y as int, n as nat);
    assert(c.x * n == n * c.x && c.y * n == n * c.y) by (nonlinear_arith);
    crate::point::lemma_quotient_bound(xs, 3, n);
    crate::point::lemma_quotient_bound(ys, 3, n);
    // the turned corners lie in range, so the new centre's cast is exact
    assert(all_within(u, COORD_LIMIT as int)) by {
        assert forall|i: int| 0 <= i < u.len() implies #[trigger] u[i].within(COORD_LIMIT as int) by {
            assert(s[i].within(TURN_LIMIT as int));
            let p = s[i];
            let l = 2 * TURN_LIMIT as int;
            crate::arith::lemma_mul_abs_bound(p.x - c.x, t.cos as int, l, sc);
            crate::arith::lemma_mul_abs_bound(p.y - c.y, t.sin as int, l, sc);
            crate::arith::lemma_mul_abs_bound(p.y - c.y, t.cos as int, l, sc);
            crate::arith::lemma_mul_abs_bound(p.x - c.x, t.sin as int, l, sc);
            crate::point::lemma_quotient_bound((p.x - c.x) * t.cos - (p.y - c.y) * t.sin, 2 * l, sc);
            crate::point::lemma_quotient_bound((p.y - c.y) * t.cos + (p.x - c.x) * t.sin, 2 * l, sc);
        }
    }
    crate::outline::lemma_centre_within(u, COORD_LIMIT as int);
}

} // verus!
