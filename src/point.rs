use vstd::prelude::*;
use crate::arith::{abs, ceil_sqrt, ceil_sqrt_spec, floor_div, is_ceil_sqrt, lemma_floor_div_between, lemma_mul_abs_bound};

verus! {

/// Every coordinate that the geometry of this crate handles lies in
/// `-COORD_LIMIT ..= COORD_LIMIT`; within it no product or sum below overflows.
pub const COORD_LIMIT: i64 = 0x4000_0000;

/// A rotation turns points within this smaller range, so that the turned
/// points stay within `COORD_LIMIT`.
pub const TURN_LIMIT: i64 = 0x800_0000;

/// The fixed-point scale of a `Turn`: `cos == TURN_SCALE` is a factor of one.
pub const TURN_SCALE: i64 = 0x1_0000;

pub open spec fn in_limit(v: int, limit: int) -> bool {
    -limit <= v <= limit
}

/// A point, or a vector, on the integer lattice.
#[derive(Clone, Copy, Debug, PartialEq, Eq, Structural)]
pub struct Point {
    pub x: i64,
    pub y: i64,
}

/// A rotation given by its cosine and sine in units of `1 / TURN_SCALE`,
/// each rounded to an integer: `cos^2 + sin^2` is then `TURN_SCALE^2` to
/// within `2 * TURN_SCALE`.
#[derive(Clone, Copy, Debug, PartialEq, Eq, Structural)]
pub struct Turn {
    pub cos: i64,
    pub sin: i64,
}

impl Turn {
    pub open spec fn wf(self) -> bool {
        let sc = TURN_SCALE as int;
        let q = self.cos * self.cos + self.sin * self.sin;
        &&& in_limit(self.cos as int, sc)
        &&& in_limit(self.sin as int, sc)
        &&& sc * sc - 2 * sc <= q <= sc * sc + 2 * sc
    }

    /// The turn with this cosine and sine, if it is one (see `wf`).
    pub fn checked(cos: i64, sin: i64) -> (r: Option<Turn>)
        ensures
            r is Some <==> (Turn { cos, sin }).wf(),
            r matches Some(t) ==> t == (Turn { cos, sin }),
    {
        let sc = TURN_SCALE as i128;
        if !(-sc <= cos as i128 && cos as i128 <= sc && -sc <= sin as i128 && sin as i128 <= sc) {
            return None;
        }
        proof {
            lemma_mul_abs_bound(cos as int, cos as int, sc as int, sc as int);
            lemma_mul_abs_bound(sin as int, sin as int, sc as int, sc as int);
        }
        let q = cos as i128 * cos as i128 + sin as i128 * sin as i128;
        if sc * sc - 2 * sc <= q && q <= sc * sc + 2 * sc {
            Some(Turn { cos, sin })
        } else {
            None
        }
    }

    pub fn new(cos: i64, sin: i64) -> (r: Turn)
        ensures
            r.cos == cos,
            r.sin == sin,
    {
        Turn { cos, sin }
    }

    /// The rotation by zero.
    pub fn identity() -> (r: Turn)
        ensures
            r.wf(),
            r.cos == TURN_SCALE,
            r.sin == 0,
    {
        Turn { cos: TURN_SCALE, sin: 0 }
    }
}

pub open spec fn dot_spec(a: Point, b: Point) -> int {
    a.x * b.x + a.y * b.y
}

pub open spec fn cross_spec(a: Point, b: Point) -> int {
    a.x * b.y - a.y * b.x
}

/// `p` turned by `t` around `c`, each coordinate rounded down to the lattice.
pub open spec fn rotated_spec(p: Point, t: Turn, c: Point) -> (int, int) {
    let dx = p.x - c.x;
    let dy = p.y - c.y;
    (
        c.x + (dx * t.cos - dy * t.sin) / (TURN_SCALE as int),
        c.y + (dy * t.cos + dx * t.sin) / (TURN_SCALE as int),
    )
}

/// `v` scaled to length `TURN_SCALE`, in the way `Turn` holds a cosine and
/// sine: each coordinate of `v * TURN_SCALE / |v|`, with `|v|` rounded up to
/// a multiple of `1 / TURN_SCALE` and the result rounded down; zero for zero.
pub open spec fn unit_spec(v: Point) -> Point {
    let sc = TURN_SCALE as int;
    let q = v.x * v.x + v.y * v.y;
    if q == 0 {
        Point { x: 0, y: 0 }
    } else {
        let m = ceil_sqrt_spec(q * (sc * sc));
        Point { x: ((v.x * (sc * sc)) / m) as i64, y: ((v.y * (sc * sc)) / m) as i64 }
    }
}

/// The squared length of `n` is `TURN_SCALE^2` to within `6 * TURN_SCALE`:
/// `n` is a unit vector in units of `1 / TURN_SCALE`.
pub open spec fn near_unit(n: Point) -> bool {
    let sc = TURN_SCALE as int;
    sc * sc - 6 * sc <= n.x * n.x + n.y * n.y <= sc * sc + 6 * sc
}

/// `n` is zero or near unit length (see `near_unit`).
pub open spec fn zero_or_unit(n: Point) -> bool {
    (n.x == 0 && n.y == 0) || near_unit(n)
}

impl Point {
    pub open spec fn within(self, limit: int) -> bool {
        in_limit(self.x as int, limit) && in_limit(self.y as int, limit)
    }

    /// Within the coordinate range of the crate.
    pub open spec fn bounded(self) -> bool {
        self.within(COORD_LIMIT as int)
    }

    /// No coordinate is `i64::MIN`, so that every coordinate can be negated.
    pub open spec fn symmetric(self) -> bool {
        self.x > i64::MIN && self.y > i64::MIN
    }

    pub fn new(x: i64, y: i64) -> (r: Point)
        ensures
            r.x == x,
            r.y == y,
    {
        Point { x, y }
    }

    pub fn add(self, o: Point) -> (r: Point)
        requires
            i64::MIN <= self.x + o.x <= i64::MAX,
            i64::MIN <= self.y + o.y <= i64::MAX,
        ensures
            r.x == self.x + o.x,
            r.y == self.y + o.y,
    {
        Point { x: self.x + o.x, y: self.y + o.y }
    }

    pub fn sub(self, o: Point) -> (r: Point)
        requires
            i64::MIN <= self.x - o.x <= i64::MAX,
            i64::MIN <= self.y - o.y <= i64::MAX,
        ensures
            r.x == self.x - o.x,
            r.y == self.y - o.y,
    {
        Point { x: self.x - o.x, y: self.y - o.y }
    }

    pub fn neg(self) -> (r: Point)
        requires
            self.symmetric(),
        ensures
            r.x == -self.x,
            r.y == -self.y,
    {
        Point { x: -self.x, y: -self.y }
    }

    pub fn mul(self, k: i64) -> (r: Point)
        requires
            i64::MIN <= self.x * k <= i64::MAX,
            i64::MIN <= self.y * k <= i64::MAX,
        ensures
            r.x == self.x * k,
            r.y == self.y * k,
    {
        Point { x: self.x * k, y: self.y * k }
    }

    /// Each coordinate divided by `k`, rounded down.
    pub fn div(self, k: i64) -> (r: Point)
        requires
            k > 0,
        ensures
            r.x == self.x as int / k as int,
            r.y == self.y as int / k as int,
    {
        proof {
            lemma_floor_div_between(self.x as int, k as int);
            lemma_floor_div_between(self.y as int, k as int);
        }
        Point {
            x: floor_div(self.x as i128, k as i128) as i64,
            y: floor_div(self.y as i128, k as i128) as i64,
        }
    }

    pub fn dot(self, o: Point) -> (r: i128)
        requires
            self.symmetric(),
            o.symmetric(),
        ensures
            r == dot_spec(self, o),
    {
        proof {
            lemma_mul_abs_bound(self.x as int, o.x as int, i64::MAX as int, i64::MAX as int);
            lemma_mul_abs_bound(self.y as int, o.y as int, i64::MAX as int, i64::MAX as int);
        }
        self.x as i128 * o.x as i128 + self.y as i128 * o.y as i128
    }

    /// The z component of the cross product: positive when `o` lies
    /// counter-clockwise of `self`.
    pub fn cross(self, o: Point) -> (r: i128)
        requires
            self.symmetric(),
            o.symmetric(),
        ensures
            r == cross_spec(self, o),
    {
        proof {
            lemma_mul_abs_bound(self.x as int, o.y as int, i64::MAX as int, i64::MAX as int);
            lemma_mul_abs_bound(self.y as int, o.x as int, i64::MAX as int, i64::MAX as int);
        }
        self.x as i128 * o.y as i128 - self.y as i128 * o.x as i128
    }

    pub fn len_squared(self) -> (r: i128)
        requires
            self.symmetric(),
        ensures
            r == dot_spec(self, self),
            r >= 0,
    {
        proof {
            assert(self.x * self.x >= 0 && self.y * self.y >= 0) by (nonlinear_arith);
        }
        self.dot(self)
    }

    /// The squared distance between two points of the coordinate range.
    pub fn dist_squared(self, o: Point) -> (r: i128)
        requires
            self.bounded(),
            o.bounded(),
        ensures
            r == (self.x - o.x) * (self.x - o.x) + (self.y - o.y) * (self.y - o.y),
    {
        self.sub(o).len_squared()
    }

    /// The length of the vector, rounded up; for vectors between two points
    /// of the coordinate range.
    pub fn len(self) -> (r: i64)
        requires
            self.within(2 * COORD_LIMIT as int),
        ensures
            is_ceil_sqrt(r as int, dot_spec(self, self)),
    {
        let ghost l = 2 * COORD_LIMIT as int;
        proof {
            lemma_mul_abs_bound(self.x as int, self.x as int, l, l);
            lemma_mul_abs_bound(self.y as int, self.y as int, l, l);
        }
        ceil_sqrt(self.len_squared())
    }

    /// The distance between two points of the coordinate range, rounded up.
    pub fn dist(self, o: Point) -> (r: i64)
        requires
            self.bounded(),
            o.bounded(),
        ensures
            is_ceil_sqrt(r as int, (self.x - o.x) * (self.x - o.x) + (self.y - o.y) * (self.y - o.y)),
    {
        self.sub(o).len()
    }

    /// This vector scaled to length `TURN_SCALE` (see `unit_spec`).
    pub fn unit(self) -> (r: Point)
        requires
            self.within(2 * COORD_LIMIT as int),
        ensures
            r == unit_spec(self),
            self.x == 0 && self.y == 0 ==> r.x == 0 && r.y == 0,
            !(self.x == 0 && self.y == 0) ==> near_unit(r),
    {
        let ghost l = 2 * COORD_LIMIT as int;
        let ghost sc = TURN_SCALE as int;
        proof {
            lemma_mul_abs_bound(self.x as int, self.x as int, l, l);
            lemma_mul_abs_bound(self.y as int, self.y as int, l, l);
        }
        let q = self.len_squared();
        if q == 0 {
            assert(self.x == 0 && self.y == 0) by (nonlinear_arith)
                requires
                    self.x * self.x + self.y * self.y == 0,
            ;
            return Point::new(0, 0);
        }
        let s2: i128 = 0x1_0000_0000;
        assert(s2 == sc * sc);
        assert(q * s2 <= 0x1000_0000_0000_0000_0000_0000_0000_0000) by (nonlinear_arith)
            requires
                0 < q <= 2 * l * l,
                l == 0x8000_0000,
                s2 == 0x1_0000_0000,
        ;
        let m = ceil_sqrt(q * s2) as i128;
        proof {
            lemma_unit_bounds(self.x as int, self.y as int, sc, m as int);
            lemma_mul_abs_bound(self.x as int, s2 as int, l, s2 as int);
            lemma_mul_abs_bound(self.y as int, s2 as int, l, s2 as int);
        }
        let nx = floor_div(self.x as i128 * s2, m);
        let ny = floor_div(self.y as i128 * s2, m);
        proof {
            lemma_quotient_bound(self.x * s2, sc, m as int);
            lemma_quotient_bound(self.y * s2, sc, m as int);
            vstd::arithmetic::div_mod::lemma_fundamental_div_mod(self.x * s2, m as int);
            vstd::arithmetic::div_mod::lemma_mod_bound(self.x * s2, m as int);
            vstd::arithmetic::div_mod::lemma_fundamental_div_mod(self.y * s2, m as int);
            vstd::arithmetic::div_mod::lemma_mod_bound(self.y * s2, m as int);
            lemma_unit_length(self.x as int, self.y as int, sc, m as int, nx as int, ny as int);
        }
        Point { x: nx as i64, y: ny as i64 }
    }

    /// This point turned by `t` around `centre`, rounded down to the lattice.
    pub fn rotated(self, t: Turn, centre: Point) -> (r: Point)
        requires
            t.wf(),
            self.within(TURN_LIMIT as int),
            centre.within(TURN_LIMIT as int),
        ensures
            (r.x as int, r.y as int) == rotated_spec(self, t, centre),
            r.bounded(),
            ({
                let dx = self.x - centre.x;
                let dy = self.y - centre.y;
                let d = dx * dx + dy * dy;
                let e = (r.x - centre.x) * (r.x - centre.x) + (r.y - centre.y) * (r.y - centre.y);
                abs(e - d) * TURN_SCALE <= TURN_SCALE * (4 * (abs(dx) + abs(dy)) + 2) + 2 * d
            }),
    {
        let dx = self.x as i128 - centre.x as i128;
        let dy = self.y as i128 - centre.y as i128;
        let c = t.cos as i128;
        let s = t.sin as i128;
        let ghost lim = 2 * TURN_LIMIT as int;
        let ghost scale = TURN_SCALE as int;
        proof {
            lemma_mul_abs_bound(dx as int, c as int, lim, scale);
            lemma_mul_abs_bound(dy as int, s as int, lim, scale);
            lemma_mul_abs_bound(dy as int, c as int, lim, scale);
            lemma_mul_abs_bound(dx as int, s as int, lim, scale);
        }
        let nx = dx * c - dy * s;
        let ny = dy * c + dx * s;
        let qx = floor_div(nx, TURN_SCALE as i128);
        let qy = floor_div(ny, TURN_SCALE as i128);
        proof {
            lemma_quotient_bound(nx as int, 2 * lim, scale);
            lemma_quotient_bound(ny as int, 2 * lim, scale);
            vstd::arithmetic::div_mod::lemma_fundamental_div_mod(nx as int, scale);
            vstd::arithmetic::div_mod::lemma_mod_bound(nx as int, scale);
            vstd::arithmetic::div_mod::lemma_fundamental_div_mod(ny as int, scale);
            vstd::arithmetic::div_mod::lemma_mod_bound(ny as int, scale);
            lemma_turn_keeps_distance(
                dx as int,
                dy as int,
                c as int,
                s as int,
                qx as int,
                qy as int,
                scale,
            );
        }
        Point { x: (centre.x as i128 + qx) as i64, y: (centre.y as i128 + qy) as i64 }
    }
}

/// `|n| <= k * d` bounds `n / d` by `k` on either side.
pub proof fn lemma_quotient_bound(n: int, k: int, d: int)
    requires
        d > 0,
        k >= 0,
        -(k * d) <= n <= k * d,
    ensures
        -k <= n / d <= k,
{
    vstd::arithmetic::div_mod::lemma_fundamental_div_mod(n, d);
    vstd::arithmetic::div_mod::lemma_mod_bound(n, d);
    let q = n / d;
    let r = n % d;
    assert(-k <= q <= k) by (nonlinear_arith)
        requires
            n == d * q + r,
            0 <= r < d,
            -(k * d) <= n <= k * d,
            d > 0,
    ;
}

proof fn lemma_turn_identity(dx: int, dy: int, c: int, s: int)
    ensures
        (dx * c - dy * s) * (dx * c - dy * s) + (dy * c + dx * s) * (dy * c + dx * s) == (dx * dx + dy * dy)
            * (c * c + s * s),
{
    let (a, b, u, v) = (dx * c, dy * s, dy * c, dx * s);
    assert((a - b) * (a - b) + (u + v) * (u + v) == a * a + b * b + u * u + v * v - 2 * (a * b) + 2 * (u * v))
        by (nonlinear_arith);
    assert(a * b == u * v) by (nonlinear_arith)
        requires
            a == dx * c,
            b == dy * s,
            u == dy * c,
            v == dx * s,
    ;
    assert(a * a + v * v == (dx * dx) * (c * c + s * s)) by (nonlinear_arith)
        requires
            a == dx * c,
            v == dx * s,
    ;
    assert(b * b + u * u == (dy * dy) * (c * c + s * s)) by (nonlinear_arith)
        requires
            b == dy * s,
            u == dy * c,
    ;
    assert((dx * dx) * (c * c + s * s) + (dy * dy) * (c * c + s * s) == (dx * dx + dy * dy) * (c * c + s
        * s)) by (nonlinear_arith);
}

proof fn lemma_abs_mul_le(a: int, b: int, k: int)
    requires
        0 <= b <= k,
    ensures
        abs(a * b) <= abs(a) * k,
{
    if a >= 0 {
        assert(0 <= a * b <= a * k) by (nonlinear_arith)
            requires
                0 <= b <= k,
                a >= 0,
        ;
    } else {
        assert(0 <= (-a) * b <= (-a) * k) by (nonlinear_arith)
            requires
                0 <= b <= k,
                a < 0,
        ;
        assert(a * b == -((-a) * b)) by (nonlinear_arith);
    }
}

/// Turning `(dx, dy)` by a turn of the crate and rounding each coordinate
/// down to `(rx, ry)` changes the squared length `d` by at most
/// `4 * (|dx| + |dy|) + 2 + 2 * d / sc`: the turn itself by at most
/// `2 * d / sc`, and the rounding by less than a unit on each axis.
pub proof fn lemma_turn_keeps_distance(dx: int, dy: int, c: int, s: int, rx: int, ry: int, sc: int)
    requires
        sc > 0,
        -sc <= c <= sc,
        -sc <= s <= sc,
        sc * sc - 2 * sc <= c * c + s * s <= sc * sc + 2 * sc,
        sc * rx <= dx * c - dy * s < sc * rx + sc,
        sc * ry <= dy * c + dx * s < sc * ry + sc,
    ensures
        abs(rx * rx + ry * ry - (dx * dx + dy * dy)) * sc <= sc * (4 * (abs(dx) + abs(dy)) + 2) + 2 * (dx
            * dx + dy * dy),
{
    let nx = dx * c - dy * s;
    let ny = dy * c + dx * s;
    let ex = nx - sc * rx;
    let ey = ny - sc * ry;
    let d = dx * dx + dy * dy;
    let q = c * c + s * s;
    let e = rx * rx + ry * ry;
    let k = abs(dx) + abs(dy);
    assert(d >= 0) by (nonlinear_arith)
        requires
            d == dx * dx + dy * dy,
    ;
    lemma_turn_identity(dx, dy, c, s);
    assert(nx * nx + ny * ny == d * q);
    // each turned coordinate is at most sc * (|dx| + |dy|) in size
    lemma_abs_mul_le(dx, if c >= 0 { c } else { -c }, sc);
    lemma_abs_mul_le(dy, if s >= 0 { s } else { -s }, sc);
    lemma_abs_mul_le(dy, if c >= 0 { c } else { -c }, sc);
    lemma_abs_mul_le(dx, if s >= 0 { s } else { -s }, sc);
    assert(abs(dx * c) == abs(dx * (if c >= 0 { c } else { -c }))) by (nonlinear_arith);
    assert(abs(dy * s) == abs(dy * (if s >= 0 { s } else { -s }))) by (nonlinear_arith);
    assert(abs(dy * c) == abs(dy * (if c >= 0 { c } else { -c }))) by (nonlinear_arith);
    assert(abs(dx * s) == abs(dx * (if s >= 0 { s } else { -s }))) by (nonlinear_arith);
    assert(abs(dx) * sc + abs(dy) * sc == sc * k) by (nonlinear_arith)
        requires
            k == abs(dx) + abs(dy),
    ;
    assert(abs(nx) <= sc * k && abs(ny) <= sc * k);
    lemma_abs_mul_le(nx, ex, sc);
    lemma_abs_mul_le(ny, ey, sc);
    let an = abs(nx);
    let am = abs(ny);
    let m = sc * (sc * k);
    assert(an * sc <= m && am * sc <= m) by (nonlinear_arith)
        requires
            an <= sc * k,
            am <= sc * k,
            sc > 0,
            m == sc * (sc * k),
    ;
    let z = sc * sc;
    let w = sc * d;
    assert(z * e == d * q - 2 * (nx * ex + ny * ey) + ex * ex + ey * ey) by (nonlinear_arith)
        requires
            ex == nx - sc * rx,
            ey == ny - sc * ry,
            e == rx * rx + ry * ry,
            nx * nx + ny * ny == d * q,
            z == sc * sc,
    ;
    assert(0 <= ex * ex + ey * ey <= 2 * z) by (nonlinear_arith)
        requires
            0 <= ex < sc,
            0 <= ey < sc,
            z == sc * sc,
    ;
    assert(-2 * w <= d * q - z * d <= 2 * w) by (nonlinear_arith)
        requires
            z - 2 * sc <= q <= z + 2 * sc,
            d >= 0,
            w == sc * d,
    ;
    let bound = sc * (4 * k + 2) + 2 * d;
    assert(sc * bound == 4 * m + 2 * z + 2 * w) by (nonlinear_arith)
        requires
            bound == sc * (4 * k + 2) + 2 * d,
            m == sc * (sc * k),
            z == sc * sc,
            w == sc * d,
    ;
    assert(z * e - z * d == (d * q - z * d) - 2 * (nx * ex + ny * ey) + (ex * ex + ey * ey));
    let g = e - d;
    assert(z * e - z * d == sc * (sc * g)) by (nonlinear_arith)
        requires
            z == sc * sc,
            g == e - d,
    ;
    let h = sc * g;
    assert(-(sc * bound) <= sc * h <= sc * bound);
    assert(-bound <= h <= bound) by (nonlinear_arith)
        requires
            -(sc * bound) <= sc * h <= sc * bound,
            sc > 0,
    ;
    assert(abs(g) * sc <= bound) by (nonlinear_arith)
        requires
            h == sc * g,
            -bound <= h <= bound,
            sc > 0,
    ;
}

/// With `m` the rounded-up root of `(a^2 + b^2) * sc^2`: `m >= sc`, and
/// `|a| * sc^2` and `|b| * sc^2` are at most `sc * m`.
proof fn lemma_unit_bounds(a: int, b: int, sc: int, m: int)
    requires
        sc > 0,
        a * a + b * b > 0,
        is_ceil_sqrt(m, (a * a + b * b) * (sc * sc)),
    ensures
        m >= sc,
        -(sc * m) <= a * (sc * sc) <= sc * m,
        -(sc * m) <= b * (sc * sc) <= sc * m,
{
    let q = a * a + b * b;
    assert(q >= 1);
    assert(q * (sc * sc) >= sc * sc) by (nonlinear_arith)
        requires
            q >= 1,
    ;
    assert(m >= sc) by (nonlinear_arith)
        requires
            m >= 0,
            sc > 0,
            m * m >= sc * sc,
    ;
    // (a * sc)^2 <= q * sc^2 <= m^2, so |a| * sc <= m
    assert((a * sc) * (a * sc) <= m * m) by (nonlinear_arith)
        requires
            m * m >= (a * a + b * b) * (sc * sc),
    ;
    assert((b * sc) * (b * sc) <= m * m) by (nonlinear_arith)
        requires
            m * m >= (a * a + b * b) * (sc * sc),
    ;
    assert(-m <= a * sc <= m) by (nonlinear_arith)
        requires
            (a * sc) * (a * sc) <= m * m,
            m >= 0,
    ;
    assert(-m <= b * sc <= m) by (nonlinear_arith)
        requires
            (b * sc) * (b * sc) <= m * m,
            m >= 0,
    ;
    assert(-(sc * m) <= a * (sc * sc) <= sc * m) by (nonlinear_arith)
        requires
            -m <= a * sc <= m,
            sc > 0,
    ;
    assert(-(sc * m) <= b * (sc * sc) <= sc * m) by (nonlinear_arith)
        requires
            -m <= b * sc <= m,
            sc > 0,
    ;
}

proof fn lemma_square_of_difference(m: int, n: int, u: int, r: int)
    requires
        m * n == u - r,
    ensures
        (m * m) * (n * n) == u * u - 2 * (u * r) + r * r,
{
    assert((m * m) * (n * n) == (m * n) * (m * n)) by (nonlinear_arith);
    assert((u - r) * (u - r) == u * u - 2 * (u * r) + r * r) by (nonlinear_arith);
}

/// Rounding `(a, b) * sc^2 / m` down, with `m` the rounded-up root of
/// `(a^2 + b^2) * sc^2`, gives a vector whose squared length is `sc^2` to
/// within `6 * sc`.
proof fn lemma_unit_length(a: int, b: int, sc: int, m: int, nx: int, ny: int)
    requires
        sc >= 8,
        a * a + b * b > 0,
        is_ceil_sqrt(m, (a * a + b * b) * (sc * sc)),
        m * nx <= a * (sc * sc) < m * nx + m,
        m * ny <= b * (sc * sc) < m * ny + m,
    ensures
        sc * sc - 6 * sc <= nx * nx + ny * ny <= sc * sc + 6 * sc,
{
    let q = a * a + b * b;
    let z = sc * sc;
    let u = a * z;
    let v = b * z;
    let rx = u - m * nx;
    let ry = v - m * ny;
    let g = nx * nx + ny * ny;
    lemma_unit_bounds(a, b, sc, m);
    let mm = m * m;
    assert(z > 0) by (nonlinear_arith)
        requires
            z == sc * sc,
            sc > 0,
    ;
    // m^2 * g = (u - rx)^2 + (v - ry)^2 = q * z^2 - 2 (u rx + v ry) + rx^2 + ry^2
    assert(u * u + v * v == (q * z) * z) by (nonlinear_arith)
        requires
            u == a * z,
            v == b * z,
            q == a * a + b * b,
    ;
    lemma_square_of_difference(m, nx, u, rx);
    lemma_square_of_difference(m, ny, v, ry);
    assert(mm * g == mm * (nx * nx) + mm * (ny * ny)) by (nonlinear_arith)
        requires
            g == nx * nx + ny * ny,
    ;
    assert(mm * g == (q * z) * z - 2 * (u * rx + v * ry) + rx * rx + ry * ry);
    // |u rx + v ry| <= 2 sc m^2
    assert(-(2 * sc * mm) <= u * rx + v * ry <= 2 * sc * mm) by (nonlinear_arith)
        requires
            -(sc * m) <= u <= sc * m,
            -(sc * m) <= v <= sc * m,
            0 <= rx < m,
            0 <= ry < m,
            mm == m * m,
            sc > 0,
    ;
    assert(0 <= rx * rx + ry * ry <= 2 * mm) by (nonlinear_arith)
        requires
            0 <= rx < m,
            0 <= ry < m,
            mm == m * m,
    ;
    // q z lies between (m - 1)^2 and m^2
    assert(mm - 2 * m < q * z <= mm) by (nonlinear_arith)
        requires
            m * m >= q * z,
            (m - 1) * (m - 1) < q * z,
            mm == m * m,
    ;
    assert((mm - 2 * m) * z <= (q * z) * z <= mm * z) by (nonlinear_arith)
        requires
            mm - 2 * m < q * z <= mm,
            z > 0,
    ;
    // 2 m z <= 2 sc m^2, as m >= sc
    assert(2 * m * z <= 2 * sc * mm) by (nonlinear_arith)
        requires
            m >= sc,
            sc > 0,
            z == sc * sc,
            mm == m * m,
    ;
    assert(mm * g <= mm * (z + 6 * sc)) by (nonlinear_arith)
        requires
            mm * g == (q * z) * z - 2 * (u * rx + v * ry) + rx * rx + ry * ry,
            (q * z) * z <= mm * z,
            -(2 * sc * mm) <= u * rx + v * ry,
            rx * rx + ry * ry <= 2 * mm,
            sc >= 8,
            mm >= 0,
    ;
    assert(mm * g >= mm * (z - 6 * sc)) by (nonlinear_arith)
        requires
            mm * g == (q * z) * z - 2 * (u * rx + v * ry) + rx * rx + ry * ry,
            (mm - 2 * m) * z <= (q * z) * z,
            u * rx + v * ry <= 2 * sc * mm,
            rx * rx + ry * ry >= 0,
            2 * m * z <= 2 * sc * mm,
    ;
    assert(mm > 0) by (nonlinear_arith)
        requires
            m >= sc,
            sc > 0,
            mm == m * m,
    ;
    assert(z - 6 * sc <= g <= z + 6 * sc) by (nonlinear_arith)
        requires
            mm * g <= mm * (z + 6 * sc),
            mm * g >= mm * (z - 6 * sc),
            mm > 0,
    ;
}

} // verus!
