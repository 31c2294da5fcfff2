use vstd::prelude::*;
use vstd::arithmetic::div_mod::{
    lemma_fundamental_div_mod, lemma_fundamental_div_mod_converse, lemma_mod_bound,
};

verus! {

/// Division rounded towards negative infinity, for a positive divisor.
pub fn floor_div(a: i128, b: i128) -> (q: i128)
    requires
        b > 0,
    ensures
        q == a as int / b as int,
{
    if a >= 0 {
        a / b
    } else {
        let m: i128 = -(a + 1);
        let q0: i128 = m / b;
        proof {
            lemma_fundamental_div_mod(m as int, b as int);
            let r0 = m as int % b as int;
            assert(m as int == q0 as int * b as int + r0) by (nonlinear_arith)
                requires
                    m as int == b as int * (m as int / b as int) + r0,
                    q0 as int == m as int / b as int,
            ;
            assert(a as int == (-(q0 as int) - 1) * b as int + (b as int - r0 - 1)) by (nonlinear_arith)
                requires
                    m as int == q0 as int * b as int + r0,
                    m as int == -(a as int + 1),
            ;
            lemma_fundamental_div_mod_converse(a as int, b as int, -(q0 as int) - 1, b as int - r0 - 1);
            assert(0 <= q0 as int <= m as int) by (nonlinear_arith)
                requires
                    m as int == q0 as int * b as int + r0,
                    0 <= r0 < b,
                    m >= 0,
            ;
        }
        -q0 - 1
    }
}

/// A quotient rounded down lies between zero and the dividend.
pub proof fn lemma_floor_div_between(a: int, b: int)
    requires
        b > 0,
    ensures
        a >= 0 ==> 0 <= a / b <= a,
        a < 0 ==> a <= a / b < 0,
{
    lemma_fundamental_div_mod(a, b);
    lemma_mod_bound(a, b);
    let q = a / b;
    let r = a % b;
    assert(a >= 0 ==> 0 <= q <= a) by (nonlinear_arith)
        requires
            a == b * q + r,
            0 <= r < b,
    ;
    assert(a < 0 ==> a <= q < 0) by (nonlinear_arith)
        requires
            a == b * q + r,
            0 <= r < b,
    ;
}

/// The absolute value.
pub open spec fn abs(v: int) -> int {
    if v < 0 {
        -v
    } else {
        v
    }
}

/// The smallest `r >= 0` with `r * r >= v`.
pub open spec fn is_ceil_sqrt(r: int, v: int) -> bool {
    &&& r >= 0
    &&& r * r >= v
    &&& (r == 0 || (r - 1) * (r - 1) < v)
}

pub proof fn lemma_mul_abs_bound(a: int, b: int, ka: int, kb: int)
    requires
        -ka <= a <= ka,
        -kb <= b <= kb,
    ensures
        -(ka * kb) <= a * b <= ka * kb,
{
    assert(-(ka * kb) <= a * b <= ka * kb) by (nonlinear_arith)
        requires
            -ka <= a <= ka,
            -kb <= b <= kb,
    ;
}

/// The smallest `r >= 0` with `r * r >= v`, for `v` up to `2^64`.
pub fn ceil_sqrt(v: i128) -> (r: i64)
    requires
        0 <= v <= 0x1000_0000_0000_0000_0000_0000_0000_0000,
    ensures
        is_ceil_sqrt(r as int, v as int),
        r == ceil_sqrt_spec(v as int),
        r <= 0x4000_0000_0000_0000,
        v <= 0x1_0000_0000_0000_0000 ==> r <= 0x1_0000_0000,
{
    let mut lo: i64 = 0;
    let mut hi: i64 = 0x4000_0000_0000_0000;
    assert(hi * hi >= v) by (nonlinear_arith)
        requires
            hi == 0x4000_0000_0000_0000,
            v <= 0x1000_0000_0000_0000_0000_0000_0000_0000,
    ;
    while lo < hi
        invariant
            0 <= lo <= hi <= 0x4000_0000_0000_0000,
            hi as int * hi as int >= v,
            lo == 0 || (lo - 1) * (lo - 1) < v,
        decreases hi - lo,
    {
        let mid: i64 = lo + (hi - lo) / 2;
        proof {
            lemma_mul_abs_bound(mid as int, mid as int, 0x4000_0000_0000_0000, 0x4000_0000_0000_0000);
        }
        if (mid as i128) * (mid as i128) >= v {
            hi = mid;
        } else {
            lo = mid + 1;
        }
    }
    proof {
        lemma_ceil_sqrt_unique(lo as int, ceil_sqrt_spec(v as int), v as int);
        if v <= 0x1_0000_0000_0000_0000 && lo > 0x1_0000_0000 {
            assert((lo - 1) * (lo - 1) >= 0x1_0000_0000 * 0x1_0000_0000) by (nonlinear_arith)
                requires
                    lo > 0x1_0000_0000,
            ;
        }
    }
    lo
}

/// The smallest `r >= 0` with `r * r >= v`.
pub open spec fn ceil_sqrt_spec(v: int) -> int {
    choose|r: int| is_ceil_sqrt(r, v)
}

/// There is one smallest `r >= 0` with `r * r >= v`.
pub proof fn lemma_ceil_sqrt_unique(a: int, b: int, v: int)
    requires
        is_ceil_sqrt(a, v),
    ensures
        is_ceil_sqrt(b, v) ==> a == b,
        is_ceil_sqrt(ceil_sqrt_spec(v), v),
{
    assert(is_ceil_sqrt(b, v) ==> a == b) by (nonlinear_arith)
        requires
            is_ceil_sqrt(a, v),
    ;
}

} // verus!
