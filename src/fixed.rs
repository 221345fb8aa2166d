//! Integer helpers for the fixed-point arithmetic that the simulation runs on.
use vstd::prelude::*;

verus! {

/// The largest magnitude that a coordinate or a velocity component may hold.
/// Values that would leave `[-COORD_LIMIT, COORD_LIMIT]` saturate at the bound.
pub const COORD_LIMIT: i64 = 1_099_511_627_776;

pub open spec fn clamp_spec(v: int) -> int {
    if v > COORD_LIMIT {
        COORD_LIMIT as int
    } else if v < -COORD_LIMIT {
        -COORD_LIMIT
    } else {
        v
    }
}

pub open spec fn in_limit(v: int) -> bool {
    -COORD_LIMIT <= v <= COORD_LIMIT
}

pub open spec fn abs_spec(v: int) -> int {
    if v < 0 { -v } else { v }
}

/// Division rounding toward zero, as Rust's `/` does on signed integers.
pub open spec fn trunc_div(a: int, b: int) -> int {
    if a >= 0 { a / b } else { -((-a) / b) }
}

/// Division rounding away from zero: the quotient's magnitude is rounded up.
pub open spec fn away_div(a: int, b: int) -> int {
    if a >= 0 { (a + b - 1) / b } else { -((-a + b - 1) / b) }
}

/// `r` is the square root of `n`, rounded down.
pub open spec fn is_floor_sqrt(r: int, n: int) -> bool {
    0 <= r && r * r <= n && n < (r + 1) * (r + 1)
}

/// `r` is the square root of `n`, rounded up.
pub open spec fn is_ceil_sqrt(r: int, n: int) -> bool {
    0 <= r && n <= r * r && (r == 0 || (r - 1) * (r - 1) < n)
}

/// The square root of `n >= 0`, rounded down.
pub open spec fn floor_sqrt(n: int) -> int {
    choose|r: int| is_floor_sqrt(r, n)
}

/// The square root of `n >= 0`, rounded up.
pub open spec fn ceil_sqrt(n: int) -> int {
    choose|r: int| is_ceil_sqrt(r, n)
}

/// Every `n >= 0` has a square root rounded down.
pub proof fn lemma_floor_sqrt(n: int)
    requires
        n >= 0,
    ensures
        is_floor_sqrt(floor_sqrt(n), n),
    decreases n,
{
    if n == 0 {
        assert(is_floor_sqrt(0, 0));
    } else {
        lemma_floor_sqrt(n - 1);
        let r = floor_sqrt(n - 1);
        if (r + 1) * (r + 1) <= n {
            assert(n < (r + 2) * (r + 2)) by (nonlinear_arith)
                requires
                    n - 1 < (r + 1) * (r + 1),
                    r >= 0,
            ;
            assert(is_floor_sqrt(r + 1, n));
        } else {
            assert(is_floor_sqrt(r, n));
        }
    }
}

proof fn lemma_floor_sqrt_unique(r: int, n: int)
    requires
        is_floor_sqrt(r, n),
    ensures
        floor_sqrt(n) == r,
{
    let s = floor_sqrt(n);
    assert(is_floor_sqrt(s, n));
    if s < r {
        assert(false) by (nonlinear_arith)
            requires
                0 <= s < r,
                r * r <= n,
                n < (s + 1) * (s + 1),
        ;
    }
    if r < s {
        assert(false) by (nonlinear_arith)
            requires
                0 <= r < s,
                s * s <= n,
                n < (r + 1) * (r + 1),
        ;
    }
}

proof fn lemma_ceil_sqrt_unique(r: int, n: int)
    requires
        is_ceil_sqrt(r, n),
    ensures
        ceil_sqrt(n) == r,
{
    let s = ceil_sqrt(n);
    assert(is_ceil_sqrt(s, n));
    if s < r {
        assert(false) by (nonlinear_arith)
            requires
                0 <= s < r,
                (r - 1) * (r - 1) < n,
                n <= s * s,
        ;
    }
    if r < s {
        assert(false) by (nonlinear_arith)
            requires
                0 <= r < s,
                (s - 1) * (s - 1) < n,
                n <= r * r,
        ;
    }
}

/// Saturates a wide intermediate value to the coordinate range.
pub fn clamp_coord(v: i128) -> (r: i64)
    ensures
        r == clamp_spec(v as int),
        in_limit(r as int),
{
    if v > COORD_LIMIT as i128 {
        COORD_LIMIT
    } else if v < -(COORD_LIMIT as i128) {
        -COORD_LIMIT
    } else {
        v as i64
    }
}

/// Signed division by a positive divisor, rounding toward zero.
pub fn div_toward_zero(a: i128, b: i128) -> (r: i128)
    requires
        b > 0,
        a > i128::MIN,
    ensures
        r == trunc_div(a as int, b as int),
        abs_spec(r as int) * b <= abs_spec(a as int),
{
    if a >= 0 {
        let q = a / b;
        proof {
            lemma_div_bound(a as int, b as int);
        }
        q
    } else {
        let q = (-a) / b;
        proof {
            lemma_div_bound(-a, b as int);
        }
        -q
    }
}

/// Signed division by a positive divisor, rounding away from zero.
pub fn div_away_from_zero(a: i128, b: i128) -> (r: i128)
    requires
        b > 0,
        -0x100_0000_0000_0000_0000_0000_0000_0000 <= a <= 0x100_0000_0000_0000_0000_0000_0000_0000,
        b <= 0x100_0000_0000_0000_0000_0000_0000_0000,
    ensures
        r == away_div(a as int, b as int),
        abs_spec(a as int) <= abs_spec(r as int) * b,
        abs_spec(r as int) * b <= abs_spec(a as int) + b - 1,
        a > 0 ==> r > 0,
        a < 0 ==> r < 0,
        a == 0 ==> r == 0,
{
    let m: i128 = if a >= 0 { a } else { -a };
    let q = (m + b - 1) / b;
    proof {
        let mm = m as int;
        let bb = b as int;
        let qq = q as int;
        vstd::arithmetic::div_mod::lemma_fundamental_div_mod(mm + bb - 1, bb);
        vstd::arithmetic::div_mod::lemma_mod_pos_bound(mm + bb - 1, bb);
        vstd::arithmetic::div_mod::lemma_div_pos_is_pos(mm + bb - 1, bb);
        let rr = (mm + bb - 1) % bb;
        assert(qq * bb == mm + bb - 1 - rr) by (nonlinear_arith)
            requires
                mm + bb - 1 == bb * qq + rr,
        ;
        if mm > 0 {
            assert(qq > 0) by (nonlinear_arith)
                requires
                    qq * bb == mm + bb - 1 - rr,
                    0 <= rr < bb,
                    mm > 0,
                    qq >= 0,
            ;
        }
        if mm == 0 {
            assert(qq == 0) by (nonlinear_arith)
                requires
                    qq * bb == bb - 1 - rr,
                    0 <= rr < bb,
                    qq >= 0,
            ;
        }
    }
    if a >= 0 {
        q
    } else {
        -q
    }
}

pub proof fn lemma_div_bound(a: int, b: int)
    requires
        a >= 0,
        b > 0,
    ensures
        (a / b) * b <= a,
        a / b >= 0,
{
    vstd::arithmetic::div_mod::lemma_fundamental_div_mod(a, b);
    vstd::arithmetic::div_mod::lemma_div_pos_is_pos(a, b);
    vstd::arithmetic::div_mod::lemma_mod_pos_bound(a, b);
    let q = a / b;
    let m = a % b;
    assert(q * b <= a) by (nonlinear_arith)
        requires
            a == b * q + m,
            m >= 0,
    ;
}

/// The integer square root, rounded down.
pub fn isqrt_floor(n: u128) -> (r: u64)
    requires
        n < 0x100_0000_0000_0000_0000_0000_0000_0000,
    ensures
        is_floor_sqrt(r as int, n as int),
        r == floor_sqrt(n as int),
{
    let mut lo: u64 = 0;
    let mut hi: u64 = 0x1000_0000_0000_0000;
    assert((hi as int) * (hi as int) > n) by (nonlinear_arith)
        requires
            hi == 0x1000_0000_0000_0000u64,
            n < 0x100_0000_0000_0000_0000_0000_0000_0000,
    ;
    while hi - lo > 1
        invariant
            lo < hi,
            hi <= 0x1000_0000_0000_0000,
            (lo as int) * (lo as int) <= n,
            n < (hi as int) * (hi as int),
        decreases hi - lo,
    {
        let mid: u64 = lo + (hi - lo) / 2;
        assert((mid as int) * (mid as int) <= 0x1000_0000_0000_0000 * 0x1000_0000_0000_0000) by (nonlinear_arith)
            requires
                mid <= 0x1000_0000_0000_0000,
        ;
        let sq: u128 = (mid as u128) * (mid as u128);
        if sq <= n {
            lo = mid;
        } else {
            hi = mid;
        }
    }
    proof {
        lemma_floor_sqrt_unique(lo as int, n as int);
    }
    lo
}

/// The integer square root, rounded up.
pub fn isqrt_ceil(n: u128) -> (r: u64)
    requires
        n < 0x100_0000_0000_0000_0000_0000_0000_0000,
    ensures
        is_ceil_sqrt(r as int, n as int),
        r == ceil_sqrt(n as int),
{
    let f = isqrt_floor(n);
    if (f as u128) * (f as u128) == n {
        assert(f == 0 || ((f as int) - 1) * ((f as int) - 1) < n) by (nonlinear_arith)
            requires
                (f as int) * (f as int) == n,
        ;
        proof {
            lemma_ceil_sqrt_unique(f as int, n as int);
        }
        f
    } else {
        assert(f < 0x1000_0000_0000_0000) by (nonlinear_arith)
            requires
                (f as int) * (f as int) <= n,
                n < 0x100_0000_0000_0000_0000_0000_0000_0000,
        ;
        proof {
            lemma_ceil_sqrt_unique(f + 1, n as int);
        }
        f + 1
    }
}

} // verus!
