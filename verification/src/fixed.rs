//! Fixed-point scalar math: angles in milli-degrees, lengths in
//! milli-units, together with the integer square root and the floored
//! division that the geometry code builds on.

use vstd::prelude::*;

verus! {

/// Sub-units per world unit (and per second, for durations).
pub const FX_ONE: i64 = 1000;

/// A full turn, in milli-degrees.
pub const TURN: i64 = 360_000;

/// Half a turn (the normalization bound), in milli-degrees.
pub const HALF_TURN: i64 = 180_000;

/// A quarter turn, in milli-degrees.
pub const QUARTER_TURN: i64 = 90_000;

/// The representative of `a` modulo a full turn that lies in the
/// half-open range (-HALF_TURN, HALF_TURN].
pub open spec fn norm_angle(a: int) -> int {
    let m = a % (360_000 as int);
    if m > 180_000 {
        m - 360_000
    } else {
        m
    }
}

pub proof fn lemma_norm_angle_range(a: int)
    ensures
        -180_000 < norm_angle(a) <= 180_000,
{
    vstd::arithmetic::div_mod::lemma_mod_division_less_than_divisor(a, 360_000);
}

/// Normalize an angle to the range (-HALF_TURN, HALF_TURN].
pub fn normalize_angle(a: i64) -> (r: i64)
    ensures
        r as int == norm_angle(a as int),
        -HALF_TURN < r <= HALF_TURN,
{
    let m = a % TURN;
    let m2 = if m < 0 {
        m + TURN
    } else {
        m
    };
    if m2 > HALF_TURN {
        m2 - TURN
    } else {
        m2
    }
}

/// Floored quotient of `a` by a positive `b` (rounds toward negative
/// infinity, matching mathematical division).
pub fn div_floor(a: i64, b: i64) -> (q: i64)
    requires
        1 <= b,
        i64::MIN < a,
    ensures
        q as int == a as int / b as int,
{
    let q = a / b;
    let r = a % b;
    proof {
        let ai = a as int;
        let bi = b as int;
        let qi = q as int;
        let ri = r as int;
        if a < 0 {
            vstd::arithmetic::div_mod::lemma_fundamental_div_mod(ai, bi);
            vstd::arithmetic::div_mod::lemma_mod_division_less_than_divisor(ai, bi);
            vstd::arithmetic::div_mod::lemma_fundamental_div_mod(-ai, bi);
            vstd::arithmetic::div_mod::lemma_mod_division_less_than_divisor(-ai, bi);
            assert(qi == -((-ai) / bi));
            assert(ri == -((-ai) % bi));
            let qe = ai / bi;
            let re = ai % bi;
            if r < 0 {
                assert(qe == qi - 1) by (nonlinear_arith)
                    requires
                        -ai == bi * (-qi) + (-ri),
                        ai == bi * qe + re,
                        0 <= re < bi,
                        -bi < ri < 0,
                ;
            } else {
                assert(qe == qi) by (nonlinear_arith)
                    requires
                        -ai == bi * (-qi) + (-ri),
                        ai == bi * qe + re,
                        0 <= re < bi,
                        ri == 0,
                ;
            }
        } else {
            vstd::arithmetic::div_mod::lemma_mod_division_less_than_divisor(ai, bi);
        }
    }
    if r < 0 {
        q - 1
    } else {
        q
    }
}

/// Exact characterization of the integer square root.
pub open spec fn is_sqrt_floor(n: int, r: int) -> bool {
    0 <= r && r * r <= n && n < (r + 1) * (r + 1)
}

/// The integer square root of a non-negative `n` (the unique `r` with
/// `r * r <= n < (r + 1) * (r + 1)`).
pub open spec fn sqrt_floor(n: int) -> int {
    choose|r: int| is_sqrt_floor(n, r)
}

pub proof fn lemma_sqrt_floor_unique(n: int, r: int)
    requires
        is_sqrt_floor(n, r),
    ensures
        sqrt_floor(n) == r,
{
    assert(is_sqrt_floor(n, r));
    let c = choose|x: int| is_sqrt_floor(n, x);
    assert(is_sqrt_floor(n, c));
    assert(c == r) by (nonlinear_arith)
        requires
            is_sqrt_floor(n, c),
            is_sqrt_floor(n, r),
    ;
}

/// Integer square root by bisection.
pub fn isqrt(n: i64) -> (r: i64)
    requires
        0 <= n,
    ensures
        is_sqrt_floor(n as int, r as int),
        r as int == sqrt_floor(n as int),
        0 <= r <= 3_037_000_499,
{
    let mut lo: i64 = 0;
    let mut hi: i64 = 3_037_000_500;
    assert((3_037_000_500 as int) * (3_037_000_500 as int) > (9_223_372_036_854_775_807 as int))
        by (nonlinear_arith);
    while lo + 1 < hi
        invariant
            0 <= lo < hi <= 3_037_000_500,
            (lo as int) * (lo as int) <= n as int,
            (n as int) < (hi as int) * (hi as int),
            0 <= n,
        decreases hi - lo,
    {
        let mid = lo + (hi - lo) / 2;
        assert(lo < mid < hi);
        assert((mid as int) * (mid as int) < (9_223_372_036_854_775_807 as int))
            by (nonlinear_arith)
            requires
                0 < mid <= 3_037_000_499,
        ;
        if mid * mid <= n {
            lo = mid;
        } else {
            hi = mid;
        }
    }
    proof {
        lemma_sqrt_floor_unique(n as int, lo as int);
    }
    lo
}

/// Bhaskara's rational sine approximation on [0, HALF_TURN],
/// scaled to per-mille: exact at 0, 30, 90, 150 and 180 degrees.
pub open spec fn sin_half_turn(x: int) -> int {
    let t = x * (180_000 - x);
    4000 * t / (40_500_000_000 - t)
}

/// Sine of an angle in milli-degrees, scaled to per-mille.
pub open spec fn sin_fp(a: int) -> int {
    let n = norm_angle(a);
    if n >= 0 {
        sin_half_turn(n)
    } else {
        -sin_half_turn(-n)
    }
}

/// Cosine of an angle in milli-degrees, scaled to per-mille.
pub open spec fn cos_fp(a: int) -> int {
    sin_fp(a + 90_000)
}

pub proof fn lemma_sin_half_turn_bounds(x: int)
    requires
        0 <= x <= 180_000,
    ensures
        0 <= sin_half_turn(x) <= 1000,
{
    let t = x * (180_000 - x);
    assert(0 <= x * (180_000 - x) <= 8_100_000_000) by (nonlinear_arith)
        requires
            0 <= x <= 180_000,
    ;
    assert(4000 * t <= 1000 * (40_500_000_000 - t));
    vstd::arithmetic::div_mod::lemma_div_is_ordered(
        4000 * t,
        1000 * (40_500_000_000 - t),
        40_500_000_000 - t,
    );
    vstd::arithmetic::div_mod::lemma_div_multiples_vanish(1000, 40_500_000_000 - t);
    vstd::arithmetic::div_mod::lemma_div_pos_is_pos(4000 * t, 40_500_000_000 - t);
}

pub proof fn lemma_sin_fp_bounds(a: int)
    ensures
        -1000 <= sin_fp(a) <= 1000,
{
    lemma_norm_angle_range(a);
    let n = norm_angle(a);
    if n >= 0 {
        lemma_sin_half_turn_bounds(n);
    } else {
        lemma_sin_half_turn_bounds(-n);
    }
}


/// Sine of an angle in milli-degrees, in per-mille of one.
pub fn sin_approx(a: i64) -> (r: i64)
    ensures
        r as int == sin_fp(a as int),
        -1000 <= r <= 1000,
{
    let n = normalize_angle(a);
    let neg = n < 0;
    let x = if neg {
        -n
    } else {
        n
    };
    assert(0 <= x <= 180_000);
    assert(0 <= (x as int) * (180_000 - x as int) <= 8_100_000_000) by (nonlinear_arith)
        requires
            0 <= x as int <= 180_000,
    ;
    let t = x * (180_000 - x);
    let num = 4000 * t;
    let den = 40_500_000_000 - t;
    let s = num / den;
    proof {
        lemma_sin_half_turn_bounds(x as int);
    }
    if neg {
        -s
    } else {
        s
    }
}

/// Cosine of an angle in milli-degrees, in per-mille of one.
pub fn cos_approx(a: i64) -> (r: i64)
    requires
        -4_000_000_000 <= a <= 4_000_000_000,
    ensures
        r as int == cos_fp(a as int),
        -1000 <= r <= 1000,
{
    sin_approx(a + 90_000)
}

/// Piecewise-linear octant approximation of the angle of the vector
/// (dx, dy), in milli-degrees in (-HALF_TURN, HALF_TURN]; exact on the
/// axes and the diagonals, within about four degrees elsewhere.
pub open spec fn atan2_fp(dy: int, dx: int) -> int {
    let ax = if dx < 0 {
        -dx
    } else {
        dx
    };
    let ay = if dy < 0 {
        -dy
    } else {
        dy
    };
    if ax == 0 && ay == 0 {
        0
    } else {
        let raw = if ax >= ay {
            45_000 * ay / ax
        } else {
            90_000 - 45_000 * ax / ay
        };
        let q = if dx >= 0 && dy >= 0 {
            raw
        } else if dx < 0 && dy >= 0 {
            180_000 - raw
        } else if dx < 0 {
            -(180_000 - raw)
        } else {
            -raw
        };
        if q <= -180_000 {
            q + 360_000
        } else {
            q
        }
    }
}

/// Angle of the vector (dx, dy), in milli-degrees.
pub fn atan2_approx(dy: i64, dx: i64) -> (r: i64)
    requires
        -2_000_000_000 <= dx <= 2_000_000_000,
        -2_000_000_000 <= dy <= 2_000_000_000,
    ensures
        r as int == atan2_fp(dy as int, dx as int),
        -HALF_TURN < r <= HALF_TURN,
{
    let ax = if dx < 0 {
        -dx
    } else {
        dx
    };
    let ay = if dy < 0 {
        -dy
    } else {
        dy
    };
    if ax == 0 && ay == 0 {
        return 0;
    }
    let raw = if ax >= ay {
        proof {
            assert(45_000 * ay <= 45_000 * ax) by (nonlinear_arith)
                requires
                    0 <= ay <= ax,
            ;
            vstd::arithmetic::div_mod::lemma_div_is_ordered(45_000 * ay, 45_000 * ax, ax as int);
            vstd::arithmetic::div_mod::lemma_div_multiples_vanish(45_000, ax as int);
            vstd::arithmetic::div_mod::lemma_div_pos_is_pos(45_000 * ay, ax as int);
        }
        (45_000 * ay) / ax
    } else {
        proof {
            assert(45_000 * ax <= 45_000 * ay) by (nonlinear_arith)
                requires
                    0 <= ax <= ay,
            ;
            vstd::arithmetic::div_mod::lemma_div_is_ordered(45_000 * ax, 45_000 * ay, ay as int);
            vstd::arithmetic::div_mod::lemma_div_multiples_vanish(45_000, ay as int);
            vstd::arithmetic::div_mod::lemma_div_pos_is_pos(45_000 * ax, ay as int);
        }
        90_000 - (45_000 * ax) / ay
    };
    assert(0 <= raw <= 90_000);
    let q = if dx >= 0 && dy >= 0 {
        raw
    } else if dx < 0 && dy >= 0 {
        180_000 - raw
    } else if dx < 0 {
        -(180_000 - raw)
    } else {
        -raw
    };
    if q <= -180_000 {
        q + 360_000
    } else {
        q
    }
}

/// A quotient is bounded by any multiple bound on its dividend.
pub proof fn lemma_div_bounds(a: int, b: int, m: int)
    requires
        1 <= b,
        0 <= m,
        -(m * b) <= a <= m * b,
    ensures
        -m <= a / b <= m,
{
    vstd::arithmetic::div_mod::lemma_fundamental_div_mod(a, b);
    vstd::arithmetic::div_mod::lemma_mod_division_less_than_divisor(a, b);
    let q = a / b;
    let r = a % b;
    assert(-m <= q <= m) by (nonlinear_arith)
        requires
            a == b * q + r,
            0 <= r < b,
            -(m * b) <= a <= m * b,
            1 <= b,
            0 <= m,
    ;
}

} // verus!
