//! A fixed-point decaying exponential. `exp_neg(x)` stands for `exp(-x)`
//! where `x` counts micro-units: it is computed from a cubic Taylor
//! polynomial on a reduced argument followed by seven squarings, floors at
//! one micro-unit for large arguments, and takes a reciprocal for negative
//! ones. The result is pinned exactly by `spec_exp_neg`; the lemmas below
//! give its range and that it never increases in `x`.

use vstd::arithmetic::div_mod::{
    lemma_div_is_ordered, lemma_div_is_ordered_by_denominator, lemma_div_pos_is_pos,
    lemma_fundamental_div_mod, lemma_mod_bound,
};
use vstd::prelude::*;

verus! {

/// Arguments at or above this saturate: `exp_neg` returns its floor value.
pub const EXP_ARG_LIMIT: i64 = 8_000_000;

/// The numerator of the Taylor correction term.
pub open spec fn spec_taylor_num(r: int) -> int {
    r * r * (12_000_000_000_000 - 4_000_000 * r + r * r)
}

/// The cubic Taylor polynomial for `exp(-r)` on a small argument `r`, as a
/// single fixed-point division.
pub open spec fn spec_taylor(r: int) -> int {
    1_000_000 - r + spec_taylor_num(r) / 24_000_000_000_000_000_000
}

/// One squaring step in fixed point, rounded to nearest and floored at one.
pub open spec fn spec_sq_step(y: int) -> int {
    let q = (y * y + 500_000) / 1_000_000;
    if q < 1 {
        1
    } else {
        q
    }
}

/// `k` squaring steps.
pub open spec fn spec_sq_iter(y: int, k: nat) -> int
    decreases k,
{
    if k == 0 {
        y
    } else {
        spec_sq_step(spec_sq_iter(y, (k - 1) as nat))
    }
}

/// `exp(-x)` for `0 <= x < EXP_ARG_LIMIT`: reduce the argument by 128,
/// evaluate the polynomial, and square seven times.
pub open spec fn spec_exp_neg_unit(x: int) -> int {
    spec_sq_iter(spec_taylor((x + 64) / 128), 7)
}

/// `exp(-x)` over every fixed-point argument: saturates to one micro-unit
/// for large `x`, and to the reciprocal cap for very negative `x`.
pub open spec fn spec_exp_neg(x: int) -> int {
    if x >= EXP_ARG_LIMIT {
        1
    } else if x >= 0 {
        spec_exp_neg_unit(x)
    } else if x <= -EXP_ARG_LIMIT {
        1_000_000_000_000
    } else {
        1_000_000_000_000int / spec_exp_neg_unit(-x)
    }
}

/// A nonnegative value below `(k + 1) * d` divides to at most `k`.
proof fn lemma_div_le(x: int, k: int, d: int)
    requires
        0 <= x,
        0 < d,
        0 <= k,
        x < (k + 1) * d,
    ensures
        x / d <= k,
{
    lemma_fundamental_div_mod(x, d);
    lemma_mod_bound(x, d);
    if x / d > k {
        assert(d * (x / d) >= (k + 1) * d) by (nonlinear_arith)
            requires
                x / d >= k + 1,
                d > 0,
        ;
    }
}

/// A value of at least `k * d` divides to at least `k`.
proof fn lemma_div_ge(x: int, k: int, d: int)
    requires
        0 < d,
        0 <= k * d <= x,
    ensures
        x / d >= k,
{
    lemma_fundamental_div_mod(x, d);
    lemma_mod_bound(x, d);
    if x / d < k {
        assert(d * (x / d) + d <= k * d) by (nonlinear_arith)
            requires
                x / d <= k - 1,
                d > 0,
        ;
    }
}

/// The Taylor correction is small: zero at zero, and below `r` afterwards.
proof fn lemma_taylor_range(r: int)
    requires
        0 <= r <= 62_500,
    ensures
        spec_taylor(0) == 1_000_000,
        r >= 1 ==> 937_500 <= spec_taylor(r) <= 999_999,
        0 <= spec_taylor_num(r) / 24_000_000_000_000_000_000,
        r >= 1 ==> spec_taylor_num(r) / 24_000_000_000_000_000_000 <= r - 1,
{
    let d = 24_000_000_000_000_000_000;
    let n = spec_taylor_num(r);
    assert(spec_taylor_num(0) == 0) by (nonlinear_arith);
    assert(spec_taylor_num(0) / d == 0);
    assert(n >= 0) by (nonlinear_arith)
        requires
            n == spec_taylor_num(r),
            0 <= r <= 62_500,
    ;
    lemma_div_pos_is_pos(n, d);
    if r == 1 {
        assert(n == 11_999_996_000_001) by (nonlinear_arith)
            requires
                n == spec_taylor_num(r),
                r == 1,
        ;
        lemma_div_le(n, 0, d);
    } else if r >= 2 {
        // n <= r * 8.125e17 < (r - 1) * 1.2e19 <= r/2 rounded ... <= (r - 1 + 1) * d
        assert(n <= r * 825_000_000_000_000_000) by (nonlinear_arith)
            requires
                n == spec_taylor_num(r),
                0 <= r <= 62_500,
        ;
        assert(r * 825_000_000_000_000_000 < r * d) by (nonlinear_arith)
            requires
                r >= 2,
                d == 24_000_000_000_000_000_000,
        ;
        lemma_div_le(n, r - 1, d);
    }
}

/// Raising the argument by one lowers the polynomial or keeps it, never
/// raises it.
proof fn lemma_taylor_step(r: int)
    requires
        0 <= r < 62_500,
    ensures
        spec_taylor(r + 1) <= spec_taylor(r),
{
    let d = 24_000_000_000_000_000_000;
    let n0 = spec_taylor_num(r);
    let n1 = spec_taylor_num(r + 1);
    assert(n1 - n0 == 12_000_000_000_000 * (2 * r + 1) - 4_000_000 * (3 * r * r + 3 * r + 1) + (4
        * r * r * r + 6 * r * r + 4 * r + 1)) by (nonlinear_arith)
        requires
            n0 == spec_taylor_num(r),
            n1 == spec_taylor_num(r + 1),
    ;
    assert(0 <= n1 - n0 < d) by (nonlinear_arith)
        requires
            n1 - n0 == 12_000_000_000_000 * (2 * r + 1) - 4_000_000 * (3 * r * r + 3 * r + 1) + (4
                * r * r * r + 6 * r * r + 4 * r + 1),
            0 <= r < 62_500,
            d == 24_000_000_000_000_000_000,
    ;
    assert(n0 >= 0) by (nonlinear_arith)
        requires
            n0 == spec_taylor_num(r),
            0 <= r,
    ;
    // the quotient can rise by at most one while the leading -r falls by one
    lemma_fundamental_div_mod(n0, d);
    lemma_fundamental_div_mod(n1, d);
    lemma_mod_bound(n0, d);
    lemma_mod_bound(n1, d);
    let q0 = n0 / d;
    let q1 = n1 / d;
    lemma_div_pos_is_pos(n0, d);
    lemma_div_pos_is_pos(n1, d);
    if q1 > q0 + 1 {
        assert(d * q1 >= d * q0 + 2 * d) by (nonlinear_arith)
            requires
                q1 >= q0 + 2,
                d > 0,
        ;
    }
}

/// The polynomial never rises between any two arguments in its domain.
proof fn lemma_taylor_antitone(r1: int, r2: int)
    requires
        0 <= r1 <= r2 <= 62_500,
    ensures
        spec_taylor(r1) >= spec_taylor(r2),
    decreases r2 - r1,
{
    if r1 < r2 {
        lemma_taylor_step(r2 - 1);
        lemma_taylor_antitone(r1, r2 - 1);
    }
}

/// One squaring step stays within `[1, 1_000_000]`, keeps the top fixed and
/// keeps everything below the top below it.
proof fn lemma_sq_step_range(y: int)
    requires
        1 <= y <= 1_000_000,
    ensures
        1 <= spec_sq_step(y) <= 1_000_000,
        y == 1_000_000 ==> spec_sq_step(y) == 1_000_000,
        y <= 999_999 ==> spec_sq_step(y) <= 999_999,
{
    let s = 1_000_000;
    assert(y * y + 500_000 >= 0) by (nonlinear_arith)
        requires
            y >= 1,
    ;
    if y == s {
        assert(y * y + 500_000 == 1_000_000int * s + 500_000) by (nonlinear_arith)
            requires
                y == s,
                s == 1_000_000,
        ;
        lemma_div_ge(y * y + 500_000, 1_000_000, s);
        lemma_div_le(y * y + 500_000, 1_000_000, s);
    } else {
        assert(y * y + 500_000 < 1_000_000 * s) by (nonlinear_arith)
            requires
                1 <= y <= 999_999,
                s == 1_000_000,
        ;
        lemma_div_le(y * y + 500_000, 999_999, s);
    }
}

/// Squaring steps are monotone in the argument.
proof fn lemma_sq_step_monotone(y1: int, y2: int)
    requires
        0 <= y1 <= y2,
    ensures
        spec_sq_step(y1) <= spec_sq_step(y2),
{
    assert(y1 * y1 <= y2 * y2) by (nonlinear_arith)
        requires
            0 <= y1 <= y2,
    ;
    lemma_div_is_ordered(y1 * y1 + 500_000, y2 * y2 + 500_000, 1_000_000);
}

/// Iterated squaring keeps the range, the top, and the strict gap below the
/// top.
proof fn lemma_sq_iter_range(y: int, k: nat)
    requires
        1 <= y <= 1_000_000,
    ensures
        1 <= spec_sq_iter(y, k) <= 1_000_000,
        y == 1_000_000 ==> spec_sq_iter(y, k) == 1_000_000,
        y <= 999_999 ==> spec_sq_iter(y, k) <= 999_999,
    decreases k,
{
    if k > 0 {
        lemma_sq_iter_range(y, (k - 1) as nat);
        lemma_sq_step_range(spec_sq_iter(y, (k - 1) as nat));
    }
}

/// Iterated squaring is monotone in the argument.
proof fn lemma_sq_iter_monotone(y1: int, y2: int, k: nat)
    requires
        1 <= y1 <= y2 <= 1_000_000,
    ensures
        spec_sq_iter(y1, k) <= spec_sq_iter(y2, k),
    decreases k,
{
    if k > 0 {
        lemma_sq_iter_monotone(y1, y2, (k - 1) as nat);
        lemma_sq_iter_range(y1, (k - 1) as nat);
        lemma_sq_iter_range(y2, (k - 1) as nat);
        lemma_sq_step_monotone(spec_sq_iter(y1, (k - 1) as nat), spec_sq_iter(y2, (k - 1) as nat));
    }
}

/// Range of the unit branch: within `[1, 1_000_000]`, exactly the top for
/// tiny arguments and strictly below it from 64 micro-units on.
proof fn lemma_exp_neg_unit_range(x: int)
    requires
        0 <= x < 8_000_000,
    ensures
        1 <= spec_exp_neg_unit(x) <= 1_000_000,
        x < 64 ==> spec_exp_neg_unit(x) == 1_000_000,
        x >= 64 ==> spec_exp_neg_unit(x) <= 999_999,
{
    let r = (x + 64) / 128;
    lemma_div_pos_is_pos(x + 64, 128);
    lemma_div_le(x + 64, 62_500, 128);
    lemma_taylor_range(r);
    if x < 64 {
        lemma_div_le(x + 64, 0, 128);
        assert(r == 0);
        assert(spec_taylor(0) == 1_000_000);
        lemma_sq_iter_range(1_000_000, 7);
    } else {
        lemma_div_ge(x + 64, 1, 128);
        assert(r >= 1);
        lemma_sq_iter_range(spec_taylor(r), 7);
    }
}

/// The unit branch never rises in the argument.
proof fn lemma_exp_neg_unit_antitone(x1: int, x2: int)
    requires
        0 <= x1 <= x2 < 8_000_000,
    ensures
        spec_exp_neg_unit(x1) >= spec_exp_neg_unit(x2),
{
    let r1 = (x1 + 64) / 128;
    let r2 = (x2 + 64) / 128;
    lemma_div_is_ordered(x1 + 64, x2 + 64, 128);
    lemma_div_pos_is_pos(x1 + 64, 128);
    lemma_div_le(x1 + 64, 62_500, 128);
    lemma_div_le(x2 + 64, 62_500, 128);
    lemma_taylor_antitone(r1, r2);
    lemma_taylor_range(r1);
    lemma_taylor_range(r2);
    lemma_sq_iter_monotone(spec_taylor(r2), spec_taylor(r1), 7);
}

/// The range of `exp_neg`: always within `[1, 1_000_000_000_000]`; at most
/// one unit for a non-negative argument; exactly one unit at zero; strictly
/// below one unit from 64 micro-units on.
pub proof fn lemma_exp_neg_range(x: int)
    ensures
        1 <= spec_exp_neg(x) <= 1_000_000_000_000,
        x >= 0 ==> spec_exp_neg(x) <= 1_000_000,
        0 <= x < 64 ==> spec_exp_neg(x) == 1_000_000,
        x >= 64 ==> spec_exp_neg(x) <= 999_999,
{
    if x >= 8_000_000 {
    } else if x >= 0 {
        lemma_exp_neg_unit_range(x);
    } else if x <= -8_000_000 {
    } else {
        let u = spec_exp_neg_unit(-x);
        lemma_exp_neg_unit_range(-x);
        lemma_div_is_ordered_by_denominator(1_000_000_000_000, 1, u);
        lemma_div_pos_is_pos(1_000_000_000_000, u);
        lemma_div_ge(1_000_000_000_000, 1, u);
    }
}

/// `exp_neg` never increases: a larger argument gives a result that is no
/// larger.
pub proof fn lemma_exp_neg_antitone(x1: int, x2: int)
    requires
        x1 <= x2,
    ensures
        spec_exp_neg(x1) >= spec_exp_neg(x2),
{
    lemma_exp_neg_range(x1);
    lemma_exp_neg_range(x2);
    if x1 >= 0 {
        if x2 >= 8_000_000 {
        } else if x1 >= 8_000_000 {
        } else {
            lemma_exp_neg_unit_antitone(x1, x2);
        }
    } else if x2 >= 0 {
        // x1 negative: its value is at least the cap of the non-negative side
        if x1 <= -8_000_000 {
        } else {
            let u = spec_exp_neg_unit(-x1);
            lemma_exp_neg_unit_range(-x1);
            lemma_div_is_ordered_by_denominator(1_000_000_000_000, u, 1_000_000);
            lemma_div_ge(1_000_000_000_000, 1_000_000, 1_000_000);
        }
    } else {
        // both negative
        if x1 <= -8_000_000 && x2 <= -8_000_000 {
        } else if x1 <= -8_000_000 {
            let u2 = spec_exp_neg_unit(-x2);
            lemma_exp_neg_unit_range(-x2);
            lemma_div_le(1_000_000_000_000, 1_000_000_000_000, u2);
        } else {
            let u1 = spec_exp_neg_unit(-x1);
            let u2 = spec_exp_neg_unit(-x2);
            lemma_exp_neg_unit_range(-x1);
            lemma_exp_neg_unit_range(-x2);
            lemma_exp_neg_unit_antitone(-x2, -x1);
            lemma_div_is_ordered_by_denominator(1_000_000_000_000, u1, u2);
        }
    }
}

/// One squaring step, executable.
fn sq_step(y: i64) -> (r: i64)
    requires
        0 <= y <= 1_000_000,
    ensures
        r as int == spec_sq_step(y as int),
{
    proof {
        assert(0 <= (y as int) * (y as int) <= 1_000_000_000_000) by (nonlinear_arith)
            requires
                0 <= y <= 1_000_000,
        ;
        lemma_div_le((y as int) * (y as int) + 500_000, 1_000_000, 1_000_000);
        lemma_div_pos_is_pos((y as int) * (y as int) + 500_000, 1_000_000);
    }
    let q = ((y as u64) * (y as u64) + 500_000) / 1_000_000;
    let qi = q as i64;
    if qi < 1 {
        1
    } else {
        qi
    }
}

/// The Taylor polynomial, executable.
fn taylor(r: i64) -> (t: i64)
    requires
        0 <= r <= 62_500,
    ensures
        t as int == spec_taylor(r as int),
{
    proof {
        lemma_taylor_range(r as int);
    }
    let r1 = r as u128;
    proof {
        assert((r1 as int) * (r1 as int) <= 3_906_250_000 && 4_000_000 * (r1 as int)
            <= 250_000_000_000 && (r1 as int) * (r1 as int) * (12_000_000_000_000 - 4_000_000 * (
        r1 as int) + (r1 as int) * (r1 as int)) <= 3_906_250_000 * 12_003_906_250_000)
            by (nonlinear_arith)
            requires
                0 <= r1 as int <= 62_500,
        ;
    }
    let num: u128 = r1 * r1 * (12_000_000_000_000 - 4_000_000 * r1 + r1 * r1);
    let q: u128 = num / 24_000_000_000_000_000_000;
    proof {
        assert(num as int == spec_taylor_num(r as int)) by (nonlinear_arith)
            requires
                r1 == r as int,
                0 <= r1 <= 62_500,
                num == r1 * r1 * (12_000_000_000_000 - 4_000_000 * r1 + r1 * r1),
        ;
    }
    1_000_000 - r + (q as i64)
}

/// The decaying exponential, executable: exactly `spec_exp_neg`.
pub fn exp_neg(x: i64) -> (r: i64)
    ensures
        r as int == spec_exp_neg(x as int),
        1 <= r <= 1_000_000_000_000,
{
    proof {
        lemma_exp_neg_range(x as int);
    }
    if x >= EXP_ARG_LIMIT {
        return 1;
    }
    if x <= -EXP_ARG_LIMIT {
        return 1_000_000_000_000;
    }
    if x >= 0 {
        exp_neg_unit(x)
    } else {
        let u = exp_neg_unit(-x);
        proof {
            lemma_exp_neg_unit_range(-x as int);
        }
        (1_000_000_000_000u64 / (u as u64)) as i64
    }
}

/// The unit branch, executable: the reduced polynomial squared seven times.
fn exp_neg_unit(x: i64) -> (r: i64)
    requires
        0 <= x < 8_000_000,
    ensures
        r as int == spec_exp_neg_unit(x as int),
        1 <= r <= 1_000_000,
{
    proof {
        lemma_exp_neg_unit_range(x as int);
        lemma_div_pos_is_pos(x as int + 64, 128);
        lemma_div_le(x as int + 64, 62_500, 128);
        lemma_taylor_range((x as int + 64) / 128);
    }
    let red = (x + 64) / 128;
    let mut y = taylor(red);
    let mut k: usize = 0;
    while k < 7
        invariant
            k <= 7,
            1 <= spec_taylor((x as int + 64) / 128) <= 1_000_000,
            y as int == spec_sq_iter(spec_taylor((x as int + 64) / 128), k as nat),
            1 <= y <= 1_000_000,
        decreases 7 - k,
    {
        proof {
            lemma_sq_iter_range(spec_taylor((x as int + 64) / 128), k as nat);
            lemma_sq_step_range(y as int);
        }
        y = sq_step(y);
        k = k + 1;
    }
    y
}

} // verus!
