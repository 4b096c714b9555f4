//! Similarity kernels over equal-length fixed-point vectors. The one built-in
//! variant is the radial basis function `exp(-gamma * sq_dist(x, y))`,
//! computed with the fixed-point exponential of `exponential`.

use vstd::arithmetic::div_mod::{
    lemma_div_is_ordered, lemma_div_pos_is_pos, lemma_fundamental_div_mod, lemma_mod_bound,
};
use vstd::prelude::*;

use crate::exponential::{exp_neg, lemma_exp_neg_antitone, lemma_exp_neg_range, spec_exp_neg};
use crate::math::{comps_ok, coords_ok, MathError};
use crate::{COORD_LIMIT, DIM_LIMIT, SCALE};

verus! {

/// A similarity function over two equal-length vectors; one variant per
/// kernel family.
#[derive(Debug, Clone, PartialEq, Eq, Structural)]
pub enum Kernel {
    /// The radial basis function with fixed-point bandwidth `gamma`.
    RBF { gamma: i64 },
}

/// The squared distance between two equal-length vectors, in squared
/// micro-units.
pub open spec fn spec_sq_dist(x: Seq<i64>, y: Seq<i64>) -> int
    decreases x.len(),
{
    if x.len() == 0 || y.len() == 0 {
        0
    } else {
        spec_sq_dist(x.drop_last(), y.drop_last()) + (x.last() - y.last()) * (x.last() - y.last())
    }
}

/// Clamp an exponent argument into the range the exponential resolves.
pub open spec fn spec_clamp_arg(v: int) -> int {
    if v >= 8_000_000 {
        8_000_000
    } else if v <= -8_000_000 {
        -8_000_000
    } else {
        v
    }
}

/// The exponent fed to the exponential: `gamma * sq_dist`, brought back to
/// micro-units and clamped.
pub open spec fn spec_rbf_arg(gamma: i64, d: int) -> int {
    if gamma >= 0 {
        spec_clamp_arg((gamma * d) / 1_000_000_000_000)
    } else {
        spec_clamp_arg(-(((-gamma) * d) / 1_000_000_000_000))
    }
}

/// The RBF similarity of two vectors at a given squared distance.
pub open spec fn spec_rbf(gamma: i64, x: Seq<i64>, y: Seq<i64>) -> int {
    spec_exp_neg(spec_rbf_arg(gamma, spec_sq_dist(x, y)))
}

/// What a kernel returns on equal-length vectors.
pub open spec fn spec_kernel_apply(k: Kernel, x: Seq<i64>, y: Seq<i64>) -> int {
    match k {
        Kernel::RBF { gamma } => spec_rbf(gamma, x, y),
    }
}

pub proof fn lemma_sq_dist_nonneg(x: Seq<i64>, y: Seq<i64>)
    ensures
        spec_sq_dist(x, y) >= 0,
    decreases x.len(),
{
    if x.len() > 0 && y.len() > 0 {
        lemma_sq_dist_nonneg(x.drop_last(), y.drop_last());
        assert((x.last() - y.last()) * (x.last() - y.last()) >= 0) by (nonlinear_arith);
    }
}

pub proof fn lemma_sq_dist_self(x: Seq<i64>, y: Seq<i64>)
    requires
        x == y,
    ensures
        spec_sq_dist(x, y) == 0,
    decreases x.len(),
{
    if x.len() > 0 {
        lemma_sq_dist_self(x.drop_last(), y.drop_last());
    }
}

proof fn lemma_sq_dist_take(x: Seq<i64>, y: Seq<i64>, i: int)
    requires
        x.len() == y.len(),
        0 <= i < x.len(),
    ensures
        spec_sq_dist(x.take(i + 1), y.take(i + 1)) == spec_sq_dist(x.take(i), y.take(i)) + (x[i]
            - y[i]) * (x[i] - y[i]),
{
    assert(x.take(i + 1).drop_last() =~= x.take(i));
    assert(y.take(i + 1).drop_last() =~= y.take(i));
}

proof fn lemma_sq_dist_bound(x: Seq<i64>, y: Seq<i64>)
    requires
        comps_ok(x),
        comps_ok(y),
        x.len() == y.len(),
    ensures
        spec_sq_dist(x, y) <= x.len() * (4 * (COORD_LIMIT as int * COORD_LIMIT as int)),
    decreases x.len(),
{
    let k = 4 * (COORD_LIMIT as int * COORD_LIMIT as int);
    if x.len() > 0 {
        lemma_sq_dist_bound(x.drop_last(), y.drop_last());
        assert((x.last() - y.last()) * (x.last() - y.last()) <= k) by (nonlinear_arith)
            requires
                -COORD_LIMIT <= x.last() <= COORD_LIMIT,
                -COORD_LIMIT <= y.last() <= COORD_LIMIT,
                k == 4 * (COORD_LIMIT as int * COORD_LIMIT as int),
        ;
        assert((x.len() - 1) * k + k == x.len() * k) by (nonlinear_arith);
    }
}

/// The squared distance of two equal-length vectors, exactly.
fn sq_dist(x: &[i64], y: &[i64]) -> (r: i128)
    requires
        comps_ok(x@),
        comps_ok(y@),
        x@.len() == y@.len(),
        x@.len() <= DIM_LIMIT,
    ensures
        r as int == spec_sq_dist(x@, y@),
        0 <= r as int <= x@.len() * (4 * (COORD_LIMIT as int * COORD_LIMIT as int)),
{
    let ghost k = 4 * (COORD_LIMIT as int * COORD_LIMIT as int);
    let mut acc: i128 = 0;
    let mut i: usize = 0;
    proof {
        assert(x@.take(0) =~= Seq::<i64>::empty());
        assert(y@.take(0) =~= Seq::<i64>::empty());
    }
    while i < x.len()
        invariant
            comps_ok(x@),
            comps_ok(y@),
            x@.len() == y@.len(),
            x@.len() <= DIM_LIMIT,
            i <= x@.len(),
            acc as int == spec_sq_dist(x@.take(i as int), y@.take(i as int)),
            0 <= acc as int <= i as int * k,
            k == 4 * (COORD_LIMIT as int * COORD_LIMIT as int),
        decreases x@.len() - i,
    {
        proof {
            lemma_sq_dist_take(x@, y@, i as int);
            assert(0 <= (x@[i as int] - y@[i as int]) * (x@[i as int] - y@[i as int]) <= k)
                by (nonlinear_arith)
                requires
                    -COORD_LIMIT <= x@[i as int] <= COORD_LIMIT,
                    -COORD_LIMIT <= y@[i as int] <= COORD_LIMIT,
                    k == 4 * (COORD_LIMIT as int * COORD_LIMIT as int),
            ;
            assert(i as int * k + k == (i as int + 1) * k) by (nonlinear_arith);
            assert((i as int + 1) * k <= DIM_LIMIT as int * k) by (nonlinear_arith)
                requires
                    0 <= i < DIM_LIMIT,
                    k > 0,
            ;
        }
        let d: i128 = (x[i] as i128) - (y[i] as i128);
        acc = acc + d * d;
        i = i + 1;
    }
    proof {
        assert(x@.take(x@.len() as int) =~= x@);
        assert(y@.take(y@.len() as int) =~= y@);
        assert(x@.len() as int * k <= DIM_LIMIT as int * k) by (nonlinear_arith)
            requires
                x@.len() <= DIM_LIMIT,
                k > 0,
        ;
    }
    acc
}

/// The exponent `gamma * d / SCALE^2`, clamped, without overflowing.
fn rbf_arg(gamma: i64, d: i128) -> (r: i64)
    requires
        0 <= d as int <= DIM_LIMIT as int * (4 * (COORD_LIMIT as int * COORD_LIMIT as int)),
    ensures
        r as int == spec_rbf_arg(gamma, d as int),
        -8_000_000 <= r <= 8_000_000,
{
    let (neg, gm) = if gamma >= 0 {
        (false, gamma as i128)
    } else {
        (true, -(gamma as i128))
    };
    let cap: i128 = 8_000_000_000_000_000_000;
    let mag: i128 = if d == 0 {
        0
    } else if gm > cap / d {
        proof {
            lemma_fundamental_div_mod(cap as int, d as int);
            lemma_mod_bound(cap as int, d as int);
            assert(gm as int * d as int > cap as int) by (nonlinear_arith)
                requires
                    gm as int >= cap as int / (d as int) + 1,
                    d as int >= 1,
                    cap as int == (d as int) * (cap as int / (d as int)) + (cap as int % (d
                        as int)),
                    0 <= cap as int % (d as int) < d as int,
            ;
            assert((gm as int * d as int) / 1_000_000_000_000 >= 8_000_000) by {
                vstd::arithmetic::div_mod::lemma_div_is_ordered(
                    cap as int + 1,
                    gm as int * d as int,
                    1_000_000_000_000,
                );
                lemma_fundamental_div_mod(cap as int + 1, 1_000_000_000_000);
                lemma_mod_bound(cap as int + 1, 1_000_000_000_000);
            };
        }
        8_000_000
    } else {
        proof {
            lemma_fundamental_div_mod(cap as int, d as int);
            lemma_mod_bound(cap as int, d as int);
            assert(0 <= gm as int * d as int <= cap as int) by (nonlinear_arith)
                requires
                    0 <= gm as int <= cap as int / (d as int),
                    d as int >= 1,
                    cap as int == (d as int) * (cap as int / (d as int)) + (cap as int % (d
                        as int)),
                    0 <= cap as int % (d as int) < d as int,
            ;
            lemma_div_is_ordered(gm as int * d as int, cap as int, 1_000_000_000_000);
            lemma_div_pos_is_pos(gm as int * d as int, 1_000_000_000_000);
        }
        let p: i128 = gm * d;
        let v: i128 = p / 1_000_000_000_000;
        if v >= 8_000_000 {
            8_000_000
        } else {
            v
        }
    };
    let m = mag as i64;
    if neg {
        -m
    } else {
        m
    }
}

/// The RBF kernel: `exp(-gamma * sq_dist(x, y))` in fixed point. Fails with
/// the true lengths when the vectors' lengths differ; otherwise the result is
/// exactly `spec_rbf` and lies in `[1, SCALE^2]`.
pub fn rbf_kernel(x: &[i64], y: &[i64], gamma: i64) -> (r: Result<i64, MathError>)
    requires
        coords_ok(x@),
        coords_ok(y@),
    ensures
        match r {
            Ok(s) => {
                &&& x@.len() == y@.len()
                &&& s as int == spec_rbf(gamma, x@, y@)
                &&& 1 <= s <= 1_000_000_000_000
            },
            Err(e) => {
                &&& x@.len() != y@.len()
                &&& e == (MathError::DimensionMismatch { left: x@.len() as usize, right: y@.len() as usize })
            },
        },
{
    if x.len() != y.len() {
        return Err(MathError::DimensionMismatch { left: x.len(), right: y.len() });
    }
    let d = sq_dist(x, y);
    proof {
        assert(x@.len() as int * (4 * (COORD_LIMIT as int * COORD_LIMIT as int)) <= DIM_LIMIT
            as int * (4 * (COORD_LIMIT as int * COORD_LIMIT as int))) by (nonlinear_arith)
            requires
                x@.len() <= DIM_LIMIT,
        ;
    }
    let arg = rbf_arg(gamma, d);
    proof {
        lemma_exp_neg_range(arg as int);
    }
    Ok(exp_neg(arg))
}

impl Kernel {
    /// Apply the kernel to two vectors; each variant dispatches to its own
    /// similarity function.
    pub fn apply(&self, x: &[i64], y: &[i64]) -> (r: Result<i64, MathError>)
        requires
            coords_ok(x@),
            coords_ok(y@),
        ensures
            match r {
                Ok(s) => {
                    &&& x@.len() == y@.len()
                    &&& s as int == spec_kernel_apply(*self, x@, y@)
                    &&& 1 <= s <= 1_000_000_000_000
                },
                Err(e) => {
                    &&& x@.len() != y@.len()
                    &&& e == (MathError::DimensionMismatch { left: x@.len() as usize, right: y@.len() as usize })
                },
            },
    {
        match self {
            Kernel::RBF { gamma } => rbf_kernel(x, y, *gamma),
        }
    }
}

/// For a positive bandwidth the similarity of equal-length vectors lies in
/// `(0, 1]` and is exactly one when the vectors are equal.
pub proof fn lemma_kernel_range(gamma: i64, x: Seq<i64>, y: Seq<i64>)
    requires
        gamma > 0,
        x.len() == y.len(),
    ensures
        0 < spec_rbf(gamma, x, y) <= SCALE,
        x == y ==> spec_rbf(gamma, x, y) == SCALE,
{
    lemma_sq_dist_nonneg(x, y);
    let d = spec_sq_dist(x, y);
    let v = (gamma * d) / 1_000_000_000_000;
    assert(gamma * d >= 0) by (nonlinear_arith)
        requires
            gamma >= 0,
            d >= 0,
    ;
    lemma_div_pos_is_pos(gamma * d, 1_000_000_000_000);
    lemma_exp_neg_range(spec_rbf_arg(gamma, d));
    if x == y {
        lemma_sq_dist_self(x, y);
        assert(gamma * 0 == 0) by (nonlinear_arith);
        lemma_exp_neg_range(0);
    }
}

/// With a non-negative bandwidth, a smaller squared distance never gives a
/// smaller similarity.
pub proof fn lemma_rbf_antitone(gamma: i64, x1: Seq<i64>, y1: Seq<i64>, x2: Seq<i64>, y2: Seq<i64>)
    requires
        gamma >= 0,
        spec_sq_dist(x1, y1) <= spec_sq_dist(x2, y2),
        spec_sq_dist(x1, y1) >= 0,
    ensures
        spec_rbf(gamma, x1, y1) >= spec_rbf(gamma, x2, y2),
{
    let d1 = spec_sq_dist(x1, y1);
    let d2 = spec_sq_dist(x2, y2);
    assert(gamma * d1 <= gamma * d2) by (nonlinear_arith)
        requires
            gamma >= 0,
            d1 <= d2,
    ;
    assert(gamma * d1 >= 0) by (nonlinear_arith)
        requires
            gamma >= 0,
            d1 >= 0,
    ;
    lemma_div_is_ordered(gamma * d1, gamma * d2, 1_000_000_000_000);
    lemma_div_pos_is_pos(gamma * d1, 1_000_000_000_000);
    lemma_exp_neg_antitone(spec_rbf_arg(gamma, d1), spec_rbf_arg(gamma, d2));
}

/// Apply a unary function to every component.
pub fn apply_kernel<F: Fn(i64) -> i64>(a: &[i64], f: F) -> (r: Vec<i64>)
    requires
        forall|i: int| 0 <= i < a@.len() ==> call_requires(f, (a@[i],)),
    ensures
        r@.len() == a@.len(),
        forall|i: int| 0 <= i < r@.len() ==> call_ensures(f, (a@[i],), #[trigger] r@[i]),
{
    let mut out: Vec<i64> = Vec::new();
    let mut i: usize = 0;
    while i < a.len()
        invariant
            forall|j: int| 0 <= j < a@.len() ==> call_requires(f, (a@[j],)),
            i <= a@.len(),
            out@.len() == i as int,
            forall|j: int| 0 <= j < i as int ==> call_ensures(f, (a@[j],), #[trigger] out@[j]),
        decreases a@.len() - i,
    {
        let v = f(a[i]);
        out.push(v);
        i = i + 1;
    }
    out
}

/// Apply a binary function componentwise to two vectors; fails with the true
/// lengths when they differ.
pub fn apply_kernel2<F: Fn(i64, i64) -> i64>(a: &[i64], b: &[i64], f: F) -> (r: Result<
    Vec<i64>,
    MathError,
>)
    requires
        forall|i: int|
            0 <= i < a@.len() && a@.len() == b@.len() ==> call_requires(f, (a@[i], b@[i])),
    ensures
        match r {
            Ok(v) => {
                &&& a@.len() == b@.len()
                &&& v@.len() == a@.len()
                &&& forall|i: int|
                    0 <= i < v@.len() ==> call_ensures(f, (a@[i], b@[i]), #[trigger] v@[i])
            },
            Err(e) => {
                &&& a@.len() != b@.len()
                &&& e == (MathError::DimensionMismatch { left: a@.len() as usize, right: b@.len() as usize })
            },
        },
{
    if a.len() != b.len() {
        return Err(MathError::DimensionMismatch { left: a.len(), right: b.len() });
    }
    let mut out: Vec<i64> = Vec::new();
    let mut i: usize = 0;
    while i < a.len()
        invariant
            a@.len() == b@.len(),
            forall|j: int| 0 <= j < a@.len() ==> call_requires(f, (a@[j], b@[j])),
            i <= a@.len(),
            out@.len() == i as int,
            forall|j: int|
                0 <= j < i as int ==> call_ensures(f, (a@[j], b@[j]), #[trigger] out@[j]),
        decreases a@.len() - i,
    {
        let v = f(a[i], b[i]);
        out.push(v);
        i = i + 1;
    }
    Ok(out)
}

/// Apply an indexed function to every component.
pub fn apply_kernel_indexed<F: Fn(usize, i64) -> i64>(a: &[i64], f: F) -> (r: Vec<i64>)
    requires
        forall|i: int| 0 <= i < a@.len() ==> call_requires(f, (i as usize, a@[i])),
    ensures
        r@.len() == a@.len(),
        forall|i: int|
            0 <= i < r@.len() ==> call_ensures(f, (i as usize, a@[i]), #[trigger] r@[i]),
{
    let mut out: Vec<i64> = Vec::new();
    let mut i: usize = 0;
    while i < a.len()
        invariant
            forall|j: int| 0 <= j < a@.len() ==> call_requires(f, (j as usize, a@[j])),
            i <= a@.len(),
            out@.len() == i as int,
            forall|j: int|
                0 <= j < i as int ==> call_ensures(f, (j as usize, a@[j]), #[trigger] out@[j]),
        decreases a@.len() - i,
    {
        let v = f(i, a[i]);
        out.push(v);
        i = i + 1;
    }
    out
}

} // verus!
