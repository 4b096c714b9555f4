//! Fixed-point vector arithmetic: sums of squares, integer square roots,
//! norms, normalization, and elementwise vector operations.

use vstd::arithmetic::div_mod::lemma_fundamental_div_mod;
use vstd::prelude::*;

use crate::{COORD_LIMIT, DIM_LIMIT, SCALE};

verus! {

/// A fault raised by the vector primitives.
#[derive(Debug, Clone, PartialEq, Eq, Structural)]
pub enum MathError {
    /// Two vectors of different lengths met in an elementwise operation.
    DimensionMismatch { left: usize, right: usize },
    /// A vector of norm zero cannot be normalized.
    ZeroNorm,
}

impl MathError {
    /// A short human-readable description of the fault.
    pub fn message(&self) -> (r: String)
        ensures
            r@.len() > 0,
    {
        proof {
            reveal_strlit("dimension mismatch");
            reveal_strlit("zero-length vector: cannot normalize");
        }
        match self {
            MathError::DimensionMismatch { .. } => "dimension mismatch".to_owned(),
            MathError::ZeroNorm => "zero-length vector: cannot normalize".to_owned(),
        }
    }
}

/// A component is within the range the library's arithmetic supports.
pub open spec fn in_coord_range(x: i64) -> bool {
    -COORD_LIMIT <= x <= COORD_LIMIT
}

/// All components of a sequence are within range.
pub open spec fn comps_ok(s: Seq<i64>) -> bool {
    forall|i: int| 0 <= i < s.len() ==> in_coord_range(#[trigger] s[i])
}

/// A sequence is an acceptable vector: bounded length and bounded components.
pub open spec fn coords_ok(s: Seq<i64>) -> bool {
    s.len() <= DIM_LIMIT && comps_ok(s)
}

/// The sum of the squares of the components.
pub open spec fn spec_sum_sq(s: Seq<i64>) -> int
    decreases s.len(),
{
    if s.len() == 0 {
        0
    } else {
        spec_sum_sq(s.drop_last()) + s.last() * s.last()
    }
}

/// The integer square root (the floor of the real square root).
pub open spec fn spec_isqrt(n: int) -> int
    decreases n,
{
    if n < 1 {
        0
    } else {
        let h = 2 * spec_isqrt(n / 4);
        if (h + 1) * (h + 1) <= n {
            h + 1
        } else {
            h
        }
    }
}

/// The norm of a vector, in micro-units: the integer square root of the sum
/// of the squared components.
pub open spec fn spec_norm(s: Seq<i64>) -> int {
    spec_isqrt(spec_sum_sq(s))
}

pub proof fn lemma_sum_sq_nonneg(s: Seq<i64>)
    ensures
        spec_sum_sq(s) >= 0,
    decreases s.len(),
{
    if s.len() > 0 {
        lemma_sum_sq_nonneg(s.drop_last());
        assert(s.last() * s.last() >= 0) by (nonlinear_arith);
    }
}

pub proof fn lemma_sum_sq_bound(s: Seq<i64>)
    requires
        comps_ok(s),
    ensures
        spec_sum_sq(s) <= s.len() * (COORD_LIMIT as int * COORD_LIMIT as int),
    decreases s.len(),
{
    let k = COORD_LIMIT as int * COORD_LIMIT as int;
    if s.len() == 0 {
    } else {
        lemma_sum_sq_bound(s.drop_last());
        assert(s.last() * s.last() <= k) by (nonlinear_arith)
            requires
                -COORD_LIMIT <= s.last() <= COORD_LIMIT,
                k == COORD_LIMIT as int * COORD_LIMIT as int,
        ;
        assert(s.drop_last().len() as int * k + k == s.len() as int * k) by (nonlinear_arith)
            requires
                s.len() >= 1,
                s.drop_last().len() == s.len() - 1,
        ;
    }
}

/// `spec_isqrt` really is the floor of the square root.
pub proof fn lemma_isqrt_bounds(n: int)
    requires
        n >= 0,
    ensures
        spec_isqrt(n) >= 0,
        spec_isqrt(n) * spec_isqrt(n) <= n,
        n < (spec_isqrt(n) + 1) * (spec_isqrt(n) + 1),
    decreases n,
{
    if n < 1 {
    } else {
        let q = n / 4;
        assert(0 <= q < n);
        lemma_isqrt_bounds(q);
        let h0 = spec_isqrt(q);
        let h = 2 * h0;
        assert(4 * q <= n < 4 * q + 4) by {
            lemma_fundamental_div_mod(n, 4);
        };
        assert(h * h <= 4 * q) by (nonlinear_arith)
            requires
                h == 2 * h0,
                h0 * h0 <= q,
        ;
        assert(n < (h + 2) * (h + 2)) by (nonlinear_arith)
            requires
                h == 2 * h0,
                q < (h0 + 1) * (h0 + 1),
                n < 4 * q + 4,
        ;
        if (h + 1) * (h + 1) <= n {
            assert(spec_isqrt(n) == h + 1);
            assert(spec_isqrt(n) * spec_isqrt(n) <= n) by (nonlinear_arith)
                requires
                    spec_isqrt(n) == h + 1,
                    (h + 1) * (h + 1) <= n,
            ;
        } else {
            assert(spec_isqrt(n) == h);
            assert(spec_isqrt(n) * spec_isqrt(n) <= n) by (nonlinear_arith)
                requires
                    spec_isqrt(n) == h,
                    h * h <= 4 * q,
                    4 * q <= n,
            ;
        }
    }
}

/// Two numbers that both satisfy the square-root characterization are equal.
pub proof fn lemma_isqrt_unique(n: int, r: int)
    requires
        n >= 0,
        r >= 0,
        r * r <= n,
        n < (r + 1) * (r + 1),
    ensures
        r == spec_isqrt(n),
{
    lemma_isqrt_bounds(n);
    let s = spec_isqrt(n);
    if r < s {
        assert((r + 1) * (r + 1) <= s * s) by (nonlinear_arith)
            requires
                0 <= r,
                r + 1 <= s,
        ;
    }
    if s < r {
        assert((s + 1) * (s + 1) <= r * r) by (nonlinear_arith)
            requires
                0 <= s,
                s + 1 <= r,
        ;
    }
}

/// The integer square root is monotone.
pub proof fn lemma_isqrt_monotone(a: int, b: int)
    requires
        0 <= a <= b,
    ensures
        spec_isqrt(a) <= spec_isqrt(b),
{
    lemma_isqrt_bounds(a);
    lemma_isqrt_bounds(b);
    let ra = spec_isqrt(a);
    let rb = spec_isqrt(b);
    if rb < ra {
        assert((rb + 1) * (rb + 1) <= ra * ra) by (nonlinear_arith)
            requires
                0 <= rb,
                rb + 1 <= ra,
        ;
    }
}

/// The integer square root of a perfect square.
pub proof fn lemma_isqrt_square(x: int)
    requires
        x >= 0,
    ensures
        spec_isqrt(x * x) == x,
{
    assert(x * x < (x + 1) * (x + 1)) by (nonlinear_arith)
        requires
            x >= 0,
    ;
    assert(x * x >= 0) by (nonlinear_arith);
    lemma_isqrt_unique(x * x, x);
}

/// The sum of squares never exceeds what the bounds on length and components
/// allow.
pub proof fn lemma_sum_sq_total_bound(s: Seq<i64>)
    requires
        coords_ok(s),
    ensures
        spec_sum_sq(s) <= 0x1000_0000_0000_0000_0000_0000_0000_000,
{
    lemma_sum_sq_bound(s);
    assert(s.len() as int * (COORD_LIMIT as int * COORD_LIMIT as int) <= DIM_LIMIT as int * (
    COORD_LIMIT as int * COORD_LIMIT as int)) by (nonlinear_arith)
        requires
            s.len() <= DIM_LIMIT,
    ;
}

/// Appending one component adds its square to the sum of squares.
pub proof fn lemma_sum_sq_take(s: Seq<i64>, i: int)
    requires
        0 <= i < s.len(),
    ensures
        spec_sum_sq(s.take(i + 1)) == spec_sum_sq(s.take(i)) + s[i] * s[i],
{
    assert(s.take(i + 1).drop_last() =~= s.take(i));
    assert(s.take(i + 1).last() == s[i]);
}

/// The square of any single component is at most the sum of all squares.
pub proof fn lemma_square_le_sum_sq(s: Seq<i64>, i: int)
    requires
        0 <= i < s.len(),
    ensures
        s[i] * s[i] <= spec_sum_sq(s),
    decreases s.len(),
{
    if i == s.len() - 1 {
        lemma_sum_sq_nonneg(s.drop_last());
    } else {
        lemma_square_le_sum_sq(s.drop_last(), i);
        assert(s.drop_last()[i] == s[i]);
        assert(s.last() * s.last() >= 0) by (nonlinear_arith);
    }
}

/// The integer square root of a number up to `2^124`, computed by the same
/// divide-by-four recursion that defines `spec_isqrt`.
pub fn isqrt_u128(n: u128) -> (r: u64)
    requires
        n < 0x1000_0000_0000_0000_0000_0000_0000_0000u128,
    ensures
        r as int == spec_isqrt(n as int),
        (r as int) * (r as int) <= n as int,
        (n as int) < (r as int + 1) * (r as int + 1),
    decreases n,
{
    proof {
        lemma_isqrt_bounds(n as int);
    }
    if n < 1 {
        return 0;
    }
    let q = n / 4;
    let r0 = isqrt_u128(q);
    proof {
        assert(r0 < 0x4000_0000_0000_0000u64) by (nonlinear_arith)
            requires
                (r0 as int) * (r0 as int) <= q as int,
                q < 0x4000_0000_0000_0000_0000_0000_0000_000u128,
        ;
    }
    let h: u128 = 2 * (r0 as u128);
    let hp: u128 = h + 1;
    proof {
        assert((hp as int) * (hp as int) < 0x1_0000_0000_0000_0000_0000_0000_0000_0000)
            by (nonlinear_arith)
            requires
                0 <= hp as int <= 0x8000_0000_0000_0000,
        ;
    }
    if hp * hp <= n {
        hp as u64
    } else {
        h as u64
    }
}

/// The norm of any vector is non-negative.
pub proof fn lemma_norm_nonneg(s: Seq<i64>)
    ensures
        spec_norm(s) >= 0,
{
    lemma_sum_sq_nonneg(s);
    lemma_isqrt_bounds(spec_sum_sq(s));
}

/// The norm is zero exactly when every component is zero.
pub proof fn lemma_norm_zero_iff(s: Seq<i64>)
    ensures
        spec_norm(s) == 0 <==> (forall|i: int| 0 <= i < s.len() ==> s[i] == 0),
{
    lemma_sum_sq_nonneg(s);
    lemma_isqrt_bounds(spec_sum_sq(s));
    if spec_norm(s) == 0 {
        assert(spec_sum_sq(s) == 0) by (nonlinear_arith)
            requires
                spec_isqrt(spec_sum_sq(s)) == 0,
                spec_sum_sq(s) >= 0,
                spec_sum_sq(s) < (spec_isqrt(spec_sum_sq(s)) + 1) * (spec_isqrt(spec_sum_sq(s))
                    + 1),
        ;
        assert forall|i: int| 0 <= i < s.len() implies s[i] == 0 by {
            lemma_square_le_sum_sq(s, i);
            assert(s[i] * s[i] <= 0);
            assert(s[i] == 0) by (nonlinear_arith)
                requires
                    s[i] * s[i] <= 0,
            ;
        };
    } else {
        assert(spec_sum_sq(s) != 0);
        lemma_sum_sq_all_zero(s);
    }
}

proof fn lemma_sum_sq_all_zero(s: Seq<i64>)
    ensures
        (forall|i: int| 0 <= i < s.len() ==> s[i] == 0) ==> spec_sum_sq(s) == 0,
    decreases s.len(),
{
    if s.len() > 0 {
        lemma_sum_sq_all_zero(s.drop_last());
        if forall|i: int| 0 <= i < s.len() ==> s[i] == 0 {
            assert(forall|i: int| 0 <= i < s.drop_last().len() ==> s.drop_last()[i] == 0);
            assert(s.last() == s[s.len() - 1]);
        }
    }
}

/// No component's magnitude exceeds the norm.
pub proof fn lemma_comp_le_norm(s: Seq<i64>, i: int)
    requires
        0 <= i < s.len(),
    ensures
        s[i] <= spec_norm(s),
        -s[i] <= spec_norm(s),
{
    lemma_square_le_sum_sq(s, i);
    lemma_sum_sq_nonneg(s);
    let m = if s[i] >= 0 { s[i] as int } else { -s[i] as int };
    assert(m * m == s[i] * s[i]) by (nonlinear_arith)
        requires
            m == s[i] || m == -s[i],
    ;
    lemma_isqrt_square(m);
    lemma_isqrt_monotone(m * m, spec_sum_sq(s));
}

/// The sum of the squares of the components, exactly.
pub fn sum_sq(data: &Vec<i64>) -> (r: u128)
    requires
        coords_ok(data@),
    ensures
        r as int == spec_sum_sq(data@),
        r < 0x1000_0000_0000_0000_0000_0000_0000_000u128,
{
    let k: u128 = 0x1000_0000_0000_0000_0000_0000u128;
    let mut acc: u128 = 0;
    let mut i: usize = 0;
    proof {
        assert(data@.take(0) =~= Seq::<i64>::empty());
        lemma_sum_sq_total_bound(data@);
    }
    while i < data.len()
        invariant
            coords_ok(data@),
            i <= data@.len(),
            acc as int == spec_sum_sq(data@.take(i as int)),
            acc as int <= i as int * (COORD_LIMIT as int * COORD_LIMIT as int),
        decreases data@.len() - i,
    {
        let x = data[i];
        proof {
            assert(0 <= (x as int) * (x as int) <= COORD_LIMIT as int * COORD_LIMIT as int)
                by (nonlinear_arith)
                requires
                    -COORD_LIMIT <= x <= COORD_LIMIT,
            ;
        }
        let sq: i128 = (x as i128) * (x as i128);
        proof {
            lemma_sum_sq_take(data@, i as int);
            assert(0 <= (x as int) * (x as int) <= COORD_LIMIT as int * COORD_LIMIT as int)
                by (nonlinear_arith)
                requires
                    -COORD_LIMIT <= x <= COORD_LIMIT,
            ;
            assert((i + 1) as int * (COORD_LIMIT as int * COORD_LIMIT as int) <= DIM_LIMIT as int
                * (COORD_LIMIT as int * COORD_LIMIT as int)) by (nonlinear_arith)
                requires
                    i < DIM_LIMIT,
            ;
            assert(i as int * (COORD_LIMIT as int * COORD_LIMIT as int) + COORD_LIMIT as int
                * COORD_LIMIT as int == (i + 1) as int * (COORD_LIMIT as int * COORD_LIMIT as int))
                by (nonlinear_arith);
        }
        acc = acc + (sq as u128);
        i = i + 1;
    }
    proof {
        assert(data@.take(data@.len() as int) =~= data@);
        assert(data@.len() as int * (COORD_LIMIT as int * COORD_LIMIT as int) <= DIM_LIMIT as int
            * (COORD_LIMIT as int * COORD_LIMIT as int)) by (nonlinear_arith)
            requires
                data@.len() <= DIM_LIMIT,
        ;
    }
    acc
}

/// One normalized component: the component scaled by `SCALE` and divided by
/// the norm, rounded toward zero.
pub open spec fn spec_unit_comp(x: i64, n: int) -> i64 {
    (if x >= 0 {
        (x * SCALE) / n
    } else {
        -(((-x) * SCALE) / n)
    }) as i64
}

/// The unit-normalized copy of a vector (defined for a non-zero norm).
pub open spec fn spec_normalized(s: Seq<i64>) -> Seq<i64> {
    Seq::new(s.len(), |i: int| spec_unit_comp(s[i], spec_norm(s)))
}

/// A fixed-length numeric vector with a lazily cached norm and a lazily
/// cached unit-normalized copy, both invalidated when the components change.
#[derive(Debug, Clone)]
pub struct VecN {
    /// The components, in fixed-point micro-units.
    pub data: Vec<i64>,
    /// The cached norm, when it has been computed.
    pub norm: Option<i64>,
    /// The cached unit-normalized copy, when it has been computed.
    pub normalized: Option<Vec<i64>>,
}

impl VecN {
    /// The cached values, when present, match the current components.
    pub open spec fn wf(&self) -> bool {
        &&& coords_ok(self.data@)
        &&& match self.norm {
            Some(n) => n as int == spec_norm(self.data@),
            None => true,
        }
        &&& match self.normalized {
            Some(v) => spec_norm(self.data@) != 0 && v@ == spec_normalized(self.data@),
            None => true,
        }
    }

    /// Construct a vector from its components; nothing is cached yet.
    pub fn new(data: Vec<i64>) -> (r: VecN)
        requires
            coords_ok(data@),
        ensures
            r.wf(),
            r.data@ == data@,
            r.norm is None,
            r.normalized is None,
    {
        VecN { data, norm: None, normalized: None }
    }

    /// Construct a vector from a slice of components.
    pub fn from_slice(slice: &[i64]) -> (r: VecN)
        requires
            coords_ok(slice@),
        ensures
            r.wf(),
            r.data@ == slice@,
            r.norm is None,
            r.normalized is None,
    {
        VecN::new(copy_comps_slice(slice))
    }

    /// The number of components.
    pub fn dim(&self) -> (r: usize)
        ensures
            r == self.data@.len(),
    {
        self.data.len()
    }

    /// Drop both caches.
    pub fn clear_cache(&mut self)
        ensures
            final(self).data@ == old(self).data@,
            final(self).norm is None,
            final(self).normalized is None,
            old(self).wf() ==> final(self).wf(),
    {
        self.norm = None;
        self.normalized = None;
    }

    /// Replace the components, invalidating both caches.
    pub fn set_data(&mut self, data: Vec<i64>)
        requires
            coords_ok(data@),
        ensures
            final(self).wf(),
            final(self).data@ == data@,
            final(self).norm is None,
            final(self).normalized is None,
    {
        self.data = data;
        self.clear_cache();
    }

    /// Get or compute the norm; the result depends only on the components,
    /// which do not change.
    pub fn norm(&mut self) -> (r: i64)
        requires
            old(self).wf(),
        ensures
            final(self).wf(),
            final(self).data@ == old(self).data@,
            final(self).normalized == old(self).normalized,
            final(self).norm == Some(r),
            r as int == spec_norm(old(self).data@),
            r >= 0,
    {
        proof {
            lemma_norm_nonneg(self.data@);
        }
        if let Some(n) = self.norm {
            return n;
        }
        let s = sum_sq(&self.data);
        let root = isqrt_u128(s);
        proof {
            assert(root < 0x8000_0000_0000_0000u64) by (nonlinear_arith)
                requires
                    (root as int) * (root as int) <= s as int,
                    s < 0x1000_0000_0000_0000_0000_0000_0000_000u128,
            ;
        }
        let n = root as i64;
        self.norm = Some(n);
        n
    }

    /// Get or compute the unit-normalized copy of the components; fails with
    /// `ZeroNorm` exactly when the norm is zero. The components themselves do
    /// not change.
    pub fn normalize(&mut self) -> (r: Result<Vec<i64>, MathError>)
        requires
            old(self).wf(),
        ensures
            final(self).wf(),
            final(self).data@ == old(self).data@,
            r is Err <==> spec_norm(old(self).data@) == 0,
            match r {
                Ok(v) => {
                    &&& v@ == spec_normalized(old(self).data@)
                    &&& final(self).norm == Some(spec_norm(old(self).data@) as i64)
                    &&& match final(self).normalized {
                        Some(c) => c@ == v@,
                        None => false,
                    }
                },
                Err(e) => {
                    &&& e == MathError::ZeroNorm
                    &&& final(self).norm == Some(0i64)
                    &&& final(self).normalized is None
                },
            },
    {
        if self.normalized.is_some() {
            let _cached_norm = self.norm();
            if let Some(v) = &self.normalized {
                let out = copy_comps(v);
                return Ok(out);
            }
        }
        let n = self.norm();
        if n == 0 {
            return Err(MathError::ZeroNorm);
        }
        let ghost data = self.data@;
        let ghost nn = spec_norm(data);
        let mut out: Vec<i64> = Vec::new();
        let mut i: usize = 0;
        while i < self.data.len()
            invariant
                self.wf(),
                self.data@ == data,
                self.norm == Some(n),
                n as int == nn,
                n > 0,
                i <= data.len(),
                out@.len() == i as int,
                forall|j: int| 0 <= j < i as int ==> out@[j] == spec_unit_comp(data[j], nn),
            decreases data.len() - i,
        {
            let x = self.data[i];
            let mag: i64 = if x >= 0 {
                x
            } else {
                -x
            };
            proof {
                lemma_comp_le_norm(data, i as int);
                assert(mag as int * SCALE as int <= n as int * SCALE as int) by (nonlinear_arith)
                    requires
                        0 <= mag as int <= n as int,
                ;
                vstd::arithmetic::div_mod::lemma_div_is_ordered(
                    mag as int * SCALE as int,
                    n as int * SCALE as int,
                    n as int,
                );
                vstd::arithmetic::div_mod::lemma_div_multiples_vanish(SCALE as int, n as int);
                vstd::arithmetic::div_mod::lemma_div_pos_is_pos(mag as int * SCALE as int, n as int);
            }
            let q128: u128 = (mag as u128) * (SCALE as u128) / (n as u128);
            let q: i64 = q128 as i64;
            let val: i64 = if x >= 0 {
                q
            } else {
                -q
            };
            out.push(val);
            i = i + 1;
        }
        proof {
            assert(out@ =~= spec_normalized(data));
        }
        let cache = copy_comps(&out);
        self.normalized = Some(cache);
        Ok(out)
    }
}

/// Copy a vector of components, element by element.
pub fn copy_comps(src: &Vec<i64>) -> (r: Vec<i64>)
    ensures
        r@ == src@,
{
    copy_comps_slice(src.as_slice())
}

/// Copy a slice of components into a fresh vector.
pub fn copy_comps_slice(src: &[i64]) -> (r: Vec<i64>)
    ensures
        r@ == src@,
{
    let mut out: Vec<i64> = Vec::new();
    let mut i: usize = 0;
    while i < src.len()
        invariant
            i <= src@.len(),
            out@ =~= src@.take(i as int),
        decreases src@.len() - i,
    {
        out.push(src[i]);
        i = i + 1;
    }
    proof {
        assert(src@.take(src@.len() as int) =~= src@);
    }
    out
}

/// The dot product of two equal-length vectors.
pub open spec fn spec_dot(a: Seq<i64>, b: Seq<i64>) -> int
    decreases a.len(),
{
    if a.len() == 0 || b.len() == 0 {
        0
    } else {
        spec_dot(a.drop_last(), b.drop_last()) + a.last() * b.last()
    }
}

proof fn lemma_dot_take(a: Seq<i64>, b: Seq<i64>, i: int)
    requires
        a.len() == b.len(),
        0 <= i < a.len(),
    ensures
        spec_dot(a.take(i + 1), b.take(i + 1)) == spec_dot(a.take(i), b.take(i)) + a[i] * b[i],
{
    assert(a.take(i + 1).drop_last() =~= a.take(i));
    assert(b.take(i + 1).drop_last() =~= b.take(i));
}

/// Elementwise sum; fails with the true lengths when they differ.
pub fn add(a: &[i64], b: &[i64]) -> (r: Result<Vec<i64>, MathError>)
    requires
        comps_ok(a@),
        comps_ok(b@),
    ensures
        match r {
            Ok(v) => {
                &&& a@.len() == b@.len()
                &&& v@.len() == a@.len()
                &&& forall|i: int| 0 <= i < v@.len() ==> v@[i] == a@[i] + b@[i]
            },
            Err(e) => {
                &&& a@.len() != b@.len()
                &&& e == (MathError::DimensionMismatch { left: a@.len() as usize, right: b@.len() as usize })
            },
        },
{
    if a.len() != b.len() {
        return Err(MathError::DimensionMismatch { left: a.len(), right: b.len() });
    }
    let mut out: Vec<i64> = Vec::new();
    let mut i: usize = 0;
    while i < a.len()
        invariant
            comps_ok(a@),
            comps_ok(b@),
            a@.len() == b@.len(),
            i <= a@.len(),
            out@.len() == i as int,
            forall|j: int| 0 <= j < i as int ==> out@[j] == a@[j] + b@[j],
        decreases a@.len() - i,
    {
        out.push(a[i] + b[i]);
        i = i + 1;
    }
    Ok(out)
}

/// Elementwise difference; fails with the true lengths when they differ.
pub fn sub(a: &[i64], b: &[i64]) -> (r: Result<Vec<i64>, MathError>)
    requires
        comps_ok(a@),
        comps_ok(b@),
    ensures
        match r {
            Ok(v) => {
                &&& a@.len() == b@.len()
                &&& v@.len() == a@.len()
                &&& forall|i: int| 0 <= i < v@.len() ==> v@[i] == a@[i] - b@[i]
            },
            Err(e) => {
                &&& a@.len() != b@.len()
                &&& e == (MathError::DimensionMismatch { left: a@.len() as usize, right: b@.len() as usize })
            },
        },
{
    if a.len() != b.len() {
        return Err(MathError::DimensionMismatch { left: a.len(), right: b.len() });
    }
    let mut out: Vec<i64> = Vec::new();
    let mut i: usize = 0;
    while i < a.len()
        invariant
            comps_ok(a@),
            comps_ok(b@),
            a@.len() == b@.len(),
            i <= a@.len(),
            out@.len() == i as int,
            forall|j: int| 0 <= j < i as int ==> out@[j] == a@[j] - b@[j],
        decreases a@.len() - i,
    {
        out.push(a[i] - b[i]);
        i = i + 1;
    }
    Ok(out)
}

/// Dot product; fails with the true lengths when they differ. The result is
/// in squared micro-units.
pub fn dot(a: &[i64], b: &[i64]) -> (r: Result<i128, MathError>)
    requires
        coords_ok(a@),
        coords_ok(b@),
    ensures
        match r {
            Ok(p) => a@.len() == b@.len() && p as int == spec_dot(a@, b@),
            Err(e) => {
                &&& a@.len() != b@.len()
                &&& e == (MathError::DimensionMismatch { left: a@.len() as usize, right: b@.len() as usize })
            },
        },
{
    if a.len() != b.len() {
        return Err(MathError::DimensionMismatch { left: a.len(), right: b.len() });
    }
    let ghost k = COORD_LIMIT as int * COORD_LIMIT as int;
    let mut acc: i128 = 0;
    let mut i: usize = 0;
    proof {
        assert(a@.take(0) =~= Seq::<i64>::empty());
        assert(b@.take(0) =~= Seq::<i64>::empty());
    }
    while i < a.len()
        invariant
            coords_ok(a@),
            coords_ok(b@),
            a@.len() == b@.len(),
            i <= a@.len(),
            acc as int == spec_dot(a@.take(i as int), b@.take(i as int)),
            -(i as int) * k <= acc as int <= i as int * k,
            k == COORD_LIMIT as int * COORD_LIMIT as int,
        decreases a@.len() - i,
    {
        proof {
            lemma_dot_take(a@, b@, i as int);
            assert(-k <= (a@[i as int] as int) * (b@[i as int] as int) <= k) by (nonlinear_arith)
                requires
                    -COORD_LIMIT <= a@[i as int] <= COORD_LIMIT,
                    -COORD_LIMIT <= b@[i as int] <= COORD_LIMIT,
                    k == COORD_LIMIT as int * COORD_LIMIT as int,
            ;
            assert((i as int + 1) * k <= DIM_LIMIT as int * k && -(DIM_LIMIT as int) * k <= -(i
                as int + 1) * k) by (nonlinear_arith)
                requires
                    0 <= i < DIM_LIMIT,
                    k == COORD_LIMIT as int * COORD_LIMIT as int,
            ;
            assert(i as int * k + k == (i as int + 1) * k) by (nonlinear_arith);
            assert(-(i as int) * k - k == -(i as int + 1) * k) by (nonlinear_arith);
        }
        let p: i128 = (a[i] as i128) * (b[i] as i128);
        acc = acc + p;
        i = i + 1;
    }
    proof {
        assert(a@.take(a@.len() as int) =~= a@);
        assert(b@.take(b@.len() as int) =~= b@);
    }
    Ok(acc)
}

/// One scaled component: the product in fixed point, rounded toward zero.
pub open spec fn spec_scale_comp(x: i64, f: i64) -> int {
    let p = x * f;
    if p >= 0 {
        p / (SCALE as int)
    } else {
        -((-p) / (SCALE as int))
    }
}

/// Scale every component by the fixed-point factor `f`.
pub fn scale(a: &[i64], f: i64) -> (r: Vec<i64>)
    requires
        comps_ok(a@),
        in_coord_range(f),
    ensures
        r@.len() == a@.len(),
        forall|i: int| 0 <= i < r@.len() ==> r@[i] == spec_scale_comp(a@[i], f),
{
    let mut out: Vec<i64> = Vec::new();
    let mut i: usize = 0;
    while i < a.len()
        invariant
            comps_ok(a@),
            in_coord_range(f),
            i <= a@.len(),
            out@.len() == i as int,
            forall|j: int| 0 <= j < i as int ==> out@[j] == spec_scale_comp(a@[j], f),
        decreases a@.len() - i,
    {
        let x = a[i];
        proof {
            assert(-(COORD_LIMIT as int * COORD_LIMIT as int) <= (x as int) * (f as int)
                <= COORD_LIMIT as int * COORD_LIMIT as int) by (nonlinear_arith)
                requires
                    -COORD_LIMIT <= x <= COORD_LIMIT,
                    -COORD_LIMIT <= f <= COORD_LIMIT,
            ;
        }
        let p: i128 = (x as i128) * (f as i128);
        let q: i64 = if p >= 0 {
            proof {
                vstd::arithmetic::div_mod::lemma_div_is_ordered(
                    p as int,
                    COORD_LIMIT as int * COORD_LIMIT as int,
                    SCALE as int,
                );
            }
            ((p as u128) / (SCALE as u128)) as i64
        } else {
            proof {
                vstd::arithmetic::div_mod::lemma_div_is_ordered(
                    -p as int,
                    COORD_LIMIT as int * COORD_LIMIT as int,
                    SCALE as int,
                );
                vstd::arithmetic::div_mod::lemma_div_pos_is_pos(-p as int, SCALE as int);
            }
            -((((-p) as u128) / (SCALE as u128)) as i64)
        };
        out.push(q);
        i = i + 1;
    }
    out
}

/// Build a vector from a slice and normalize it, validating a non-zero norm;
/// the returned vector has both caches populated.
pub fn normalize_slice(a: &[i64]) -> (r: Result<VecN, MathError>)
    requires
        coords_ok(a@),
    ensures
        r is Err <==> spec_norm(a@) == 0,
        match r {
            Ok(v) => {
                &&& v.wf()
                &&& v.data@ == a@
                &&& v.norm == Some(spec_norm(a@) as i64)
                &&& v.normalized is Some
            },
            Err(e) => e == MathError::ZeroNorm,
        },
{
    let mut v = VecN::from_slice(a);
    match v.normalize() {
        Ok(_) => Ok(v),
        Err(e) => Err(e),
    }
}

} // verus!
