//! The Bernstein form of a Bezier curve over exact fixed-point scalars.
//!
//! A curve parameter is a fraction `tn / td` with `0 <= tn <= td`.  A point of
//! the curve then has, in each coordinate `j`, the exact value
//! `bez_sum(cps, tn, td, j, len) / pow(td, len - 1)`, where `cps` holds the
//! integer numerators of the control points.  The derivative has the value
//! `tan_sum(cps, tn, td, j, len - 1) / pow(td, len - 2)`.

use crate::binomial::{binom, binomial_coefficient, lemma_binom_full, lemma_binom_le_pow2};
use vstd::arithmetic::power::{
    lemma0_pow, lemma_pow0, lemma_pow1, lemma_pow_adds, lemma_pow_increases, pow,
};
use vstd::arithmetic::power2::{lemma_pow2_pos, pow2};
use vstd::prelude::*;

verus! {

/// Largest magnitude a control-point or ray numerator may have.
pub const COORD_LIMIT: i64 = 0x4000_0000;

/// Largest magnitude a curve-point numerator may reach; small enough that
/// every later product still fits the accumulator word.
pub const EVAL_LIMIT: i128 = 1237940039285380274899124224;

/// Largest magnitude a derivative numerator may have when it is to serve as
/// a reflection axis.
pub const TAN_LIMIT: i128 = 1152921504606846976;

/// The Bernstein weight of control point `i` on a curve of degree `n`, as a
/// numerator over the denominator `pow(td, n)`.
pub open spec fn bez_weight(n: nat, i: nat, tn: int, td: int) -> int {
    (binom(n, i) as int) * pow(tn, i) * pow(td - tn, (n - i) as nat)
}

/// Partial Bernstein sum of coordinate `j` over the first `k` control points.
pub open spec fn bez_sum(cps: Seq<Seq<int>>, tn: int, td: int, j: int, k: nat) -> int
    decreases k,
{
    if k == 0 {
        0
    } else {
        bez_sum(cps, tn, td, j, (k - 1) as nat) + bez_weight(
            (cps.len() - 1) as nat,
            (k - 1) as nat,
            tn,
            td,
        ) * cps[k - 1][j]
    }
}

/// The weight of difference vector `i` in the derivative of a degree-`n`
/// curve, as a numerator over the denominator `pow(td, n - 1)`.
pub open spec fn tan_weight(n: nat, i: nat, tn: int, td: int) -> int {
    (n as int) * bez_weight((n - 1) as nat, i, tn, td)
}

/// Partial derivative sum of coordinate `j` over the first `k` difference
/// vectors of the control polygon.
pub open spec fn tan_sum(cps: Seq<Seq<int>>, tn: int, td: int, j: int, k: nat) -> int
    decreases k,
{
    if k == 0 {
        0
    } else {
        tan_sum(cps, tn, td, j, (k - 1) as nat) + tan_weight(
            (cps.len() - 1) as nat,
            (k - 1) as nat,
            tn,
            td,
        ) * (cps[k as int][j] - cps[k - 1][j])
    }
}

/// Room condition under which a Bernstein sum and all its intermediate
/// values fit the accumulator word: forced by the machine, not by the curve.
pub open spec fn eval_fits(len: nat, td: int) -> bool {
    &&& pow2((len - 1) as nat) * ((len - 1) as nat) <= usize::MAX as nat
    &&& (len as int) * pow2((len - 1) as nat) * pow(td, (len - 1) as nat) * (COORD_LIMIT as int)
        <= EVAL_LIMIT
}

/// The magnitude a derivative numerator is guaranteed to stay under.
pub open spec fn tangent_bound(len: nat, td: int) -> int {
    (len as int) * (len as int) * pow2((len - 2) as nat) * pow(td, (len - 2) as nat) * (2 * (
    COORD_LIMIT as int))
}

/// Room condition for the derivative sums.
pub open spec fn tangent_fits(len: nat, td: int) -> bool {
    &&& pow2((len - 2) as nat) * ((len - 2) as nat) <= usize::MAX as nat
    &&& tangent_bound(len, td) <= EVAL_LIMIT
}

/// Room condition under which a derivative numerator is small enough to be
/// the axis of a reflection transform.
pub open spec fn tangent_slim(len: nat, td: int) -> bool {
    tangent_bound(len, td) <= TAN_LIMIT
}

/// A power of a nonnegative base is nonnegative.
pub proof fn lemma_pow_nonneg(b: int, e: nat)
    requires
        0 <= b,
    ensures
        0 <= pow(b, e),
    decreases e,
{
    reveal(pow);
    if e > 0 {
        lemma_pow_nonneg(b, (e - 1) as nat);
        assert(b * pow(b, (e - 1) as nat) >= 0) by (nonlinear_arith)
            requires
                b >= 0,
                pow(b, (e - 1) as nat) >= 0,
        ;
    }
}

/// Raising a larger base to the same power gives a larger value.
pub proof fn lemma_pow_le_base(b1: int, b2: int, e: nat)
    requires
        0 <= b1 <= b2,
    ensures
        pow(b1, e) <= pow(b2, e),
    decreases e,
{
    reveal(pow);
    if e > 0 {
        lemma_pow_le_base(b1, b2, (e - 1) as nat);
        lemma_pow_nonneg(b1, (e - 1) as nat);
        assert(b1 * pow(b1, (e - 1) as nat) <= b2 * pow(b2, (e - 1) as nat)) by (nonlinear_arith)
            requires
                0 <= b1 <= b2,
                0 <= pow(b1, (e - 1) as nat) <= pow(b2, (e - 1) as nat),
        ;
    }
}

/// At parameter zero the whole Bernstein sum reduces to its first term.
proof fn lemma_bez_sum_at_zero(cps: Seq<Seq<int>>, td: int, j: int, k: nat)
    requires
        1 <= k <= cps.len(),
    ensures
        bez_sum(cps, 0, td, j, k) == pow(td, (cps.len() - 1) as nat) * cps[0][j],
    decreases k,
{
    let n = (cps.len() - 1) as nat;
    if k == 1 {
        lemma_pow0(0);
        assert(bez_weight(n, 0, 0, td) == pow(td, n)) by (nonlinear_arith)
            requires
                bez_weight(n, 0, 0, td) == (binom(n, 0) as int) * pow(0, 0) * pow(td, n),
                binom(n, 0) == 1,
                pow(0int, 0nat) == 1,
        ;
        assert(bez_sum(cps, 0, td, j, 0) == 0);
        assert(bez_sum(cps, 0, td, j, 1) == 0 + bez_weight(n, 0, 0, td) * cps[0][j]);
    } else {
        lemma_bez_sum_at_zero(cps, td, j, (k - 1) as nat);
        lemma0_pow((k - 1) as nat);
        assert(bez_weight(n, (k - 1) as nat, 0, td) == 0) by (nonlinear_arith)
            requires
                bez_weight(n, (k - 1) as nat, 0, td) == (binom(n, (k - 1) as nat) as int) * pow(
                    0,
                    (k - 1) as nat,
                ) * pow(td, (n - (k - 1)) as nat),
                pow(0int, (k - 1) as nat) == 0,
        ;
        assert(0 * cps[k - 1][j] == 0) by (nonlinear_arith);
    }
}

/// At parameter one every term but the last vanishes.
proof fn lemma_bez_sum_at_one_prefix(cps: Seq<Seq<int>>, td: int, j: int, k: nat)
    requires
        k <= cps.len() - 1,
    ensures
        bez_sum(cps, td, td, j, k) == 0,
    decreases k,
{
    let n = (cps.len() - 1) as nat;
    if k > 0 {
        lemma_bez_sum_at_one_prefix(cps, td, j, (k - 1) as nat);
        lemma0_pow((n - (k - 1)) as nat);
        assert(bez_weight(n, (k - 1) as nat, td, td) == 0) by (nonlinear_arith)
            requires
                bez_weight(n, (k - 1) as nat, td, td) == (binom(n, (k - 1) as nat) as int) * pow(
                    td,
                    (k - 1) as nat,
                ) * pow(td - td, (n - (k - 1)) as nat),
                pow(0int, (n - (k - 1)) as nat) == 0,
        ;
        assert(0 * cps[k - 1][j] == 0) by (nonlinear_arith);
    }
}

/// The curve starts at its first control point: at parameter zero the
/// Bernstein sum is exactly `pow(td, n)` times the first control point, so
/// the curve point, a value over the denominator `pow(td, n)`, is the first
/// control point itself.
pub proof fn lemma_eval_at_start(cps: Seq<Seq<int>>, td: int, j: int)
    requires
        cps.len() >= 1,
    ensures
        bez_sum(cps, 0, td, j, cps.len()) == pow(td, (cps.len() - 1) as nat) * cps[0][j],
{
    lemma_bez_sum_at_zero(cps, td, j, cps.len());
}

/// The curve ends at its last control point: at parameter one the Bernstein
/// sum is exactly `pow(td, n)` times the last control point.
pub proof fn lemma_eval_at_end(cps: Seq<Seq<int>>, td: int, j: int)
    requires
        cps.len() >= 1,
    ensures
        bez_sum(cps, td, td, j, cps.len()) == pow(td, (cps.len() - 1) as nat) * cps[cps.len()
            - 1][j],
{
    let n = (cps.len() - 1) as nat;
    lemma_bez_sum_at_one_prefix(cps, td, j, n);
    lemma_binom_full(n);
    lemma_pow0(0);
    assert(bez_weight(n, n, td, td) == pow(td, n)) by (nonlinear_arith)
        requires
            bez_weight(n, n, td, td) == (binom(n, n) as int) * pow(td, n) * pow(td - td, 0),
            binom(n, n) == 1,
            pow(0int, 0nat) == 1,
    ;
    assert(bez_sum(cps, td, td, j, cps.len()) == bez_sum(cps, td, td, j, n) + bez_weight(
        n,
        n,
        td,
        td,
    ) * cps[cps.len() - 1][j]);
}

/// A curve on two control points is the straight segment between them: its
/// Bernstein sum is the affine blend `(td - tn) * first + tn * second` over
/// the denominator `td`.  At `tn = 0` this is the first endpoint, at
/// `tn = td` the second, and at `tn / td = 1 / 2` the exact midpoint.
pub proof fn lemma_eval_linear(cps: Seq<Seq<int>>, tn: int, td: int, j: int)
    requires
        cps.len() == 2,
    ensures
        bez_sum(cps, tn, td, j, 2) == (td - tn) * cps[0][j] + tn * cps[1][j],
{
    lemma_pow0(tn);
    lemma_pow0(td - tn);
    lemma_pow1(tn);
    lemma_pow1(td - tn);
    lemma_binom_full(1);
    assert(bez_weight(1, 0, tn, td) == td - tn) by (nonlinear_arith)
        requires
            bez_weight(1, 0, tn, td) == (binom(1, 0) as int) * pow(tn, 0) * pow(td - tn, 1),
            binom(1, 0) == 1,
            pow(tn, 0) == 1,
            pow(td - tn, 1) == td - tn,
    ;
    assert(bez_weight(1, 1, tn, td) == tn) by (nonlinear_arith)
        requires
            bez_weight(1, 1, tn, td) == (binom(1, 1) as int) * pow(tn, 1) * pow(td - tn, 0),
            binom(1, 1) == 1,
            pow(tn, 1) == tn,
            pow(td - tn, 0) == 1,
    ;
    assert(bez_sum(cps, tn, td, j, 0) == 0);
    assert(bez_sum(cps, tn, td, j, 1) == 0 + bez_weight(1, 0, tn, td) * cps[0][j]);
    assert(bez_sum(cps, tn, td, j, 2) == (0 + bez_weight(1, 0, tn, td) * cps[0][j]) + bez_weight(
        1,
        1,
        tn,
        td,
    ) * cps[1][j]);
}

/// Nonnegative integer power by repeated multiplication.
pub fn ipow(base: i128, e: usize) -> (r: i128)
    requires
        0 <= base,
        pow(base as int, e as nat) <= EVAL_LIMIT,
    ensures
        r as int == pow(base as int, e as nat),
        0 <= r,
{
    proof {
        lemma_pow0(base as int);
    }
    let mut acc: i128 = 1;
    let mut k: usize = 0;
    while k < e
        invariant
            0 <= base,
            pow(base as int, e as nat) <= EVAL_LIMIT,
            k <= e,
            acc as int == pow(base as int, k as nat),
            0 <= acc,
        decreases e - k,
    {
        proof {
            reveal(pow);
            assert(pow(base as int, (k + 1) as nat) == (base as int) * pow(base as int, k as nat));
            assert((base as int) * pow(base as int, k as nat) == (acc as int) * (base as int))
                by (nonlinear_arith)
                requires
                    acc as int == pow(base as int, k as nat),
            ;
            lemma_pow_nonneg(base as int, (k + 1) as nat);
            if base == 0 {
                assert(0 * pow(0int, k as nat) == 0) by (nonlinear_arith);
            } else {
                lemma_pow_increases(base as nat, (k + 1) as nat, e as nat);
            }
        }
        acc = acc * base;
        k = k + 1;
    }
    acc
}

/// One Bernstein weight, computed exactly in machine integers.
pub fn bernstein_weight(n: usize, i: usize, t_num: u32, t_den: u32) -> (w: i128)
    requires
        i <= n,
        t_num <= t_den,
        1 <= t_den,
        pow2(n as nat) * (n as nat) <= usize::MAX as nat,
        pow2(n as nat) * pow(t_den as int, n as nat) <= EVAL_LIMIT,
    ensures
        w as int == bez_weight(n as nat, i as nat, t_num as int, t_den as int),
        0 <= w,
        w as int <= pow2(n as nat) * pow(t_den as int, n as nat),
{
    let ghost tn = t_num as int;
    let ghost td = t_den as int;
    proof {
        lemma_pow2_pos(n as nat);
        lemma_pow_nonneg(td, n as nat);
        lemma_pow_nonneg(td, i as nat);
        lemma_pow_nonneg(td, (n - i) as nat);
        lemma_pow_le_base(tn, td, i as nat);
        lemma_pow_le_base(td - tn, td, (n - i) as nat);
        lemma_pow_increases(t_den as nat, i as nat, n as nat);
        lemma_pow_increases(t_den as nat, (n - i) as nat, n as nat);
        assert(pow(td, n as nat) <= EVAL_LIMIT) by (nonlinear_arith)
            requires
                pow2(n as nat) * pow(td, n as nat) <= EVAL_LIMIT,
                pow2(n as nat) >= 1,
                pow(td, n as nat) >= 0,
        ;
        lemma_pow_nonneg(tn, i as nat);
        lemma_pow_nonneg(td - tn, (n - i) as nat);
    }
    let tp = ipow(t_num as i128, i);
    let up = ipow((t_den - t_num) as i128, n - i);
    let b = binomial_coefficient(n, i);
    proof {
        lemma_binom_le_pow2(n as nat, i as nat);
        assert((b as i128) * tp <= pow2(n as nat) * pow(td, i as nat)) by (nonlinear_arith)
            requires
                0 <= b as int <= pow2(n as nat),
                0 <= tp as int <= pow(td, i as nat),
        ;
        assert((b as i128) * tp >= 0) by (nonlinear_arith)
            requires
                0 <= b as int,
                0 <= tp as int,
        ;
        assert(pow2(n as nat) * pow(td, i as nat) <= pow2(n as nat) * pow(td, n as nat))
            by (nonlinear_arith)
            requires
                pow2(n as nat) >= 1,
                0 <= pow(td, i as nat) <= pow(td, n as nat),
        ;
    }
    let bt = (b as i128) * tp;
    proof {
        lemma_pow_adds(td, i as nat, (n - i) as nat);
        assert(i + (n - i) == n);
        assert(0 <= bt * up && bt * up <= pow2(n as nat) * pow(td, n as nat) && bt * up == (
        b as int) * (tp as int) * (up as int)) by (nonlinear_arith)
            requires
                0 <= bt as int,
                bt as int <= pow2(n as nat) * pow(td, i as nat),
                0 <= up as int,
                up as int <= pow(td, (n - i) as nat),
                bt as int == (b as int) * (tp as int),
                pow(td, i as nat) * pow(td, (n - i) as nat) == pow(td, n as nat),
                pow2(n as nat) >= 1,
                pow(td, i as nat) >= 0,
                pow(td, (n - i) as nat) >= 0,
        ;
    }
    bt * up
}

} // verus!
