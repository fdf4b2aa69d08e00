//! Polynomials over the scalar field, coefficient sequences lowest degree
//! first, and the interpolation facts behind Shamir reconstruction.
//!
//! Reconstruction evaluates the interpolating polynomial at zero by the
//! Newton scheme: peel off the first sample, divide the residual by
//! `x - x0` using the sample differences, and recurse.  The central lemma,
//! [`lemma_newton_recovers`], shows that whenever the samples really are
//! evaluations of a polynomial of matching degree, the scheme returns the
//! polynomial's constant term — the shared secret.

use vstd::prelude::*;
use crate::field::{
    cong, fadd, fmul, fsub, has_inv, in_field, inv_p, p, lemma_cong_add, lemma_cong_mod,
    lemma_cong_mul, lemma_cong_refl, lemma_cong_sub, lemma_cong_sym, lemma_cong_to_eq,
    lemma_cong_trans, lemma_fmul_cancel, lemma_fmul_distributes, lemma_fmul_zero,
    lemma_fmul_assoc, lemma_fmul_comm, lemma_inv_unique, lemma_mod_range,
    lemma_small_invertible, mul_mod, sub_mod, Fe,
    MODULUS,
};
use vstd::arithmetic::div_mod::{lemma_add_mod_noop, lemma_mod_add_multiples_vanish, lemma_small_mod};

verus! {

/// Every coefficient is a canonical field representative.
pub open spec fn coeffs_in_field(c: Seq<int>) -> bool {
    forall|i: int| 0 <= i < c.len() ==> in_field(#[trigger] c[i])
}

/// Horner evaluation of the polynomial `c` at `x`, in the field.
pub open spec fn poly_eval(c: Seq<int>, x: int) -> int
    decreases c.len(),
{
    if c.len() == 0 {
        0
    } else {
        fadd(c[0], fmul(x, poly_eval(c.drop_first(), x)))
    }
}

pub proof fn lemma_poly_eval_in_field(c: Seq<int>, x: int)
    ensures
        in_field(poly_eval(c, x)),
{
    if c.len() == 0 {
    } else {
        lemma_mod_range(c[0] + fmul(x, poly_eval(c.drop_first(), x)));
    }
}

/// Evaluating at zero yields the constant term.
pub proof fn lemma_poly_eval_at_zero(c: Seq<int>)
    requires
        c.len() >= 1,
        coeffs_in_field(c),
    ensures
        poly_eval(c, 0) == c[0],
{
    lemma_fmul_zero(poly_eval(c.drop_first(), 0));
    lemma_small_mod(c[0] as nat, MODULUS as nat);
}

/// The entry of `c` at `i`, taking absent entries as zero.
pub open spec fn at_or_zero(c: Seq<int>, i: int) -> int {
    if 0 <= i < c.len() {
        c[i]
    } else {
        0
    }
}

/// Pointwise field addition of coefficient sequences, padded to the longer
/// length.
pub open spec fn padd(a: Seq<int>, b: Seq<int>) -> Seq<int> {
    Seq::new(
        if a.len() >= b.len() {
            a.len()
        } else {
            b.len()
        },
        |i: int| fadd(at_or_zero(a, i), at_or_zero(b, i)),
    )
}

/// Pointwise field multiplication of a coefficient sequence by a scalar.
pub open spec fn pscale(k: int, c: Seq<int>) -> Seq<int> {
    Seq::new(c.len(), |i: int| fmul(k, c[i]))
}

/// `fadd` composed with `fadd` regroups freely.
proof fn lemma_fadd_regroup(a: int, b: int, c: int, d: int)
    ensures
        fadd(fadd(a, b), fadd(c, d)) == fadd(fadd(a, c), fadd(b, d)),
{
    lemma_add_mod_noop(a + b, c + d, p());
    lemma_add_mod_noop(a + c, b + d, p());
}

/// Evaluation is additive.
pub proof fn lemma_eval_padd(a: Seq<int>, b: Seq<int>, x: int)
    requires
        coeffs_in_field(a),
        coeffs_in_field(b),
    ensures
        poly_eval(padd(a, b), x) == fadd(poly_eval(a, x), poly_eval(b, x)),
    decreases a.len() + b.len(),
{
    if a.len() == 0 && b.len() == 0 {
        lemma_small_mod(0, MODULUS as nat);
    } else if a.len() == 0 {
        assert(padd(a, b) =~= b) by {
            assert forall|i: int| 0 <= i < b.len() implies padd(a, b)[i] == b[i] by {
                lemma_small_mod(b[i] as nat, MODULUS as nat);
            }
        }
        lemma_poly_eval_in_field(b, x);
        lemma_small_mod(poly_eval(b, x) as nat, MODULUS as nat);
    } else if b.len() == 0 {
        assert(padd(a, b) =~= a) by {
            assert forall|i: int| 0 <= i < a.len() implies padd(a, b)[i] == a[i] by {
                lemma_small_mod(a[i] as nat, MODULUS as nat);
            }
        }
        lemma_poly_eval_in_field(a, x);
        lemma_small_mod(poly_eval(a, x) as nat, MODULUS as nat);
    } else {
        let at = a.drop_first();
        let bt = b.drop_first();
        assert(padd(a, b).drop_first() =~= padd(at, bt));
        lemma_eval_padd(at, bt, x);
        let ea = poly_eval(at, x);
        let eb = poly_eval(bt, x);
        lemma_fmul_distributes(x, ea, eb);
        lemma_fadd_regroup(a[0], b[0], fmul(x, ea), fmul(x, eb));
        assert(poly_eval(padd(a, b), x)
            == fadd(fadd(a[0], b[0]), fmul(x, fadd(ea, eb))));
    }
}

/// Evaluation commutes with scaling.
pub proof fn lemma_eval_pscale(k: int, c: Seq<int>, x: int)
    ensures
        poly_eval(pscale(k, c), x) == fmul(k, poly_eval(c, x)),
    decreases c.len(),
{
    if c.len() == 0 {
        lemma_fmul_zero(k);
    } else {
        let ct = c.drop_first();
        assert(pscale(k, c).drop_first() =~= pscale(k, ct));
        lemma_eval_pscale(k, ct, x);
        let e = poly_eval(ct, x);
        // fadd(fmul(k, c0), fmul(x, fmul(k, e))) == fmul(k, fadd(c0, fmul(x, e)))
        lemma_fmul_distributes(k, c[0], fmul(x, e));
        assert(fmul(x, fmul(k, e)) == fmul(k, fmul(x, e))) by {
            lemma_fmul_assoc(x, k, e);
            lemma_fmul_comm(x, k);
            lemma_fmul_assoc(k, x, e);
        }
    }
}

/// The quotient of `c - c(x0)` by `x - x0`: the synthetic-division
/// coefficients, one degree lower than `c`.
pub open spec fn quot(c: Seq<int>, x0: int) -> Seq<int>
    decreases c.len(),
{
    if c.len() <= 1 {
        Seq::empty()
    } else {
        padd(c.drop_first(), pscale(x0, quot(c.drop_first(), x0)))
    }
}

pub proof fn lemma_quot_len(c: Seq<int>, x0: int)
    requires
        c.len() >= 1,
    ensures
        quot(c, x0).len() == c.len() - 1,
    decreases c.len(),
{
    if c.len() >= 2 {
        lemma_quot_len(c.drop_first(), x0);
    }
}

pub proof fn lemma_quot_in_field(c: Seq<int>, x0: int)
    ensures
        coeffs_in_field(quot(c, x0)),
    decreases c.len(),
{
    if c.len() <= 1 {
    } else {
        assert forall|i: int| 0 <= i < quot(c, x0).len() implies in_field(#[trigger] quot(c, x0)[i]) by {
            lemma_mod_range(
                at_or_zero(c.drop_first(), i) + at_or_zero(pscale(x0, quot(c.drop_first(), x0)), i),
            );
        }
    }
}

/// `fadd`, `fsub` and `fmul` reduce their exact integer counterparts.
proof fn lemma_ops_cong(a: int, b: int)
    ensures
        cong(fadd(a, b), a + b),
        cong(fsub(a, b), a - b),
        cong(fmul(a, b), a * b),
{
    lemma_cong_mod(a + b);
    lemma_cong_mod(a - b);
    lemma_cong_mod(a * b);
}

/// The fundamental property of synthetic division:
/// `c(x) - c(x0) == (x - x0) * quot(c, x0)(x)` in the field.
#[verifier::spinoff_prover]
#[verifier::rlimit(100)]
pub proof fn lemma_eval_quot(c: Seq<int>, x0: int, x: int)
    requires
        c.len() >= 1,
        coeffs_in_field(c),
    ensures
        fsub(poly_eval(c, x), poly_eval(c, x0)) == fmul(fsub(x, x0), poly_eval(quot(c, x0), x)),
    decreases c.len(),
{
    if c.len() == 1 {
        // both sides are zero
        lemma_fmul_zero(x);
        lemma_fmul_zero(poly_eval(c.drop_first(), x));
        lemma_fmul_zero(poly_eval(c.drop_first(), x0));
        lemma_fmul_zero(fsub(x, x0));
        lemma_small_mod(0, MODULUS as nat);
    } else {
        let t = c.drop_first();
        lemma_eval_quot(t, x0, x);
        let tx = poly_eval(t, x);
        let t0 = poly_eval(t, x0);
        let q1 = quot(t, x0);
        let q1x = poly_eval(q1, x);
        lemma_eval_padd(t, pscale(x0, q1), x);
        lemma_eval_pscale(x0, q1, x);
        let qx = poly_eval(quot(c, x0), x);
        assert(qx == fadd(tx, fmul(x0, q1x)));

        // Everything below is congruence arithmetic over the integers.
        let lhs = fsub(poly_eval(c, x), poly_eval(c, x0));
        let rhs = fmul(fsub(x, x0), qx);

        // lhs == (c0 + x*tx) - (c0 + x0*t0)  (mod p)
        lemma_ops_cong(c[0], fmul(x, tx));
        lemma_ops_cong(c[0], fmul(x0, t0));
        lemma_ops_cong(x, tx);
        lemma_ops_cong(x0, t0);
        lemma_cong_refl(c[0]);
        lemma_cong_add(c[0], c[0], fmul(x, tx), x * tx);
        lemma_cong_add(c[0], c[0], fmul(x0, t0), x0 * t0);
        lemma_cong_trans(poly_eval(c, x), c[0] + fmul(x, tx), c[0] + x * tx);
        lemma_cong_trans(poly_eval(c, x0), c[0] + fmul(x0, t0), c[0] + x0 * t0);
        lemma_ops_cong(poly_eval(c, x), poly_eval(c, x0));
        lemma_cong_sub(
            poly_eval(c, x),
            c[0] + x * tx,
            poly_eval(c, x0),
            c[0] + x0 * t0,
        );
        lemma_cong_trans(lhs, poly_eval(c, x) - poly_eval(c, x0), x * tx - x0 * t0);

        // rhs == (x - x0) * (tx + x0*q1x)  (mod p)
        lemma_ops_cong(x, x0);
        lemma_ops_cong(tx, fmul(x0, q1x));
        lemma_ops_cong(x0, q1x);
        lemma_cong_refl(tx);
        lemma_cong_add(tx, tx, fmul(x0, q1x), x0 * q1x);
        lemma_cong_trans(qx, tx + fmul(x0, q1x), tx + x0 * q1x);
        lemma_cong_mul(fsub(x, x0), x - x0, qx, tx + x0 * q1x);
        lemma_ops_cong(fsub(x, x0), qx);
        lemma_cong_trans(rhs, fsub(x, x0) * qx, (x - x0) * (tx + x0 * q1x));

        // the inductive hypothesis, as a congruence
        lemma_ops_cong(tx, t0);
        lemma_ops_cong(x, x0);
        lemma_cong_sym(fsub(tx, t0), tx - t0);
        lemma_cong_mul(fsub(x, x0), x - x0, q1x, q1x);
        lemma_cong_refl(q1x);
        lemma_cong_trans(tx - t0, fsub(tx, t0), fmul(fsub(x, x0), q1x));
        lemma_cong_trans(tx - t0, fmul(fsub(x, x0), q1x), fsub(x, x0) * q1x);
        lemma_cong_trans(tx - t0, fsub(x, x0) * q1x, (x - x0) * q1x);

        // ring identities over the integers
        let d = x - x0;
        assert(x * tx - x0 * t0 == d * tx + x0 * (tx - t0)) by (nonlinear_arith)
            requires
                d == x - x0,
        ;
        assert(d * (tx + x0 * q1x) == d * tx + x0 * (d * q1x)) by (nonlinear_arith);

        // combine: x*tx - x0*t0 == d*(tx + x0*q1x)  (mod p)
        lemma_cong_refl(x0);
        lemma_cong_mul(x0, x0, tx - t0, d * q1x);
        lemma_cong_refl(d * tx);
        lemma_cong_add(d * tx, d * tx, x0 * (tx - t0), x0 * (d * q1x));

        lemma_cong_trans(lhs, x * tx - x0 * t0, d * tx + x0 * (d * q1x));
        lemma_cong_sym(rhs, d * tx + x0 * (d * q1x));
        lemma_cong_trans(lhs, d * tx + x0 * (d * q1x), rhs);
        lemma_mod_range(poly_eval(c, x) - poly_eval(c, x0));
        lemma_mod_range(fsub(x, x0) * qx);
        lemma_cong_to_eq(lhs, rhs);
    }
}

/// Differences of pairwise-distinct canonical evaluation points are
/// invertible when the points lie among the first thirty-two: the field
/// module's witness table supplies each inverse.
pub proof fn lemma_points_diffs_invertible(xs: Seq<int>)
    requires
        forall|i: int| 0 <= i < xs.len() ==> 1 <= #[trigger] xs[i] <= 32,
        forall|i: int, j: int|
            0 <= i < xs.len() && 0 <= j < xs.len() && i != j ==> xs[i] != xs[j],
    ensures
        diffs_invertible(xs),
{
    assert forall|i: int, j: int|
        0 <= i < xs.len() && 0 <= j < xs.len() && i != j
            implies has_inv(#[trigger] fsub(xs[i], xs[j])) by {
        let d = xs[i] - xs[j];
        if d > 0 {
            lemma_small_mod(d as nat, MODULUS as nat);
            lemma_small_invertible(d);
        } else {
            lemma_mod_add_multiples_vanish(d, p());
            lemma_small_mod((p() + d) as nat, MODULUS as nat);
            lemma_small_invertible(0 - d);
            assert(fsub(xs[i], xs[j]) == p() + d);
        }
    }
}

/// The mathematical samples of an executable sample vector.
pub open spec fn pts_view(s: Seq<(u64, u64)>) -> Seq<(int, int)> {
    s.map_values(|pr: (u64, u64)| (pr.0 as int, pr.1 as int))
}

/// All sample coordinates are canonical representatives.
pub open spec fn pts_canonical(s: Seq<(u64, u64)>) -> bool {
    forall|i: int| 0 <= i < s.len() ==> (#[trigger] s[i]).0 < MODULUS && s[i].1 < MODULUS
}

/// Evaluates at zero the polynomial interpolating the given samples, by
/// the Newton scheme, computing each divided difference with a modular
/// inverse.  Returns `None` exactly when some difference of two needed
/// sample points has no inverse; with a prime modulus that can only
/// happen when two sample points coincide.
pub fn interpolate_at_zero(pts: &Vec<(u64, u64)>) -> (r: Option<u64>)
    requires
        pts@.len() >= 1,
        pts_canonical(pts@),
    ensures
        match r {
            Some(v) => v < MODULUS && v as int == newton_at_zero(pts_view(pts@)),
            None => !diffs_invertible(xs_of(pts_view(pts@))),
        },
    decreases pts@.len(),
{
    let ghost pv = pts_view(pts@);
    let n = pts.len();
    if n == 1 {
        proof {
            lemma_small_mod(pts@[0].1 as nat, MODULUS as nat);
        }
        return Some(pts[0].1);
    }
    let x0 = pts[0].0;
    let y0 = pts[0].1;
    let mut tail: Vec<(u64, u64)> = Vec::new();
    let mut i: usize = 1;
    while i < n
        invariant
            1 <= i <= n,
            n == pts@.len(),
            n >= 2,
            pts_canonical(pts@),
            pv == pts_view(pts@),
            x0 == pts@[0].0,
            y0 == pts@[0].1,
            tail@.len() == i - 1,
            pts_canonical(tail@),
            forall|k: int| 0 <= k < i - 1
                ==> #[trigger] pts_view(tail@)[k] == newton_tail(pv)[k],
        decreases n - i,
    {
        let xi = pts[i].0;
        let yi = pts[i].1;
        let d = sub_mod(xi, x0);
        let iv = match (Fe { v: d }).inv() {
            Some(f) => f,
            None => {
                proof {
                    let xs = xs_of(pv);
                    assert(xs[i as int] == xi as int && xs[0] == x0 as int);
                    assert(d as int == fsub(xs[i as int], xs[0]));
                    if diffs_invertible(xs) {
                        assert(has_inv(fsub(xs[i as int], xs[0])));
                        assert(false);
                    }
                }
                return None;
            },
        };
        let w = mul_mod(sub_mod(yi, y0), iv.v);
        proof {
            let d_spec = fsub(pv[i as int].0, pv[0].0);
            assert(d as int == d_spec);
            assert(has_inv(d_spec));
            lemma_inv_unique(d_spec, iv@, inv_p(d_spec));
            assert(pts_view(tail@.push((xi, w)))[i - 1] == newton_tail(pv)[i - 1]);
            assert(forall|k: int| 0 <= k < i - 1
                ==> #[trigger] pts_view(tail@.push((xi, w)))[k] == pts_view(tail@)[k]);
        }
        tail.push((xi, w));
        i += 1;
    }
    proof {
        assert(pts_view(tail@) =~= newton_tail(pv));
    }
    match interpolate_at_zero(&tail) {
        Some(v2) => {
            let res = sub_mod(y0, mul_mod(x0, v2));
            proof {
                assert(newton_at_zero(pv) == fsub(
                    pv[0].1,
                    fmul(pv[0].0, newton_at_zero(newton_tail(pv))),
                ));
            }
            Some(res)
        },
        None => {
            proof {
                if diffs_invertible(xs_of(pv)) {
                    lemma_newton_tail_invertible(pv);
                    assert(false);
                }
            }
            None
        },
    }
}

/// The evaluation points of a sample sequence.
pub open spec fn xs_of(pts: Seq<(int, int)>) -> Seq<int> {
    pts.map_values(|pr: (int, int)| pr.0)
}

/// Every sample coordinate is a canonical field representative.
pub open spec fn pts_in_field(pts: Seq<(int, int)>) -> bool {
    forall|i: int| 0 <= i < pts.len()
        ==> in_field(#[trigger] pts[i].0) && in_field(pts[i].1)
}

/// `c` is a polynomial of degree below the sample count whose graph passes
/// through every sample.
pub open spec fn fits(c: Seq<int>, pts: Seq<(int, int)>) -> bool {
    &&& c.len() == pts.len()
    &&& coeffs_in_field(c)
    &&& forall|i: int| 0 <= i < pts.len() ==> poly_eval(c, #[trigger] pts[i].0) == pts[i].1
}

/// Every difference of two distinct evaluation points has an inverse.
/// For a prime modulus this holds of all pairwise-distinct points.
pub open spec fn diffs_invertible(xs: Seq<int>) -> bool {
    forall|i: int, j: int|
        0 <= i < xs.len() && 0 <= j < xs.len() && i != j
            ==> has_inv(#[trigger] fsub(xs[i], xs[j]))
}

/// One Newton step: fold the first sample away, replacing each remaining
/// sample value by its divided difference against the first sample.
pub open spec fn newton_tail(pts: Seq<(int, int)>) -> Seq<(int, int)>
    recommends
        pts.len() >= 1,
{
    Seq::new(
        (pts.len() - 1) as nat,
        |i: int|
            (
                pts[i + 1].0,
                fmul(fsub(pts[i + 1].1, pts[0].1), inv_p(fsub(pts[i + 1].0, pts[0].0))),
            ),
    )
}

/// The value at zero of the polynomial interpolating the samples, by the
/// recursive Newton scheme.
pub open spec fn newton_at_zero(pts: Seq<(int, int)>) -> int
    decreases pts.len(),
{
    if pts.len() == 0 {
        0
    } else if pts.len() == 1 {
        pts[0].1 % p()
    } else {
        fsub(pts[0].1, fmul(pts[0].0, newton_at_zero(newton_tail(pts))))
    }
}

pub proof fn lemma_newton_in_field(pts: Seq<(int, int)>)
    ensures
        in_field(newton_at_zero(pts)),
{
    if pts.len() == 0 {
    } else if pts.len() == 1 {
        lemma_mod_range(pts[0].1);
    } else {
        lemma_mod_range(pts[0].1 - fmul(pts[0].0, newton_at_zero(newton_tail(pts))));
    }
}

/// Invertibility of point differences is inherited by the Newton tail.
pub proof fn lemma_newton_tail_invertible(pts: Seq<(int, int)>)
    requires
        pts.len() >= 1,
        diffs_invertible(xs_of(pts)),
    ensures
        diffs_invertible(xs_of(newton_tail(pts))),
{
    let xs = xs_of(pts);
    let xs2 = xs_of(newton_tail(pts));
    assert forall|i: int, j: int|
        0 <= i < xs2.len() && 0 <= j < xs2.len() && i != j
            implies has_inv(#[trigger] fsub(xs2[i], xs2[j])) by {
        assert(xs2[i] == xs[i + 1]);
        assert(xs2[j] == xs[j + 1]);
        assert(has_inv(fsub(xs[i + 1], xs[j + 1])));
    }
}

/// The quotient polynomial of the first sample fits the folded samples.
#[verifier::spinoff_prover]
#[verifier::rlimit(100)]
proof fn lemma_quot_fits_tail(c: Seq<int>, pts: Seq<(int, int)>)
    requires
        fits(c, pts),
        pts.len() >= 2,
        pts_in_field(pts),
        diffs_invertible(xs_of(pts)),
    ensures
        fits(quot(c, pts[0].0), newton_tail(pts)),
        pts_in_field(newton_tail(pts)),
{
    let xs = xs_of(pts);
    let x0 = pts[0].0;
    let y0 = pts[0].1;
    let q = quot(c, x0);
    lemma_quot_len(c, x0);
    lemma_quot_in_field(c, x0);
    let pts2 = newton_tail(pts);
    assert forall|i: int| 0 <= i < pts2.len()
        implies poly_eval(q, #[trigger] pts2[i].0) == pts2[i].1 by {
        let xi = pts[i + 1].0;
        let yi = pts[i + 1].1;
        assert(xs[i + 1] == xi && xs[0] == x0);
        assert(has_inv(fsub(xs[i + 1], xs[0])));
        let d = fsub(xi, x0);
        let iv = inv_p(d);
        assert(in_field(iv) && fmul(d, iv) == 1);
        lemma_eval_quot(c, x0, xi);
        assert(poly_eval(c, xi) == yi);
        assert(poly_eval(c, x0) == y0);
        lemma_poly_eval_in_field(q, xi);
        lemma_fmul_cancel(d, poly_eval(q, xi), fsub(yi, y0), iv);
    }
    assert forall|i: int| 0 <= i < pts2.len()
        implies in_field(#[trigger] pts2[i].0) && in_field(pts2[i].1) by {
        lemma_mod_range(
            (pts[i + 1].1 - pts[0].1) % p() * inv_p(fsub(pts[i + 1].0, pts[0].0)),
        );
    }
}

/// Folding the division identity at zero back into the constant term.
#[verifier::spinoff_prover]
proof fn lemma_fold_constant(c0: int, y0: int, x0: int, q0: int)
    requires
        in_field(c0),
        fsub(c0, y0) == fmul(fsub(0, x0), q0),
    ensures
        fsub(y0, fmul(x0, q0)) == c0,
{
    let g = fsub(y0, fmul(x0, q0));
    lemma_ops_cong(y0, fmul(x0, q0));
    lemma_ops_cong(x0, q0);
    lemma_cong_refl(y0);
    lemma_cong_sub(y0, y0, fmul(x0, q0), x0 * q0);
    lemma_cong_trans(g, y0 - fmul(x0, q0), y0 - x0 * q0);

    lemma_ops_cong(c0, y0);
    lemma_ops_cong(0, x0);
    lemma_cong_refl(q0);
    lemma_cong_mul(fsub(0, x0), 0 - x0, q0, q0);
    lemma_ops_cong(fsub(0, x0), q0);
    lemma_cong_trans(fsub(c0, y0), fsub(0, x0) * q0, (0 - x0) * q0);
    assert((0 - x0) * q0 == 0 - x0 * q0) by (nonlinear_arith);
    lemma_cong_add(c0 - y0, 0 - x0 * q0, y0, y0);
    assert(cong(c0, y0 - x0 * q0));
    lemma_cong_sym(g, y0 - x0 * q0);
    lemma_cong_trans(c0, y0 - x0 * q0, g);
    lemma_mod_range(y0 - fmul(x0, q0));
    lemma_cong_to_eq(c0, g);
}

/// The heart of Shamir reconstruction: on samples that are evaluations of
/// a polynomial `c`, with the sample count equal to the coefficient count
/// and all point differences invertible, the Newton scheme at zero returns
/// the constant term `c[0]`.
#[verifier::spinoff_prover]
#[verifier::rlimit(100)]
pub proof fn lemma_newton_recovers(c: Seq<int>, pts: Seq<(int, int)>)
    requires
        fits(c, pts),
        pts.len() >= 1,
        pts_in_field(pts),
        diffs_invertible(xs_of(pts)),
    ensures
        newton_at_zero(pts) == c[0],
    decreases pts.len(),
{
    if pts.len() == 1 {
        lemma_fmul_zero(poly_eval(c.drop_first(), pts[0].0));
        lemma_small_mod(c[0] as nat, MODULUS as nat);
        assert(poly_eval(c, pts[0].0) == c[0]);
    } else {
        let x0 = pts[0].0;
        let y0 = pts[0].1;
        let q = quot(c, x0);
        lemma_quot_len(c, x0);
        lemma_quot_in_field(c, x0);
        let pts2 = newton_tail(pts);
        lemma_quot_fits_tail(c, pts);
        lemma_newton_tail_invertible(pts);
        lemma_newton_recovers(q, pts2);
        let q0 = q[0];
        assert(newton_at_zero(pts2) == q0);

        // Relate the constant terms through the division identity at zero.
        lemma_eval_quot(c, x0, 0);
        lemma_poly_eval_at_zero(c);
        lemma_poly_eval_at_zero(q);
        assert(poly_eval(c, x0) == y0);
        lemma_fold_constant(c[0], y0, x0, q0);
        assert(newton_at_zero(pts) == fsub(y0, fmul(x0, q0)));
    }
}


} // verus!
