//! The pipeline's scalar field: integers modulo a fixed prime, with the
//! modular arithmetic that the share codec is built on.
//!
//! Field values are canonical representatives in `[0, MODULUS)`.  The spec
//! functions `fadd`, `fsub`, `fmul` and `fneg` define the field operations
//! over mathematical integers; every executable operation on [`Fe`] is
//! proved to agree with them.

use vstd::prelude::*;
use vstd::arithmetic::div_mod::{
    lemma_add_mod_noop, lemma_fundamental_div_mod, lemma_mod_add_multiples_vanish,
    lemma_mod_bound, lemma_mod_equivalence, lemma_mod_multiples_basic,
    lemma_mod_multiples_vanish, lemma_mod_twice,
    lemma_mul_mod_noop_general, lemma_small_mod, lemma_sub_mod_noop,
};
use vstd::arithmetic::mul::{
    lemma_mul_is_associative, lemma_mul_is_commutative, lemma_mul_is_distributive_add,
    lemma_mul_upper_bound,
};

verus! {

/// The prime modulus of the scalar field used by the whole pipeline run.
pub const MODULUS: u64 = 2305843009213693951;

/// The modulus as a mathematical integer.
pub open spec fn p() -> int {
    MODULUS as int
}

/// An integer is a canonical field representative when it lies in `[0, p())`.
pub open spec fn in_field(x: int) -> bool {
    0 <= x < p()
}

/// Field addition on integer representatives.
pub open spec fn fadd(a: int, b: int) -> int {
    (a + b) % p()
}

/// Field subtraction on integer representatives.
pub open spec fn fsub(a: int, b: int) -> int {
    (a - b) % p()
}

/// Field multiplication on integer representatives.
pub open spec fn fmul(a: int, b: int) -> int {
    (a * b) % p()
}

/// Field negation on integer representatives.
pub open spec fn fneg(a: int) -> int {
    (0 - a) % p()
}

/// Two integers are congruent when their difference is a multiple of `p()`.
pub open spec fn cong(a: int, b: int) -> bool {
    (a - b) % p() == 0
}

/// `a` has a multiplicative inverse in the field.
pub open spec fn has_inv(a: int) -> bool {
    exists|y: int| in_field(y) && #[trigger] fmul(a, y) == 1
}

/// The multiplicative inverse of `a`, where one exists.
pub open spec fn inv_p(a: int) -> int {
    choose|y: int| in_field(y) && #[trigger] fmul(a, y) == 1
}

/// `d` divides `n`.
pub open spec fn divides(d: int, n: int) -> bool {
    exists|k: int| n == #[trigger] (d * k)
}

pub proof fn lemma_mod_range(x: int)
    ensures
        in_field(x % p()),
{
    lemma_mod_bound(x, p());
}

pub proof fn lemma_cong_refl(a: int)
    ensures
        cong(a, a),
{
    lemma_mod_bound(0, p());
    lemma_small_mod(0, MODULUS as nat);
}

pub proof fn lemma_cong_sym(a: int, b: int)
    requires
        cong(a, b),
    ensures
        cong(b, a),
{
    lemma_mod_equivalence(a, b, p());
    lemma_mod_equivalence(b, a, p());
}

pub proof fn lemma_cong_trans(a: int, b: int, c: int)
    requires
        cong(a, b),
        cong(b, c),
    ensures
        cong(a, c),
{
    lemma_mod_equivalence(a, b, p());
    lemma_mod_equivalence(b, c, p());
    lemma_mod_equivalence(a, c, p());
}

/// Reducing an integer modulo `p()` keeps it in the same congruence class.
pub proof fn lemma_cong_mod(a: int)
    ensures
        cong(a % p(), a),
        in_field(a % p()),
{
    lemma_mod_twice(a, p());
    lemma_sub_mod_noop(a % p(), a, p());
    lemma_small_mod(0, MODULUS as nat);
    lemma_mod_bound(a, p());
}

pub proof fn lemma_cong_add(a: int, b: int, c: int, d: int)
    requires
        cong(a, b),
        cong(c, d),
    ensures
        cong(a + c, b + d),
{
    lemma_add_mod_noop(a - b, c - d, p());
    lemma_small_mod(0, MODULUS as nat);
}

pub proof fn lemma_cong_sub(a: int, b: int, c: int, d: int)
    requires
        cong(a, b),
        cong(c, d),
    ensures
        cong(a - c, b - d),
{
    lemma_sub_mod_noop(a - b, c - d, p());
    lemma_small_mod(0, MODULUS as nat);
}

pub proof fn lemma_cong_mul(a: int, b: int, c: int, d: int)
    requires
        cong(a, b),
        cong(c, d),
    ensures
        cong(a * c, b * d),
{
    lemma_fundamental_div_mod(a - b, p());
    lemma_fundamental_div_mod(c - d, p());
    let k1 = (a - b) / p();
    let k2 = (c - d) / p();
    assert(a * c - b * d == (c * k1 + b * k2) * p()) by (nonlinear_arith)
        requires
            a - b == p() * k1,
            c - d == p() * k2,
    ;
    lemma_mod_multiples_basic(c * k1 + b * k2, p());
}

/// Congruent canonical representatives are equal.
pub proof fn lemma_cong_to_eq(a: int, b: int)
    requires
        cong(a, b),
        in_field(a),
        in_field(b),
    ensures
        a == b,
{
    lemma_mod_equivalence(a, b, p());
    lemma_small_mod(a as nat, MODULUS as nat);
    lemma_small_mod(b as nat, MODULUS as nat);
}

/// Congruent integers have the same canonical representative.
pub proof fn lemma_cong_to_mod_eq(a: int, b: int)
    requires
        cong(a, b),
    ensures
        a % p() == b % p(),
{
    lemma_mod_equivalence(a, b, p());
}

pub proof fn lemma_fmul_comm(a: int, b: int)
    ensures
        fmul(a, b) == fmul(b, a),
{
    lemma_mul_is_commutative(a, b);
}

pub proof fn lemma_fmul_assoc(a: int, b: int, c: int)
    ensures
        fmul(fmul(a, b), c) == fmul(a, fmul(b, c)),
{
    lemma_mul_mod_noop_general(a * b, c, p());
    lemma_mul_mod_noop_general(a, b * c, p());
    lemma_mul_is_associative(a, b, c);
}

/// Multiplying a canonical representative by one is the identity.
pub proof fn lemma_fmul_one(a: int)
    requires
        in_field(a),
    ensures
        fmul(1, a) == a,
        fmul(a, 1) == a,

{
    lemma_small_mod(a as nat, MODULUS as nat);
}

pub proof fn lemma_fmul_zero(a: int)
    ensures
        fmul(0, a) == 0,
        fmul(a, 0) == 0,
{
    lemma_small_mod(0, MODULUS as nat);
}

/// Field multiplication distributes over field addition.
pub proof fn lemma_fmul_distributes(a: int, b: int, c: int)
    ensures
        fmul(a, fadd(b, c)) == fadd(fmul(a, b), fmul(a, c)),
{
    lemma_mul_mod_noop_general(a, b + c, p());
    lemma_mul_is_distributive_add(a, b, c);
    lemma_add_mod_noop(a * b, a * c, p());
}

/// Multiplication by a fixed factor respects congruence of the other factor.
pub proof fn lemma_fmul_congruent_arg(a: int, b: int, c: int)
    requires
        cong(b, c),
    ensures
        fmul(a, b) == fmul(a, c),
{
    lemma_cong_refl(a);
    lemma_cong_mul(a, a, b, c);
    lemma_cong_to_mod_eq(a * b, a * c);
}

/// Two inverses of the same field element are equal.
pub proof fn lemma_inv_unique(a: int, y1: int, y2: int)
    requires
        in_field(y1),
        in_field(y2),
        fmul(a, y1) == 1,
        fmul(a, y2) == 1,
    ensures
        y1 == y2,
{
    // y1 == y1 * (a * y2) == (y1 * a) * y2 == (a * y1) * y2 == 1 * y2 == y2
    lemma_fmul_one(y1);
    lemma_cong_mod(a * y2);
    lemma_fmul_congruent_arg(y1, fmul(a, y2), a * y2);
    lemma_fmul_assoc(y1, a, y2);
    lemma_fmul_comm(y1, a);
    lemma_cong_mod(a * y1);
    lemma_fmul_congruent_arg(y2, fmul(a, y1), a * y1);
    lemma_fmul_comm(y2, fmul(a, y1));
    lemma_fmul_one(y2);
    lemma_fmul_comm(y2, 1);
}

/// Cancellation: from `d * t == s` and `d * y == 1` it follows that
/// `t == s * y`, all in the field.
pub proof fn lemma_fmul_cancel(d: int, t: int, s: int, y: int)
    requires
        in_field(t),
        fmul(d, t) == s,
        fmul(d, y) == 1,
    ensures
        t == fmul(s, y),
{
    // s * y == (d * t) * y == (t * d) * y == t * (d * y) == t * 1 == t
    lemma_cong_mod(d * t);
    lemma_fmul_comm(s, y);
    lemma_fmul_congruent_arg(y, fmul(d, t), d * t);
    lemma_fmul_comm(y, d * t);
    lemma_fmul_assoc(d, t, y);
    lemma_fmul_comm(t, y);
    lemma_fmul_assoc(d, y, t);
    lemma_cong_mod(d * y);
    lemma_fmul_congruent_arg(t, fmul(d, y), d * y);
    lemma_fmul_comm(t, d * y);
    lemma_fmul_one(t);
}


/// From an inverse of `a`, an inverse of `p() - a`.
pub proof fn lemma_neg_inv(a: int)
    requires
        1 <= a < p(),
        has_inv(a),
    ensures
        has_inv(p() - a),
{
    let y = choose|y: int| in_field(y) && #[trigger] fmul(a, y) == 1;
    assert(y >= 1) by {
        if y == 0 {
            lemma_fmul_zero(a);
        }
    }
    assert((p() - a) * (p() - y) == p() * (p() - a - y) + a * y) by (nonlinear_arith);
    lemma_mod_multiples_vanish(p() - a - y, a * y, p());
    assert(fmul(p() - a, p() - y) == 1);
    assert(in_field(p() - y));
    assert(has_inv(p() - a));
}

/// Small field elements and their negations are invertible: the
/// inverses of one through thirty-one, precomputed, witness it.  These
/// are the differences of canonical evaluation points when at most
/// thirty-two parties share.
pub proof fn lemma_small_invertible(d: int)
    requires
        1 <= d <= 31,
    ensures
        has_inv(d),
        has_inv(p() - d),
{
    if d == 1 {
        assert(fmul(1, 1) == 1) by (nonlinear_arith);
        assert(in_field(1));
        assert(has_inv(d));
    } else if d == 2 {
        assert(fmul(2, 1152921504606846976) == 1) by (nonlinear_arith);
        assert(in_field(1152921504606846976));
        assert(has_inv(d));
    } else if d == 3 {
        assert(fmul(3, 1537228672809129301) == 1) by (nonlinear_arith);
        assert(in_field(1537228672809129301));
        assert(has_inv(d));
    } else if d == 4 {
        assert(fmul(4, 576460752303423488) == 1) by (nonlinear_arith);
        assert(in_field(576460752303423488));
        assert(has_inv(d));
    } else if d == 5 {
        assert(fmul(5, 1844674407370955161) == 1) by (nonlinear_arith);
        assert(in_field(1844674407370955161));
        assert(has_inv(d));
    } else if d == 6 {
        assert(fmul(6, 1921535841011411626) == 1) by (nonlinear_arith);
        assert(in_field(1921535841011411626));
        assert(has_inv(d));
    } else if d == 7 {
        assert(fmul(7, 1976436865040309101) == 1) by (nonlinear_arith);
        assert(in_field(1976436865040309101));
        assert(has_inv(d));
    } else if d == 8 {
        assert(fmul(8, 288230376151711744) == 1) by (nonlinear_arith);
        assert(in_field(288230376151711744));
        assert(has_inv(d));
    } else if d == 9 {
        assert(fmul(9, 2049638230412172401) == 1) by (nonlinear_arith);
        assert(in_field(2049638230412172401));
        assert(has_inv(d));
    } else if d == 10 {
        assert(fmul(10, 2075258708292324556) == 1) by (nonlinear_arith);
        assert(in_field(2075258708292324556));
        assert(has_inv(d));
    } else if d == 11 {
        assert(fmul(11, 2096220917466994501) == 1) by (nonlinear_arith);
        assert(in_field(2096220917466994501));
        assert(has_inv(d));
    } else if d == 12 {
        assert(fmul(12, 960767920505705813) == 1) by (nonlinear_arith);
        assert(in_field(960767920505705813));
        assert(has_inv(d));
    } else if d == 13 {
        assert(fmul(13, 2128470470043409801) == 1) by (nonlinear_arith);
        assert(in_field(2128470470043409801));
        assert(has_inv(d));
    } else if d == 14 {
        assert(fmul(14, 2141139937127001526) == 1) by (nonlinear_arith);
        assert(in_field(2141139937127001526));
        assert(has_inv(d));
    } else if d == 15 {
        assert(fmul(15, 2152120141932781021) == 1) by (nonlinear_arith);
        assert(in_field(2152120141932781021));
        assert(has_inv(d));
    } else if d == 16 {
        assert(fmul(16, 144115188075855872) == 1) by (nonlinear_arith);
        assert(in_field(144115188075855872));
        assert(has_inv(d));
    } else if d == 17 {
        assert(fmul(17, 813826944428362571) == 1) by (nonlinear_arith);
        assert(in_field(813826944428362571));
        assert(has_inv(d));
    } else if d == 18 {
        assert(fmul(18, 2177740619812933176) == 1) by (nonlinear_arith);
        assert(in_field(2177740619812933176));
        assert(has_inv(d));
    } else if d == 19 {
        assert(fmul(19, 1941762534074689643) == 1) by (nonlinear_arith);
        assert(in_field(1941762534074689643));
        assert(has_inv(d));
    } else if d == 20 {
        assert(fmul(20, 1037629354146162278) == 1) by (nonlinear_arith);
        assert(in_field(1037629354146162278));
        assert(has_inv(d));
    } else if d == 21 {
        assert(fmul(21, 2196040961155899001) == 1) by (nonlinear_arith);
        assert(in_field(2196040961155899001));
        assert(has_inv(d));
    } else if d == 22 {
        assert(fmul(22, 2201031963340344226) == 1) by (nonlinear_arith);
        assert(in_field(2201031963340344226));
        assert(has_inv(d));
    } else if d == 23 {
        assert(fmul(23, 401016175515425035) == 1) by (nonlinear_arith);
        assert(in_field(401016175515425035));
        assert(has_inv(d));
    } else if d == 24 {
        assert(fmul(24, 1633305464859699882) == 1) by (nonlinear_arith);
        assert(in_field(1633305464859699882));
        assert(has_inv(d));
    } else if d == 25 {
        assert(fmul(25, 2213609288845146193) == 1) by (nonlinear_arith);
        assert(in_field(2213609288845146193));
        assert(has_inv(d));
    } else if d == 26 {
        assert(fmul(26, 2217156739628551876) == 1) by (nonlinear_arith);
        assert(in_field(2217156739628551876));
        assert(has_inv(d));
    } else if d == 27 {
        assert(fmul(27, 1451827079875288784) == 1) by (nonlinear_arith);
        assert(in_field(1451827079875288784));
        assert(has_inv(d));
    } else if d == 28 {
        assert(fmul(28, 1070569968563500763) == 1) by (nonlinear_arith);
        assert(in_field(1070569968563500763));
        assert(has_inv(d));
    } else if d == 29 {
        assert(fmul(29, 1113165590654886735) == 1) by (nonlinear_arith);
        assert(in_field(1113165590654886735));
        assert(has_inv(d));
    } else if d == 30 {
        assert(fmul(30, 2228981575573237486) == 1) by (nonlinear_arith);
        assert(in_field(2228981575573237486));
        assert(has_inv(d));
    } else if d == 31 {
        assert(fmul(31, 2231460976658413501) == 1) by (nonlinear_arith);
        assert(in_field(2231460976658413501));
        assert(has_inv(d));
    } else {
        assert(false);
    }
    lemma_neg_inv(d);
}

/// A single element of the scalar field, kept as its canonical
/// representative.
#[derive(Clone, Copy, PartialEq, Eq, Structural, Debug, Hash)]
pub struct Fe {
    pub v: u64,
}

impl View for Fe {
    type V = int;

    open spec fn view(&self) -> int {
        self.v as int
    }
}

impl Fe {
    /// The representative is canonical.
    pub open spec fn valid(self) -> bool {
        self.v < MODULUS
    }

    /// Builds a field element, reducing the argument modulo the field prime.
    pub fn new(v: u64) -> (r: Fe)
        ensures
            r.valid(),
            r@ == v as int % p(),
    {
        Fe { v: v % MODULUS }
    }

    /// The additive identity.
    pub fn zero() -> (r: Fe)
        ensures
            r.valid(),
            r@ == 0,
    {
        Fe { v: 0 }
    }

    /// The multiplicative identity.
    pub fn one() -> (r: Fe)
        ensures
            r.valid(),
            r@ == 1,
    {
        Fe { v: 1 }
    }

    /// The canonical representative as a machine integer.
    pub fn value(self) -> (r: u64)
        ensures
            r == self.v,
            r as int == self@,
    {
        self.v
    }

    /// Tests for the additive identity.
    pub fn is_zero(self) -> (r: bool)
        ensures
            r == (self@ == 0),
    {
        self.v == 0
    }

    pub fn add(self, o: Fe) -> (r: Fe)
        requires
            self.valid(),
            o.valid(),
        ensures
            r.valid(),
            r@ == fadd(self@, o@),
    {
        Fe { v: (self.v + o.v) % MODULUS }
    }

    pub fn sub(self, o: Fe) -> (r: Fe)
        requires
            self.valid(),
            o.valid(),
        ensures
            r.valid(),
            r@ == fsub(self@, o@),
    {
        proof {
            lemma_mod_add_multiples_vanish(self@ - o@, p());
        }
        Fe { v: (self.v + (MODULUS - o.v)) % MODULUS }
    }

    pub fn neg(self) -> (r: Fe)
        requires
            self.valid(),
        ensures
            r.valid(),
            r@ == fneg(self@),
    {
        proof {
            lemma_mod_add_multiples_vanish(0 - self@, p());
        }
        Fe { v: (MODULUS - self.v) % MODULUS }
    }

    pub fn mul(self, o: Fe) -> (r: Fe)
        requires
            self.valid(),
            o.valid(),
        ensures
            r.valid(),
            r@ == fmul(self@, o@),
    {
        Fe { v: mul_mod(self.v, o.v) }
    }

    /// The multiplicative inverse, computed by the extended Euclidean
    /// algorithm.  Returns `None` exactly when no inverse exists, which
    /// for a prime modulus happens only for zero.
    pub fn inv(self) -> (r: Option<Fe>)
        requires
            self.valid(),
        ensures
            match r {
                Some(y) => y.valid() && fmul(self@, y@) == 1,
                None => !has_inv(self@),
            },
    {
        let a = self.v;
        let mut r0: u64 = MODULUS;
        let mut r1: u64 = a;
        // Bezout coefficients of `a`, tracked modulo the field prime.
        let mut s0: u64 = 0;
        let mut s1: u64 = 1;
        proof {
            lemma_small_mod(0, MODULUS as nat);
            assert(cong(a as int * s0 as int - r0 as int, 0)) by {
                assert(a as int * 0 == 0) by (nonlinear_arith);
                lemma_mod_add_multiples_vanish(0, p());
            }
            assert(cong(a as int * s1 as int - r1 as int, 0)) by {
                assert(a as int * 1 == a as int) by (nonlinear_arith);
            }
        }
        while r1 != 0
            invariant
                a < MODULUS,
                a == self.v,
                r1 < r0,
                r0 <= MODULUS,
                r0 >= 1,
                s0 < MODULUS,
                s1 < MODULUS,
                cong(a as int * s0 as int - r0 as int, 0),
                cong(a as int * s1 as int - r1 as int, 0),
                forall|d: int|
                    1 <= d && #[trigger] divides(d, r0 as int) && divides(d, r1 as int)
                        ==> divides(d, a as int) && divides(d, p()),
            decreases r1,
        {
            let q = r0 / r1;
            let r2 = r0 % r1;
            let ghost old_r0 = r0 as int;
            let ghost old_r1 = r1 as int;
            let ghost old_s0 = s0 as int;
            let ghost old_s1 = s1 as int;
            // s2 == s0 - q * s1 modulo the prime
            let qs = mul_mod(q % MODULUS, s1);
            let s2 = (s0 + (MODULUS - qs)) % MODULUS;
            proof {
                lemma_fundamental_div_mod(old_r0, old_r1);
                assert(r2 as int == old_r0 - q as int * old_r1);
                // congruence for the new coefficient
                lemma_cong_mod(q as int);
                lemma_cong_mul(q as int % p(), q as int, s1 as int, s1 as int);
                lemma_cong_mod((q as int % p()) * s1 as int);
                lemma_cong_trans(
                    qs as int,
                    (q as int % p()) * s1 as int,
                    q as int * s1 as int,
                );
                lemma_mod_add_multiples_vanish(s0 as int - qs as int, p());
                lemma_cong_mod(s0 as int + (MODULUS - qs) as int);
                assert(cong(s2 as int, s0 as int - qs as int));
                lemma_cong_sub(s0 as int, s0 as int, qs as int, q as int * s1 as int);
                lemma_cong_trans(s2 as int, s0 as int - qs as int, s0 as int - q as int * s1 as int);
                // a * s2 - r2 == (a * s0 - r0) - q * (a * s1 - r1)  (mod p)
                lemma_cong_refl(a as int);
                lemma_cong_mul(a as int, a as int, s2 as int, old_s0 - q as int * old_s1);
                assert(a as int * (old_s0 - q as int * old_s1)
                    == a as int * old_s0 - q as int * (a as int * old_s1)) by (nonlinear_arith);
                lemma_cong_refl(q as int);
                lemma_cong_mul(q as int, q as int, a as int * old_s1 - old_r1, 0);
                assert(q as int * (a as int * old_s1 - old_r1)
                    == q as int * (a as int * old_s1) - q as int * old_r1) by (nonlinear_arith);
                assert(q as int * 0 == 0) by (nonlinear_arith);
                lemma_cong_sub(
                    a as int * old_s0 - old_r0,
                    0,
                    q as int * (a as int * old_s1) - q as int * old_r1,
                    0,
                );
                assert(cong(
                    (a as int * old_s0 - old_r0) - (q as int * (a as int * old_s1) - q as int * old_r1),
                    0,
                ));
                assert(a as int * s2 as int - r2 as int
                    == (a as int * (s2 as int - (old_s0 - q as int * old_s1)))
                        + ((a as int * old_s0 - old_r0)
                            - (q as int * (a as int * old_s1) - q as int * old_r1))) by (nonlinear_arith)
                    requires
                        r2 as int == old_r0 - q as int * old_r1,
                ;
                lemma_cong_mul(a as int, a as int, s2 as int, old_s0 - q as int * old_s1);
                assert(a as int * (s2 as int - (old_s0 - q as int * old_s1))
                    == a as int * s2 as int - a as int * (old_s0 - q as int * old_s1)) by (nonlinear_arith);
                lemma_cong_sub(
                    a as int * s2 as int,
                    a as int * (old_s0 - q as int * old_s1),
                    a as int * (old_s0 - q as int * old_s1),
                    a as int * (old_s0 - q as int * old_s1),
                );
                lemma_cong_refl(a as int * (old_s0 - q as int * old_s1));
                lemma_cong_add(
                    a as int * s2 as int - a as int * (old_s0 - q as int * old_s1),
                    0,
                    (a as int * old_s0 - old_r0) - (q as int * (a as int * old_s1) - q as int * old_r1),
                    0,
                );
                assert(cong(a as int * s2 as int - r2 as int, 0));
                // divisor set is preserved
                assert forall|d: int|
                    1 <= d && #[trigger] divides(d, old_r1) && divides(d, r2 as int)
                        implies divides(d, a as int) && divides(d, p()) by {
                    let k1 = choose|k: int| old_r1 == #[trigger] (d * k);
                    let k2 = choose|k: int| r2 as int == #[trigger] (d * k);
                    assert(old_r0 == d * (k2 + q as int * k1)) by (nonlinear_arith)
                        requires
                            old_r1 == d * k1,
                            r2 as int == d * k2,
                            r2 as int == old_r0 - q as int * old_r1,
                    ;
                    assert(divides(d, old_r0));
                }
            }
            r0 = r1;
            r1 = r2;
            s0 = s1;
            s1 = s2;
        }
        if r0 == 1 {
            proof {
                // a * s0 is congruent to r0 == 1, so s0 is the inverse.
                lemma_mod_equivalence(a as int * s0 as int, 1, p());
                lemma_small_mod(1, MODULUS as nat);
            }
            Some(Fe { v: s0 })
        } else {
            proof {
                // r0 divides both a and the prime; an inverse of a would
                // make r0 divide 1, impossible for r0 >= 2.
                assert(r1 == 0);
                assert(divides(r0 as int, r0 as int)) by {
                    assert(r0 as int == r0 as int * 1) by (nonlinear_arith);
                }
                assert(divides(r0 as int, 0)) by {
                    assert(0 == r0 as int * 0) by (nonlinear_arith);
                }
                assert(divides(r0 as int, a as int) && divides(r0 as int, p()));
                if has_inv(a as int) {
                    let y = choose|y: int| in_field(y) && #[trigger] fmul(a as int, y) == 1;
                    lemma_mod_equivalence(a as int * y, 1, p());
                    lemma_small_mod(1, MODULUS as nat);
                    lemma_fundamental_div_mod(a as int * y - 1, p());
                    let k = (a as int * y - 1) / p();
                    let m = choose|m: int| a as int == #[trigger] (r0 as int * m);
                    let n = choose|n: int| p() == #[trigger] (r0 as int * n);
                    let t = m * y - n * k;
                    assert(1 == r0 as int * t) by (nonlinear_arith)
                        requires
                            a as int * y - 1 == p() * k,
                            a as int == r0 as int * m,
                            p() == r0 as int * n,
                            t == m * y - n * k,
                    ;
                    assert(false) by (nonlinear_arith)
                        requires
                            1 == r0 as int * t,
                            r0 >= 2,
                    ;
                }
            }
            None
        }
    }
}

/// Modular difference of two canonical representatives.
pub(crate) fn sub_mod(x: u64, y: u64) -> (r: u64)
    requires
        x < MODULUS,
        y < MODULUS,
    ensures
        r < MODULUS,
        r as int == fsub(x as int, y as int),
{
    proof {
        lemma_mod_add_multiples_vanish(x as int - y as int, p());
    }
    (x + (MODULUS - y)) % MODULUS
}

/// Modular product of two canonical representatives, via a 128-bit
/// intermediate.
pub(crate) fn mul_mod(x: u64, y: u64) -> (r: u64)
    requires
        x < MODULUS,
        y < MODULUS,
    ensures
        r < MODULUS,
        r as int == fmul(x as int, y as int),
{
    proof {
        lemma_mul_upper_bound(x as int, p() - 1, y as int, p() - 1);
        assert((p() - 1) * (p() - 1) < 0x40000000000000000000000000000000) by (nonlinear_arith);
        lemma_mod_bound(x as int * y as int, p());
    }
    let prod: u128 = (x as u128) * (y as u128);
    (prod % (MODULUS as u128)) as u64
}

} // verus!
