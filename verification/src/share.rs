//! The share codec: encoding a field element into per-party shares under
//! a named scheme, and decoding enough shares back into the value.
//!
//! Two schemes are supported.  Replicated three-party sharing (REP3)
//! splits a value into three additive components and hands party `i` the
//! pair of components `i` and `i+1`, so any two parties jointly hold all
//! three.  Shamir sharing evaluates a random polynomial with the value as
//! constant term at one fixed public point per party; any `threshold + 1`
//! evaluations determine the value by interpolation.

use vstd::prelude::*;
use crate::error::PipelineError;
use crate::field::{
    cong, fadd, fmul, fsub, in_field, p, lemma_cong_add, lemma_cong_mod, lemma_cong_refl,
    lemma_cong_sub, lemma_cong_to_eq, lemma_cong_trans, Fe, MODULUS,
};
use crate::poly::{
    coeffs_in_field, diffs_invertible, newton_at_zero, poly_eval, pts_canonical, pts_in_field,
    pts_view, xs_of, interpolate_at_zero, lemma_newton_in_field, lemma_newton_recovers,
    lemma_poly_eval_in_field, fits,
};
use crate::rng::random_fe;

verus! {

/// The two supported sharing schemes.
#[derive(Clone, Copy, PartialEq, Eq, Structural, Debug)]
pub enum Scheme {
    Rep3,
    Shamir,
}

/// A scheme together with its threshold and party count.
#[derive(Clone, Copy, PartialEq, Eq, Structural, Debug)]
pub struct SchemeParams {
    pub scheme: Scheme,
    pub threshold: usize,
    pub parties: usize,
}

/// REP3 admits exactly three parties with threshold one; Shamir admits
/// any threshold strictly between zero and the party count, with fewer
/// parties than field elements so that each party gets a distinct
/// evaluation point.
pub open spec fn params_valid(ps: SchemeParams) -> bool {
    match ps.scheme {
        Scheme::Rep3 => ps.threshold == 1 && ps.parties == 3,
        Scheme::Shamir => 1 <= ps.threshold && ps.threshold < ps.parties && ps.parties < p(),
    }
}

/// Checks a scheme configuration, before any sharing work begins.
pub fn validate_scheme_params(ps: &SchemeParams) -> (r: Result<(), PipelineError>)
    ensures
        r is Ok <==> params_valid(*ps),
        r is Err ==> r matches Err(PipelineError::InvalidSchemeParameters),
{
    match ps.scheme {
        Scheme::Rep3 => {
            if ps.threshold == 1 && ps.parties == 3 {
                Ok(())
            } else {
                Err(PipelineError::InvalidSchemeParameters)
            }
        },
        Scheme::Shamir => {
            if 1 <= ps.threshold && ps.threshold < ps.parties
                && (ps.parties as u64) < MODULUS {
                Ok(())
            } else {
                Err(PipelineError::InvalidSchemeParameters)
            }
        },
    }
}

/// A replicated pair: this party's additive component and the next
/// party's.
#[derive(Clone, Copy, PartialEq, Eq, Structural, Debug)]
pub struct Rep3Pair {
    pub a: Fe,
    pub b: Fe,
}

/// One Shamir evaluation.
#[derive(Clone, Copy, PartialEq, Eq, Structural, Debug)]
pub struct ShamirPoint {
    pub y: Fe,
}

/// The scheme-dependent content of a share.
#[derive(Clone, Copy, PartialEq, Eq, Structural, Debug)]
pub enum SharePayload {
    Rep3(Rep3Pair),
    Shamir(ShamirPoint),
}

/// One party's fragment of a secret-shared value.
#[derive(Clone, Copy, PartialEq, Eq, Structural, Debug)]
pub struct Share {
    pub owner: usize,
    pub payload: SharePayload,
}

/// The scheme a share belongs to.
pub open spec fn scheme_of(sh: Share) -> Scheme {
    match sh.payload {
        SharePayload::Rep3(_) => Scheme::Rep3,
        SharePayload::Shamir(_) => Scheme::Shamir,
    }
}

pub open spec fn is_rep3(sh: Share) -> bool {
    sh.payload is Rep3
}

pub open spec fn is_shamir(sh: Share) -> bool {
    sh.payload is Shamir
}

/// The replicated pair carried by a REP3 share, as integers.
pub open spec fn rep3_pair_of(sh: Share) -> (int, int) {
    match sh.payload {
        SharePayload::Rep3(pr) => (pr.a@, pr.b@),
        SharePayload::Shamir(_) => (0, 0),
    }
}

/// The evaluation carried by a Shamir share, as an integer.
pub open spec fn shamir_val_of(sh: Share) -> int {
    match sh.payload {
        SharePayload::Rep3(_) => 0,
        SharePayload::Shamir(pt) => pt.y@,
    }
}

/// The three additive components determined by a value and two random
/// components: the first component absorbs the value.
pub open spec fn rep3_components(v: int, a1: int, a2: int) -> Seq<int> {
    seq![fsub(fsub(v, a1), a2), a1, a2]
}

/// The value determined by three additive components.
pub open spec fn rep3_value(s: Seq<int>) -> int
    recommends
        s.len() == 3,
{
    fadd(fadd(s[0], s[1]), s[2])
}

/// Every share in the sequence is a REP3 share of the component vector
/// `s`: party `o` holds the pair `(s[o], s[o+1])`, indices mod 3.
pub open spec fn rep3_consistent(shares: Seq<Share>, s: Seq<int>) -> bool {
    &&& s.len() == 3
    &&& (forall|k: int| 0 <= k < 3 ==> in_field(#[trigger] s[k]))
    &&& (forall|i: int|
        0 <= i < shares.len() ==> {
            let sh = #[trigger] shares[i];
            &&& is_rep3(sh)
            &&& sh.owner < 3
            &&& rep3_pair_of(sh).0 == s[sh.owner as int]
            &&& rep3_pair_of(sh).1 == s[(sh.owner as int + 1) % 3]
        })
}

/// Splitting a value into its three components and adding the components
/// back together returns the value: the REP3 round trip, for every value
/// and every choice of the two random components.
pub proof fn lemma_rep3_round_trip(v: int, a1: int, a2: int)
    requires
        in_field(v),
        in_field(a1),
        in_field(a2),
    ensures
        rep3_value(rep3_components(v, a1, a2)) == v,
{
    let s0 = fsub(fsub(v, a1), a2);
    lemma_cong_mod(v - a1);
    lemma_cong_refl(a2);
    lemma_cong_sub(fsub(v, a1), v - a1, a2, a2);
    lemma_cong_mod(fsub(v, a1) - a2);
    lemma_cong_trans(s0, fsub(v, a1) - a2, v - a1 - a2);
    // fadd(fadd(s0, a1), a2) is congruent to s0 + a1 + a2, hence to v
    lemma_cong_mod(s0 + a1);
    lemma_cong_refl(a1);
    lemma_cong_add(s0, v - a1 - a2, a1, a1);
    lemma_cong_trans(fadd(s0, a1), s0 + a1, v - a1 - a2 + a1);
    lemma_cong_refl(a2);
    lemma_cong_add(fadd(s0, a1), v - a1 - a2 + a1, a2, a2);
    lemma_cong_mod(fadd(s0, a1) + a2);
    lemma_cong_trans(
        fadd(fadd(s0, a1), a2),
        fadd(s0, a1) + a2,
        v - a1 - a2 + a1 + a2,
    );
    crate::field::lemma_mod_range(fadd(s0, a1) + a2);
    lemma_cong_to_eq(fadd(fadd(s0, a1), a2), v);
}

/// Builds the three REP3 shares of `v` from two given random components.
pub fn rep3_share_with(v: Fe, a1: Fe, a2: Fe) -> (r: Vec<Share>)
    requires
        v.valid(),
        a1.valid(),
        a2.valid(),
    ensures
        r@.len() == 3,
        forall|j: int| 0 <= j < 3 ==> (#[trigger] r@[j]).owner == j,
        rep3_consistent(r@, rep3_components(v@, a1@, a2@)),
{
    let s0 = v.sub(a1).sub(a2);
    let mut out: Vec<Share> = Vec::new();
    out.push(Share { owner: 0, payload: SharePayload::Rep3(Rep3Pair { a: s0, b: a1 }) });
    out.push(Share { owner: 1, payload: SharePayload::Rep3(Rep3Pair { a: a1, b: a2 }) });
    out.push(Share { owner: 2, payload: SharePayload::Rep3(Rep3Pair { a: a2, b: s0 }) });
    proof {
        let s = rep3_components(v@, a1@, a2@);
        assert(s[0] == s0@ && s[1] == a1@ && s[2] == a2@);
        crate::field::lemma_mod_range(v@ - a1@);
    }
    out
}

/// Builds the three REP3 shares of `v` with fresh random components.
pub fn rep3_share(v: Fe) -> (r: Vec<Share>)
    requires
        v.valid(),
    ensures
        r@.len() == 3,
        forall|j: int| 0 <= j < 3 ==> (#[trigger] r@[j]).owner == j,
        exists|a1: int, a2: int|
            in_field(a1) && in_field(a2)
                && rep3_consistent(r@, #[trigger] rep3_components(v@, a1, a2)),
{
    let a1 = random_fe();
    let a2 = random_fe();
    let r = rep3_share_with(v, a1, a2);
    proof {
        assert(rep3_consistent(r@, rep3_components(v@, a1@, a2@)));
    }
    r
}

/// Every share is a REP3 share, parties are in range, and no party
/// appears twice.
pub open spec fn rep3_shape_ok(shares: Seq<Share>) -> bool {
    &&& (forall|i: int|
        0 <= i < shares.len() ==> {
            let sh = #[trigger] shares[i];
            is_rep3(sh) && sh.owner < 3 && in_field(rep3_pair_of(sh).0)
                && in_field(rep3_pair_of(sh).1)
        })
    &&& (forall|i: int, j: int|
        0 <= i < shares.len() && 0 <= j < shares.len() && i != j
            ==> (#[trigger] shares[i]).owner != (#[trigger] shares[j]).owner)
}

/// Decodes REP3 shares back into the shared value.  Two distinct parties'
/// shares suffice; whatever component vector the given shares replicate,
/// the result is that vector's value.
pub fn rep3_reconstruct(shares: &Vec<Share>) -> (r: Result<Fe, PipelineError>)
    ensures
        r matches Err(PipelineError::InsufficientShares) <==> shares@.len() < 2,
        r matches Err(PipelineError::SchemeMismatch)
            <==> shares@.len() >= 2 && !rep3_shape_ok(shares@),
        r is Err ==> (r matches Err(PipelineError::InsufficientShares) || r matches Err(
            PipelineError::SchemeMismatch,
        )),
        r matches Ok(v) ==> {
            &&& v.valid()
            &&& shares@.len() >= 2
            &&& rep3_shape_ok(shares@)
            &&& forall|s: Seq<int>| rep3_consistent(shares@, s) ==> v@ == rep3_value(s)
        },
{
    if shares.len() < 2 {
        return Err(PipelineError::InsufficientShares);
    }
    let mut o0: Option<Rep3Pair> = None;
    let mut o1: Option<Rep3Pair> = None;
    let mut o2: Option<Rep3Pair> = None;
    let n = shares.len();
    let mut i: usize = 0;
    while i < n
        invariant
            n == shares@.len(),
            n >= 2,
            0 <= i <= n,
            forall|k: int| 0 <= k < i ==> {
                let sh = #[trigger] shares@[k];
                is_rep3(sh) && sh.owner < 3 && in_field(rep3_pair_of(sh).0)
                    && in_field(rep3_pair_of(sh).1)
            },
            o0 matches Some(pr) ==> pr.a.valid() && pr.b.valid(),
            o1 matches Some(pr) ==> pr.a.valid() && pr.b.valid(),
            o2 matches Some(pr) ==> pr.a.valid() && pr.b.valid(),
            forall|k: int, l: int|
                0 <= k < i && 0 <= l < i && k != l
                    ==> (#[trigger] shares@[k]).owner != (#[trigger] shares@[l]).owner,
            o0 matches Some(pr) ==> exists|k: int|
                0 <= k < i && (#[trigger] shares@[k]).owner == 0
                    && rep3_pair_of(shares@[k]) == (pr.a@, pr.b@),
            o1 matches Some(pr) ==> exists|k: int|
                0 <= k < i && (#[trigger] shares@[k]).owner == 1
                    && rep3_pair_of(shares@[k]) == (pr.a@, pr.b@),
            o2 matches Some(pr) ==> exists|k: int|
                0 <= k < i && (#[trigger] shares@[k]).owner == 2
                    && rep3_pair_of(shares@[k]) == (pr.a@, pr.b@),
            forall|k: int| 0 <= k < i && (#[trigger] shares@[k]).owner == 0 ==> o0 is Some,
            forall|k: int| 0 <= k < i && (#[trigger] shares@[k]).owner == 1 ==> o1 is Some,
            forall|k: int| 0 <= k < i && (#[trigger] shares@[k]).owner == 2 ==> o2 is Some,
        decreases n - i,
    {
        let sh = shares[i];
        let pr = match sh.payload {
            SharePayload::Rep3(pr) => pr,
            SharePayload::Shamir(_) => {
                return Err(PipelineError::SchemeMismatch);
            },
        };
        if pr.a.v >= MODULUS || pr.b.v >= MODULUS {
            return Err(PipelineError::SchemeMismatch);
        }
        if sh.owner == 0 {
            if o0.is_some() {
                return Err(PipelineError::SchemeMismatch);
            }
            o0 = Some(pr);
        } else if sh.owner == 1 {
            if o1.is_some() {
                return Err(PipelineError::SchemeMismatch);
            }
            o1 = Some(pr);
        } else if sh.owner == 2 {
            if o2.is_some() {
                return Err(PipelineError::SchemeMismatch);
            }
            o2 = Some(pr);
        } else {
            return Err(PipelineError::SchemeMismatch);
        }
        i += 1;
    }
    // Two distinct owners among the shares guarantee every component is
    // covered: owner o contributes components o and o + 1.
    let c0 = match o0 {
        Some(pr) => pr.a,
        None => match o2 {
            Some(pr) => pr.b,
            None => {
                proof {
                    assert(shares@[0].owner == 1);
                    assert(shares@[1].owner == 1);
                    assert(false);
                }
                return Err(PipelineError::SchemeMismatch);
            },
        },
    };
    let c1 = match o1 {
        Some(pr) => pr.a,
        None => match o0 {
            Some(pr) => pr.b,
            None => {
                proof {
                    assert(shares@[0].owner == 2);
                    assert(shares@[1].owner == 2);
                    assert(false);
                }
                return Err(PipelineError::SchemeMismatch);
            },
        },
    };
    let c2 = match o2 {
        Some(pr) => pr.a,
        None => match o1 {
            Some(pr) => pr.b,
            None => {
                proof {
                    assert(shares@[0].owner == 0);
                    assert(shares@[1].owner == 0);
                    assert(false);
                }
                return Err(PipelineError::SchemeMismatch);
            },
        },
    };
    let v = c0.add(c1).add(c2);
    proof {
        assert forall|s: Seq<int>| rep3_consistent(shares@, s) implies v@ == rep3_value(s) by {
            assert(c0@ == s[0] && c1@ == s[1] && c2@ == s[2]);
        }
    }
    Ok(v)
}

/// The views of a vector of field elements.
pub open spec fn fes_view(s: Seq<Fe>) -> Seq<int> {
    s.map_values(|f: Fe| f@)
}

/// Every element is canonical.
pub open spec fn fes_valid(s: Seq<Fe>) -> bool {
    forall|i: int| 0 <= i < s.len() ==> (#[trigger] s[i]).valid()
}

/// Horner evaluation of a coefficient vector at `x`.
pub fn eval_poly(coeffs: &Vec<Fe>, x: u64) -> (r: Fe)
    requires
        fes_valid(coeffs@),
        x < MODULUS,
    ensures
        r.valid(),
        r@ == poly_eval(fes_view(coeffs@), x as int),
{
    let xf = Fe { v: x };
    let mut acc = Fe::zero();
    let mut k = coeffs.len();
    proof {
        assert(fes_view(coeffs@).subrange(k as int, coeffs@.len() as int) =~= Seq::<int>::empty());
    }
    while k > 0
        invariant
            k <= coeffs@.len(),
            fes_valid(coeffs@),
            xf.v == x,
            x < MODULUS,
            acc.valid(),
            acc@ == poly_eval(
                fes_view(coeffs@).subrange(k as int, coeffs@.len() as int),
                x as int,
            ),
        decreases k,
    {
        k -= 1;
        let c = coeffs[k];
        let ghost full = fes_view(coeffs@);
        let ghost sub = full.subrange(k as int, full.len() as int);
        acc = c.add(xf.mul(acc));
        proof {
            assert(sub.drop_first() =~= full.subrange(k as int + 1, full.len() as int));
            assert(sub[0] == c@);
        }
    }
    proof {
        assert(fes_view(coeffs@).subrange(0, coeffs@.len() as int) =~= fes_view(coeffs@));
    }
    acc
}

/// The coefficients of the sharing polynomial: the value as constant
/// term, then the random coefficients.
pub open spec fn shamir_coeffs(v: int, rand: Seq<int>) -> Seq<int> {
    seq![v] + rand
}

/// Builds one Shamir share per party from given random coefficients:
/// party `j` receives the evaluation at the public point `j + 1`.
pub fn shamir_share_with(v: Fe, rand: &Vec<Fe>, parties: usize) -> (r: Vec<Share>)
    requires
        v.valid(),
        fes_valid(rand@),
        rand@.len() >= 1,
        parties > rand@.len(),
        (parties as int) < p(),
    ensures
        r@.len() == parties as int,
        forall|j: int| 0 <= j < parties ==> {
            let sh = #[trigger] r@[j];
            &&& sh.owner == j
            &&& is_shamir(sh)
            &&& shamir_val_of(sh) == poly_eval(
                shamir_coeffs(v@, fes_view(rand@)),
                j + 1,
            )
        },
{
    let mut coeffs: Vec<Fe> = Vec::new();
    coeffs.push(v);
    let mut k: usize = 0;
    while k < rand.len()
        invariant
            k <= rand@.len(),
            fes_valid(rand@),
            v.valid(),
            coeffs@.len() == k + 1,
            coeffs@[0] == v,
            forall|l: int| 0 <= l < k ==> coeffs@[l + 1] == rand@[l],
            fes_valid(coeffs@),
        decreases rand@.len() - k,
    {
        coeffs.push(rand[k]);
        k += 1;
    }
    proof {
        assert(fes_view(coeffs@) =~= shamir_coeffs(v@, fes_view(rand@)));
    }
    let mut out: Vec<Share> = Vec::new();
    let mut j: usize = 0;
    while j < parties
        invariant
            j <= parties,
            (parties as int) < p(),
            fes_valid(coeffs@),
            fes_view(coeffs@) == shamir_coeffs(v@, fes_view(rand@)),
            out@.len() == j as int,
            forall|l: int| 0 <= l < j ==> {
                let sh = #[trigger] out@[l];
                &&& sh.owner == l
                &&& is_shamir(sh)
                &&& shamir_val_of(sh) == poly_eval(
                    shamir_coeffs(v@, fes_view(rand@)),
                    l + 1,
                )
            },
        decreases parties - j,
    {
        let x = (j as u64) + 1;
        let y = eval_poly(&coeffs, x);
        out.push(Share { owner: j, payload: SharePayload::Shamir(ShamirPoint { y }) });
        j += 1;
    }
    out
}

/// Builds one Shamir share per party with fresh random coefficients.
pub fn shamir_share(v: Fe, threshold: usize, parties: usize) -> (r: Vec<Share>)
    requires
        v.valid(),
        1 <= threshold,
        threshold < parties,
        (parties as int) < p(),
    ensures
        r@.len() == parties as int,
        forall|j: int| 0 <= j < parties ==> (#[trigger] r@[j]).owner == j,
        exists|rand: Seq<int>|
            {
                &&& rand.len() == threshold as int
                &&& coeffs_in_field(rand)
                &&& forall|j: int|
                    0 <= j < parties ==> is_shamir(#[trigger] r@[j]) && shamir_val_of(r@[j])
                        == poly_eval(shamir_coeffs(v@, rand), j + 1)
            },
{
    let mut rand: Vec<Fe> = Vec::new();
    while rand.len() < threshold
        invariant
            rand@.len() <= threshold,
            fes_valid(rand@),
        decreases threshold - rand@.len(),
    {
        rand.push(random_fe());
    }
    let r = shamir_share_with(v, &rand, parties);
    proof {
        let w = fes_view(rand@);
        assert(coeffs_in_field(w)) by {
            assert forall|i: int| 0 <= i < w.len() implies in_field(#[trigger] w[i]) by {
                assert(rand@[i].valid());
            }
        }
        assert({
            &&& w.len() == threshold as int
            &&& coeffs_in_field(w)
            &&& forall|j: int|
                0 <= j < parties ==> is_shamir(#[trigger] r@[j]) && shamir_val_of(r@[j])
                    == poly_eval(shamir_coeffs(v@, w), j + 1)
        });
    }
    r
}

/// Every share is a Shamir share with a canonical value, the party's
/// evaluation point lies in the field, and no party appears twice.
pub open spec fn shamir_shape_ok(shares: Seq<Share>) -> bool {
    &&& (forall|i: int|
        0 <= i < shares.len() ==> {
            let sh = #[trigger] shares[i];
            is_shamir(sh) && sh.owner as int + 1 < p() && in_field(shamir_val_of(sh))
        })
    &&& (forall|i: int, j: int|
        0 <= i < shares.len() && 0 <= j < shares.len() && i != j
            ==> (#[trigger] shares[i]).owner != (#[trigger] shares[j]).owner)
}

/// The interpolation samples of a share sequence: party `o` sits at the
/// evaluation point `o + 1`.
pub open spec fn shamir_pts(shares: Seq<Share>) -> Seq<(int, int)> {
    Seq::new(shares.len(), |i: int| (shares[i].owner as int + 1, shamir_val_of(shares[i])))
}

/// Decodes Shamir shares back into the shared value by interpolating the
/// first `threshold + 1` of them at zero.
pub fn shamir_reconstruct(shares: &Vec<Share>, threshold: usize) -> (r: Result<
    Fe,
    PipelineError,
>)
    requires
        threshold >= 1,
    ensures
        r matches Err(PipelineError::InsufficientShares) <==> shares@.len() <= threshold,
        r matches Ok(v) ==> {
            &&& v.valid()
            &&& shares@.len() > threshold
            &&& shamir_shape_ok(shares@)
            &&& v@ == newton_at_zero(shamir_pts(shares@.subrange(0, threshold + 1)))
        },
        r is Err ==> (r matches Err(PipelineError::InsufficientShares) || r matches Err(
            PipelineError::SchemeMismatch,
        )),
        r matches Err(PipelineError::SchemeMismatch) ==> !(shamir_shape_ok(shares@)
            && diffs_invertible(xs_of(shamir_pts(shares@.subrange(0, threshold + 1))))),
        (shares@.len() > threshold && shamir_shape_ok(shares@) && diffs_invertible(
            xs_of(shamir_pts(shares@.subrange(0, threshold + 1))),
        )) ==> r is Ok,
{
    let n = shares.len();
    if n <= threshold {
        return Err(PipelineError::InsufficientShares);
    }
    let mut i: usize = 0;
    while i < n
        invariant
            n == shares@.len(),
            n > threshold,
            threshold >= 1,
            0 <= i <= n,
            forall|k: int| 0 <= k < i ==> {
                let sh = #[trigger] shares@[k];
                is_shamir(sh) && sh.owner as int + 1 < p() && in_field(shamir_val_of(sh))
            },
            forall|k: int, l: int|
                0 <= k < i && 0 <= l < i && k != l
                    ==> (#[trigger] shares@[k]).owner != (#[trigger] shares@[l]).owner,
        decreases n - i,
    {
        let sh = shares[i];
        let pt = match sh.payload {
            SharePayload::Shamir(pt) => pt,
            SharePayload::Rep3(_) => {
                return Err(PipelineError::SchemeMismatch);
            },
        };
        if pt.y.v >= MODULUS || (sh.owner as u64) >= MODULUS - 1 {
            return Err(PipelineError::SchemeMismatch);
        }
        let mut j: usize = 0;
        while j < i
            invariant
                n == shares@.len(),
                n > threshold,
                0 <= j <= i < n,
                sh == shares@[i as int],
                forall|l: int| 0 <= l < j ==> (#[trigger] shares@[l]).owner != sh.owner,
            decreases i - j,
        {
            if shares[j].owner == sh.owner {
                proof {
                    assert(shares@[j as int].owner == shares@[i as int].owner);
                }
                return Err(PipelineError::SchemeMismatch);
            }
            j += 1;
        }
        i += 1;
    }
    let used = threshold + 1;
    let ghost taken = shares@.subrange(0, threshold + 1);
    let mut pts: Vec<(u64, u64)> = Vec::new();
    let mut i: usize = 0;
    while i < used
        invariant
            n == shares@.len(),
            used == threshold + 1,
            n >= used,
            taken == shares@.subrange(0, threshold + 1),
            0 <= i <= used,
            shamir_shape_ok(shares@),
            pts@.len() == i as int,
            pts_canonical(pts@),
            forall|k: int| 0 <= k < i ==> #[trigger] pts_view(pts@)[k] == shamir_pts(taken)[k],
        decreases used - i,
    {
        let sh = shares[i];
        let y = match sh.payload {
            SharePayload::Shamir(pt) => pt.y,
            SharePayload::Rep3(_) => {
                proof {
                    assert(is_shamir(shares@[i as int]));
                    assert(false);
                }
                return Err(PipelineError::SchemeMismatch);
            },
        };
        let ghost old_pts = pts@;
        pts.push(((sh.owner as u64) + 1, y.v));
        proof {
            assert(taken[i as int] == shares@[i as int]);
            assert(pts_view(pts@)[i as int] == shamir_pts(taken)[i as int]);
            assert(forall|k: int| 0 <= k < i
                ==> #[trigger] pts_view(pts@)[k] == pts_view(old_pts)[k]);
        }
        i += 1;
    }
    proof {
        assert(pts_view(pts@) =~= shamir_pts(taken));
    }
    match interpolate_at_zero(&pts) {
        Some(v) => {
            proof {
                lemma_newton_in_field(shamir_pts(taken));
            }
            Ok(Fe { v })
        },
        None => Err(PipelineError::SchemeMismatch),
    }
}

/// The Shamir round trip: sharing a value with any random coefficients
/// and interpolating any full-threshold subset of the evaluations at zero
/// returns the value.  The samples may come in any order; all that is
/// required is that the evaluation points are pairwise distinct, stated
/// here as invertibility of their differences, which a prime modulus
/// grants to all distinct points.  For sharings among at most
/// thirty-two parties, [`lemma_shamir_round_trip_small`] discharges
/// that hypothesis from the field module's witness table.
pub proof fn lemma_shamir_round_trip(v: int, rand: Seq<int>, pts: Seq<(int, int)>)
    requires
        in_field(v),
        coeffs_in_field(rand),
        pts.len() == rand.len() + 1,
        pts_in_field(pts),
        forall|i: int|
            0 <= i < pts.len() ==> pts[i].1 == poly_eval(
                shamir_coeffs(v, rand),
                #[trigger] pts[i].0,
            ),
        diffs_invertible(xs_of(pts)),
    ensures
        newton_at_zero(pts) == v,
{
    let c = shamir_coeffs(v, rand);
    assert(c[0] == v);
    assert(coeffs_in_field(c)) by {
        assert forall|i: int| 0 <= i < c.len() implies in_field(#[trigger] c[i]) by {
            if i > 0 {
                assert(c[i] == rand[i - 1]);
            }
        }
    }
    assert(fits(c, pts));
    lemma_newton_recovers(c, pts);
}

/// The Shamir round trip with no side conditions, for sharings among at
/// most thirty-two parties: the samples sit at pairwise-distinct
/// canonical evaluation points, whose differences the field module's
/// witness table proves invertible.
pub proof fn lemma_shamir_round_trip_small(v: int, rand: Seq<int>, pts: Seq<(int, int)>)
    requires
        in_field(v),
        coeffs_in_field(rand),
        pts.len() == rand.len() + 1,
        pts_in_field(pts),
        forall|i: int| 0 <= i < pts.len() ==> 1 <= (#[trigger] pts[i]).0 <= 32,
        forall|i: int, j: int|
            0 <= i < pts.len() && 0 <= j < pts.len() && i != j ==> (#[trigger] pts[i]).0
                != (#[trigger] pts[j]).0,
        forall|i: int|
            0 <= i < pts.len() ==> pts[i].1 == poly_eval(
                shamir_coeffs(v, rand),
                #[trigger] pts[i].0,
            ),
    ensures
        newton_at_zero(pts) == v,
{
    let xs = xs_of(pts);
    assert forall|i: int| 0 <= i < xs.len() implies 1 <= #[trigger] xs[i] <= 32 by {
        assert(xs[i] == pts[i].0);
    }
    assert forall|i: int, j: int|
        0 <= i < xs.len() && 0 <= j < xs.len() && i != j implies xs[i] != xs[j] by {
        assert(xs[i] == pts[i].0 && xs[j] == pts[j].0);
    }
    crate::poly::lemma_points_diffs_invertible(xs);
    lemma_shamir_round_trip(v, rand, pts);
}

/// Encodes a value into one share per party under the given scheme.
/// The scheme configuration is validated before any sharing work.
pub fn share(value: Fe, params: &SchemeParams) -> (r: Result<Vec<Share>, PipelineError>)
    requires
        value.valid(),
    ensures
        r is Err <==> !params_valid(*params),
        r matches Err(e) ==> e matches PipelineError::InvalidSchemeParameters,
        r matches Ok(shares) ==> {
            &&& shares@.len() == params.parties as int
            &&& (forall|j: int| 0 <= j < params.parties ==> (#[trigger] shares@[j]).owner == j)
            &&& match params.scheme {
                Scheme::Rep3 => exists|a1: int, a2: int|
                    in_field(a1) && in_field(a2) && rep3_consistent(
                        shares@,
                        #[trigger] rep3_components(value@, a1, a2),
                    ),
                Scheme::Shamir => exists|rand: Seq<int>|
                    {
                        &&& rand.len() == params.threshold as int
                        &&& coeffs_in_field(rand)
                        &&& forall|j: int|
                            0 <= j < params.parties ==> is_shamir(#[trigger] shares@[j])
                                && shamir_val_of(shares@[j]) == poly_eval(
                                shamir_coeffs(value@, rand),
                                j + 1,
                            )
                    },
            }
        },
{
    match validate_scheme_params(params) {
        Err(e) => Err(e),
        Ok(()) => match params.scheme {
            Scheme::Rep3 => Ok(rep3_share(value)),
            Scheme::Shamir => Ok(shamir_share(value, params.threshold, params.parties)),
        },
    }
}

/// Decodes shares back into the shared value under the given scheme
/// configuration.  Fails with `InsufficientShares` exactly when fewer
/// shares than the reconstruction threshold requires are present, and
/// with `SchemeMismatch` on foreign or inconsistent shares.
pub fn reconstruct(shares: &Vec<Share>, params: &SchemeParams) -> (r: Result<
    Fe,
    PipelineError,
>)
    ensures
        r matches Err(PipelineError::InvalidSchemeParameters) <==> !params_valid(*params),
        params_valid(*params) ==> match params.scheme {
            Scheme::Rep3 => {
                &&& (r matches Err(PipelineError::InsufficientShares) <==> shares@.len() < 2)
                &&& (r matches Err(PipelineError::SchemeMismatch) <==> shares@.len() >= 2
                    && !rep3_shape_ok(shares@))
                &&& (r is Err ==> (r matches Err(PipelineError::InsufficientShares) || r matches
                    Err(PipelineError::SchemeMismatch)))
                &&& (r matches Ok(v) ==> v.valid() && shares@.len() >= 2 && rep3_shape_ok(shares@)
                    && forall|s: Seq<int>| rep3_consistent(shares@, s) ==> v@ == rep3_value(s))
            },
            Scheme::Shamir => {
                &&& (r matches Err(PipelineError::InsufficientShares) <==> shares@.len()
                    <= params.threshold)
                &&& (r matches Ok(v) ==> v.valid() && shares@.len() > params.threshold
                    && shamir_shape_ok(shares@) && v@ == newton_at_zero(
                    shamir_pts(shares@.subrange(0, params.threshold + 1)),
                ))
                &&& (r is Err ==> (r matches Err(PipelineError::InsufficientShares)
                    || r matches Err(PipelineError::SchemeMismatch)))
                &&& ((shares@.len() > params.threshold && shamir_shape_ok(shares@)
                    && diffs_invertible(
                    xs_of(shamir_pts(shares@.subrange(0, params.threshold + 1))),
                )) ==> r is Ok)
            },
        },
{
    match validate_scheme_params(params) {
        Err(e) => Err(e),
        Ok(()) => match params.scheme {
            Scheme::Rep3 => rep3_reconstruct(shares),
            Scheme::Shamir => shamir_reconstruct(shares, params.threshold),
        },
    }
}

} // verus!
