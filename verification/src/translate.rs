//! The cross-scheme translator: replicated three-party shares become
//! Shamir shares of the same values, without the values ever being put
//! back together.  Each additive component is reshared as a Shamir
//! sharing with correlated randomness from a preprocessed pool, and the
//! partial sharings are combined by the public linear combination that
//! the replicated reconstruction formula dictates: every component
//! enters with coefficient one, so the combined polynomial's constant
//! term is the components' sum — the shared value.

use vstd::prelude::*;
use crate::error::PipelineError;
use crate::field::{fadd, in_field, p, Fe, MODULUS};
use crate::poly::{
    coeffs_in_field, diffs_invertible, fits, newton_at_zero, padd, poly_eval, pts_in_field,
    xs_of, lemma_eval_padd, lemma_newton_recovers, lemma_poly_eval_in_field,
};
use crate::rng::random_fe;
use crate::share::{
    fes_valid, fes_view, is_rep3, is_shamir, rep3_pair_of, rep3_value, shamir_coeffs,
    shamir_share_with, shamir_val_of, Share, SharePayload, ShamirPoint,
};

verus! {

/// A finite, single-use supply of preprocessed correlated randomness.
/// Units are consumed from the front, each exactly once.
pub struct RandomnessPool {
    pub units: Vec<Fe>,
    pub next: usize,
}

impl RandomnessPool {
    pub open spec fn wf(&self) -> bool {
        self.next <= self.units@.len() && fes_valid(self.units@)
    }

    /// The units not yet consumed.
    pub open spec fn remaining_view(&self) -> Seq<Fe> {
        self.units@.subrange(self.next as int, self.units@.len() as int)
    }

    /// Builds a pool from already prepared units.
    pub fn from_units(units: Vec<Fe>) -> (r: RandomnessPool)
        requires
            fes_valid(units@),
        ensures
            r.wf(),
            r.remaining_view() == units@,
    {
        let r = RandomnessPool { units, next: 0 };
        proof {
            assert(r.remaining_view() =~= r.units@);
        }
        r
    }

    /// Draws `n` fresh random units, modelling the preprocessing phase
    /// that fills the pool before a translation session.
    pub fn fresh(n: usize) -> (r: RandomnessPool)
        ensures
            r.wf(),
            r.remaining_view().len() == n as int,
    {
        let mut units: Vec<Fe> = Vec::new();
        while units.len() < n
            invariant
                units@.len() <= n,
                fes_valid(units@),
            decreases n - units@.len(),
        {
            units.push(random_fe());
        }
        RandomnessPool::from_units(units)
    }

    /// How many units are left.
    pub fn remaining(&self) -> (r: usize)
        requires
            self.wf(),
        ensures
            r as int == self.remaining_view().len(),
    {
        self.units.len() - self.next
    }

    /// Consumes the next `n` units.
    pub fn take_many(&mut self, n: usize) -> (r: Vec<Fe>)
        requires
            old(self).wf(),
            old(self).remaining_view().len() >= n,
        ensures
            final(self).wf(),
            r@.len() == n as int,
            fes_valid(r@),
            r@ == old(self).remaining_view().subrange(0, n as int),
            final(self).remaining_view() == old(self).remaining_view().subrange(
                n as int,
                old(self).remaining_view().len() as int,
            ),
    {
        let mut r: Vec<Fe> = Vec::new();
        let mut k: usize = 0;
        let total = self.units.len();
        while k < n
            invariant
                k <= n,
                total == self.units@.len(),
                self.units@ == old(self).units@,
                self.next == old(self).next + k,
                old(self).wf(),
                self.wf(),
                n <= old(self).remaining_view().len(),
                r@.len() == k as int,
                r@ == old(self).remaining_view().subrange(0, k as int),
            decreases n - k,
        {
            proof {
                assert(old(self).remaining_view().len() == old(self).units@.len() - old(
                    self,
                ).next);
            }
            r.push(self.units[self.next]);
            self.next = self.next + 1;
            k += 1;
            proof {
                assert(r@ =~= old(self).remaining_view().subrange(0, k as int));
            }
        }
        proof {
            assert(fes_valid(r@)) by {
                assert forall|i: int| 0 <= i < r@.len() implies (#[trigger] r@[i]).valid() by {
                    assert(r@[i] == old(self).units@[old(self).next + i]);
                }
            }
            assert(self.remaining_view() =~= old(self).remaining_view().subrange(
                n as int,
                old(self).remaining_view().len() as int,
            ));
        }
        r
    }
}

/// A well-formed replicated triple: the three parties' shares of one
/// value, in party order.
pub open spec fn rep3_triple_ok(t: Seq<Share>) -> bool {
    &&& t.len() == 3
    &&& (forall|i: int|
        0 <= i < 3 ==> {
            let sh = #[trigger] t[i];
            is_rep3(sh) && sh.owner == i && in_field(rep3_pair_of(sh).0) && in_field(
                rep3_pair_of(sh).1,
            )
        })
}

/// The additive components held by a replicated triple.
pub open spec fn triple_components(t: Seq<Share>) -> Seq<int> {
    seq![rep3_pair_of(t[0]).0, rep3_pair_of(t[1]).0, rep3_pair_of(t[2]).0]
}

/// The pool units one translated value consumes: one random coefficient
/// vector of length `threshold` for each of the three components.
pub open spec fn units_per_value(threshold: nat) -> int {
    3 * (threshold as int)
}

/// `out` is a Shamir sharing of the value `v`: for some polynomial of
/// degree `threshold` with constant term `v`, party `j` holds the
/// evaluation at `j + 1`.
pub open spec fn shamir_sharing_of(out: Seq<Share>, v: int, threshold: nat, parties: nat) -> bool {
    &&& out.len() == parties
    &&& (forall|j: int| 0 <= j < parties ==> (#[trigger] out[j]).owner == j)
    &&& exists|c: Seq<int>|
        {
            &&& c.len() == threshold + 1
            &&& coeffs_in_field(c)
            &&& c[0] == v
            &&& (forall|j: int|
                0 <= j < parties ==> is_shamir(#[trigger] out[j]) && shamir_val_of(out[j])
                    == poly_eval(c, j + 1))
        }
}

/// Translates each value's replicated share triple into a Shamir sharing
/// of the same value.  The pool must hold enough units for the whole
/// vector; a short pool fails with `RandomnessExhausted` before any unit
/// is consumed, and a malformed triple fails with `SchemeMismatch`, also
/// before any unit is consumed.  Output order matches input order.
pub fn translate_rep3_to_shamir(
    shares: &Vec<Vec<Share>>,
    threshold: usize,
    parties: usize,
    pool: &mut RandomnessPool,
) -> (r: Result<Vec<Vec<Share>>, PipelineError>)
    requires
        old(pool).wf(),
        1 <= threshold,
        threshold < parties,
        (parties as int) < p(),
    ensures
        final(pool).wf(),
        r is Err ==> *final(pool) == *old(pool),
        r matches Err(PipelineError::SchemeMismatch) <==> exists|k: int|
            0 <= k < shares@.len() && !rep3_triple_ok((#[trigger] shares@[k])@),
        r matches Err(PipelineError::RandomnessExhausted) ==> old(pool).remaining_view().len()
            < shares@.len() * units_per_value(threshold as nat),
        r is Err ==> (r matches Err(PipelineError::SchemeMismatch) || r matches Err(
            PipelineError::RandomnessExhausted,
        )),
        (old(pool).remaining_view().len() >= shares@.len() * units_per_value(threshold as nat)
            && (forall|k: int| 0 <= k < shares@.len() ==> rep3_triple_ok(
            (#[trigger] shares@[k])@,
        ))) ==> r is Ok,
        r matches Ok(out) ==> {
            &&& out@.len() == shares@.len()
            &&& (forall|k: int|
                0 <= k < shares@.len() ==> shamir_sharing_of(
                    (#[trigger] out@[k])@,
                    rep3_value(triple_components(shares@[k]@)),
                    threshold as nat,
                    parties as nat,
                ))
            &&& final(pool).remaining_view().len() == old(pool).remaining_view().len()
                - shares@.len() * units_per_value(threshold as nat)
        },
{
    let n = shares.len();
    // validate every triple before touching the pool
    let mut k: usize = 0;
    while k < n
        invariant
            n == shares@.len(),
            0 <= k <= n,
            *pool == *old(pool),
            old(pool).wf(),
            forall|l: int| 0 <= l < k ==> rep3_triple_ok((#[trigger] shares@[l])@),
        decreases n - k,
    {
        let t = &shares[k];
        if t.len() != 3 {
            return Err(PipelineError::SchemeMismatch);
        }
        let mut i: usize = 0;
        while i < 3
            invariant
                n == shares@.len(),
                0 <= k < n,
                t@ == shares@[k as int]@,
                t@.len() == 3,
                0 <= i <= 3,
                *pool == *old(pool),
                old(pool).wf(),
                forall|l: int| 0 <= l < i ==> {
                    let sh = #[trigger] t@[l];
                    is_rep3(sh) && sh.owner == l && in_field(rep3_pair_of(sh).0) && in_field(
                        rep3_pair_of(sh).1,
                    )
                },
            decreases 3 - i,
        {
            let sh = t[i];
            let pr = match sh.payload {
                SharePayload::Rep3(pr) => pr,
                SharePayload::Shamir(_) => {
                    return Err(PipelineError::SchemeMismatch);
                },
            };
            if sh.owner != i || pr.a.v >= MODULUS || pr.b.v >= MODULUS {
                return Err(PipelineError::SchemeMismatch);
            }
            i += 1;
        }
        k += 1;
    }
    // enough randomness for the whole vector, before consuming any unit
    let per_value: u128 = 3u128 * (threshold as u128);
    let enough = (n as u128) <= (pool.remaining() as u128) / per_value;
    proof {
        let rem = old(pool).remaining_view().len() as int;
        let d = 3 * threshold as int;
        vstd::arithmetic::div_mod::lemma_fundamental_div_mod(rem, d);
        vstd::arithmetic::div_mod::lemma_mod_bound(rem, d);
        let q = rem / d;
        if n as int <= q {
            assert(n as int * d <= rem) by (nonlinear_arith)
                requires
                    rem == d * q + rem % d,
                    0 <= rem % d,
                    n as int <= q,
                    d > 0,
            ;
        } else {
            assert(n as int * d > rem) by (nonlinear_arith)
                requires
                    rem == d * q + rem % d,
                    rem % d < d,
                    n as int > q,
                    d > 0,
            ;
        }
    }
    if !enough {
        return Err(PipelineError::RandomnessExhausted);
    }
    let mut out: Vec<Vec<Share>> = Vec::new();
    let mut k: usize = 0;
    while k < n
        invariant
            n == shares@.len(),
            0 <= k <= n,
            1 <= threshold < parties,
            (parties as int) < p(),
            forall|l: int| 0 <= l < n ==> rep3_triple_ok((#[trigger] shares@[l])@),
            pool.wf(),
            pool.remaining_view().len() == old(pool).remaining_view().len() - k * (3
                * threshold as int),
            old(pool).remaining_view().len() >= n as int * (3 * threshold as int),
            out@.len() == k as int,
            forall|l: int|
                0 <= l < k ==> shamir_sharing_of(
                    (#[trigger] out@[l])@,
                    rep3_value(triple_components(shares@[l]@)),
                    threshold as nat,
                    parties as nat,
                ),
        decreases n - k,
    {
        proof {
            assert((k + 1) * (3 * threshold as int) == k * (3 * threshold as int) + 3
                * threshold as int) by (nonlinear_arith);
            assert(n as int * (3 * threshold as int) >= (k + 1) * (3 * threshold as int))
                by (nonlinear_arith)
                requires
                    k + 1 <= n as int,
                    threshold >= 1,
            ;
        }
        let t = &shares[k];
        let s0 = match t[0].payload {
            SharePayload::Rep3(pr) => pr.a,
            SharePayload::Shamir(_) => {
                proof {
                    assert(is_rep3(t@[0]));
                    assert(false);
                }
                return Err(PipelineError::SchemeMismatch);
            },
        };
        let s1 = match t[1].payload {
            SharePayload::Rep3(pr) => pr.a,
            SharePayload::Shamir(_) => {
                proof {
                    assert(is_rep3(t@[1]));
                    assert(false);
                }
                return Err(PipelineError::SchemeMismatch);
            },
        };
        let s2 = match t[2].payload {
            SharePayload::Rep3(pr) => pr.a,
            SharePayload::Shamir(_) => {
                proof {
                    assert(is_rep3(t@[2]));
                    assert(false);
                }
                return Err(PipelineError::SchemeMismatch);
            },
        };
        let rand0 = pool.take_many(threshold);
        let rand1 = pool.take_many(threshold);
        let rand2 = pool.take_many(threshold);
        let part0 = shamir_share_with(s0, &rand0, parties);
        let part1 = shamir_share_with(s1, &rand1, parties);
        let part2 = shamir_share_with(s2, &rand2, parties);
        let ghost c0 = shamir_coeffs(s0@, fes_view(rand0@));
        let ghost c1 = shamir_coeffs(s1@, fes_view(rand1@));
        let ghost c2 = shamir_coeffs(s2@, fes_view(rand2@));
        let ghost ctotal = padd(padd(c0, c1), c2);
        proof {
            assert forall|i: int| 0 <= i < rand0@.len()
                implies in_field(#[trigger] fes_view(rand0@)[i]) by {
                assert(rand0@[i].valid());
            }
            assert forall|i: int| 0 <= i < rand1@.len()
                implies in_field(#[trigger] fes_view(rand1@)[i]) by {
                assert(rand1@[i].valid());
            }
            assert forall|i: int| 0 <= i < rand2@.len()
                implies in_field(#[trigger] fes_view(rand2@)[i]) by {
                assert(rand2@[i].valid());
            }
            assert(coeffs_in_field(c0) && coeffs_in_field(c1) && coeffs_in_field(c2));
            assert(ctotal.len() == threshold + 1);
            assert(coeffs_in_field(ctotal));
            assert(ctotal[0] == fadd(fadd(c0[0], c1[0]), c2[0]));
            assert(ctotal[0] == rep3_value(triple_components(shares@[k as int]@)));
        }
        let mut combined: Vec<Share> = Vec::new();
        let mut j: usize = 0;
        while j < parties
            invariant
                0 <= j <= parties,
                1 <= threshold < parties,
                (parties as int) < p(),
                part0@.len() == parties as int,
                part1@.len() == parties as int,
                part2@.len() == parties as int,
                coeffs_in_field(c0),
                coeffs_in_field(c1),
                coeffs_in_field(c2),
                ctotal == padd(padd(c0, c1), c2),
                forall|l: int| 0 <= l < parties ==> {
                    let sh = #[trigger] part0@[l];
                    is_shamir(sh) && shamir_val_of(sh) == poly_eval(c0, l + 1)
                },
                forall|l: int| 0 <= l < parties ==> {
                    let sh = #[trigger] part1@[l];
                    is_shamir(sh) && shamir_val_of(sh) == poly_eval(c1, l + 1)
                },
                forall|l: int| 0 <= l < parties ==> {
                    let sh = #[trigger] part2@[l];
                    is_shamir(sh) && shamir_val_of(sh) == poly_eval(c2, l + 1)
                },
                combined@.len() == j as int,
                forall|l: int| 0 <= l < j ==> {
                    let sh = #[trigger] combined@[l];
                    sh.owner == l && is_shamir(sh) && shamir_val_of(sh) == poly_eval(
                        ctotal,
                        l + 1,
                    )
                },
            decreases parties - j,
        {
            let y0 = match part0[j].payload {
                SharePayload::Shamir(pt) => pt.y,
                SharePayload::Rep3(_) => {
                    proof {
                        assert(is_shamir(part0@[j as int]));
                        assert(false);
                    }
                    return Err(PipelineError::SchemeMismatch);
                },
            };
            let y1 = match part1[j].payload {
                SharePayload::Shamir(pt) => pt.y,
                SharePayload::Rep3(_) => {
                    proof {
                        assert(is_shamir(part1@[j as int]));
                        assert(false);
                    }
                    return Err(PipelineError::SchemeMismatch);
                },
            };
            let y2 = match part2[j].payload {
                SharePayload::Shamir(pt) => pt.y,
                SharePayload::Rep3(_) => {
                    proof {
                        assert(is_shamir(part2@[j as int]));
                        assert(false);
                    }
                    return Err(PipelineError::SchemeMismatch);
                },
            };
            proof {
                lemma_poly_eval_in_field(c0, j + 1);
                lemma_poly_eval_in_field(c1, j + 1);
                lemma_poly_eval_in_field(c2, j + 1);
                lemma_eval_padd(c0, c1, j + 1);
                lemma_eval_padd(padd(c0, c1), c2, j + 1);
            }
            let y = y0.add(y1).add(y2);
            combined.push(Share { owner: j, payload: SharePayload::Shamir(ShamirPoint { y }) });
            j += 1;
        }
        proof {
            assert(shamir_sharing_of(
                combined@,
                rep3_value(triple_components(shares@[k as int]@)),
                threshold as nat,
                parties as nat,
            ));
        }
        out.push(combined);
        k += 1;
    }
    proof {
        assert(out@.len() == shares@.len());
    }
    Ok(out)
}

/// One slot of a witness at the session level: a value every party
/// knows, or the parties' replicated shares of a private value.
pub enum SessionSlot {
    Public(Fe),
    Shared(Vec<Share>),
}

/// How many slots of the sequence are shared.
pub open spec fn shared_count(slots: Seq<SessionSlot>) -> int
    decreases slots.len(),
{
    if slots.len() == 0 {
        0
    } else {
        shared_count(slots.drop_last()) + match slots.last() {
            SessionSlot::Public(_) => 0int,
            SessionSlot::Shared(_) => 1int,
        }
    }
}

/// A shared slot holds a well-formed replicated triple.
pub open spec fn session_slot_ok(slot: SessionSlot) -> bool {
    match slot {
        SessionSlot::Public(v) => v.valid(),
        SessionSlot::Shared(t) => rep3_triple_ok(t@),
    }
}

/// A witness slot translated: public values pass through untouched,
/// shared slots become Shamir sharings of the same value.
pub open spec fn slot_translated(
    before: SessionSlot,
    after: SessionSlot,
    threshold: nat,
    parties: nat,
) -> bool {
    match before {
        SessionSlot::Public(v) => after == SessionSlot::Public(v),
        SessionSlot::Shared(t) => match after {
            SessionSlot::Public(_) => false,
            SessionSlot::Shared(s) => shamir_sharing_of(
                s@,
                rep3_value(triple_components(t@)),
                threshold,
                parties,
            ),
        },
    }
}

/// Translates a whole witness: public-tagged slots bypass translation
/// entirely, and every shared slot's replicated triple becomes a Shamir
/// sharing of the same value, in place.  The pool must cover all shared
/// slots before any unit is consumed.
pub fn translate_witness_rep3_to_shamir(
    slots: &Vec<SessionSlot>,
    threshold: usize,
    parties: usize,
    pool: &mut RandomnessPool,
) -> (r: Result<Vec<SessionSlot>, PipelineError>)
    requires
        old(pool).wf(),
        1 <= threshold,
        threshold < parties,
        (parties as int) < p(),
    ensures
        final(pool).wf(),
        r is Err ==> *final(pool) == *old(pool),
        r matches Err(PipelineError::SchemeMismatch) <==> exists|k: int|
            0 <= k < slots@.len() && !session_slot_ok(#[trigger] slots@[k]),
        r matches Err(PipelineError::RandomnessExhausted) ==> old(pool).remaining_view().len()
            < shared_count(slots@) * units_per_value(threshold as nat),
        r is Err ==> (r matches Err(PipelineError::SchemeMismatch) || r matches Err(
            PipelineError::RandomnessExhausted,
        )),
        r matches Ok(out) ==> {
            &&& out@.len() == slots@.len()
            &&& forall|i: int|
                0 <= i < slots@.len() ==> slot_translated(
                    #[trigger] slots@[i],
                    out@[i],
                    threshold as nat,
                    parties as nat,
                )
        },
{
    let n = slots.len();
    // validate every slot and count the shared ones, before touching
    // the pool
    let mut shared: usize = 0;
    let mut k: usize = 0;
    while k < n
        invariant
            n == slots@.len(),
            0 <= k <= n,
            *pool == *old(pool),
            old(pool).wf(),
            shared as int == shared_count(slots@.subrange(0, k as int)),
            shared <= k,
            forall|l: int| 0 <= l < k ==> session_slot_ok(#[trigger] slots@[l]),
        decreases n - k,
    {
        let ghost prefix = slots@.subrange(0, k as int);
        match &slots[k] {
            SessionSlot::Public(v) => {
                if v.v >= MODULUS {
                    return Err(PipelineError::SchemeMismatch);
                }
            },
            SessionSlot::Shared(t) => {
                if t.len() != 3 {
                    return Err(PipelineError::SchemeMismatch);
                }
                let mut i: usize = 0;
                while i < 3
                    invariant
                        n == slots@.len(),
                        0 <= k < n,
                        *pool == *old(pool),
                        old(pool).wf(),
                        slots@[k as int] matches SessionSlot::Shared(t2) && t2@ == t@,
                        t@.len() == 3,
                        0 <= i <= 3,
                        forall|l: int| 0 <= l < i ==> {
                            let sh = #[trigger] t@[l];
                            is_rep3(sh) && sh.owner == l && in_field(rep3_pair_of(sh).0)
                                && in_field(rep3_pair_of(sh).1)
                        },
                    decreases 3 - i,
                {
                    let sh = t[i];
                    let pr = match sh.payload {
                        SharePayload::Rep3(pr) => pr,
                        SharePayload::Shamir(_) => {
                            return Err(PipelineError::SchemeMismatch);
                        },
                    };
                    if sh.owner != i || pr.a.v >= MODULUS || pr.b.v >= MODULUS {
                        return Err(PipelineError::SchemeMismatch);
                    }
                    i += 1;
                }
                shared = shared + 1;
            },
        }
        proof {
            assert(slots@.subrange(0, k + 1).drop_last() =~= prefix);
        }
        k += 1;
    }
    proof {
        assert(slots@.subrange(0, n as int) =~= slots@);
    }
    // enough randomness for every shared slot
    let per_value: u128 = 3u128 * (threshold as u128);
    let enough = (shared as u128) <= (pool.remaining() as u128) / per_value;
    proof {
        let rem = old(pool).remaining_view().len() as int;
        let d = 3 * threshold as int;
        vstd::arithmetic::div_mod::lemma_fundamental_div_mod(rem, d);
        vstd::arithmetic::div_mod::lemma_mod_bound(rem, d);
        let q = rem / d;
        if shared as int <= q {
            assert(shared as int * d <= rem) by (nonlinear_arith)
                requires
                    rem == d * q + rem % d,
                    0 <= rem % d,
                    shared as int <= q,
                    d > 0,
            ;
        } else {
            assert(shared as int * d > rem) by (nonlinear_arith)
                requires
                    rem == d * q + rem % d,
                    rem % d < d,
                    shared as int > q,
                    d > 0,
            ;
        }
    }
    if !enough {
        return Err(PipelineError::RandomnessExhausted);
    }
    // translate slot by slot; the pool arithmetic above guarantees every
    // shared slot finds its units
    let mut out: Vec<SessionSlot> = Vec::new();
    let mut k: usize = 0;
    let mut used: usize = 0;
    while k < n
        invariant
            n == slots@.len(),
            0 <= k <= n,
            1 <= threshold < parties,
            (parties as int) < p(),
            forall|l: int| 0 <= l < n ==> session_slot_ok(#[trigger] slots@[l]),
            pool.wf(),
            used as int == shared_count(slots@.subrange(0, k as int)),
            used <= k,
            pool.remaining_view().len() == old(pool).remaining_view().len() - used as int * (3
                * threshold as int),
            old(pool).remaining_view().len() >= shared as int * (3 * threshold as int),
            shared as int == shared_count(slots@),
            out@.len() == k as int,
            forall|i: int|
                0 <= i < k ==> slot_translated(
                    #[trigger] slots@[i],
                    out@[i],
                    threshold as nat,
                    parties as nat,
                ),
        decreases n - k,
    {
        let ghost prefix = slots@.subrange(0, k as int);
        match &slots[k] {
            SessionSlot::Public(v) => {
                out.push(SessionSlot::Public(*v));
                proof {
                    assert(pool.remaining_view().len() == old(pool).remaining_view().len()
                        - used as int * (3 * threshold as int));
                }
            },
            SessionSlot::Shared(t) => {
                proof {
                    lemma_shared_count_le(slots@, k as int + 1);
                    assert(slots@.subrange(0, k + 1).drop_last() =~= prefix);
                    assert((used + 1) * (3 * threshold as int) == used as int * (3
                        * threshold as int) + 3 * threshold as int) by (nonlinear_arith);
                    assert(shared as int * (3 * threshold as int) >= (used + 1) * (3
                        * threshold as int)) by (nonlinear_arith)
                        requires
                            used + 1 <= shared as int,
                            threshold >= 1,
                    ;
                }
                let mut one: Vec<Vec<Share>> = Vec::new();
                let mut copy: Vec<Share> = Vec::new();
                copy.push(t[0]);
                copy.push(t[1]);
                copy.push(t[2]);
                proof {
                    assert(copy@ =~= t@);
                }
                one.push(copy);
                match translate_rep3_to_shamir(&one, threshold, parties, pool) {
                    Ok(mut translated) => {
                        let row = translated.pop().unwrap();
                        proof {
                            assert(shamir_sharing_of(
                                row@,
                                rep3_value(triple_components(t@)),
                                threshold as nat,
                                parties as nat,
                            ));
                        }
                        out.push(SessionSlot::Shared(row));
                        proof {
                            assert(pool.remaining_view().len() == old(
                                pool,
                            ).remaining_view().len() - (used as int + 1) * (3
                                * threshold as int));
                        }
                    },
                    Err(e) => {
                        proof {
                            assert forall|k2: int| 0 <= k2 < one@.len()
                                implies rep3_triple_ok((#[trigger] one@[k2])@) by {
                                assert((one@[0])@ == t@);
                            }
                            let orig = old(pool).remaining_view().len() as int;
                            let before = orig - used as int * (3 * threshold as int);
                            assert(before >= 3 * threshold as int) by (nonlinear_arith)
                                requires
                                    before == orig - used as int * (3 * threshold as int),
                                    orig >= shared as int * (3 * threshold as int),
                                    used + 1 <= shared as int,
                                    threshold >= 1,
                            ;
                            assert(false);
                        }
                        return Err(e);
                    },
                }
                used = used + 1;
            },
        }
        proof {
            assert(slots@.subrange(0, k + 1).drop_last() =~= prefix);
        }
        k += 1;
    }
    Ok(out)
}

/// A prefix never holds more shared slots than the whole sequence.
proof fn lemma_shared_count_le(slots: Seq<SessionSlot>, k: int)
    requires
        0 <= k <= slots.len(),
    ensures
        shared_count(slots.subrange(0, k)) <= shared_count(slots),
    decreases slots.len() - k,
{
    if k < slots.len() {
        lemma_shared_count_le(slots, k + 1);
        assert(slots.subrange(0, k + 1).drop_last() =~= slots.subrange(0, k));
    } else {
        assert(slots.subrange(0, k) =~= slots);
    }
}

/// Translation preserves the shared value: reconstructing on the Shamir
/// side equals reconstructing on the replicated side.  For any
/// polynomial a translated sharing is built on — its constant term is
/// the sum of the replicated components — interpolating a
/// full-threshold subset of its evaluations at zero returns exactly
/// that sum.
pub proof fn lemma_translate_preserves_value(c: Seq<int>, s: Seq<int>, pts: Seq<(int, int)>)
    requires
        s.len() == 3,
        c.len() == pts.len(),
        pts.len() >= 1,
        coeffs_in_field(c),
        c[0] == rep3_value(s),
        pts_in_field(pts),
        forall|i: int| 0 <= i < pts.len() ==> pts[i].1 == poly_eval(c, #[trigger] pts[i].0),
        diffs_invertible(xs_of(pts)),
    ensures
        newton_at_zero(pts) == rep3_value(s),
{
    assert(fits(c, pts));
    lemma_newton_recovers(c, pts);
}

} // verus!
