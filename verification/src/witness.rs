//! The witness classifier and sharing engine: a cleartext witness vector
//! is tagged into public and to-be-shared slots, then split into one
//! share vector per party.  Public slots are copied verbatim to every
//! party; shared slots are encoded by the share codec.  The same engine
//! splits a named input map into per-party named share maps.

use vstd::prelude::*;
use vstd::arithmetic::div_mod::{lemma_div_is_strictly_smaller, lemma_mod_bound};
use crate::error::PipelineError;
use crate::field::{in_field, Fe};
use crate::merge::NamedShareMap;
use crate::poly::{coeffs_in_field, poly_eval};
use crate::share::{
    is_shamir, params_valid, rep3_components, rep3_consistent, rep3_share, shamir_coeffs,
    shamir_share, shamir_val_of, validate_scheme_params, Rep3Pair, Scheme, SchemeParams, Share,
    SharePayload,
};
use crate::translate::shamir_sharing_of;

verus! {

/// A witness slot before splitting: known to all parties, or private and
/// due to be shared.
#[derive(Clone, Copy, PartialEq, Eq, Structural, Debug)]
pub enum PubShared<V> {
    Public(V),
    Shared(V),
}

/// A witness slot in one party's split witness: a public value, or that
/// party's share of a private one.
#[derive(Clone, Copy, PartialEq, Eq, Structural, Debug)]
pub enum WitnessSlot {
    Public(Fe),
    Shared(Share),
}

/// The index is declared public.
pub open spec fn is_public_index(i: int, idxs: Seq<usize>) -> bool {
    exists|j: int| 0 <= j < idxs.len() && #[trigger] idxs[j] == i
}

/// Tags each witness slot: slots named by the circuit's public-input
/// list become `Public`, all others `Shared`.  A public index beyond the
/// witness length is rejected.
pub fn classify(witness: &Vec<Fe>, public_indices: &Vec<usize>) -> (r: Result<
    Vec<PubShared<Fe>>,
    PipelineError,
>)
    ensures
        r is Err <==> exists|j: int|
            0 <= j < public_indices@.len() && #[trigger] public_indices@[j] >= witness@.len(),
        r matches Err(e) ==> e matches PipelineError::IndexOutOfBounds,
        r matches Ok(w) ==> {
            &&& w@.len() == witness@.len()
            &&& (forall|i: int|
                0 <= i < witness@.len() ==> #[trigger] w@[i] == if is_public_index(
                    i,
                    public_indices@,
                ) {
                    PubShared::Public(witness@[i])
                } else {
                    PubShared::Shared(witness@[i])
                })
        },
{
    let n = witness.len();
    let mut w: Vec<PubShared<Fe>> = Vec::new();
    let mut i: usize = 0;
    while i < n
        invariant
            n == witness@.len(),
            0 <= i <= n,
            w@.len() == i as int,
            forall|l: int| 0 <= l < i ==> #[trigger] w@[l] == PubShared::Shared(witness@[l]),
        decreases n - i,
    {
        w.push(PubShared::Shared(witness[i]));
        i += 1;
    }
    let m = public_indices.len();
    let mut j: usize = 0;
    while j < m
        invariant
            n == witness@.len(),
            m == public_indices@.len(),
            0 <= j <= m,
            w@.len() == n as int,
            forall|l: int| 0 <= l < j ==> #[trigger] public_indices@[l] < n,
            forall|i2: int|
                0 <= i2 < n ==> #[trigger] w@[i2] == if (exists|l: int|
                    0 <= l < j && #[trigger] public_indices@[l] == i2) {
                    PubShared::Public(witness@[i2])
                } else {
                    PubShared::Shared(witness@[i2])
                },
        decreases m - j,
    {
        let idx = public_indices[j];
        if idx >= n {
            return Err(PipelineError::IndexOutOfBounds);
        }
        let ghost before = w@;
        w.set(idx, PubShared::Public(witness[idx]));
        proof {
            assert forall|i2: int| 0 <= i2 < n implies #[trigger] w@[i2] == (if (exists|l: int|
                0 <= l < j + 1 && #[trigger] public_indices@[l] == i2) {
                PubShared::Public(witness@[i2])
            } else {
                PubShared::Shared(witness@[i2])
            }) by {
                if i2 == idx as int {
                    assert(public_indices@[j as int] == i2);
                } else {
                    assert(w@[i2] == before[i2]);
                    if exists|l: int| 0 <= l < j + 1 && #[trigger] public_indices@[l] == i2 {
                        let l = choose|l: int|
                            0 <= l < j + 1 && #[trigger] public_indices@[l] == i2;
                        assert(l < j);
                        assert(exists|l2: int|
                            0 <= l2 < j && #[trigger] public_indices@[l2] == i2);
                    }
                }
            }
        }
        j += 1;
    }
    Ok(w)
}

/// Every tagged value is canonical.
pub open spec fn classified_valid(w: Seq<PubShared<Fe>>) -> bool {
    forall|i: int|
        0 <= i < w.len() ==> match #[trigger] w[i] {
            PubShared::Public(v) => v.valid(),
            PubShared::Shared(v) => v.valid(),
        }
}

/// The share carried by a party's slot; public slots carry none.
pub open spec fn share_of_slot(sl: WitnessSlot) -> Share {
    match sl {
        WitnessSlot::Shared(sh) => sh,
        WitnessSlot::Public(_) => Share {
            owner: 0,
            payload: SharePayload::Rep3(Rep3Pair { a: Fe { v: 0 }, b: Fe { v: 0 } }),
        },
    }
}

/// The shares of one slot across a row of parties.
pub open spec fn row_shares(row: Seq<WitnessSlot>) -> Seq<Share> {
    Seq::new(row.len(), |q: int| share_of_slot(row[q]))
}

/// One slot of the split witness, across all parties: a public value
/// copied to everyone, or a valid sharing of the private value under the
/// configured scheme.
pub open spec fn slot_ok(row: Seq<WitnessSlot>, w: PubShared<Fe>, ps: SchemeParams) -> bool {
    &&& row.len() == ps.parties
    &&& match w {
        PubShared::Public(v) => forall|q: int|
            0 <= q < row.len() ==> #[trigger] row[q] == WitnessSlot::Public(v),
        PubShared::Shared(v) => {
            &&& (forall|q: int| 0 <= q < row.len() ==> (#[trigger] row[q]) is Shared)
            &&& (forall|q: int|
                0 <= q < row.len() ==> (#[trigger] row_shares(row)[q]).owner == q)
            &&& match ps.scheme {
                Scheme::Rep3 => exists|a1: int, a2: int|
                    in_field(a1) && in_field(a2) && rep3_consistent(
                        row_shares(row),
                        #[trigger] rep3_components(v@, a1, a2),
                    ),
                Scheme::Shamir => shamir_sharing_of(
                    row_shares(row),
                    v@,
                    ps.threshold as nat,
                    ps.parties as nat,
                ),
            }
        },
    }
}

/// The slots of party `q` in a party-major split witness, at slot `i`.
pub open spec fn column(out: Seq<Vec<WitnessSlot>>, i: int) -> Seq<WitnessSlot> {
    Seq::new(out.len(), |q: int| (out[q])@[i])
}

/// Splits a classified witness into one slot vector per party.  The
/// scheme configuration is checked before any sharing work begins.
pub fn share_witness(witness: &Vec<PubShared<Fe>>, params: &SchemeParams) -> (r: Result<
    Vec<Vec<WitnessSlot>>,
    PipelineError,
>)
    requires
        classified_valid(witness@),
    ensures
        r is Err <==> !params_valid(*params),
        r matches Err(e) ==> e matches PipelineError::InvalidSchemeParameters,
        r matches Ok(out) ==> {
            &&& out@.len() == params.parties
            &&& (forall|q: int|
                0 <= q < params.parties ==> (#[trigger] out@[q])@.len() == witness@.len())
            &&& (forall|i: int|
                0 <= i < witness@.len() ==> slot_ok(
                    #[trigger] column(out@, i),
                    witness@[i],
                    *params,
                ))
        },
{
    match validate_scheme_params(params) {
        Err(e) => {
            return Err(e);
        },
        Ok(()) => {},
    }
    let n = witness.len();
    let parties = params.parties;
    // slot-major first: one row of party slots per witness slot
    let mut rows: Vec<Vec<WitnessSlot>> = Vec::new();
    let mut i: usize = 0;
    while i < n
        invariant
            n == witness@.len(),
            0 <= i <= n,
            params_valid(*params),
            parties == params.parties,
            classified_valid(witness@),
            rows@.len() == i as int,
            forall|l: int|
                0 <= l < i ==> slot_ok((#[trigger] rows@[l])@, witness@[l], *params),
        decreases n - i,
    {
        let mut row: Vec<WitnessSlot> = Vec::new();
        match witness[i] {
            PubShared::Public(v) => {
                let mut q: usize = 0;
                while q < parties
                    invariant
                        0 <= q <= parties,
                        row@.len() == q as int,
                        forall|l: int|
                            0 <= l < q ==> #[trigger] row@[l] == WitnessSlot::Public(v),
                    decreases parties - q,
                {
                    row.push(WitnessSlot::Public(v));
                    q += 1;
                }
            },
            PubShared::Shared(v) => {
                let shares = match params.scheme {
                    Scheme::Rep3 => rep3_share(v),
                    Scheme::Shamir => shamir_share(v, params.threshold, params.parties),
                };
                let mut q: usize = 0;
                while q < parties
                    invariant
                        0 <= q <= parties,
                        shares@.len() == parties as int,
                        row@.len() == q as int,
                        forall|l: int|
                            0 <= l < q ==> #[trigger] row@[l] == WitnessSlot::Shared(
                                shares@[l],
                            ),
                    decreases parties - q,
                {
                    row.push(WitnessSlot::Shared(shares[q]));
                    q += 1;
                }
                proof {
                    assert(row_shares(row@) =~= shares@);
                    if params.scheme is Shamir {
                        let rand = choose|rand: Seq<int>|
                            {
                                &&& rand.len() == params.threshold as int
                                &&& coeffs_in_field(rand)
                                &&& forall|j: int|
                                    0 <= j < params.parties ==> is_shamir(#[trigger] shares@[j])
                                        && shamir_val_of(shares@[j]) == poly_eval(
                                        shamir_coeffs(v@, rand),
                                        j + 1,
                                    )
                            };
                        let c = shamir_coeffs(v@, rand);
                        assert(c.len() == params.threshold + 1);
                        assert(coeffs_in_field(c)) by {
                            assert forall|l: int| 0 <= l < c.len() implies in_field(
                                #[trigger] c[l],
                            ) by {
                                if l > 0 {
                                    assert(c[l] == rand[l - 1]);
                                }
                            }
                        }
                        assert(c[0] == v@);
                        assert(forall|j: int|
                            0 <= j < params.parties ==> is_shamir(
                                #[trigger] row_shares(row@)[j],
                            ) && shamir_val_of(row_shares(row@)[j]) == poly_eval(c, j + 1));
                        assert(shamir_sharing_of(
                            row_shares(row@),
                            v@,
                            params.threshold as nat,
                            params.parties as nat,
                        ));
                    }
                }
            },
        }
        proof {
            assert(slot_ok(row@, witness@[i as int], *params));
        }
        rows.push(row);
        i += 1;
    }
    // transpose into party-major vectors
    let mut out: Vec<Vec<WitnessSlot>> = Vec::new();
    let mut q: usize = 0;
    while q < parties
        invariant
            n == witness@.len(),
            parties == params.parties,
            params_valid(*params),
            rows@.len() == n as int,
            forall|l: int| 0 <= l < n ==> (#[trigger] rows@[l])@.len() == parties as int,
            forall|l: int|
                0 <= l < n ==> slot_ok((#[trigger] rows@[l])@, witness@[l], *params),
            0 <= q <= parties,
            out@.len() == q as int,
            forall|q2: int, l: int|
                #![trigger (out@[q2])@[l]]
                0 <= q2 < q && 0 <= l < n ==> (out@[q2])@[l] == (rows@[l])@[q2],
            forall|q2: int| 0 <= q2 < q ==> (#[trigger] out@[q2])@.len() == n as int,
        decreases parties - q,
    {
        let mut col: Vec<WitnessSlot> = Vec::new();
        let mut l: usize = 0;
        while l < n
            invariant
                n == rows@.len(),
                0 <= l <= n,
                0 <= q < parties,
                forall|l2: int| 0 <= l2 < n ==> (#[trigger] rows@[l2])@.len() == parties as int,
                col@.len() == l as int,
                forall|l2: int| 0 <= l2 < l ==> #[trigger] col@[l2] == (rows@[l2])@[q as int],
            decreases n - l,
        {
            col.push(rows[l][q]);
            l += 1;
        }
        out.push(col);
        q += 1;
    }
    proof {
        assert forall|i2: int| 0 <= i2 < witness@.len() implies slot_ok(
            #[trigger] column(out@, i2),
            witness@[i2],
            *params,
        ) by {
            assert(column(out@, i2) =~= (rows@[i2])@);
        }
    }
    Ok(out)
}

/// The three parties' entries for input slot `i`, one share each.
pub open spec fn party_entries(maps: Seq<NamedShareMap>, i: int) -> Seq<Share> {
    seq![maps[0].entries@[i].1, maps[1].entries@[i].1, maps[2].entries@[i].1]
}

/// A slot's three shares, one per party in party order, form a
/// replicated sharing of its value for some choice of the two random
/// components.
pub open spec fn input_slot_ok(entries3: Seq<Share>, value: Fe) -> bool {
    &&& entries3.len() == 3
    &&& (forall|q: int| 0 <= q < 3 ==> (#[trigger] entries3[q]).owner == q)
    &&& exists|a1: int, a2: int|
        in_field(a1) && in_field(a2) && rep3_consistent(
            entries3,
            #[trigger] rep3_components(value@, a1, a2),
        )
}

/// Each processed slot has a three-share row replicating its value.
spec fn input_rows_ok(rows: Seq<Vec<Share>>, input: Seq<(String, Fe)>, bound: int) -> bool {
    forall|l: int|
        #![trigger rows[l]]
        0 <= l < bound ==> (rows[l])@.len() == 3 && input_slot_ok((rows[l])@, input[l].1)
}

/// Splits a named input into one named share map per party.  Only the
/// replicated three-party scheme supports split inputs.
pub fn share_input(input: &Vec<(String, Fe)>, params: &SchemeParams) -> (r: Result<
    Vec<NamedShareMap>,
    PipelineError,
>)
    requires
        forall|i: int| 0 <= i < input@.len() ==> (#[trigger] input@[i]).1.valid(),
        forall|i: int, j: int|
            0 <= i < input@.len() && 0 <= j < input@.len() && i != j
                ==> (#[trigger] input@[i]).0@ != (#[trigger] input@[j]).0@,
    ensures
        r is Err <==> !(params_valid(*params) && params.scheme is Rep3),
        r matches Err(e) ==> e matches PipelineError::InvalidSchemeParameters,
        r matches Ok(maps) ==> {
            &&& maps@.len() == 3
            &&& (forall|q: int| 0 <= q < 3 ==> (#[trigger] maps@[q]).wf())
            &&& (forall|q: int|
                0 <= q < 3 ==> (#[trigger] maps@[q]).entries@.len() == input@.len())
            &&& (forall|q: int, i: int|
                #![trigger maps@[q].entries@[i]]
                0 <= q < 3 && 0 <= i < input@.len() ==> maps@[q].entries@[i].0@
                    == input@[i].0@)
            &&& (forall|i: int|
                0 <= i < input@.len() ==> input_slot_ok(
                    party_entries(maps@, i),
                    (#[trigger] input@[i]).1,
                ))
        },
{
    let valid = match params.scheme {
        Scheme::Rep3 => true,
        Scheme::Shamir => false,
    };
    if !valid {
        return Err(PipelineError::InvalidSchemeParameters);
    }
    match validate_scheme_params(params) {
        Err(e) => {
            return Err(e);
        },
        Ok(()) => {},
    }
    let n = input.len();
    // slot-major first: the three shares of each named value
    let mut rows: Vec<Vec<Share>> = Vec::new();
    let mut i: usize = 0;
    while i < n
        invariant
            n == input@.len(),
            0 <= i <= n,
            forall|l: int| 0 <= l < n ==> (#[trigger] input@[l]).1.valid(),
            rows@.len() == i as int,
            input_rows_ok(rows@, input@, i as int),
        decreases n - i,
    {
        let v = input[i].1;
        let shares = rep3_share(v);
        rows.push(shares);
        proof {
            assert((rows@[i as int])@ == shares@);
            assert(input_slot_ok((rows@[i as int])@, input@[i as int].1));
            assert forall|l: int|
                #![trigger rows@[l]]
                0 <= l < i + 1 implies (rows@[l])@.len() == 3 && input_slot_ok(
                (rows@[l])@,
                input@[l].1,
            ) by {
                // mention the row so the invariant's trigger fires
                let row = rows@[l];
            }
            assert(input_rows_ok(rows@, input@, i + 1));
        }
        i += 1;
    }
    let mut maps: Vec<NamedShareMap> = Vec::new();
    let mut q: usize = 0;
    while q < 3
        invariant
            n == input@.len(),
            forall|l: int, j: int|
                0 <= l < n && 0 <= j < n && l != j ==> (#[trigger] input@[l]).0@
                    != (#[trigger] input@[j]).0@,
            rows@.len() == n as int,
            input_rows_ok(rows@, input@, n as int),
            0 <= q <= 3,
            maps@.len() == q as int,
            forall|q2: int| 0 <= q2 < q ==> (#[trigger] maps@[q2]).wf(),
            forall|q2: int| 0 <= q2 < q ==> (#[trigger] maps@[q2]).entries@.len() == n as int,
            forall|q2: int, l: int|
                0 <= q2 < q && 0 <= l < n ==> (#[trigger] maps@[q2].entries@[l]).0@
                    == input@[l].0@ && maps@[q2].entries@[l].1 == (rows@[l])@[q2],
        decreases 3 - q,
    {
        let mut m = NamedShareMap::new();
        let mut l: usize = 0;
        while l < n
            invariant
                n == input@.len(),
                forall|l2: int, j: int|
                    0 <= l2 < n && 0 <= j < n && l2 != j ==> (#[trigger] input@[l2]).0@
                        != (#[trigger] input@[j]).0@,
                rows@.len() == n as int,
                input_rows_ok(rows@, input@, n as int),
                0 <= q < 3,
                0 <= l <= n,
                m.wf(),
                m.entries@.len() == l as int,
                forall|l2: int|
                    0 <= l2 < l ==> (#[trigger] m.entries@[l2]).0@ == input@[l2].0@
                        && m.entries@[l2].1 == (rows@[l2])@[q as int],
            decreases n - l,
        {
            proof {
                // mention the row so the invariant's trigger fires
                let ghost row = rows@[l as int];
            }
            let key = input[l].0.clone();
            let sh = rows[l][q];
            proof {
                crate::merge::lemma_entries_map_dom(m.entries@, key@);
                if m@.dom().contains(key@) {
                    let l2 = choose|l2: int|
                        0 <= l2 < m.entries@.len() && (#[trigger] m.entries@[l2]).0@ == key@;
                    assert(input@[l2].0@ == input@[l as int].0@);
                    assert(false);
                }
            }
            m.insert(key, sh);
            l += 1;
        }
        maps.push(m);
        q += 1;
    }
    proof {
        assert(maps@.len() == 3);
        assert forall|q2: int| 0 <= q2 < 3 implies (#[trigger] maps@[q2]).wf() by {
            // mention the map so the loop invariant's trigger fires
            let m2 = maps@[q2];
        }
        assert forall|q2: int| 0 <= q2 < 3 implies (#[trigger] maps@[q2]).entries@.len()
            == input@.len() by {
            let m2 = maps@[q2];
        }
        assert forall|q2: int, i2: int|
            #![trigger maps@[q2].entries@[i2]]
            0 <= q2 < 3 && 0 <= i2 < input@.len() implies maps@[q2].entries@[i2].0@
            == input@[i2].0@ by {
            let entry = maps@[q2].entries@[i2];
        }
        assert forall|i2: int| 0 <= i2 < input@.len() implies input_slot_ok(
            party_entries(maps@, i2),
            (#[trigger] input@[i2]).1,
        ) by {
            let row = rows@[i2];
            assert((rows@[i2])@.len() == 3);
            assert(party_entries(maps@, i2) =~= (rows@[i2])@);
            assert(input_slot_ok((rows@[i2])@, input@[i2].1));
        }
    }
    Ok(maps)
}

/// The decimal digits of `n`, most significant first; zero is the single
/// digit `0`.
pub open spec fn dec_digits(n: nat) -> Seq<u8>
    decreases n,
{
    if n < 10 {
        seq![(48 + n) as u8]
    } else {
        dec_digits((n / 10) as nat).push((48 + n % 10) as u8)
    }
}

/// Appends the decimal digits of `n`.
fn push_decimal(n: u64, out: &mut Vec<u8>)
    ensures
        final(out)@ == old(out)@ + dec_digits(n as nat),
    decreases n,
{
    if n < 10 {
        out.push(48 + (n as u8));
        proof {
            assert(out@ =~= old(out)@ + dec_digits(n as nat));
        }
    } else {
        proof {
            lemma_div_is_strictly_smaller(n as int, 10);
            lemma_mod_bound(n as int, 10);
        }
        push_decimal(n / 10, out);
        out.push(48 + ((n % 10) as u8));
        proof {
            assert(out@ =~= old(out)@ + dec_digits(n as nat));
        }
    }
}

/// The decimal string of a field element, as ASCII bytes.  The additive
/// identity is written as the single digit `0`.
pub fn decimal_bytes(v: Fe) -> (r: Vec<u8>)
    requires
        v.valid(),
    ensures
        r@ == dec_digits(v@ as nat),
        v@ == 0 ==> r@ == seq![48u8],
{
    let mut out: Vec<u8> = Vec::new();
    push_decimal(v.value(), &mut out);
    proof {
        assert(out@ =~= dec_digits(v@ as nat));
        if v@ == 0 {
            assert(out@ =~= seq![48u8]);
        }
    }
    out
}

/// The public-input listing: the decimal string of each public value, in
/// slot order.
pub fn public_input_listing(values: &Vec<Fe>) -> (r: Vec<Vec<u8>>)
    requires
        forall|i: int| 0 <= i < values@.len() ==> (#[trigger] values@[i]).valid(),
    ensures
        r@.len() == values@.len(),
        forall|i: int| 0 <= i < values@.len() ==> (#[trigger] r@[i])@ == dec_digits(
            values@[i]@ as nat,
        ),
{
    let n = values.len();
    let mut r: Vec<Vec<u8>> = Vec::new();
    let mut i: usize = 0;
    while i < n
        invariant
            n == values@.len(),
            0 <= i <= n,
            forall|l: int| 0 <= l < n ==> (#[trigger] values@[l]).valid(),
            r@.len() == i as int,
            forall|l: int| 0 <= l < i ==> (#[trigger] r@[l])@ == dec_digits(
                values@[l]@ as nat,
            ),
        decreases n - i,
    {
        r.push(decimal_bytes(values[i]));
        i += 1;
    }
    r
}

} // verus!
