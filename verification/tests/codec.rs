//! The share codec: round trips, thresholds and the field arithmetic.

use share_pipeline::field::{Fe, MODULUS};
use share_pipeline::error::PipelineError;
use share_pipeline::share::{
    reconstruct, rep3_reconstruct, rep3_share, rep3_share_with, shamir_reconstruct, shamir_share,
    share, validate_scheme_params, Scheme, SchemeParams, Share, SharePayload,
};

fn rep3_params() -> SchemeParams {
    SchemeParams { scheme: Scheme::Rep3, threshold: 1, parties: 3 }
}

fn shamir_params(threshold: usize, parties: usize) -> SchemeParams {
    SchemeParams { scheme: Scheme::Shamir, threshold, parties }
}

#[test]
fn field_arithmetic_exact() {
    let a = Fe::new(3);
    let b = Fe::new(5);
    assert_eq!(a.add(b).value(), 8);
    assert_eq!(b.sub(a).value(), 2);
    assert_eq!(a.sub(b).value(), MODULUS - 2);
    assert_eq!(a.mul(b).value(), 15);
    assert_eq!(a.neg().value(), MODULUS - 3);
    assert_eq!(Fe::new(MODULUS - 1).add(Fe::one()).value(), 0);
    assert_eq!(Fe::new(MODULUS).value(), 0);
}

#[test]
fn field_inverse() {
    let a = Fe::new(12345678901234567);
    let inv = a.inv().expect("nonzero elements are invertible");
    assert_eq!(a.mul(inv).value(), 1);
    assert!(Fe::zero().inv().is_none());
    assert_eq!(Fe::one().inv().unwrap().value(), 1);
}

#[test]
fn rep3_round_trip_all_pairs() {
    let v = Fe::new(123456789);
    let shares = rep3_share(v);
    assert_eq!(shares.len(), 3);
    // all three parties
    assert_eq!(rep3_reconstruct(&shares).unwrap().value(), v.value());
    // every pair of two parties
    for i in 0..3 {
        for j in 0..3 {
            if i != j {
                let subset = vec![shares[i], shares[j]];
                assert_eq!(rep3_reconstruct(&subset).unwrap().value(), v.value());
            }
        }
    }
}

#[test]
fn rep3_single_share_insufficient() {
    let shares = rep3_share(Fe::new(77));
    let single = vec![shares[0]];
    assert!(matches!(
        rep3_reconstruct(&single),
        Err(PipelineError::InsufficientShares)
    ));
    let none: Vec<Share> = vec![];
    assert!(matches!(
        rep3_reconstruct(&none),
        Err(PipelineError::InsufficientShares)
    ));
}

#[test]
fn rep3_fixed_randomness_is_deterministic() {
    let v = Fe::new(42);
    let shares = rep3_share_with(v, Fe::new(1000), Fe::new(2000));
    assert_eq!(rep3_reconstruct(&shares).unwrap().value(), 42);
    match shares[1].payload {
        SharePayload::Rep3(pr) => {
            assert_eq!(pr.a.value(), 1000);
            assert_eq!(pr.b.value(), 2000);
        },
        _ => panic!("expected a replicated share"),
    }
}

#[test]
fn shamir_two_of_three_recover_seven() {
    // threshold 1, three parties, sharing the value 7: any two of the
    // three evaluations interpolate to 7
    let shares = shamir_share(Fe::new(7), 1, 3);
    assert_eq!(shares.len(), 3);
    for i in 0..3 {
        for j in 0..3 {
            if i != j {
                let subset = vec![shares[i], shares[j]];
                assert_eq!(shamir_reconstruct(&subset, 1).unwrap().value(), 7);
            }
        }
    }
}

#[test]
fn shamir_single_share_insufficient() {
    let shares = shamir_share(Fe::new(7), 1, 3);
    let single = vec![shares[2]];
    assert!(matches!(
        shamir_reconstruct(&single, 1),
        Err(PipelineError::InsufficientShares)
    ));
}

#[test]
fn shamir_higher_threshold() {
    let v = Fe::new(987654321);
    let shares = shamir_share(v, 2, 5);
    assert_eq!(shares.len(), 5);
    let subset = vec![shares[4], shares[1], shares[3]];
    assert_eq!(shamir_reconstruct(&subset, 2).unwrap().value(), v.value());
    let short = vec![shares[0], shares[1]];
    assert!(matches!(
        shamir_reconstruct(&short, 2),
        Err(PipelineError::InsufficientShares)
    ));
}

#[test]
fn mixed_schemes_rejected() {
    let r = rep3_share(Fe::new(5));
    let s = shamir_share(Fe::new(5), 1, 3);
    let mixed = vec![r[0], s[1]];
    assert!(matches!(
        rep3_reconstruct(&mixed),
        Err(PipelineError::SchemeMismatch)
    ));
    let mixed2 = vec![s[0], r[1]];
    assert!(matches!(
        shamir_reconstruct(&mixed2, 1),
        Err(PipelineError::SchemeMismatch)
    ));
}

#[test]
fn duplicate_owner_rejected() {
    let r = rep3_share(Fe::new(5));
    let dup = vec![r[0], r[0]];
    assert!(matches!(
        rep3_reconstruct(&dup),
        Err(PipelineError::SchemeMismatch)
    ));
    let s = shamir_share(Fe::new(5), 1, 3);
    let dup2 = vec![s[1], s[1]];
    assert!(matches!(
        shamir_reconstruct(&dup2, 1),
        Err(PipelineError::SchemeMismatch)
    ));
}

#[test]
fn scheme_parameter_validation() {
    assert!(validate_scheme_params(&rep3_params()).is_ok());
    assert!(validate_scheme_params(&shamir_params(1, 3)).is_ok());
    assert!(validate_scheme_params(&shamir_params(2, 5)).is_ok());
    let bad = [
        SchemeParams { scheme: Scheme::Rep3, threshold: 2, parties: 3 },
        SchemeParams { scheme: Scheme::Rep3, threshold: 1, parties: 4 },
        SchemeParams { scheme: Scheme::Shamir, threshold: 0, parties: 3 },
        SchemeParams { scheme: Scheme::Shamir, threshold: 3, parties: 3 },
        SchemeParams { scheme: Scheme::Shamir, threshold: 5, parties: 4 },
    ];
    for ps in bad.iter() {
        assert!(matches!(
            validate_scheme_params(ps),
            Err(PipelineError::InvalidSchemeParameters)
        ));
    }
}

#[test]
fn share_dispatcher_round_trips() {
    let v = Fe::new(31337);
    let ps = rep3_params();
    let shares = share(v, &ps).unwrap();
    assert_eq!(reconstruct(&shares, &ps).unwrap().value(), 31337);

    let ps2 = shamir_params(2, 4);
    let shares2 = share(v, &ps2).unwrap();
    assert_eq!(reconstruct(&shares2, &ps2).unwrap().value(), 31337);

    let bad = SchemeParams { scheme: Scheme::Rep3, threshold: 2, parties: 3 };
    assert!(matches!(
        share(v, &bad),
        Err(PipelineError::InvalidSchemeParameters)
    ));
    assert!(matches!(
        reconstruct(&shares, &bad),
        Err(PipelineError::InvalidSchemeParameters)
    ));
}

#[test]
fn shares_differ_from_value() {
    // a share is not the value itself: summing requires the other parts
    let v = Fe::new(999);
    let shares = rep3_share_with(v, Fe::new(1), Fe::new(2));
    match shares[0].payload {
        SharePayload::Rep3(pr) => {
            assert_eq!(pr.a.value(), Fe::new(999).sub(Fe::new(1)).sub(Fe::new(2)).value());
        },
        _ => panic!("expected a replicated share"),
    }
}
