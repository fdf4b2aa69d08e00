//! The witness classifier, the sharing engine and the listing formatter.

use share_pipeline::error::PipelineError;
use share_pipeline::field::Fe;
use share_pipeline::share::{rep3_reconstruct, shamir_reconstruct, Scheme, SchemeParams, Share};
use share_pipeline::witness::{
    classify, decimal_bytes, public_input_listing, share_input, share_witness, PubShared,
    WitnessSlot,
};

fn rep3_params() -> SchemeParams {
    SchemeParams { scheme: Scheme::Rep3, threshold: 1, parties: 3 }
}

fn fes(vals: &[u64]) -> Vec<Fe> {
    vals.iter().map(|v| Fe::new(*v)).collect()
}

/// The slot's share in one party's split witness.
fn slot_share(slot: &WitnessSlot) -> Share {
    match slot {
        WitnessSlot::Shared(sh) => *sh,
        WitnessSlot::Public(_) => panic!("expected a shared slot"),
    }
}

#[test]
fn classify_tags_public_slots() {
    let witness = fes(&[3, 5, 8, 1]);
    let w = classify(&witness, &vec![0]).unwrap();
    assert_eq!(w.len(), 4);
    assert!(matches!(w[0], PubShared::Public(v) if v.value() == 3));
    assert!(matches!(w[1], PubShared::Shared(v) if v.value() == 5));
    assert!(matches!(w[2], PubShared::Shared(v) if v.value() == 8));
    assert!(matches!(w[3], PubShared::Shared(v) if v.value() == 1));
}

#[test]
fn classify_rejects_out_of_bounds_index() {
    let witness = fes(&[3, 5]);
    assert!(matches!(
        classify(&witness, &vec![0, 2]),
        Err(PipelineError::IndexOutOfBounds)
    ));
}

#[test]
fn split_witness_two_of_three_reconstruct() {
    // the four-slot witness [3, 5, 8, 1] with slot 0 public, under the
    // replicated scheme: any two of the three parties reconstruct it
    let witness = fes(&[3, 5, 8, 1]);
    let classified = classify(&witness, &vec![0]).unwrap();
    let parties = share_witness(&classified, &rep3_params()).unwrap();
    assert_eq!(parties.len(), 3);
    for p in parties.iter() {
        assert_eq!(p.len(), 4);
        assert!(matches!(p[0], WitnessSlot::Public(v) if v.value() == 3));
    }
    let expected = [3u64, 5, 8, 1];
    for i in 0..3 {
        for j in 0..3 {
            if i == j {
                continue;
            }
            for slot in 1..4 {
                let subset = vec![
                    slot_share(&parties[i][slot]),
                    slot_share(&parties[j][slot]),
                ];
                assert_eq!(
                    rep3_reconstruct(&subset).unwrap().value(),
                    expected[slot]
                );
            }
        }
    }
    // all three parties reconstruct exactly as well
    for slot in 1..4 {
        let all = vec![
            slot_share(&parties[0][slot]),
            slot_share(&parties[1][slot]),
            slot_share(&parties[2][slot]),
        ];
        assert_eq!(rep3_reconstruct(&all).unwrap().value(), expected[slot]);
    }
    // one party alone cannot reconstruct any private slot
    for slot in 1..4 {
        let single = vec![slot_share(&parties[0][slot])];
        assert!(matches!(
            rep3_reconstruct(&single),
            Err(PipelineError::InsufficientShares)
        ));
    }
}

#[test]
fn split_witness_shamir() {
    let witness = fes(&[11, 22]);
    let classified = classify(&witness, &vec![]).unwrap();
    let ps = SchemeParams { scheme: Scheme::Shamir, threshold: 1, parties: 3 };
    let parties = share_witness(&classified, &ps).unwrap();
    assert_eq!(parties.len(), 3);
    for slot in 0..2 {
        let subset = vec![
            slot_share(&parties[2][slot]),
            slot_share(&parties[0][slot]),
        ];
        assert_eq!(
            shamir_reconstruct(&subset, 1).unwrap().value(),
            witness[slot].value()
        );
    }
}

#[test]
fn split_witness_rejects_bad_params() {
    let witness = fes(&[1]);
    let classified = classify(&witness, &vec![]).unwrap();
    let bad = SchemeParams { scheme: Scheme::Rep3, threshold: 1, parties: 5 };
    assert!(matches!(
        share_witness(&classified, &bad),
        Err(PipelineError::InvalidSchemeParameters)
    ));
}

#[test]
fn split_input_shares_by_name() {
    let input = vec![
        ("alpha".to_string(), Fe::new(17)),
        ("beta".to_string(), Fe::new(4096)),
    ];
    let maps = share_input(&input, &rep3_params()).unwrap();
    assert_eq!(maps.len(), 3);
    for (name, value) in input.iter() {
        let shares: Vec<Share> = maps
            .iter()
            .map(|m| m.get(name).expect("every party holds every name"))
            .collect();
        assert_eq!(rep3_reconstruct(&shares).unwrap().value(), value.value());
    }
}

#[test]
fn split_input_rejects_shamir() {
    let input = vec![("x".to_string(), Fe::new(1))];
    let ps = SchemeParams { scheme: Scheme::Shamir, threshold: 1, parties: 3 };
    assert!(matches!(
        share_input(&input, &ps),
        Err(PipelineError::InvalidSchemeParameters)
    ));
}

#[test]
fn decimal_listing_writes_zero_as_single_digit() {
    assert_eq!(decimal_bytes(Fe::new(0)), b"0".to_vec());
    assert_eq!(decimal_bytes(Fe::new(42)), b"42".to_vec());
    assert_eq!(decimal_bytes(Fe::new(1000000007)), b"1000000007".to_vec());
    assert_eq!(
        decimal_bytes(Fe::new(2305843009213693950)),
        b"2305843009213693950".to_vec()
    );
    let listing = public_input_listing(&fes(&[0, 7, 123]));
    assert_eq!(listing, vec![b"0".to_vec(), b"7".to_vec(), b"123".to_vec()]);
}
