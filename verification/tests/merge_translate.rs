//! The merge engine and the cross-scheme translator.

use share_pipeline::error::PipelineError;
use share_pipeline::field::Fe;
use share_pipeline::merge::{merge, NamedShareMap};
use share_pipeline::share::{rep3_reconstruct, rep3_share, shamir_reconstruct, Share};
use share_pipeline::translate::{
    translate_rep3_to_shamir, translate_witness_rep3_to_shamir, RandomnessPool, SessionSlot,
};

fn map_of(entries: &[(&str, u64)]) -> NamedShareMap {
    let mut m = NamedShareMap::new();
    for (name, v) in entries.iter() {
        let shares = rep3_share(Fe::new(*v));
        m.insert(name.to_string(), shares[0]);
    }
    m
}

#[test]
fn merge_combines_disjoint_contributors() {
    let a = map_of(&[("x", 1), ("y", 2)]);
    let b = map_of(&[("z", 3)]);
    let merged = merge(&vec![a, b]).unwrap();
    assert_eq!(merged.len(), 3);
    assert!(merged.get(&"x".to_string()).is_some());
    assert!(merged.get(&"y".to_string()).is_some());
    assert!(merged.get(&"z".to_string()).is_some());
    assert!(merged.get(&"w".to_string()).is_none());
}

#[test]
fn merge_is_commutative_on_disjoint_keys() {
    let a = map_of(&[("x", 1), ("y", 2)]);
    let b = map_of(&[("z", 3), ("w", 4)]);
    let ab = merge(&vec![clone_map(&a), clone_map(&b)]).unwrap();
    let ba = merge(&vec![b, a]).unwrap();
    assert_eq!(ab.len(), ba.len());
    for name in ["x", "y", "z", "w"].iter() {
        let k = name.to_string();
        assert_eq!(ab.get(&k).unwrap(), ba.get(&k).unwrap());
    }
}

#[test]
fn merge_is_associative_on_disjoint_keys() {
    let a = map_of(&[("x", 1)]);
    let b = map_of(&[("y", 2)]);
    let c = map_of(&[("z", 3)]);
    let left = merge(&vec![
        merge(&vec![clone_map(&a), clone_map(&b)]).unwrap(),
        clone_map(&c),
    ])
    .unwrap();
    let right = merge(&vec![a, merge(&vec![b, c]).unwrap()]).unwrap();
    assert_eq!(left.len(), right.len());
    for name in ["x", "y", "z"].iter() {
        let k = name.to_string();
        assert_eq!(left.get(&k).unwrap(), right.get(&k).unwrap());
    }
}

#[test]
fn merge_rejects_duplicate_keys_in_any_order() {
    let a = map_of(&[("x", 1), ("y", 2)]);
    let b = map_of(&[("y", 3)]);
    match merge(&vec![clone_map(&a), clone_map(&b)]) {
        Err(PipelineError::DuplicateShareKey(k)) => assert_eq!(k, "y"),
        other => panic!("expected a duplicate-key failure, got {:?}", other.is_ok()),
    }
    match merge(&vec![b, a]) {
        Err(PipelineError::DuplicateShareKey(k)) => assert_eq!(k, "y"),
        other => panic!("expected a duplicate-key failure, got {:?}", other.is_ok()),
    }
}

#[test]
fn merge_needs_two_contributors() {
    let a = map_of(&[("x", 1)]);
    assert!(matches!(
        merge(&vec![a]),
        Err(PipelineError::TooFewContributors)
    ));
    assert!(matches!(
        merge(&vec![]),
        Err(PipelineError::TooFewContributors)
    ));
}

fn clone_map(m: &NamedShareMap) -> NamedShareMap {
    let mut c = NamedShareMap::new();
    for (k, sh) in m.entries.iter() {
        c.insert(k.clone(), *sh);
    }
    c
}

#[test]
fn translate_preserves_every_value() {
    // replicated sharings of three values become Shamir sharings of the
    // same values, in the same order
    let values = [10u64, 20, 30];
    let triples: Vec<Vec<Share>> = values.iter().map(|v| rep3_share(Fe::new(*v))).collect();
    let mut pool = RandomnessPool::fresh(3 * 1 * 3);
    let out = translate_rep3_to_shamir(&triples, 1, 3, &mut pool).unwrap();
    assert_eq!(out.len(), 3);
    assert_eq!(pool.remaining(), 0);
    for (k, v) in values.iter().enumerate() {
        assert_eq!(out[k].len(), 3);
        // the replicated side reconstructs the value
        assert_eq!(rep3_reconstruct(&triples[k]).unwrap().value(), *v);
        // so does the Shamir side, from any two shares
        let subset = vec![out[k][1], out[k][2]];
        assert_eq!(shamir_reconstruct(&subset, 1).unwrap().value(), *v);
        let subset2 = vec![out[k][0], out[k][2]];
        assert_eq!(shamir_reconstruct(&subset2, 1).unwrap().value(), *v);
    }
}

#[test]
fn translate_higher_threshold() {
    let triples = vec![rep3_share(Fe::new(5555))];
    let mut pool = RandomnessPool::fresh(3 * 2);
    let out = translate_rep3_to_shamir(&triples, 2, 5, &mut pool).unwrap();
    assert_eq!(out[0].len(), 5);
    let subset = vec![out[0][0], out[0][3], out[0][4]];
    assert_eq!(shamir_reconstruct(&subset, 2).unwrap().value(), 5555);
}

#[test]
fn translate_fails_fast_on_short_pool() {
    let triples = vec![rep3_share(Fe::new(1)), rep3_share(Fe::new(2))];
    // two values at threshold one need six units; five are not enough
    let mut pool = RandomnessPool::fresh(5);
    assert!(matches!(
        translate_rep3_to_shamir(&triples, 1, 3, &mut pool),
        Err(PipelineError::RandomnessExhausted)
    ));
    // nothing was consumed
    assert_eq!(pool.remaining(), 5);
}

#[test]
fn translate_rejects_malformed_triples() {
    let mut triple = rep3_share(Fe::new(9));
    triple.pop();
    let mut pool = RandomnessPool::fresh(100);
    assert!(matches!(
        translate_rep3_to_shamir(&vec![triple], 1, 3, &mut pool),
        Err(PipelineError::SchemeMismatch)
    ));
    assert_eq!(pool.remaining(), 100);
}

#[test]
fn witness_translation_bypasses_public_slots() {
    // a witness with a public slot between two shared ones: the public
    // value passes through untouched, the shared values keep their order
    let slots = vec![
        SessionSlot::Shared(rep3_share(Fe::new(100))),
        SessionSlot::Public(Fe::new(3)),
        SessionSlot::Shared(rep3_share(Fe::new(200))),
    ];
    let mut pool = RandomnessPool::fresh(2 * 3 * 1);
    let out = translate_witness_rep3_to_shamir(&slots, 1, 3, &mut pool).unwrap();
    assert_eq!(out.len(), 3);
    assert_eq!(pool.remaining(), 0);
    match &out[1] {
        SessionSlot::Public(v) => assert_eq!(v.value(), 3),
        SessionSlot::Shared(_) => panic!("the public slot must pass through"),
    }
    for (i, expected) in [(0usize, 100u64), (2, 200)] {
        match &out[i] {
            SessionSlot::Shared(shares) => {
                let subset = vec![shares[0], shares[2]];
                assert_eq!(shamir_reconstruct(&subset, 1).unwrap().value(), expected);
            },
            SessionSlot::Public(_) => panic!("shared slots stay shared"),
        }
    }
}

#[test]
fn witness_translation_fails_fast() {
    let slots = vec![
        SessionSlot::Shared(rep3_share(Fe::new(1))),
        SessionSlot::Shared(rep3_share(Fe::new(2))),
    ];
    let mut pool = RandomnessPool::fresh(5);
    assert!(matches!(
        translate_witness_rep3_to_shamir(&slots, 1, 3, &mut pool),
        Err(PipelineError::RandomnessExhausted)
    ));
    assert_eq!(pool.remaining(), 5);
}
