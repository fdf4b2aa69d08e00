//! Stage sequencing: the orchestrator's admission checks.

use share_pipeline::error::PipelineError;
use share_pipeline::pipeline::{advance, ArtifactState, SessionParams, Stage};
use share_pipeline::share::{Scheme, SchemeParams};

fn rep3_params() -> SchemeParams {
    SchemeParams { scheme: Scheme::Rep3, threshold: 1, parties: 3 }
}

fn sessions(n: usize, threshold: usize, circuit_id: u64) -> Vec<SessionParams> {
    (0..n).map(|_| SessionParams { parties: n, threshold, circuit_id }).collect()
}

#[test]
fn proof_before_witness_generation_is_missing_input() {
    // GenerateProof invoked before GenerateWitness: the witness share
    // artifact does not exist yet, so the stage reports it missing
    let mut st = ArtifactState::empty();
    st.circuit = true;
    st.crs = true;
    let r = advance(&st, Stage::GenerateProof, &rep3_params(), &sessions(3, 1, 7), 7);
    assert!(matches!(r, Err(PipelineError::MissingInput)));
}

#[test]
fn full_stage_sequence() {
    let ps = rep3_params();
    let ses = sessions(3, 1, 99);
    let mut st = ArtifactState::empty();
    st.input = true;
    st.circuit = true;
    st.crs = true;
    let st = advance(&st, Stage::SplitInput, &ps, &ses, 99).unwrap();
    assert!(st.input_shares);
    let st = advance(&st, Stage::MergeInputShares, &ps, &ses, 99).unwrap();
    assert!(st.merged_input_shares);
    let st = advance(&st, Stage::GenerateWitness, &ps, &ses, 99).unwrap();
    assert!(matches!(st.witness_shares, Some(Scheme::Rep3)));
    let shamir = SchemeParams { scheme: Scheme::Shamir, threshold: 1, parties: 3 };
    let st = advance(&st, Stage::TranslateWitness, &shamir, &ses, 99).unwrap();
    assert!(matches!(st.witness_shares, Some(Scheme::Shamir)));
    let st = advance(&st, Stage::GenerateProof, &shamir, &ses, 99).unwrap();
    assert!(st.proof && st.public_inputs);
    let st = advance(&st, Stage::CreateVK, &ps, &ses, 99).unwrap();
    assert!(st.verification_key);
    assert!(advance(&st, Stage::Verify, &ps, &ses, 99).is_ok());
}

#[test]
fn verify_before_proof_is_missing_input() {
    let mut st = ArtifactState::empty();
    st.circuit = true;
    st.crs = true;
    st.verification_key = true;
    let r = advance(&st, Stage::Verify, &rep3_params(), &vec![], 0);
    assert!(matches!(r, Err(PipelineError::MissingInput)));
}

#[test]
fn translation_must_start_from_replicated_shares() {
    let shamir = SchemeParams { scheme: Scheme::Shamir, threshold: 1, parties: 3 };
    let mut st = ArtifactState::empty();
    st.witness_shares = Some(Scheme::Shamir);
    let r = advance(&st, Stage::TranslateWitness, &shamir, &sessions(3, 1, 0), 0);
    assert!(matches!(r, Err(PipelineError::UnsupportedTranslation)));
    // and the target must be a Shamir configuration
    let mut st2 = ArtifactState::empty();
    st2.witness_shares = Some(Scheme::Rep3);
    let r2 = advance(&st2, Stage::TranslateWitness, &rep3_params(), &sessions(3, 1, 0), 0);
    assert!(matches!(r2, Err(PipelineError::InvalidSchemeParameters)));
}

#[test]
fn collective_stages_demand_consistent_sessions() {
    let ps = rep3_params();
    let mut st = ArtifactState::empty();
    st.merged_input_shares = true;
    st.circuit = true;
    // a party joined against another circuit
    let mut bad = sessions(3, 1, 5);
    bad[1].circuit_id = 6;
    let r = advance(&st, Stage::GenerateWitness, &ps, &bad, 5);
    assert!(matches!(r, Err(PipelineError::ProtocolAborted)));
    // a missing party
    let r2 = advance(&st, Stage::GenerateWitness, &ps, &sessions(2, 1, 5), 5);
    assert!(matches!(r2, Err(PipelineError::ProtocolAborted)));
    // a consistent session passes
    assert!(advance(&st, Stage::GenerateWitness, &ps, &sessions(3, 1, 5), 5).is_ok());
}

#[test]
fn configuration_is_rejected_before_inputs() {
    // even with no artifacts at all, a bad configuration is the failure
    let st = ArtifactState::empty();
    let bad = SchemeParams { scheme: Scheme::Rep3, threshold: 3, parties: 3 };
    let r = advance(&st, Stage::SplitWitness, &bad, &vec![], 0);
    assert!(matches!(r, Err(PipelineError::InvalidSchemeParameters)));
}

#[test]
fn local_stages_ignore_sessions() {
    let mut st = ArtifactState::empty();
    st.circuit = true;
    st.crs = true;
    // CreateVK is a single-party stage; no sessions are consulted
    assert!(advance(&st, Stage::CreateVK, &rep3_params(), &vec![], 0).is_ok());
}
