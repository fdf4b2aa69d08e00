//! The pipeline orchestrator: a fixed set of named stages, each a pure
//! step from its declared input artifacts to its output artifacts.  A
//! stage invoked before the stage that produces its input fails with a
//! missing-input error; network-bearing stages demand matching session
//! parameters from every party and abort otherwise; and only the
//! replicated-to-Shamir direction of witness translation is legal.

use vstd::prelude::*;
use crate::error::PipelineError;
use crate::share::{params_valid, Scheme, SchemeParams};

verus! {

/// The stages of the proving pipeline, in their natural order.
#[derive(Clone, Copy, PartialEq, Eq, Structural, Debug)]
pub enum Stage {
    SplitWitness,
    SplitInput,
    MergeInputShares,
    GenerateWitness,
    TranslateWitness,
    GenerateProof,
    CreateVK,
    Verify,
}

/// Which artifacts exist for one proving job.  Witness share files carry
/// the scheme they were produced under.
#[derive(Clone, Copy, Debug)]
pub struct ArtifactState {
    pub witness: bool,
    pub input: bool,
    pub circuit: bool,
    pub crs: bool,
    pub input_shares: bool,
    pub merged_input_shares: bool,
    pub witness_shares: Option<Scheme>,
    pub proof: bool,
    pub public_inputs: bool,
    pub verification_key: bool,
}

impl ArtifactState {
    /// No artifacts yet.
    pub fn empty() -> (r: ArtifactState)
        ensures
            r == (ArtifactState {
                witness: false,
                input: false,
                circuit: false,
                crs: false,
                input_shares: false,
                merged_input_shares: false,
                witness_shares: None,
                proof: false,
                public_inputs: false,
                verification_key: false,
            }),
    {
        ArtifactState {
            witness: false,
            input: false,
            circuit: false,
            crs: false,
            input_shares: false,
            merged_input_shares: false,
            witness_shares: None,
            proof: false,
            public_inputs: false,
            verification_key: false,
        }
    }
}

/// The session parameters every party must agree on before a collective
/// stage may run.
#[derive(Clone, Copy, PartialEq, Eq, Structural, Debug)]
pub struct SessionParams {
    pub parties: usize,
    pub threshold: usize,
    pub circuit_id: u64,
}

/// The stage runs a collective protocol over the network.
pub open spec fn stage_needs_network(stage: Stage) -> bool {
    match stage {
        Stage::GenerateWitness => true,
        Stage::TranslateWitness => true,
        Stage::GenerateProof => true,
        _ => false,
    }
}

/// The artifacts a stage consumes are all present.
pub open spec fn stage_inputs_present(stage: Stage, st: ArtifactState) -> bool {
    match stage {
        Stage::SplitWitness => st.witness && st.circuit,
        Stage::SplitInput => st.input && st.circuit,
        Stage::MergeInputShares => st.input_shares,
        Stage::GenerateWitness => st.merged_input_shares && st.circuit,
        Stage::TranslateWitness => st.witness_shares is Some,
        Stage::GenerateProof => st.witness_shares is Some && st.circuit && st.crs,
        Stage::CreateVK => st.circuit && st.crs,
        Stage::Verify => st.proof && st.verification_key && st.crs,
    }
}

/// The scheme configuration a stage demands, checked before anything
/// else.  Splitting and proving insist on a valid scheme; split inputs,
/// their merge and collective witness generation exist only for the
/// replicated scheme; translation targets a valid Shamir configuration.
pub open spec fn stage_config_ok(stage: Stage, ps: SchemeParams) -> bool {
    match stage {
        Stage::SplitWitness => params_valid(ps),
        Stage::SplitInput => params_valid(ps) && ps.scheme is Rep3,
        Stage::MergeInputShares => params_valid(ps) && ps.scheme is Rep3,
        Stage::GenerateWitness => params_valid(ps) && ps.scheme is Rep3,
        Stage::TranslateWitness => params_valid(ps) && ps.scheme is Shamir,
        Stage::GenerateProof => params_valid(ps),
        Stage::CreateVK => true,
        Stage::Verify => true,
    }
}

/// Witness translation starts from replicated shares; every other stage
/// has no pairing constraint.
pub open spec fn stage_pairing_ok(stage: Stage, st: ArtifactState) -> bool {
    match stage {
        Stage::TranslateWitness => st.witness_shares == Some(Scheme::Rep3),
        _ => true,
    }
}

/// Every party joined with the same party count, threshold and circuit.
pub open spec fn sessions_consistent(
    sessions: Seq<SessionParams>,
    ps: SchemeParams,
    circuit_id: u64,
) -> bool {
    &&& sessions.len() == ps.parties
    &&& forall|i: int|
        0 <= i < sessions.len() ==> #[trigger] sessions[i] == (SessionParams {
            parties: ps.parties,
            threshold: ps.threshold,
            circuit_id,
        })
}

/// The sessions a stage needs: collective stages need consistent ones,
/// local stages need none.
pub open spec fn stage_sessions_ok(
    stage: Stage,
    sessions: Seq<SessionParams>,
    ps: SchemeParams,
    circuit_id: u64,
) -> bool {
    stage_needs_network(stage) ==> sessions_consistent(sessions, ps, circuit_id)
}

/// The artifacts after a stage completes.
pub open spec fn stage_output(stage: Stage, st: ArtifactState, ps: SchemeParams) -> ArtifactState {
    match stage {
        Stage::SplitWitness => ArtifactState { witness_shares: Some(ps.scheme), ..st },
        Stage::SplitInput => ArtifactState { input_shares: true, ..st },
        Stage::MergeInputShares => ArtifactState { merged_input_shares: true, ..st },
        Stage::GenerateWitness => ArtifactState { witness_shares: Some(Scheme::Rep3), ..st },
        Stage::TranslateWitness => ArtifactState { witness_shares: Some(Scheme::Shamir), ..st },
        Stage::GenerateProof => ArtifactState { proof: true, public_inputs: true, ..st },
        Stage::CreateVK => ArtifactState { verification_key: true, ..st },
        Stage::Verify => st,
    }
}

/// Runs one stage's admission checks and, when they pass, records the
/// stage's outputs.  Configuration is rejected before anything else;
/// then missing inputs; then an unsupported translation pairing; then
/// inconsistent collective sessions.
pub fn advance(
    st: &ArtifactState,
    stage: Stage,
    params: &SchemeParams,
    sessions: &Vec<SessionParams>,
    circuit_id: u64,
) -> (r: Result<ArtifactState, PipelineError>)
    ensures
        r is Ok <==> {
            &&& stage_config_ok(stage, *params)
            &&& stage_inputs_present(stage, *st)
            &&& stage_pairing_ok(stage, *st)
            &&& stage_sessions_ok(stage, sessions@, *params, circuit_id)
        },
        r matches Ok(st2) ==> st2 == stage_output(stage, *st, *params),
        r matches Err(PipelineError::InvalidSchemeParameters) <==> !stage_config_ok(
            stage,
            *params,
        ),
        r matches Err(PipelineError::MissingInput) <==> stage_config_ok(stage, *params)
            && !stage_inputs_present(stage, *st),
        r matches Err(PipelineError::UnsupportedTranslation) <==> stage_config_ok(stage, *params)
            && stage_inputs_present(stage, *st) && !stage_pairing_ok(stage, *st),
        r matches Err(PipelineError::ProtocolAborted) <==> stage_config_ok(stage, *params)
            && stage_inputs_present(stage, *st) && stage_pairing_ok(stage, *st)
            && !stage_sessions_ok(stage, sessions@, *params, circuit_id),
{
    let config_ok = match stage {
        Stage::SplitWitness => params_ok(params),
        Stage::SplitInput => params_ok(params) && matches!(params.scheme, Scheme::Rep3),
        Stage::MergeInputShares => params_ok(params) && matches!(params.scheme, Scheme::Rep3),
        Stage::GenerateWitness => params_ok(params) && matches!(params.scheme, Scheme::Rep3),
        Stage::TranslateWitness => params_ok(params) && matches!(params.scheme, Scheme::Shamir),
        Stage::GenerateProof => params_ok(params),
        Stage::CreateVK => true,
        Stage::Verify => true,
    };
    if !config_ok {
        return Err(PipelineError::InvalidSchemeParameters);
    }
    let inputs_ok = match stage {
        Stage::SplitWitness => st.witness && st.circuit,
        Stage::SplitInput => st.input && st.circuit,
        Stage::MergeInputShares => st.input_shares,
        Stage::GenerateWitness => st.merged_input_shares && st.circuit,
        Stage::TranslateWitness => st.witness_shares.is_some(),
        Stage::GenerateProof => st.witness_shares.is_some() && st.circuit && st.crs,
        Stage::CreateVK => st.circuit && st.crs,
        Stage::Verify => st.proof && st.verification_key && st.crs,
    };
    if !inputs_ok {
        return Err(PipelineError::MissingInput);
    }
    let pairing_ok = match stage {
        Stage::TranslateWitness => matches!(st.witness_shares, Some(Scheme::Rep3)),
        _ => true,
    };
    if !pairing_ok {
        return Err(PipelineError::UnsupportedTranslation);
    }
    if stage_requires_network(stage) {
        if sessions.len() != params.parties {
            return Err(PipelineError::ProtocolAborted);
        }
        let expected = SessionParams {
            parties: params.parties,
            threshold: params.threshold,
            circuit_id,
        };
        let n = sessions.len();
        let mut i: usize = 0;
        while i < n
            invariant
                n == sessions@.len(),
                0 <= i <= n,
                sessions@.len() == params.parties,
                stage_needs_network(stage),
                stage_config_ok(stage, *params),
                stage_inputs_present(stage, *st),
                stage_pairing_ok(stage, *st),
                expected == (SessionParams {
                    parties: params.parties,
                    threshold: params.threshold,
                    circuit_id,
                }),
                forall|j: int| 0 <= j < i ==> #[trigger] sessions@[j] == expected,
            decreases n - i,
        {
            if !(sessions[i] == expected) {
                return Err(PipelineError::ProtocolAborted);
            }
            i += 1;
        }
    }
    let mut st2 = *st;
    match stage {
        Stage::SplitWitness => {
            st2.witness_shares = Some(params.scheme);
        },
        Stage::SplitInput => {
            st2.input_shares = true;
        },
        Stage::MergeInputShares => {
            st2.merged_input_shares = true;
        },
        Stage::GenerateWitness => {
            st2.witness_shares = Some(Scheme::Rep3);
        },
        Stage::TranslateWitness => {
            st2.witness_shares = Some(Scheme::Shamir);
        },
        Stage::GenerateProof => {
            st2.proof = true;
            st2.public_inputs = true;
        },
        Stage::CreateVK => {
            st2.verification_key = true;
        },
        Stage::Verify => {},
    }
    Ok(st2)
}

/// Whether the stage opens a network session, as executable code.
pub fn stage_requires_network(stage: Stage) -> (r: bool)
    ensures
        r == stage_needs_network(stage),
{
    match stage {
        Stage::GenerateWitness => true,
        Stage::TranslateWitness => true,
        Stage::GenerateProof => true,
        _ => false,
    }
}

/// Executable scheme-parameter validity.
fn params_ok(ps: &SchemeParams) -> (r: bool)
    ensures
        r == params_valid(*ps),
{
    match crate::share::validate_scheme_params(ps) {
        Ok(()) => true,
        Err(_) => false,
    }
}

} // verus!
