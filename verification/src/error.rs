//! The pipeline's failure taxonomy.  Configuration failures are raised
//! before any sharing or protocol work begins; protocol failures mean the
//! share state can no longer be trusted and the stage must be re-run.
//! A `false` verification outcome is not an error and has no variant here.

use vstd::prelude::*;

verus! {

/// A typed failure of a pipeline component.
#[derive(Clone, Debug)]
pub enum PipelineError {
    /// The scheme, threshold and party count do not form a valid
    /// configuration.
    InvalidSchemeParameters,
    /// Only replicated three-party sharing may be translated, and only to
    /// Shamir sharing.
    UnsupportedTranslation,
    /// A declared public witness index lies beyond the witness length.
    IndexOutOfBounds,
    /// Fewer shares than the scheme's reconstruction threshold requires.
    InsufficientShares,
    /// Shares of different schemes, or an inconsistent party set.
    SchemeMismatch,
    /// Merging requires at least two contributors.
    TooFewContributors,
    /// Two contributors both define the named input slot.
    DuplicateShareKey(String),
    /// The preprocessed randomness pool holds fewer units than the
    /// translation needs.
    RandomnessExhausted,
    /// A collective stage could not complete its rounds with consistent
    /// session parameters at every party.
    ProtocolAborted,
    /// A stage was invoked before the stage that produces its input.
    MissingInput,
}

impl PipelineError {
    /// A short stable name for the failure, for reporting at the edges.
    pub fn describe(&self) -> (r: &'static str)
        ensures
            r@.len() > 0,
    {
        proof {
            reveal_strlit("invalid scheme parameters");
            reveal_strlit("unsupported translation");
            reveal_strlit("public input index out of bounds");
            reveal_strlit("insufficient shares");
            reveal_strlit("scheme mismatch");
            reveal_strlit("too few contributors");
            reveal_strlit("duplicate share key");
            reveal_strlit("randomness exhausted");
            reveal_strlit("protocol aborted");
            reveal_strlit("missing input artifact");
        }
        match self {
            PipelineError::InvalidSchemeParameters => "invalid scheme parameters",
            PipelineError::UnsupportedTranslation => "unsupported translation",
            PipelineError::IndexOutOfBounds => "public input index out of bounds",
            PipelineError::InsufficientShares => "insufficient shares",
            PipelineError::SchemeMismatch => "scheme mismatch",
            PipelineError::TooFewContributors => "too few contributors",
            PipelineError::DuplicateShareKey(_) => "duplicate share key",
            PipelineError::RandomnessExhausted => "randomness exhausted",
            PipelineError::ProtocolAborted => "protocol aborted",
            PipelineError::MissingInput => "missing input artifact",
        }
    }
}

} // verus!
