//! Multi-party secret-sharing pipeline: a share codec for replicated
//! three-party (REP3) and Shamir threshold sharing over a prime field,
//! a witness classifier, engines for splitting, merging and translating
//! shares, and the stage machine that sequences the proving pipeline.

pub mod error;
pub mod field;
pub mod merge;
pub mod pipeline;
pub mod poly;
pub mod rng;
pub mod share;
pub mod translate;
pub mod witness;
pub mod zkey;

pub use field::Fe;
