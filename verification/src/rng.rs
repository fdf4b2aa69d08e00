//! Entropy for the sharing engine.  Drawing happens behind one trusted
//! wrapper; everything proved about sharing holds for every value the
//! wrapper may return.

use vstd::prelude::*;
use crate::field::Fe;

verus! {

/// Relies on rand::random::<u64> for entropy; nothing is promised of the
/// drawn value.
#[verifier::external_body]
fn random_u64() -> u64 {
    rand::random::<u64>()
}

/// A field element drawn at random (a 64-bit draw reduced into the field).
pub fn random_fe() -> (r: Fe)
    ensures
        r.valid(),
{
    Fe::new(random_u64())
}

} // verus!
