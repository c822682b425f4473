//! The random source of the sketches.
//!
//! Nothing in this file is proved: each function hands one draw of the `rand`
//! crate to the verified code, which is then checked for every value that the
//! draw may have.

use vstd::prelude::*;
use rand::rngs::StdRng;
use rand::Rng;

verus! {

/// `rand::rngs::StdRng`, the generator that the sketches draw from. Its state
/// is opaque to the verifier.
#[verifier::external_type_specification]
#[verifier::external_body]
pub struct ExStdRng(StdRng);

/// Calls `rand::Rng::gen::<bool>`: a fair coin. Nothing is claimed of the
/// result.
#[verifier::external_body]
pub(crate) fn coin(rng: &mut StdRng) -> (heads: bool) {
    rng.gen()
}

/// Calls `rand::Rng::gen_range` on `0..len`. The call panics on an empty
/// range, hence the precondition; for a non-empty range of integers it
/// returns a member of the range, which is all that is claimed.
#[verifier::external_body]
pub(crate) fn pick(rng: &mut StdRng, len: usize) -> (index: usize)
    requires
        len > 0,
    ensures
        index < len,
{
    rng.gen_range(0..len)
}

} // verus!
