//! The random source of the fill.

use vstd::prelude::*;
use rand::rngs::StdRng;
use rand::Rng;

verus! {

#[verifier::external_type_specification]
#[verifier::external_body]
pub struct ExStdRng(StdRng);

/// `Rng::gen_range` on the half-open range `0..len`: some index below
/// `len`. It panics on an empty range.
#[verifier::external_body]
pub(crate) fn random_index(rng: &mut StdRng, len: usize) -> (index: usize)
    requires
        len > 0,
    ensures
        index < len,
{
    rng.gen_range(0..len)
}

/// `Rng::gen_range` on the closed range `-bound..=bound`: some offset inside
/// it. It panics on an empty range.
#[verifier::external_body]
pub(crate) fn random_offset(rng: &mut StdRng, bound: i16) -> (offset: i16)
    requires
        bound >= 0,
    ensures
        -bound <= offset <= bound,
{
    rng.gen_range(-bound..=bound)
}

} // verus!
