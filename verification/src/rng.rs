//! The injected random source: a seedable generator owned by the caller,
//! sampled here through a single trusted wrapper.

use vstd::prelude::*;

verus! {

/// Verus-opaque declaration of rand's seedable standard generator, so
/// that a `rand::rngs::StdRng` handle can be passed through verified
/// code.
#[verifier::external_type_specification]
#[verifier::external_body]
pub struct ExStdRng(rand::rngs::StdRng);

/// Relies on rand's `Rng::gen_range` over `0..n`: it panics only on an
/// empty range, which `n >= 1` rules out, and returns a (uniform) sample
/// inside the half-open range.
#[verifier::external_body]
pub(crate) fn rand_below(rng: &mut rand::rngs::StdRng, n: usize) -> (r: usize)
    requires
        n >= 1,
    ensures
        r < n,
{
    rand::Rng::gen_range(rng, 0..n)
}

} // verus!
