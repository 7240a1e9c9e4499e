//! Random draws used by maze generation, taken from `rand`.

use vstd::prelude::*;

verus! {

#[verifier::external_type_specification]
#[verifier::external_body]
pub struct ExStdRng(rand::rngs::StdRng);

/// Relies on `rand::Rng::gen_range(low, high)`: a value drawn from `[low, high)`.
/// The call panics when `low >= high`, which `requires` rules out.
#[verifier::external_body]
pub(crate) fn gen_index(rng: &mut rand::rngs::StdRng, low: usize, high: usize) -> (r: usize)
    requires
        low < high,
    ensures
        low <= r < high,
{
    rand::Rng::gen_range(rng, low, high)
}

/// Relies on `rand::Rng::gen::<bool>()`: a fair coin flip; any value may come back.
#[verifier::external_body]
pub(crate) fn gen_flag(rng: &mut rand::rngs::StdRng) -> (r: bool) {
    rand::Rng::gen::<bool>(rng)
}

} // verus!
