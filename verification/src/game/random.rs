//! Random numbers from a generator that is started from a seed.
use vstd::prelude::*;

verus! {

/// `fastrand::Rng`, a generator of random numbers; nothing is claimed of
/// what it holds.
#[verifier::external_type_specification]
#[verifier::external_body]
pub struct ExRng(fastrand::Rng);

/// `fastrand::Rng::with_seed`: a generator that starts from `seed`. Nothing
/// is claimed of the generator.
#[verifier::external_body]
pub(crate) fn seeded(seed: u64) -> fastrand::Rng {
    fastrand::Rng::with_seed(seed)
}

/// `fastrand::Rng::u64` on the range from `low` to `high`, both included:
/// the number that comes back lies in that range, and nothing else is
/// claimed of it. An empty range, on which the generator panics, is left
/// out.
#[verifier::external_body]
pub(crate) fn random_u64(rng: &mut fastrand::Rng, low: u64, high: u64) -> (r: u64)
    requires
        low <= high,
    ensures
        low <= r <= high,
{
    rng.u64(low..=high)
}

} // verus!
