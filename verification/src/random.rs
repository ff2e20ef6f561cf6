use vstd::prelude::*;

verus! {

#[verifier::external_type_specification]
#[verifier::external_body]
pub struct ExStdRng(rand::rngs::StdRng);

/// Relies on rand's `SeedableRng::seed_from_u64` for `StdRng`: builds a
/// pseudo-random generator from the given word.  Nothing is promised of the
/// values it will yield.
#[verifier::external_body]
fn seeded_std_rng(seed: u64) -> rand::rngs::StdRng {
    <rand::rngs::StdRng as rand::SeedableRng>::seed_from_u64(seed)
}

/// Relies on rand's `RngExt::random_range`: a value drawn from the
/// non-empty range `0 .. bound`, so strictly below `bound`.
#[verifier::external_body]
fn random_below(rng: &mut rand::rngs::StdRng, bound: usize) -> (r: usize)
    requires
        bound >= 1,
    ensures
        r < bound,
{
    rand::RngExt::random_range(rng, 0..bound)
}

/// The random source the simulation state carries explicitly, so that a run
/// is reproducible from its seed.
pub struct RandomSource {
    pub rng: rand::rngs::StdRng,
}

impl RandomSource {
    pub fn new(seed: u64) -> RandomSource {
        RandomSource { rng: seeded_std_rng(seed) }
    }

    /// A draw from `0 .. bound`.  Which value comes back is left open: the
    /// callers' contracts hold of every outcome.
    pub fn below(&mut self, bound: usize) -> (r: usize)
        requires
            bound >= 1,
        ensures
            r < bound,
    {
        random_below(&mut self.rng, bound)
    }
}

} // verus!
