use vstd::prelude::*;

use rand::Rng;
use rand::SeedableRng;

verus! {

/// rand's `SmallRng`, declared so that it can live in a field; the core
/// sees its values as opaque.
#[verifier::external_type_specification]
#[verifier::external_body]
pub struct ExSmallRng(rand::rngs::SmallRng);

/// Relies on rand's `SeedableRng::seed_from_u64`: builds a deterministic
/// `SmallRng` from a seed.
#[verifier::external_body]
fn seeded_small_rng(seed: u64) -> rand::rngs::SmallRng {
    rand::rngs::SmallRng::seed_from_u64(seed)
}

/// Relies on rand's `Rng::gen_range` over `0..n`, which panics on an empty
/// range and otherwise samples it uniformly: the draw lies below `n`.
#[verifier::external_body]
fn sample_below(rng: &mut rand::rngs::SmallRng, n: usize) -> (r: usize)
    requires
        n >= 1,
    ensures
        r < n,
{
    rng.gen_range(0..n)
}

/// Relies on rand's `Rng::gen` for `bool`: a fair coin.
#[verifier::external_body]
fn sample_bool(rng: &mut rand::rngs::SmallRng) -> bool {
    rng.gen()
}

/// Relies on rand's `Rng::gen` for `u32`: a uniform 32-bit draw.
#[verifier::external_body]
fn sample_u32(rng: &mut rand::rngs::SmallRng) -> u32 {
    rng.gen()
}

/// A probability, in units of 2^-32: `0` never fires, [`CHANCE_ALWAYS`]
/// always does. The embedder converts its configured per-operator rates
/// into this fixed-point form.
#[derive(Clone, Copy, Debug)]
pub struct Chance(pub u64);

/// The chance that always fires: 2^32.
pub const CHANCE_ALWAYS: u64 = 0x1_0000_0000;

/// The structural randomness of the evolutionary loop: a small fast
/// generator seeded once per run, drawn on for uniform picks, fair coins
/// and gated mutation decisions.
pub struct NeatRng {
    small: rand::rngs::SmallRng,
}

impl NeatRng {
    pub fn new(seed: u64) -> NeatRng {
        NeatRng { small: seeded_small_rng(seed) }
    }

    /// A uniform draw below `n`.
    pub fn below(&mut self, n: usize) -> (r: usize)
        requires
            n >= 1,
        ensures
            r < n,
    {
        sample_below(&mut self.small, n)
    }

    /// A fair coin.
    pub fn coin(&mut self) -> bool {
        sample_bool(&mut self.small)
    }

    /// A biased coin: fires with probability `chance` in units of 2^-32.
    /// An impossible chance never fires and a certain one always does.
    pub fn gamble(&mut self, chance: Chance) -> (r: bool)
        ensures
            chance.0 == 0 ==> !r,
            chance.0 >= CHANCE_ALWAYS ==> r,
    {
        let draw = sample_u32(&mut self.small);
        (draw as u64) < chance.0
    }
}

} // verus!
