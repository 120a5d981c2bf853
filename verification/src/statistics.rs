use vstd::prelude::*;

use crate::individual::Individual;
use crate::scalar;

verus! {

/// Minimum, average and maximum of one score signal across the
/// population, at each pipeline stage, as double bits.
#[derive(Clone, Copy, Debug)]
pub struct ScoreStatistics {
    pub raw_minimum: u64,
    pub raw_average: u64,
    pub raw_maximum: u64,
    pub shifted_minimum: u64,
    pub shifted_average: u64,
    pub shifted_maximum: u64,
    pub normalized_minimum: u64,
    pub normalized_average: u64,
    pub normalized_maximum: u64,
}

impl ScoreStatistics {
    /// All zeros: the record before anything was measured.
    pub fn zeroed() -> (r: ScoreStatistics)
        ensures
            r.raw_minimum == scalar::R_ZERO,
            r.raw_maximum == scalar::R_ZERO,
    {
        ScoreStatistics {
            raw_minimum: scalar::R_ZERO,
            raw_average: scalar::R_ZERO,
            raw_maximum: scalar::R_ZERO,
            shifted_minimum: scalar::R_ZERO,
            shifted_average: scalar::R_ZERO,
            shifted_maximum: scalar::R_ZERO,
            normalized_minimum: scalar::R_ZERO,
            normalized_average: scalar::R_ZERO,
            normalized_maximum: scalar::R_ZERO,
        }
    }
}

/// What one generation transition reports: the top performer by
/// normalized fitness, the fitness and novelty spreads, the age spread,
/// and how long reproduction took (filled in by the embedder, which owns
/// the clock).
#[derive(Debug)]
pub struct PopulationStatistics {
    pub top_performer: Individual,
    pub fitness: ScoreStatistics,
    pub novelty: ScoreStatistics,
    pub age_maximum: usize,
    pub age_average: u64,
    pub milliseconds_elapsed_reproducing: u128,
}

/// Counters of the outer evaluation loop, around the per-generation
/// population statistics.
#[derive(Debug)]
pub struct Statistics {
    pub num_generation: usize,
    pub time_stamp: u64,
    pub milliseconds_elapsed_evaluation: u128,
    pub population: PopulationStatistics,
}

} // verus!
