use vstd::prelude::*;

use crate::scalar;

verus! {

/// A connection weight: the bits of an IEEE-754 double. The weight is
/// mutable payload of a connection gene, never part of its identity, and
/// the core never computes on it — new values come from a
/// [`WeightDistribution`].
#[derive(Clone, Copy, Debug)]
pub struct Weight(pub u64);

impl Weight {
    /// The weight 0.0, carried by a connection disabled by a node split.
    pub fn zero() -> (w: Weight)
        ensures
            w.0 == scalar::R_ZERO,
    {
        Weight(scalar::R_ZERO)
    }

    /// The weight 1.0, carried by the inbound half of a split connection.
    pub fn one() -> (w: Weight)
        ensures
            w.0 == scalar::R_ONE,
    {
        Weight(scalar::R_ONE)
    }
}

/// The randomness on weights, supplied by the embedder: fresh weights are
/// meant to be uniform over [-1, 1] and perturbation is meant to add
/// gaussian noise of a configured standard deviation. The core relies on
/// neither: its contracts hold whatever values an implementation returns.
pub trait WeightDistribution {
    /// A starting weight for a fresh connection.
    fn initial_weight(&mut self) -> Weight;

    /// `weight` with noise added.
    fn perturb_weight(&mut self, weight: Weight) -> Weight;
}

} // verus!
