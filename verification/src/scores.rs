use vstd::prelude::*;

use crate::scalar::{max_with_one, RealArithmetic};

verus! {

// Fitness and novelty run through the same three-stage transform: the raw
// value, the raw value shifted down by a population baseline, and the
// shifted value normalized by the population spread floored at one. The
// stages are kept as distinct types so a raw value cannot slip into a
// slot meant for a normalized one. The scalars are IEEE-754 double bits;
// the arithmetic itself comes from the embedder's `RealArithmetic`.

/// A value that can move through the score pipeline.
pub trait Score where Self: Sized {
    type Value;

    fn value(&self) -> Self::Value;

    fn shift(self, baseline: Self::Value) -> Self;

    fn normalize_with(self, with: Self::Value) -> Self;
}

/// Marker for the pipeline stages.
pub trait ScoreType {

}

/// A scalar that scores wrap: it can report its value.
pub trait ScoreValue {
    type Value;

    fn value(&self) -> Self::Value;
}

/// A fitness scalar, as double bits.
#[derive(Clone, Copy, Debug, PartialEq)]
pub struct Fitness(pub u64);

impl ScoreValue for Fitness {
    type Value = u64;

    fn value(&self) -> u64 {
        self.0
    }
}

/// A novelty scalar, as double bits.
#[derive(Clone, Copy, Debug, PartialEq)]
pub struct Novelty(pub u64);

impl ScoreValue for Novelty {
    type Value = u64;

    fn value(&self) -> u64 {
        self.0
    }
}

/// An untransformed scalar.
#[derive(Clone, Copy, Debug, PartialEq)]
pub struct Raw<T: ScoreValue>(pub T);

/// A scalar with the population baseline subtracted.
#[derive(Clone, Copy, Debug, PartialEq)]
pub struct Shifted<T: ScoreValue>(pub T);

/// A shifted scalar divided by the population spread, floored at one.
#[derive(Clone, Copy, Debug, PartialEq)]
pub struct Normalized<T: ScoreValue>(pub T);

impl<T: ScoreValue> ScoreType for Raw<T> {

}

impl<T: ScoreValue> ScoreType for Shifted<T> {

}

impl<T: ScoreValue> ScoreType for Normalized<T> {

}

impl Raw<Fitness> {
    pub fn fitness(fitness: u64) -> (r: Self)
        ensures
            r.0.0 == fitness,
    {
        Raw(Fitness(fitness))
    }

    pub fn value(&self) -> (v: u64)
        ensures
            v == self.0.0,
    {
        self.0.0
    }

    /// The raw value minus the baseline, through the embedder's
    /// subtraction.
    pub fn shift<M: RealArithmetic>(self, baseline: u64, math: &M) -> (r: Shifted<Fitness>) {
        Shifted(Fitness(math.sub(self.0.0, baseline)))
    }
}

impl Shifted<Fitness> {
    pub fn value(&self) -> (v: u64)
        ensures
            v == self.0.0,
    {
        self.0.0
    }

    /// The shifted value divided by `with` floored at one, so a
    /// population with hardly any spread does not blow the quotient up.
    pub fn normalize<M: RealArithmetic>(self, with: u64, math: &M) -> (r: Normalized<Fitness>) {
        Normalized(Fitness(math.div(self.0.0, max_with_one(with))))
    }
}

impl Normalized<Fitness> {
    pub fn value(&self) -> (v: u64)
        ensures
            v == self.0.0,
    {
        self.0.0
    }
}

impl Raw<Novelty> {
    pub fn novelty(novelty: u64) -> (r: Self)
        ensures
            r.0.0 == novelty,
    {
        Raw(Novelty(novelty))
    }

    pub fn value(&self) -> (v: u64)
        ensures
            v == self.0.0,
    {
        self.0.0
    }

    /// The raw value minus the baseline, through the embedder's
    /// subtraction.
    pub fn shift<M: RealArithmetic>(self, baseline: u64, math: &M) -> (r: Shifted<Novelty>) {
        Shifted(Novelty(math.sub(self.0.0, baseline)))
    }
}

impl Shifted<Novelty> {
    pub fn value(&self) -> (v: u64)
        ensures
            v == self.0.0,
    {
        self.0.0
    }

    /// The shifted value divided by `with` floored at one.
    pub fn normalize<M: RealArithmetic>(self, with: u64, math: &M) -> (r: Normalized<Novelty>) {
        Normalized(Novelty(math.div(self.0.0, max_with_one(with))))
    }
}

impl Normalized<Novelty> {
    pub fn value(&self) -> (v: u64)
        ensures
            v == self.0.0,
    {
        self.0.0
    }
}

/// A fitness carried through all three stages.
#[derive(Clone, Copy, Debug)]
pub struct FitnessScore {
    pub raw: Raw<Fitness>,
    pub shifted: Shifted<Fitness>,
    pub normalized: Normalized<Fitness>,
}

impl FitnessScore {
    /// Runs `raw` through the pipeline against the given baseline and
    /// normalization spread.
    pub fn new<M: RealArithmetic>(raw: u64, baseline: u64, with: u64, math: &M) -> (r: Self)
        ensures
            r.raw.0.0 == raw,
    {
        let raw = Raw::fitness(raw);
        let shifted = raw.shift(baseline, math);
        let normalized = shifted.normalize(with, math);
        FitnessScore { raw, shifted, normalized }
    }
}

/// A novelty carried through all three stages.
#[derive(Clone, Copy, Debug)]
pub struct NoveltyScore {
    pub raw: Raw<Novelty>,
    pub shifted: Shifted<Novelty>,
    pub normalized: Normalized<Novelty>,
}

impl NoveltyScore {
    /// Runs `raw` through the pipeline against the given baseline and
    /// normalization spread.
    pub fn new<M: RealArithmetic>(raw: u64, baseline: u64, with: u64, math: &M) -> (r: Self)
        ensures
            r.raw.0.0 == raw,
    {
        let raw = Raw::novelty(raw);
        let shifted = raw.shift(baseline, math);
        let normalized = shifted.normalize(with, math);
        NoveltyScore { raw, shifted, normalized }
    }
}

} // verus!
