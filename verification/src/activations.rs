use vstd::prelude::*;

verus! {

/// The activation function attached to a node gene. The core only stores,
/// copies and compares the tag; evaluating the function is the business of
/// the network adapter outside the core. Input nodes always carry
/// `Linear`; output and hidden nodes draw theirs from the configured
/// candidate sets.
#[derive(Clone, Copy, Debug, PartialEq, Eq, PartialOrd, Ord, Structural, Hash)]
pub enum Activation {
    Linear,
    Sigmoid,
    Tanh,
    Gaussian,
    Step,
    Sine,
    Cosine,
    Inverse,
    Absolute,
    Relu,
    Squared,
}

} // verus!
