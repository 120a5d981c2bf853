use vstd::prelude::*;

use crate::activations::Activation;
use crate::rng::Chance;

verus! {

/// The run-wide configuration the core works from. The embedder reads its
/// own configuration format, turns rates into fixed-point [`Chance`]
/// values and the survival rate into a survivor count, and hands the core
/// this plain record.
pub struct Parameters {
    pub setup: Setup,
    pub activations: Activations,
    pub mutation: Mutation,
}

pub struct Setup {
    pub seed: u64,
    pub population_size: usize,
    /// How many individuals survive a generation: the ceiling of the
    /// configured survival rate times the population size.
    pub survivor_count: usize,
    pub input_dimension: usize,
    pub output_dimension: usize,
    pub novelty_nearest_neighbors: usize,
}

/// The candidate activation functions: one fixed choice for output nodes,
/// a non-empty candidate set for hidden nodes.
pub struct Activations {
    pub output_nodes: Activation,
    pub hidden_nodes: Vec<Activation>,
}

impl Default for Activations {
    /// Output nodes squash with tanh; hidden nodes may draw any of the
    /// supported activations except the squaring one.
    fn default() -> (r: Activations)
        ensures
            r.output_nodes == Activation::Tanh,
            r.hidden_nodes@.len() == 10,
    {
        let mut hidden_nodes: Vec<Activation> = Vec::new();
        hidden_nodes.push(Activation::Linear);
        hidden_nodes.push(Activation::Sigmoid);
        hidden_nodes.push(Activation::Tanh);
        hidden_nodes.push(Activation::Gaussian);
        hidden_nodes.push(Activation::Step);
        hidden_nodes.push(Activation::Sine);
        hidden_nodes.push(Activation::Cosine);
        hidden_nodes.push(Activation::Inverse);
        hidden_nodes.push(Activation::Absolute);
        hidden_nodes.push(Activation::Relu);
        Activations { output_nodes: Activation::Tanh, hidden_nodes }
    }
}

/// The per-generation mutation gates, as fixed-point probabilities.
pub struct Mutation {
    pub new_node_chance: Chance,
    pub new_connection_chance: Chance,
    pub connection_is_recurrent_chance: Chance,
    pub change_activation_function_chance: Chance,
}

impl Parameters {
    /// What every run needs of its configuration: at least one input and
    /// one output node, a population to evolve, survivors within it, a
    /// candidate activation for hidden nodes — and dimensions small
    /// enough that a run cannot exhaust the id space.
    pub open spec fn wf(&self) -> bool {
        &&& 1 <= self.setup.input_dimension <= 0x8000
        &&& 1 <= self.setup.output_dimension <= 0x8000
        &&& 1 <= self.setup.population_size <= 0x1000_0000
        &&& 1 <= self.setup.survivor_count <= self.setup.population_size
        &&& self.activations.hidden_nodes@.len() >= 1
    }

    /// `wf` as runnable code, for an embedder to test before it hands the
    /// record to the core.
    pub fn check(&self) -> (r: bool)
        ensures
            r == self.wf(),
    {
        1 <= self.setup.input_dimension && self.setup.input_dimension <= 0x8000
            && 1 <= self.setup.output_dimension && self.setup.output_dimension <= 0x8000
            && 1 <= self.setup.population_size && self.setup.population_size <= 0x1000_0000
            && 1 <= self.setup.survivor_count
            && self.setup.survivor_count <= self.setup.population_size
            && self.activations.hidden_nodes.len() >= 1
    }
}

} // verus!
