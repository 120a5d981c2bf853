//! A NEAT-style neuroevolution core.
//!
//! Genomes are collections of identified node and connection genes; the crate
//! implements identifier management, the structural mutation operators,
//! cycle-safe growth of the feed-forward graph, crossover, score
//! normalization, novelty-archive maintenance and the population-level
//! generation transition.
//!
//! Real-valued scalars (weights, fitness, novelty, behaviors) are carried
//! through the core as opaque IEEE-754 double bit patterns: the core compares
//! and routes them, while the arithmetic on them is delegated to the embedder
//! through the [`scalar::RealArithmetic`] and [`weights::WeightDistribution`]
//! traits.

pub mod activations;
pub mod behavior;
pub mod connections;
pub mod evaluation;
pub mod genes;
pub mod genome;
pub mod ids;
pub mod individual;
pub mod nodes;
pub mod parameters;
pub mod population;
pub mod progress;
pub mod rng;
pub mod scalar;
pub mod scores;
pub mod statistics;
pub mod weights;

pub use evaluation::Evaluation;
pub use individual::Individual;
pub use progress::Progress;
