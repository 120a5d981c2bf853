use vstd::prelude::*;

use crate::behavior::Behavior;
use crate::genes::{Gene, Genes};
use crate::genome::Genome;
use crate::ids::IdGenerator;
use crate::parameters::Parameters;
use crate::rng::NeatRng;
use crate::scalar::{self, RealArithmetic};
use crate::scores::{FitnessScore, NoveltyScore};

verus! {

/// One member of the population: a genome, the number of generations it
/// has survived, and what the evaluator and the novelty engine have
/// reported for it so far — nothing, until they run.
#[derive(Debug)]
pub struct Individual {
    pub genome: Genome,
    pub age: usize,
    pub behavior: Option<Behavior>,
    pub fitness: Option<FitnessScore>,
    pub novelty: Option<NoveltyScore>,
}

impl Individual {
    /// The bits of the normalized fitness, zero when none was assigned.
    pub open spec fn normalized_fitness_bits(&self) -> u64 {
        match self.fitness {
            Some(f) => f.normalized.0.0,
            None => scalar::R_ZERO,
        }
    }

    /// The bits of the normalized novelty, zero when none was assigned.
    pub open spec fn normalized_novelty_bits(&self) -> u64 {
        match self.novelty {
            Some(n) => n.normalized.0.0,
            None => scalar::R_ZERO,
        }
    }

    /// The first individual of a run: a fresh genome of inputs and
    /// outputs only, age zero, nothing evaluated yet.
    pub fn initial(id_gen: &mut IdGenerator, parameters: &Parameters) -> (r: Self)
        requires
            old(id_gen).wf(),
            parameters.wf(),
            old(id_gen).next_free() + parameters.setup.input_dimension
                + parameters.setup.output_dimension <= u64::MAX,
        ensures
            final(id_gen).wf(),
            final(id_gen).next_free() == old(id_gen).next_free()
                + parameters.setup.input_dimension + parameters.setup.output_dimension,
            r.genome.wf(),
            r.genome.linked(),
            r.genome.ids_below(final(id_gen).next_free()),
            r.genome.inputs.seq().len() == parameters.setup.input_dimension,
            r.genome.outputs.seq().len() == parameters.setup.output_dimension,
            forall|i: int|
                0 <= i < r.genome.inputs.seq().len() ==> (
                #[trigger] r.genome.inputs.seq()[i]).id.0 == old(id_gen).next_free() + i,
            forall|i: int|
                0 <= i < r.genome.outputs.seq().len() ==> (
                #[trigger] r.genome.outputs.seq()[i]).id.0 == old(id_gen).next_free()
                    + parameters.setup.input_dimension + i,
            r.genome.hidden.seq().len() == 0,
            r.genome.feed_forward.seq().len() == 0,
            r.genome.recurrent.seq().len() == 0,
            r.age == 0,
            r.behavior is None,
            r.fitness is None,
            r.novelty is None,
    {
        Individual {
            genome: Genome::new(id_gen, parameters),
            age: 0,
            behavior: None,
            fitness: None,
            novelty: None,
        }
    }

    /// A member-for-member copy.
    pub fn duplicate(&self) -> (r: Individual)
        ensures
            r.genome.inputs.seq() == self.genome.inputs.seq(),
            r.genome.hidden.seq() == self.genome.hidden.seq(),
            r.genome.outputs.seq() == self.genome.outputs.seq(),
            r.genome.feed_forward.seq() == self.genome.feed_forward.seq(),
            r.genome.recurrent.seq() == self.genome.recurrent.seq(),
            self.genome.wf() ==> r.genome.wf(),
            self.genome.linked() ==> r.genome.linked(),
            forall|n: u64| #[trigger] r.genome.ids_below(n) == self.genome.ids_below(n),
            r.age == self.age,
            match (self.behavior, r.behavior) {
                (Some(b), Some(c)) => c.0@ == b.0@,
                (None, None) => true,
                _ => false,
            },
            r.fitness == self.fitness,
            r.novelty == self.novelty,
    {
        let genome = Genome {
            inputs: self.genome.inputs.duplicate(),
            hidden: self.genome.hidden.duplicate(),
            outputs: self.genome.outputs.duplicate(),
            feed_forward: self.genome.feed_forward.duplicate(),
            recurrent: self.genome.recurrent.duplicate(),
        };
        let behavior = match &self.behavior {
            Some(b) => Some(b.duplicate()),
            None => None,
        };
        proof {
            if self.genome.linked() {
                assert forall|i: int| 0 <= i < genome.feed_forward.seq().len() implies genome.has_node(
                    (#[trigger] genome.feed_forward.seq()[i]).input,
                ) && genome.has_node(genome.feed_forward.seq()[i].output) by {
                    assert(self.genome.has_node(self.genome.feed_forward.seq()[i].input)
                        && self.genome.has_node(self.genome.feed_forward.seq()[i].output));
                }
                assert forall|i: int| 0 <= i < genome.recurrent.seq().len() implies genome.has_node(
                    (#[trigger] genome.recurrent.seq()[i]).input,
                ) && genome.has_node(genome.recurrent.seq()[i].output) by {
                    assert(self.genome.has_node(self.genome.recurrent.seq()[i].input)
                        && self.genome.has_node(self.genome.recurrent.seq()[i].output));
                }
            }
        }
        Individual {
            genome,
            age: self.age,
            behavior,
            fitness: self.fitness,
            novelty: self.novelty,
        }
    }

    /// The combined score: the dominant of the normalized fitness and
    /// novelty weighs in more heavily, but the weaker signal still
    /// counts. With both signals at zero — in particular before any
    /// evaluation — the score is exactly zero.
    pub fn score<M: RealArithmetic>(&self, math: &M) -> (r: u64)
        ensures
            scalar::r_eq(self.normalized_novelty_bits(), scalar::R_ZERO) && scalar::r_eq(
                self.normalized_fitness_bits(),
                scalar::R_ZERO,
            ) ==> r == scalar::R_ZERO,
    {
        let novelty = match &self.novelty {
            Some(n) => n.normalized.value(),
            None => scalar::R_ZERO,
        };
        let fitness = match &self.fitness {
            Some(f) => f.normalized.value(),
            None => scalar::R_ZERO,
        };
        if scalar::eq(novelty, scalar::R_ZERO) && scalar::eq(fitness, scalar::R_ZERO) {
            return scalar::R_ZERO;
        }
        let (low, high) = if scalar::lt(novelty, fitness) {
            (novelty, fitness)
        } else {
            (fitness, novelty)
        };
        // the ratio says how dominant the stronger signal is
        let ratio = math.div(math.div(low, high), scalar::R_TWO);
        math.add(math.mul(low, ratio), math.mul(high, math.sub(scalar::R_ONE, ratio)))
    }

    /// Parsimony-aware comparison: a strictly higher score wins, and at a
    /// score tie — within machine epsilon — the genome with fewer
    /// connection genes does.
    pub fn is_fitter_than<M: RealArithmetic>(&self, other: &Self, math: &M) -> bool {
        let score_self = self.score(math);
        let score_other = other.score(math);
        let difference = math.sub(score_self, score_other);
        let genes_self = (self.genome.feed_forward.len() as u128) + (
        self.genome.recurrent.len() as u128);
        let genes_other = (other.genome.feed_forward.len() as u128) + (
        other.genome.recurrent.len() as u128);
        fitter_decision(score_self, score_other, difference, genes_self, genes_other)
    }

    /// Crossover: the fitter of the two — by `is_fitter_than` — inherits,
    /// the weaker contributes alleles on matching identities. The child
    /// starts at age zero with nothing evaluated.
    pub fn crossover<M: RealArithmetic>(
        &self,
        other: &Self,
        rng: &mut NeatRng,
        math: &M,
    ) -> (child: Individual)
        requires
            self.genome.wf(),
            other.genome.wf(),
        ensures
            child.genome.wf(),
            genome_crossed(self.genome, other.genome, child.genome) || genome_crossed(
                other.genome,
                self.genome,
                child.genome,
            ),
            child.age == 0,
            child.behavior is None,
            child.fitness is None,
            child.novelty is None,
    {
        let genome = if self.is_fitter_than(other, math) {
            self.genome.cross_in(&other.genome, rng)
        } else {
            other.genome.cross_in(&self.genome, rng)
        };
        Individual { genome, age: 0, behavior: None, fitness: None, novelty: None }
    }
}

/// The fitness-with-tiebreak decision on already-computed values: a
/// strictly higher score wins outright; when the magnitude of the score
/// difference lies below machine epsilon, the side with fewer connection
/// genes wins. `is_fitter_than` hands this the embedder's score and
/// difference bits.
pub fn fitter_decision(
    score_self: u64,
    score_other: u64,
    difference: u64,
    genes_self: u128,
    genes_other: u128,
) -> (r: bool)
    ensures
        r == (scalar::r_lt(score_other, score_self) || (scalar::r_lt(
            difference & scalar::R_MAGNITUDE_MASK,
            scalar::R_EPSILON,
        ) && genes_self < genes_other)),
{
    scalar::lt(score_other, score_self) || (scalar::lt(
        scalar::absolute(difference),
        scalar::R_EPSILON,
    ) && genes_self < genes_other)
}

/// `child` came out of crossover with `fitter` inheriting: its input and
/// output nodes are `fitter`'s, and each evolving gene set carries
/// exactly `fitter`'s identities with alleles from either parent.
pub open spec fn genome_crossed(fitter: Genome, weaker: Genome, child: Genome) -> bool {
    &&& child.inputs.seq() == fitter.inputs.seq()
    &&& child.outputs.seq() == fitter.outputs.seq()
    &&& Genes::crossed(fitter.feed_forward, weaker.feed_forward, child.feed_forward)
    &&& Genes::crossed(fitter.recurrent, weaker.recurrent, child.recurrent)
    &&& Genes::crossed(fitter.hidden, weaker.hidden, child.hidden)
}

/// A crossover child of a sound member is itself sound: its edges join
/// the same node ids as the fitter parent's, its node ids are the fitter
/// parent's, and it has exactly as many feed-forward connections.
pub proof fn lemma_crossed_member(fitter: Genome, weaker: Genome, child: Genome, n: u64)
    requires
        genome_crossed(fitter, weaker, child),
        child.wf(),
        fitter.wf(),
        fitter.linked(),
        fitter.ids_below(n),
    ensures
        child.linked(),
        child.ids_below(n),
        child.feed_forward.seq().len() == fitter.feed_forward.seq().len(),
        crate::genome::acyclic(fitter.feed_forward.seq()) ==> crate::genome::acyclic(
            child.feed_forward.seq(),
        ),
{
    crate::genome::lemma_same_keys_same_edges(fitter.feed_forward, child.feed_forward);
    crate::genome::lemma_same_edges_same_reach(fitter.feed_forward.seq(), child.feed_forward.seq());
    assert forall|i: int| 0 <= i < child.hidden.seq().len() implies (
    #[trigger] child.hidden.seq()[i]).id.0 < n by {
        assert(child.hidden.seq()[i].identity() == fitter.hidden.seq()[i].identity());
        assert(fitter.hidden.seq()[i].id.0 < n);
    }
    assert forall|i: int| 0 <= i < child.feed_forward.seq().len() implies child.has_node(
        (#[trigger] child.feed_forward.seq()[i]).input,
    ) && child.has_node(child.feed_forward.seq()[i].output) by {
        assert(child.feed_forward.seq()[i].identity() == fitter.feed_forward.seq()[i].identity());
        let fe = fitter.feed_forward.seq()[i];
        let ce = child.feed_forward.seq()[i];
        assert(ce.input == fe.input && ce.output == fe.output);
        assert(fitter.has_node(fe.input) && fitter.has_node(fe.output));
        lemma_same_keys_nodes(fitter, child, fe.input);
        lemma_same_keys_nodes(fitter, child, fe.output);
    }
    assert forall|i: int| 0 <= i < child.recurrent.seq().len() implies child.has_node(
        (#[trigger] child.recurrent.seq()[i]).input,
    ) && child.has_node(child.recurrent.seq()[i].output) by {
        assert(child.recurrent.seq()[i].identity() == fitter.recurrent.seq()[i].identity());
        let fe = fitter.recurrent.seq()[i];
        let ce = child.recurrent.seq()[i];
        assert(ce.input == fe.input && ce.output == fe.output);
        assert(fitter.has_node(fe.input) && fitter.has_node(fe.output));
        lemma_same_keys_nodes(fitter, child, fe.input);
        lemma_same_keys_nodes(fitter, child, fe.output);
    }
}

/// A node id present in the fitter parent is present in the child, whose
/// node sets carry the same keys.
proof fn lemma_same_keys_nodes(fitter: Genome, child: Genome, id: crate::ids::Id)
    requires
        genome_crossed(fitter, child, child) || true,
        child.inputs.seq() == fitter.inputs.seq(),
        child.outputs.seq() == fitter.outputs.seq(),
        forall|k: (u64, u64)| #[trigger] child.hidden.has_key(k) == fitter.hidden.has_key(k),
        fitter.has_node(id),
    ensures
        child.has_node(id),
{
}

} // verus!
