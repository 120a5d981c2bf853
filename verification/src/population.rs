use vstd::prelude::*;

use crate::behavior;
use crate::genes::Gene;
use crate::individual::{genome_crossed, lemma_crossed_member, Individual};
use crate::ids::IdGenerator;
use crate::parameters::Parameters;
use crate::progress::Progress;
use crate::rng::NeatRng;
use crate::scalar::{self, RealArithmetic};
use crate::scores::{FitnessScore, NoveltyScore};
use crate::statistics::{PopulationStatistics, ScoreStatistics};

verus! {

/// A member of a well-formed population: a well-formed, dangle-free
/// genome with at least one feed-forward connection, all of whose node
/// ids were issued by the population's id generator.
pub open spec fn member_ok(ind: Individual, id_bound: u64) -> bool {
    &&& ind.genome.wf()
    &&& ind.genome.linked()
    &&& ind.genome.feed_forward.seq().len() >= 1
    &&& ind.genome.ids_below(id_bound)
    &&& crate::genome::acyclic(ind.genome.feed_forward.seq())
}

/// The population: the current individuals, the ever-growing novelty
/// archive, the structural randomness and the run's id generator.
pub struct Population {
    individuals: Vec<Individual>,
    archive: Vec<Individual>,
    population_statistics: PopulationStatistics,
    rng: NeatRng,
    id_gen: IdGenerator,
}

impl Population {
    /// The current individuals, in their current order.
    pub closed spec fn individuals_seq(&self) -> Seq<Individual> {
        self.individuals@
    }

    /// The novelty archive so far.
    pub closed spec fn archive_seq(&self) -> Seq<Individual> {
        self.archive@
    }

    /// The id generator's next free id.
    pub closed spec fn id_next(&self) -> u64 {
        self.id_gen.next_free()
    }

    /// The fitness spread recorded by the last fitness assignment.
    pub closed spec fn fitness_statistics(&self) -> ScoreStatistics {
        self.population_statistics.fitness
    }

    /// The population invariant: a working id generator and at least one
    /// member, every member well-formed against it.
    pub closed spec fn wf(&self) -> bool {
        &&& self.id_gen.wf()
        &&& self.individuals@.len() >= 1
        &&& forall|i: int|
            0 <= i < self.individuals@.len() ==> member_ok(
                #[trigger] self.individuals@[i],
                self.id_gen.next_free(),
            )
    }

    /// Whether a generation transition fits in the id space — the only
    /// resource a transition could exhaust. An embedder checks this
    /// before each call to `next_generation`.
    pub fn id_headroom(&self, parameters: &Parameters) -> (r: bool)
        ensures
            r == (self.id_next() + parameters.setup.population_size <= u64::MAX),
    {
        self.id_gen.headroom(parameters.setup.population_size)
    }

    /// A fresh population: one initial genome of inputs and outputs is
    /// laid down for the run's gene identities, and every slot receives
    /// its own initialized, once-mutated copy.
    pub fn new<W: crate::weights::WeightDistribution>(
        parameters: &Parameters,
        weights: &mut W,
    ) -> (r: Population)
        requires
            parameters.wf(),
        ensures
            r.wf(),
            r.individuals_seq().len() == parameters.setup.population_size,
            r.archive_seq().len() == 0,
            forall|i: int|
                0 <= i < r.individuals_seq().len() ==> member_ok(
                    #[trigger] r.individuals_seq()[i],
                    r.id_next(),
                ),
            forall|i: int|
                0 <= i < r.individuals_seq().len() ==> fresh_child(
                    #[trigger] r.individuals_seq()[i],
                ),
            forall|i: int, j: int|
                0 <= i < r.individuals_seq().len() && 0 <= j < r.individuals_seq().len() ==> (
                #[trigger] r.individuals_seq()[i]).genome.inputs.seq() == (
                #[trigger] r.individuals_seq()[j]).genome.inputs.seq()
                    && r.individuals_seq()[i].genome.outputs.seq()
                    == r.individuals_seq()[j].genome.outputs.seq(),
    {
        let mut id_gen = IdGenerator::new();
        let initial_individual = Individual::initial(&mut id_gen, parameters);
        let mut rng = NeatRng::new(parameters.setup.seed);
        let mut individuals: Vec<Individual> = Vec::new();
        let ghost base = id_gen.next_free();
        proof {
            assert forall|id: crate::ids::Id|
                !(#[trigger] crate::genome::node_in(initial_individual.genome.inputs, id)
                    && crate::genome::node_in(initial_individual.genome.outputs, id)) by {
                if crate::genome::node_in(initial_individual.genome.inputs, id)
                    && crate::genome::node_in(initial_individual.genome.outputs, id) {
                    let i = choose|i: int|
                        0 <= i < initial_individual.genome.inputs.seq().len() && (
                        #[trigger] initial_individual.genome.inputs.seq()[i]).identity() == (
                        id.0,
                        id.0,
                        );
                    let j = choose|j: int|
                        0 <= j < initial_individual.genome.outputs.seq().len() && (
                        #[trigger] initial_individual.genome.outputs.seq()[j]).identity() == (
                        id.0,
                        id.0,
                        );
                    assert(initial_individual.genome.inputs.seq()[i].id.0
                        == initial_individual.genome.outputs.seq()[j].id.0);
                }
            }
        }
        let mut n: usize = 0;
        while n < parameters.setup.population_size
            invariant
                n <= parameters.setup.population_size,
                parameters.wf(),
                id_gen.wf(),
                base <= id_gen.next_free(),
                id_gen.next_free() <= base + n,
                base + parameters.setup.population_size <= u64::MAX,
                initial_individual.genome.wf(),
                initial_individual.genome.linked(),
                initial_individual.genome.ids_below(base),
                initial_individual.genome.inputs.seq().len() == parameters.setup.input_dimension,
                initial_individual.genome.outputs.seq().len() == parameters.setup.output_dimension,
                initial_individual.genome.feed_forward.seq().len() == 0,
                initial_individual.age == 0,
                initial_individual.behavior is None,
                initial_individual.fitness is None,
                initial_individual.novelty is None,
                forall|id: crate::ids::Id|
                    !(#[trigger] crate::genome::node_in(initial_individual.genome.inputs, id)
                        && crate::genome::node_in(initial_individual.genome.outputs, id)),
                individuals@.len() == n,
                forall|i: int|
                    0 <= i < n ==> member_ok(#[trigger] individuals@[i], id_gen.next_free()),
                forall|i: int| 0 <= i < n ==> fresh_child(#[trigger] individuals@[i]),
                forall|i: int|
                    0 <= i < n ==> (#[trigger] individuals@[i]).genome.inputs.seq()
                        == initial_individual.genome.inputs.seq() && individuals@[i].genome.outputs.seq()
                        == initial_individual.genome.outputs.seq(),
            decreases parameters.setup.population_size - n,
        {
            let ghost pre_next = id_gen.next_free();
            let mut other = initial_individual.duplicate();
            proof {
                assert(other.genome.inputs.seq().len() * other.genome.outputs.seq().len()
                    <= 0x4000_0000) by (nonlinear_arith)
                    requires
                        other.genome.inputs.seq().len() <= 0x8000,
                        other.genome.outputs.seq().len() <= 0x8000,
                ;
            }
            other.genome.init(&mut rng, parameters, weights);
            proof {
                assert forall|id: crate::ids::Id|
                    !(#[trigger] crate::genome::node_in(other.genome.inputs, id)
                        && crate::genome::node_in(other.genome.outputs, id)) by {
                    assert(crate::genome::node_in(other.genome.inputs, id)
                        == crate::genome::node_in(initial_individual.genome.inputs, id));
                    assert(crate::genome::node_in(other.genome.outputs, id)
                        == crate::genome::node_in(initial_individual.genome.outputs, id));
                }
                crate::genome::lemma_layered_graph_acyclic(other.genome);
            }
            other.genome.mutate(&mut rng, &mut id_gen, parameters, weights);
            proof {
                assert(member_ok(other, id_gen.next_free()));
                assert forall|i: int| 0 <= i < n implies member_ok(
                    #[trigger] individuals@[i],
                    id_gen.next_free(),
                ) by {
                    assert(member_ok(individuals@[i], pre_next));
                }
            }
            individuals.push(other);
            n = n + 1;
        }
        Population {
            individuals,
            archive: Vec::new(),
            population_statistics: PopulationStatistics {
                top_performer: initial_individual,
                fitness: ScoreStatistics::zeroed(),
                novelty: ScoreStatistics::zeroed(),
                age_maximum: 0,
                age_average: scalar::R_ZERO,
                milliseconds_elapsed_reproducing: 0,
            },
            rng,
            id_gen,
        }
    }

    /// Writes a fitness score onto every individual whose progress report
    /// carries a raw fitness, shifted by the population's minimum raw
    /// fitness and normalized by the shifted maximum. With no fitness in
    /// any report, nothing changes.
    fn assign_fitness<M: RealArithmetic>(&mut self, progress: &Vec<Progress>, math: &M)
        requires
            old(self).wf(),
            progress@.len() == old(self).individuals_seq().len(),
        ensures
            final(self).wf(),
            final(self).individuals_seq().len() == old(self).individuals_seq().len(),
            final(self).archive_seq() == old(self).archive_seq(),
            final(self).id_next() == old(self).id_next(),
            forall|i: int|
                0 <= i < final(self).individuals_seq().len() ==> fitness_assigned(
                    #[trigger] old(self).individuals_seq()[i],
                    final(self).individuals_seq()[i],
                    progress@[i],
                    any_fitness(progress@),
                ),
            any_fitness(progress@) ==> final(self).fitness_statistics().raw_minimum == running_min(
                fitness_bits(progress@),
                scalar::R_INFINITY,
            ),
            any_fitness(progress@) ==> final(self).fitness_statistics().raw_maximum == running_max(
                fitness_bits(progress@),
                scalar::R_NEG_INFINITY,
            ),
            !any_fitness(progress@) ==> final(self).fitness_statistics() == old(
                self,
            ).fitness_statistics(),
    {
        proof {
            assert(progress@.take(0) =~= Seq::<Progress>::empty());
            assert(fitness_bits(Seq::<Progress>::empty()) =~= Seq::<u64>::empty());
        }
        let mut minimum = scalar::R_INFINITY;
        let mut maximum = scalar::R_NEG_INFINITY;
        let mut sum = scalar::R_ZERO;
        let mut count: usize = 0;
        let mut i: usize = 0;
        while i < progress.len()
            invariant
                i <= progress@.len(),
                count <= i,
                (count > 0) == exists|j: int|
                    0 <= j < i && (#[trigger] progress@[j]).spec_raw_fitness() is Some,
                minimum == running_min(fitness_bits(progress@.take(i as int)), scalar::R_INFINITY),
                maximum == running_max(
                    fitness_bits(progress@.take(i as int)),
                    scalar::R_NEG_INFINITY,
                ),
            decreases progress@.len() - i,
        {
            proof {
                assert(progress@.take(i + 1) =~= progress@.take(i as int).push(
                    progress@[i as int],
                ));
                lemma_fitness_bits_push(progress@.take(i as int), progress@[i as int]);
                match progress@[i as int].spec_raw_fitness() {
                    Some(f) => {
                        lemma_running_min_push(
                            fitness_bits(progress@.take(i as int)),
                            f.0.0,
                            scalar::R_INFINITY,
                        );
                        lemma_running_max_push(
                            fitness_bits(progress@.take(i as int)),
                            f.0.0,
                            scalar::R_NEG_INFINITY,
                        );
                    },
                    None => {
                    },
                }
            }
            match progress[i].raw_fitness() {
                Some(f) => {
                    let v = f.value();
                    if scalar::lt(maximum, v) {
                        maximum = v;
                    }
                    if scalar::lt(v, minimum) {
                        minimum = v;
                    }
                    sum = math.add(sum, v);
                    count = count + 1;
                    proof {
                        assert((#[trigger] progress@[i as int]).spec_raw_fitness() is Some);
                    }
                },
                None => {
                },
            }
            i = i + 1;
        }
        proof {
            assert(progress@.take(progress@.len() as int) =~= progress@);
        }
        if count == 0 {
            proof {
                assert(!any_fitness(progress@));
            }
            return ;
        }
        proof {
            assert(any_fitness(progress@));
        }
        let baseline = minimum;
        let with = math.sub(maximum, baseline);
        let ghost old_inds = self.individuals@;
        let mut t: usize = 0;
        while t < progress.len()
            invariant
                t <= progress@.len(),
                progress@.len() == self.individuals@.len(),
                old_inds.len() == self.individuals@.len(),
                self.id_gen == old(self).id_gen,
                self.archive@ == old(self).archive@,
                self.population_statistics == old(self).population_statistics,
                old_inds == old(self).individuals@,
                old(self).wf(),
                forall|j: int|
                    t <= j < self.individuals@.len() ==> #[trigger] self.individuals@[j]
                        == old_inds[j],
                forall|j: int|
                    0 <= j < t ==> fitness_assigned(
                        old_inds[j],
                        #[trigger] self.individuals@[j],
                        progress@[j],
                        true,
                    ),
            decreases progress@.len() - t,
        {
            match progress[t].raw_fitness() {
                Some(f) => {
                    let score = FitnessScore::new(f.value(), baseline, with, math);
                    self.individuals[t].fitness = Some(score);
                },
                None => {
                },
            }
            t = t + 1;
        }
        let raw_average = math.div(sum, math.from_usize(count));
        let floor = scalar::max_with_one(with);
        self.population_statistics.fitness = ScoreStatistics {
            raw_minimum: minimum,
            raw_average,
            raw_maximum: maximum,
            shifted_minimum: math.sub(minimum, baseline),
            shifted_average: math.sub(raw_average, baseline),
            shifted_maximum: with,
            normalized_minimum: math.div(math.sub(minimum, baseline), floor),
            normalized_average: math.div(math.sub(raw_average, baseline), floor),
            normalized_maximum: math.div(with, floor),
        };
        proof {
            assert forall|j: int| 0 <= j < self.individuals@.len() implies member_ok(
                #[trigger] self.individuals@[j],
                self.id_gen.next_free(),
            ) by {
                assert(member_ok(old(self).individuals@[j], old(self).id_gen.next_free()));
                assert(self.individuals@[j].genome == old_inds[j].genome);
            }
        }
    }

    /// Writes each reported behavior onto its individual; reports without
    /// a behavior leave theirs as it was.
    fn assign_behavior(&mut self, progress: &Vec<Progress>)
        requires
            old(self).wf(),
            progress@.len() == old(self).individuals_seq().len(),
        ensures
            final(self).wf(),
            final(self).individuals_seq().len() == old(self).individuals_seq().len(),
            final(self).archive_seq() == old(self).archive_seq(),
            final(self).id_next() == old(self).id_next(),
            forall|i: int|
                0 <= i < final(self).individuals_seq().len() ==> behavior_assigned(
                    #[trigger] old(self).individuals_seq()[i],
                    final(self).individuals_seq()[i],
                    progress@[i],
                ),
            final(self).fitness_statistics() == old(self).fitness_statistics(),
    {
        let ghost old_inds = self.individuals@;
        let mut t: usize = 0;
        while t < progress.len()
            invariant
                t <= progress@.len(),
                progress@.len() == self.individuals@.len(),
                old_inds.len() == self.individuals@.len(),
                self.id_gen == old(self).id_gen,
                self.archive@ == old(self).archive@,
                self.population_statistics == old(self).population_statistics,
                old_inds == old(self).individuals@,
                old(self).wf(),
                forall|j: int|
                    t <= j < self.individuals@.len() ==> #[trigger] self.individuals@[j]
                        == old_inds[j],
                forall|j: int|
                    0 <= j < t ==> behavior_assigned(
                        old_inds[j],
                        #[trigger] self.individuals@[j],
                        progress@[j],
                    ),
            decreases progress@.len() - t,
        {
            match progress[t].behavior() {
                Some(b) => {
                    let copy = b.duplicate();
                    self.individuals[t].behavior = Some(copy);
                },
                None => {
                },
            }
            t = t + 1;
        }
        proof {
            assert forall|j: int| 0 <= j < self.individuals@.len() implies member_ok(
                #[trigger] self.individuals@[j],
                self.id_gen.next_free(),
            ) by {
                assert(member_ok(old(self).individuals@[j], old(self).id_gen.next_free()));
                assert(self.individuals@[j].genome == old_inds[j].genome);
            }
        }
    }

    /// Computes k-nearest-neighbor novelty over the behaviors of the
    /// population and the archive, writes a novelty score onto every
    /// individual that has a behavior, and appends a copy of the most
    /// novel such individual to the archive. Individuals without a
    /// behavior are left out entirely, and with no behavior at all in
    /// the population the archive does not grow.
    fn calculate_novelty<M: RealArithmetic>(&mut self, parameters: &Parameters, math: &M)
        requires
            old(self).wf(),
        ensures
            final(self).wf(),
            final(self).individuals_seq().len() == old(self).individuals_seq().len(),
            final(self).id_next() == old(self).id_next(),
            has_behavior(old(self).individuals_seq()) ==> final(self).archive_seq().len() == old(
                self,
            ).archive_seq().len() + 1,
            has_behavior(old(self).individuals_seq()) ==> exists|i: int|
                0 <= i < old(self).individuals_seq().len() && (#[trigger] old(
                    self,
                ).individuals_seq()[i]).behavior is Some && individual_copy(
                    old(self).individuals_seq()[i],
                    final(self).archive_seq().last(),
                ),
            !has_behavior(old(self).individuals_seq()) ==> final(self).archive_seq() == old(
                self,
            ).archive_seq(),
            forall|i: int|
                0 <= i < final(self).individuals_seq().len() ==> novelty_assigned(
                    #[trigger] old(self).individuals_seq()[i],
                    final(self).individuals_seq()[i],
                ),
            final(self).fitness_statistics() == old(self).fitness_statistics(),
    {
        let mut idxs: Vec<usize> = Vec::new();
        let mut pool: Vec<crate::behavior::Behavior> = Vec::new();
        let mut i: usize = 0;
        while i < self.individuals.len()
            invariant
                i <= self.individuals@.len(),
                *self == *old(self),
                idxs@.len() == pool@.len(),
                forall|t: int|
                    0 <= t < idxs@.len() ==> (#[trigger] idxs@[t]) < i
                        && self.individuals@[idxs@[t] as int].behavior is Some,
                forall|j: int|
                    0 <= j < i && (#[trigger] self.individuals@[j]).behavior is Some
                        ==> idxs@.contains(j as usize),
            decreases self.individuals@.len() - i,
        {
            let ghost pre_idxs = idxs@;
            match &self.individuals[i].behavior {
                Some(b) => {
                    let copy = b.duplicate();
                    idxs.push(i);
                    pool.push(copy);
                    proof {
                        assert(idxs@[idxs@.len() - 1] == i);
                        assert forall|j: int|
                            0 <= j < i + 1 && (#[trigger] self.individuals@[j]).behavior
                                is Some implies idxs@.contains(j as usize) by {
                            if j < i {
                                let t = choose|t: int|
                                    0 <= t < pre_idxs.len() && pre_idxs[t] == j as usize;
                                assert(idxs@[t] == j as usize);
                            } else {
                                assert(idxs@[idxs@.len() - 1] == j as usize);
                            }
                        }
                    }
                },
                None => {
                },
            }
            i = i + 1;
        }
        if idxs.len() == 0 {
            proof {
                assert(!has_behavior(self.individuals@)) by {
                    if has_behavior(self.individuals@) {
                        let j = choose|j: int|
                            0 <= j < self.individuals@.len() && (
                            #[trigger] self.individuals@[j]).behavior is Some;
                        assert(idxs@.contains(j as usize));
                    }
                }
            }
            return ;
        }
        proof {
            assert(has_behavior(self.individuals@)) by {
                assert(self.individuals@[idxs@[0] as int].behavior is Some);
            }
        }
        let ghost pop_entries = idxs@.len() as int;
        let mut a: usize = 0;
        while a < self.archive.len()
            invariant
                a <= self.archive@.len(),
                *self == *old(self),
                pool@.len() >= pop_entries,
            decreases self.archive@.len() - a,
        {
            match &self.archive[a].behavior {
                Some(b) => {
                    let copy = b.duplicate();
                    pool.push(copy);
                },
                None => {
                },
            }
            a = a + 1;
        }
        let novelties = behavior::compute_novelty(
            &pool,
            parameters.setup.novelty_nearest_neighbors,
            math,
        );
        let best = scalar::argmax_bits(&novelties, idxs.len());
        let model = self.individuals[idxs[best]].duplicate();
        self.archive.push(model);
        let ghost grown_archive = self.archive@;
        proof {
            assert(grown_archive.len() == old(self).archive@.len() + 1);
            let chosen_index = idxs@[best as int] as int;
            assert(0 <= chosen_index < old(self).individuals@.len() && (#[trigger] old(
                self,
            ).individuals@[chosen_index]).behavior is Some && individual_copy(
                old(self).individuals@[chosen_index],
                grown_archive.last(),
            ));
        }
        let mut minimum = scalar::R_INFINITY;
        let mut maximum = scalar::R_NEG_INFINITY;
        let mut sum = scalar::R_ZERO;
        let mut v: usize = 0;
        while v < novelties.len()
            invariant
                v <= novelties@.len(),
            decreases novelties@.len() - v,
        {
            let value = novelties[v];
            if scalar::lt(maximum, value) {
                maximum = value;
            }
            if scalar::lt(value, minimum) {
                minimum = value;
            }
            sum = math.add(sum, value);
            v = v + 1;
        }
        let baseline = minimum;
        let with = math.sub(maximum, baseline);
        let ghost old_inds = self.individuals@;
        let mut w: usize = 0;
        while w < idxs.len()
            invariant
                w <= idxs@.len(),
                idxs@.len() <= novelties@.len(),
                old_inds.len() == self.individuals@.len(),
                self.id_gen == old(self).id_gen,
                self.population_statistics == old(self).population_statistics,
                self.archive@ == grown_archive,
                grown_archive.len() == old(self).archive@.len() + 1,
                old_inds == old(self).individuals@,
                old(self).wf(),
                forall|t2: int| 0 <= t2 < idxs@.len() ==> (#[trigger] idxs@[t2]) < old_inds.len(),
                forall|j: int|
                    0 <= j < self.individuals@.len() ==> novelty_partial(
                        old_inds[j],
                        #[trigger] self.individuals@[j],
                    ),
                forall|t2: int|
                    0 <= t2 < w ==> (#[trigger] self.individuals@[idxs@[t2] as int]).novelty
                        is Some,
                forall|j: int|
                    0 <= j < self.individuals@.len() && !idxs@.contains(j as usize)
                        ==> (#[trigger] self.individuals@[j]).novelty == old_inds[j].novelty,
            decreases idxs@.len() - w,
        {
            let target = idxs[w];
            let score = NoveltyScore::new(novelties[w], baseline, with, math);
            self.individuals[target].novelty = Some(score);
            proof {
                assert(idxs@.contains(idxs@[w as int]));
                assert forall|t2: int| 0 <= t2 < w + 1 implies (
                #[trigger] self.individuals@[idxs@[t2] as int]).novelty is Some by {
                    if idxs@[t2] != idxs@[w as int] {
                        assert(self.individuals@[idxs@[t2] as int] == old(
                            self,
                        ).individuals@[idxs@[t2] as int] || true);
                    }
                }
            }
            w = w + 1;
        }
        let raw_average = math.div(sum, math.from_usize(pool.len()));
        let floor = scalar::max_with_one(with);
        self.population_statistics.novelty = ScoreStatistics {
            raw_minimum: minimum,
            raw_average,
            raw_maximum: maximum,
            shifted_minimum: math.sub(minimum, baseline),
            shifted_average: math.sub(raw_average, baseline),
            shifted_maximum: with,
            normalized_minimum: math.div(math.sub(minimum, baseline), floor),
            normalized_average: math.div(math.sub(raw_average, baseline), floor),
            normalized_maximum: math.div(with, floor),
        };
        proof {
            assert forall|j: int| 0 <= j < self.individuals@.len() implies novelty_assigned(
                #[trigger] old(self).individuals@[j],
                self.individuals@[j],
            ) by {
                if old_inds[j].behavior is Some {
                    assert(idxs@.contains(j as usize));
                    let t2 = choose|t2: int| 0 <= t2 < idxs@.len() && idxs@[t2] == j as usize;
                    assert(self.individuals@[idxs@[t2] as int].novelty is Some);
                }
            }
            assert forall|j: int| 0 <= j < self.individuals@.len() implies member_ok(
                #[trigger] self.individuals@[j],
                self.id_gen.next_free(),
            ) by {
                assert(member_ok(old(self).individuals@[j], old(self).id_gen.next_free()));
                assert(self.individuals@[j].genome == old_inds[j].genome);
            }
        }
    }

    /// Replaces the population with the same individuals reordered so
    /// that the supplied keys — one per individual, in population order —
    /// descend in the total bit order, each individual travelling with
    /// its key.
    fn reorder_by_keys(&mut self, keys: &Vec<u64>)
        requires
            old(self).wf(),
            keys@.len() == old(self).individuals_seq().len(),
        ensures
            final(self).wf(),
            final(self).individuals_seq().len() == old(self).individuals_seq().len(),
            final(self).individuals_seq().to_multiset() == old(
                self,
            ).individuals_seq().to_multiset(),
            final(self).archive_seq() == old(self).archive_seq(),
            final(self).id_next() == old(self).id_next(),
            final(self).fitness_statistics() == old(self).fitness_statistics(),
            exists|sorted: Seq<(u64, Individual)>|
                #[trigger] sorted.to_multiset() == zip_pairs(
                    keys@,
                    old(self).individuals_seq(),
                ).to_multiset() && individuals_of(sorted) == final(self).individuals_seq() && (
                forall|a: int, b: int|
                    0 <= a < b < sorted.len() ==> scalar::r_total_key((#[trigger] sorted[a]).0)
                        >= scalar::r_total_key((#[trigger] sorted[b]).0)),
    {
        broadcast use vstd::seq_lib::group_to_multiset_ensures;

        let ghost orig = self.individuals@;
        let ghost zipped = zip_pairs(keys@, orig);
        let mut source: Vec<Individual> = Vec::new();
        core::mem::swap(&mut self.individuals, &mut source);
        let mut pairs: Vec<(u64, Individual)> = Vec::new();
        proof {
            assert(zipped.take(source@.len() as int) =~= zipped);
        }
        while source.len() > 0
            invariant
                source@.len() <= keys@.len(),
                keys@.len() == orig.len(),
                source@ == orig.take(source@.len() as int),
                zipped == zip_pairs(keys@, orig),
                pairs@.to_multiset().add(zipped.take(source@.len() as int).to_multiset())
                    == zipped.to_multiset(),
                individuals_of(pairs@).to_multiset().add(
                    individuals_of(zipped.take(source@.len() as int)).to_multiset(),
                ) == individuals_of(zipped).to_multiset(),
                pairs@.len() + source@.len() == orig.len(),
            decreases source@.len(),
        {
            let ghost pre_source = source@;
            let ghost pre_pairs = pairs@;
            let ind = source.pop().unwrap();
            let key = keys[source.len()];
            pairs.push((key, ind));
            proof {
                broadcast use vstd::seq_lib::group_to_multiset_ensures;

                let j = source@.len() as int;
                assert(pre_source =~= orig.take(j + 1));
                assert(ind == orig[j]);
                assert(source@ =~= orig.take(j));
                assert((key, ind) == zipped[j]);
                assert(zipped.take(j + 1) =~= zipped.take(j).push(zipped[j]));
                assert(zipped.take(j).push(zipped[j]).to_multiset() =~= zipped.take(
                    j,
                ).to_multiset().insert(zipped[j]));
                assert(pairs@ =~= pre_pairs.push(zipped[j]));
                assert(pairs@.to_multiset() =~= pre_pairs.to_multiset().insert(zipped[j]));
                assert(pre_pairs.to_multiset().insert(zipped[j]).add(
                    zipped.take(j).to_multiset(),
                ) =~= pre_pairs.to_multiset().add(zipped.take(j).to_multiset().insert(zipped[j])));
                assert(pairs@.to_multiset().add(zipped.take(j).to_multiset())
                    == zipped.to_multiset());
                assert(individuals_of(zipped.take(j + 1)) =~= individuals_of(zipped.take(j)).push(
                    zipped[j].1,
                ));
                assert(individuals_of(zipped.take(j)).push(zipped[j].1).to_multiset()
                    =~= individuals_of(zipped.take(j)).to_multiset().insert(zipped[j].1));
                assert(individuals_of(pairs@) =~= individuals_of(pre_pairs).push(zipped[j].1));
                assert(individuals_of(pairs@).to_multiset() =~= individuals_of(
                    pre_pairs,
                ).to_multiset().insert(zipped[j].1));
                assert(individuals_of(pre_pairs).to_multiset().insert(zipped[j].1).add(
                    individuals_of(zipped.take(j)).to_multiset(),
                ) =~= individuals_of(pre_pairs).to_multiset().add(
                    individuals_of(zipped.take(j)).to_multiset().insert(zipped[j].1),
                ));
                assert(individuals_of(pairs@).to_multiset().add(
                    individuals_of(zipped.take(j)).to_multiset(),
                ) == individuals_of(zipped).to_multiset());
            }
        }
        proof {
            assert(zipped.take(0) =~= Seq::<(u64, Individual)>::empty());
            assert(pairs@.to_multiset().add(zipped.take(0).to_multiset())
                =~= pairs@.to_multiset());
            assert(pairs@.to_multiset() == zipped.to_multiset());
            assert(individuals_of(zipped.take(0)) =~= Seq::<Individual>::empty());
            assert(individuals_of(pairs@).to_multiset().add(
                individuals_of(zipped.take(0)).to_multiset(),
            ) =~= individuals_of(pairs@).to_multiset());
            assert(individuals_of(pairs@).to_multiset() == individuals_of(zipped).to_multiset());
        }
        let sorted = sorted_pairs_descending(pairs);
        let ghost sorted_view = sorted@;
        let mut rest = sorted;
        let mut ordered: Vec<Individual> = Vec::new();
        proof {
            assert(individuals_of(rest@) + ordered@ =~= individuals_of(sorted_view));
        }
        while rest.len() > 0
            invariant
                individuals_of(rest@) + ordered@ =~= individuals_of(sorted_view),
            decreases rest@.len(),
        {
            let ghost pre_rest = rest@;
            let ghost pre_ordered = ordered@;
            let p = rest.pop().unwrap();
            ordered.insert(0, p.1);
            proof {
                assert(pre_rest =~= rest@.push(p));
                assert(individuals_of(pre_rest) =~= individuals_of(rest@).push(p.1));
                assert(ordered@ =~= pre_ordered.insert(0, p.1));
                assert(individuals_of(rest@) + ordered@ =~= individuals_of(pre_rest)
                    + pre_ordered);
            }
        }
        proof {
            assert(individuals_of(rest@) =~= Seq::<Individual>::empty());
            assert(ordered@ =~= individuals_of(sorted_view));
        }
        self.individuals = ordered;
        proof {
            broadcast use vstd::seq_lib::group_to_multiset_ensures;

            assert(individuals_of(zipped) =~= orig);
            assert(self.individuals@.to_multiset() == orig.to_multiset()) by {
                assert(self.individuals@ == individuals_of(sorted_view));
                assert(individuals_of(sorted_view).to_multiset() == individuals_of(
                    zipped,
                ).to_multiset());
            }
            assert(self.individuals@.len() == self.individuals@.to_multiset().len());
            assert(orig.len() == orig.to_multiset().len());
            assert forall|j: int| 0 <= j < self.individuals@.len() implies member_ok(
                #[trigger] self.individuals@[j],
                self.id_gen.next_free(),
            ) by {
                let x = self.individuals@[j];
                assert(self.individuals@.contains(x));
                assert(self.individuals@.to_multiset().count(x) > 0);
                assert(orig.to_multiset().count(x) > 0);
                assert(orig.contains(x));
                let j2 = choose|j2: int| 0 <= j2 < orig.len() && orig[j2] == x;
                assert(member_ok(orig[j2], old(self).id_gen.next_free()));
            }
            assert(sorted_view.to_multiset() == zipped.to_multiset() && individuals_of(
                sorted_view,
            ) == self.individuals@ && (forall|a: int, b: int|
                0 <= a < b < sorted_view.len() ==> scalar::r_total_key(
                    (#[trigger] sorted_view[a]).0,
                ) >= scalar::r_total_key((#[trigger] sorted_view[b]).0)));
        }
    }

    /// Reorders the population by combined score, highest first. A score
    /// that is not a number cannot be ordered: the generation is then
    /// aborted with an error, as selection on such scores would corrupt
    /// the population; a population with no scores at all sorts without
    /// incident.
    fn sort_individuals_by_score<M: RealArithmetic>(&mut self, math: &M) -> (r: Result<
        (),
        &'static str,
    >)
        requires
            old(self).wf(),
        ensures
            final(self).wf(),
            final(self).individuals_seq().len() == old(self).individuals_seq().len(),
            final(self).individuals_seq().to_multiset() == old(
                self,
            ).individuals_seq().to_multiset(),
            final(self).archive_seq() == old(self).archive_seq(),
            final(self).id_next() == old(self).id_next(),
            final(self).fitness_statistics() == old(self).fitness_statistics(),
            r matches Err(m) ==> m@ == "score not comparable"@ && *final(self) == *old(self),
            unscored(old(self).individuals_seq()) ==> r is Ok,
    {
        let mut keys: Vec<u64> = Vec::new();
        let mut i: usize = 0;
        while i < self.individuals.len()
            invariant
                i <= self.individuals@.len(),
                *self == *old(self),
                old(self).wf(),
                keys@.len() == i,
            decreases self.individuals@.len() - i,
        {
            let key = self.individuals[i].score(math);
            if scalar::is_nan(key) {
                proof {
                    if unscored(old(self).individuals_seq()) {
                        assert((#[trigger] old(self).individuals_seq()[i as int]).fitness
                            is None);
                        scalar::lemma_zero_not_nan();
                        assert(key == scalar::R_ZERO);
                    }
                }
                return Err("score not comparable");
            }
            keys.push(key);
            i = i + 1;
        }
        self.reorder_by_keys(&keys);
        Ok(())
    }

    /// Refills the population to its configured size. Each survivor's
    /// normalized share of the total score sets how many offspring it
    /// fathers, rounded to the nearest whole; any rounding shortfall is
    /// filled by cycling through the survivors from the top of the
    /// ranking, so the population comes back to exactly
    /// `population_size`. Every offspring is a crossover with a
    /// uniformly random partner — itself allowed — and is mutated once.
    fn generate_offspring<W: crate::weights::WeightDistribution, M: RealArithmetic>(
        &mut self,
        parameters: &Parameters,
        weights: &mut W,
        math: &M,
    )
        requires
            old(self).wf(),
            parameters.wf(),
            old(self).individuals_seq().len() <= parameters.setup.population_size,
            old(self).id_next() + parameters.setup.population_size <= u64::MAX,
        ensures
            final(self).wf(),
            final(self).individuals_seq().len() == parameters.setup.population_size,
            final(self).archive_seq() == old(self).archive_seq(),
            final(self).fitness_statistics() == old(self).fitness_statistics(),
            final(self).individuals_seq().subrange(0, old(self).individuals_seq().len() as int)
                == old(self).individuals_seq(),
            forall|j: int|
                old(self).individuals_seq().len() <= j < final(self).individuals_seq().len()
                    ==> fresh_child(#[trigger] final(self).individuals_seq()[j]),
    {
        let survivor_count = self.individuals.len();
        let mut scores: Vec<u64> = Vec::new();
        let mut i: usize = 0;
        while i < self.individuals.len()
            invariant
                i <= self.individuals@.len(),
                *self == *old(self),
                scores@.len() == i,
            decreases self.individuals@.len() - i,
        {
            scores.push(self.individuals[i].score(math));
            i = i + 1;
        }
        let mut minimum = scalar::R_INFINITY;
        let mut maximum = scalar::R_NEG_INFINITY;
        let mut v: usize = 0;
        while v < scores.len()
            invariant
                v <= scores@.len(),
            decreases scores@.len() - v,
        {
            let value = scores[v];
            if scalar::lt(maximum, value) {
                maximum = value;
            }
            if scalar::lt(value, minimum) {
                minimum = value;
            }
            v = v + 1;
        }
        let mut w: usize = 0;
        while w < scores.len()
            invariant
                w <= scores@.len(),
                scores@.len() == old(self).individuals@.len(),
            decreases scores@.len() - w,
        {
            let shifted = math.div(math.sub(scores[w], minimum), maximum);
            scores[w] = shifted;
            w = w + 1;
        }
        let mut total = scalar::R_ZERO;
        let mut t: usize = 0;
        while t < scores.len()
            invariant
                t <= scores@.len(),
            decreases scores@.len() - t,
        {
            total = math.add(total, scores[t]);
            t = t + 1;
        }
        proof {
            assert(scores@.len() == old(self).individuals@.len());
        }
        let offspring_count = parameters.setup.population_size - survivor_count;
        let per_score = math.div(math.from_usize(offspring_count), total);
        let ghost entry_next = self.id_gen.next_free();
        let mut offsprings: Vec<Individual> = Vec::new();
        let mut produced: usize = 0;
        let mut parent_index: usize = 0;
        while parent_index < survivor_count
            invariant
                survivor_count == old(self).individuals@.len(),
                scores@.len() == survivor_count,
                1 <= survivor_count,
                parent_index <= survivor_count,
                produced <= offspring_count,
                offspring_count == parameters.setup.population_size - survivor_count,
                parameters.wf(),
                self.individuals@ == old(self).individuals@,
                self.archive@ == old(self).archive@,
                self.population_statistics.fitness == old(self).population_statistics.fitness,
                self.id_gen.wf(),
                entry_next <= self.id_gen.next_free(),
                self.id_gen.next_free() <= entry_next + produced,
                entry_next + parameters.setup.population_size <= u64::MAX,
                old(self).wf(),
                forall|j: int|
                    0 <= j < self.individuals@.len() ==> member_ok(
                        #[trigger] self.individuals@[j],
                        self.id_gen.next_free(),
                    ),
                offsprings@.len() == produced,
                forall|j: int|
                    0 <= j < offsprings@.len() ==> member_ok(
                        #[trigger] offsprings@[j],
                        self.id_gen.next_free(),
                    ),
                forall|j: int|
                    0 <= j < offsprings@.len() ==> fresh_child(#[trigger] offsprings@[j]),
            decreases survivor_count - parent_index,
        {
            let mut share = math.round_to_usize(math.mul(scores[parent_index], per_score));
            if share > offspring_count - produced {
                share = offspring_count - produced;
            }
            let mut c: usize = 0;
            while c < share
                invariant
                    survivor_count == old(self).individuals@.len(),
                    1 <= survivor_count,
                    parent_index < survivor_count,
                    c <= share,
                    produced + share - c <= offspring_count,
                    offspring_count == parameters.setup.population_size - survivor_count,
                    parameters.wf(),
                    self.individuals@ == old(self).individuals@,
                    self.archive@ == old(self).archive@,
                    self.population_statistics.fitness == old(self).population_statistics.fitness,
                    self.id_gen.wf(),
                    entry_next <= self.id_gen.next_free(),
                    self.id_gen.next_free() <= entry_next + produced,
                    entry_next + parameters.setup.population_size <= u64::MAX,
                    old(self).wf(),
                    forall|j: int|
                        0 <= j < self.individuals@.len() ==> member_ok(
                            #[trigger] self.individuals@[j],
                            self.id_gen.next_free(),
                        ),
                    offsprings@.len() == produced,
                    forall|j: int|
                        0 <= j < offsprings@.len() ==> member_ok(
                            #[trigger] offsprings@[j],
                            self.id_gen.next_free(),
                        ),
                    forall|j: int|
                        0 <= j < offsprings@.len() ==> fresh_child(#[trigger] offsprings@[j]),
                decreases share - c,
            {
                let child = self.spawn_offspring(parent_index, parameters, weights, math);
                offsprings.push(child);
                produced = produced + 1;
                c = c + 1;
            }
            parent_index = parent_index + 1;
        }
        let mut parent: usize = 0;
        while produced < offspring_count
            invariant
                survivor_count == old(self).individuals@.len(),
                1 <= survivor_count,
                parent < survivor_count,
                produced <= offspring_count,
                offspring_count == parameters.setup.population_size - survivor_count,
                parameters.wf(),
                self.individuals@ == old(self).individuals@,
                self.archive@ == old(self).archive@,
                self.population_statistics.fitness == old(self).population_statistics.fitness,
                self.id_gen.wf(),
                entry_next <= self.id_gen.next_free(),
                self.id_gen.next_free() <= entry_next + produced,
                entry_next + parameters.setup.population_size <= u64::MAX,
                old(self).wf(),
                forall|j: int|
                    0 <= j < self.individuals@.len() ==> member_ok(
                        #[trigger] self.individuals@[j],
                        self.id_gen.next_free(),
                    ),
                offsprings@.len() == produced,
                forall|j: int|
                    0 <= j < offsprings@.len() ==> member_ok(
                        #[trigger] offsprings@[j],
                        self.id_gen.next_free(),
                    ),
                forall|j: int|
                    0 <= j < offsprings@.len() ==> fresh_child(#[trigger] offsprings@[j]),
            decreases offspring_count - produced,
        {
            let child = self.spawn_offspring(parent, parameters, weights, math);
            offsprings.push(child);
            produced = produced + 1;
            parent = if parent + 1 < survivor_count {
                parent + 1
            } else {
                0
            };
        }
        self.individuals.append(&mut offsprings);
        proof {
            assert(self.individuals@.subrange(0, old(self).individuals@.len() as int) =~= old(
                self,
            ).individuals@);
        }
        self.population_statistics.milliseconds_elapsed_reproducing = 0;
    }

    /// One offspring of the survivor at `parent_index`: a crossover with
    /// a uniformly random partner, mutated once.
    fn spawn_offspring<W: crate::weights::WeightDistribution, M: RealArithmetic>(
        &mut self,
        parent_index: usize,
        parameters: &Parameters,
        weights: &mut W,
        math: &M,
    ) -> (child: Individual)
        requires
            parent_index < old(self).individuals_seq().len(),
            parameters.wf(),
            old(self).id_gen.wf(),
            old(self).id_next() < u64::MAX,
            forall|j: int|
                0 <= j < old(self).individuals_seq().len() ==> member_ok(
                    #[trigger] old(self).individuals_seq()[j],
                    old(self).id_next(),
                ),
        ensures
            final(self).individuals_seq() == old(self).individuals_seq(),
            final(self).archive_seq() == old(self).archive_seq(),
            final(self).population_statistics == old(self).population_statistics,
            final(self).id_gen.wf(),
            old(self).id_next() <= final(self).id_next() <= old(self).id_next() + 1,
            member_ok(child, final(self).id_next()),
            fresh_child(child),
            forall|j: int|
                0 <= j < final(self).individuals_seq().len() ==> member_ok(
                    #[trigger] final(self).individuals_seq()[j],
                    final(self).id_next(),
                ),
    {
        let partner_index = self.rng.below(self.individuals.len());
        let parent = &self.individuals[parent_index];
        let partner = &self.individuals[partner_index];
        let mut child = parent.crossover(partner, &mut self.rng, math);
        proof {
            assert(member_ok(old(self).individuals@[parent_index as int], self.id_gen.next_free()));
            assert(member_ok(
                old(self).individuals@[partner_index as int],
                self.id_gen.next_free(),
            ));
            if genome_crossed(
                old(self).individuals@[parent_index as int].genome,
                old(self).individuals@[partner_index as int].genome,
                child.genome,
            ) {
                lemma_crossed_member(
                    old(self).individuals@[parent_index as int].genome,
                    old(self).individuals@[partner_index as int].genome,
                    child.genome,
                    self.id_gen.next_free(),
                );
            } else {
                lemma_crossed_member(
                    old(self).individuals@[partner_index as int].genome,
                    old(self).individuals@[parent_index as int].genome,
                    child.genome,
                    self.id_gen.next_free(),
                );
            }
        }
        let ghost pre_next = self.id_gen.next_free();
        child.genome.mutate(&mut self.rng, &mut self.id_gen, parameters, weights);
        proof {
            assert forall|j: int| 0 <= j < self.individuals@.len() implies member_ok(
                #[trigger] self.individuals@[j],
                self.id_gen.next_free(),
            ) by {
                assert(member_ok(self.individuals@[j], pre_next));
            }
        }
        child
    }

    /// The population sorted by normalized fitness, highest first —
    /// individuals without one rank below everything — and a copy of its
    /// best performer. Fails, leaving the population untouched, exactly
    /// when some normalized fitness is not a number.
    fn top_fitness_performer<M: RealArithmetic>(&mut self, math: &M) -> (r: Result<
        Individual,
        &'static str,
    >)
        requires
            old(self).wf(),
        ensures
            final(self).wf(),
            final(self).individuals_seq().len() == old(self).individuals_seq().len(),
            final(self).individuals_seq().to_multiset() == old(
                self,
            ).individuals_seq().to_multiset(),
            final(self).archive_seq() == old(self).archive_seq(),
            final(self).id_next() == old(self).id_next(),
            final(self).fitness_statistics() == old(self).fitness_statistics(),
            r is Err <==> exists|j: int|
                0 <= j < old(self).individuals_seq().len() && scalar::r_is_nan(
                    ranking_fitness_bits(#[trigger] old(self).individuals_seq()[j]),
                ),
            r matches Err(m) ==> m@ == "fitness not comparable"@ && *final(self) == *old(self),
            r is Ok ==> forall|a: int, b: int|
                0 <= a < b < final(self).individuals_seq().len() ==> scalar::r_total_key(
                    ranking_fitness_bits(#[trigger] final(self).individuals_seq()[a]),
                ) >= scalar::r_total_key(
                    ranking_fitness_bits(#[trigger] final(self).individuals_seq()[b]),
                ),
            r matches Ok(top) ==> forall|j: int|
                0 <= j < final(self).individuals_seq().len() ==> !scalar::r_lt(
                    ranking_fitness_bits(top),
                    ranking_fitness_bits(#[trigger] final(self).individuals_seq()[j]),
                ),
    {
        broadcast use vstd::seq_lib::group_to_multiset_ensures;

        let mut keys: Vec<u64> = Vec::new();
        let mut i: usize = 0;
        while i < self.individuals.len()
            invariant
                i <= self.individuals@.len(),
                *self == *old(self),
                old(self).wf(),
                keys@.len() == i,
                forall|j: int|
                    0 <= j < i ==> #[trigger] keys@[j] == ranking_fitness_bits(
                        self.individuals@[j],
                    ),
                forall|j: int|
                    0 <= j < i ==> !scalar::r_is_nan(
                        ranking_fitness_bits(#[trigger] self.individuals@[j]),
                    ),
            decreases self.individuals@.len() - i,
        {
            let key = match &self.individuals[i].fitness {
                Some(f) => f.normalized.value(),
                None => scalar::R_NEG_INFINITY,
            };
            proof {
                assert(key == ranking_fitness_bits(self.individuals@[i as int]));
            }
            if scalar::is_nan(key) {
                proof {
                    assert(scalar::r_is_nan(ranking_fitness_bits(
                        #[trigger] old(self).individuals_seq()[i as int],
                    )));
                }
                return Err("fitness not comparable");
            }
            keys.push(key);
            i = i + 1;
        }
        let ghost pre_sort = self.individuals@;
        self.reorder_by_keys(&keys);
        proof {
            let sorted = choose|sorted: Seq<(u64, Individual)>|
                #[trigger] sorted.to_multiset() == zip_pairs(keys@, pre_sort).to_multiset()
                    && individuals_of(sorted) == self.individuals@ && (forall|a: int, b: int|
                    0 <= a < b < sorted.len() ==> scalar::r_total_key((#[trigger] sorted[a]).0)
                        >= scalar::r_total_key((#[trigger] sorted[b]).0));
            assert forall|a: int, b: int|
                0 <= a < b < self.individuals@.len() implies scalar::r_total_key(
                ranking_fitness_bits(#[trigger] self.individuals@[a]),
            ) >= scalar::r_total_key(
                ranking_fitness_bits(#[trigger] self.individuals@[b]),
            ) by {
                assert(sorted.len() == self.individuals@.len()) by {
                    assert(individuals_of(sorted).len() == sorted.len());
                }
                assert(self.individuals@[a] == sorted[a].1 && self.individuals@[b]
                    == sorted[b].1);
                lemma_pair_key_is_ranking(sorted, keys@, pre_sort, a);
                lemma_pair_key_is_ranking(sorted, keys@, pre_sort, b);
            }
        }
        let mut best: usize = 0;
        let mut j: usize = 1;
        while j < self.individuals.len()
            invariant
                self.individuals@.len() >= 1,
                best < j <= self.individuals@.len(),
                forall|k: int|
                    0 <= k < j ==> !scalar::r_lt(
                        ranking_fitness_bits(self.individuals@[best as int]),
                        ranking_fitness_bits(#[trigger] self.individuals@[k]),
                    ),
            decreases self.individuals@.len() - j,
        {
            let best_key = match &self.individuals[best].fitness {
                Some(f) => f.normalized.value(),
                None => scalar::R_NEG_INFINITY,
            };
            let key = match &self.individuals[j].fitness {
                Some(f) => f.normalized.value(),
                None => scalar::R_NEG_INFINITY,
            };
            if scalar::lt(best_key, key) {
                best = j;
            }
            j = j + 1;
        }
        Ok(self.individuals[best].duplicate())
    }

    /// The report of the finished transition: the top fitness performer
    /// and the age spread, beside the score spreads the earlier steps
    /// recorded.
    fn gather_statistics<M: RealArithmetic>(&mut self, math: &M) -> (r: Result<
        PopulationStatistics,
        &'static str,
    >)
        requires
            old(self).wf(),
        ensures
            final(self).wf(),
            final(self).individuals_seq().len() == old(self).individuals_seq().len(),
            final(self).individuals_seq().to_multiset() == old(
                self,
            ).individuals_seq().to_multiset(),
            final(self).archive_seq() == old(self).archive_seq(),
            final(self).id_next() == old(self).id_next(),
            r matches Ok(report) ==> report.fitness == old(self).fitness_statistics(),
            r matches Ok(report) ==> forall|j: int|
                0 <= j < final(self).individuals_seq().len() ==> !scalar::r_lt(
                    ranking_fitness_bits(report.top_performer),
                    ranking_fitness_bits(#[trigger] final(self).individuals_seq()[j]),
                ),
            r matches Ok(report) ==> (forall|i: int|
                0 <= i < final(self).individuals_seq().len() ==> (#[trigger] final(self).individuals_seq()[i]).age
                    <= report.age_maximum) && (exists|i: int|
                0 <= i < final(self).individuals_seq().len() && (#[trigger] final(self).individuals_seq()[i]).age
                    == report.age_maximum),
            r is Err <==> exists|j: int|
                0 <= j < old(self).individuals_seq().len() && scalar::r_is_nan(
                    ranking_fitness_bits(#[trigger] old(self).individuals_seq()[j]),
                ),
            r matches Err(m) ==> m@ == "fitness not comparable"@,
            r is Ok ==> forall|a: int, b: int|
                0 <= a < b < final(self).individuals_seq().len() ==> scalar::r_total_key(
                    ranking_fitness_bits(#[trigger] final(self).individuals_seq()[a]),
                ) >= scalar::r_total_key(
                    ranking_fitness_bits(#[trigger] final(self).individuals_seq()[b]),
                ),
    {
        let top = match self.top_fitness_performer(math) {
            Ok(t) => t,
            Err(m) => {
                return Err(m);
            },
        };
        let mut age_maximum: usize = 0;
        let mut age_total: u128 = 0;
        let mut i: usize = 0;
        while i < self.individuals.len()
            invariant
                i <= self.individuals@.len(),
                age_total <= (i as u128) * (usize::MAX as u128),
                forall|j: int|
                    0 <= j < i ==> (#[trigger] self.individuals@[j]).age <= age_maximum,
                i > 0 ==> exists|j: int|
                    0 <= j < i && (#[trigger] self.individuals@[j]).age == age_maximum,
                i == 0 ==> age_maximum == 0,
            decreases self.individuals@.len() - i,
        {
            let age = self.individuals[i].age;
            if age > age_maximum {
                age_maximum = age;
                proof {
                    assert((#[trigger] self.individuals@[i as int]).age == age_maximum);
                }
            } else {
                proof {
                    if i == 0 {
                        assert((#[trigger] self.individuals@[0]).age == age_maximum);
                    }
                }
            }
            proof {
                assert(age_total + (age as u128) <= ((i + 1) as u128) * (
                usize::MAX as u128)) by (nonlinear_arith)
                    requires
                        age_total <= (i as u128) * (usize::MAX as u128),
                        age as u128 <= usize::MAX as u128,
                ;
                assert(((i + 1) as u128) * (usize::MAX as u128) < u128::MAX) by (nonlinear_arith)
                    requires
                        i + 1 <= usize::MAX,
                ;
            }
            age_total = age_total + (age as u128);
            i = i + 1;
        }
        let age_average = math.div(math.from_u128(age_total), math.from_usize(
            self.individuals.len(),
        ));
        let report = PopulationStatistics {
            top_performer: top,
            fitness: self.population_statistics.fitness,
            novelty: self.population_statistics.novelty,
            age_maximum,
            age_average,
            milliseconds_elapsed_reproducing: self.population_statistics.milliseconds_elapsed_reproducing,
        };
        self.population_statistics.age_maximum = age_maximum;
        self.population_statistics.age_average = age_average;
        Ok(report)
    }

    /// One generation transition, against the evaluator's index-aligned
    /// progress reports: fitness and behavior assignment, novelty
    /// scoring with its archive update, score-ranked survivor selection,
    /// aging, and proportionate reproduction back to exactly
    /// `population_size`. Scores that cannot be ordered abort the
    /// transition with an error instead of corrupting selection.
    pub fn next_generation<W: crate::weights::WeightDistribution, M: RealArithmetic>(
        &mut self,
        parameters: &Parameters,
        progress: &Vec<Progress>,
        weights: &mut W,
        math: &M,
    ) -> (r: Result<PopulationStatistics, &'static str>)
        requires
            old(self).wf(),
            parameters.wf(),
            progress@.len() == old(self).individuals_seq().len(),
            old(self).id_next() + parameters.setup.population_size <= u64::MAX,
        ensures
            final(self).wf(),
            r is Ok ==> final(self).individuals_seq().len() == parameters.setup.population_size,
            old(self).archive_seq().len() <= final(self).archive_seq().len() <= old(
                self,
            ).archive_seq().len() + 1,
            r matches Ok(report) ==> forall|j: int|
                0 <= j < final(self).individuals_seq().len() ==> !scalar::r_lt(
                    ranking_fitness_bits(report.top_performer),
                    ranking_fitness_bits(#[trigger] final(self).individuals_seq()[j]),
                ),
            r matches Ok(report) ==> (any_fitness(progress@) ==> report.fitness.raw_minimum
                == running_min(fitness_bits(progress@), scalar::R_INFINITY)
                && report.fitness.raw_maximum == running_max(
                fitness_bits(progress@),
                scalar::R_NEG_INFINITY,
            )),
            r matches Err(m) ==> m@ == "score not comparable"@ || m@ == "fitness not comparable"@,
            r is Ok ==> forall|a: int, b: int|
                0 <= a < b < final(self).individuals_seq().len() ==> scalar::r_total_key(
                    ranking_fitness_bits(#[trigger] final(self).individuals_seq()[a]),
                ) >= scalar::r_total_key(
                    ranking_fitness_bits(#[trigger] final(self).individuals_seq()[b]),
                ),
            behavior_present(old(self).individuals_seq(), progress@) ==> final(self).archive_seq().len()
                == old(self).archive_seq().len() + 1,
            !behavior_present(old(self).individuals_seq(), progress@) ==> final(self).archive_seq().len()
                == old(self).archive_seq().len(),
            unevaluated(old(self).individuals_seq()) && silent(progress@) ==> r is Ok,
            r is Ok ==> exists|staged: Seq<Individual>|
                #[trigger] staged.to_multiset() == final(self).individuals_seq().to_multiset()
                    && staged.len() == parameters.setup.population_size && (forall|j: int|
                    kept_count(
                        old(self).individuals_seq().len() as int,
                        parameters.setup.survivor_count as int,
                    ) <= j < staged.len() ==> fresh_child(#[trigger] staged[j])) && (forall|j: int|
                    0 <= j < kept_count(
                        old(self).individuals_seq().len() as int,
                        parameters.setup.survivor_count as int,
                    ) ==> exists|i: int|
                        0 <= i < old(self).individuals_seq().len() && (#[trigger] staged[j]).genome
                            == old(self).individuals_seq()[i].genome),
    {
        let ghost entry = *old(self);
        self.assign_fitness(progress, math);
        proof {
            if unevaluated(entry.individuals@) && silent(progress@) {
                assert(!any_fitness(progress@));
                assert(unevaluated(self.individuals@)) by {
                    assert forall|i: int| 0 <= i < self.individuals@.len() implies (
                    #[trigger] self.individuals@[i]).behavior is None && self.individuals@[i].fitness
                        is None && self.individuals@[i].novelty is None by {
                        assert(fitness_assigned(
                            entry.individuals@[i],
                            self.individuals@[i],
                            progress@[i],
                            any_fitness(progress@),
                        ));
                        assert(entry.individuals@[i].behavior is None);
                    }
                }
            }
        }
        let ghost after_fitness = *self;
        self.assign_behavior(progress);
        let ghost after_behavior = *self;
        proof {
            assert(has_behavior(self.individuals@) == behavior_present(
                entry.individuals@,
                progress@,
            )) by {
                if has_behavior(self.individuals@) {
                    let i = choose|i: int|
                        0 <= i < self.individuals@.len() && (
                        #[trigger] self.individuals@[i]).behavior is Some;
                    assert(behavior_assigned(
                        after_fitness.individuals@[i],
                        self.individuals@[i],
                        progress@[i],
                    ));
                    assert(fitness_assigned(
                        entry.individuals@[i],
                        after_fitness.individuals@[i],
                        progress@[i],
                        any_fitness(progress@),
                    ));
                    assert(entry.individuals@[i].behavior is Some || progress@[i].spec_behavior()
                        is Some);
                }
                if behavior_present(entry.individuals@, progress@) {
                    let i = choose|i: int|
                        0 <= i < entry.individuals@.len() && ((
                        #[trigger] entry.individuals@[i]).behavior is Some || (i < progress@.len()
                            && progress@[i].spec_behavior() is Some));
                    assert(fitness_assigned(
                        entry.individuals@[i],
                        after_fitness.individuals@[i],
                        progress@[i],
                        any_fitness(progress@),
                    ));
                    assert(behavior_assigned(
                        after_fitness.individuals@[i],
                        self.individuals@[i],
                        progress@[i],
                    ));
                    assert(self.individuals@[i].behavior is Some);
                }
            }
            if unevaluated(entry.individuals@) && silent(progress@) {
                assert(unevaluated(self.individuals@)) by {
                    assert forall|i: int| 0 <= i < self.individuals@.len() implies (
                    #[trigger] self.individuals@[i]).behavior is None && self.individuals@[i].fitness
                        is None && self.individuals@[i].novelty is None by {
                        assert(behavior_assigned(
                            after_fitness.individuals@[i],
                            self.individuals@[i],
                            progress@[i],
                        ));
                        assert(after_fitness.individuals@[i].behavior is None
                            && after_fitness.individuals@[i].fitness is None
                            && after_fitness.individuals@[i].novelty is None);
                    }
                }
            }
        }
        self.calculate_novelty(parameters, math);
        let ghost after_novelty = *self;
        proof {
            if unevaluated(entry.individuals@) && silent(progress@) {
                assert(unevaluated(self.individuals@) && unscored(self.individuals@)) by {
                    assert forall|i: int| 0 <= i < self.individuals@.len() implies (
                    #[trigger] self.individuals@[i]).behavior is None && self.individuals@[i].fitness
                        is None && self.individuals@[i].novelty is None by {
                        assert(novelty_assigned(
                            after_behavior.individuals@[i],
                            self.individuals@[i],
                        ));
                        assert(after_behavior.individuals@[i].behavior is None
                            && after_behavior.individuals@[i].novelty is None);
                    }
                }
            }
        }
        match self.sort_individuals_by_score(math) {
            Ok(()) => {
            },
            Err(m) => {
                proof {
                    if unevaluated(entry.individuals@) && silent(progress@) {
                        assert(unscored(after_novelty.individuals@));
                        assert(false);
                    }
                }
                return Err(m);
            },
        }
        proof {
            assert forall|k: int| 0 <= k < self.individuals@.len() implies exists|i: int|
                0 <= i < entry.individuals@.len() && (#[trigger] self.individuals@[k]).genome
                    == entry.individuals@[i].genome by {
                broadcast use vstd::seq_lib::group_to_multiset_ensures;

                let x = self.individuals@[k];
                assert(self.individuals@.contains(x));
                assert(self.individuals@.to_multiset().count(x) > 0);
                assert(after_novelty.individuals@.to_multiset().count(x) > 0);
                assert(after_novelty.individuals@.contains(x));
                let m = choose|m: int|
                    0 <= m < after_novelty.individuals@.len() && after_novelty.individuals@[m]
                        == x;
                assert(novelty_assigned(after_behavior.individuals@[m], x));
                assert(behavior_assigned(
                    after_fitness.individuals@[m],
                    after_behavior.individuals@[m],
                    progress@[m],
                ));
                assert(fitness_assigned(
                    entry.individuals@[m],
                    after_fitness.individuals@[m],
                    progress@[m],
                    any_fitness(progress@),
                ));
                assert(x.genome == entry.individuals@[m].genome);
            }
        }
        let ghost after_sort = *self;
        self.individuals.truncate(parameters.setup.survivor_count);
        proof {
            assert(self.individuals@.len() >= 1);
            assert(self.individuals@.len() == kept_count(
                entry.individuals@.len() as int,
                parameters.setup.survivor_count as int,
            ));
            assert forall|j: int| 0 <= j < self.individuals@.len() implies member_ok(
                #[trigger] self.individuals@[j],
                self.id_gen.next_free(),
            ) by {
            }
        }
        let ghost pre_age = *self;
        let mut i: usize = 0;
        while i < self.individuals.len()
            invariant
                i <= self.individuals@.len(),
                self.individuals@.len() == pre_age.individuals@.len(),
                self.archive@ == pre_age.archive@,
                self.id_gen == pre_age.id_gen,
                self.rng == pre_age.rng,
                self.population_statistics == pre_age.population_statistics,
                forall|j: int|
                    0 <= j < self.individuals@.len() ==> (#[trigger] self.individuals@[j]).genome
                        == pre_age.individuals@[j].genome && self.individuals@[j].behavior
                        == pre_age.individuals@[j].behavior && self.individuals@[j].fitness
                        == pre_age.individuals@[j].fitness && self.individuals@[j].novelty
                        == pre_age.individuals@[j].novelty,
                forall|j: int|
                    0 <= j < self.individuals@.len() ==> member_ok(
                        #[trigger] self.individuals@[j],
                        self.id_gen.next_free(),
                    ) == member_ok(pre_age.individuals@[j], self.id_gen.next_free()),
            decreases self.individuals@.len() - i,
        {
            if self.individuals[i].age < usize::MAX {
                let bumped = self.individuals[i].age + 1;
                self.individuals[i].age = bumped;
            }
            i = i + 1;
        }
        proof {
            assert forall|j: int| 0 <= j < self.individuals@.len() implies member_ok(
                #[trigger] self.individuals@[j],
                self.id_gen.next_free(),
            ) by {
                assert(member_ok(pre_age.individuals@[j], self.id_gen.next_free()));
            }
        }
        let ghost pre_offspring = *self;
        self.generate_offspring(parameters, weights, math);
        proof {
            let kept = kept_count(
                entry.individuals@.len() as int,
                parameters.setup.survivor_count as int,
            );
            assert forall|j: int| 0 <= j < kept implies exists|i2: int|
                0 <= i2 < entry.individuals@.len() && (#[trigger] self.individuals@[j]).genome
                    == entry.individuals@[i2].genome by {
                assert(self.individuals@.subrange(0, pre_offspring.individuals@.len() as int)[j]
                    == self.individuals@[j]);
                assert(self.individuals@[j] == pre_offspring.individuals@[j]);
                assert(pre_offspring.individuals@[j].genome == pre_age.individuals@[j].genome);
                assert(pre_age.individuals@[j] == after_sort.individuals@[j]);
                let i2 = choose|i2: int|
                    0 <= i2 < entry.individuals@.len() && (
                    #[trigger] after_sort.individuals@[j]).genome == entry.individuals@[i2].genome;
                assert(self.individuals@[j].genome == entry.individuals@[i2].genome);
            }
            assert forall|j: int|
                kept <= j < parameters.setup.population_size implies fresh_child(
                #[trigger] self.individuals@[j],
            ) by {
            }
            if unevaluated(entry.individuals@) && silent(progress@) {
                assert forall|j: int|
                    0 <= j < self.individuals@.len() implies !scalar::r_is_nan(
                    ranking_fitness_bits(#[trigger] self.individuals@[j]),
                ) by {
                    scalar::lemma_zero_not_nan();
                    let kept2 = pre_offspring.individuals@.len() as int;
                    if j < kept2 {
                        assert(self.individuals@.subrange(0, kept2)[j] == self.individuals@[j]);
                        assert(self.individuals@[j] == pre_offspring.individuals@[j]);
                        assert(pre_offspring.individuals@[j].fitness
                            == pre_age.individuals@[j].fitness);
                        assert(pre_age.individuals@[j] == after_sort.individuals@[j]);
                        assert(unevaluated(after_novelty.individuals@));
                        assert(after_sort.individuals@[j].fitness is None) by {
                            broadcast use vstd::seq_lib::group_to_multiset_ensures;

                            let x = after_sort.individuals@[j];
                            assert(after_sort.individuals@.contains(x));
                            assert(after_sort.individuals@.to_multiset().count(x) > 0);
                            assert(after_novelty.individuals@.to_multiset().count(x) > 0);
                            assert(after_novelty.individuals@.contains(x));
                            let m = choose|m: int|
                                0 <= m < after_novelty.individuals@.len()
                                    && after_novelty.individuals@[m] == x;
                            assert(after_novelty.individuals@[m].fitness is None);
                        }
                    } else {
                        assert(fresh_child(self.individuals@[j]));
                    }
                }
            }
        }
        let ghost staged = self.individuals@;
        let outcome = self.gather_statistics(math);
        proof {
            if unevaluated(entry.individuals@) && silent(progress@) {
                match outcome {
                    Ok(_) => {
                    },
                    Err(_) => {
                        assert(false);
                    },
                }
            }
            if outcome is Ok {
                assert(staged.to_multiset() == self.individuals@.to_multiset() && staged.len()
                    == parameters.setup.population_size && (forall|j: int|
                    kept_count(
                        entry.individuals@.len() as int,
                        parameters.setup.survivor_count as int,
                    ) <= j < staged.len() ==> fresh_child(#[trigger] staged[j])) && (forall|j: int|
                    0 <= j < kept_count(
                        entry.individuals@.len() as int,
                        parameters.setup.survivor_count as int,
                    ) ==> exists|i: int|
                        0 <= i < entry.individuals@.len() && (#[trigger] staged[j]).genome
                            == entry.individuals@[i].genome));
            }
        }
        outcome
    }

    /// The current individuals — index-aligned with the progress reports
    /// an evaluator produces for them.
    pub fn individuals(&self) -> (r: &Vec<Individual>)
        ensures
            r@ == self.individuals_seq(),
    {
        &self.individuals
    }
}

/// The key fitness ranking goes by: the normalized fitness bits, with
/// individuals lacking one ranked below everything at negative infinity.
pub open spec fn ranking_fitness_bits(ind: Individual) -> u64 {
    match ind.fitness {
        Some(f) => f.normalized.0.0,
        None => scalar::R_NEG_INFINITY,
    }
}

/// Some individual of the sequence carries a behavior.
pub open spec fn has_behavior(inds: Seq<Individual>) -> bool {
    exists|j: int| 0 <= j < inds.len() && (#[trigger] inds[j]).behavior is Some
}

/// Some progress report carries a raw fitness.
pub open spec fn any_fitness(progress: Seq<Progress>) -> bool {
    exists|j: int| 0 <= j < progress.len() && (#[trigger] progress[j]).spec_raw_fitness() is Some
}

/// What the fitness-assignment step does to one individual: everything
/// but the fitness slot is untouched; the slot gets a score whose raw
/// stage records the reported value — but only when some report in the
/// generation carried a fitness at all.
pub open spec fn fitness_assigned(
    before: Individual,
    after: Individual,
    p: Progress,
    any: bool,
) -> bool {
    &&& after.genome == before.genome
    &&& after.age == before.age
    &&& after.behavior == before.behavior
    &&& after.novelty == before.novelty
    &&& if any {
        match p.spec_raw_fitness() {
            Some(f) => after.fitness matches Some(fs) && fs.raw.0.0 == f.0.0,
            None => after.fitness == before.fitness,
        }
    } else {
        after.fitness == before.fitness
    }
}

/// What the behavior-assignment step does to one individual.
pub open spec fn behavior_assigned(before: Individual, after: Individual, p: Progress) -> bool {
    &&& after.genome == before.genome
    &&& after.age == before.age
    &&& after.fitness == before.fitness
    &&& after.novelty == before.novelty
    &&& match p.spec_behavior() {
        Some(b) => after.behavior matches Some(c) && c.0@ == b.0@,
        None => after.behavior == before.behavior,
    }
}

/// The raw fitness values the reports carry, in report order.
pub open spec fn fitness_bits(progress: Seq<Progress>) -> Seq<u64>
    decreases progress.len(),
{
    if progress.len() == 0 {
        Seq::empty()
    } else {
        let rest = fitness_bits(progress.drop_first());
        match progress[0].spec_raw_fitness() {
            Some(f) => seq![f.0.0] + rest,
            None => rest,
        }
    }
}

/// The left-to-right running minimum under IEEE `<`, started at `acc`:
/// the scan `if value < acc { acc = value }` over the whole sequence.
pub open spec fn running_min(values: Seq<u64>, acc: u64) -> u64
    decreases values.len(),
{
    if values.len() == 0 {
        acc
    } else {
        running_min(
            values.drop_first(),
            if scalar::r_lt(values[0], acc) {
                values[0]
            } else {
                acc
            },
        )
    }
}

/// The left-to-right running maximum under IEEE `<`, started at `acc`.
pub open spec fn running_max(values: Seq<u64>, acc: u64) -> u64
    decreases values.len(),
{
    if values.len() == 0 {
        acc
    } else {
        running_max(
            values.drop_first(),
            if scalar::r_lt(acc, values[0]) {
                values[0]
            } else {
                acc
            },
        )
    }
}

/// Appending one value to a scan takes one more step.
proof fn lemma_running_min_push(values: Seq<u64>, v: u64, acc: u64)
    ensures
        running_min(values.push(v), acc) == if scalar::r_lt(v, running_min(values, acc)) {
            v
        } else {
            running_min(values, acc)
        },
    decreases values.len(),
{
    let stepped = if scalar::r_lt(values.push(v)[0], acc) {
        values.push(v)[0]
    } else {
        acc
    };
    assert(running_min(values.push(v), acc) == running_min(values.push(v).drop_first(), stepped));
    if values.len() == 0 {
        assert(values.push(v)[0] == v);
        assert(values.push(v).drop_first() =~= Seq::<u64>::empty());
        assert(running_min(values.push(v).drop_first(), stepped) == stepped);
        assert(running_min(values, acc) == acc);
    } else {
        assert(values.push(v).drop_first() =~= values.drop_first().push(v));
        assert(values.push(v)[0] == values[0]);
        lemma_running_min_push(
            values.drop_first(),
            v,
            if scalar::r_lt(values[0], acc) {
                values[0]
            } else {
                acc
            },
        );
        assert(running_min(values, acc) == running_min(
            values.drop_first(),
            if scalar::r_lt(values[0], acc) {
                values[0]
            } else {
                acc
            },
        ));
    }
}

/// Appending one value to a scan takes one more step.
proof fn lemma_running_max_push(values: Seq<u64>, v: u64, acc: u64)
    ensures
        running_max(values.push(v), acc) == if scalar::r_lt(running_max(values, acc), v) {
            v
        } else {
            running_max(values, acc)
        },
    decreases values.len(),
{
    let stepped = if scalar::r_lt(acc, values.push(v)[0]) {
        values.push(v)[0]
    } else {
        acc
    };
    assert(running_max(values.push(v), acc) == running_max(values.push(v).drop_first(), stepped));
    if values.len() == 0 {
        assert(values.push(v)[0] == v);
        assert(values.push(v).drop_first() =~= Seq::<u64>::empty());
        assert(running_max(values.push(v).drop_first(), stepped) == stepped);
        assert(running_max(values, acc) == acc);
    } else {
        assert(values.push(v).drop_first() =~= values.drop_first().push(v));
        assert(values.push(v)[0] == values[0]);
        lemma_running_max_push(
            values.drop_first(),
            v,
            if scalar::r_lt(acc, values[0]) {
                values[0]
            } else {
                acc
            },
        );
        assert(running_max(values, acc) == running_max(
            values.drop_first(),
            if scalar::r_lt(acc, values[0]) {
                values[0]
            } else {
                acc
            },
        ));
    }
}

/// One more report extends the extracted fitness values by at most one.
proof fn lemma_fitness_bits_push(progress: Seq<Progress>, p: Progress)
    ensures
        fitness_bits(progress.push(p)) =~= match p.spec_raw_fitness() {
            Some(f) => fitness_bits(progress).push(f.0.0),
            None => fitness_bits(progress),
        },
    decreases progress.len(),
{
    if progress.len() == 0 {
        assert(progress.push(p)[0] == p);
        assert(progress.push(p).drop_first() =~= Seq::<Progress>::empty());
        assert(fitness_bits(Seq::<Progress>::empty()) =~= Seq::<u64>::empty());
        assert(fitness_bits(progress) =~= Seq::<u64>::empty());
        match p.spec_raw_fitness() {
            Some(f) => {
                assert(fitness_bits(progress.push(p)) =~= seq![f.0.0]);
                assert(fitness_bits(progress).push(f.0.0) =~= seq![f.0.0]);
            },
            None => {
            },
        }
    } else {
        assert(progress.push(p).drop_first() =~= progress.drop_first().push(p));
        assert(progress.push(p)[0] == progress[0]);
        lemma_fitness_bits_push(progress.drop_first(), p);
        match p.spec_raw_fitness() {
            Some(f) => {
                match progress[0].spec_raw_fitness() {
                    Some(f0) => {
                        assert(fitness_bits(progress.push(p)) =~= seq![f0.0.0] + fitness_bits(
                            progress.drop_first(),
                        ).push(f.0.0));
                        assert(fitness_bits(progress).push(f.0.0) =~= seq![f0.0.0] + fitness_bits(
                            progress.drop_first(),
                        ).push(f.0.0));
                    },
                    None => {
                    },
                }
            },
            None => {
            },
        }
    }
}

/// The novelty step touches nothing but the novelty slot.
pub open spec fn novelty_partial(before: Individual, after: Individual) -> bool {
    &&& after.genome == before.genome
    &&& after.age == before.age
    &&& after.fitness == before.fitness
    &&& after.behavior == before.behavior
}

/// What the novelty step does to one individual: an individual with a
/// behavior ends up with a novelty score; one without keeps what it had.
pub open spec fn novelty_assigned(before: Individual, after: Individual) -> bool {
    &&& novelty_partial(before, after)
    &&& (before.behavior is Some ==> after.novelty is Some)
    &&& (before.behavior is None ==> after.novelty == before.novelty)
}

/// The keys and individuals paired up positionally.
pub open spec fn zip_pairs(keys: Seq<u64>, inds: Seq<Individual>) -> Seq<(u64, Individual)> {
    Seq::new(keys.len(), |i: int| (keys[i], inds[i]))
}

/// `copy` reproduces `orig` member for member: the same genes, age and
/// scores, and the same behavior coordinates.
pub open spec fn individual_copy(orig: Individual, copy: Individual) -> bool {
    &&& copy.genome.inputs.seq() == orig.genome.inputs.seq()
    &&& copy.genome.hidden.seq() == orig.genome.hidden.seq()
    &&& copy.genome.outputs.seq() == orig.genome.outputs.seq()
    &&& copy.genome.feed_forward.seq() == orig.genome.feed_forward.seq()
    &&& copy.genome.recurrent.seq() == orig.genome.recurrent.seq()
    &&& copy.age == orig.age
    &&& copy.fitness == orig.fitness
    &&& copy.novelty == orig.novelty
    &&& match (orig.behavior, copy.behavior) {
        (Some(b), Some(c)) => c.0@ == b.0@,
        (None, None) => true,
        _ => false,
    }
}

/// A freshly produced offspring: age zero, nothing evaluated yet.
pub open spec fn fresh_child(ind: Individual) -> bool {
    &&& ind.age == 0
    &&& ind.behavior is None
    &&& ind.fitness is None
    &&& ind.novelty is None
}

/// How many individuals survive the cut: the configured survivor count,
/// or the whole population when it is already smaller.
pub open spec fn kept_count(len: int, survivor_count: int) -> int {
    if len < survivor_count {
        len
    } else {
        survivor_count
    }
}

/// Some individual either already carries a behavior or is about to
/// receive one from its progress report.
pub open spec fn behavior_present(inds: Seq<Individual>, progress: Seq<Progress>) -> bool {
    exists|i: int|
        0 <= i < inds.len() && ((#[trigger] inds[i]).behavior is Some || (i < progress.len()
            && progress[i].spec_behavior() is Some))
}

/// No report carries anything: neither a fitness nor a behavior.
pub open spec fn silent(progress: Seq<Progress>) -> bool {
    forall|i: int|
        0 <= i < progress.len() ==> (#[trigger] progress[i]).spec_raw_fitness() is None
            && progress[i].spec_behavior() is None
}

/// No individual has been evaluated: no behavior, fitness or novelty.
pub open spec fn unevaluated(inds: Seq<Individual>) -> bool {
    forall|i: int|
        0 <= i < inds.len() ==> (#[trigger] inds[i]).behavior is None && inds[i].fitness is None
            && inds[i].novelty is None
}

/// No individual carries a fitness or novelty score yet.
pub open spec fn unscored(inds: Seq<Individual>) -> bool {
    forall|i: int|
        0 <= i < inds.len() ==> (#[trigger] inds[i]).fitness is None && inds[i].novelty is None
}

/// Every pair drawn from the zip of ranking keys with their individuals
/// carries its individual's ranking key.
proof fn lemma_pair_key_is_ranking(
    sorted: Seq<(u64, Individual)>,
    keys: Seq<u64>,
    inds: Seq<Individual>,
    at: int,
)
    requires
        keys.len() == inds.len(),
        forall|j: int| 0 <= j < keys.len() ==> #[trigger] keys[j] == ranking_fitness_bits(inds[j]),
        sorted.to_multiset() == zip_pairs(keys, inds).to_multiset(),
        0 <= at < sorted.len(),
    ensures
        sorted[at].0 == ranking_fitness_bits(sorted[at].1),
{
    broadcast use vstd::seq_lib::group_to_multiset_ensures;

    let x = sorted[at];
    assert(sorted.contains(x));
    assert(sorted.to_multiset().count(x) > 0);
    assert(zip_pairs(keys, inds).to_multiset().count(x) > 0);
    assert(zip_pairs(keys, inds).contains(x));
    let j = choose|j: int| 0 <= j < zip_pairs(keys, inds).len() && zip_pairs(keys, inds)[j] == x;
    assert(x == (keys[j], inds[j]));
}

/// The second components of a pair sequence.
pub open spec fn individuals_of(pairs: Seq<(u64, Individual)>) -> Seq<Individual> {
    pairs.map_values(|p: (u64, Individual)| p.1)
}

/// Inserting anywhere adds one occurrence to the multiset, the same as a
/// push.
proof fn lemma_insert_to_multiset<T>(s: Seq<T>, pos: int, x: T)
    requires
        0 <= pos <= s.len(),
    ensures
        s.insert(pos, x).to_multiset() =~= s.to_multiset().insert(x),
{
    broadcast use vstd::seq_lib::group_to_multiset_ensures;

    vstd::seq_lib::lemma_multiset_commutative(s.take(pos).push(x), s.skip(pos));
    vstd::seq_lib::lemma_multiset_commutative(s.take(pos), s.skip(pos));
    assert(s.take(pos) + s.skip(pos) =~= s);
    assert(s.insert(pos, x) =~= s.take(pos).push(x) + s.skip(pos));
    assert(s.take(pos).push(x).to_multiset() =~= s.take(pos).to_multiset().insert(x));
}

/// The pairs reordered so that their keys descend in the total bit
/// order: an insertion sort that moves each individual together with its
/// key. Exactly the same pairs — and so the same individuals — come
/// back.
fn sorted_pairs_descending(pairs: Vec<(u64, Individual)>) -> (r: Vec<(u64, Individual)>)
    ensures
        r@.len() == pairs@.len(),
        r@.to_multiset() == pairs@.to_multiset(),
        individuals_of(r@).to_multiset() == individuals_of(pairs@).to_multiset(),
        forall|a: int, b: int|
            0 <= a < b < r@.len() ==> scalar::r_total_key((#[trigger] r@[a]).0)
                >= scalar::r_total_key((#[trigger] r@[b]).0),
{
    broadcast use vstd::seq_lib::group_to_multiset_ensures;

    let ghost full_set = pairs@;
    let mut source = pairs;
    let mut out: Vec<(u64, Individual)> = Vec::new();
    while source.len() > 0
        invariant
            out@.len() + source@.len() == full_set.len(),
            out@.to_multiset().add(source@.to_multiset()) == full_set.to_multiset(),
            individuals_of(out@).to_multiset().add(individuals_of(source@).to_multiset())
                == individuals_of(full_set).to_multiset(),
            forall|a: int, b: int|
                0 <= a < b < out@.len() ==> scalar::r_total_key((#[trigger] out@[a]).0)
                    >= scalar::r_total_key((#[trigger] out@[b]).0),
        decreases source@.len(),
    {
        let ghost pre_source = source@;
        let x = source.pop().unwrap();
        let mut pos: usize = 0;
        while pos < out.len()
            invariant_except_break
                pos <= out@.len(),
                forall|k: int|
                    0 <= k < pos ==> scalar::r_total_key((#[trigger] out@[k]).0)
                        >= scalar::r_total_key(x.0),
            ensures
                pos <= out@.len(),
                forall|k: int|
                    0 <= k < pos ==> scalar::r_total_key((#[trigger] out@[k]).0)
                        >= scalar::r_total_key(x.0),
                pos < out@.len() ==> scalar::r_total_key(x.0) > scalar::r_total_key(
                    out@[pos as int].0,
                ),
            decreases out@.len() - pos,
        {
            if !scalar::total_le(x.0, out[pos].0) {
                break ;
            }
            pos = pos + 1;
        }
        let ghost pre_out = out@;
        out.insert(pos, x);
        proof {
            broadcast use vstd::seq_lib::group_to_multiset_ensures;

            pre_out.insert_ensures(pos as int, x);
            assert forall|a: int, b: int| 0 <= a < b < out@.len() implies scalar::r_total_key(
                (#[trigger] out@[a]).0,
            ) >= scalar::r_total_key((#[trigger] out@[b]).0) by {
                let va = if a < pos {
                    pre_out[a]
                } else if a == pos {
                    x
                } else {
                    pre_out[a - 1]
                };
                assert(out@[a] == va);
                let vb = if b < pos {
                    pre_out[b]
                } else if b == pos {
                    x
                } else {
                    pre_out[b - 1]
                };
                assert(out@[b] == vb);
                if a == pos && b > pos {
                    assert(pos < pre_out.len());
                    assert(scalar::r_total_key(x.0) > scalar::r_total_key(pre_out[pos as int].0));
                }
            }
            lemma_insert_to_multiset(pre_out, pos as int, x);
            assert(pre_source =~= source@.push(x));
            assert(source@.push(x).to_multiset() =~= source@.to_multiset().insert(x));
            assert(pre_out.to_multiset().insert(x).add(source@.to_multiset())
                =~= pre_out.to_multiset().add(source@.to_multiset().insert(x)));
            assert(out@.to_multiset().add(source@.to_multiset()) == full_set.to_multiset());
            assert(individuals_of(out@) =~= individuals_of(pre_out).insert(pos as int, x.1));
            lemma_insert_to_multiset(individuals_of(pre_out), pos as int, x.1);
            assert(individuals_of(pre_source) =~= individuals_of(source@).push(x.1));
            assert(individuals_of(source@).push(x.1).to_multiset() =~= individuals_of(
                source@,
            ).to_multiset().insert(x.1));
            assert(individuals_of(pre_out).to_multiset().insert(x.1).add(
                individuals_of(source@).to_multiset(),
            ) =~= individuals_of(pre_out).to_multiset().add(
                individuals_of(source@).to_multiset().insert(x.1),
            ));
            assert(individuals_of(out@).to_multiset().add(individuals_of(source@).to_multiset())
                == individuals_of(full_set).to_multiset());
        }
    }
    proof {
        broadcast use vstd::seq_lib::group_to_multiset_ensures;

        assert(source@ =~= Seq::<(u64, Individual)>::empty());
        assert(individuals_of(source@) =~= Seq::<Individual>::empty());
        assert(out@.to_multiset().add(source@.to_multiset()) =~= out@.to_multiset());
        assert(individuals_of(out@).to_multiset().add(individuals_of(source@).to_multiset())
            =~= individuals_of(out@).to_multiset());
        assert(out@.to_multiset() == full_set.to_multiset());
        assert(individuals_of(out@).to_multiset() == individuals_of(full_set).to_multiset());
        assert(out@.len() == out@.to_multiset().len());
        assert(full_set.len() == full_set.to_multiset().len());
    }
    out
}

} // verus!
