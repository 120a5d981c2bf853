use neat::activations::Activation;
use neat::connections::Connection;
use neat::genes::Genes;
use neat::genome::Genome;
use neat::ids::{Id, IdGenerator};
use neat::individual::Individual;
use neat::parameters::{Activations, Mutation, Parameters, Setup};
use neat::population::Population;
use neat::progress::Progress;
use neat::rng::{Chance, NeatRng, CHANCE_ALWAYS};
use neat::scalar::RealArithmetic;
use neat::scores::{Fitness, FitnessScore, Normalized, NoveltyScore, Novelty, Raw, Shifted};
use neat::weights::{Weight, WeightDistribution};

struct Math;

impl RealArithmetic for Math {
    fn add(&self, a: u64, b: u64) -> u64 {
        (f64::from_bits(a) + f64::from_bits(b)).to_bits()
    }
    fn sub(&self, a: u64, b: u64) -> u64 {
        (f64::from_bits(a) - f64::from_bits(b)).to_bits()
    }
    fn mul(&self, a: u64, b: u64) -> u64 {
        (f64::from_bits(a) * f64::from_bits(b)).to_bits()
    }
    fn div(&self, a: u64, b: u64) -> u64 {
        (f64::from_bits(a) / f64::from_bits(b)).to_bits()
    }
    fn round_to_usize(&self, a: u64) -> usize {
        let value = f64::from_bits(a).round();
        if value.is_nan() || value < 0.0 {
            0
        } else if value >= usize::MAX as f64 {
            usize::MAX
        } else {
            value as usize
        }
    }
    fn from_usize(&self, n: usize) -> u64 {
        (n as f64).to_bits()
    }
    fn from_u128(&self, n: u128) -> u64 {
        (n as f64).to_bits()
    }
    fn distance(&self, a: &Vec<u64>, b: &Vec<u64>) -> u64 {
        let mut sum = 0.0f64;
        let len = a.len().max(b.len());
        for i in 0..len {
            let x = a.get(i).map(|v| f64::from_bits(*v)).unwrap_or(0.0);
            let y = b.get(i).map(|v| f64::from_bits(*v)).unwrap_or(0.0);
            sum += (x - y) * (x - y);
        }
        sum.sqrt().to_bits()
    }
}

/// A deterministic weight source: fixed fresh weights, perturbation adds
/// a small constant. Tests that care about weights read them exactly.
struct TestWeights {
    state: u64,
}

impl TestWeights {
    fn new() -> TestWeights {
        TestWeights { state: 0x9E3779B97F4A7C15 }
    }
    fn next_unit(&mut self) -> f64 {
        self.state = self
            .state
            .wrapping_mul(6364136223846793005)
            .wrapping_add(1442695040888963407);
        (self.state >> 11) as f64 / (1u64 << 53) as f64
    }
}

impl WeightDistribution for TestWeights {
    fn initial_weight(&mut self) -> Weight {
        Weight((self.next_unit() * 2.0 - 1.0).to_bits())
    }
    fn perturb_weight(&mut self, weight: Weight) -> Weight {
        Weight((f64::from_bits(weight.0) + (self.next_unit() - 0.5) * 0.1).to_bits())
    }
}

fn small_parameters(input: usize, output: usize) -> Parameters {
    Parameters {
        setup: Setup {
            seed: 42,
            population_size: 10,
            survivor_count: 5,
            input_dimension: input,
            output_dimension: output,
            novelty_nearest_neighbors: 3,
        },
        activations: Activations::default(),
        mutation: Mutation {
            new_node_chance: Chance(0),
            new_connection_chance: Chance(0),
            connection_is_recurrent_chance: Chance(0),
            change_activation_function_chance: Chance(0),
        },
    }
}

fn fresh_genome(parameters: &Parameters, id_gen: &mut IdGenerator) -> Genome {
    Genome::new(id_gen, parameters)
}

fn normalized_fitness(value: f64) -> FitnessScore {
    FitnessScore {
        raw: Raw(Fitness(value.to_bits())),
        shifted: Shifted(Fitness(value.to_bits())),
        normalized: Normalized(Fitness(value.to_bits())),
    }
}

fn normalized_novelty(value: f64) -> NoveltyScore {
    NoveltyScore {
        raw: Raw(Novelty(value.to_bits())),
        shifted: Shifted(Novelty(value.to_bits())),
        normalized: Normalized(Novelty(value.to_bits())),
    }
}

fn bare_individual(genome: Genome) -> Individual {
    Individual { genome, age: 0, behavior: None, fitness: None, novelty: None }
}

#[test]
fn shift_raw() {
    let raw = Raw::fitness(1.0f64.to_bits());
    let shifted = raw.shift((-2.0f64).to_bits(), &Math);
    assert_eq!(shifted, Shifted(Fitness(3.0f64.to_bits())));
}

#[test]
fn normalize_shifted() {
    let shifted = Shifted(Fitness(1.0f64.to_bits()));
    let normalized = shifted.normalize(2.0f64.to_bits(), &Math);
    assert_eq!(normalized, Normalized(Fitness(0.5f64.to_bits())));
}

#[test]
fn read_parameters() {
    let source = "
        [setup]
        seed = 42
        population_size = 10
        survival_rate = 0.5
        input_dimension = 2
        output_dimension = 1
        novelty_nearest_neighbors = 3
    ";
    let config = config::Config::builder()
        .add_source(config::File::from_str(source, config::FileFormat::Toml))
        .build()
        .unwrap();
    let population_size = config.get_int("setup.population_size").unwrap() as usize;
    let survival_rate = config.get_float("setup.survival_rate").unwrap();
    let parameters = Parameters {
        setup: Setup {
            seed: config.get_int("setup.seed").unwrap() as u64,
            population_size,
            survivor_count: ((population_size as f64) * survival_rate).ceil() as usize,
            input_dimension: config.get_int("setup.input_dimension").unwrap() as usize,
            output_dimension: config.get_int("setup.output_dimension").unwrap() as usize,
            novelty_nearest_neighbors: config.get_int("setup.novelty_nearest_neighbors").unwrap()
                as usize,
        },
        activations: Activations::default(),
        mutation: Mutation {
            new_node_chance: Chance(0),
            new_connection_chance: Chance(0),
            connection_is_recurrent_chance: Chance(0),
            change_activation_function_chance: Chance(0),
        },
    };
    assert!(parameters.check());
    assert_eq!(parameters.setup.survivor_count, 5);
}

#[test]
fn unroll_genome() {
    // the recurrent half of the round trip the network adapter unrolls:
    // with a certain recurrent gamble, one backward-capable connection
    // appears, and the same connection cannot appear twice
    let parameters = small_parameters(1, 1);
    let mut id_gen = IdGenerator::new();
    let mut rng = NeatRng::new(parameters.setup.seed);
    let mut weights = TestWeights::new();
    let mut genome = fresh_genome(&parameters, &mut id_gen);
    genome.init(&mut rng, &parameters, &mut weights);
    let mut recurrent_parameters = small_parameters(1, 1);
    recurrent_parameters.mutation.connection_is_recurrent_chance = Chance(CHANCE_ALWAYS);
    assert!(genome
        .add_connection(&mut rng, &recurrent_parameters, &mut weights)
        .is_ok());
    assert!(genome
        .add_connection(&mut rng, &recurrent_parameters, &mut weights)
        .is_err());
    assert_eq!(genome.recurrent.len(), 1);
}

#[test]
fn add_random_connection() {
    let parameters = small_parameters(1, 1);
    let mut id_gen = IdGenerator::new();
    let mut rng = NeatRng::new(parameters.setup.seed);
    let mut weights = TestWeights::new();
    let mut genome = fresh_genome(&parameters, &mut id_gen);
    let result = genome.add_connection(&mut rng, &parameters, &mut weights).is_ok();
    assert_eq!(result, true);
    assert_eq!(genome.feed_forward.len(), 1);
}

#[test]
fn dont_add_same_connection_twice() {
    let parameters = small_parameters(1, 1);
    let mut id_gen = IdGenerator::new();
    let mut rng = NeatRng::new(parameters.setup.seed);
    let mut weights = TestWeights::new();
    let mut genome = fresh_genome(&parameters, &mut id_gen);
    let result_0 = genome.add_connection(&mut rng, &parameters, &mut weights).is_ok();
    if let Err(message) = genome.add_connection(&mut rng, &parameters, &mut weights) {
        assert_eq!(message, "no connection possible");
    } else {
        unreachable!()
    }
    assert_eq!(result_0, true);
    assert_eq!(genome.feed_forward.len(), 1);
}

#[test]
fn add_random_node() {
    let parameters = small_parameters(1, 1);
    let mut id_gen = IdGenerator::new();
    let mut rng = NeatRng::new(parameters.setup.seed);
    let mut weights = TestWeights::new();
    let mut genome = fresh_genome(&parameters, &mut id_gen);
    genome.init(&mut rng, &parameters, &mut weights);
    assert_eq!(genome.feed_forward.len(), 1);
    let split_weight = f64::from_bits(genome.feed_forward.to_vec()[0].weight.0);
    genome.add_node(&mut rng, &mut id_gen, &parameters);
    assert_eq!(genome.feed_forward.len(), 3);
    assert_eq!(genome.hidden.len(), 1);
    let hidden_id = genome.hidden.to_vec()[0].id;
    for connection in genome.feed_forward.to_vec() {
        let weight = f64::from_bits(connection.weight.0);
        if connection.input == hidden_id {
            // the outbound half carries the split connection's weight
            assert_eq!(weight, split_weight);
        } else if connection.output == hidden_id {
            // the inbound half carries weight one
            assert_eq!(weight, 1.0);
        } else {
            // the split connection itself is disabled
            assert_eq!(weight, 0.0);
        }
    }
}

#[test]
fn alter_activation() {
    let mut parameters = small_parameters(1, 1);
    parameters.activations.hidden_nodes = vec![Activation::Absolute, Activation::Cosine];
    let mut id_gen = IdGenerator::new();
    let mut rng = NeatRng::new(parameters.setup.seed);
    let mut weights = TestWeights::new();
    let mut genome = fresh_genome(&parameters, &mut id_gen);
    genome.init(&mut rng, &parameters, &mut weights);
    genome.add_node(&mut rng, &mut id_gen, &parameters);
    let old_activation = genome.hidden.to_vec()[0].activation;
    genome.alter_activation(&mut rng, &parameters);
    assert_ne!(genome.hidden.to_vec()[0].activation, old_activation);
}

#[test]
fn alter_activation_without_alternative() {
    let mut parameters = small_parameters(1, 1);
    parameters.activations.hidden_nodes = vec![Activation::Tanh];
    let mut id_gen = IdGenerator::new();
    let mut rng = NeatRng::new(parameters.setup.seed);
    let mut weights = TestWeights::new();
    let mut genome = fresh_genome(&parameters, &mut id_gen);
    genome.init(&mut rng, &parameters, &mut weights);
    genome.add_node(&mut rng, &mut id_gen, &parameters);
    let old_activation = genome.hidden.to_vec()[0].activation;
    assert_eq!(old_activation, Activation::Tanh);
    genome.alter_activation(&mut rng, &parameters);
    assert_eq!(genome.hidden.to_vec()[0].activation, Activation::Tanh);
}

#[test]
fn detect_no_cycle() {
    let parameters = small_parameters(1, 1);
    let mut id_gen = IdGenerator::new();
    let mut rng = NeatRng::new(parameters.setup.seed);
    let mut weights = TestWeights::new();
    let mut genome = fresh_genome(&parameters, &mut id_gen);
    genome.init(&mut rng, &parameters, &mut weights);
    let input = genome.inputs.to_vec()[0];
    let output = genome.outputs.to_vec()[0];
    assert!(!genome.would_form_cycle(&input, &output));
}

#[test]
fn detect_cycle() {
    let parameters = small_parameters(1, 1);
    let mut id_gen = IdGenerator::new();
    let mut rng = NeatRng::new(parameters.setup.seed);
    let mut weights = TestWeights::new();
    let mut genome = fresh_genome(&parameters, &mut id_gen);
    genome.init(&mut rng, &parameters, &mut weights);
    genome.add_node(&mut rng, &mut id_gen, &parameters);
    let input = genome.inputs.to_vec()[0];
    let output = genome.outputs.to_vec()[0];
    assert!(genome.would_form_cycle(&output, &input));
}

#[test]
fn split_cache_gives_matching_identities() {
    // splitting the same connection in two lineages yields the same new
    // node identity
    let parameters = small_parameters(1, 1);
    let mut id_gen = IdGenerator::new();
    let mut rng = NeatRng::new(parameters.setup.seed);
    let mut weights = TestWeights::new();
    let mut genome_0 = fresh_genome(&parameters, &mut id_gen);
    genome_0.init(&mut rng, &parameters, &mut weights);
    let mut genome_1 = genome_0.duplicate();
    genome_0.add_node(&mut rng, &mut id_gen, &parameters);
    genome_1.add_node(&mut rng, &mut id_gen, &parameters);
    assert_eq!(genome_0.hidden.to_vec()[0].id, genome_1.hidden.to_vec()[0].id);
}

#[test]
fn crossover_same_fitness() {
    let mut parameters = small_parameters(1, 1);
    parameters.activations.hidden_nodes = vec![Activation::Tanh];
    let mut id_gen = IdGenerator::new();
    let mut rng = NeatRng::new(parameters.setup.seed);
    let mut weights = TestWeights::new();
    let mut genome_0 = fresh_genome(&parameters, &mut id_gen);
    genome_0.init(&mut rng, &parameters, &mut weights);
    let mut genome_1 = genome_0.duplicate();
    genome_0.add_node(&mut rng, &mut id_gen, &parameters);
    genome_1.add_node(&mut rng, &mut id_gen, &parameters);
    genome_1.add_node(&mut rng, &mut id_gen, &parameters);
    // the shorter genome is the fitter side here
    let offspring = genome_0.cross_in(&genome_1, &mut rng);
    assert_eq!(offspring.hidden.len(), 1);
    assert_eq!(offspring.feed_forward.len(), 3);
}

#[test]
fn crossover_no_cycle() {
    // two structurally identical parents that each closed a different
    // direction of the same pair: the child keeps at most one direction
    let mut genome_0 = Genome {
        inputs: Genes::empty(),
        hidden: Genes::empty(),
        outputs: Genes::empty(),
        feed_forward: Genes::empty(),
        recurrent: Genes::empty(),
    };
    genome_0.inputs.insert(neat::nodes::Node::new(Id(0), Activation::Linear));
    genome_0.outputs.insert(neat::nodes::Node::new(Id(1), Activation::Linear));
    genome_0.hidden.insert(neat::nodes::Node::new(Id(2), Activation::Tanh));
    genome_0.hidden.insert(neat::nodes::Node::new(Id(3), Activation::Tanh));
    let w = Weight(0);
    genome_0.feed_forward.insert(Connection::new(Id(0), w, Id(2)));
    genome_0.feed_forward.insert(Connection::new(Id(2), w, Id(1)));
    genome_0.feed_forward.insert(Connection::new(Id(0), w, Id(3)));
    genome_0.feed_forward.insert(Connection::new(Id(3), w, Id(1)));
    let mut genome_1 = genome_0.duplicate();
    genome_0.feed_forward.insert(Connection::new(Id(2), w, Id(3)));
    genome_1.feed_forward.insert(Connection::new(Id(3), w, Id(2)));
    let mut rng = NeatRng::new(7);
    let offspring = genome_0.cross_in(&genome_1, &mut rng);
    for connection_0 in offspring.feed_forward.to_vec() {
        for connection_1 in offspring.feed_forward.to_vec() {
            assert!(
                !(connection_0.input == connection_1.output
                    && connection_0.output == connection_1.input)
            );
        }
    }
}

#[test]
fn score_weights_the_dominant_signal() {
    let parameters = small_parameters(1, 1);
    let mut id_gen = IdGenerator::new();
    let mut individual = bare_individual(fresh_genome(&parameters, &mut id_gen));
    individual.fitness = Some(normalized_fitness(0.6));
    individual.novelty = Some(normalized_novelty(0.4));
    let score = f64::from_bits(individual.score(&Math));
    // min 0.4, max 0.6, ratio 1/3: 0.4/3 + 0.6*(2/3) = 8/15
    assert!((score - 8.0 / 15.0).abs() < 1e-12);
}

#[test]
fn score_is_zero_without_signals() {
    let parameters = small_parameters(1, 1);
    let mut id_gen = IdGenerator::new();
    let individual = bare_individual(fresh_genome(&parameters, &mut id_gen));
    assert_eq!(f64::from_bits(individual.score(&Math)), 0.0);
}

#[test]
fn fewer_genes_win_a_score_tie() {
    let parameters = small_parameters(1, 1);
    let mut id_gen = IdGenerator::new();
    let mut lean = bare_individual(fresh_genome(&parameters, &mut id_gen));
    let mut heavy = bare_individual(fresh_genome(&parameters, &mut id_gen));
    let w = Weight(0);
    for (a, b) in [(0u64, 100u64), (1, 101), (2, 102)] {
        lean.genome.feed_forward.insert(Connection::new(Id(a), w, Id(b)));
    }
    for (a, b) in [(0u64, 100u64), (1, 101), (2, 102), (3, 103), (4, 104)] {
        heavy.genome.feed_forward.insert(Connection::new(Id(a), w, Id(b)));
    }
    lean.fitness = Some(normalized_fitness(0.5));
    heavy.fitness = Some(normalized_fitness(0.5));
    assert!(lean.is_fitter_than(&heavy, &Math));
    assert!(!heavy.is_fitter_than(&lean, &Math));
}

#[test]
fn normalization_pipeline() {
    // raw [2, 5, 9], baseline 2, spread 7: normalized [0, 3/7, 1]
    let baseline = 2.0f64.to_bits();
    let with = 7.0f64.to_bits();
    let first = FitnessScore::new(2.0f64.to_bits(), baseline, with, &Math);
    let second = FitnessScore::new(5.0f64.to_bits(), baseline, with, &Math);
    let third = FitnessScore::new(9.0f64.to_bits(), baseline, with, &Math);
    assert_eq!(f64::from_bits(first.shifted.0 .0), 0.0);
    assert_eq!(f64::from_bits(second.shifted.0 .0), 3.0);
    assert_eq!(f64::from_bits(third.shifted.0 .0), 7.0);
    assert_eq!(f64::from_bits(first.normalized.0 .0), 0.0);
    assert_eq!(f64::from_bits(second.normalized.0 .0), 3.0 / 7.0);
    assert_eq!(f64::from_bits(third.normalized.0 .0), 1.0);
}

#[test]
fn normalization_spread_is_floored_at_one() {
    let baseline = 2.0f64.to_bits();
    let with = 0.25f64.to_bits();
    let score = FitnessScore::new(2.25f64.to_bits(), baseline, with, &Math);
    assert_eq!(f64::from_bits(score.normalized.0 .0), 0.25);
}

#[test]
fn next_generation_keeps_population_size() {
    let parameters = small_parameters(2, 1);
    let mut weights = TestWeights::new();
    let mut population = Population::new(&parameters, &mut weights);
    assert_eq!(population.individuals().len(), 10);
    let progress: Vec<Progress> = (0..10).map(|_| Progress::empty()).collect();
    let report = population.next_generation(&parameters, &progress, &mut weights, &Math);
    assert!(report.is_ok());
    assert_eq!(population.individuals().len(), 10);
}

#[test]
fn archive_grows_with_behaviors() {
    let parameters = small_parameters(2, 1);
    let mut weights = TestWeights::new();
    let mut population = Population::new(&parameters, &mut weights);
    let empty: Vec<Progress> = (0..10).map(|_| Progress::empty()).collect();
    assert!(population.next_generation(&parameters, &empty, &mut weights, &Math).is_ok());
    let with_behavior: Vec<Progress> = (0..10)
        .map(|i| {
            Progress::new((i as f64).to_bits(), vec![(i as f64).to_bits(), 1.0f64.to_bits()])
        })
        .collect();
    assert!(
        population.next_generation(&parameters, &with_behavior, &mut weights, &Math).is_ok()
    );
    let again: Vec<Progress> = (0..10)
        .map(|i| {
            Progress::new((i as f64).to_bits(), vec![0.5f64.to_bits(), (i as f64).to_bits()])
        })
        .collect();
    assert!(population.next_generation(&parameters, &again, &mut weights, &Math).is_ok());
}

#[test]
fn unordered_scores_abort_the_generation() {
    let parameters = small_parameters(2, 1);
    let mut weights = TestWeights::new();
    let mut population = Population::new(&parameters, &mut weights);
    let progress: Vec<Progress> = (0..10)
        .map(|_| Progress::new(f64::NAN.to_bits(), vec![0.0f64.to_bits()]))
        .collect();
    let report = population.next_generation(&parameters, &progress, &mut weights, &Math);
    assert_eq!(report.err(), Some("score not comparable"));
}

#[test]
fn random_pick_stays_in_the_set() {
    let mut set: Genes<Connection> = Genes::empty();
    let w = Weight(0);
    set.insert(Connection::new(Id(4), w, Id(5)));
    let mut rng = NeatRng::new(3);
    let picked = set.random(&mut rng).unwrap();
    assert_eq!(picked.input, Id(4));
    assert_eq!(picked.output, Id(5));
    let empty: Genes<Connection> = Genes::empty();
    assert!(empty.random(&mut rng).is_none());
}

#[test]
fn progress_reports_carry_their_payload() {
    let report = Progress::new(1.5f64.to_bits(), vec![2.0f64.to_bits()]);
    assert_eq!(report.raw_fitness().unwrap().value(), 1.5f64.to_bits());
    assert!(report.behavior().is_some());
    assert!(report.is_solution().is_none());
    assert!(Progress::empty().behavior().is_none());
    let parameters = small_parameters(1, 1);
    let mut id_gen = IdGenerator::new();
    let winner = bare_individual(fresh_genome(&parameters, &mut id_gen));
    let solved = Progress::novelty(vec![1.0f64.to_bits()]).solved(winner);
    assert!(solved.is_solution().is_some());
    assert!(solved.raw_fitness().is_none());
    assert!(solved.behavior().is_some());
}

#[test]
fn init_connects_inputs_to_every_output() {
    let parameters = small_parameters(3, 2);
    let mut id_gen = IdGenerator::new();
    let mut rng = NeatRng::new(9);
    let mut weights = TestWeights::new();
    let mut genome = fresh_genome(&parameters, &mut id_gen);
    genome.init(&mut rng, &parameters, &mut weights);
    // a non-empty share of the inputs, each wired to every output
    assert!(genome.feed_forward.len() % 2 == 0);
    assert!(genome.feed_forward.len() >= 2);
    assert!(genome.feed_forward.len() <= 6);
    for connection in genome.feed_forward.to_vec() {
        assert!(genome.inputs.to_vec().iter().any(|n| n.id == connection.input));
        assert!(genome.outputs.to_vec().iter().any(|n| n.id == connection.output));
    }
}

#[test]
fn mutation_keeps_feed_forward_acyclic() {
    let mut parameters = small_parameters(3, 2);
    parameters.mutation.new_connection_chance = Chance(CHANCE_ALWAYS);
    parameters.mutation.new_node_chance = Chance(CHANCE_ALWAYS);
    parameters.mutation.change_activation_function_chance = Chance(CHANCE_ALWAYS);
    let mut id_gen = IdGenerator::new();
    let mut rng = NeatRng::new(11);
    let mut weights = TestWeights::new();
    let mut genome = fresh_genome(&parameters, &mut id_gen);
    genome.init(&mut rng, &parameters, &mut weights);
    for _ in 0..12 {
        genome.mutate(&mut rng, &mut id_gen, &parameters, &mut weights);
    }
    // no walk leads from any node back to itself
    for node in genome.nodes() {
        assert!(!genome.would_form_cycle(&node, &node));
    }
    assert!(genome.feed_forward.len() >= 2 + 2 * 12);
}

#[test]
fn population_normalizes_fitness() {
    let mut parameters = small_parameters(2, 1);
    parameters.setup.population_size = 3;
    parameters.setup.survivor_count = 2;
    let mut weights = TestWeights::new();
    let mut population = Population::new(&parameters, &mut weights);
    let raws = [2.0f64, 5.0, 9.0];
    let progress: Vec<Progress> = raws
        .iter()
        .map(|r| Progress::new(r.to_bits(), vec![r.to_bits()]))
        .collect();
    let report = population
        .next_generation(&parameters, &progress, &mut weights, &Math)
        .unwrap();
    assert_eq!(f64::from_bits(report.fitness.raw_minimum), 2.0);
    assert_eq!(f64::from_bits(report.fitness.raw_maximum), 9.0);
    assert_eq!(f64::from_bits(report.fitness.shifted_maximum), 7.0);
    assert_eq!(f64::from_bits(report.fitness.normalized_maximum), 1.0);
    assert_eq!(f64::from_bits(report.fitness.normalized_minimum), 0.0);
    // the reported top performer is the individual that scored 9.0
    assert_eq!(f64::from_bits(report.top_performer.fitness.unwrap().raw.0 .0), 9.0);
}

#[test]
fn first_solution_finds_the_winner() {
    let parameters = small_parameters(1, 1);
    let mut id_gen = IdGenerator::new();
    let winner = bare_individual(fresh_genome(&parameters, &mut id_gen));
    let winner_edges = winner.genome.inputs.len();
    let progress = vec![
        Progress::empty(),
        Progress::novelty(vec![1.0f64.to_bits()]).solved(winner),
        Progress::empty(),
    ];
    let found = neat::progress::first_solution(&progress).unwrap();
    assert_eq!(found.genome.inputs.len(), winner_edges);
    let quiet = vec![Progress::empty()];
    assert!(neat::progress::first_solution(&quiet).is_none());
}
