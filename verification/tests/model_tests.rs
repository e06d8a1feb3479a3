//! Behavior of the daily per-contact engine, plus the numeric utilities and
//! the ready-made scenarios.

use networks::multinomial_sample::multinomial_sample;
use networks::random_graphs::NetworkProperties;
use networks::random_graphs::NetworkStructure;
use networks::random_graphs::Output;
use networks::random_graphs::OutbreakType;
use networks::random_graphs::ResultType;
use networks::random_graphs::State;
use networks::run_model::run_model;
use networks::run_model::step_model;
use networks::run_scenarios::comix_sbm;
use networks::run_scenarios::comix_sbm_weighted;
use networks::sampling::BinomialSampler;
use networks::sampling::PoissonSampler;
use networks::sampling::StdSource;
use networks::useful_functions::count_buckets;
use networks::useful_functions::rates_to_probabilities;
use networks::useful_functions::EpiError;
use networks::useful_functions::Ratio;

struct FixedSampler(usize);

impl PoissonSampler for FixedSampler {
    fn poisson_events(&mut self, _num: u128, _den: u128) -> usize {
        self.0
    }
}

struct FixedBinomial(usize);

impl BinomialSampler for FixedBinomial {
    fn binomial_draw(&mut self, _trials: usize, _num: u64, _den: u64) -> usize {
        self.0
    }
}

fn ratio(num: u64, den: u64) -> Ratio {
    Ratio::new(num, den).unwrap()
}

fn pair_graph() -> NetworkStructure {
    // Two nodes joined by one edge (a complete seed of two).
    let mut src = StdSource::from_seed(20);
    NetworkStructure::new_ba(2, 2, 0, &mut src).unwrap()
}

fn seirs_props(g: &NetworkStructure, beta: Ratio) -> NetworkProperties {
    let mut props = NetworkProperties::new(g);
    // [beta, sigma, gamma, omega] = [beta, 3 days latent, mean infectious
    // period for the Poisson draw, 2 days immune].
    props.params(vec![beta, ratio(3, 1), ratio(7, 1), ratio(2, 1)]).unwrap();
    assert!(matches!(props.outbreak_type, OutbreakType::SEIRS));
    props
}

#[test]
fn dwell_counters_advance_exactly() {
    let g = pair_graph();
    let mut props = seirs_props(&g, ratio(0, 1));
    // An exposed node past its latent period turns infectious with the
    // sampled duration; an infected node at zero dwell recovers.
    props.nodal_states = vec![State::Exposed(5), State::Infected(0)];
    props.results.push(props.count_states());
    let mut src = StdSource::from_seed(21);
    let mut sampler = FixedSampler(7);
    step_model(&g, &mut props, &mut src, &mut sampler);
    assert_eq!(props.nodal_states, vec![State::Infected(7), State::Recovered(0)]);
    // Incubation continues below the threshold; infection counts down.
    let mut props = seirs_props(&g, ratio(0, 1));
    props.nodal_states = vec![State::Exposed(1), State::Infected(4)];
    props.results.push(props.count_states());
    step_model(&g, &mut props, &mut src, &mut sampler);
    assert_eq!(props.nodal_states, vec![State::Exposed(2), State::Infected(3)]);
}

#[test]
fn immunity_wanes_only_for_seirs() {
    let g = pair_graph();
    let mut props = seirs_props(&g, ratio(0, 1));
    props.nodal_states = vec![State::Recovered(2), State::Recovered(0)];
    props.results.push(props.count_states());
    let mut src = StdSource::from_seed(22);
    let mut sampler = FixedSampler(7);
    step_model(&g, &mut props, &mut src, &mut sampler);
    // Two immune days served (omega = 2): back to susceptible; the other
    // node keeps counting.
    assert_eq!(props.nodal_states, vec![State::Susceptible, State::Recovered(1)]);

    let mut props = seirs_props(&g, ratio(0, 1));
    props.outbreak_type = OutbreakType::SEIR;
    props.nodal_states = vec![State::Recovered(9), State::Recovered(0)];
    props.results.push(props.count_states());
    step_model(&g, &mut props, &mut src, &mut sampler);
    // Without waning, removal is terminal.
    assert_eq!(props.nodal_states, vec![State::Recovered(9), State::Recovered(0)]);
}

#[test]
fn certain_transmission_exposes_neighbor_and_credits_source() {
    let g = pair_graph();
    let mut props = seirs_props(&g, ratio(1, 1));
    props.nodal_states = vec![State::Infected(5), State::Susceptible];
    props.results.push(props.count_states());
    let mut src = StdSource::from_seed(23);
    let mut sampler = FixedSampler(7);
    step_model(&g, &mut props, &mut src, &mut sampler);
    assert_eq!(props.nodal_states, vec![State::Infected(4), State::Exposed(0)]);
    assert_eq!(props.secondary_cases, vec![1, 0]);
}

#[test]
fn zero_transmission_never_exposes() {
    let g = pair_graph();
    let mut props = seirs_props(&g, ratio(0, 1));
    props.nodal_states = vec![State::Infected(5), State::Susceptible];
    props.results.push(props.count_states());
    let mut src = StdSource::from_seed(24);
    let mut sampler = FixedSampler(7);
    step_model(&g, &mut props, &mut src, &mut sampler);
    assert_eq!(props.nodal_states, vec![State::Infected(4), State::Susceptible]);
    assert_eq!(props.secondary_cases, vec![0, 0]);
}

#[test]
fn run_model_conserves_population() {
    let mut src = StdSource::from_seed(25);
    let g = NetworkStructure::new_ba(15, 3, 2, &mut src).unwrap();
    let mut props = seirs_props(&g, ratio(1, 5));
    let mut sampler = FixedSampler(4);
    run_model(&g, &mut props, 30, ratio(1, 5), &mut src, &mut sampler);
    assert!(!props.results.is_empty());
    for row in &props.results {
        assert_eq!(row.len(), 4);
        assert_eq!(row[0] + row[1] + row[2] + row[3], 15);
    }
}

#[test]
fn run_model_secondary_cases_output() {
    let mut src = StdSource::from_seed(26);
    let g = NetworkStructure::new_ba(15, 3, 2, &mut src).unwrap();
    let mut props = seirs_props(&g, ratio(1, 2));
    props.result_type = ResultType::SecondaryCases(1);
    let mut sampler = FixedSampler(2);
    let out = run_model(&g, &mut props, 40, ratio(1, 5), &mut src, &mut sampler);
    let rows = match out {
        Output::SecondaryCases(rows) => rows,
        _ => panic!("expected the secondary-case distribution"),
    };
    assert_eq!(rows.len(), 1);
    // One count per currently removed node.
    let removed = props
        .nodal_states
        .iter()
        .filter(|s| matches!(s, State::Recovered(_)))
        .count();
    assert_eq!(rows[0].len(), removed);
}

#[test]
fn multinomial_counts_are_clamped() {
    // A sampler that always over-draws: every category is clamped to the
    // remaining trials, so the first takes everything.
    let mut sampler = FixedBinomial(1_000_000);
    let counts = multinomial_sample(10, &vec![2, 3, 5], 10, &mut sampler);
    assert_eq!(counts, vec![10, 0, 0]);
    let total: usize = counts.iter().sum();
    assert!(total <= 10);
    // A modest fixed draw spreads until the trials run out.
    let mut sampler = FixedBinomial(4);
    let counts = multinomial_sample(10, &vec![2, 3, 5], 10, &mut sampler);
    assert_eq!(counts, vec![4, 4, 2]);
}

#[test]
fn count_buckets_histogram() {
    let buckets = count_buckets(&vec![1, 2, 2, 5]);
    assert_eq!(buckets, vec![1, 2, 0, 0, 1]);
}

#[test]
fn rates_to_probabilities_divides_by_block_size() {
    let rates = vec![
        vec![ratio(1, 1), ratio(3, 2)],
        vec![ratio(5, 3), ratio(7, 4)],
    ];
    let prob = rates_to_probabilities(&rates, &vec![2, 6]);
    // Row 0 divides by block size 2, row 1 by block size 4.
    assert_eq!(prob[0][0], ratio(1, 2));
    assert_eq!(prob[0][1], ratio(3, 4));
    assert_eq!(prob[1][0], ratio(5, 12));
    assert_eq!(prob[1][1], ratio(7, 16));
}

#[test]
fn ratio_and_params_validation() {
    assert!(matches!(Ratio::new(1, 0), Err(EpiError::DistributionFit)));
    assert_eq!(ratio(3, 4), Ratio { num: 3, den: 4 });
    let g = pair_graph();
    let mut props = NetworkProperties::new(&g);
    assert!(matches!(
        props.params(vec![ratio(1, 2)]),
        Err(EpiError::InvalidParameter)
    ));
    assert!(matches!(
        props.params(vec![Ratio { num: 1, den: 0 }, ratio(1, 2)]),
        Err(EpiError::DistributionFit)
    ));
    props.params(vec![ratio(1, 2), ratio(1, 3)]).unwrap();
    assert!(matches!(props.outbreak_type, OutbreakType::SIR));
    props.params(vec![ratio(1, 2), ratio(1, 3), ratio(1, 4)]).unwrap();
    assert!(matches!(props.outbreak_type, OutbreakType::SIRS));
}

#[test]
fn comix_scenarios_build() {
    let mut src = StdSource::from_seed(27);
    let g = comix_sbm(40, &mut src).unwrap();
    assert_eq!(g.degree.len(), 40);
    assert_eq!(g.age_brackets.len(), 40);
    // Brackets split at 20.7%, 49.2% and 81.4% of the population.
    assert_eq!(g.age_brackets[0], 0);
    assert_eq!(g.age_brackets[7], 0);
    assert_eq!(g.age_brackets[8], 1);
    assert_eq!(g.age_brackets[18], 1);
    assert_eq!(g.age_brackets[19], 2);
    assert_eq!(g.age_brackets[31], 2);
    assert_eq!(g.age_brackets[32], 3);
    assert_eq!(g.age_brackets[39], 3);

    let weights = vec![2u64; 40];
    let gw = comix_sbm_weighted(40, &weights, &mut src).unwrap();
    assert_eq!(gw.degree.len(), 40);
}
