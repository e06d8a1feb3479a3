//! Behavior of the tau-leaping engine: zero-rate freezing, conservation,
//! clamping, and the ensemble driver.

use networks::random_graphs::NetworkProperties;
use networks::random_graphs::NetworkStructure;
use networks::random_graphs::Output;
use networks::random_graphs::ResultType;
use networks::random_graphs::State;
use networks::sampling::PoissonSampler;
use networks::sampling::StdSource;
use networks::sampling::UniformSource;
use networks::tau_leap::calculate_rates;
use networks::tau_leap::partition_compartments;
use networks::tau_leap::run_tau_ensemble;
use networks::tau_leap::run_tau_leap;
use networks::tau_leap::step_tau_leap;
use networks::tau_leap::update_compartments;
use networks::useful_functions::Ratio;
use rand::SeedableRng;
use rand_distr::Distribution;

/// Always returns the same event count.
struct FixedSampler(usize);

impl PoissonSampler for FixedSampler {
    fn poisson_events(&mut self, _num: u128, _den: u128) -> usize {
        self.0
    }
}

/// Fails the test if the engine ever consults it.
struct PanicSampler;

impl PoissonSampler for PanicSampler {
    fn poisson_events(&mut self, _num: u128, _den: u128) -> usize {
        panic!("a zero-rate channel reached the sampler");
    }
}

struct Zeros;

impl UniformSource for Zeros {
    fn next_word(&mut self) -> u64 {
        0
    }
}

fn ratio(num: u64, den: u64) -> Ratio {
    Ratio::new(num, den).unwrap()
}

fn small_graph(seed: u64) -> NetworkStructure {
    let mut src = StdSource::from_seed(seed);
    NetworkStructure::new_ba(12, 3, 2, &mut src).unwrap()
}

#[test]
fn zero_rates_leave_history_frozen() {
    // All rates zero: one step appends a row identical to the previous one,
    // without ever invoking the Poisson sampler.
    let g = small_graph(1);
    let mut props = NetworkProperties::new(&g);
    props.params(vec![ratio(0, 1), ratio(0, 1)]).unwrap();
    let mut src = StdSource::from_seed(2);
    props.initialize_infection(ratio(1, 2), &mut src);
    let before = props.results.last().unwrap().clone();
    let states_before = props.nodal_states.clone();
    let mut sampler = PanicSampler;
    step_tau_leap(&g, &mut props, ratio(1, 1), &mut src, &mut sampler);
    let after = props.results.last().unwrap().clone();
    assert_eq!(before, after);
    assert_eq!(states_before, props.nodal_states);
}

#[test]
fn every_row_conserves_population() {
    let g = small_graph(3);
    let mut props = NetworkProperties::new(&g);
    props.params(vec![ratio(3, 10), ratio(1, 10)]).unwrap();
    let mut src = StdSource::from_seed(4);
    let mut sampler = FixedSampler(1);
    run_tau_leap(&g, &mut props, 20, ratio(1, 1), ratio(1, 4), &mut src, &mut sampler);
    assert!(!props.results.is_empty());
    for row in &props.results {
        assert_eq!(row.len(), 4);
        assert_eq!(row[0] + row[1] + row[2] + row[3], 12);
    }
}

#[test]
fn oversized_draw_clamps_to_eligible_pool() {
    // Everyone starts infected; a huge recovery draw removes exactly the
    // whole infected pool, not the drawn count.
    let g = small_graph(5);
    let mut props = NetworkProperties::new(&g);
    props.params(vec![ratio(1, 10), ratio(1, 10)]).unwrap();
    let mut src = StdSource::from_seed(6);
    props.initialize_infection(ratio(1, 1), &mut src);
    assert_eq!(*props.results.last().unwrap(), vec![0, 0, 12, 0]);
    let mut sampler = FixedSampler(1_000_000);
    step_tau_leap(&g, &mut props, ratio(1, 1), &mut src, &mut sampler);
    assert_eq!(*props.results.last().unwrap(), vec![0, 0, 0, 12]);
}

#[test]
fn update_compartments_clamps_infections() {
    // Node 0 infected, node 1 susceptible next to it: a draw of five
    // infections can only infect the one pressured susceptible.
    let mut src = Zeros;
    let g = {
        let mut s = StdSource::from_seed(9);
        NetworkStructure::new_ba(2, 2, 0, &mut s).unwrap()
    };
    let mut props = NetworkProperties::new(&g);
    props.nodal_states = vec![State::Infected(0), State::Susceptible];
    let (sus, inf, rec) = partition_compartments(&props);
    assert_eq!(sus, vec![1]);
    assert_eq!(inf, vec![0]);
    let pressure = calculate_rates(&g, &props, &sus);
    assert_eq!(pressure, vec![1]);
    update_compartments(&mut props, &vec![5, 0, 0], &sus, &inf, &rec, &pressure, &mut src);
    assert!(matches!(props.nodal_states[1], State::Infected(_)));
    let counts = props.count_states();
    assert_eq!(counts, vec![0, 0, 2, 0]);
}

#[test]
fn sirs_waning_returns_to_susceptible() {
    // SIRS with an overwhelming waning draw: all recovered nodes revert.
    let g = small_graph(7);
    let mut props = NetworkProperties::new(&g);
    props.params(vec![ratio(0, 1), ratio(0, 1), ratio(1, 1)]).unwrap();
    props.nodal_states = vec![State::Recovered(0); 12];
    props.results.push(props.count_states());
    let mut src = StdSource::from_seed(8);
    let mut sampler = FixedSampler(50);
    step_tau_leap(&g, &mut props, ratio(1, 1), &mut src, &mut sampler);
    assert_eq!(*props.results.last().unwrap(), vec![12, 0, 0, 0]);
}

#[test]
fn ensemble_returns_one_series_per_replicate() {
    let g = small_graph(10);
    let mut props = NetworkProperties::new(&g);
    props.params(vec![ratio(3, 10), ratio(1, 10)]).unwrap();
    props.result_type = ResultType::AvgInfections(3);
    let mut streams = vec![
        StdSource::from_seed(100),
        StdSource::from_seed(200),
        StdSource::from_seed(300),
    ];
    let mut samplers = vec![FixedSampler(1), FixedSampler(1), FixedSampler(1)];
    let out = run_tau_ensemble(
        &g,
        &props,
        15,
        ratio(1, 1),
        ratio(1, 4),
        &mut streams,
        &mut samplers,
    );
    let series = match out {
        Output::AvgInfections(rows) => rows,
        _ => panic!("expected the infected-count series"),
    };
    assert_eq!(series.len(), 3);

    // Fixed seeds reproduce each series exactly.
    let mut streams2 = vec![
        StdSource::from_seed(100),
        StdSource::from_seed(200),
        StdSource::from_seed(300),
    ];
    let mut samplers2 = vec![FixedSampler(1), FixedSampler(1), FixedSampler(1)];
    let out2 = run_tau_ensemble(
        &g,
        &props,
        15,
        ratio(1, 1),
        ratio(1, 4),
        &mut streams2,
        &mut samplers2,
    );
    let series2 = match out2 {
        Output::AvgInfections(rows) => rows,
        _ => panic!("expected the infected-count series"),
    };
    assert_eq!(series, series2);
}

#[test]
fn run_tau_leap_sir_output_matches_history() {
    let g = small_graph(11);
    let mut props = NetworkProperties::new(&g);
    props.params(vec![ratio(3, 10), ratio(1, 10)]).unwrap();
    let mut src = StdSource::from_seed(12);
    let mut sampler = FixedSampler(1);
    let out = run_tau_leap(&g, &mut props, 10, ratio(1, 1), ratio(1, 4), &mut src, &mut sampler);
    match out {
        Output::Sir(rows) => assert_eq!(rows, props.results),
        _ => panic!("expected the full compartment series"),
    }
}

#[test]
fn initialize_infection_rounds_half_up() {
    // round(10 * 1/4) = round(2.5) = 3 infected.
    let g = {
        let mut s = StdSource::from_seed(13);
        NetworkStructure::new_ba(10, 2, 1, &mut s).unwrap()
    };
    let mut props = NetworkProperties::new(&g);
    let mut src = StdSource::from_seed(14);
    props.initialize_infection(ratio(1, 4), &mut src);
    assert_eq!(*props.results.last().unwrap(), vec![7, 0, 3, 0]);
}

/// Poisson event counts drawn from the real distribution via rand_distr.
struct RealPoisson {
    rng: rand::rngs::StdRng,
}

impl PoissonSampler for RealPoisson {
    fn poisson_events(&mut self, num: u128, den: u128) -> usize {
        let mean = num as f64 / den as f64;
        if mean > f64::EPSILON {
            rand_distr::Poisson::new(mean).unwrap().sample(&mut self.rng) as usize
        } else {
            0
        }
    }
}

#[test]
fn real_poisson_sampler_run() {
    let g = small_graph(30);
    let mut props = NetworkProperties::new(&g);
    props.params(vec![ratio(4, 10), ratio(1, 10)]).unwrap();
    let mut src = StdSource::from_seed(31);
    let mut sampler = RealPoisson { rng: rand::rngs::StdRng::seed_from_u64(32) };
    run_tau_leap(&g, &mut props, 50, ratio(1, 1), ratio(1, 4), &mut src, &mut sampler);
    // Conservation holds for every step, and the run either used its whole
    // budget or ended extinct.
    for row in &props.results {
        assert_eq!(row[0] + row[1] + row[2] + row[3], 12);
    }
    let last = props.results.last().unwrap();
    assert!(props.results.len() == 51 || last[1] + last[2] == 0);
}

#[test]
fn empty_network_runs() {
    let mut src = StdSource::from_seed(33);
    let one = Ratio::new(1, 1).unwrap();
    let g = NetworkStructure::new_sbm(0, vec![0], vec![vec![one]], &mut src).unwrap();
    assert_eq!(g.degree.len(), 0);
    let mut props = NetworkProperties::new(&g);
    props.params(vec![ratio(1, 2), ratio(1, 2)]).unwrap();
    let mut sampler = FixedSampler(1);
    run_tau_leap(&g, &mut props, 3, ratio(1, 1), ratio(1, 2), &mut src, &mut sampler);
    for row in &props.results {
        assert_eq!(*row, vec![0, 0, 0, 0]);
    }
}
