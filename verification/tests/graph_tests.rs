//! Structural properties of the three graph generators.

use networks::random_graphs::NetworkStructure;
use networks::random_graphs::SerializeableNetwork;
use networks::stub_matching::match_stubs;
use networks::sampling::DegreeSampler;
use networks::sampling::StdSource;
use networks::sampling::UniformSource;
use networks::useful_functions::EpiError;
use networks::useful_functions::Ratio;

/// A source whose every draw is zero: forces every Bernoulli below its
/// threshold and every weighted pick onto the first positive weight.
struct Zeros;

impl UniformSource for Zeros {
    fn next_word(&mut self) -> u64 {
        0
    }
}

fn assert_structure_ok(g: &NetworkStructure) {
    let n = g.adjacency_matrix.len();
    assert_eq!(g.degree.len(), n);
    for i in 0..n {
        // Degrees cache the row lengths (unit weights: weighted row-sum).
        assert_eq!(g.degree[i], g.adjacency_matrix[i].len());
        for &j in &g.adjacency_matrix[i] {
            // In bounds, no self-loops, symmetric.
            assert!(j < n);
            assert_ne!(j, i);
            assert!(g.adjacency_matrix[j].contains(&i));
        }
        // No parallel edges.
        let mut row = g.adjacency_matrix[i].clone();
        row.sort();
        row.dedup();
        assert_eq!(row.len(), g.adjacency_matrix[i].len());
    }
}

fn two_block_rates(on_diag: Ratio, off_diag: Ratio) -> Vec<Vec<Ratio>> {
    vec![vec![on_diag, off_diag], vec![off_diag, on_diag]]
}

#[test]
fn sbm_structure_and_labels() {
    let mut src = StdSource::from_seed(7);
    let partitions = vec![10, 20, 30];
    let r = Ratio { num: 3, den: 1 };
    let rates = vec![vec![r, r, r], vec![r, r, r], vec![r, r, r]];
    let g = NetworkStructure::new_sbm(30, partitions, rates, &mut src).unwrap();
    assert_structure_ok(&g);
    assert_eq!(g.age_brackets.len(), 30);
    for v in 0..30 {
        let expect = if v < 10 {
            0
        } else if v < 20 {
            1
        } else {
            2
        };
        assert_eq!(g.age_brackets[v], expect);
    }
    // Labels are monotone along the node ordering.
    for v in 1..30 {
        assert!(g.age_brackets[v - 1] <= g.age_brackets[v]);
    }
}

#[test]
fn sbm_zero_cross_block_edges() {
    // A large diagonal rate and zero off-diagonal: within-block pairs are
    // certain (the probability saturates at one), cross-block pairs are
    // impossible.
    let mut src = StdSource::from_seed(42);
    let big = Ratio { num: 1_000_000, den: 1 };
    let zero = Ratio { num: 0, den: 1 };
    let g = NetworkStructure::new_sbm(6, vec![3, 6], two_block_rates(big, zero), &mut src)
        .unwrap();
    assert_structure_ok(&g);
    for i in 0..6 {
        for j in 0..i {
            let same_block = (i < 3) == (j < 3);
            assert_eq!(g.adjacency_matrix[i].contains(&j), same_block);
        }
    }
}

#[test]
fn sbm_forced_draws_identity_rates() {
    // With every uniform draw forced to zero, the identity rate matrix over
    // blocks {0,1} and {2,3} yields exactly the two within-block edges.
    let mut src = Zeros;
    let one = Ratio { num: 1, den: 1 };
    let zero = Ratio { num: 0, den: 1 };
    let g = NetworkStructure::new_sbm(4, vec![2, 4], two_block_rates(one, zero), &mut src)
        .unwrap();
    assert_eq!(g.adjacency_matrix, vec![vec![1], vec![0], vec![3], vec![2]]);
    assert_eq!(g.degree, vec![1, 1, 1, 1]);
    assert_eq!(g.age_brackets, vec![0, 0, 1, 1]);
}

#[test]
fn sbm_rejects_bad_inputs() {
    let mut src = StdSource::from_seed(1);
    let one = Ratio { num: 1, den: 1 };
    let zero_den = Ratio { num: 1, den: 0 };
    // Non-monotonic partitions.
    let r = NetworkStructure::new_sbm(4, vec![3, 2, 4], two_block_rates(one, one), &mut src);
    assert!(matches!(r, Err(EpiError::InvalidParameter)));
    // Rate matrix of the wrong shape.
    let r = NetworkStructure::new_sbm(4, vec![2, 4], vec![vec![one]], &mut src);
    assert!(matches!(r, Err(EpiError::InvalidParameter)));
    // Zero denominator in a rate.
    let r = NetworkStructure::new_sbm(4, vec![2, 4], two_block_rates(one, zero_den), &mut src);
    assert!(matches!(r, Err(EpiError::DistributionFit)));
}

#[test]
fn sbm_weighted_structure() {
    let mut src = StdSource::from_seed(11);
    let r = Ratio { num: 2, den: 1 };
    let weights: Vec<u64> = (0..20).map(|v| 1 + (v % 5)).collect();
    let g = NetworkStructure::new_sbm_weighted(
        20,
        vec![10, 20],
        two_block_rates(r, r),
        &weights,
        &mut src,
    )
    .unwrap();
    assert_structure_ok(&g);
    // A zero-weight node is refused.
    let bad = vec![0u64; 20];
    let r2 = NetworkStructure::new_sbm_weighted(
        20,
        vec![10, 20],
        two_block_rates(r, r),
        &bad,
        &mut src,
    );
    assert!(matches!(r2, Err(EpiError::InvalidParameter)));
}

#[test]
fn ba_seed_and_growth_degrees() {
    let mut src = StdSource::from_seed(3);
    let g = NetworkStructure::new_ba(50, 5, 3, &mut src).unwrap();
    assert_structure_ok(&g);
    assert_eq!(g.age_brackets.len(), 0);
    // Seed nodes form a complete graph; every later node attaches to three.
    for v in 0..5 {
        assert!(g.degree[v] >= 4);
    }
    for v in 5..50 {
        assert!(g.degree[v] >= 3);
    }
    // The total degree mass is exactly the seed clique plus three
    // attachments per later node: 5*4 + 2*3*45.
    let total: usize = g.degree.iter().sum();
    assert_eq!(total, 290);
}

#[test]
fn ba_forced_draws_golden() {
    // With all draws forced to zero the growth phase always attaches to the
    // lowest-index node with positive degree, giving a deterministic star
    // around node 0 after the two-node seed.
    let mut src = Zeros;
    let g = NetworkStructure::new_ba(4, 2, 1, &mut src).unwrap();
    assert_eq!(g.adjacency_matrix, vec![vec![1, 2, 3], vec![0], vec![0], vec![0]]);
    assert_eq!(g.degree, vec![3, 1, 1, 1]);
}

#[test]
fn ba_deterministic_per_seed() {
    let mut a = StdSource::from_seed(99);
    let mut b = StdSource::from_seed(99);
    let ga = NetworkStructure::new_ba(30, 4, 2, &mut a).unwrap();
    let gb = NetworkStructure::new_ba(30, 4, 2, &mut b).unwrap();
    assert_eq!(ga.adjacency_matrix, gb.adjacency_matrix);
    assert_eq!(ga.degree, gb.degree);
}

#[test]
fn ba_rejects_bad_inputs() {
    let mut src = StdSource::from_seed(1);
    assert!(matches!(
        NetworkStructure::new_ba(4, 2, 3, &mut src),
        Err(EpiError::InvalidParameter)
    ));
    assert!(matches!(
        NetworkStructure::new_ba(3, 5, 1, &mut src),
        Err(EpiError::InvalidParameter)
    ));
    assert!(matches!(
        NetworkStructure::new_ba(4, 1, 1, &mut src),
        Err(EpiError::InvalidParameter)
    ));
}

/// Draws the same degree for every node of every block pair.
struct ConstantDegrees(usize);

impl DegreeSampler for ConstantDegrees {
    fn degree_draw(&mut self, _block_from: usize, _block_to: usize) -> usize {
        self.0
    }
}

#[test]
fn molloy_reed_degrees_bounded_by_draws() {
    // Two blocks of five, every drawn stub count is two. A node touches the
    // pair (own, own) with out- and in-stubs and the cross pair once, so no
    // realized degree can exceed 2 + 2 + 2.
    let mut deg = ConstantDegrees(2);
    let mut src = StdSource::from_seed(5);
    let g = NetworkStructure::new_molloy_reed(10, vec![5, 10], &mut deg, &mut src).unwrap();
    assert_structure_ok(&g);
    for v in 0..10 {
        assert!(g.degree[v] <= 6);
    }
    assert_eq!(g.age_brackets, vec![0, 0, 0, 0, 0, 1, 1, 1, 1, 1]);
}

#[test]
fn molloy_reed_rejects_bad_partitions() {
    let mut deg = ConstantDegrees(1);
    let mut src = StdSource::from_seed(5);
    let r = NetworkStructure::new_molloy_reed(10, vec![5, 4, 10], &mut deg, &mut src);
    assert!(matches!(r, Err(EpiError::InvalidParameter)));
    let r = NetworkStructure::new_molloy_reed(10, Vec::new(), &mut deg, &mut src);
    assert!(matches!(r, Err(EpiError::InvalidParameter)));
}

#[test]
fn serializeable_network_triplets() {
    let mut src = Zeros;
    let g = NetworkStructure::new_ba(4, 2, 1, &mut src).unwrap();
    let s = SerializeableNetwork::from(&g);
    // One triplet per directed edge, unit values, labels and degrees copied.
    assert_eq!(s.row_idx, vec![0, 0, 0, 1, 2, 3]);
    assert_eq!(s.col_idx, vec![1, 2, 3, 0, 0, 0]);
    assert_eq!(s.values, vec![1, 1, 1, 1, 1, 1]);
    assert_eq!(s.ages.len(), 0);
    assert_eq!(s.degrees, vec![3, 1, 1, 1]);
    let e = SerializeableNetwork::new();
    assert_eq!(e.row_idx.len(), 0);
    assert_eq!(e.values.len(), 0);
}

#[test]
fn sbm_empty_middle_block() {
    // A repeated boundary makes an empty block; nodes skip straight to the
    // next one and the generator still succeeds.
    let mut src = StdSource::from_seed(55);
    let r = Ratio { num: 1, den: 1 };
    let rates = vec![vec![r, r, r], vec![r, r, r], vec![r, r, r]];
    let g = NetworkStructure::new_sbm(4, vec![2, 2, 4], rates, &mut src).unwrap();
    assert_structure_ok(&g);
    assert_eq!(g.age_brackets, vec![0, 0, 2, 2]);
}

#[test]
fn match_stubs_connects_exhaustively() {
    // Two sources with one out-stub each against two targets with one
    // in-stub each: the greedy first-fit matching is deterministic here,
    // and no residual stub survives next to leftover capacity.
    let mut src = StdSource::from_seed(60);
    let mut adj: Vec<Vec<usize>> = vec![Vec::new(), Vec::new(), Vec::new(), Vec::new()];
    let mut degrees: Vec<usize> = vec![0, 0, 0, 0];
    let residual = match_stubs(
        &mut adj,
        &mut degrees,
        0,
        2,
        2,
        2,
        &vec![1, 1],
        vec![1, 1],
        false,
        &mut src,
    );
    assert_eq!(adj, vec![vec![2], vec![3], vec![0], vec![1]]);
    assert_eq!(degrees, vec![1, 1, 1, 1]);
    assert_eq!(residual, vec![0, 0]);
}

#[test]
fn match_stubs_saturates_capacity() {
    // Generous out-degrees: every source connects to every target, and all
    // in-stubs are consumed.
    let mut src = StdSource::from_seed(61);
    let mut adj: Vec<Vec<usize>> = vec![Vec::new(), Vec::new(), Vec::new(), Vec::new()];
    let mut degrees: Vec<usize> = vec![0, 0, 0, 0];
    let residual = match_stubs(
        &mut adj,
        &mut degrees,
        0,
        2,
        2,
        2,
        &vec![5, 5],
        vec![2, 2],
        false,
        &mut src,
    );
    assert_eq!(degrees, vec![2, 2, 2, 2]);
    assert_eq!(residual, vec![0, 0]);
    for s in 0..2usize {
        for t in 2..4usize {
            assert!(adj[s].contains(&t));
            assert!(adj[t].contains(&s));
        }
    }
}
