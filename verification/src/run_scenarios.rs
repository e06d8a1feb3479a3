//! Ready-made scenario builders: age-stratified stochastic block models with
//! the CoMix contact-survey rate matrix over four age brackets (0-17, 18-39,
//! 40-65, 65+), whose population shares split the nodes at 20.7%, 49.2% and
//! 81.4%.

use vstd::prelude::*;
use crate::random_graphs::node_weights_ok;
use crate::random_graphs::NetworkStructure;
use crate::sampling::UniformSource;
use crate::useful_functions::EpiError;
use crate::useful_functions::Ratio;
use crate::useful_functions::RATIO_LIMIT;
use vstd::arithmetic::div_mod::lemma_div_is_ordered;
use vstd::arithmetic::div_mod::lemma_fundamental_div_mod_converse;

verus! {

/// One row of four contact rates in tenths or hundredths.
fn ratio_row(n0: u64, d0: u64, n1: u64, d1: u64, n2: u64, d2: u64, n3: u64, d3: u64) -> (row:
    Vec<Ratio>)
    requires
        1 <= d0 <= 100 && 1 <= d1 <= 100 && 1 <= d2 <= 100 && 1 <= d3 <= 100,
        n0 <= 100 && n1 <= 100 && n2 <= 100 && n3 <= 100,
    ensures
        row@.len() == 4,
        forall|j: int|
            0 <= j < 4 ==> 1 <= (#[trigger] row@[j]).den <= 100 && row@[j].num <= 100,
{
    let mut row: Vec<Ratio> = Vec::new();
    row.push(Ratio { num: n0, den: d0 });
    row.push(Ratio { num: n1, den: d1 });
    row.push(Ratio { num: n2, den: d2 });
    row.push(Ratio { num: n3, den: d3 });
    proof {
        assert forall|j: int| 0 <= j < 4 implies 1 <= (#[trigger] row@[j]).den <= 100
            && row@[j].num <= 100 by {
            if j == 0 {
                assert(row@[0] == (Ratio { num: n0, den: d0 }));
            } else if j == 1 {
                assert(row@[1] == (Ratio { num: n1, den: d1 }));
            } else if j == 2 {
                assert(row@[2] == (Ratio { num: n2, den: d2 }));
            } else {
                assert(row@[3] == (Ratio { num: n3, den: d3 }));
            }
        }
    }
    row
}

/// The CoMix block-to-block daily contact rates over the four age brackets,
/// as exact rationals.
fn comix_rates() -> (rates: Vec<Vec<Ratio>>)
    ensures
        rates@.len() == 4,
        forall|i: int| 0 <= i < 4 ==> (#[trigger] rates@[i])@.len() == 4,
        forall|i: int, j: int|
            0 <= i < 4 && 0 <= j < 4 ==> 1 <= (#[trigger] rates@[i]@[j]).den <= 100
                && rates@[i]@[j].num <= 100,
{
    let row0 = ratio_row(53, 10, 11, 10, 21, 10, 31, 100);
    let row1 = ratio_row(11, 10, 14, 10, 22, 10, 77, 100);
    let row2 = ratio_row(21, 10, 22, 10, 24, 10, 11, 10);
    let row3 = ratio_row(31, 100, 77, 100, 11, 10, 14, 10);
    let ghost r0 = row0@;
    let ghost r1 = row1@;
    let ghost r2 = row2@;
    let ghost r3 = row3@;
    let mut rates: Vec<Vec<Ratio>> = Vec::new();
    rates.push(row0);
    rates.push(row1);
    rates.push(row2);
    rates.push(row3);
    proof {
        assert forall|i: int, j: int| 0 <= i < 4 && 0 <= j < 4 implies 1 <= (
        #[trigger] rates@[i]@[j]).den <= 100 && rates@[i]@[j].num <= 100 by {
            if i == 0 {
                assert(rates@[i]@ == r0);
            } else if i == 1 {
                assert(rates@[i]@ == r1);
            } else if i == 2 {
                assert(rates@[i]@ == r2);
            } else {
                assert(rates@[i]@ == r3);
            }
        }
    }
    rates
}

/// The cumulative age-bracket boundaries for `n` nodes: 20.7%, 49.2%,
/// 81.4% and all of them.
fn comix_partitions(n: usize) -> (p: Vec<usize>)
    ensures
        p@.len() == 4,
        p@[3] == n,
        forall|k: int| 0 <= k < 3 ==> #[trigger] p@[k] <= p@[k + 1],
        forall|k: int| 0 <= k < 4 ==> #[trigger] p@[k] <= n,
{
    proof {
        let ni = n as int;
        lemma_fundamental_div_mod_converse(1000 * ni, 1000, ni, 0);
        lemma_div_is_ordered(207 * ni, 492 * ni, 1000);
        lemma_div_is_ordered(492 * ni, 814 * ni, 1000);
        lemma_div_is_ordered(814 * ni, 1000 * ni, 1000);
    }
    let p1 = ((207u128 * (n as u128)) / 1000u128) as usize;
    let p2 = ((492u128 * (n as u128)) / 1000u128) as usize;
    let p3 = ((814u128 * (n as u128)) / 1000u128) as usize;
    let mut p: Vec<usize> = Vec::new();
    p.push(p1);
    p.push(p2);
    p.push(p3);
    p.push(n);
    p
}

/// An age-stratified stochastic block model over the CoMix contact rates.
/// Succeeds exactly when the node count fits the exact-arithmetic limit.
pub fn comix_sbm<S: UniformSource>(n: usize, src: &mut S) -> (r: Result<
    NetworkStructure,
    EpiError,
>)
    ensures
        r is Ok <==> n <= RATIO_LIMIT,
        n > RATIO_LIMIT ==> r == Err::<NetworkStructure, EpiError>(EpiError::InvalidParameter),
        r is Ok ==> ({
            let g = r->Ok_0;
            g.wf() && g.spec_n() == n && g.age_brackets@.len() == n
        }),
{
    let partitions = comix_partitions(n);
    let rates = comix_rates();
    NetworkStructure::new_sbm(n, partitions, rates, src)
}

/// The weighted variant of `comix_sbm`: each node carries a positive
/// integer weight (drawn externally, e.g. from a fitted negative binomial)
/// that multiplies its edge probabilities.
pub fn comix_sbm_weighted<S: UniformSource>(n: usize, weights: &Vec<u64>, src: &mut S) -> (r:
    Result<NetworkStructure, EpiError>)
    ensures
        r is Ok <==> n <= RATIO_LIMIT && node_weights_ok(weights@, n),
        !(n <= RATIO_LIMIT && node_weights_ok(weights@, n)) ==> r == Err::<
            NetworkStructure,
            EpiError,
        >(EpiError::InvalidParameter),
        r is Ok ==> ({
            let g = r->Ok_0;
            g.wf() && g.spec_n() == n && g.age_brackets@.len() == n
        }),
{
    let partitions = comix_partitions(n);
    let rates = comix_rates();
    NetworkStructure::new_sbm_weighted(n, partitions, rates, weights, src)
}

} // verus!
