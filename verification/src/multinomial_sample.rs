//! Multinomial sampling by chained conditional binomials: category `i`
//! receives a binomial draw over the remaining trials, with its probability
//! renormalized by the mass already consumed.

use vstd::prelude::*;
use crate::sampling::BinomialSampler;
use crate::seq_math::lemma_sum_prefix_monotone;
use crate::seq_math::lemma_sum_usize_prefix_same;
use crate::seq_math::lemma_sum_prefix_nonneg;
use crate::seq_math::sum_all;
use crate::seq_math::sum_prefix;
use crate::seq_math::sum_usize_prefix;

verus! {

/// Draws one multinomial sample of `n` trials over the categories whose
/// probabilities are `ps_num[i] / den`. Category `i`'s count is a binomial
/// draw with success probability `ps_num[i] / (den - mass so far)`, clamped
/// to the remaining trials, so the counts never add up to more than `n`.
pub fn multinomial_sample<B: BinomialSampler>(
    n: usize,
    ps_num: &Vec<u64>,
    den: u64,
    sampler: &mut B,
) -> (counts: Vec<usize>)
    requires
        den >= 1,
        sum_all(ps_num@) <= den,
    ensures
        counts@.len() == ps_num@.len(),
        sum_usize_prefix(counts@, counts@.len() as int) <= n,
        // Each category's count is clamped to the trials left after the
        // categories before it.
        forall|i: int|
            0 <= i < counts@.len() ==> (#[trigger] counts@[i]) + sum_usize_prefix(counts@, i)
                <= n,
{
    let k = ps_num.len();
    let mut counts: Vec<usize> = Vec::new();
    let mut x_sum: usize = 0;
    let mut p_sum: u64 = 0;
    for i in 0..k
        invariant
            k == ps_num@.len(),
            sum_all(ps_num@) <= den,
            counts@.len() == i,
            p_sum == sum_prefix(ps_num@, i as int),
            p_sum <= den,
            x_sum <= n,
            sum_usize_prefix(counts@, i as int) == x_sum,
            forall|u: int|
                0 <= u < i ==> (#[trigger] counts@[u]) + sum_usize_prefix(counts@, u) <= n,
    {
        proof {
            lemma_sum_prefix_nonneg(ps_num@, i as int);
            lemma_sum_prefix_monotone(ps_num@, i as int + 1, ps_num@.len() as int);
        }
        let p = ps_num[i];
        let rem_den = den - p_sum;
        let x: usize = if rem_den == 0 {
            0
        } else {
            let draw = sampler.binomial_draw(n - x_sum, p, rem_den);
            if draw < n - x_sum {
                draw
            } else {
                n - x_sum
            }
        };
        x_sum = x_sum + x;
        p_sum = p_sum + p;
        let ghost pre = counts@;
        counts.push(x);
        proof {
            lemma_sum_usize_prefix_same(pre, counts@, i as int);
            assert forall|u: int|
                0 <= u < i + 1 implies (#[trigger] counts@[u]) + sum_usize_prefix(counts@, u)
                <= n by {
                lemma_sum_usize_prefix_same(pre, counts@, u);
            }
        }
    }
    counts
}

} // verus!
