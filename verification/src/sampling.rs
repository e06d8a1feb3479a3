//! Randomness plumbing: a uniform-bits source backed by `rand`, exact
//! Bernoulli draws over rationals, weighted sampling without replacement, and
//! Fisher-Yates shuffling. Draws from real-valued distributions enter through
//! the sampler traits, so every consumer is verified for every outcome.

use vstd::prelude::*;
use crate::seq_math::count_pos_prefix;
use crate::seq_math::count_positive;
use crate::seq_math::lemma_count_pos_prefix_bounds;
use crate::seq_math::lemma_count_pos_prefix_zeroed;
use crate::seq_math::lemma_sum_prefix_ge_elem;
use crate::seq_math::lemma_sum_prefix_monotone;
use crate::seq_math::lemma_sum_prefix_nonneg;
use crate::seq_math::lemma_sum_prefix_same;
use crate::seq_math::lemma_sum_prefix_update_low;
use crate::seq_math::lemma_sum_prefix_zero;
use crate::seq_math::sum_all;
use crate::seq_math::sum_prefix;
use crate::useful_functions::Ratio;
use vstd::math::min;

verus! {

/// `rand`'s standard generator, opaque to the verifier; carried inside
/// `StdSource` and touched only by the trusted wrappers below.
#[verifier::external_type_specification]
#[verifier::external_body]
pub struct ExStdRng(rand::rngs::StdRng);

/// A stream of uniform random 64-bit words.
///
/// Nothing is assumed of the values; consumers reduce them modulo a bound in
/// verified code, so their contracts hold for every stream, including the
/// deterministic ones tests inject.
pub trait UniformSource {
    fn next_word(&mut self) -> u64;
}

/// The crate's default `UniformSource`: a seedable PRNG from `rand`.
pub struct StdSource {
    inner: rand::rngs::StdRng,
}

impl StdSource {
    /// Relies on rand::SeedableRng::seed_from_u64 to build a deterministic
    /// generator from a 64-bit seed.
    #[verifier::external_body]
    pub fn from_seed(seed: u64) -> (r: StdSource) {
        StdSource { inner: rand::SeedableRng::seed_from_u64(seed) }
    }
}

/// Relies on rand::RngCore::next_u64 for the next uniform word.
#[verifier::external_body]
fn std_next_word(inner: &mut rand::rngs::StdRng) -> u64 {
    rand::RngCore::next_u64(inner)
}

impl UniformSource for StdSource {
    fn next_word(&mut self) -> u64 {
        std_next_word(&mut self.inner)
    }
}

/// A sampler of Poisson event counts with rational mean `num / den`.
/// Implementations live outside the verified crate (the distribution is
/// real-valued); callers state what holds for every returned count.
pub trait PoissonSampler {
    fn poisson_events(&mut self, num: u128, den: u128) -> usize
        requires
            den >= 1,
    ;
}

/// A sampler of Binomial draws with `trials` trials and rational success
/// probability `num / den`.
pub trait BinomialSampler {
    fn binomial_draw(&mut self, trials: usize, num: u64, den: u64) -> usize
        requires
            den >= 1,
    ;
}

/// A sampler of node degrees for one ordered block pair, standing for the
/// externally fitted Poisson-Geometric mixture.
pub trait DegreeSampler {
    fn degree_draw(&mut self, block_from: usize, block_to: usize) -> usize;
}

/// A uniform draw from `0 .. bound`.
pub fn draw_below<S: UniformSource>(src: &mut S, bound: u128) -> (r: u128)
    requires
        bound >= 1,
    ensures
        r < bound,
{
    let hi = src.next_word();
    let lo = src.next_word();
    let raw: u128 = (hi as u128) * 0x1_0000_0000_0000_0000u128 + (lo as u128);
    raw % bound
}

/// A Bernoulli draw that succeeds with probability `min(1, num / den)`.
///
/// A zero numerator never succeeds; a numerator at or above the denominator
/// always does.
pub fn bernoulli_parts<S: UniformSource>(src: &mut S, num: u128, den: u128) -> (r: bool)
    requires
        den >= 1,
    ensures
        num == 0 ==> !r,
        num >= den ==> r,
{
    let t = draw_below(src, den);
    t < num
}

/// A Bernoulli draw at an exact rational probability.
pub fn bernoulli<S: UniformSource>(src: &mut S, p: Ratio) -> (r: bool)
    requires
        p.wf(),
    ensures
        p.num == 0 ==> !r,
        p.num >= p.den ==> r,
{
    bernoulli_parts(src, p.num as u128, p.den as u128)
}

/// Weighted sampling without replacement: draws up to `k` distinct indices,
/// each with probability proportional to its weight among the remaining ones.
///
/// Exactly `min(k, #positive weights)` indices come back, each carrying a
/// positive weight.
pub fn weighted_sample<S: UniformSource>(weights: &Vec<u64>, k: usize, src: &mut S) -> (picks: Vec<
    usize,
>)
    ensures
        picks@.no_duplicates(),
        forall|t: int|
            0 <= t < picks@.len() ==> picks@[t] < weights@.len() && weights@[picks@[t] as int] > 0,
        picks@.len() == min(k as int, count_positive(weights@)),
{
    let n = weights.len();
    let mut remaining: Vec<u64> = Vec::new();
    let mut total: u128 = 0;
    for i in 0..n
        invariant
            n == weights@.len(),
            remaining@.len() == i,
            forall|j: int| 0 <= j < i ==> remaining@[j] == weights@[j],
            total == sum_prefix(remaining@, i as int),
            total <= i * (u64::MAX as int),
    {
        proof {
            lemma_sum_prefix_same(remaining@, remaining@.push(weights@[i as int]), i as int);
            assert((i + 1) * (u64::MAX as int) == i * (u64::MAX as int) + u64::MAX) by (nonlinear_arith);
            assert((i + 1) * (u64::MAX as int) < 0x1_0000_0000_0000_0000_0000_0000_0000_0000int)
                by (nonlinear_arith)
                requires
                    0 <= i < 0x1_0000_0000_0000_0000int,
            ;
        }
        remaining.push(weights[i]);
        total = total + (weights[i] as u128);
    }
    proof {
        assert(remaining@ =~= weights@);
    }

    let mut picks: Vec<usize> = Vec::new();
    while picks.len() < k && total > 0
        invariant
            remaining@.len() == weights@.len(),
            remaining@.len() <= usize::MAX,
            total == sum_all(remaining@),
            forall|j: int|
                0 <= j < weights@.len()
                    ==> remaining@[j] == weights@[j] || remaining@[j] == 0,
            picks@.no_duplicates(),
            picks@.len() <= k as int,
            forall|t: int|
                0 <= t < picks@.len()
                    ==> picks@[t] < weights@.len() && weights@[picks@[t] as int] > 0
                        && remaining@[picks@[t] as int] == 0,
            count_positive(remaining@) == count_positive(weights@) - picks@.len(),
        decreases k - picks@.len(),
    {
        proof {
            lemma_sum_prefix_nonneg(remaining@, remaining@.len() as int);
        }
        let t = draw_below(src, total);
        // Cumulative walk: find the index whose weight interval contains t.
        let mut acc: u128 = 0;
        let mut idx: usize = 0;
        proof {
            if remaining@.len() == 0 {
                assert(total == 0);
            }
        }
        loop
            invariant_except_break
                remaining@.len() == weights@.len(),
                remaining@.len() <= usize::MAX,
                idx < remaining@.len(),
                acc == sum_prefix(remaining@, idx as int),
                acc <= t,
                t < total,
                total == sum_all(remaining@),
            ensures
                idx < remaining@.len(),
                acc <= t,
                t < acc + remaining@[idx as int],
            decreases remaining@.len() - idx,
        {
            proof {
                lemma_sum_prefix_monotone(remaining@, idx as int + 1, remaining@.len() as int);
            }
            let w = remaining[idx];
            if t < acc + (w as u128) {
                break ;
            }
            acc = acc + (w as u128);
            idx = idx + 1;
            proof {
                if idx == remaining@.len() {
                    assert(acc == sum_all(remaining@));
                    assert(false);
                }
            }
        }
        // The interval containing t has positive width.
        assert(remaining@[idx as int] > 0);
        let w = remaining[idx];
        proof {
            lemma_sum_prefix_ge_elem(remaining@, remaining@.len() as int, idx as int);
            lemma_sum_prefix_update_low(
                remaining@,
                remaining@.len() as int,
                idx as int,
                0u64,
            );
            lemma_count_pos_prefix_zeroed(remaining@, remaining@.len() as int, idx as int);
            lemma_sum_prefix_nonneg(remaining@.update(idx as int, 0u64), remaining@.len() as int);
        }
        remaining[idx] = 0;
        total = total - (w as u128);
        picks.push(idx);
    }
    proof {
        lemma_count_pos_prefix_bounds(remaining@, remaining@.len() as int);
        if picks@.len() < k as int {
            lemma_sum_prefix_zero(remaining@, remaining@.len() as int);
        }
    }
    picks
}

/// Fisher-Yates shuffle driven by `src`; rearranges `v` in place.
pub fn shuffle<S: UniformSource>(v: &mut Vec<usize>, src: &mut S)
    ensures
        final(v)@.len() == old(v)@.len(),
        final(v)@.to_multiset() == old(v)@.to_multiset(),
        old(v)@.no_duplicates() ==> final(v)@.no_duplicates(),
        forall|x: usize| #[trigger] final(v)@.contains(x) <==> old(v)@.contains(x),
{
    let n = v.len();
    for i in 0..n
        invariant
            v@.len() == n,
            n == old(v)@.len(),
            v@.to_multiset() == old(v)@.to_multiset(),
    {
        let r = draw_below(src, (n - i) as u128);
        let j = i + (r as usize);
        let a = v[i];
        let b = v[j];
        proof {
            lemma_swap_multiset(v@, i as int, j as int);
        }
        v[i] = b;
        v[j] = a;
    }
    proof {
        broadcast use vstd::seq_lib::group_to_multiset_ensures;

        if old(v)@.no_duplicates() {
            old(v)@.lemma_multiset_has_no_duplicates();
            v@.lemma_multiset_has_no_duplicates_conv();
        }
        assert forall|x: usize| #[trigger] v@.contains(x) <==> old(v)@.contains(x) by {
            assert(v@.to_multiset().count(x) == old(v)@.to_multiset().count(x));
        }
    }
}

/// Swapping two positions leaves a sequence's multiset unchanged.
pub proof fn lemma_swap_multiset<A>(s: Seq<A>, i: int, j: int)
    requires
        0 <= i < s.len(),
        0 <= j < s.len(),
    ensures
        s.update(i, s[j]).update(j, s[i]).to_multiset() == s.to_multiset(),
{
    broadcast use vstd::seq_lib::group_to_multiset_ensures;
    broadcast use vstd::seq_lib::to_multiset_update;

    let s1 = s.update(i, s[j]);
    let s2 = s1.update(j, s[i]);
    if i == j {
        assert(s2 =~= s);
    } else {
        assert(s.contains(s[i]));
        assert(s1.contains(s1[j]));
        assert(s1[j] == s[j]);
        assert(s2.to_multiset() =~= s.to_multiset());
    }
}

} // verus!
