//! Exact rational rates, the crate's error taxonomy, and small numeric
//! utilities shared by the graph generators and the epidemic engines.

use vstd::prelude::*;
use crate::seq_math::count_match_prefix;
use crate::seq_math::count_matching;
use crate::seq_math::lemma_count_match_prefix_bounds;

verus! {

/// Equality with one fixed value, as a spec closure for counting.
pub open spec fn eq_pred(x: usize) -> spec_fn(usize) -> bool {
    |y: usize| y == x
}

/// Histogram of positive integer values: bucket `b` counts the occurrences
/// of the value `b + 1`, and there are exactly as many buckets as the
/// largest value present.
pub fn count_buckets(values: &Vec<usize>) -> (buckets: Vec<usize>)
    requires
        values@.len() >= 1,
        forall|t: int| 0 <= t < values@.len() ==> (#[trigger] values@[t]) >= 1,
    ensures
        forall|t: int| 0 <= t < values@.len() ==> (#[trigger] values@[t]) <= buckets@.len(),
        exists|t: int| 0 <= t < values@.len() && (#[trigger] values@[t]) == buckets@.len(),
        forall|b: int|
            0 <= b < buckets@.len() ==> (#[trigger] buckets@[b]) == count_matching(
                values@,
                eq_pred((b + 1) as usize),
            ),
{
    let n = values.len();
    let mut mx: usize = values[0];
    for t in 1..n
        invariant
            n == values@.len(),
            n >= 1,
            forall|u: int| 0 <= u < t ==> (#[trigger] values@[u]) <= mx,
            exists|u: int| 0 <= u < t && (#[trigger] values@[u]) == mx,
    {
        if values[t] > mx {
            mx = values[t];
        }
    }
    let mut buckets: Vec<usize> = Vec::new();
    for b in 0..mx
        invariant
            buckets@.len() == b,
            forall|u: int| 0 <= u < b ==> (#[trigger] buckets@[u]) == 0,
    {
        buckets.push(0);
    }
    for t in 0..n
        invariant
            n == values@.len(),
            buckets@.len() == mx,
            forall|u: int| 0 <= u < n ==> 1 <= (#[trigger] values@[u]) <= mx,
            forall|b: int|
                0 <= b < mx ==> (#[trigger] buckets@[b]) == count_match_prefix(
                    values@,
                    eq_pred((b + 1) as usize),
                    t as int,
                ),
    {
        let v = values[t];
        proof {
            lemma_count_match_prefix_bounds(values@, eq_pred(v), t as int);
        }
        let c = buckets[v - 1];
        buckets[v - 1] = c + 1;
    }
    buckets
}

/// Largest numerator or denominator accepted where a `Ratio` feeds the
/// engines' mean computations; keeps all products inside `u128`.
pub const RATIO_LIMIT: u64 = 0xFFFF_FFFF;

/// Why a generator or engine refused its inputs.
///
/// `InvalidParameter`: structurally malformed inputs (size mismatches,
/// non-monotonic partitions, seed sizes out of range) — refused before any
/// allocation. `DistributionFit`: degenerate distribution parameters (a zero
/// denominator, a probability mass that exceeds one).
#[derive(Clone, Copy, Debug, PartialEq, Eq, Structural)]
pub enum EpiError {
    InvalidParameter,
    DistributionFit,
}

/// A non-negative rational `num / den`, the crate's representation of rates,
/// probabilities and time steps.
#[derive(Clone, Copy, Debug, PartialEq, Eq, Structural)]
pub struct Ratio {
    pub num: u64,
    pub den: u64,
}

impl Ratio {
    /// A ratio is well formed when its denominator is positive.
    pub open spec fn wf(self) -> bool {
        self.den >= 1
    }

    /// Small enough for the engines' u128 mean arithmetic.
    pub open spec fn bounded(self) -> bool {
        self.num <= RATIO_LIMIT && self.den <= RATIO_LIMIT
    }

    /// Builds a ratio, refusing a zero denominator.
    pub fn new(num: u64, den: u64) -> (r: Result<Ratio, EpiError>)
        ensures
            den >= 1 ==> r == Ok::<Ratio, EpiError>(Ratio { num, den }),
            den == 0 ==> r == Err::<Ratio, EpiError>(EpiError::DistributionFit),
    {
        if den == 0 {
            Err(EpiError::DistributionFit)
        } else {
            Ok(Ratio { num, den })
        }
    }

    /// The integer part `floor(num / den)`.
    pub fn floor(&self) -> (r: u64)
        requires
            self.wf(),
        ensures
            r == self.num / self.den,
    {
        self.num / self.den
    }
}

/// Cumulative partition boundaries: non-empty, non-decreasing, ending at `n`.
pub open spec fn partitions_wf(p: Seq<usize>, n: usize) -> bool {
    &&& p.len() >= 1
    &&& p[p.len() - 1] == n
    &&& forall|k: int| 0 <= k < p.len() - 1 ==> #[trigger] p[k] <= p[k + 1]
}

/// Adjacent ordering extends to any pair of positions.
pub proof fn lemma_partitions_monotone(p: Seq<usize>, i: int, j: int)
    requires
        forall|k: int| 0 <= k < p.len() - 1 ==> #[trigger] p[k] <= p[k + 1],
        0 <= i <= j < p.len(),
    ensures
        p[i] <= p[j],
    decreases j - i,
{
    if i < j {
        lemma_partitions_monotone(p, i, j - 1);
    }
}

/// The number of nodes in block `i` of the cumulative boundaries `p`.
pub open spec fn block_size(p: Seq<usize>, i: int) -> int {
    if i == 0 {
        p[0] as int
    } else {
        p[i] - p[i - 1]
    }
}

/// Checks that the boundaries are non-empty, non-decreasing and end at `n`.
pub fn check_partitions(p: &Vec<usize>, n: usize) -> (ok: bool)
    ensures
        ok == partitions_wf(p@, n),
{
    if p.len() == 0 {
        return false;
    }
    if p[p.len() - 1] != n {
        return false;
    }
    for k in 0..p.len() - 1
        invariant
            p@.len() >= 1,
            forall|t: int| 0 <= t < k ==> #[trigger] p@[t] <= p@[t + 1],
    {
        if p[k] > p[k + 1] {
            return false;
        }
    }
    true
}

/// Converts a block-to-block contact-rate matrix into per-pair edge
/// probabilities by dividing row `i` by the size of block `i` (the block of
/// the higher-indexed node of a pair). Rows of empty blocks, which no node
/// pair ever consults, are zeroed.
pub fn rates_to_probabilities(rates_mat: &Vec<Vec<Ratio>>, partitions: &Vec<usize>) -> (prob: Vec<
    Vec<Ratio>,
>)
    requires
        forall|k: int|
            0 <= k < partitions@.len() - 1 ==> #[trigger] partitions@[k] <= partitions@[k + 1],
        rates_mat@.len() == partitions@.len(),
        forall|i: int|
            0 <= i < rates_mat@.len() ==> (#[trigger] rates_mat@[i])@.len() == rates_mat@.len(),
        forall|i: int, j: int|
            0 <= i < rates_mat@.len() && 0 <= j < rates_mat@.len()
                ==> (#[trigger] rates_mat@[i]@[j]).den <= RATIO_LIMIT,
        forall|k: int| 0 <= k < partitions@.len() ==> #[trigger] partitions@[k] <= RATIO_LIMIT,
    ensures
        prob@.len() == rates_mat@.len(),
        forall|i: int| 0 <= i < prob@.len() ==> (#[trigger] prob@[i])@.len() == rates_mat@.len(),
        forall|i: int, j: int|
            0 <= i < prob@.len() && 0 <= j < prob@.len() ==> (#[trigger] prob@[i]@[j]) == (if
            block_size(partitions@, i) > 0 {
                Ratio {
                    num: rates_mat@[i]@[j].num,
                    den: (rates_mat@[i]@[j].den * block_size(partitions@, i)) as u64,
                }
            } else {
                Ratio { num: 0, den: 1 }
            }),
{
    let b = rates_mat.len();
    let mut prob: Vec<Vec<Ratio>> = Vec::new();
    for i in 0..b
        invariant
            b == rates_mat@.len(),
            b == partitions@.len(),
            prob@.len() == i,
            forall|t: int| 0 <= t < i ==> (#[trigger] prob@[t])@.len() == b,
            forall|t: int, j: int|
                0 <= t < i && 0 <= j < b ==> (#[trigger] prob@[t]@[j]) == (if block_size(
                    partitions@,
                    t,
                ) > 0 {
                    Ratio {
                        num: rates_mat@[t]@[j].num,
                        den: (rates_mat@[t]@[j].den * block_size(partitions@, t)) as u64,
                    }
                } else {
                    Ratio { num: 0, den: 1 }
                }),
            forall|t: int|
                0 <= t < rates_mat@.len() ==> (#[trigger] rates_mat@[t])@.len()
                    == rates_mat@.len(),
            forall|t: int, j: int|
                0 <= t < rates_mat@.len() && 0 <= j < rates_mat@.len()
                    ==> (#[trigger] rates_mat@[t]@[j]).den <= RATIO_LIMIT,
            forall|k: int|
                0 <= k < partitions@.len() ==> #[trigger] partitions@[k] <= RATIO_LIMIT,
            forall|k: int|
                0 <= k < partitions@.len() - 1 ==> #[trigger] partitions@[k] <= partitions@[k
                    + 1],
    {
        let size: usize = if i == 0 {
            partitions[0]
        } else {
            partitions[i] - partitions[i - 1]
        };
        let mut row: Vec<Ratio> = Vec::new();
        for j in 0..b
            invariant
                b == rates_mat@.len(),
                b == partitions@.len(),
                i < b,
                row@.len() == j,
                size == block_size(partitions@, i as int),
                forall|t: int|
                    0 <= t < rates_mat@.len() ==> (#[trigger] rates_mat@[t])@.len()
                        == rates_mat@.len(),
                forall|t: int, u: int|
                    0 <= t < rates_mat@.len() && 0 <= u < rates_mat@.len()
                        ==> (#[trigger] rates_mat@[t]@[u]).den <= RATIO_LIMIT,
                forall|k: int|
                    0 <= k < partitions@.len() ==> #[trigger] partitions@[k] <= RATIO_LIMIT,
                forall|u: int|
                    0 <= u < j ==> (#[trigger] row@[u]) == (if block_size(partitions@, i as int)
                        > 0 {
                        Ratio {
                            num: rates_mat@[i as int]@[u].num,
                            den: (rates_mat@[i as int]@[u].den * block_size(
                                partitions@,
                                i as int,
                            )) as u64,
                        }
                    } else {
                        Ratio { num: 0, den: 1 }
                    }),
        {
            if size > 0 {
                let r = rates_mat[i][j];
                proof {
                    assert(r.den * size <= RATIO_LIMIT * RATIO_LIMIT) by (nonlinear_arith)
                        requires
                            r.den <= RATIO_LIMIT && size <= RATIO_LIMIT && size >= 0,
                    ;
                }
                row.push(Ratio { num: r.num, den: r.den * (size as u64) });
            } else {
                row.push(Ratio { num: 0, den: 1 });
            }
        }
        prob.push(row);
    }
    prob
}

} // verus!
