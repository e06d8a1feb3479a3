//! Sums and counts over sequences, with the induction lemmas the samplers and
//! the epidemic engines use to track totals through element updates.

use vstd::prelude::*;
use vstd::set_lib::lemma_int_range;
use vstd::set_lib::lemma_len_subset;
use vstd::set_lib::set_int_range;

verus! {

/// Sum of the first `k` entries of `s`.
pub open spec fn sum_prefix(s: Seq<u64>, k: int) -> int
    decreases k,
{
    if k <= 0 {
        0
    } else {
        sum_prefix(s, k - 1) + s[k - 1]
    }
}

/// Sum of all entries of `s`.
pub open spec fn sum_all(s: Seq<u64>) -> int {
    sum_prefix(s, s.len() as int)
}

/// Sum of the first `k` entries of a sequence of machine integers.
pub open spec fn sum_usize_prefix(s: Seq<usize>, k: int) -> int
    decreases k,
{
    if k <= 0 {
        0
    } else {
        sum_usize_prefix(s, k - 1) + s[k - 1]
    }
}

/// Updating position `i < k` shifts the machine-integer prefix sum by the
/// difference.
pub proof fn lemma_sum_usize_prefix_update_low(s: Seq<usize>, k: int, i: int, v: usize)
    requires
        0 <= i < k,
        k <= s.len(),
    ensures
        sum_usize_prefix(s.update(i, v), k) == sum_usize_prefix(s, k) - s[i] + v,
    decreases k,
{
    if i == k - 1 {
        assert(forall|j: int| 0 <= j < k - 1 ==> s.update(i, v)[j] == s[j]);
        lemma_sum_usize_prefix_same(s, s.update(i, v), k - 1);
    } else {
        lemma_sum_usize_prefix_update_low(s, k - 1, i, v);
    }
}

/// Incrementing two distinct positions by one raises the total by two.
pub proof fn lemma_sum_usize_two_increments(pre: Seq<usize>, post: Seq<usize>, a: int, b: int)
    requires
        post.len() == pre.len(),
        0 <= a < pre.len(),
        0 <= b < pre.len(),
        a != b,
        forall|i: int|
            0 <= i < pre.len() ==> post[i] == pre[i] + (if i == a || i == b {
                1int
            } else {
                0int
            }),
    ensures
        sum_usize_prefix(post, post.len() as int) == sum_usize_prefix(pre, pre.len() as int) + 2,
{
    assert(post[a] == pre[a] + 1);
    assert(post[b] == pre[b] + 1);
    let va = (pre[a] + 1) as usize;
    let vb = (pre[b] + 1) as usize;
    let mid = pre.update(a, va);
    assert(post =~= mid.update(b, vb));
    lemma_sum_usize_prefix_update_low(pre, pre.len() as int, a, va);
    lemma_sum_usize_prefix_update_low(mid, mid.len() as int, b, vb);
}

/// Machine-integer prefix sums agree on sequences that agree below `k`.
pub proof fn lemma_sum_usize_prefix_same(s1: Seq<usize>, s2: Seq<usize>, k: int)
    requires
        forall|j: int| 0 <= j < k ==> s1[j] == s2[j],
    ensures
        sum_usize_prefix(s1, k) == sum_usize_prefix(s2, k),
    decreases k,
{
    if k > 0 {
        lemma_sum_usize_prefix_same(s1, s2, k - 1);
    }
}

/// Number of positive entries among the first `k` of `s`.
pub open spec fn count_pos_prefix(s: Seq<u64>, k: int) -> int
    decreases k,
{
    if k <= 0 {
        0
    } else {
        count_pos_prefix(s, k - 1) + if s[k - 1] > 0 {
            1int
        } else {
            0int
        }
    }
}

/// Number of positive entries of `s`.
pub open spec fn count_positive(s: Seq<u64>) -> int {
    count_pos_prefix(s, s.len() as int)
}

pub proof fn lemma_sum_prefix_nonneg(s: Seq<u64>, k: int)
    ensures
        sum_prefix(s, k) >= 0,
    decreases k,
{
    if k > 0 {
        lemma_sum_prefix_nonneg(s, k - 1);
    }
}

pub proof fn lemma_sum_prefix_monotone(s: Seq<u64>, k1: int, k2: int)
    requires
        k1 <= k2,
    ensures
        sum_prefix(s, k1) <= sum_prefix(s, k2),
    decreases k2,
{
    if k2 > k1 && k2 > 0 {
        lemma_sum_prefix_monotone(s, k1, k2 - 1);
    }
}

/// Updating position `i < k` shifts the prefix sum by the difference.
pub proof fn lemma_sum_prefix_update_low(s: Seq<u64>, k: int, i: int, v: u64)
    requires
        0 <= i < k,
        k <= s.len(),
    ensures
        sum_prefix(s.update(i, v), k) == sum_prefix(s, k) - s[i] + v,
    decreases k,
{
    if i == k - 1 {
        assert(forall|j: int| 0 <= j < k - 1 ==> s.update(i, v)[j] == s[j]);
        lemma_sum_prefix_same(s, s.update(i, v), k - 1);
    } else {
        lemma_sum_prefix_update_low(s, k - 1, i, v);
    }
}

/// Prefix sums agree on sequences that agree below `k`.
pub proof fn lemma_sum_prefix_same(s1: Seq<u64>, s2: Seq<u64>, k: int)
    requires
        forall|j: int| 0 <= j < k ==> s1[j] == s2[j],
    ensures
        sum_prefix(s1, k) == sum_prefix(s2, k),
    decreases k,
{
    if k > 0 {
        lemma_sum_prefix_same(s1, s2, k - 1);
    }
}

/// A zero prefix sum means every entry below `k` is zero.
pub proof fn lemma_sum_prefix_zero(s: Seq<u64>, k: int)
    requires
        0 <= k <= s.len(),
        sum_prefix(s, k) == 0,
    ensures
        forall|j: int| 0 <= j < k ==> s[j] == 0,
        count_pos_prefix(s, k) == 0,
    decreases k,
{
    if k > 0 {
        lemma_sum_prefix_nonneg(s, k - 1);
        lemma_sum_prefix_zero(s, k - 1);
    }
}

/// Each entry below `k` is at most the prefix sum.
pub proof fn lemma_sum_prefix_ge_elem(s: Seq<u64>, k: int, i: int)
    requires
        0 <= i < k <= s.len(),
    ensures
        sum_prefix(s, k) >= s[i],
    decreases k,
{
    lemma_sum_prefix_nonneg(s, i);
    lemma_sum_prefix_monotone(s, i + 1, k);
}

pub proof fn lemma_count_pos_prefix_bounds(s: Seq<u64>, k: int)
    ensures
        0 <= count_pos_prefix(s, k),
        count_pos_prefix(s, k) <= if k >= 0 {
            k
        } else {
            0int
        },
    decreases k,
{
    if k > 0 {
        lemma_count_pos_prefix_bounds(s, k - 1);
    }
}

/// Zeroing a positive entry below `k` drops the positive count by one.
pub proof fn lemma_count_pos_prefix_zeroed(s: Seq<u64>, k: int, i: int)
    requires
        0 <= i < k,
        k <= s.len(),
        s[i] > 0,
    ensures
        count_pos_prefix(s.update(i, 0u64), k) == count_pos_prefix(s, k) - 1,
    decreases k,
{
    if i == k - 1 {
        assert(forall|j: int| 0 <= j < k - 1 ==> s.update(i, 0u64)[j] == s[j]);
        lemma_count_pos_prefix_same(s, s.update(i, 0u64), k - 1);
    } else {
        lemma_count_pos_prefix_zeroed(s, k - 1, i);
    }
}

/// Positive counts agree on sequences that agree below `k`.
pub proof fn lemma_count_pos_prefix_same(s1: Seq<u64>, s2: Seq<u64>, k: int)
    requires
        forall|j: int| 0 <= j < k ==> s1[j] == s2[j],
    ensures
        count_pos_prefix(s1, k) == count_pos_prefix(s2, k),
    decreases k,
{
    if k > 0 {
        lemma_count_pos_prefix_same(s1, s2, k - 1);
    }
}

/// If the first `t` entries are positive, at least `t` entries are positive.
pub proof fn lemma_count_pos_prefix_at_least(s: Seq<u64>, k: int, t: int)
    requires
        0 <= t <= k <= s.len(),
        forall|j: int| 0 <= j < t ==> s[j] > 0,
    ensures
        count_pos_prefix(s, k) >= t,
    decreases k,
{
    if k > 0 {
        if k <= t {
            lemma_count_pos_prefix_at_least(s, k - 1, k - 1);
        } else {
            lemma_count_pos_prefix_at_least(s, k - 1, t);
            lemma_count_pos_prefix_bounds(s, k - 1);
        }
    }
}

/// A sequence of distinct values below `n` has at most `n` entries.
pub proof fn lemma_distinct_bounded_len(s: Seq<usize>, n: int)
    requires
        n >= 0,
        s.no_duplicates(),
        forall|j: int| 0 <= j < s.len() ==> s[j] < n,
    ensures
        s.len() <= n,
{
    broadcast use vstd::set::group_set_axioms;

    let f = |x: usize| x as int;
    let si = s.map_values(f);
    assert(forall|x: usize, y: usize| #[trigger] f(x) == #[trigger] f(y) ==> x == y);
    s.lemma_no_duplicates_injective(f);
    si.unique_seq_to_set();
    lemma_int_range(0, n);
    assert(si.to_set().subset_of(set_int_range(0, n))) by {
        assert forall|x: int| si.to_set().contains(x) implies set_int_range(0, n).contains(
            x,
        ) by {
            let j = choose|j: int| 0 <= j < si.len() && si[j] == x;
            assert(s[j] < n);
        }
    }
    lemma_len_subset(si.to_set(), set_int_range(0, n));
}

/// Counting entries of `s` below `k` that satisfy `f`.
pub open spec fn count_match_prefix<A>(s: Seq<A>, f: spec_fn(A) -> bool, k: int) -> int
    decreases k,
{
    if k <= 0 {
        0
    } else {
        count_match_prefix(s, f, k - 1) + if f(s[k - 1]) {
            1int
        } else {
            0int
        }
    }
}

/// Number of entries of `s` that satisfy `f`.
pub open spec fn count_matching<A>(s: Seq<A>, f: spec_fn(A) -> bool) -> int {
    count_match_prefix(s, f, s.len() as int)
}

pub proof fn lemma_count_match_prefix_bounds<A>(s: Seq<A>, f: spec_fn(A) -> bool, k: int)
    ensures
        0 <= count_match_prefix(s, f, k),
        count_match_prefix(s, f, k) <= if k >= 0 {
            k
        } else {
            0int
        },
    decreases k,
{
    if k > 0 {
        lemma_count_match_prefix_bounds(s, f, k - 1);
    }
}

/// Matching counts agree on sequences that agree below `k`.
pub proof fn lemma_count_match_prefix_same<A>(s1: Seq<A>, s2: Seq<A>, f: spec_fn(A) -> bool, k: int)
    requires
        forall|j: int| 0 <= j < k ==> s1[j] == s2[j],
    ensures
        count_match_prefix(s1, f, k) == count_match_prefix(s2, f, k),
    decreases k,
{
    if k > 0 {
        lemma_count_match_prefix_same(s1, s2, f, k - 1);
    }
}

/// A prefix containing a matching entry has a positive matching count.
pub proof fn lemma_count_match_prefix_contains<A>(s: Seq<A>, f: spec_fn(A) -> bool, k: int, i: int)
    requires
        0 <= i < k <= s.len(),
        f(s[i]),
    ensures
        count_match_prefix(s, f, k) > 0,
    decreases k,
{
    lemma_count_match_prefix_bounds(s, f, k - 1);
    if i < k - 1 {
        lemma_count_match_prefix_contains(s, f, k - 1, i);
    }
}

/// Updating position `i` adjusts the matching count by the two indicator
/// values at `i`.
pub proof fn lemma_count_match_prefix_update<A>(
    s: Seq<A>,
    f: spec_fn(A) -> bool,
    k: int,
    i: int,
    v: A,
)
    requires
        0 <= i < s.len(),
        k <= s.len(),
    ensures
        count_match_prefix(s.update(i, v), f, k) == count_match_prefix(s, f, k) + if i < k {
            (if f(v) {
                1int
            } else {
                0int
            }) - (if f(s[i]) {
                1int
            } else {
                0int
            })
        } else {
            0int
        },
    decreases k,
{
    if k > 0 {
        lemma_count_match_prefix_update(s, f, k - 1, i, v);
        if i == k - 1 {
            assert(forall|j: int| 0 <= j < k - 1 ==> s.update(i, v)[j] == s[j]);
            lemma_count_match_prefix_same(s, s.update(i, v), f, k - 1);
        }
    }
}

} // verus!
