//! The tau-leaping epidemic engine: per step it partitions the nodes by
//! compartment, computes each susceptible node's infection pressure (its
//! number of infected neighbors; the transmission rate scales all of them
//! equally), draws Poisson event counts for the aggregate rates, clamps them
//! to the eligible pools, picks the transitioning individuals, and appends a
//! compartment snapshot to the history.

use vstd::prelude::*;
use crate::random_graphs::kind_count;
use crate::random_graphs::kind_of;
use crate::random_graphs::kind_pred;
use crate::random_graphs::Kind;
use crate::random_graphs::NetworkProperties;
use crate::random_graphs::NetworkStructure;
use crate::random_graphs::OutbreakType;
use crate::random_graphs::State;
use crate::random_graphs::lemma_round_frac_bounds;
use crate::random_graphs::round_frac;
use crate::random_graphs::rows_wf;
use crate::random_graphs::sec_filter;
use crate::random_graphs::transition_nodes;
use crate::random_graphs::Output;
use crate::random_graphs::ResultType;
use crate::useful_functions::Ratio;
use crate::useful_functions::RATIO_LIMIT;
use crate::seq_math::sum_prefix;
use crate::sampling::shuffle;
use crate::sampling::weighted_sample;
use crate::sampling::PoissonSampler;
use crate::sampling::UniformSource;
use crate::seq_math::count_match_prefix;
use crate::seq_math::count_matching;
use crate::seq_math::count_pos_prefix;
use crate::seq_math::count_positive;
use crate::seq_math::lemma_count_match_prefix_bounds;
use crate::seq_math::lemma_count_pos_prefix_bounds;
use crate::seq_math::lemma_distinct_bounded_len;
use vstd::math::min;

verus! {

/// Does `u` point at an infected node of `states`?
pub open spec fn inf_neighbor_pred(states: Seq<State>) -> spec_fn(usize) -> bool {
    |u: usize| 0 <= u < states.len() && kind_of(states[u as int]) == Kind::I
}

/// The infection pressure on node `v`: its number of infected neighbors
/// (every edge carries unit weight).
pub open spec fn pressure_of(network: NetworkStructure, states: Seq<State>, v: usize) -> int {
    count_matching(network.adjacency_matrix@[v as int]@, inf_neighbor_pred(states))
}

/// A strictly increasing list of exactly the nodes of `states` in kind `k`.
pub open spec fn kind_list_ok(list: Seq<usize>, states: Seq<State>, k: Kind) -> bool {
    &&& forall|t: int, u: int| 0 <= t < u < list.len() ==> #[trigger] list[t] < #[trigger] list[u]
    &&& forall|t: int|
        0 <= t < list.len() ==> (#[trigger] list[t]) < states.len() && kind_of(
            states[list[t] as int],
        ) == k
    &&& list.len() == kind_count(states, k)
}

/// Splits the current population into the susceptible, infected and
/// recovered index lists, each in increasing node order.
pub fn partition_compartments(props: &NetworkProperties) -> (lists: (
    Vec<usize>,
    Vec<usize>,
    Vec<usize>,
))
    ensures
        kind_list_ok(lists.0@, props.nodal_states@, Kind::S),
        kind_list_ok(lists.1@, props.nodal_states@, Kind::I),
        kind_list_ok(lists.2@, props.nodal_states@, Kind::R),
{
    let n = props.nodal_states.len();
    let mut sus: Vec<usize> = Vec::new();
    let mut inf: Vec<usize> = Vec::new();
    let mut rec: Vec<usize> = Vec::new();
    for v in 0..n
        invariant
            n == props.nodal_states@.len(),
            forall|t: int, u: int| 0 <= t < u < sus@.len() ==> #[trigger] sus@[t] < #[trigger] sus@[u],
            forall|t: int, u: int| 0 <= t < u < inf@.len() ==> #[trigger] inf@[t] < #[trigger] inf@[u],
            forall|t: int, u: int| 0 <= t < u < rec@.len() ==> #[trigger] rec@[t] < #[trigger] rec@[u],
            forall|t: int|
                0 <= t < sus@.len() ==> (#[trigger] sus@[t]) < v && kind_of(
                    props.nodal_states@[sus@[t] as int],
                ) == Kind::S,
            forall|t: int|
                0 <= t < inf@.len() ==> (#[trigger] inf@[t]) < v && kind_of(
                    props.nodal_states@[inf@[t] as int],
                ) == Kind::I,
            forall|t: int|
                0 <= t < rec@.len() ==> (#[trigger] rec@[t]) < v && kind_of(
                    props.nodal_states@[rec@[t] as int],
                ) == Kind::R,
            sus@.len() == count_match_prefix(props.nodal_states@, kind_pred(Kind::S), v as int),
            inf@.len() == count_match_prefix(props.nodal_states@, kind_pred(Kind::I), v as int),
            rec@.len() == count_match_prefix(props.nodal_states@, kind_pred(Kind::R), v as int),
    {
        proof {
            lemma_count_match_prefix_bounds(props.nodal_states@, kind_pred(Kind::S), v as int);
            lemma_count_match_prefix_bounds(props.nodal_states@, kind_pred(Kind::I), v as int);
            lemma_count_match_prefix_bounds(props.nodal_states@, kind_pred(Kind::R), v as int);
        }
        match props.nodal_states[v] {
            State::Susceptible => {
                sus.push(v);
            },
            State::Infected(_) => {
                inf.push(v);
            },
            State::Recovered(_) => {
                rec.push(v);
            },
            State::Exposed(_) => {},
        }
    }
    (sus, inf, rec)
}

/// The per-susceptible infection pressure vector: entry `t` counts the
/// infected neighbors of `susceptibles[t]`. Each entry is bounded by the
/// node count.
pub fn calculate_rates(
    network: &NetworkStructure,
    props: &NetworkProperties,
    susceptibles: &Vec<usize>,
) -> (pressure: Vec<u64>)
    requires
        network.wf(),
        props.nodal_states@.len() == network.spec_n(),
        forall|t: int|
            0 <= t < susceptibles@.len() ==> (#[trigger] susceptibles@[t]) < network.spec_n(),
    ensures
        pressure@.len() == susceptibles@.len(),
        forall|t: int|
            0 <= t < susceptibles@.len() ==> (#[trigger] pressure@[t]) == pressure_of(
                *network,
                props.nodal_states@,
                susceptibles@[t],
            ),
        forall|t: int| 0 <= t < pressure@.len() ==> (#[trigger] pressure@[t]) <= network.spec_n(),
{
    let mut pressure: Vec<u64> = Vec::new();
    let m = susceptibles.len();
    let nn = network.n();
    for t in 0..m
        invariant
            m == susceptibles@.len(),
            nn == network.spec_n(),
            network.wf(),
            props.nodal_states@.len() == network.spec_n(),
            forall|u: int|
                0 <= u < susceptibles@.len() ==> (#[trigger] susceptibles@[u])
                    < network.spec_n(),
            pressure@.len() == t,
            forall|u: int|
                0 <= u < t ==> (#[trigger] pressure@[u]) == pressure_of(
                    *network,
                    props.nodal_states@,
                    susceptibles@[u],
                ) && pressure@[u] <= network.spec_n(),
    {
        let v = susceptibles[t];
        let row = &network.adjacency_matrix[v];
        let mut count: u64 = 0;
        let row_len = row.len();
        proof {
            // A duplicate-free row of node indices has at most n entries.
            lemma_distinct_bounded_len(row@, network.spec_n());
        }
        for j in 0..row_len
            invariant
                row_len == row@.len(),
                row_len <= network.spec_n(),
                nn == network.spec_n(),
                props.nodal_states@.len() == network.spec_n(),
                forall|x: int| 0 <= x < row@.len() ==> (#[trigger] row@[x]) < network.spec_n(),
                count == count_match_prefix(row@, inf_neighbor_pred(props.nodal_states@), j as int),
                count <= j,
        {
            proof {
                lemma_count_match_prefix_bounds(
                    row@,
                    inf_neighbor_pred(props.nodal_states@),
                    j as int,
                );
            }
            let u = row[j];
            match props.nodal_states[u] {
                State::Infected(_) => {
                    count = count + 1;
                },
                _ => {},
            }
        }
        proof {
            lemma_count_match_prefix_bounds(
                row@,
                inf_neighbor_pred(props.nodal_states@),
                row@.len() as int,
            );
        }
        pressure.push(count);
    }
    pressure
}

/// Applies one step's drawn event counts to the population.
///
/// `num` holds the three Poisson draws (new infections, recoveries, waning
/// returns to susceptibility). Each draw is clamped to its eligible pool:
/// infections to the susceptibles with positive pressure, recoveries to the
/// infected including this step's new infections, waning (SIRS only) to the
/// recovered including this step's recoveries. Infected individuals are
/// picked with probability proportional to pressure, without replacement;
/// recoveries and waning pick uniformly via a shuffle.
#[verifier::rlimit(100)]
pub fn update_compartments<S: UniformSource>(
    props: &mut NetworkProperties,
    num: &Vec<usize>,
    susceptibles: &Vec<usize>,
    infected: &Vec<usize>,
    recovered: &Vec<usize>,
    pressure: &Vec<u64>,
    src: &mut S,
)
    requires
        num@.len() == 3,
        kind_list_ok(susceptibles@, old(props).nodal_states@, Kind::S),
        kind_list_ok(infected@, old(props).nodal_states@, Kind::I),
        kind_list_ok(recovered@, old(props).nodal_states@, Kind::R),
        pressure@.len() == susceptibles@.len(),
    ensures
        final(props).nodal_states@.len() == old(props).nodal_states@.len(),
        ({
            let s0 = old(props).nodal_states@;
            let s1 = final(props).nodal_states@;
            let ni = min(num@[0] as int, count_positive(pressure@));
            let nr = min(num@[1] as int, kind_count(s0, Kind::I) + ni);
            let nw = if old(props).outbreak_type is SIRS {
                min(num@[2] as int, kind_count(s0, Kind::R) + nr)
            } else {
                0int
            };
            &&& kind_count(s1, Kind::S) == kind_count(s0, Kind::S) - ni + nw
            &&& kind_count(s1, Kind::E) == kind_count(s0, Kind::E)
            &&& kind_count(s1, Kind::I) == kind_count(s0, Kind::I) + ni - nr
            &&& kind_count(s1, Kind::R) == kind_count(s0, Kind::R) + nr - nw
        }),
        num@[0] == 0 && num@[1] == 0 && num@[2] == 0 ==> final(props).nodal_states@ == old(
            props,
        ).nodal_states@,
        final(props).results == old(props).results,
        final(props).result_type == old(props).result_type,
        final(props).outbreak_type == old(props).outbreak_type,
        final(props).parameters == old(props).parameters,
        final(props).secondary_cases == old(props).secondary_cases,
{
    let ghost s0 = props.nodal_states@;
    let n = props.nodal_states.len();

    // Infections: clamp the draw to the susceptible pool, then pick
    // pressure-weighted without replacement among them.
    let cap0 = if num[0] < susceptibles.len() {
        num[0]
    } else {
        susceptibles.len()
    };
    let picks = weighted_sample(pressure, cap0, src);
    proof {
        lemma_count_pos_prefix_bounds(pressure@, pressure@.len() as int);
        assert(picks@.len() == min(num@[0] as int, count_positive(pressure@)));
    }
    let mut new_inf: Vec<usize> = Vec::new();
    for t in 0..picks.len()
        invariant
            kind_list_ok(susceptibles@, s0, Kind::S),
            pressure@.len() == susceptibles@.len(),
            forall|u: int|
                0 <= u < picks@.len() ==> (#[trigger] picks@[u]) < susceptibles@.len()
                    && pressure@[picks@[u] as int] > 0,
            new_inf@.len() == t,
            forall|u: int| 0 <= u < t ==> (#[trigger] new_inf@[u]) == susceptibles@[picks@[u] as int],
    {
        let p = picks[t];
        new_inf.push(susceptibles[p]);
    }
    proof {
        // Distinct picks address distinct (strictly increasing) nodes.
        assert forall|i: int, j: int| 0 <= i < j < new_inf@.len() implies #[trigger] new_inf@[i]
            != #[trigger] new_inf@[j] by {
            assert(picks@[i] != picks@[j]);
            if picks@[i] < picks@[j] {
                assert(susceptibles@[picks@[i] as int] < susceptibles@[picks@[j] as int]);
            } else {
                assert(susceptibles@[picks@[j] as int] < susceptibles@[picks@[i] as int]);
            }
        }
        assert(new_inf@.no_duplicates());
        assert(new_inf@.take(new_inf@.len() as int) =~= new_inf@);
        assert forall|u: int| 0 <= u < new_inf@.len() implies (#[trigger] new_inf@[u])
            < s0.len() && kind_of(s0[new_inf@[u] as int]) == Kind::S by {
            assert(new_inf@[u] == susceptibles@[picks@[u] as int]);
        }
    }
    let ni = new_inf.len();
    transition_nodes(&mut props.nodal_states, &new_inf, ni, State::Infected(0), Ghost(Kind::S));
    let ghost s1 = props.nodal_states@;

    // Recoveries: the infected plus this step's new infections, shuffled,
    // first `min(draw, pool)` of them recover.
    let mut pool: Vec<usize> = Vec::new();
    for t in 0..infected.len()
        invariant
            kind_list_ok(infected@, s0, Kind::I),
            pool@.len() == t,
            forall|u: int| 0 <= u < t ==> (#[trigger] pool@[u]) == infected@[u],
    {
        pool.push(infected[t]);
    }
    for t in 0..ni
        invariant
            ni == new_inf@.len(),
            forall|u: int| 0 <= u < ni ==> (#[trigger] new_inf@[u]) < n,
            pool@.len() == infected@.len() + t,
            forall|u: int| 0 <= u < infected@.len() ==> (#[trigger] pool@[u]) == infected@[u],
            forall|u: int|
                0 <= u < t ==> (#[trigger] pool@[infected@.len() + u]) == new_inf@[u],
    {
        pool.push(new_inf[t]);
    }
    proof {
        let il = infected@.len() as int;
        assert forall|t: int| il <= t < pool@.len() implies #[trigger] pool@[t] == new_inf@[t
            - il] by {
            let u = t - il;
            assert(pool@[infected@.len() + u] == new_inf@[u]);
        }
        // The pool is duplicate free: the infected are pairwise distinct,
        // the new infections are, and the two groups had different kinds.
        assert forall|i: int, j: int| 0 <= i < j < pool@.len() implies #[trigger] pool@[i]
            != #[trigger] pool@[j] by {
            if j < il {
                assert(infected@[i] < infected@[j]);
            } else if i < il {
                assert(pool@[j] == new_inf@[j - il]);
                assert(kind_of(s0[pool@[i] as int]) == Kind::I);
                assert(kind_of(s0[new_inf@[j - il] as int]) == Kind::S);
            } else {
                assert(pool@[i] == new_inf@[i - il]);
                assert(pool@[j] == new_inf@[j - il]);
                assert(new_inf@[i - il] != new_inf@[j - il]);
            }
        }
        assert(pool@.no_duplicates());
        // Every pool member is infected after the first transition.
        assert forall|t: int| 0 <= t < pool@.len() implies (#[trigger] pool@[t]) < n && kind_of(
            s1[pool@[t] as int],
        ) == Kind::I by {
            if t < il {
                assert(kind_of(s0[pool@[t] as int]) == Kind::I);
                if exists|u: int| 0 <= u < ni && new_inf@[u] == pool@[t] {
                    let u = choose|u: int| 0 <= u < ni && new_inf@[u] == pool@[t];
                    assert(kind_of(s0[new_inf@[u] as int]) == Kind::S);
                }
            } else {
                assert(pool@[t] == new_inf@[t - il]);
                assert(exists|u: int| 0 <= u < ni && new_inf@[u] == pool@[t]);
            }
        }
    }
    let ghost pool_pre = pool@;
    shuffle(&mut pool, src);
    proof {
        assert forall|t: int| 0 <= t < pool@.len() implies (#[trigger] pool@[t]) < n && kind_of(
            s1[pool@[t] as int],
        ) == Kind::I by {
            let x = pool@[t];
            assert(pool@.contains(x));
            assert(pool_pre.contains(x));
            let u = choose|u: int| 0 <= u < pool_pre.len() && pool_pre[u] == x;
        }
    }
    let nr = if num[1] < pool.len() {
        num[1]
    } else {
        pool.len()
    };
    proof {
        assert(pool@.len() == kind_count(s0, Kind::I) + ni);
        assert(pool@.take(nr as int).no_duplicates()) by {
            assert(forall|i: int, j: int|
                0 <= i < j < nr ==> pool@.take(nr as int)[i] == pool@[i] && pool@.take(
                    nr as int,
                )[j] == pool@[j]);
        }
    }
    transition_nodes(&mut props.nodal_states, &pool, nr, State::Recovered(0), Ghost(Kind::I));
    let ghost s2 = props.nodal_states@;

    // Waning immunity (SIRS only): the recovered plus this step's
    // recoveries, shuffled; the first `min(draw, pool)` turn susceptible.
    let is_sirs = match props.outbreak_type {
        OutbreakType::SIRS => true,
        _ => false,
    };
    if is_sirs {
        let mut wpool: Vec<usize> = Vec::new();
        for t in 0..recovered.len()
            invariant
                kind_list_ok(recovered@, s0, Kind::R),
                wpool@.len() == t,
                forall|u: int| 0 <= u < t ==> (#[trigger] wpool@[u]) == recovered@[u],
        {
            wpool.push(recovered[t]);
        }
        for t in 0..nr
            invariant
                nr <= pool@.len(),
                forall|u: int| 0 <= u < pool@.len() ==> (#[trigger] pool@[u]) < n,
                wpool@.len() == recovered@.len() + t,
                forall|u: int|
                    0 <= u < recovered@.len() ==> (#[trigger] wpool@[u]) == recovered@[u],
                forall|u: int|
                    0 <= u < t ==> (#[trigger] wpool@[recovered@.len() + u]) == pool@[u],
        {
            wpool.push(pool[t]);
        }
        proof {
            let rl = recovered@.len() as int;
            assert forall|t: int| rl <= t < wpool@.len() implies #[trigger] wpool@[t] == pool@[t
                - rl] by {
                let u = t - rl;
                assert(wpool@[recovered@.len() + u] == pool@[u]);
            }
            // Old recovered nodes were untouched by both transitions.
            assert forall|t: int| 0 <= t < recovered@.len() implies kind_of(
                s2[recovered@[t] as int],
            ) == Kind::R by {
                let v = recovered@[t];
                assert(kind_of(s0[v as int]) == Kind::R);
                if exists|u: int| 0 <= u < ni && new_inf@[u] == v {
                    let u = choose|u: int| 0 <= u < ni && new_inf@[u] == v;
                    assert(kind_of(s0[new_inf@[u] as int]) == Kind::S);
                }
                assert(kind_of(s1[v as int]) == Kind::R);
                if exists|u: int| 0 <= u < nr && pool@[u] == v {
                    let u = choose|u: int| 0 <= u < nr && pool@[u] == v;
                    assert(kind_of(s1[pool@[u] as int]) == Kind::I);
                }
            }
            assert forall|i: int, j: int| 0 <= i < j < wpool@.len() implies #[trigger] wpool@[i]
                != #[trigger] wpool@[j] by {
                if j < rl {
                    assert(recovered@[i] < recovered@[j]);
                } else if i < rl {
                    assert(wpool@[j] == pool@[j - rl]);
                    assert(kind_of(s2[recovered@[i] as int]) == Kind::R);
                    assert(kind_of(s1[pool@[j - rl] as int]) == Kind::I);
                    assert(kind_of(s0[wpool@[i] as int]) == Kind::R);
                    if exists|u: int| 0 <= u < ni && new_inf@[u] == wpool@[j] {
                        let u = choose|u: int| 0 <= u < ni && new_inf@[u] == wpool@[j];
                        assert(kind_of(s0[new_inf@[u] as int]) == Kind::S);
                    }
                    assert(kind_of(s1[wpool@[i] as int]) == Kind::R);
                } else {
                    assert(wpool@[i] == pool@[i - rl]);
                    assert(wpool@[j] == pool@[j - rl]);
                }
            }
            assert(wpool@.no_duplicates());
            // Every waning candidate is recovered after the second
            // transition.
            assert forall|t: int| 0 <= t < wpool@.len() implies (#[trigger] wpool@[t]) < n
                && kind_of(s2[wpool@[t] as int]) == Kind::R by {
                if t >= rl {
                    assert(wpool@[t] == pool@[t - rl]);
                    assert(exists|u: int| 0 <= u < nr && pool@[u] == wpool@[t]);
                }
            }
        }
        let ghost wpool_pre = wpool@;
        shuffle(&mut wpool, src);
        proof {
            assert forall|t: int| 0 <= t < wpool@.len() implies (#[trigger] wpool@[t]) < n
                && kind_of(s2[wpool@[t] as int]) == Kind::R by {
                let x = wpool@[t];
                assert(wpool@.contains(x));
                assert(wpool_pre.contains(x));
                let u = choose|u: int| 0 <= u < wpool_pre.len() && wpool_pre[u] == x;
            }
        }
        let nw = if num[2] < wpool.len() {
            num[2]
        } else {
            wpool.len()
        };
        proof {
            assert(wpool@.len() == kind_count(s0, Kind::R) + nr);
            assert(wpool@.take(nw as int).no_duplicates()) by {
                assert(forall|i: int, j: int|
                    0 <= i < j < nw ==> wpool@.take(nw as int)[i] == wpool@[i] && wpool@.take(
                        nw as int,
                    )[j] == wpool@[j]);
            }
        }
        transition_nodes(&mut props.nodal_states, &wpool, nw, State::Susceptible, Ghost(Kind::R));
    }
    proof {
        if num@[0] == 0 && num@[1] == 0 && num@[2] == 0 {
            assert(props.nodal_states@ =~= s0);
        }
    }
}

/// One Poisson draw per aggregate rate, each with rational mean
/// `num / den`; a zero mean short-circuits to zero events without invoking
/// the sampler.
pub fn poisson_rvs<P: PoissonSampler>(means: &Vec<(u128, u128)>, sampler: &mut P) -> (draws: Vec<
    usize,
>)
    requires
        forall|t: int| 0 <= t < means@.len() ==> (#[trigger] means@[t]).1 >= 1,
    ensures
        draws@.len() == means@.len(),
        forall|t: int| 0 <= t < means@.len() ==> (#[trigger] means@[t]).0 == 0 ==> draws@[t] == 0,
{
    let mut draws: Vec<usize> = Vec::new();
    for t in 0..means.len()
        invariant
            forall|u: int| 0 <= u < means@.len() ==> (#[trigger] means@[u]).1 >= 1,
            draws@.len() == t,
            forall|u: int| 0 <= u < t ==> (#[trigger] means@[u]).0 == 0 ==> draws@[u] == 0,
    {
        let (num, den) = means[t];
        if num == 0 {
            draws.push(0);
        } else {
            let d = sampler.poisson_events(num, den);
            draws.push(d);
        }
    }
    draws
}

/// How many susceptible nodes are under positive infection pressure among
/// the first `k`: the pool from which new infections can actually be drawn.
pub open spec fn count_pressured(network: NetworkStructure, states: Seq<State>, k: int) -> int
    decreases k,
{
    if k <= 0 {
        0
    } else {
        count_pressured(network, states, k - 1) + if kind_of(states[k - 1]) == Kind::S
            && pressure_of(network, states, (k - 1) as usize) > 0 {
            1int
        } else {
            0int
        }
    }
}

pub proof fn lemma_count_pressured_monotone(
    network: NetworkStructure,
    states: Seq<State>,
    k1: int,
    k2: int,
)
    requires
        k1 <= k2,
    ensures
        count_pressured(network, states, k1) <= count_pressured(network, states, k2),
    decreases k2,
{
    if k2 > k1 && k2 > 0 {
        lemma_count_pressured_monotone(network, states, k1, k2 - 1);
    }
}

/// The positive entries of a pressure vector over a strictly increasing
/// susceptible list are no more than the pressured susceptibles overall.
pub proof fn lemma_pressured_list_bound(
    network: NetworkStructure,
    states: Seq<State>,
    sus: Seq<usize>,
    pressure: Seq<u64>,
    k: int,
)
    requires
        forall|t: int|
            0 <= t < sus.len() ==> (#[trigger] sus[t]) < states.len() && kind_of(
                states[sus[t] as int],
            ) == Kind::S,
        forall|t: int, u: int| 0 <= t < u < sus.len() ==> #[trigger] sus[t] < #[trigger] sus[u],
        pressure.len() == sus.len(),
        forall|t: int|
            0 <= t < pressure.len() ==> (#[trigger] pressure[t]) == pressure_of(
                network,
                states,
                sus[t],
            ),
        0 <= k <= sus.len(),
    ensures
        count_pos_prefix(pressure, k) <= count_pressured(
            network,
            states,
            if k == 0 {
                0int
            } else {
                sus[k - 1] + 1
            },
        ),
    decreases k,
{
    if k > 0 {
        lemma_pressured_list_bound(network, states, sus, pressure, k - 1);
        let prev_hi: int = if k == 1 {
            0int
        } else {
            sus[k - 2] + 1
        };
        let hi: int = sus[k - 1] + 1;
        lemma_count_pressured_monotone(network, states, prev_hi, hi - 1);
        if pressure[k - 1] > 0 {
            assert(kind_of(states[sus[k - 1] as int]) == Kind::S);
            assert(pressure_of(network, states, sus[k - 1]) > 0);
        }
    }
}

/// One tau-leap's compartment bookkeeping, as a relation between the old
/// and new populations: some event counts `ni` (infections), `nr`
/// (recoveries) and `nw` (waning returns) moved the counts, each bounded by
/// its eligible pool -- infections by the pressured susceptibles,
/// recoveries by the infected plus this step's infections, waning by the
/// recovered plus this step's recoveries, and waning only under SIRS.
/// Under SIR this forces the susceptible count down and the recovered
/// count up, never the reverse.
pub open spec fn tau_step_deltas(
    network: NetworkStructure,
    s0: Seq<State>,
    s1: Seq<State>,
    sirs: bool,
    ni: int,
    nr: int,
    nw: int,
) -> bool {
    &&& 0 <= ni && 0 <= nr && 0 <= nw
    &&& ni <= count_pressured(network, s0, s0.len() as int)
    &&& nr <= kind_count(s0, Kind::I) + ni
    &&& nw <= kind_count(s0, Kind::R) + nr
    &&& (!sirs ==> nw == 0)
    &&& kind_count(s1, Kind::S) == kind_count(s0, Kind::S) - ni + nw
    &&& kind_count(s1, Kind::E) == kind_count(s0, Kind::E)
    &&& kind_count(s1, Kind::I) == kind_count(s0, Kind::I) + ni - nr
    &&& kind_count(s1, Kind::R) == kind_count(s0, Kind::R) + nr - nw
}

/// The three Poisson means handed to the sampler, exactly: the infection
/// channel scales the total pressure by `beta * dt`, the recovery channel
/// scales the infected count by `gamma * dt`, and the waning channel (only
/// with a waning rate) scales the recovered count by `omega * dt`. A zero
/// rate numerator yields a zero mean.
pub fn compute_means(
    beta: Ratio,
    gamma: Ratio,
    waning: Option<Ratio>,
    dt: Ratio,
    total_pressure: u128,
    infected: usize,
    recovered: usize,
) -> (means: Vec<(u128, u128)>)
    requires
        beta.wf(),
        beta.bounded(),
        gamma.wf(),
        gamma.bounded(),
        dt.wf(),
        dt.bounded(),
        waning matches Some(o) ==> o.wf() && o.bounded(),
        total_pressure <= RATIO_LIMIT * RATIO_LIMIT,
        infected <= RATIO_LIMIT,
        recovered <= RATIO_LIMIT,
    ensures
        means@.len() == 3,
        means@[0].0 == beta.num * dt.num * total_pressure,
        means@[0].1 == beta.den * dt.den,
        means@[1].0 == gamma.num * dt.num * infected,
        means@[1].1 == gamma.den * dt.den,
        waning matches Some(o) ==> means@[2].0 == o.num * dt.num * recovered && means@[2].1
            == o.den * dt.den,
        waning is None ==> means@[2].0 == 0 && means@[2].1 == 1,
        forall|i: int| 0 <= i < 3 ==> (#[trigger] means@[i]).1 >= 1,
        beta.num == 0 ==> means@[0].0 == 0,
        gamma.num == 0 ==> means@[1].0 == 0,
        waning matches Some(o) ==> (o.num == 0 ==> means@[2].0 == 0),
{
    proof {
        let l = RATIO_LIMIT as int;
        let big = 0x1_0000_0000_0000_0000_0000_0000_0000_0000int;
        assert(l * l < 0x1_0000_0000_0000_0000int) by (nonlinear_arith)
            requires
                l == 0xFFFF_FFFFint,
        ;
        assert(0 <= (beta.num as int) * (dt.num as int) <= l * l) by (nonlinear_arith)
            requires
                0 <= beta.num <= l && 0 <= dt.num <= l,
        ;
        assert(((beta.num as int) * (dt.num as int)) * (total_pressure as int) < big)
            by (nonlinear_arith)
            requires
                0 <= (beta.num as int) * (dt.num as int) <= l * l && 0 <= total_pressure <= l * l
                    && l == 0xFFFF_FFFFint && big
                    == 0x1_0000_0000_0000_0000_0000_0000_0000_0000int,
        ;
        assert(1 <= (beta.den as int) * (dt.den as int) <= l * l) by (nonlinear_arith)
            requires
                1 <= beta.den <= l && 1 <= dt.den <= l,
        ;
        assert(0 <= (gamma.num as int) * (dt.num as int) <= l * l) by (nonlinear_arith)
            requires
                0 <= gamma.num <= l && 0 <= dt.num <= l,
        ;
        assert(((gamma.num as int) * (dt.num as int)) * (infected as int) < big)
            by (nonlinear_arith)
            requires
                0 <= (gamma.num as int) * (dt.num as int) <= l * l && 0 <= infected <= l && l
                    == 0xFFFF_FFFFint && big == 0x1_0000_0000_0000_0000_0000_0000_0000_0000int,
        ;
        assert(1 <= (gamma.den as int) * (dt.den as int) <= l * l) by (nonlinear_arith)
            requires
                1 <= gamma.den <= l && 1 <= dt.den <= l,
        ;
        if beta.num == 0 {
            assert((beta.num as int) * (dt.num as int) * (total_pressure as int) == 0)
                by (nonlinear_arith)
                requires
                    beta.num == 0,
            ;
        }
        if gamma.num == 0 {
            assert((gamma.num as int) * (dt.num as int) * (infected as int) == 0)
                by (nonlinear_arith)
                requires
                    gamma.num == 0,
            ;
        }
    }
    let mean_inf_num: u128 = (beta.num as u128) * (dt.num as u128) * total_pressure;
    let mean_inf_den: u128 = (beta.den as u128) * (dt.den as u128);
    let mean_rec_num: u128 = (gamma.num as u128) * (dt.num as u128) * (infected as u128);
    let mean_rec_den: u128 = (gamma.den as u128) * (dt.den as u128);
    let mut means: Vec<(u128, u128)> = Vec::new();
    means.push((mean_inf_num, mean_inf_den));
    means.push((mean_rec_num, mean_rec_den));
    match waning {
        Some(omega) => {
            proof {
                let l = RATIO_LIMIT as int;
                let big = 0x1_0000_0000_0000_0000_0000_0000_0000_0000int;
                assert(l * l < 0x1_0000_0000_0000_0000int) by (nonlinear_arith)
                    requires
                        l == 0xFFFF_FFFFint,
                ;
                assert(0 <= (omega.num as int) * (dt.num as int) <= l * l) by (nonlinear_arith)
                    requires
                        0 <= omega.num <= l && 0 <= dt.num <= l,
                ;
                assert(((omega.num as int) * (dt.num as int)) * (recovered as int) < big)
                    by (nonlinear_arith)
                    requires
                        0 <= (omega.num as int) * (dt.num as int) <= l * l && 0 <= recovered <= l
                            && l == 0xFFFF_FFFFint && big
                            == 0x1_0000_0000_0000_0000_0000_0000_0000_0000int,
                ;
                assert(1 <= (omega.den as int) * (dt.den as int) <= l * l) by (nonlinear_arith)
                    requires
                        1 <= omega.den <= l && 1 <= dt.den <= l,
                ;
                if omega.num == 0 {
                    assert((omega.num as int) * (dt.num as int) * (recovered as int) == 0)
                        by (nonlinear_arith)
                        requires
                            omega.num == 0,
                    ;
                }
            }
            let mean_wan_num: u128 = (omega.num as u128) * (dt.num as u128) * (recovered as u128);
            let mean_wan_den: u128 = (omega.den as u128) * (dt.den as u128);
            means.push((mean_wan_num, mean_wan_den));
        },
        None => {
            means.push((0, 1));
        },
    }
    means
}

/// Advances one tau-leap of length `dt`: computes the aggregate infection,
/// recovery and (for SIRS) waning rates, draws Poisson event counts with
/// means `rate * dt`, applies them with clamping, and appends the new
/// compartment snapshot to the history.
///
/// With all rate numerators zero, the population is left exactly as it was:
/// zero-rate channels never even reach the sampler.
#[verifier::rlimit(60)]
pub fn step_tau_leap<S: UniformSource, P: PoissonSampler>(
    network: &NetworkStructure,
    props: &mut NetworkProperties,
    dt: Ratio,
    src: &mut S,
    sampler: &mut P,
)
    requires
        network.wf(),
        network.spec_n() <= RATIO_LIMIT,
        old(props).wf(network.spec_n()),
        old(props).outbreak_type is SIR || old(props).outbreak_type is SIRS,
        dt.wf(),
        dt.bounded(),
        kind_count(old(props).nodal_states@, Kind::E) == 0,
    ensures
        final(props).wf(network.spec_n()),
        final(props).nodal_states@.len() == old(props).nodal_states@.len(),
        kind_count(final(props).nodal_states@, Kind::E) == 0,
        final(props).results@.len() == old(props).results@.len() + 1,
        final(props).results@.drop_last() == old(props).results@,
        ({
            let row = final(props).results@.last()@;
            let s1 = final(props).nodal_states@;
            &&& row.len() == 4
            &&& row[0] == kind_count(s1, Kind::S)
            &&& row[1] == kind_count(s1, Kind::E)
            &&& row[2] == kind_count(s1, Kind::I)
            &&& row[3] == kind_count(s1, Kind::R)
            &&& row[0] + row[1] + row[2] + row[3] == network.spec_n()
        }),
        ({
            let p0 = old(props).parameters@;
            p0[0].num == 0 && p0[1].num == 0 && (old(props).outbreak_type is SIRS ==> p0[2].num
                == 0) ==> final(props).nodal_states@ == old(props).nodal_states@
        }),
        exists|ni: int, nr: int, nw: int| #[trigger]
            tau_step_deltas(
                *network,
                old(props).nodal_states@,
                final(props).nodal_states@,
                old(props).outbreak_type is SIRS,
                ni,
                nr,
                nw,
            ),
        final(props).result_type == old(props).result_type,
        final(props).outbreak_type == old(props).outbreak_type,
        final(props).parameters == old(props).parameters,
        final(props).secondary_cases == old(props).secondary_cases,
{
    let nn = network.n();
    let (sus, inf, rec) = partition_compartments(props);
    let pressure = calculate_rates(network, props, &sus);

    // Total infection pressure over all susceptibles, exactly.
    proof {
        lemma_count_match_prefix_bounds(
            props.nodal_states@,
            kind_pred(Kind::S),
            props.nodal_states@.len() as int,
        );
    }
    let mut total: u128 = 0;
    let m = pressure.len();
    for t in 0..m
        invariant
            m == pressure@.len(),
            nn == network.spec_n(),
            nn <= RATIO_LIMIT,
            forall|u: int| 0 <= u < m ==> (#[trigger] pressure@[u]) <= nn,
            m <= nn,
            total == sum_prefix(pressure@, t as int),
            total <= t * (nn as int),
    {
        proof {
            assert((t + 1) * (nn as int) == t * (nn as int) + nn) by (nonlinear_arith);
            assert(t * (nn as int) <= RATIO_LIMIT * RATIO_LIMIT) by (nonlinear_arith)
                requires
                    0 <= t <= RATIO_LIMIT && 0 <= nn <= RATIO_LIMIT,
            ;
        }
        total = total + (pressure[t] as u128);
    }
    proof {
        assert((nn as int) * (nn as int) <= RATIO_LIMIT * RATIO_LIMIT) by (nonlinear_arith)
            requires
                0 <= nn <= RATIO_LIMIT,
        ;
    }

    let beta = props.parameters[0];
    let gamma = props.parameters[1];
    let inf_count = inf.len();
    let rec_count = rec.len();
    proof {
        lemma_count_match_prefix_bounds(
            props.nodal_states@,
            kind_pred(Kind::I),
            props.nodal_states@.len() as int,
        );
        lemma_count_match_prefix_bounds(
            props.nodal_states@,
            kind_pred(Kind::R),
            props.nodal_states@.len() as int,
        );
        assert(total <= (nn as int) * (nn as int)) by (nonlinear_arith)
            requires
                total <= m * (nn as int) && 0 <= m <= nn,
        ;
        assert(total <= RATIO_LIMIT * RATIO_LIMIT) by (nonlinear_arith)
            requires
                total <= (nn as int) * (nn as int) && 0 <= nn <= RATIO_LIMIT,
        ;
        assert(inf_count <= nn && rec_count <= nn);
    }
    let is_sirs = match props.outbreak_type {
        OutbreakType::SIRS => true,
        _ => false,
    };
    let waning: Option<Ratio> = if is_sirs {
        Some(props.parameters[2])
    } else {
        None
    };
    let means = compute_means(beta, gamma, waning, dt, total, inf_count, rec_count);
    let draws = poisson_rvs(&means, sampler);
    let ghost s0v = props.nodal_states@;
    update_compartments(props, &draws, &sus, &inf, &rec, &pressure, src);
    let row = props.count_states();
    props.results.push(row);
    proof {
        assert(final(props).results@.drop_last() =~= old(props).results@);
        let p0 = old(props).parameters@;
        if p0[0].num == 0 && p0[1].num == 0 && (old(props).outbreak_type is SIRS ==> p0[2].num
            == 0) {
            assert(means@[0].0 == 0 && means@[1].0 == 0 && means@[2].0 == 0);
            assert(draws@[0] == 0 && draws@[1] == 0 && draws@[2] == 0);
            assert(props.nodal_states@ == old(props).nodal_states@);
        }
        // The step is one clamped delta triple over the old population.
        let s1v = props.nodal_states@;
        let ni = min(draws@[0] as int, count_positive(pressure@));
        let nr = min(draws@[1] as int, kind_count(s0v, Kind::I) + ni);
        let nw = if old(props).outbreak_type is SIRS {
            min(draws@[2] as int, kind_count(s0v, Kind::R) + nr)
        } else {
            0int
        };
        lemma_count_pos_prefix_bounds(pressure@, pressure@.len() as int);
        lemma_pressured_list_bound(*network, s0v, sus@, pressure@, pressure@.len() as int);
        if pressure@.len() == 0 {
            lemma_count_pressured_monotone(*network, s0v, 0, s0v.len() as int);
        } else {
            lemma_count_pressured_monotone(
                *network,
                s0v,
                sus@[pressure@.len() - 1] + 1,
                s0v.len() as int,
            );
        }
        assert(ni <= count_pressured(*network, s0v, s0v.len() as int));
        assert(tau_step_deltas(
            *network,
            s0v,
            s1v,
            old(props).outbreak_type is SIRS,
            ni,
            nr,
            nw,
        ));
    }
}

/// Runs a tau-leaping realization to extinction or through `steps` leaps of
/// length `dt`, after seeding `initially_infected` of the population, and
/// folds the history into the requested result shape.
///
/// Every row of the produced history carries the four compartment counts
/// and sums to the population size: no individual is created or destroyed.
pub fn run_tau_leap<S: UniformSource, P: PoissonSampler>(
    network: &NetworkStructure,
    props: &mut NetworkProperties,
    steps: usize,
    dt: Ratio,
    initially_infected: Ratio,
    src: &mut S,
    sampler: &mut P,
) -> (out: Output)
    requires
        network.wf(),
        network.spec_n() <= RATIO_LIMIT,
        old(props).wf(network.spec_n()),
        old(props).outbreak_type is SIR || old(props).outbreak_type is SIRS,
        old(props).results@.len() == 0,
        dt.wf(),
        dt.bounded(),
        initially_infected.wf(),
        initially_infected.bounded(),
        initially_infected.num <= initially_infected.den,
        forall|v: int|
            0 <= v < old(props).nodal_states@.len() ==> (#[trigger] old(props).nodal_states@[v])
                == State::Susceptible,
    ensures
        final(props).wf(network.spec_n()),
        1 <= final(props).results@.len() <= steps + 1,
        forall|r: int|
            0 <= r < final(props).results@.len() ==> ({
                let row = (#[trigger] final(props).results@[r])@;
                row.len() == 4 && row[0] + row[1] + row[2] + row[3] == network.spec_n()
            }),
        final(props).results@.len() == steps + 1 || (final(props).results@.last()@[1]
            + final(props).results@.last()@[2] == 0),
        final(props).result_type == old(props).result_type,
        final(props).result_type is SIR ==> out is Sir && out->Sir_0@.len()
            == final(props).results@.len() && (forall|r: int|
            0 <= r < final(props).results@.len() ==> (#[trigger] out->Sir_0@[r])@
                == final(props).results@[r]@),
        final(props).result_type is AvgInfections ==> out is AvgInfections
            && out->AvgInfections_0@.len() == 1 && out->AvgInfections_0@[0]@.len()
            == final(props).results@.len() && (forall|r: int|
            0 <= r < final(props).results@.len() ==> (#[trigger] out->AvgInfections_0@[0]@[r])
                == final(props).results@[r]@[2]),
        final(props).result_type is SecondaryCases ==> out is SecondaryCases
            && out->SecondaryCases_0@.len() == 1 && out->SecondaryCases_0@[0]@ == sec_filter(
            final(props).nodal_states@,
            final(props).secondary_cases@,
            final(props).nodal_states@.len() as int,
        ),
        // The first history row is the seeding snapshot.
        ({
            let n = network.spec_n();
            let k = round_frac(n, initially_infected.num as int, initially_infected.den as int);
            final(props).results@[0]@ =~= seq![(n - k) as usize, 0usize, k as usize, 0usize]
        }),
{
    let ghost n = network.spec_n();
    let ghost k0 = round_frac(n, initially_infected.num as int, initially_infected.den as int);
    props.initialize_infection(initially_infected, src);
    proof {
        assert(rows_wf(props.results@));
        assert(props.results@[0]@ =~= seq![(n - k0) as usize, 0usize, k0 as usize, 0usize]);
    }
    let mut i: usize = 0;
    while i < steps
        invariant_except_break
            i <= steps,
            network.wf(),
            n == network.spec_n(),
            n <= RATIO_LIMIT,
            k0 == round_frac(n, initially_infected.num as int, initially_infected.den as int),
            props.results@[0]@ =~= seq![(n - k0) as usize, 0usize, k0 as usize, 0usize],
            dt.wf(),
            dt.bounded(),
            props.wf(n),
            props.outbreak_type is SIR || props.outbreak_type is SIRS,
            kind_count(props.nodal_states@, Kind::E) == 0,
            props.results@.len() == i + 1,
            forall|r: int|
                0 <= r < props.results@.len() ==> ({
                    let row = (#[trigger] props.results@[r])@;
                    row.len() == 4 && row[0] + row[1] + row[2] + row[3] == n
                }),
            props.result_type == old(props).result_type,
            props.secondary_cases == old(props).secondary_cases,
            props.nodal_states@.len() == n,
        ensures
            props.wf(n),
            1 <= props.results@.len() <= steps + 1,
            props.results@[0]@ =~= seq![(n - k0) as usize, 0usize, k0 as usize, 0usize],
            forall|r: int|
                0 <= r < props.results@.len() ==> ({
                    let row = (#[trigger] props.results@[r])@;
                    row.len() == 4 && row[0] + row[1] + row[2] + row[3] == n
                }),
            props.results@.len() == steps + 1 || props.results@.last()@[1]
                + props.results@.last()@[2] == 0,
            props.result_type == old(props).result_type,
            props.secondary_cases@.len() == props.nodal_states@.len(),
        decreases steps - i,
    {
        step_tau_leap(network, props, dt, src, sampler);
        i = i + 1;
        proof {
            assert forall|r: int| 0 <= r < props.results@.len() implies ({
                let row = (#[trigger] props.results@[r])@;
                row.len() == 4 && row[0] + row[1] + row[2] + row[3] == n
            }) by {
                if r < props.results@.len() - 1 {
                    assert(props.results@[r] == props.results@.drop_last()[r]);
                } else {
                    assert(props.results@[r] == props.results@.last());
                }
            }
            assert(props.results@[0] == props.results@.drop_last()[0]);
        }
        let last = props.results.len() - 1;
        let e_count = props.results[last][1];
        let i_count = props.results[last][2];
        if e_count + i_count == 0 {
            break ;
        }
    }
    Output::from_properties(props)
}

/// Runs `streams.len()` independent tau-leap realizations over one shared
/// network, each with its own randomness stream and sampler and a fresh
/// all-susceptible state, and collects one infected-count series per
/// realization: exactly one entry per replicate.
pub fn run_tau_ensemble<S: UniformSource, P: PoissonSampler>(
    network: &NetworkStructure,
    props: &NetworkProperties,
    steps: usize,
    dt: Ratio,
    initially_infected: Ratio,
    streams: &mut Vec<S>,
    samplers: &mut Vec<P>,
) -> (out: Output)
    requires
        network.wf(),
        network.spec_n() <= RATIO_LIMIT,
        props.wf(network.spec_n()),
        props.outbreak_type is SIR || props.outbreak_type is SIRS,
        props.result_type is AvgInfections,
        old(streams)@.len() == old(samplers)@.len(),
        dt.wf(),
        dt.bounded(),
        initially_infected.wf(),
        initially_infected.bounded(),
        initially_infected.num <= initially_infected.den,
    ensures
        out is AvgInfections,
        out->AvgInfections_0@.len() == old(streams)@.len(),
        forall|r: int|
            0 <= r < old(streams)@.len() ==> 1 <= (#[trigger] out->AvgInfections_0@[r])@.len()
                <= steps + 1,
        // Every series starts at the seeded infected count and never
        // exceeds the population.
        forall|r: int|
            0 <= r < old(streams)@.len() ==> (#[trigger] out->AvgInfections_0@[r])@[0]
                == round_frac(
                network.spec_n(),
                initially_infected.num as int,
                initially_infected.den as int,
            ),
        forall|r: int, e: int|
            0 <= r < old(streams)@.len() && 0 <= e < out->AvgInfections_0@[r]@.len()
                ==> (#[trigger] out->AvgInfections_0@[r]@[e]) <= network.spec_n(),
{
    let k = streams.len();
    let mut collected: Vec<Vec<usize>> = Vec::new();
    for r in 0..k
        invariant
            forall|u: int|
                0 <= u < collected@.len() ==> 1 <= (#[trigger] collected@[u])@.len() <= steps
                    + 1,
            network.wf(),
            network.spec_n() <= RATIO_LIMIT,
            props.wf(network.spec_n()),
            props.outbreak_type is SIR || props.outbreak_type is SIRS,
            props.result_type is AvgInfections,
            streams@.len() == k,
            samplers@.len() == k,
            dt.wf(),
            dt.bounded(),
            initially_infected.wf(),
            initially_infected.bounded(),
            initially_infected.num <= initially_infected.den,
            collected@.len() == r,
            forall|u: int|
                0 <= u < collected@.len() ==> (#[trigger] collected@[u])@[0] == round_frac(
                    network.spec_n(),
                    initially_infected.num as int,
                    initially_infected.den as int,
                ),
            forall|u: int, e: int|
                0 <= u < collected@.len() && 0 <= e < collected@[u]@.len()
                    ==> (#[trigger] collected@[u]@[e]) <= network.spec_n(),
    {
        let mut fresh = NetworkProperties::new(network);
        fresh.result_type = props.result_type;
        fresh.outbreak_type = props.outbreak_type;
        let mut params: Vec<Ratio> = Vec::new();
        for t in 0..props.parameters.len()
            invariant
                params@.len() == t,
                forall|u: int| 0 <= u < t ==> (#[trigger] params@[u]) == props.parameters@[u],
        {
            params.push(props.parameters[t]);
        }
        proof {
            assert(params@ =~= props.parameters@);
        }
        fresh.parameters = params;
        let src_r = &mut streams[r];
        let sampler_r = &mut samplers[r];
        let out_r = run_tau_leap(network, &mut fresh, steps, dt, initially_infected, src_r, sampler_r);
        proof {
            // The collected series is the infected column of this
            // realization's history: it opens at the seeded count and every
            // entry sits inside a row that sums to the population.
            let res = fresh.results@;
            let kk = round_frac(
                network.spec_n(),
                initially_infected.num as int,
                initially_infected.den as int,
            );
            lemma_round_frac_bounds(
                network.spec_n(),
                initially_infected.num as int,
                initially_infected.den as int,
            );
            let sq = seq![
                (network.spec_n() - kk) as usize,
                0usize,
                kk as usize,
                0usize,
            ];
            assert(out_r->AvgInfections_0@[0]@[0] == res[0]@[2]);
            assert(res[0]@ == sq);
            assert(sq[2] == kk as usize);
            assert(res[0]@[2] == kk);
            assert forall|e: int|
                0 <= e < out_r->AvgInfections_0@[0]@.len() implies (
            #[trigger] out_r->AvgInfections_0@[0]@[e]) <= network.spec_n() by {
                assert(out_r->AvgInfections_0@[0]@[e] == res[e]@[2]);
                assert(res[e]@[0] + res[e]@[1] + res[e]@[2] + res[e]@[3] == network.spec_n());
            }
        }
        match out_r {
            Output::AvgInfections(mut rows) => {
                let series = rows.pop();
                match series {
                    Some(row) => {
                        collected.push(row);
                    },
                    None => {
                        proof {
                            assert(false);
                        }
                    },
                }
            },
            _ => {
                proof {
                    assert(false);
                }
            },
        }
    }
    Output::AvgInfections(collected)
}

} // verus!
