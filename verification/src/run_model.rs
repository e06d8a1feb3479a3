//! The daily per-contact epidemic engine: compartments carry dwell-day
//! counters, exposure happens through an independent Bernoulli draw per
//! infected-susceptible contact, the infectious period is drawn from a
//! Poisson distribution on becoming infectious, and secondary cases are
//! attributed to the infecting node.
//!
//! Each step builds the next compartment vector from scratch and installs it
//! wholesale, so no step ever reads its own writes.

use vstd::prelude::*;
use crate::random_graphs::kind_of;
use crate::random_graphs::Kind;
use crate::random_graphs::NetworkProperties;
use crate::random_graphs::NetworkStructure;
use crate::random_graphs::Output;
use crate::random_graphs::OutbreakType;
use crate::random_graphs::State;
use crate::random_graphs::edge_in;
use crate::random_graphs::round_frac;
use crate::random_graphs::rows_wf;
use crate::random_graphs::sec_filter;
use crate::sampling::bernoulli;
use crate::sampling::PoissonSampler;
use crate::sampling::UniformSource;
use crate::seq_math::lemma_count_match_prefix_contains;
use crate::tau_leap::inf_neighbor_pred;
use crate::tau_leap::pressure_of;
use crate::useful_functions::Ratio;
use crate::useful_functions::RATIO_LIMIT;

verus! {

/// The dwell-counter bookkeeping of one node over one day, for nodes that
/// are not susceptible: exposed nodes incubate for `sigma_t` days and then
/// turn infectious, infected nodes count their drawn infectious days down to
/// removal, and recovered nodes either hold immunity for `omega_t` days
/// (with waning kinds) and revert, or stay removed for good.
pub open spec fn daily_deterministic_ok(
    cur: State,
    next: State,
    sigma_t: int,
    omega_t: int,
    kind: OutbreakType,
) -> bool {
    match cur {
        State::Susceptible => true,
        State::Exposed(d) => if d > sigma_t {
            next is Infected
        } else {
            next == State::Exposed((d + 1) as usize)
        },
        State::Infected(d) => if d == 0 {
            next == State::Recovered(0)
        } else {
            next == State::Infected((d - 1) as usize)
        },
        State::Recovered(d) => if kind is SEIRS {
            if d < omega_t {
                next == State::Recovered((d + 1) as usize)
            } else {
                next == State::Susceptible
            }
        } else {
            next == State::Recovered(d)
        },
    }
}

/// Advances the population by one day.
///
/// Susceptible nodes are exposed only through an actual infected neighbor
/// and only when the transmission probability is positive; all other
/// transitions follow the dwell counters exactly. Secondary-case counters
/// never decrease, and only infectious nodes earn credit.
#[verifier::rlimit(60)]
pub fn step_model<S: UniformSource, P: PoissonSampler>(
    network: &NetworkStructure,
    props: &mut NetworkProperties,
    src: &mut S,
    sampler: &mut P,
)
    requires
        network.wf(),
        old(props).wf(network.spec_n()),
        old(props).outbreak_type is SEIR || old(props).outbreak_type is SEIRS,
        old(props).parameters@[1].num / old(props).parameters@[1].den < usize::MAX,
        old(props).parameters@[3].num / old(props).parameters@[3].den < usize::MAX,
    ensures
        final(props).wf(network.spec_n()),
        final(props).nodal_states@.len() == old(props).nodal_states@.len(),
        final(props).results@.len() == old(props).results@.len() + 1,
        final(props).results@.drop_last() == old(props).results@,
        ({
            let row = final(props).results@.last()@;
            row.len() == 4 && row[0] + row[1] + row[2] + row[3] == network.spec_n()
        }),
        ({
            let s0 = old(props).nodal_states@;
            let s1 = final(props).nodal_states@;
            let beta = old(props).parameters@[0];
            let sigma_t = old(props).parameters@[1].num / old(props).parameters@[1].den;
            let omega_t = old(props).parameters@[3].num / old(props).parameters@[3].den;
            &&& forall|v: int|
                0 <= v < s0.len() && kind_of(#[trigger] s0[v]) == Kind::S ==> (s1[v]
                    == State::Susceptible || (s1[v] == State::Exposed(0) && pressure_of(
                    *network,
                    s0,
                    v as usize,
                ) > 0 && beta.num > 0))
            &&& forall|v: int|
                0 <= v < s0.len() && kind_of(#[trigger] s0[v]) != Kind::S
                    ==> daily_deterministic_ok(
                    s0[v],
                    s1[v],
                    sigma_t as int,
                    omega_t as int,
                    old(props).outbreak_type,
                )
        }),
        secondary_ok(
            final(props).secondary_cases@,
            old(props).secondary_cases@,
            old(props).nodal_states@,
        ),
        final(props).result_type == old(props).result_type,
        final(props).outbreak_type == old(props).outbreak_type,
        final(props).parameters == old(props).parameters,
{
    let ghost s0 = props.nodal_states@;
    let n = props.nodal_states.len();
    let beta = props.parameters[0];
    let sigma_t = (props.parameters[1].num / props.parameters[1].den) as usize;
    let omega_t = (props.parameters[3].num / props.parameters[3].den) as usize;
    let gamma = props.parameters[2];
    let is_seirs = match props.outbreak_type {
        OutbreakType::SEIRS => true,
        _ => false,
    };

    let mut next: Vec<State> = Vec::new();
    for v in 0..n
        invariant
            next@.len() == v,
            forall|t: int| 0 <= t < v ==> (#[trigger] next@[t]) == State::Susceptible,
    {
        next.push(State::Susceptible);
    }

    for v in 0..n
        invariant
            n == s0.len(),
            n == props.nodal_states@.len(),
            props.nodal_states@ == s0,
            network.wf(),
            network.spec_n() == n,
            props.parameters@.len() == 4,
            beta == props.parameters@[0],
            gamma == props.parameters@[2],
            gamma.wf(),
            beta.wf(),
            is_seirs == (props.outbreak_type is SEIRS),
            props.outbreak_type is SEIR || props.outbreak_type is SEIRS,
            sigma_t == props.parameters@[1].num / props.parameters@[1].den,
            omega_t == props.parameters@[3].num / props.parameters@[3].den,
            sigma_t < usize::MAX,
            omega_t < usize::MAX,
            next@.len() == n,
            props.secondary_cases@.len() == n,
            secondary_ok(props.secondary_cases@, old(props).secondary_cases@, s0),
            forall|u: int|
                0 <= u < n && kind_of(#[trigger] s0[u]) == Kind::S ==> (next@[u]
                    == State::Susceptible || (next@[u] == State::Exposed(0) && pressure_of(
                    *network,
                    s0,
                    u as usize,
                ) > 0 && beta.num > 0)),
            forall|u: int|
                0 <= u < v && kind_of(#[trigger] s0[u]) != Kind::S ==> daily_deterministic_ok(
                    s0[u],
                    next@[u],
                    sigma_t as int,
                    omega_t as int,
                    props.outbreak_type,
                ),
            forall|u: int|
                v <= u < n && kind_of(#[trigger] s0[u]) != Kind::S ==> next@[u]
                    == State::Susceptible,
            props.results == old(props).results,
            props.result_type == old(props).result_type,
            props.outbreak_type == old(props).outbreak_type,
            props.parameters == old(props).parameters,
    {
        match props.nodal_states[v] {
            State::Susceptible => {},
            State::Exposed(days) => {
                if days > sigma_t {
                    let fresh = sampler.poisson_events(gamma.num as u128, gamma.den as u128);
                    next[v] = State::Infected(fresh);
                } else {
                    next[v] = State::Exposed(days + 1);
                }
            },
            State::Infected(days) => {
                if days == 0 {
                    next[v] = State::Recovered(0);
                } else {
                    next[v] = State::Infected(days - 1);
                }
                // Per-contact transmission to susceptible neighbors.
                let ghost next_pre = next@;
                let row_len = network.adjacency_matrix[v].len();
                for j in 0..row_len
                    invariant
                        n == s0.len(),
                        n == props.nodal_states@.len(),
                        props.nodal_states@ == s0,
                        network.wf(),
                        network.spec_n() == n,
                        v < n,
                        kind_of(s0[v as int]) == Kind::I,
                        beta.wf(),
                        row_len == network.adjacency_matrix@[v as int]@.len(),
                        next@.len() == n,
                        next_pre.len() == n,
                        props.secondary_cases@.len() == n,
                        secondary_ok(props.secondary_cases@, old(props).secondary_cases@, s0),
                        forall|u: int|
                            0 <= u < n && kind_of(#[trigger] s0[u]) == Kind::S ==> (next@[u]
                                == State::Susceptible || (next@[u] == State::Exposed(0)
                                && pressure_of(*network, s0, u as usize) > 0 && beta.num > 0)),
                        forall|u: int|
                            0 <= u < n && kind_of(#[trigger] s0[u]) != Kind::S ==> next@[u]
                                == next_pre[u],
                        props.results == old(props).results,
                        props.result_type == old(props).result_type,
                        props.outbreak_type == old(props).outbreak_type,
                        props.parameters == old(props).parameters,
                {
                    let target = network.adjacency_matrix[v][j];
                    proof {
                        assert(target < n);
                    }
                    match props.nodal_states[target] {
                        State::Susceptible => {
                            if bernoulli(src, beta) {
                                proof {
                                    // The target really is under pressure:
                                    // v sits in its row by symmetry.
                                    assert(network.adjacency_matrix@[v as int]@[j as int]
                                        == target);
                                    assert(edge_in(network.adjacency_matrix, v, target));
                                    assert(edge_in(network.adjacency_matrix, target, v));
                                    let trow = network.adjacency_matrix@[target as int]@;
                                    let i = choose|i: int|
                                        0 <= i < trow.len() && trow[i] == (v as usize);
                                    assert(inf_neighbor_pred(s0)(trow[i]));
                                    lemma_count_match_prefix_contains(
                                        trow,
                                        inf_neighbor_pred(s0),
                                        trow.len() as int,
                                        i,
                                    );
                                }
                                next[target] = State::Exposed(0);
                                let credit = props.secondary_cases[v];
                                if credit < usize::MAX {
                                    props.secondary_cases[v] = credit + 1;
                                }
                            }
                        },
                        _ => {},
                    }
                }
            },
            State::Recovered(days) => {
                if is_seirs {
                    if days < omega_t {
                        next[v] = State::Recovered(days + 1);
                    }
                } else {
                    next[v] = State::Recovered(days);
                }
            },
        }
    }
    props.nodal_states = next;
    let row = props.count_states();
    props.results.push(row);
    proof {
        assert(final(props).results@.drop_last() =~= old(props).results@);
    }
}

/// Runs the daily per-contact engine until extinction (no exposed or
/// infected nodes remain) or through `maxtime` days, after seeding
/// `initially_infected` of the population, and folds the history into the
/// requested result shape. Every history row sums to the population size.
pub fn run_model<S: UniformSource, P: PoissonSampler>(
    network: &NetworkStructure,
    props: &mut NetworkProperties,
    maxtime: usize,
    initially_infected: Ratio,
    src: &mut S,
    sampler: &mut P,
) -> (out: Output)
    requires
        network.wf(),
        network.spec_n() <= RATIO_LIMIT,
        old(props).wf(network.spec_n()),
        old(props).outbreak_type is SEIR || old(props).outbreak_type is SEIRS,
        old(props).results@.len() == 0,
        old(props).parameters@[1].num / old(props).parameters@[1].den < usize::MAX,
        old(props).parameters@[3].num / old(props).parameters@[3].den < usize::MAX,
        initially_infected.wf(),
        initially_infected.bounded(),
        initially_infected.num <= initially_infected.den,
        forall|v: int|
            0 <= v < old(props).nodal_states@.len() ==> (#[trigger] old(props).nodal_states@[v])
                == State::Susceptible,
    ensures
        final(props).wf(network.spec_n()),
        1 <= final(props).results@.len() <= maxtime + 1,
        forall|r: int|
            0 <= r < final(props).results@.len() ==> ({
                let row = (#[trigger] final(props).results@[r])@;
                row.len() == 4 && row[0] + row[1] + row[2] + row[3] == network.spec_n()
            }),
        final(props).results@.len() == maxtime + 1 || (final(props).results@.last()@[1]
            + final(props).results@.last()@[2] == 0),
        final(props).result_type == old(props).result_type,
        final(props).result_type is SIR ==> out is Sir && out->Sir_0@.len()
            == final(props).results@.len() && (forall|r: int|
            0 <= r < final(props).results@.len() ==> (#[trigger] out->Sir_0@[r])@
                == final(props).results@[r]@),
        final(props).result_type is AvgInfections ==> out is AvgInfections
            && out->AvgInfections_0@.len() == 1 && out->AvgInfections_0@[0]@.len()
            == final(props).results@.len() && (forall|r: int|
            0 <= r < final(props).results@.len() ==> (#[trigger] out->AvgInfections_0@[0]@[r])
                == final(props).results@[r]@[2]),
        final(props).result_type is SecondaryCases ==> out is SecondaryCases
            && out->SecondaryCases_0@.len() == 1 && out->SecondaryCases_0@[0]@ == sec_filter(
            final(props).nodal_states@,
            final(props).secondary_cases@,
            final(props).nodal_states@.len() as int,
        ),
        // The first history row is the seeding snapshot.
        ({
            let n = network.spec_n();
            let k = round_frac(n, initially_infected.num as int, initially_infected.den as int);
            final(props).results@[0]@ =~= seq![(n - k) as usize, 0usize, k as usize, 0usize]
        }),
{
    let ghost n = network.spec_n();
    let ghost k0 = round_frac(n, initially_infected.num as int, initially_infected.den as int);
    props.initialize_infection(initially_infected, src);
    proof {
        assert(rows_wf(props.results@));
        assert(props.results@[0]@ =~= seq![(n - k0) as usize, 0usize, k0 as usize, 0usize]);
    }
    let mut i: usize = 0;
    while i < maxtime
        invariant_except_break
            i <= maxtime,
            network.wf(),
            n == network.spec_n(),
            n <= RATIO_LIMIT,
            k0 == round_frac(n, initially_infected.num as int, initially_infected.den as int),
            props.results@[0]@ =~= seq![(n - k0) as usize, 0usize, k0 as usize, 0usize],
            props.wf(n),
            props.outbreak_type is SEIR || props.outbreak_type is SEIRS,
            props.parameters@[1].num / props.parameters@[1].den < usize::MAX,
            props.parameters@[3].num / props.parameters@[3].den < usize::MAX,
            props.results@.len() == i + 1,
            forall|r: int|
                0 <= r < props.results@.len() ==> ({
                    let row = (#[trigger] props.results@[r])@;
                    row.len() == 4 && row[0] + row[1] + row[2] + row[3] == n
                }),
            props.result_type == old(props).result_type,
            props.nodal_states@.len() == n,
        ensures
            props.wf(n),
            1 <= props.results@.len() <= maxtime + 1,
            props.results@[0]@ =~= seq![(n - k0) as usize, 0usize, k0 as usize, 0usize],
            forall|r: int|
                0 <= r < props.results@.len() ==> ({
                    let row = (#[trigger] props.results@[r])@;
                    row.len() == 4 && row[0] + row[1] + row[2] + row[3] == n
                }),
            props.results@.len() == maxtime + 1 || (props.results@.last()@[1]
                + props.results@.last()@[2] == 0),
            props.result_type == old(props).result_type,
            props.secondary_cases@.len() == props.nodal_states@.len(),
        decreases maxtime - i,
    {
        step_model(network, props, src, sampler);
        i = i + 1;
        proof {
            assert forall|r: int| 0 <= r < props.results@.len() implies ({
                let row = (#[trigger] props.results@[r])@;
                row.len() == 4 && row[0] + row[1] + row[2] + row[3] == n
            }) by {
                if r < props.results@.len() - 1 {
                    assert(props.results@[r] == props.results@.drop_last()[r]);
                } else {
                    assert(props.results@[r] == props.results@.last());
                }
            }
            assert(props.results@[0] == props.results@.drop_last()[0]);
        }
        let last = props.results.len() - 1;
        let e_count = props.results[last][1];
        let i_count = props.results[last][2];
        if e_count + i_count == 0 {
            break ;
        }
    }
    Output::from_properties(props)
}

/// Secondary-case counters never decrease, and only infectious nodes'
/// counters move.
pub open spec fn secondary_ok(cur: Seq<usize>, orig: Seq<usize>, s0: Seq<State>) -> bool {
    &&& cur.len() == orig.len()
    &&& forall|v: int| 0 <= v < orig.len() ==> (#[trigger] cur[v]) >= orig[v]
    &&& forall|v: int|
        0 <= v < orig.len() && kind_of(s0[v]) != Kind::I ==> (#[trigger] cur[v]) == orig[v]
}

} // verus!
