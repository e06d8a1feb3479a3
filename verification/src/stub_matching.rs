//! Greedy stub matching for the configuration model: out-stubs of one block
//! are matched against in-stubs of another, never connecting a pair twice,
//! never allowing a self-loop, and never driving a residual stub count below
//! zero.

use vstd::prelude::*;
use crate::random_graphs::add_edge;
use crate::random_graphs::adj_wf;
use crate::random_graphs::deg_wf;
use crate::random_graphs::edge_in;
use crate::random_graphs::row_contains;
use crate::sampling::shuffle;
use crate::sampling::UniformSource;

verus! {

/// Target slot `t` can still take an edge from source `a`: it has a
/// remaining in-stub and no edge to `a` yet.
pub open spec fn stub_eligible(
    adj: Vec<Vec<usize>>,
    in_deg: Seq<usize>,
    a: usize,
    off_j: usize,
    t: int,
) -> bool {
    &&& 0 <= t < in_deg.len()
    &&& in_deg[t] > 0
    &&& !edge_in(adj, a, (off_j + t) as usize)
}

/// The greedy target selection for one source: exactly the first
/// `min(cap, #eligible)` eligible target slots, in slot order.
///
/// Every pick is eligible, picks are strictly increasing, and any eligible
/// slot that was not picked was passed over only because the cap was
/// already reached by smaller slots.
pub fn select_targets(
    adj: &Vec<Vec<usize>>,
    in_deg: &Vec<usize>,
    a: usize,
    cap: usize,
    off_j: usize,
) -> (picks: Vec<usize>)
    requires
        a < adj@.len(),
        off_j + in_deg@.len() <= adj@.len(),
    ensures
        picks@.len() <= cap,
        forall|c: int, d: int|
            0 <= c < d < picks@.len() ==> #[trigger] picks@[c] < #[trigger] picks@[d],
        forall|c: int|
            0 <= c < picks@.len() ==> stub_eligible(
                *adj,
                in_deg@,
                a,
                off_j,
                #[trigger] picks@[c] as int,
            ),
        forall|t: int|
            stub_eligible(*adj, in_deg@, a, off_j, t) ==> picks@.contains(t as usize) || (
            picks@.len() == cap && (cap == 0 || picks@[cap - 1] < t)),
{
    let nn = adj.len();
    let size_j = in_deg.len();
    let mut picks: Vec<usize> = Vec::new();
    for t in 0..size_j
        invariant
            nn == adj@.len(),
            a < nn,
            off_j + size_j <= nn,
            size_j == in_deg@.len(),
            picks@.len() <= cap,
            forall|c: int, d: int|
                0 <= c < d < picks@.len() ==> #[trigger] picks@[c] < #[trigger] picks@[d],
            forall|c: int|
                0 <= c < picks@.len() ==> (#[trigger] picks@[c]) < t && stub_eligible(
                    *adj,
                    in_deg@,
                    a,
                    off_j,
                    picks@[c] as int,
                ),
            forall|u: int|
                0 <= u < t && stub_eligible(*adj, in_deg@, a, off_j, u) ==> picks@.contains(
                    u as usize,
                ) || (picks@.len() == cap && (cap == 0 || picks@[cap - 1] < u)),
    {
        let ghost pre = picks@;
        if picks.len() < cap && in_deg[t] > 0 {
            let b = off_j + t;
            if !row_contains(&adj[a], b) {
                picks.push(t);
            }
        }
        proof {
            if picks@.len() != pre.len() {
                assert(picks@[picks@.len() - 1] == t);
            }
            assert forall|u: int|
                0 <= u < t + 1 && stub_eligible(*adj, in_deg@, a, off_j, u) implies picks@.contains(
                u as usize,
            ) || (picks@.len() == cap && (cap == 0 || picks@[cap - 1] < u)) by {
                if u < t {
                    if pre.contains(u as usize) {
                        let c = choose|c: int| 0 <= c < pre.len() && pre[c] == u as usize;
                        assert(picks@[c] == u as usize);
                    }
                } else {
                    if picks@.len() != pre.len() {
                        assert(picks@[picks@.len() - 1] == u as usize);
                    }
                }
            }
        }
    }
    picks
}

/// Matches the drawn out-degrees of the nodes `off_i .. off_i + size_i`
/// against the drawn in-degrees of the nodes `off_j .. off_j + size_j`,
/// returning the residual in-stub counts.
///
/// For each source node in turn, up to its out-degree many targets with
/// remaining in-stubs and no existing edge to the source are selected in
/// slot order (skipping the source itself when the blocks coincide),
/// shuffled, and connected; each new edge consumes one in-stub of its
/// target. No node ends up with more new edges than the stubs drawn for
/// it, across two blocks each target's degree gain is exactly its consumed
/// in-stubs, and a source stopped short of its out-degree only because
/// every target was exhausted or already its neighbor: leftover capacity
/// and leftover eligible stubs never coexist.
#[verifier::rlimit(100)]
pub fn match_stubs<S: UniformSource>(
    adj: &mut Vec<Vec<usize>>,
    degrees: &mut Vec<usize>,
    off_i: usize,
    size_i: usize,
    off_j: usize,
    size_j: usize,
    out_degree: &Vec<usize>,
    in_degree: Vec<usize>,
    same_block: bool,
    src: &mut S,
) -> (in_residual: Vec<usize>)
    requires
        adj_wf(*old(adj), old(adj)@.len() as int),
        deg_wf(*old(adj), *old(degrees)),
        off_i + size_i <= old(adj)@.len(),
        off_j + size_j <= old(adj)@.len(),
        out_degree@.len() == size_i,
        in_degree@.len() == size_j,
        same_block ==> off_i == off_j && size_i == size_j,
        !same_block ==> off_i + size_i <= off_j || off_j + size_j <= off_i,
    ensures
        adj_wf(*final(adj), old(adj)@.len() as int),
        deg_wf(*final(adj), *final(degrees)),
        final(adj)@.len() == old(adj)@.len(),
        final(degrees)@.len() == old(degrees)@.len(),
        in_residual@.len() == size_j,
        forall|t: int| 0 <= t < size_j ==> (#[trigger] in_residual@[t]) <= in_degree@[t],
        forall|x: usize, y: usize|
            #[trigger] edge_in(*final(adj), x, y) ==> edge_in(*old(adj), x, y) || ((off_i <= x
                < off_i + size_i && off_j <= y < off_j + size_j) || (off_j <= x < off_j + size_j
                && off_i <= y < off_i + size_i)),
        forall|v: int| 0 <= v < old(degrees)@.len() ==> (#[trigger] final(degrees)@[v]) >= old(
            degrees,
        )@[v],
        forall|v: int|
            0 <= v < old(degrees)@.len() && !(off_i <= v < off_i + size_i) && !(off_j <= v
                < off_j + size_j) ==> (#[trigger] final(degrees)@[v]) == old(degrees)@[v],
        forall|s: int|
            0 <= s < size_i ==> (#[trigger] final(degrees)@[off_i + s]) <= old(degrees)@[off_i
                + s] + out_degree@[s] + (if same_block {
                in_degree@[s] as int
            } else {
                0int
            }),
        forall|t: int|
            0 <= t < size_j ==> (#[trigger] final(degrees)@[off_j + t]) <= old(degrees)@[off_j
                + t] + in_degree@[t] + (if same_block {
                out_degree@[t] as int
            } else {
                0int
            }),
        // Across two blocks, a target's degree gain is exactly its consumed
        // in-stubs.
        !same_block ==> (forall|t: int|
            0 <= t < size_j ==> (#[trigger] final(degrees)@[off_j + t]) == old(degrees)@[off_j
                + t] + (in_degree@[t] - in_residual@[t])),
        // Saturation: a source that gained fewer edges than its out-degree
        // left no eligible target behind.
        forall|s: int, t: int|
            0 <= s < size_i && 0 <= t < size_j && (#[trigger] final(degrees)@[off_i + s]) - old(
                degrees,
            )@[off_i + s] < out_degree@[s] ==> (#[trigger] in_residual@[t]) == 0 || edge_in(
                *final(adj),
                (off_i + s) as usize,
                (off_j + t) as usize,
            ),
{
    let ghost n = old(adj)@.len() as int;
    let nn = adj.len();
    proof {
        assert(n == nn as int);
    }
    let ghost adj0 = *old(adj);
    let ghost deg0 = old(degrees)@;
    let ghost in_init = in_degree@;
    let mut in_deg = in_degree;
    for s in 0..size_i
        invariant
            n <= usize::MAX,
            adj_wf(*adj, n),
            deg_wf(*adj, *degrees),
            adj@.len() == n,
            degrees@.len() == n,
            off_i + size_i <= n,
            off_j + size_j <= n,
            out_degree@.len() == size_i,
            in_deg@.len() == size_j,
            in_init.len() == size_j,
            deg0.len() == n,
            same_block ==> off_i == off_j && size_i == size_j,
            !same_block ==> off_i + size_i <= off_j || off_j + size_j <= off_i,
            forall|x: usize, y: usize|
                #[trigger] edge_in(*adj, x, y) ==> edge_in(adj0, x, y) || ((off_i <= x < off_i
                    + size_i && off_j <= y < off_j + size_j) || (off_j <= x < off_j + size_j
                    && off_i <= y < off_i + size_i)),
            forall|v: int| 0 <= v < n ==> (#[trigger] degrees@[v]) >= deg0[v],
            forall|v: int|
                0 <= v < n && !(off_i <= v < off_i + size_i) && !(off_j <= v < off_j + size_j)
                    ==> (#[trigger] degrees@[v]) == deg0[v],
            forall|t: int| 0 <= t < size_j ==> (#[trigger] in_deg@[t]) <= in_init[t],
            forall|t: int|
                0 <= t < size_j ==> (#[trigger] degrees@[off_j + t]) <= deg0[off_j + t] + (
                in_init[t] - in_deg@[t]) + (if same_block && t < s {
                    out_degree@[t] as int
                } else {
                    0int
                }),
            !same_block ==> (forall|t: int|
                0 <= t < size_j ==> (#[trigger] degrees@[off_j + t]) == deg0[off_j + t] + (
                in_init[t] - in_deg@[t])),
            !same_block ==> (forall|u: int|
                s <= u < size_i ==> (#[trigger] degrees@[off_i + u]) == deg0[off_i + u]),
            !same_block ==> (forall|u: int|
                0 <= u < size_i && u < s ==> (#[trigger] degrees@[off_i + u]) <= deg0[off_i + u]
                    + out_degree@[u]),
            forall|u: int, t: int|
                0 <= u < s && 0 <= t < size_j && (#[trigger] degrees@[off_i + u]) - deg0[off_i
                    + u] < out_degree@[u] ==> (#[trigger] in_deg@[t]) == 0 || edge_in(
                    *adj,
                    (off_i + u) as usize,
                    (off_j + t) as usize,
                ),
    {
        let a = off_i + s;
        if same_block {
            // No self-loops: the source's own in-stubs are discarded.
            in_deg[s] = 0;
        }
        // Select the first eligible targets in slot order, up to the drawn
        // out-degree.
        let cap = out_degree[s];
        let mut connections = select_targets(adj, &in_deg, a, cap, off_j);
        let ghost adj_sel = *adj;
        let ghost conn_sel = connections@;
        proof {
            assert forall|c: int, d: int|
                0 <= c < conn_sel.len() && 0 <= d < conn_sel.len() && c != d implies conn_sel[c]
                != conn_sel[d] by {
                if c < d {
                    assert(conn_sel[c] < conn_sel[d]);
                } else {
                    assert(conn_sel[d] < conn_sel[c]);
                }
            }
            assert(conn_sel.no_duplicates());
        }
        shuffle(&mut connections, src);
        proof {
            assert forall|c: int| 0 <= c < connections@.len() implies (
            #[trigger] connections@[c]) < size_j && in_deg@[connections@[c] as int] > 0
                && !edge_in(*adj, a, (off_j + connections@[c]) as usize) by {
                let x = connections@[c];
                assert(connections@.contains(x));
                assert(conn_sel.contains(x));
                let d = choose|d: int| 0 <= d < conn_sel.len() && conn_sel[d] == x;
                assert(stub_eligible(adj_sel, in_deg@, a, off_j, x as int));
            }
        }
        // Connect the shuffled targets, consuming one in-stub each.
        let ghost deg_s = degrees@;
        let ghost in_s = in_deg@;
        let batch = connections.len();
        for c in 0..batch
            invariant
                n <= usize::MAX,
                adj_wf(*adj, n),
                deg_wf(*adj, *degrees),
                adj@.len() == n,
                degrees@.len() == n,
                deg0.len() == n,
                deg_s.len() == n,
                in_s.len() == size_j,
                in_init.len() == size_j,
                batch == connections@.len(),
                batch <= cap,
                cap == out_degree@[s as int],
                s < size_i,
                out_degree@.len() == size_i,
                a == off_i + s,
                a < n,
                off_i + size_i <= n,
                off_j + size_j <= n,
                same_block ==> off_i == off_j && size_i == size_j,
                !same_block ==> off_i + size_i <= off_j || off_j + size_j <= off_i,
                same_block ==> in_deg@[s as int] == 0 && in_s[s as int] == 0,
                connections@.no_duplicates(),
                in_deg@.len() == size_j,
                forall|d: int|
                    0 <= d < batch ==> (#[trigger] connections@[d]) < size_j
                        && in_s[connections@[d] as int] > 0,
                forall|t: int|
                    0 <= t < size_j && (forall|d: int| 0 <= d < c ==> connections@[d] != t)
                        ==> (#[trigger] in_deg@[t]) == in_s[t],
                forall|d: int|
                    0 <= d < c ==> in_deg@[#[trigger] connections@[d] as int]
                        == in_s[connections@[d] as int] - 1,
                forall|d: int|
                    c <= d < batch ==> !edge_in(
                        *adj,
                        a,
                        (off_j + #[trigger] connections@[d]) as usize,
                    ),
                forall|d: int|
                    0 <= d < c ==> edge_in(
                        *adj,
                        a,
                        (off_j + #[trigger] connections@[d]) as usize,
                    ),
                forall|x: usize, y: usize|
                    #[trigger] edge_in(adj_sel, x, y) ==> edge_in(*adj, x, y),
                degrees@[a as int] == deg_s[a as int] + c,
                forall|x: usize, y: usize|
                    #[trigger] edge_in(*adj, x, y) ==> edge_in(adj0, x, y) || ((off_i <= x
                        < off_i + size_i && off_j <= y < off_j + size_j) || (off_j <= x < off_j
                        + size_j && off_i <= y < off_i + size_i)),
                forall|v: int| 0 <= v < n ==> (#[trigger] degrees@[v]) >= deg0[v],
                forall|v: int| 0 <= v < n ==> (#[trigger] degrees@[v]) >= deg_s[v],
                forall|v: int|
                    0 <= v < n && !(off_i <= v < off_i + size_i) && !(off_j <= v < off_j
                        + size_j) ==> (#[trigger] degrees@[v]) == deg0[v],
                forall|t: int| 0 <= t < size_j ==> (#[trigger] in_deg@[t]) <= in_init[t],
                forall|t: int|
                    0 <= t < size_j && (same_block ==> t != s) ==> (#[trigger] degrees@[off_j
                        + t]) <= deg0[off_j + t] + (in_init[t] - in_deg@[t]) + (if same_block
                        && t < s {
                        out_degree@[t] as int
                    } else {
                        0int
                    }),
                !same_block ==> (forall|t: int|
                    0 <= t < size_j ==> (#[trigger] degrees@[off_j + t]) == deg0[off_j + t] + (
                    in_init[t] - in_deg@[t])),
                same_block ==> deg_s[a as int] <= deg0[a as int] + (in_init[s as int] - in_s[s as int])
                    + 0,
                !same_block ==> (forall|u: int|
                    0 <= u < size_i && u != s ==> (#[trigger] degrees@[off_i + u]) == deg_s[off_i
                        + u]),
                !same_block ==> deg_s[a as int] == deg0[a as int],
                !same_block ==> (forall|u: int|
                    0 <= u < size_i && u < s ==> (#[trigger] deg_s[off_i + u]) <= deg0[off_i + u]
                        + out_degree@[u]),
                !same_block ==> (forall|u: int|
                    0 <= u < size_i && u >= s ==> (#[trigger] deg_s[off_i + u]) == deg0[off_i
                        + u]),
                forall|u: int, t: int|
                    0 <= u < s && 0 <= t < size_j && (#[trigger] degrees@[off_i + u]) - deg0[off_i
                        + u] < out_degree@[u] ==> (#[trigger] in_deg@[t]) == 0 || edge_in(
                        *adj,
                        (off_i + u) as usize,
                        (off_j + t) as usize,
                    ),
        {
            let ghost deg_pre = degrees@;
            let ghost in_pre = in_deg@;
            let t = connections[c];
            let b = off_j + t;
            proof {
                if same_block && t == s {
                    assert(in_s[s as int] == 0);
                    assert(false);
                }
                assert(a != b);
                assert(!edge_in(*adj, a, b));
                assert forall|d: int| 0 <= d < batch && d != c implies connections@[d] != t by {
                    if connections@[d] == t {
                        assert(connections@[c as int] == connections@[d]);
                    }
                }
                assert(in_deg@[t as int] == in_s[t as int]);
            }
            add_edge(adj, degrees, a, b);
            let stubs = in_deg[t];
            in_deg[t] = stubs - 1;
            proof {
                // Earlier sources' saturation survives: their degrees are
                // untouched, edges persist, and consumed stubs stay
                // consumed.
                assert forall|u: int, tt: int|
                    0 <= u < s && 0 <= tt < size_j && (#[trigger] degrees@[off_i + u]) - deg0[off_i
                        + u] < out_degree@[u] implies (#[trigger] in_deg@[tt]) == 0 || edge_in(
                    *adj,
                    (off_i + u) as usize,
                    (off_j + tt) as usize,
                ) by {
                    assert(degrees@[off_i + u] >= deg_pre[off_i + u]);
                    if in_pre[tt] == 0 {
                        if tt == t as int {
                            assert(in_pre[t as int] > 0);
                        }
                        assert(in_deg@[tt] == 0);
                    } else {
                        assert(edge_in(*adj, (off_i + u) as usize, (off_j + tt) as usize));
                    }
                }
            }
        }
        proof {
            // Restore the per-target bound for the source's own slot, and
            // record this source's saturation: if it stopped short of its
            // out-degree, selection exhausted every eligible target.
            if same_block {
                assert(degrees@[a as int] <= deg0[a as int] + (in_init[s as int]
                    - in_deg@[s as int]) + out_degree@[s as int]);
            }
            assert forall|t: int|
                0 <= t < size_j && degrees@[a as int] - deg0[a as int] < out_degree@[s as int]
                    implies (#[trigger] in_deg@[t]) == 0 || edge_in(
                *adj,
                a,
                (off_j + t) as usize,
            ) by {
                assert(batch <= degrees@[a as int] - deg0[a as int]);
                if in_s[t] == 0 {
                    if exists|d: int| 0 <= d < batch && connections@[d] == t {
                        let d = choose|d: int| 0 <= d < batch && connections@[d] == t;
                        assert(in_s[connections@[d] as int] > 0);
                    }
                    assert(in_deg@[t] == in_s[t]);
                } else if edge_in(adj_sel, a, (off_j + t) as usize) {
                    assert(edge_in(*adj, a, (off_j + t) as usize));
                } else {
                    // Eligible at selection time, and the cap was not
                    // reached: it was selected, hence connected.
                    assert(stub_eligible(adj_sel, in_s, a, off_j, t));
                    assert(conn_sel.contains(t as usize));
                    let d0 = choose|d0: int| 0 <= d0 < conn_sel.len() && conn_sel[d0] == (
                    t as usize);
                    assert(connections@.contains(t as usize));
                    let d = choose|d: int|
                        0 <= d < connections@.len() && connections@[d] == (t as usize);
                    assert(edge_in(*adj, a, (off_j + connections@[d]) as usize));
                }
            }
        }
    }
    in_deg
}

} // verus!
