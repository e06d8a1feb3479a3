//! Sparse symmetric contact networks and the per-realization epidemic state.
//!
//! The adjacency structure stores, for every node, the list of its neighbors;
//! every edge carries unit weight, so a node's weighted degree is the length
//! of its row. All generators keep the structure well formed: symmetric, free
//! of self-loops and parallel edges, with the cached degrees matching the
//! rows.

use vstd::prelude::*;
use crate::sampling::bernoulli;
use crate::sampling::bernoulli_parts;
use crate::sampling::shuffle;
use crate::sampling::DegreeSampler;
use crate::stub_matching::match_stubs;
use crate::sampling::weighted_sample;
use crate::sampling::UniformSource;
use crate::seq_math::count_match_prefix;
use crate::seq_math::count_matching;
use crate::seq_math::lemma_count_match_prefix_bounds;
use crate::seq_math::lemma_count_match_prefix_same;
use crate::seq_math::lemma_count_match_prefix_update;
use crate::seq_math::lemma_count_pos_prefix_at_least;
use crate::seq_math::lemma_sum_usize_prefix_same;
use crate::seq_math::lemma_sum_usize_two_increments;
use crate::seq_math::sum_usize_prefix;
use vstd::arithmetic::div_mod::lemma_div_is_ordered;
use vstd::arithmetic::div_mod::lemma_fundamental_div_mod_converse;
use crate::useful_functions::block_size;
use crate::useful_functions::check_partitions;
use crate::useful_functions::lemma_partitions_monotone;
use crate::useful_functions::partitions_wf;
use crate::useful_functions::rates_to_probabilities;
use crate::useful_functions::EpiError;
use crate::useful_functions::Ratio;
use crate::useful_functions::RATIO_LIMIT;

verus! {

/// A node's compartment. The dwell payload counts days spent in the
/// compartment for the daily per-contact engine; the tau-leaping engine
/// leaves it at zero.
#[derive(Clone, Copy, Debug, PartialEq, Eq, Structural)]
pub enum State {
    Susceptible,
    Exposed(usize),
    Infected(usize),
    Recovered(usize),
}

/// Which aggregate a run reports: the full compartment time series, the
/// infected-count series of each of `k` replicates, or the secondary-case
/// counts of removed nodes.
#[derive(Clone, Copy, Debug, PartialEq, Eq, Structural)]
pub enum ResultType {
    SIR,
    AvgInfections(usize),
    SecondaryCases(usize),
}

/// The compartment structure of the outbreak.
#[derive(Clone, Copy, Debug, PartialEq, Eq, Structural)]
pub enum OutbreakType {
    SIR,
    SIRS,
    SEIR,
    SEIRS,
}

/// An immutable sparse symmetric graph: neighbor rows, cached degrees, and an
/// optional per-node block label (age bracket).
#[derive(Debug)]
pub struct NetworkStructure {
    pub adjacency_matrix: Vec<Vec<usize>>,
    pub degree: Vec<usize>,
    pub age_brackets: Vec<usize>,
}

/// Does row `a` of `adj` list `b` as a neighbor?
pub open spec fn edge_in(adj: Vec<Vec<usize>>, a: usize, b: usize) -> bool {
    a < adj@.len() && adj@[a as int]@.contains(b)
}

/// Rows are in bounds, self-loop free, duplicate free, and symmetric.
pub open spec fn adj_wf(adj: Vec<Vec<usize>>, n: int) -> bool {
    &&& adj@.len() == n
    &&& forall|i: int| 0 <= i < n ==> (#[trigger] adj@[i])@.no_duplicates()
    &&& forall|i: int, k: int|
        0 <= i < n && 0 <= k < adj@[i]@.len() ==> (#[trigger] adj@[i]@[k]) < n && adj@[i]@[k]
            != i
    &&& forall|a: usize, b: usize| #[trigger] edge_in(adj, a, b) ==> edge_in(adj, b, a)
}

/// Cached degrees equal the row lengths.
pub open spec fn deg_wf(adj: Vec<Vec<usize>>, degree: Vec<usize>) -> bool {
    &&& degree@.len() == adj@.len()
    &&& forall|i: int| 0 <= i < adj@.len() ==> degree@[i] == (#[trigger] adj@[i])@.len()
}

impl NetworkStructure {
    /// The number of nodes.
    pub open spec fn spec_n(self) -> int {
        self.adjacency_matrix@.len() as int
    }

    /// Are `a` and `b` joined by an edge?
    pub open spec fn spec_has_edge(self, a: usize, b: usize) -> bool {
        edge_in(self.adjacency_matrix, a, b)
    }

    /// The structural invariant every generator establishes: symmetry, no
    /// self-loops, no parallel edges, degrees equal to row lengths, and
    /// labels either absent or one per node.
    pub open spec fn wf(self) -> bool {
        &&& adj_wf(self.adjacency_matrix, self.spec_n())
        &&& deg_wf(self.adjacency_matrix, self.degree)
        &&& self.age_brackets@.len() == 0 || self.age_brackets@.len() == self.spec_n()
    }

    /// The number of nodes.
    pub fn n(&self) -> (r: usize)
        ensures
            r == self.spec_n(),
    {
        self.adjacency_matrix.len()
    }

    /// Edge test over the neighbor rows.
    pub fn has_edge(&self, a: usize, b: usize) -> (r: bool)
        requires
            a < self.spec_n(),
        ensures
            r == self.spec_has_edge(a, b),
    {
        row_contains(&self.adjacency_matrix[a], b)
    }
}

/// Linear membership scan of one neighbor row.
pub fn row_contains(row: &Vec<usize>, x: usize) -> (r: bool)
    ensures
        r == row@.contains(x),
{
    for k in 0..row.len()
        invariant
            forall|j: int| 0 <= j < k ==> row@[j] != x,
    {
        if row[k] == x {
            return true;
        }
    }
    false
}

/// Appending an element extends membership by exactly that element.
pub proof fn lemma_push_contains<A>(s: Seq<A>, x: A, y: A)
    ensures
        s.push(x).contains(y) <==> (s.contains(y) || x == y),
{
    if s.contains(y) {
        let j = choose|j: int| 0 <= j < s.len() && s[j] == y;
        assert(s.push(x)[j] == y);
    }
    if x == y {
        assert(s.push(x)[s.len() as int] == y);
    }
    if s.push(x).contains(y) {
        let j = choose|j: int| 0 <= j < s.push(x).len() && s.push(x)[j] == y;
        if j < s.len() {
            assert(s[j] == y);
        }
    }
}

/// Inserts the undirected edge `{a, b}` unless it is already present,
/// keeping the structure well formed and the degrees cached.
pub fn add_edge(adj: &mut Vec<Vec<usize>>, degree: &mut Vec<usize>, a: usize, b: usize) -> (added:
    bool)
    requires
        adj_wf(*old(adj), old(adj)@.len() as int),
        deg_wf(*old(adj), *old(degree)),
        a < old(adj)@.len(),
        b < old(adj)@.len(),
        a != b,
    ensures
        adj_wf(*final(adj), old(adj)@.len() as int),
        deg_wf(*final(adj), *final(degree)),
        final(adj)@.len() == old(adj)@.len(),
        final(degree)@.len() == old(degree)@.len(),
        added == !edge_in(*old(adj), a, b),
        forall|x: usize, y: usize| #[trigger]
            edge_in(*final(adj), x, y) <==> edge_in(*old(adj), x, y) || (added && ((x == a && y
                == b) || (x == b && y == a))),
        forall|i: int|
            0 <= i < old(degree)@.len() ==> final(degree)@[i] == old(degree)@[i] + (if added && (i
                == a || i == b) {
                1int
            } else {
                0int
            }),
        forall|i: int|
            0 <= i < old(adj)@.len() && i != a && i != b ==> final(adj)@[i] == old(adj)@[i],
        !added ==> *final(adj) == *old(adj) && *final(degree) == *old(degree),
{
    if row_contains(&adj[a], b) {
        proof {
            assert forall|x: usize, y: usize| #[trigger]
                edge_in(*adj, x, y) <==> edge_in(*old(adj), x, y) || (false && ((x == a && y == b)
                    || (x == b && y == a))) by {}
        }
        return false;
    }
    let ghost adj0 = *adj;
    adj[a].push(b);
    adj[b].push(a);
    let la = adj[a].len();
    degree[a] = la;
    let lb = adj[b].len();
    degree[b] = lb;
    proof {
        assert(adj@[a as int]@ == adj0@[a as int]@.push(b));
        assert(adj@[b as int]@ == adj0@[b as int]@.push(a));
        assert forall|x: usize, y: usize| #[trigger]
            edge_in(*adj, x, y) <==> edge_in(adj0, x, y) || ((x == a && y == b) || (x == b && y
                == a)) by {
            if x < adj0@.len() {
                if x == a {
                    lemma_push_contains(adj0@[a as int]@, b, y);
                } else if x == b {
                    lemma_push_contains(adj0@[b as int]@, a, y);
                }
            }
        }
        // The new rows stay duplicate free: the pushed endpoint was absent.
        assert(adj@[a as int]@.no_duplicates()) by {
            let r = adj0@[a as int]@;
            assert(forall|i: int, j: int|
                0 <= i < r.len() && 0 <= j < r.len() && i != j ==> r[i] != r[j]);
            assert(!r.contains(b));
            assert(forall|i: int| 0 <= i < r.len() ==> r.push(b)[i] == r[i]);
        }
        assert(adj@[b as int]@.no_duplicates()) by {
            let r = adj0@[b as int]@;
            assert(forall|i: int, j: int|
                0 <= i < r.len() && 0 <= j < r.len() && i != j ==> r[i] != r[j]);
            assert(!r.contains(a)) by {
                if r.contains(a) {
                    assert(edge_in(adj0, b, a));
                    assert(edge_in(adj0, a, b));
                }
            }
            assert(forall|i: int| 0 <= i < r.len() ==> r.push(a)[i] == r[i]);
        }
    }
    true
}

/// `b` is the block of node `v` under the cumulative boundaries `p`: the
/// first boundary strictly above `v`.
pub open spec fn is_block_of(p: Seq<usize>, v: usize, b: int) -> bool {
    &&& 0 <= b < p.len()
    &&& (v as int) < p[b]
    &&& forall|k: int| 0 <= k < b ==> #[trigger] p[k] <= v
}

/// Finds the block of node `v`: the first cumulative boundary above `v`.
pub fn block_of(partitions: &Vec<usize>, v: usize) -> (b: usize)
    requires
        partitions@.len() >= 1,
        (v as int) < partitions@[partitions@.len() - 1],
    ensures
        is_block_of(partitions@, v, b as int),
{
    let len = partitions.len();
    for k in 0..len
        invariant
            len == partitions@.len(),
            forall|t: int| 0 <= t < k ==> #[trigger] partitions@[t] <= v,
    {
        if v < partitions[k] {
            return k;
        }
    }
    proof {
        assert(partitions@[len - 1] <= v);
        assert(false);
    }
    0
}

/// Node blocks are unique and ordered along the node indices.
pub proof fn lemma_block_of_unique(p: Seq<usize>, v: usize, b1: int, b2: int)
    requires
        is_block_of(p, v, b1),
        is_block_of(p, v, b2),
    ensures
        b1 == b2,
{
    if b1 < b2 {
        assert(p[b1] <= v);
    }
    if b2 < b1 {
        assert(p[b2] <= v);
    }
}

/// Per-node block labels for all of `0 .. n`.
pub fn block_labels(partitions: &Vec<usize>, n: usize) -> (ages: Vec<usize>)
    requires
        partitions_wf(partitions@, n),
    ensures
        ages@.len() == n,
        forall|v: int| 0 <= v < n ==> is_block_of(partitions@, v as usize, #[trigger] ages@[v] as int),
{
    let mut ages: Vec<usize> = Vec::new();
    for v in 0..n
        invariant
            partitions_wf(partitions@, n),
            ages@.len() == v,
            forall|t: int|
                0 <= t < v ==> is_block_of(partitions@, t as usize, #[trigger] ages@[t] as int),
    {
        let b = block_of(partitions, v);
        ages.push(b);
    }
    ages
}

/// The shape every generator demands of a rate matrix: square over the
/// blocks, with numerators and denominators small enough for exact
/// probability arithmetic.
pub open spec fn rates_shape(rates: Seq<Vec<Ratio>>, blocks: int) -> bool {
    &&& rates.len() == blocks
    &&& forall|i: int| 0 <= i < blocks ==> (#[trigger] rates[i])@.len() == blocks
    &&& forall|i: int, j: int|
        0 <= i < blocks && 0 <= j < blocks ==> (#[trigger] rates[i]@[j]).num <= RATIO_LIMIT
            && rates[i]@[j].den <= RATIO_LIMIT
}

/// All denominators positive.
pub open spec fn rates_dens_ok(rates: Seq<Vec<Ratio>>) -> bool {
    forall|i: int, j: int|
        0 <= i < rates.len() && 0 <= j < rates[i]@.len() ==> (#[trigger] rates[i]@[j]).den >= 1
}

/// Checks the rate-matrix shape against the number of blocks.
pub fn check_rates_shape(rates: &Vec<Vec<Ratio>>, blocks: usize) -> (ok: bool)
    ensures
        ok == rates_shape(rates@, blocks as int),
{
    if rates.len() != blocks {
        return false;
    }
    for i in 0..blocks
        invariant
            rates@.len() == blocks,
            forall|t: int| 0 <= t < i ==> (#[trigger] rates@[t])@.len() == blocks,
            forall|t: int, j: int|
                0 <= t < i && 0 <= j < blocks ==> (#[trigger] rates@[t]@[j]).num <= RATIO_LIMIT
                    && rates@[t]@[j].den <= RATIO_LIMIT,
    {
        if rates[i].len() != blocks {
            return false;
        }
        for j in 0..blocks
            invariant
                rates@.len() == blocks,
                i < blocks,
                rates@[i as int]@.len() == blocks,
                forall|t: int| 0 <= t < i ==> (#[trigger] rates@[t])@.len() == blocks,
                forall|t: int, u: int|
                    0 <= t < i && 0 <= u < blocks ==> (#[trigger] rates@[t]@[u]).num
                        <= RATIO_LIMIT && rates@[t]@[u].den <= RATIO_LIMIT,
                forall|u: int|
                    0 <= u < j ==> (#[trigger] rates@[i as int]@[u]).num <= RATIO_LIMIT
                        && rates@[i as int]@[u].den <= RATIO_LIMIT,
        {
            let r = rates[i][j];
            if r.num > RATIO_LIMIT || r.den > RATIO_LIMIT {
                return false;
            }
        }
    }
    true
}

/// Checks that every rate denominator is positive.
pub fn check_rates_dens(rates: &Vec<Vec<Ratio>>) -> (ok: bool)
    ensures
        ok == rates_dens_ok(rates@),
{
    for i in 0..rates.len()
        invariant
            forall|t: int, j: int|
                0 <= t < i && 0 <= j < rates@[t]@.len() ==> (#[trigger] rates@[t]@[j]).den >= 1,
    {
        let row_len = rates[i].len();
        for j in 0..row_len
            invariant
                i < rates@.len(),
                row_len == rates@[i as int]@.len(),
                forall|t: int, u: int|
                    0 <= t < i && 0 <= u < rates@[t]@.len() ==> (#[trigger] rates@[t]@[u]).den
                        >= 1,
                forall|u: int| 0 <= u < j ==> (#[trigger] rates@[i as int]@[u]).den >= 1,
        {
            if rates[i][j].den == 0 {
                return false;
            }
        }
    }
    true
}

/// The structural part of the block-model inputs: sound partitions within
/// the arithmetic limit and a square bounded rate matrix. Violations are
/// `InvalidParameter`; a zero rate denominator, checked after, is
/// `DistributionFit`.
pub open spec fn sbm_shape_ok(n: usize, p: Seq<usize>, rates: Seq<Vec<Ratio>>) -> bool {
    &&& partitions_wf(p, n)
    &&& rates_shape(rates, p.len() as int)
    &&& n <= RATIO_LIMIT
    &&& forall|k: int| 0 <= k < p.len() ==> #[trigger] p[k] <= RATIO_LIMIT
}

/// The inputs `new_sbm` and `new_sbm_weighted` accept.
pub open spec fn sbm_inputs_ok(n: usize, p: Seq<usize>, rates: Seq<Vec<Ratio>>) -> bool {
    &&& sbm_shape_ok(n, p, rates)
    &&& rates_dens_ok(rates)
}

impl NetworkStructure {
    /// Stochastic block model. `partitions` gives cumulative block
    /// boundaries; `rates_mat[i][j]` is the expected number of contacts a
    /// block-`i` member has with block `j`, normalized to a probability by
    /// the size of block `i` (the block of the higher-indexed node of each
    /// pair). Every unordered pair below the diagonal flips one coin.
    ///
    /// A zero rate between two blocks yields no edge between them, ever.
    pub fn new_sbm<S: UniformSource>(
        n: usize,
        partitions: Vec<usize>,
        rates_mat: Vec<Vec<Ratio>>,
        src: &mut S,
    ) -> (r: Result<NetworkStructure, EpiError>)
        ensures
            r is Ok <==> sbm_inputs_ok(n, partitions@, rates_mat@),
            !sbm_shape_ok(n, partitions@, rates_mat@) ==> r == Err::<NetworkStructure, EpiError>(
                EpiError::InvalidParameter,
            ),
            sbm_shape_ok(n, partitions@, rates_mat@) && !rates_dens_ok(rates_mat@) ==> r == Err::<
                NetworkStructure,
                EpiError,
            >(EpiError::DistributionFit),
            r is Ok ==> ({
                let g = r->Ok_0;
                &&& g.wf()
                &&& g.spec_n() == n
                &&& g.age_brackets@.len() == n
                &&& forall|v: int|
                    0 <= v < n ==> is_block_of(
                        partitions@,
                        v as usize,
                        #[trigger] g.age_brackets@[v] as int,
                    )
                &&& forall|a: usize, b: usize|
                    #[trigger] g.spec_has_edge(a, b) && b < a ==> rates_mat@[g.age_brackets@[a as int] as int]@[g.age_brackets@[b as int] as int].num
                        > 0
                // A saturated rate (probability at or above one) makes the
                // edge certain.
                &&& forall|a: usize, b: usize|
                    b < a && a < n && rates_mat@[g.age_brackets@[a as int] as int]@[g.age_brackets@[b as int] as int].num
                        >= rates_mat@[g.age_brackets@[a as int] as int]@[g.age_brackets@[b as int] as int].den
                        * block_size(partitions@, g.age_brackets@[a as int] as int)
                        ==> #[trigger] g.spec_has_edge(a, b)
            }),
    {
        if !check_partitions(&partitions, n) || n > (RATIO_LIMIT as usize) {
            return Err(EpiError::InvalidParameter);
        }
        let mut bounds_ok = true;
        for k in 0..partitions.len()
            invariant
                bounds_ok == (forall|t: int|
                    0 <= t < k ==> #[trigger] partitions@[t] <= RATIO_LIMIT),
        {
            if partitions[k] > (RATIO_LIMIT as usize) {
                bounds_ok = false;
            }
        }
        if !bounds_ok {
            return Err(EpiError::InvalidParameter);
        }
        if !check_rates_shape(&rates_mat, partitions.len()) {
            return Err(EpiError::InvalidParameter);
        }
        if !check_rates_dens(&rates_mat) {
            return Err(EpiError::DistributionFit);
        }

        let prob_mat = rates_to_probabilities(&rates_mat, &partitions);
        let ages = block_labels(&partitions, n);

        let mut adj: Vec<Vec<usize>> = Vec::new();
        let mut degrees: Vec<usize> = Vec::new();
        for v in 0..n
            invariant
                adj@.len() == v,
                degrees@.len() == v,
                forall|t: int| 0 <= t < v ==> (#[trigger] adj@[t])@.len() == 0,
                forall|t: int| 0 <= t < v ==> (#[trigger] degrees@[t]) == 0,
        {
            adj.push(Vec::new());
            degrees.push(0);
        }
        proof {
            assert forall|a: usize, b: usize| #[trigger] edge_in(adj, a, b) implies false by {}
        }

        for i in 0..n
            invariant
                sbm_inputs_ok(n, partitions@, rates_mat@),
                prob_mat@.len() == partitions@.len(),
                forall|t: int|
                    0 <= t < prob_mat@.len() ==> (#[trigger] prob_mat@[t])@.len()
                        == partitions@.len(),
                forall|t: int, u: int|
                    0 <= t < prob_mat@.len() && 0 <= u < prob_mat@.len()
                        ==> (#[trigger] prob_mat@[t]@[u]) == (if block_size(partitions@, t) > 0 {
                        Ratio {
                            num: rates_mat@[t]@[u].num,
                            den: (rates_mat@[t]@[u].den * block_size(partitions@, t)) as u64,
                        }
                    } else {
                        Ratio { num: 0, den: 1 }
                    }),
                ages@.len() == n,
                forall|v: int|
                    0 <= v < n ==> is_block_of(partitions@, v as usize, #[trigger] ages@[v] as int),
                adj@.len() == n,
                adj_wf(adj, n as int),
                deg_wf(adj, degrees),
                forall|a: usize, b: usize|
                    #[trigger] edge_in(adj, a, b) && b < a ==> (a as int) < i
                        && rates_mat@[ages@[a as int] as int]@[ages@[b as int] as int].num > 0,
                forall|a: usize, b: usize|
                    b < a && (a as int) < i && rates_mat@[ages@[a as int] as int]@[ages@[b as int] as int].num
                        >= rates_mat@[ages@[a as int] as int]@[ages@[b as int] as int].den
                        * block_size(partitions@, ages@[a as int] as int) ==> #[trigger] edge_in(
                        adj,
                        a,
                        b,
                    ),
        {
            for j in 0..i
                invariant
                    sbm_inputs_ok(n, partitions@, rates_mat@),
                    i < n,
                    prob_mat@.len() == partitions@.len(),
                    forall|t: int|
                        0 <= t < prob_mat@.len() ==> (#[trigger] prob_mat@[t])@.len()
                            == partitions@.len(),
                    forall|t: int, u: int|
                        0 <= t < prob_mat@.len() && 0 <= u < prob_mat@.len()
                            ==> (#[trigger] prob_mat@[t]@[u]) == (if block_size(partitions@, t)
                            > 0 {
                            Ratio {
                                num: rates_mat@[t]@[u].num,
                                den: (rates_mat@[t]@[u].den * block_size(partitions@, t)) as u64,
                            }
                        } else {
                            Ratio { num: 0, den: 1 }
                        }),
                    ages@.len() == n,
                    forall|v: int|
                        0 <= v < n ==> is_block_of(
                            partitions@,
                            v as usize,
                            #[trigger] ages@[v] as int,
                        ),
                    adj@.len() == n,
                    adj_wf(adj, n as int),
                    deg_wf(adj, degrees),
                    forall|a: usize, b: usize|
                        #[trigger] edge_in(adj, a, b) && b < a ==> ((a as int) < i || (a as int
                            == i && (b as int) < j)) && rates_mat@[ages@[a as int] as int]@[ages@[b as int] as int].num
                            > 0,
                    forall|a: usize, b: usize|
                        b < a && ((a as int) < i || (a as int == i && (b as int) < j))
                            && rates_mat@[ages@[a as int] as int]@[ages@[b as int] as int].num
                            >= rates_mat@[ages@[a as int] as int]@[ages@[b as int] as int].den
                            * block_size(partitions@, ages@[a as int] as int)
                            ==> #[trigger] edge_in(adj, a, b),
            {
                let bi = ages[i];
                let bj = ages[j];
                proof {
                    // The block of a realized node is never empty.
                    assert(is_block_of(partitions@, i as usize, bi as int));
                    if bi as int == 0 {
                        assert(block_size(partitions@, bi as int) > 0);
                    } else {
                        assert(partitions@[bi as int - 1] <= i as int);
                        assert(block_size(partitions@, bi as int) > 0);
                    }
                }
                let p = prob_mat[bi][bj];
                proof {
                    let dm = rates_mat@[bi as int]@[bj as int].den as int;
                    let sz = block_size(partitions@, bi as int);
                    assert(dm >= 1);
                    assert(sz <= RATIO_LIMIT);
                    assert(dm * sz >= 1) by (nonlinear_arith)
                        requires
                            dm >= 1 && sz >= 1,
                    ;
                    assert(dm * sz <= RATIO_LIMIT * RATIO_LIMIT) by (nonlinear_arith)
                        requires
                            0 <= dm <= RATIO_LIMIT && 0 <= sz <= RATIO_LIMIT,
                    ;
                }
                let e = bernoulli(src, p);
                proof {
                    // A saturated rate forces the draw.
                    if rates_mat@[bi as int]@[bj as int].num >= rates_mat@[bi as int]@[bj as int].den
                        * block_size(partitions@, bi as int) {
                        assert(p.den == rates_mat@[bi as int]@[bj as int].den * block_size(
                            partitions@,
                            bi as int,
                        ));
                        assert(p.num >= p.den);
                        assert(e);
                    }
                }
                if e {
                    proof {
                        assert(p.num == rates_mat@[bi as int]@[bj as int].num);
                    }
                    add_edge(&mut adj, &mut degrees, i, j);
                }
            }
        }

        Ok(NetworkStructure { adjacency_matrix: adj, degree: degrees, age_brackets: ages })
    }

    /// Weighted stochastic block model: each node carries a positive integer
    /// weight (externally drawn, e.g. from a fitted negative binomial), and
    /// the block-pair probability is multiplied by the two endpoint weights,
    /// producing degree heterogeneity within blocks.
    pub fn new_sbm_weighted<S: UniformSource>(
        n: usize,
        partitions: Vec<usize>,
        rates_mat: Vec<Vec<Ratio>>,
        weights: &Vec<u64>,
        src: &mut S,
    ) -> (r: Result<NetworkStructure, EpiError>)
        ensures
            r is Ok <==> sbm_inputs_ok(n, partitions@, rates_mat@) && node_weights_ok(
                weights@,
                n,
            ),
            !(sbm_shape_ok(n, partitions@, rates_mat@) && node_weights_ok(weights@, n)) ==> r
                == Err::<NetworkStructure, EpiError>(EpiError::InvalidParameter),
            sbm_shape_ok(n, partitions@, rates_mat@) && node_weights_ok(weights@, n)
                && !rates_dens_ok(rates_mat@) ==> r == Err::<NetworkStructure, EpiError>(
                EpiError::DistributionFit,
            ),
            r is Ok ==> ({
                let g = r->Ok_0;
                &&& g.wf()
                &&& g.spec_n() == n
                &&& g.age_brackets@.len() == n
                &&& forall|v: int|
                    0 <= v < n ==> is_block_of(
                        partitions@,
                        v as usize,
                        #[trigger] g.age_brackets@[v] as int,
                    )
                &&& forall|a: usize, b: usize|
                    #[trigger] g.spec_has_edge(a, b) && b < a ==> rates_mat@[g.age_brackets@[a as int] as int]@[g.age_brackets@[b as int] as int].num
                        > 0
                // A weighted probability at or above one makes the edge
                // certain.
                &&& forall|a: usize, b: usize|
                    b < a && a < n && rates_mat@[g.age_brackets@[a as int] as int]@[g.age_brackets@[b as int] as int].num
                        * weights@[a as int] * weights@[b as int]
                        >= rates_mat@[g.age_brackets@[a as int] as int]@[g.age_brackets@[b as int] as int].den
                        * block_size(partitions@, g.age_brackets@[a as int] as int)
                        ==> #[trigger] g.spec_has_edge(a, b)
            }),
    {
        if !check_partitions(&partitions, n) || n > (RATIO_LIMIT as usize) {
            return Err(EpiError::InvalidParameter);
        }
        let mut bounds_ok = true;
        for k in 0..partitions.len()
            invariant
                bounds_ok == (forall|t: int|
                    0 <= t < k ==> #[trigger] partitions@[t] <= RATIO_LIMIT),
        {
            if partitions[k] > (RATIO_LIMIT as usize) {
                bounds_ok = false;
            }
        }
        if !bounds_ok {
            return Err(EpiError::InvalidParameter);
        }
        if !check_rates_shape(&rates_mat, partitions.len()) {
            return Err(EpiError::InvalidParameter);
        }
        if weights.len() != n {
            return Err(EpiError::InvalidParameter);
        }
        let mut weights_ok = true;
        for t in 0..n
            invariant
                weights@.len() == n,
                weights_ok == (forall|u: int|
                    0 <= u < t ==> 1 <= #[trigger] weights@[u] <= RATIO_LIMIT),
        {
            if weights[t] == 0 || weights[t] > RATIO_LIMIT {
                weights_ok = false;
            }
        }
        if !weights_ok {
            return Err(EpiError::InvalidParameter);
        }
        if !check_rates_dens(&rates_mat) {
            return Err(EpiError::DistributionFit);
        }

        let prob_mat = rates_to_probabilities(&rates_mat, &partitions);
        let ages = block_labels(&partitions, n);

        let mut adj: Vec<Vec<usize>> = Vec::new();
        let mut degrees: Vec<usize> = Vec::new();
        for v in 0..n
            invariant
                adj@.len() == v,
                degrees@.len() == v,
                forall|t: int| 0 <= t < v ==> (#[trigger] adj@[t])@.len() == 0,
                forall|t: int| 0 <= t < v ==> (#[trigger] degrees@[t]) == 0,
        {
            adj.push(Vec::new());
            degrees.push(0);
        }
        proof {
            assert forall|a: usize, b: usize| #[trigger] edge_in(adj, a, b) implies false by {}
        }

        for i in 0..n
            invariant
                sbm_inputs_ok(n, partitions@, rates_mat@),
                node_weights_ok(weights@, n),
                prob_mat@.len() == partitions@.len(),
                forall|t: int|
                    0 <= t < prob_mat@.len() ==> (#[trigger] prob_mat@[t])@.len()
                        == partitions@.len(),
                forall|t: int, u: int|
                    0 <= t < prob_mat@.len() && 0 <= u < prob_mat@.len()
                        ==> (#[trigger] prob_mat@[t]@[u]) == (if block_size(partitions@, t) > 0 {
                        Ratio {
                            num: rates_mat@[t]@[u].num,
                            den: (rates_mat@[t]@[u].den * block_size(partitions@, t)) as u64,
                        }
                    } else {
                        Ratio { num: 0, den: 1 }
                    }),
                ages@.len() == n,
                forall|v: int|
                    0 <= v < n ==> is_block_of(partitions@, v as usize, #[trigger] ages@[v] as int),
                adj@.len() == n,
                adj_wf(adj, n as int),
                deg_wf(adj, degrees),
                forall|a: usize, b: usize|
                    #[trigger] edge_in(adj, a, b) && b < a ==> (a as int) < i
                        && rates_mat@[ages@[a as int] as int]@[ages@[b as int] as int].num > 0,
                forall|a: usize, b: usize|
                    b < a && (a as int) < i && rates_mat@[ages@[a as int] as int]@[ages@[b as int] as int].num
                        * weights@[a as int] * weights@[b as int]
                        >= rates_mat@[ages@[a as int] as int]@[ages@[b as int] as int].den
                        * block_size(partitions@, ages@[a as int] as int) ==> #[trigger] edge_in(
                        adj,
                        a,
                        b,
                    ),
        {
            for j in 0..i
                invariant
                    sbm_inputs_ok(n, partitions@, rates_mat@),
                    node_weights_ok(weights@, n),
                    i < n,
                    prob_mat@.len() == partitions@.len(),
                    forall|t: int|
                        0 <= t < prob_mat@.len() ==> (#[trigger] prob_mat@[t])@.len()
                            == partitions@.len(),
                    forall|t: int, u: int|
                        0 <= t < prob_mat@.len() && 0 <= u < prob_mat@.len()
                            ==> (#[trigger] prob_mat@[t]@[u]) == (if block_size(partitions@, t)
                            > 0 {
                            Ratio {
                                num: rates_mat@[t]@[u].num,
                                den: (rates_mat@[t]@[u].den * block_size(partitions@, t)) as u64,
                            }
                        } else {
                            Ratio { num: 0, den: 1 }
                        }),
                    ages@.len() == n,
                    forall|v: int|
                        0 <= v < n ==> is_block_of(
                            partitions@,
                            v as usize,
                            #[trigger] ages@[v] as int,
                        ),
                    adj@.len() == n,
                    adj_wf(adj, n as int),
                    deg_wf(adj, degrees),
                    forall|a: usize, b: usize|
                        #[trigger] edge_in(adj, a, b) && b < a ==> ((a as int) < i || (a as int
                            == i && (b as int) < j)) && rates_mat@[ages@[a as int] as int]@[ages@[b as int] as int].num
                            > 0,
                    forall|a: usize, b: usize|
                        b < a && ((a as int) < i || (a as int == i && (b as int) < j))
                            && rates_mat@[ages@[a as int] as int]@[ages@[b as int] as int].num
                            * weights@[a as int] * weights@[b as int]
                            >= rates_mat@[ages@[a as int] as int]@[ages@[b as int] as int].den
                            * block_size(partitions@, ages@[a as int] as int)
                            ==> #[trigger] edge_in(adj, a, b),
            {
                let bi = ages[i];
                let bj = ages[j];
                proof {
                    assert(is_block_of(partitions@, i as usize, bi as int));
                    if bi as int == 0 {
                        assert(block_size(partitions@, bi as int) > 0);
                    } else {
                        assert(partitions@[bi as int - 1] <= i as int);
                        assert(block_size(partitions@, bi as int) > 0);
                    }
                }
                let p = prob_mat[bi][bj];
                proof {
                    let dm = rates_mat@[bi as int]@[bj as int].den as int;
                    let sz = block_size(partitions@, bi as int);
                    assert(dm >= 1);
                    assert(sz <= RATIO_LIMIT);
                    assert(dm * sz >= 1) by (nonlinear_arith)
                        requires
                            dm >= 1 && sz >= 1,
                    ;
                    assert(dm * sz <= RATIO_LIMIT * RATIO_LIMIT) by (nonlinear_arith)
                        requires
                            0 <= dm <= RATIO_LIMIT && 0 <= sz <= RATIO_LIMIT,
                    ;
                }
                let wi = weights[i];
                let wj = weights[j];
                proof {
                    let a = p.num as int;
                    let b = wi as int;
                    let c = wj as int;
                    assert(a * b <= RATIO_LIMIT * RATIO_LIMIT && a * b >= 0) by (nonlinear_arith)
                        requires
                            0 <= a <= RATIO_LIMIT && 0 <= b <= RATIO_LIMIT,
                    ;
                    assert((a * b) * c <= (RATIO_LIMIT * RATIO_LIMIT) * RATIO_LIMIT && (a * b) * c
                        >= 0) by (nonlinear_arith)
                        requires
                            0 <= a * b <= RATIO_LIMIT * RATIO_LIMIT && 0 <= c <= RATIO_LIMIT,
                    ;
                    assert(a == 0 ==> (a * b) * c == 0) by (nonlinear_arith);
                    assert(a > 0 && b >= 1 && c >= 1 ==> (a * b) * c > 0) by (nonlinear_arith);
                }
                let num128: u128 = (p.num as u128) * (wi as u128) * (wj as u128);
                let e = bernoulli_parts(src, num128, p.den as u128);
                proof {
                    // A saturated weighted probability forces the draw.
                    if rates_mat@[bi as int]@[bj as int].num * weights@[i as int] * weights@[j as int]
                        >= rates_mat@[bi as int]@[bj as int].den * block_size(
                        partitions@,
                        bi as int,
                    ) {
                        assert(p.num == rates_mat@[bi as int]@[bj as int].num);
                        assert(p.den == rates_mat@[bi as int]@[bj as int].den * block_size(
                            partitions@,
                            bi as int,
                        ));
                        assert(num128 >= p.den as u128);
                        assert(e);
                    }
                }
                if e {
                    proof {
                        assert(p.num == rates_mat@[bi as int]@[bj as int].num);
                        assert(num128 > 0);
                    }
                    add_edge(&mut adj, &mut degrees, i, j);
                }
            }
        }

        Ok(NetworkStructure { adjacency_matrix: adj, degree: degrees, age_brackets: ages })
    }

    /// Preferential attachment (Barabasi-Albert): a complete seed graph on
    /// `m0` nodes, then each new node attaches to `m` distinct existing
    /// nodes drawn without replacement with probability proportional to
    /// their current degree.
    ///
    /// Inputs are refused unless `m <= m0 <= n`, and `m0 >= 2` whenever
    /// `m > 0` (otherwise the seed carries no degree mass to attach to).
    /// Every node added after the seed phase ends up with degree at least
    /// `m`, and every seed node with degree at least `m0 - 1`.
    pub fn new_ba<S: UniformSource>(n: usize, m0: usize, m: usize, src: &mut S) -> (r: Result<
        NetworkStructure,
        EpiError,
    >)
        ensures
            r is Ok <==> ba_inputs_ok(n, m0, m),
            !ba_inputs_ok(n, m0, m) ==> r == Err::<NetworkStructure, EpiError>(
                EpiError::InvalidParameter,
            ),
            r is Ok ==> ({
                let g = r->Ok_0;
                &&& g.wf()
                &&& g.spec_n() == n
                &&& g.age_brackets@.len() == 0
                &&& forall|a: usize, b: usize|
                    a < m0 && b < m0 && a != b ==> #[trigger] g.spec_has_edge(a, b)
                &&& forall|v: int| m0 <= v < n ==> #[trigger] g.degree@[v] >= m
                &&& forall|v: int| 0 <= v < m0 ==> #[trigger] g.degree@[v] >= m0 - 1
                // The seed clique plus exactly m attachments per later
                // node: the total degree mass is pinned.
                &&& sum_usize_prefix(g.degree@, g.degree@.len() as int) == m0 * (m0 - 1) + 2 * m
                    * (n - m0)
            }),
    {
        if m > m0 || m0 > n || (m > 0 && m0 < 2) {
            return Err(EpiError::InvalidParameter);
        }
        let mut adj: Vec<Vec<usize>> = Vec::new();
        let mut degrees: Vec<usize> = Vec::new();
        for v in 0..n
            invariant
                adj@.len() == v,
                degrees@.len() == v,
                forall|t: int| 0 <= t < v ==> (#[trigger] adj@[t])@.len() == 0,
                forall|t: int| 0 <= t < v ==> (#[trigger] degrees@[t]) == 0,
                sum_usize_prefix(degrees@, v as int) == 0,
        {
            adj.push(Vec::new());
            let ghost pre = degrees@;
            degrees.push(0);
            proof {
                lemma_sum_usize_prefix_same(pre, degrees@, v as int);
            }
        }
        proof {
            assert forall|a: usize, b: usize| #[trigger] edge_in(adj, a, b) implies false by {}
        }

        // Seed phase: every unordered pair of the first m0 nodes.
        for a in 0..m0
            invariant
                m0 <= n,
                adj@.len() == n,
                degrees@.len() == n,
                adj_wf(adj, n as int),
                deg_wf(adj, degrees),
                sum_usize_prefix(degrees@, n as int) == a * (a - 1),
                forall|x: usize, y: usize|
                    #[trigger] edge_in(adj, x, y) && y < x ==> (x as int) < a,
                forall|x: usize, y: usize|
                    y < x && (x as int) < a ==> #[trigger] edge_in(adj, x, y),
                forall|v: int|
                    0 <= v < n ==> #[trigger] degrees@[v] == (if v < a {
                        a - 1
                    } else {
                        0int
                    }),
        {
            for b in 0..a
                invariant
                    m0 <= n,
                    a < m0,
                    adj@.len() == n,
                    degrees@.len() == n,
                    adj_wf(adj, n as int),
                    deg_wf(adj, degrees),
                    sum_usize_prefix(degrees@, n as int) == a * (a - 1) + 2 * b,
                    forall|x: usize, y: usize|
                        #[trigger] edge_in(adj, x, y) && y < x ==> ((x as int) < a || (x as int
                            == a && (y as int) < b)),
                    forall|x: usize, y: usize|
                        y < x && ((x as int) < a || (x as int == a && (y as int) < b))
                            ==> #[trigger] edge_in(adj, x, y),
                    forall|v: int|
                        0 <= v < n ==> #[trigger] degrees@[v] == (if v < a {
                            a - 1 + (if v < b {
                                1int
                            } else {
                                0int
                            })
                        } else if v == a {
                            b as int
                        } else {
                            0int
                        }),
            {
                proof {
                    if edge_in(adj, a, b) {
                        assert(false);
                    }
                }
                let ghost deg_pre = degrees@;
                add_edge(&mut adj, &mut degrees, a, b);
                proof {
                    lemma_sum_usize_two_increments(deg_pre, degrees@, a as int, b as int);
                }
            }
            proof {
                assert((a + 1) * ((a + 1) - 1) == a * (a - 1) + 2 * a) by (nonlinear_arith);
            }
        }

        // Growth phase: attach each new node to m degree-weighted picks.
        for v in m0..n
            invariant
                m0 <= n,
                ba_inputs_ok(n, m0, m),
                adj@.len() == n,
                degrees@.len() == n,
                adj_wf(adj, n as int),
                deg_wf(adj, degrees),
                sum_usize_prefix(degrees@, n as int) == m0 * (m0 - 1) + 2 * m * (v - m0),
                forall|x: usize, y: usize|
                    y < x && x < m0 ==> #[trigger] edge_in(adj, x, y),
                forall|t: int| 0 <= t < m0 ==> #[trigger] degrees@[t] >= m0 - 1,
                forall|t: int| m0 <= t < v ==> #[trigger] degrees@[t] >= m,
                forall|t: int| v <= t < n ==> #[trigger] degrees@[t] == 0,
        {
            let mut weights: Vec<u64> = Vec::new();
            for t in 0..v
                invariant
                    v <= n,
                    degrees@.len() == n,
                    weights@.len() == t,
                    forall|u: int| 0 <= u < t ==> #[trigger] weights@[u] == degrees@[u],
            {
                weights.push(degrees[t] as u64);
            }
            proof {
                if m >= 1 {
                    assert(forall|u: int| 0 <= u < m0 ==> #[trigger] weights@[u] > 0);
                    lemma_count_pos_prefix_at_least(weights@, weights@.len() as int, m0 as int);
                }
            }
            let picks = weighted_sample(&weights, m, src);
            proof {
                assert(picks@.len() == m);
            }
            for t in 0..picks.len()
                invariant
                    m0 <= v < n,
                    ba_inputs_ok(n, m0, m),
                    picks@.len() == m,
                    picks@.no_duplicates(),
                    forall|s: int| 0 <= s < picks@.len() ==> #[trigger] picks@[s] < v,
                    adj@.len() == n,
                    degrees@.len() == n,
                    adj_wf(adj, n as int),
                    deg_wf(adj, degrees),
                    forall|x: usize, y: usize|
                        y < x && x < m0 ==> #[trigger] edge_in(adj, x, y),
                    forall|u: int| 0 <= u < m0 ==> #[trigger] degrees@[u] >= m0 - 1,
                    forall|u: int| m0 <= u < v ==> #[trigger] degrees@[u] >= m,
                    forall|u: int| v < u < n ==> #[trigger] degrees@[u] == 0,
                    degrees@[v as int] == t,
                    sum_usize_prefix(degrees@, n as int) == m0 * (m0 - 1) + 2 * m * (v - m0) + 2
                        * t,
                    forall|y: usize|
                        #[trigger] edge_in(adj, v as usize, y) <==> exists|s: int|
                            0 <= s < t && picks@[s] == y,
            {
                let p = picks[t];
                proof {
                    if edge_in(adj, v as usize, p) {
                        let s = choose|s: int| 0 <= s < t && picks@[s] == p;
                        assert(picks@[s] == picks@[t as int]);
                        assert(false);
                    }
                }
                let ghost deg_pre = degrees@;
                add_edge(&mut adj, &mut degrees, v, p);
                proof {
                    lemma_sum_usize_two_increments(deg_pre, degrees@, v as int, p as int);
                    assert forall|y: usize| #[trigger]
                        edge_in(adj, v as usize, y) <==> exists|s: int|
                            0 <= s < t + 1 && picks@[s] == y by {
                        if edge_in(adj, v as usize, y) {
                        } else {
                            if exists|s: int| 0 <= s < t + 1 && picks@[s] == y {
                                let s = choose|s: int| 0 <= s < t + 1 && picks@[s] == y;
                            }
                        }
                    }
                }
            }
            proof {
                assert(2 * m * ((v + 1) - m0) == 2 * m * (v - m0) + 2 * m) by (nonlinear_arith);
            }
        }

        proof {
            assert forall|a: usize, b: usize| a < m0 && b < m0 && a != b implies #[trigger]
                edge_in(adj, a, b) by {
                if a < b {
                    assert(edge_in(adj, b, a));
                } else {
                    assert(edge_in(adj, a, b));
                }
            }
        }
        Ok(NetworkStructure { adjacency_matrix: adj, degree: degrees, age_brackets: Vec::new() })
    }
}

impl NetworkStructure {
    /// Configuration model (Molloy-Reed): for every unordered block pair,
    /// out-degrees for the first block and in-degrees for the second are
    /// drawn from the externally fitted per-pair distribution, and stubs are
    /// matched greedily without self-loops or duplicate edges. Realized
    /// degrees may fall short of the drawn ones when stubs run out; they
    /// never exceed them.
    pub fn new_molloy_reed<D: DegreeSampler, S: UniformSource>(
        n: usize,
        partitions: Vec<usize>,
        deg_sampler: &mut D,
        src: &mut S,
    ) -> (r: Result<NetworkStructure, EpiError>)
        ensures
            r is Ok <==> partitions_wf(partitions@, n),
            !partitions_wf(partitions@, n) ==> r == Err::<NetworkStructure, EpiError>(
                EpiError::InvalidParameter,
            ),
            r is Ok ==> ({
                let g = r->Ok_0;
                &&& g.wf()
                &&& g.spec_n() == n
                &&& g.age_brackets@.len() == n
                &&& forall|v: int|
                    0 <= v < n ==> is_block_of(
                        partitions@,
                        v as usize,
                        #[trigger] g.age_brackets@[v] as int,
                    )
            }),
    {
        if !check_partitions(&partitions, n) {
            return Err(EpiError::InvalidParameter);
        }
        let ages = block_labels(&partitions, n);
        let blocks = partitions.len();

        let mut adj: Vec<Vec<usize>> = Vec::new();
        let mut degrees: Vec<usize> = Vec::new();
        for v in 0..n
            invariant
                adj@.len() == v,
                degrees@.len() == v,
                forall|t: int| 0 <= t < v ==> (#[trigger] adj@[t])@.len() == 0,
                forall|t: int| 0 <= t < v ==> (#[trigger] degrees@[t]) == 0,
        {
            adj.push(Vec::new());
            degrees.push(0);
        }

        for i in 0..blocks
            invariant
                partitions_wf(partitions@, n),
                blocks == partitions@.len(),
                adj@.len() == n,
                degrees@.len() == n,
                adj_wf(adj, n as int),
                deg_wf(adj, degrees),
        {
            for j in 0..i + 1
                invariant
                    partitions_wf(partitions@, n),
                    blocks == partitions@.len(),
                    i < blocks,
                    adj@.len() == n,
                    degrees@.len() == n,
                    adj_wf(adj, n as int),
                    deg_wf(adj, degrees),
            {
                let off_i = if i == 0 {
                    0
                } else {
                    partitions[i - 1]
                };
                let off_j = if j == 0 {
                    0
                } else {
                    partitions[j - 1]
                };
                proof {
                    lemma_partitions_monotone(partitions@, i as int, blocks - 1);
                    lemma_partitions_monotone(partitions@, j as int, blocks - 1);
                    if i > 0 {
                        lemma_partitions_monotone(partitions@, i - 1, i as int);
                    }
                    if j > 0 {
                        lemma_partitions_monotone(partitions@, j - 1, j as int);
                    }
                    if j < i {
                        lemma_partitions_monotone(partitions@, j as int, i - 1);
                    }
                }
                let size_i = partitions[i] - off_i;
                let size_j = partitions[j] - off_j;

                // Draw the stub counts for this block pair.
                let mut out_degree: Vec<usize> = Vec::new();
                for t in 0..size_i
                    invariant
                        out_degree@.len() == t,
                {
                    out_degree.push(deg_sampler.degree_draw(i, j));
                }
                let mut in_degree: Vec<usize> = Vec::new();
                for t in 0..size_j
                    invariant
                        in_degree@.len() == t,
                {
                    in_degree.push(deg_sampler.degree_draw(j, i));
                }

                let _in_residual = match_stubs(
                    &mut adj,
                    &mut degrees,
                    off_i,
                    size_i,
                    off_j,
                    size_j,
                    &out_degree,
                    in_degree,
                    i == j,
                    src,
                );
            }
        }

        Ok(NetworkStructure { adjacency_matrix: adj, degree: degrees, age_brackets: ages })
    }
}

/// The four compartment kinds, without dwell payloads; the currency of the
/// counting specifications.
#[derive(Clone, Copy, Debug, PartialEq, Eq, Structural)]
pub enum Kind {
    S,
    E,
    I,
    R,
}

/// The kind of a compartment, dwell time ignored.
pub open spec fn kind_of(st: State) -> Kind {
    match st {
        State::Susceptible => Kind::S,
        State::Exposed(_) => Kind::E,
        State::Infected(_) => Kind::I,
        State::Recovered(_) => Kind::R,
    }
}

/// The membership predicate of one kind, as a spec closure for counting.
pub open spec fn kind_pred(k: Kind) -> spec_fn(State) -> bool {
    |st: State| kind_of(st) == k
}

/// How many nodes currently sit in compartment kind `k`.
pub open spec fn kind_count(s: Seq<State>, k: Kind) -> int {
    count_matching(s, kind_pred(k))
}

/// Every node sits in exactly one kind, so the four counts add up to the
/// population size.
pub proof fn lemma_kind_counts_total(s: Seq<State>, k: int)
    requires
        0 <= k <= s.len(),
    ensures
        count_match_prefix(s, kind_pred(Kind::S), k) + count_match_prefix(s, kind_pred(Kind::E), k)
            + count_match_prefix(s, kind_pred(Kind::I), k) + count_match_prefix(
            s,
            kind_pred(Kind::R),
            k,
        ) == k,
    decreases k,
{
    if k > 0 {
        lemma_kind_counts_total(s, k - 1);
    }
}

/// A count over a prefix where no entry matches is zero.
pub proof fn lemma_count_match_none<A>(s: Seq<A>, f: spec_fn(A) -> bool, k: int)
    requires
        k <= s.len(),
        forall|j: int| 0 <= j < k ==> !f(s[j]),
    ensures
        count_match_prefix(s, f, k) == 0,
    decreases k,
{
    if k > 0 {
        lemma_count_match_none(s, f, k - 1);
    }
}

/// A count over a prefix where every entry matches is the prefix length.
pub proof fn lemma_count_match_all<A>(s: Seq<A>, f: spec_fn(A) -> bool, k: int)
    requires
        0 <= k <= s.len(),
        forall|j: int| 0 <= j < k ==> f(s[j]),
    ensures
        count_match_prefix(s, f, k) == k,
    decreases k,
{
    if k > 0 {
        lemma_count_match_all(s, f, k - 1);
    }
}

/// Moves the first `k` listed nodes, all currently of kind `from`, into the
/// compartment `to`, and accounts for the change in every kind count.
pub(crate) fn transition_nodes(
    states: &mut Vec<State>,
    nodes: &Vec<usize>,
    k: usize,
    to: State,
    Ghost(from): Ghost<Kind>,
)
    requires
        k <= nodes@.len(),
        nodes@.take(k as int).no_duplicates(),
        forall|t: int| 0 <= t < k ==> (#[trigger] nodes@[t]) < old(states)@.len(),
        forall|t: int| 0 <= t < k ==> kind_of(old(states)@[#[trigger] nodes@[t] as int]) == from,
    ensures
        final(states)@.len() == old(states)@.len(),
        forall|v: int|
            0 <= v < old(states)@.len() && (exists|t: int| 0 <= t < k && nodes@[t] == v)
                ==> (#[trigger] final(states)@[v]) == to,
        forall|v: int|
            0 <= v < old(states)@.len() && !(exists|t: int| 0 <= t < k && nodes@[t] == v)
                ==> (#[trigger] final(states)@[v]) == old(states)@[v],
        forall|kk: Kind| #[trigger]
            kind_count(final(states)@, kk) == kind_count(old(states)@, kk) - (if kk == from {
                k as int
            } else {
                0int
            }) + (if kk == kind_of(to) {
                k as int
            } else {
                0int
            }),
{
    let n = states.len();
    for t in 0..k
        invariant
            k <= nodes@.len(),
            n == states@.len(),
            n == old(states)@.len(),
            nodes@.take(k as int).no_duplicates(),
            forall|u: int| 0 <= u < k ==> (#[trigger] nodes@[u]) < n,
            forall|u: int|
                0 <= u < k ==> kind_of(old(states)@[#[trigger] nodes@[u] as int]) == from,
            forall|u: int|
                t <= u < k ==> states@[#[trigger] nodes@[u] as int] == old(states)@[nodes@[u] as int],
            forall|v: int|
                0 <= v < n && (exists|u: int| 0 <= u < t && nodes@[u] == v)
                    ==> (#[trigger] states@[v]) == to,
            forall|v: int|
                0 <= v < n && !(exists|u: int| 0 <= u < t && nodes@[u] == v)
                    ==> (#[trigger] states@[v]) == old(states)@[v],
            forall|kk: Kind| #[trigger]
                kind_count(states@, kk) == kind_count(old(states)@, kk) - (if kk == from {
                    t as int
                } else {
                    0int
                }) + (if kk == kind_of(to) {
                    t as int
                } else {
                    0int
                }),
    {
        let node = nodes[t];
        proof {
            // The node has not been touched yet and no later listed node
            // aliases it.
            assert forall|u: int| 0 <= u < k && u != t implies nodes@[u] != node by {
                if nodes@[u] == node {
                    assert(nodes@.take(k as int)[u] == nodes@.take(k as int)[t as int]);
                }
            }
            assert(kind_of(states@[node as int]) == from);
        }
        let ghost pre = states@;
        states[node] = to;
        proof {
            assert(states@ == pre.update(node as int, to));
            assert forall|kk: Kind| #[trigger]
                kind_count(states@, kk) == kind_count(old(states)@, kk) - (if kk == from {
                    t + 1int
                } else {
                    0int
                }) + (if kk == kind_of(to) {
                    t + 1int
                } else {
                    0int
                }) by {
                lemma_count_match_prefix_update(
                    pre,
                    kind_pred(kk),
                    pre.len() as int,
                    node as int,
                    to,
                );
                assert(kind_pred(kk)(to) == (kk == kind_of(to)));
                assert(kind_pred(kk)(pre[node as int]) == (kk == from));
                assert(kind_count(pre, kk) == kind_count(old(states)@, kk) - (if kk == from {
                    t as int
                } else {
                    0int
                }) + (if kk == kind_of(to) {
                    t as int
                } else {
                    0int
                }));
            }
            assert forall|v: int|
                0 <= v < n && (exists|u: int| 0 <= u < t + 1 && nodes@[u] == v) implies (
            #[trigger] states@[v]) == to by {}
        }
    }
}

/// Per-realization epidemic state: one compartment per node, the append-only
/// time series of compartment counts, secondary-case counters, and the
/// active rate parameters.
#[derive(Clone, Debug)]
pub struct NetworkProperties {
    pub nodal_states: Vec<State>,
    pub results: Vec<Vec<usize>>,
    pub result_type: ResultType,
    pub outbreak_type: OutbreakType,
    pub parameters: Vec<Ratio>,
    pub secondary_cases: Vec<usize>,
}

/// How many rate parameters each outbreak type carries: `[beta, gamma]`,
/// `[beta, gamma, omega]`, or `[beta, sigma, gamma, omega]`.
pub open spec fn params_count(kind: OutbreakType) -> int {
    match kind {
        OutbreakType::SIR => 2,
        OutbreakType::SIRS => 3,
        OutbreakType::SEIR => 4,
        OutbreakType::SEIRS => 4,
    }
}

/// Every history row holds the four compartment counts.
pub open spec fn rows_wf(results: Seq<Vec<usize>>) -> bool {
    forall|r: int| 0 <= r < results.len() ==> (#[trigger] results[r])@.len() == 4
}

impl NetworkProperties {
    /// The structural invariant the engines maintain: one state and one
    /// secondary-case counter per node, four-column history rows, and
    /// well-formed bounded parameters matching the outbreak type.
    pub open spec fn wf(self, n: int) -> bool {
        &&& self.nodal_states@.len() == n
        &&& self.secondary_cases@.len() == n
        &&& rows_wf(self.results@)
        &&& self.parameters@.len() == params_count(self.outbreak_type)
        &&& forall|p: int|
            0 <= p < self.parameters@.len() ==> (#[trigger] self.parameters@[p]).wf()
                && self.parameters@[p].bounded()
    }

    /// Fresh all-susceptible state over the given network, with the default
    /// SIR parameters `beta = 1/10`, `gamma = 2/10`.
    pub fn new(network: &NetworkStructure) -> (p: NetworkProperties)
        requires
            network.wf(),
        ensures
            p.wf(network.spec_n()),
            forall|v: int| 0 <= v < network.spec_n() ==> (#[trigger] p.nodal_states@[v]) == State::Susceptible,
            forall|v: int| 0 <= v < network.spec_n() ==> (#[trigger] p.secondary_cases@[v]) == 0,
            p.results@.len() == 0,
            p.result_type == ResultType::SIR,
            p.outbreak_type == OutbreakType::SIR,
            p.parameters@.len() == 2,
            p.parameters@[0] == (Ratio { num: 1, den: 10 }),
            p.parameters@[1] == (Ratio { num: 2, den: 10 }),
    {
        let n = network.degree.len();
        proof {
            assert(network.degree@.len() == network.spec_n());
        }
        let mut states: Vec<State> = Vec::new();
        let mut secondary: Vec<usize> = Vec::new();
        for v in 0..n
            invariant
                states@.len() == v,
                secondary@.len() == v,
                forall|t: int| 0 <= t < v ==> (#[trigger] states@[t]) == State::Susceptible,
                forall|t: int| 0 <= t < v ==> (#[trigger] secondary@[t]) == 0,
        {
            states.push(State::Susceptible);
            secondary.push(0);
        }
        let mut parameters: Vec<Ratio> = Vec::new();
        parameters.push(Ratio { num: 1, den: 10 });
        parameters.push(Ratio { num: 2, den: 10 });
        NetworkProperties {
            nodal_states: states,
            results: Vec::new(),
            result_type: ResultType::SIR,
            outbreak_type: OutbreakType::SIR,
            parameters,
            secondary_cases: secondary,
        }
    }

    /// Replaces the rate parameters, selecting the outbreak type by their
    /// number: two for SIR, three for SIRS, four for SEIRS. Refuses any
    /// other count, any parameter above the exact-arithmetic limit
    /// (`InvalidParameter`), and any zero denominator (`DistributionFit`),
    /// leaving the state untouched.
    pub fn params(&mut self, params: Vec<Ratio>) -> (r: Result<(), EpiError>)
        ensures
            r is Ok <==> (params@.len() == 2 || params@.len() == 3 || params@.len() == 4)
                && (forall|p: int| 0 <= p < params@.len() ==> (#[trigger] params@[p]).wf())
                && (forall|p: int| 0 <= p < params@.len() ==> (#[trigger] params@[p]).bounded()),
            !(params@.len() == 2 || params@.len() == 3 || params@.len() == 4) ==> r
                == Err::<(), EpiError>(EpiError::InvalidParameter),
            (params@.len() == 2 || params@.len() == 3 || params@.len() == 4) && !(forall|p: int|
                0 <= p < params@.len() ==> (#[trigger] params@[p]).wf()) ==> r == Err::<
                (),
                EpiError,
            >(EpiError::DistributionFit),
            (params@.len() == 2 || params@.len() == 3 || params@.len() == 4) && (forall|p: int|
                0 <= p < params@.len() ==> (#[trigger] params@[p]).wf()) && !(forall|p: int|
                0 <= p < params@.len() ==> (#[trigger] params@[p]).bounded()) ==> r == Err::<
                (),
                EpiError,
            >(EpiError::InvalidParameter),
            r is Ok ==> final(self).parameters == params,
            r is Ok ==> final(self).outbreak_type == (if params@.len() == 2 {
                OutbreakType::SIR
            } else if params@.len() == 3 {
                OutbreakType::SIRS
            } else {
                OutbreakType::SEIRS
            }),
            r is Ok ==> final(self).nodal_states == old(self).nodal_states && final(self).results
                == old(self).results && final(self).result_type == old(self).result_type
                && final(self).secondary_cases == old(self).secondary_cases,
            r is Err ==> *final(self) == *old(self),
    {
        if params.len() < 2 || params.len() > 4 {
            return Err(EpiError::InvalidParameter);
        }
        // A zero denominator is a degenerate distribution; an oversized
        // numerator or denominator is a malformed parameter.
        for p in 0..params.len()
            invariant
                2 <= params@.len() <= 4,
                forall|t: int| 0 <= t < p ==> (#[trigger] params@[t]).wf(),
        {
            if params[p].den == 0 {
                return Err(EpiError::DistributionFit);
            }
        }
        for p in 0..params.len()
            invariant
                2 <= params@.len() <= 4,
                forall|t: int| 0 <= t < params@.len() ==> (#[trigger] params@[t]).wf(),
                forall|t: int| 0 <= t < p ==> (#[trigger] params@[t]).bounded(),
        {
            if params[p].num > RATIO_LIMIT || params[p].den > RATIO_LIMIT {
                return Err(EpiError::InvalidParameter);
            }
        }
        if params.len() == 2 {
            self.outbreak_type = OutbreakType::SIR;
        } else if params.len() == 3 {
            self.outbreak_type = OutbreakType::SIRS;
        } else {
            self.outbreak_type = OutbreakType::SEIRS;
        }
        self.parameters = params;
        Ok(())
    }

    /// The current `[S, E, I, R]` compartment counts; they always add up to
    /// the number of nodes.
    pub fn count_states(&self) -> (row: Vec<usize>)
        ensures
            row@.len() == 4,
            row@[0] == kind_count(self.nodal_states@, Kind::S),
            row@[1] == kind_count(self.nodal_states@, Kind::E),
            row@[2] == kind_count(self.nodal_states@, Kind::I),
            row@[3] == kind_count(self.nodal_states@, Kind::R),
            row@[0] + row@[1] + row@[2] + row@[3] == self.nodal_states@.len(),
    {
        let n = self.nodal_states.len();
        let mut cs: usize = 0;
        let mut ce: usize = 0;
        let mut ci: usize = 0;
        let mut cr: usize = 0;
        for v in 0..n
            invariant
                n == self.nodal_states@.len(),
                cs == count_match_prefix(self.nodal_states@, kind_pred(Kind::S), v as int),
                ce == count_match_prefix(self.nodal_states@, kind_pred(Kind::E), v as int),
                ci == count_match_prefix(self.nodal_states@, kind_pred(Kind::I), v as int),
                cr == count_match_prefix(self.nodal_states@, kind_pred(Kind::R), v as int),
                cs + ce + ci + cr == v,
        {
            match self.nodal_states[v] {
                State::Susceptible => {
                    cs = cs + 1;
                },
                State::Exposed(_) => {
                    ce = ce + 1;
                },
                State::Infected(_) => {
                    ci = ci + 1;
                },
                State::Recovered(_) => {
                    cr = cr + 1;
                },
            }
        }
        proof {
            lemma_kind_counts_total(self.nodal_states@, n as int);
        }
        let mut row: Vec<usize> = Vec::new();
        row.push(cs);
        row.push(ce);
        row.push(ci);
        row.push(cr);
        row
    }
}

/// `round(n * num / den)`, computed half-up in integer arithmetic.
pub open spec fn round_frac(n: int, num: int, den: int) -> int {
    (2 * n * num + den) / (2 * den)
}

/// Rounding a fraction of `n` with `num <= den` stays within `0 .. n`.
pub proof fn lemma_round_frac_bounds(n: int, num: int, den: int)
    requires
        0 <= n,
        0 <= num <= den,
        1 <= den,
    ensures
        0 <= round_frac(n, num, den) <= n,
{
    assert(2 * n * num >= 0) by (nonlinear_arith)
        requires
            n >= 0 && num >= 0,
    ;
    lemma_div_is_ordered(0, 2 * n * num + den, 2 * den);
    assert(2 * n * num + den <= 2 * n * den + den) by (nonlinear_arith)
        requires
            n >= 0 && num <= den,
    ;
    lemma_div_is_ordered(2 * n * num + den, 2 * n * den + den, 2 * den);
    assert(2 * n * den + den == n * (2 * den) + den) by (nonlinear_arith);
    lemma_fundamental_div_mod_converse(n * (2 * den) + den, 2 * den, n, den);
}

impl NetworkProperties {
    /// Seeds the outbreak: marks `round(n * initial fraction)` nodes,
    /// chosen uniformly without replacement by a partial shuffle, as
    /// infected, and appends the first compartment snapshot to the history.
    pub fn initialize_infection<S: UniformSource>(&mut self, frac: Ratio, src: &mut S)
        requires
            frac.wf(),
            frac.bounded(),
            frac.num <= frac.den,
            forall|v: int|
                0 <= v < old(self).nodal_states@.len() ==> (#[trigger] old(self).nodal_states@[v])
                    == State::Susceptible,
        ensures
            final(self).nodal_states@.len() == old(self).nodal_states@.len(),
            ({
                let n = old(self).nodal_states@.len() as int;
                let k = round_frac(n, frac.num as int, frac.den as int);
                &&& kind_count(final(self).nodal_states@, Kind::I) == k
                &&& kind_count(final(self).nodal_states@, Kind::S) == n - k
                &&& kind_count(final(self).nodal_states@, Kind::E) == 0
                &&& kind_count(final(self).nodal_states@, Kind::R) == 0
                &&& forall|v: int|
                    0 <= v < n ==> (#[trigger] final(self).nodal_states@[v])
                        == State::Susceptible || final(self).nodal_states@[v] == State::Infected(0)
                &&& final(self).results@.len() == old(self).results@.len() + 1
                &&& final(self).results@.drop_last() == old(self).results@
                &&& final(self).results@.last()@ =~= seq![
                    (n - k) as usize,
                    0usize,
                    k as usize,
                    0usize,
                ]
                &&& final(self).results@.last()@.len() == 4
                &&& ({
                    let row = final(self).results@.last()@;
                    row[0] + row[1] + row[2] + row[3] == n
                })
            }),
            final(self).result_type == old(self).result_type,
            final(self).outbreak_type == old(self).outbreak_type,
            final(self).parameters == old(self).parameters,
            final(self).secondary_cases == old(self).secondary_cases,
    {
        let n = self.nodal_states.len();
        // Half-up rounding of n * num / den, exact in 128-bit arithmetic.
        proof {
            let ni = n as int;
            let nu = frac.num as int;
            let de = frac.den as int;
            assert(2 * ni * nu + de < 0x1_0000_0000_0000_0000_0000_0000_0000_0000int)
                by (nonlinear_arith)
                requires
                    0 <= ni <= 0xFFFF_FFFF_FFFF_FFFFint && 0 <= nu <= 0xFFFF_FFFFint && 1 <= de
                        <= 0xFFFF_FFFFint,
            ;
            assert(2 * ni * nu >= 0) by (nonlinear_arith)
                requires
                    ni >= 0 && nu >= 0,
            ;
            lemma_round_frac_bounds(ni, nu, de);
        }
        let numerator: u128 = 2u128 * (n as u128) * (frac.num as u128) + (frac.den as u128);
        let divisor: u128 = 2u128 * (frac.den as u128);
        let q: u128 = numerator / divisor;
        let k = q as usize;
        proof {
            assert(q == round_frac(n as int, frac.num as int, frac.den as int));
            assert(k as int == round_frac(n as int, frac.num as int, frac.den as int));
        }

        let mut indices: Vec<usize> = Vec::new();
        for v in 0..n
            invariant
                indices@.len() == v,
                forall|t: int| 0 <= t < v ==> (#[trigger] indices@[t]) == t,
        {
            indices.push(v);
        }
        proof {
            assert(indices@.no_duplicates());
        }
        shuffle(&mut indices, src);
        proof {
            // Shuffling permutes the identity list, so every entry is a
            // valid distinct node index.
            assert forall|t: int| 0 <= t < indices@.len() implies (#[trigger] indices@[t])
                < n by {
                let x = indices@[t];
                assert(indices@.contains(x));
            }
            assert(indices@.take(k as int).no_duplicates()) by {
                assert(forall|i: int, j: int|
                    0 <= i < j < k ==> indices@.take(k as int)[i] == indices@[i]
                        && indices@.take(k as int)[j] == indices@[j]);
            }
            lemma_count_match_all(
                self.nodal_states@,
                kind_pred(Kind::S),
                self.nodal_states@.len() as int,
            );
            lemma_count_match_none(
                self.nodal_states@,
                kind_pred(Kind::E),
                self.nodal_states@.len() as int,
            );
            lemma_count_match_none(
                self.nodal_states@,
                kind_pred(Kind::I),
                self.nodal_states@.len() as int,
            );
            lemma_count_match_none(
                self.nodal_states@,
                kind_pred(Kind::R),
                self.nodal_states@.len() as int,
            );
        }
        transition_nodes(&mut self.nodal_states, &indices, k, State::Infected(0), Ghost(Kind::S));
        let row = self.count_states();
        self.results.push(row);
        proof {
            assert(final(self).results@.drop_last() =~= old(self).results@);
        }
    }
}

/// The secondary-case counts of the removed nodes among the first `k`.
pub open spec fn sec_filter(states: Seq<State>, sc: Seq<usize>, k: int) -> Seq<usize>
    decreases k,
{
    if k <= 0 {
        Seq::empty()
    } else {
        sec_filter(states, sc, k - 1) + if kind_of(states[k - 1]) == Kind::R {
            seq![sc[k - 1]]
        } else {
            Seq::empty()
        }
    }
}

/// A tagged simulation result, one variant per `ResultType`: the full
/// compartment time series, the per-replicate infected-count series, or the
/// secondary-case distribution of removed nodes.
#[derive(Debug)]
pub enum Output {
    Sir(Vec<Vec<usize>>),
    AvgInfections(Vec<Vec<usize>>),
    SecondaryCases(Vec<Vec<usize>>),
}

/// An element-wise copy of a row of counts.
pub fn copy_row(row: &Vec<usize>) -> (c: Vec<usize>)
    ensures
        c@ == row@,
{
    let mut c: Vec<usize> = Vec::new();
    for t in 0..row.len()
        invariant
            c@.len() == t,
            forall|u: int| 0 <= u < t ==> (#[trigger] c@[u]) == row@[u],
    {
        c.push(row[t]);
    }
    proof {
        assert(c@ =~= row@);
    }
    c
}

/// An element-wise copy of a count matrix.
pub fn copy_rows(rows: &Vec<Vec<usize>>) -> (c: Vec<Vec<usize>>)
    ensures
        c@.len() == rows@.len(),
        forall|r: int| 0 <= r < rows@.len() ==> (#[trigger] c@[r])@ == rows@[r]@,
{
    let mut c: Vec<Vec<usize>> = Vec::new();
    for r in 0..rows.len()
        invariant
            c@.len() == r,
            forall|u: int| 0 <= u < r ==> (#[trigger] c@[u])@ == rows@[u]@,
    {
        c.push(copy_row(&rows[r]));
    }
    c
}

impl Output {
    /// An empty compartment time series.
    pub fn new() -> (out: Output)
        ensures
            out is Sir,
            out->Sir_0@.len() == 0,
    {
        Output::Sir(Vec::new())
    }

    /// Folds a finished realization into the result shape its
    /// `ResultType` asks for: the whole history, the infected column, or
    /// the secondary-case counts of removed nodes.
    pub fn from_properties(props: &NetworkProperties) -> (out: Output)
        requires
            rows_wf(props.results@),
            props.secondary_cases@.len() == props.nodal_states@.len(),
        ensures
            props.result_type is SIR ==> out is Sir && out->Sir_0@.len() == props.results@.len()
                && forall|r: int|
                0 <= r < props.results@.len() ==> (#[trigger] out->Sir_0@[r])@
                    == props.results@[r]@,
            props.result_type is AvgInfections ==> out is AvgInfections && out->AvgInfections_0@.len()
                == 1 && out->AvgInfections_0@[0]@.len() == props.results@.len() && forall|r: int|
                0 <= r < props.results@.len() ==> (#[trigger] out->AvgInfections_0@[0]@[r])
                    == props.results@[r]@[2],
            props.result_type is SecondaryCases ==> out is SecondaryCases
                && out->SecondaryCases_0@.len() == 1 && out->SecondaryCases_0@[0]@ == sec_filter(
                props.nodal_states@,
                props.secondary_cases@,
                props.nodal_states@.len() as int,
            ),
    {
        match props.result_type {
            ResultType::SIR => Output::Sir(copy_rows(&props.results)),
            ResultType::AvgInfections(_) => {
                let mut series: Vec<usize> = Vec::new();
                for r in 0..props.results.len()
                    invariant
                        rows_wf(props.results@),
                        series@.len() == r,
                        forall|u: int|
                            0 <= u < r ==> (#[trigger] series@[u]) == props.results@[u]@[2],
                {
                    series.push(props.results[r][2]);
                }
                let mut wrapped: Vec<Vec<usize>> = Vec::new();
                wrapped.push(series);
                Output::AvgInfections(wrapped)
            },
            ResultType::SecondaryCases(_) => {
                let n = props.nodal_states.len();
                let mut row: Vec<usize> = Vec::new();
                for v in 0..n
                    invariant
                        n == props.nodal_states@.len(),
                        n == props.secondary_cases@.len(),
                        row@ == sec_filter(props.nodal_states@, props.secondary_cases@, v as int),
                {
                    match props.nodal_states[v] {
                        State::Recovered(_) => {
                            row.push(props.secondary_cases[v]);
                        },
                        _ => {},
                    }
                    proof {
                        assert(row@ =~= sec_filter(
                            props.nodal_states@,
                            props.secondary_cases@,
                            v as int + 1,
                        ));
                    }
                }
                let mut wrapped: Vec<Vec<usize>> = Vec::new();
                wrapped.push(row);
                Output::SecondaryCases(wrapped)
            },
        }
    }
}

/// Positive bounded node weights, one per node.
pub open spec fn node_weights_ok(w: Seq<u64>, n: usize) -> bool {
    w.len() == n && forall|t: int| 0 <= t < n ==> 1 <= #[trigger] w[t] <= RATIO_LIMIT
}

/// The row indices of the first `k` rows of the adjacency structure,
/// flattened in row order: each row index repeated once per neighbor.
pub open spec fn flat_rows(adj: Seq<Vec<usize>>, k: int) -> Seq<usize>
    decreases k,
{
    if k <= 0 {
        Seq::empty()
    } else {
        flat_rows(adj, k - 1) + Seq::new(adj[k - 1]@.len(), |x: int| (k - 1) as usize)
    }
}

/// The column indices of the first `k` rows, flattened in row order.
pub open spec fn flat_cols(adj: Seq<Vec<usize>>, k: int) -> Seq<usize>
    decreases k,
{
    if k <= 0 {
        Seq::empty()
    } else {
        flat_cols(adj, k - 1) + adj[k - 1]@
    }
}

/// A network flattened into parallel coordinate lists: one `(row, column,
/// value)` triplet per directed edge (so each undirected edge appears in
/// both orientations, with unit value), plus the per-node labels and
/// degrees.
#[derive(Debug)]
pub struct SerializeableNetwork {
    pub row_idx: Vec<usize>,
    pub col_idx: Vec<usize>,
    pub values: Vec<u64>,
    pub ages: Vec<usize>,
    pub degrees: Vec<usize>,
}

impl SerializeableNetwork {
    /// All lists empty.
    pub fn new() -> (r: SerializeableNetwork)
        ensures
            r.row_idx@.len() == 0,
            r.col_idx@.len() == 0,
            r.values@.len() == 0,
            r.ages@.len() == 0,
            r.degrees@.len() == 0,
    {
        SerializeableNetwork {
            row_idx: Vec::new(),
            col_idx: Vec::new(),
            values: Vec::new(),
            ages: Vec::new(),
            degrees: Vec::new(),
        }
    }

    /// Flattens a network into its triplet lists: rows and columns walk the
    /// adjacency structure in row order, every value is the unit edge
    /// weight, and labels and degrees are copied through.
    pub fn from(network_structure: &NetworkStructure) -> (r: SerializeableNetwork)
        ensures
            r.row_idx@ == flat_rows(
                network_structure.adjacency_matrix@,
                network_structure.spec_n(),
            ),
            r.col_idx@ == flat_cols(
                network_structure.adjacency_matrix@,
                network_structure.spec_n(),
            ),
            r.values@.len() == r.row_idx@.len(),
            forall|t: int| 0 <= t < r.values@.len() ==> (#[trigger] r.values@[t]) == 1,
            r.ages@ == network_structure.age_brackets@,
            r.degrees@ == network_structure.degree@,
    {
        let n = network_structure.adjacency_matrix.len();
        let mut row_idx: Vec<usize> = Vec::new();
        let mut col_idx: Vec<usize> = Vec::new();
        let mut values: Vec<u64> = Vec::new();
        for i in 0..n
            invariant
                n == network_structure.adjacency_matrix@.len(),
                row_idx@ == flat_rows(network_structure.adjacency_matrix@, i as int),
                col_idx@ == flat_cols(network_structure.adjacency_matrix@, i as int),
                values@.len() == row_idx@.len(),
                col_idx@.len() == row_idx@.len(),
                forall|t: int| 0 <= t < values@.len() ==> (#[trigger] values@[t]) == 1,
        {
            let row_len = network_structure.adjacency_matrix[i].len();
            for x in 0..row_len
                invariant
                    n == network_structure.adjacency_matrix@.len(),
                    i < n,
                    row_len == network_structure.adjacency_matrix@[i as int]@.len(),
                    row_idx@ == flat_rows(network_structure.adjacency_matrix@, i as int)
                        + Seq::new(x as nat, |y: int| i as usize),
                    col_idx@ == flat_cols(network_structure.adjacency_matrix@, i as int)
                        + network_structure.adjacency_matrix@[i as int]@.take(x as int),
                    values@.len() == row_idx@.len(),
                    col_idx@.len() == row_idx@.len(),
                    forall|t: int| 0 <= t < values@.len() ==> (#[trigger] values@[t]) == 1,
            {
                row_idx.push(i);
                col_idx.push(network_structure.adjacency_matrix[i][x]);
                values.push(1);
                proof {
                    assert(row_idx@ =~= flat_rows(network_structure.adjacency_matrix@, i as int)
                        + Seq::new((x + 1) as nat, |y: int| i as usize));
                    assert(col_idx@ =~= flat_cols(network_structure.adjacency_matrix@, i as int)
                        + network_structure.adjacency_matrix@[i as int]@.take(x as int + 1));
                }
            }
            proof {
                assert(row_idx@ =~= flat_rows(network_structure.adjacency_matrix@, i as int + 1));
                assert(col_idx@ =~= flat_cols(network_structure.adjacency_matrix@, i as int + 1));
            }
        }
        let mut ages: Vec<usize> = Vec::new();
        for t in 0..network_structure.age_brackets.len()
            invariant
                ages@.len() == t,
                forall|u: int|
                    0 <= u < t ==> (#[trigger] ages@[u]) == network_structure.age_brackets@[u],
        {
            ages.push(network_structure.age_brackets[t]);
        }
        let mut degrees: Vec<usize> = Vec::new();
        for t in 0..network_structure.degree.len()
            invariant
                degrees@.len() == t,
                forall|u: int|
                    0 <= u < t ==> (#[trigger] degrees@[u]) == network_structure.degree@[u],
        {
            degrees.push(network_structure.degree[t]);
        }
        proof {
            assert(ages@ =~= network_structure.age_brackets@);
            assert(degrees@ =~= network_structure.degree@);
        }
        SerializeableNetwork { row_idx, col_idx, values, ages, degrees }
    }
}

/// The inputs `new_ba` accepts.
pub open spec fn ba_inputs_ok(n: usize, m0: usize, m: usize) -> bool {
    m <= m0 && m0 <= n && (m == 0 || m0 >= 2)
}

} // verus!
