use crate::board::lemma_grid_index;
use crate::clock;
use crate::parse::{
    spec_is_u64_token, spec_lines, spec_tokens, spec_u64_value, parse_u64, split_lines,
    split_tokens,
};
use crate::rng::RandomSource;
use vstd::prelude::*;

verus! {

/// The largest value a single edge cost can have.
pub const MAX_EDGE_COST: u64 = 0xffff_ffff;

/// A square matrix of edge costs: entry `values[a * n + b]` is the cost of
/// travelling from node `a` to node `b`.
#[derive(Debug, Clone)]
pub struct CostMatrix {
    pub values: Vec<u32>,
    pub n: usize,
}

impl CostMatrix {
    /// The flat vector really holds an `n` by `n` matrix.
    pub open spec fn wf(self) -> bool {
        self.values@.len() == self.n * self.n
    }

    /// The cost of the edge from node `a` to node `b`.
    pub open spec fn spec_cost(self, a: int, b: int) -> int {
        self.values@[a * self.n + b] as int
    }

    /// A cost matrix never has more nodes than edge costs can sum in 64
    /// bits: `n * n` entries exist in memory, so `n` fits in 32 bits.
    pub proof fn lemma_n_bound(self)
        requires
            self.wf(),
            self.values@.len() <= 0xffff_ffff_ffff_ffff,
        ensures
            self.n <= MAX_EDGE_COST,
    {
        if self.n > MAX_EDGE_COST {
            assert((self.n as int) * (self.n as int) > 0xffff_ffff_ffff_ffff) by (nonlinear_arith)
                requires
                    self.n as int > 0xffff_ffff,
            ;
        }
    }

    pub fn cost(&self, a: usize, b: usize) -> (c: u32)
        requires
            self.wf(),
            a < self.n,
            b < self.n,
        ensures
            c as int == self.spec_cost(a as int, b as int),
    {
        let _matrix_len = self.values.len();
        proof {
            lemma_grid_index(b as int, a as int, self.n as int, self.n as int);
        }
        self.values[a * self.n + b]
    }
}

/// The cost of the edges between consecutive nodes from position `k` to the
/// end of the node list.
pub open spec fn spec_cost_from(m: CostMatrix, nodes: Seq<usize>, k: int) -> int
    decreases nodes.len() - k when 0 <= k
{
    if k + 1 >= nodes.len() {
        0
    } else {
        m.spec_cost(nodes[k] as int, nodes[k + 1] as int) + spec_cost_from(m, nodes, k + 1)
    }
}

/// The full cost of a node list: the sum of the edge costs between its
/// consecutive nodes.
pub open spec fn spec_tour_cost(m: CostMatrix, nodes: Seq<usize>) -> int {
    spec_cost_from(m, nodes, 0)
}

/// The cost of the edges between consecutive nodes from position `k` up to
/// position `t`.
pub open spec fn spec_cost_between(m: CostMatrix, nodes: Seq<usize>, k: int, t: int) -> int
    decreases t - k when k <= t
{
    if k >= t {
        0
    } else {
        m.spec_cost(nodes[k] as int, nodes[k + 1] as int) + spec_cost_between(m, nodes, k + 1, t)
    }
}

/// The tail sum splits at any position into a bounded stretch and the
/// remaining tail.
pub proof fn lemma_cost_split(m: CostMatrix, nodes: Seq<usize>, k: int, t: int)
    requires
        0 <= k <= t <= nodes.len() - 1,
    ensures
        spec_cost_from(m, nodes, k) == spec_cost_between(m, nodes, k, t) + spec_cost_from(
            m,
            nodes,
            t,
        ),
    decreases t - k,
{
    if k < t {
        lemma_cost_split(m, nodes, k + 1, t);
    }
}

/// Two node lists that agree on positions `k` through `t` have the same
/// stretch cost there.
pub proof fn lemma_cost_between_agree(
    m: CostMatrix,
    s1: Seq<usize>,
    s2: Seq<usize>,
    k: int,
    t: int,
)
    requires
        0 <= k <= t,
        forall|i: int| k <= i <= t ==> s1[i] == s2[i],
    ensures
        spec_cost_between(m, s1, k, t) == spec_cost_between(m, s2, k, t),
    decreases t - k,
{
    if k < t {
        lemma_cost_between_agree(m, s1, s2, k + 1, t);
    }
}

/// Every stretch cost is non-negative and each edge is below the edge-cost
/// cap, so the stretch is bounded by its length times the cap.
pub proof fn lemma_cost_between_bounds(m: CostMatrix, nodes: Seq<usize>, k: int, t: int)
    requires
        0 <= k <= t,
    ensures
        0 <= spec_cost_between(m, nodes, k, t),
        spec_cost_between(m, nodes, k, t) <= (t - k) * (MAX_EDGE_COST as int),
    decreases t - k,
{
    if k < t {
        lemma_cost_between_bounds(m, nodes, k + 1, t);
        assert((t - k) * (MAX_EDGE_COST as int) == (MAX_EDGE_COST as int) + (t - k - 1) * (
        MAX_EDGE_COST as int)) by (nonlinear_arith);
    } else {
        assert((t - k) * (MAX_EDGE_COST as int) == 0) by (nonlinear_arith)
            requires
                t == k,
        ;
    }
}

/// The tail sum from `k` equals the stretch from `k` to the last position.
pub proof fn lemma_cost_from_is_between(m: CostMatrix, nodes: Seq<usize>, k: int)
    requires
        0 <= k,
    ensures
        spec_cost_from(m, nodes, k) == spec_cost_between(
            m,
            nodes,
            k,
            if k <= nodes.len() - 1 {
                nodes.len() - 1
            } else {
                k
            },
        ),
    decreases nodes.len() - k,
{
    if k + 1 < nodes.len() {
        lemma_cost_from_is_between(m, nodes, k + 1);
        lemma_cost_split(m, nodes, k, nodes.len() - 1);
    }
}

/// A closed round trip over `n` nodes: it starts and ends at the depot,
/// node zero, and visits every node exactly once in between.
pub open spec fn spec_is_tour(nodes: Seq<usize>, n: nat) -> bool {
    &&& n >= 1
    &&& nodes.len() == n + 1
    &&& nodes[0] == 0
    &&& nodes[n as int] == 0
    &&& forall|i: int| 0 <= i < n ==> (#[trigger] nodes[i]) < n
    &&& forall|i: int, j: int| 0 <= i < j < n ==> nodes[i] != nodes[j]
}

/// A node order for the travelling-salesman search.
#[derive(Debug, Clone)]
pub struct Path {
    pub nodes: Vec<usize>,
}

fn clone_nodes(v: &Vec<usize>) -> (r: Vec<usize>)
    ensures
        r@ == v@,
{
    let mut r: Vec<usize> = Vec::new();
    let mut i: usize = 0;
    while i < v.len()
        invariant
            i <= v@.len(),
            r@ == v@.take(i as int),
        decreases v@.len() - i,
    {
        r.push(v[i]);
        proof {
            assert(r@ =~= v@.take(i + 1));
        }
        i = i + 1;
    }
    proof {
        assert(v@.take(v@.len() as int) =~= v@);
    }
    r
}

impl Path {
    /// A uniformly shuffled round trip: the depot stays at both ends and
    /// the other nodes are permuted by a backwards Fisher-Yates pass.
    pub fn new_random(size: usize, rng: &mut RandomSource) -> (r: Path)
        requires
            1 <= size,
            size <= 0xffff_ffff,
        ensures
            spec_is_tour(r.nodes@, size as nat),
    {
        let mut nodes: Vec<usize> = Vec::new();
        let mut i: usize = 0;
        while i < size
            invariant
                i <= size,
                nodes@.len() == i,
                forall|t: int| 0 <= t < i ==> (#[trigger] nodes@[t]) == t,
            decreases size - i,
        {
            nodes.push(i);
            i = i + 1;
        }
        let mut k: usize = size;
        while k > 2
            invariant
                2 <= k <= size || size < 2,
                k <= size,
                nodes@.len() == size,
                forall|t: int| 0 <= t < size ==> (#[trigger] nodes@[t]) < size,
                nodes@[0] == 0,
                forall|a: int, b: int| 0 <= a < b < size ==> nodes@[a] != nodes@[b],
            decreases k,
        {
            let j = rng.gen_index(k - 1) + 1;
            let a = k - 1;
            let va = nodes[a];
            let vj = nodes[j];
            nodes[a] = vj;
            nodes[j] = va;
            k = k - 1;
        }
        nodes.push(0);
        Path { nodes }
    }
}

/// A finished search result: the visited nodes, one-based, and the cost of
/// the round trip.
#[derive(Debug, Clone)]
pub struct Solution {
    pub path: Vec<usize>,
    pub cost: u64,
}

/// A node order together with its evaluated round-trip cost.
#[derive(Debug, Clone)]
pub struct PathWithCost {
    pub path: Path,
    pub cost: u64,
}

impl PathWithCost {
    /// The cached cost really is the cost of the cached tour on `m`.
    pub open spec fn wf(self, m: CostMatrix) -> bool {
        &&& spec_is_tour(self.path.nodes@, m.n as nat)
        &&& self.cost as int == spec_tour_cost(m, self.path.nodes@)
    }

    pub fn cost(&self) -> (c: u64)
        ensures
            c == self.cost,
    {
        self.cost
    }

    pub fn inner(&self) -> (p: &Path)
        ensures
            p == &self.path,
    {
        &self.path
    }

    pub fn into_inner(self) -> (p: Path)
        ensures
            p == self.path,
    {
        self.path
    }

    /// The evaluated tour as a one-based solution.
    pub fn into_solution(self) -> (r: Solution)
        requires
            forall|i: int| 0 <= i < self.path.nodes@.len() ==> (#[trigger] self.path.nodes@[i])
                < usize::MAX,
        ensures
            r.cost == self.cost,
            r.path@.len() == self.path.nodes@.len(),
            forall|i: int| 0 <= i < r.path@.len() ==> (#[trigger] r.path@[i]) == self.path.nodes@[i]
                + 1,
    {
        let mut nodes = self.path.nodes;
        let mut i: usize = 0;
        while i < nodes.len()
            invariant
                i <= nodes@.len(),
                nodes@.len() == self.path.nodes@.len(),
                forall|t: int| 0 <= t < nodes@.len() ==> (#[trigger] self.path.nodes@[t])
                    < usize::MAX,
                forall|t: int| i <= t < nodes@.len() ==> (#[trigger] nodes@[t])
                    == self.path.nodes@[t],
                forall|t: int| 0 <= t < i ==> (#[trigger] nodes@[t]) == self.path.nodes@[t] + 1,
            decreases nodes@.len() - i,
        {
            let v = nodes[i];
            nodes[i] = v + 1;
            i = i + 1;
        }
        Solution { path: nodes, cost: self.cost }
    }

    /// The full cost of `path` on `costs`, summed edge by edge.
    pub fn from_path(path: Path, costs: &CostMatrix) -> (r: PathWithCost)
        requires
            costs.wf(),
            spec_is_tour(path.nodes@, costs.n as nat),
        ensures
            r.path == path,
            r.wf(*costs),
    {
        let _matrix_len = costs.values.len();
        proof {
            costs.lemma_n_bound();
            lemma_cost_from_is_between(*costs, path.nodes@, 0);
            lemma_cost_between_bounds(*costs, path.nodes@, 0, path.nodes@.len() - 1);
        }
        let len = path.nodes.len();
        let mut sum: u64 = 0;
        let mut k: usize = 0;
        while k + 1 < len
            invariant
                costs.wf(),
                spec_is_tour(path.nodes@, costs.n as nat),
                costs.n <= MAX_EDGE_COST,
                len == path.nodes@.len(),
                k <= len - 1 || len == 0,
                sum as int == spec_cost_between(*costs, path.nodes@, 0, k as int),
                sum as int <= (k as int) * (MAX_EDGE_COST as int),
            decreases len - k,
        {
            let a = path.nodes[k];
            let b = path.nodes[k + 1];
            proof {
                assert(a < costs.n && b < costs.n);
                lemma_cost_between_bounds(*costs, path.nodes@, 0, k as int);
                assert((k as int) * (MAX_EDGE_COST as int) + MAX_EDGE_COST == (k + 1) * (
                MAX_EDGE_COST as int)) by (nonlinear_arith);
                assert((k + 1) * (MAX_EDGE_COST as int) <= (len - 1) * (MAX_EDGE_COST as int))
                    by (nonlinear_arith)
                    requires
                        k + 1 <= len - 1,
                        MAX_EDGE_COST >= 0,
                ;
                assert((len - 1) * (MAX_EDGE_COST as int) <= (MAX_EDGE_COST as int) * (
                MAX_EDGE_COST as int)) by (nonlinear_arith)
                    requires
                        0 <= len - 1 <= MAX_EDGE_COST,
                ;
                lemma_cost_between_split_one(*costs, path.nodes@, k as int);
            }
            let c = costs.cost(a, b);
            sum = sum + (c as u64);
            k = k + 1;
        }
        proof {
            if len > 0 {
                lemma_cost_from_is_between(*costs, path.nodes@, 0);
            }
        }
        PathWithCost { path, cost: sum }
    }
}

/// Extending a stretch by one edge adds that edge's cost.
proof fn lemma_cost_between_split_one(m: CostMatrix, nodes: Seq<usize>, k: int)
    requires
        0 <= k,
    ensures
        spec_cost_between(m, nodes, 0, k + 1) == spec_cost_between(m, nodes, 0, k) + m.spec_cost(
            nodes[k] as int,
            nodes[k + 1] as int,
        ),
    decreases k,
{
    lemma_cost_between_shift(m, nodes, 0, k);
}

/// A tour's cost is non-negative and bounded by its edge count times the
/// edge-cost cap.
pub proof fn lemma_tour_cost_bound(m: CostMatrix, nodes: Seq<usize>)
    requires
        nodes.len() >= 1,
    ensures
        0 <= spec_tour_cost(m, nodes),
        spec_tour_cost(m, nodes) <= (nodes.len() - 1) * (MAX_EDGE_COST as int),
{
    lemma_cost_from_is_between(m, nodes, 0);
    lemma_cost_between_bounds(m, nodes, 0, nodes.len() - 1);
}

/// `s` with positions `i` and `j` exchanged.
pub open spec fn spec_swapped(s: Seq<usize>, i: int, j: int) -> Seq<usize> {
    s.update(i, s[j]).update(j, s[i])
}

/// The incremental cost formulas for a swap of two non-depot positions:
/// exchanging the nodes at `i` and `j` replaces exactly the edges around
/// them, three edges when the positions are adjacent and four otherwise,
/// and the rest of the tour cost is unchanged.  The removed edges are part
/// of the old cost, so subtracting them never goes below zero.
pub proof fn lemma_swap_cost(m: CostMatrix, s: Seq<usize>, i: int, j: int)
    requires
        1 <= i < j <= s.len() - 2,
    ensures
        j == i + 1 ==> spec_tour_cost(m, spec_swapped(s, i, j)) == spec_tour_cost(m, s) - (
        m.spec_cost(s[i - 1] as int, s[i] as int) + m.spec_cost(s[i] as int, s[j] as int)
            + m.spec_cost(s[j] as int, s[j + 1] as int)) + (m.spec_cost(
            s[i - 1] as int,
            s[j] as int,
        ) + m.spec_cost(s[j] as int, s[i] as int) + m.spec_cost(s[i] as int, s[j + 1] as int)),
        j == i + 1 ==> m.spec_cost(s[i - 1] as int, s[i] as int) + m.spec_cost(
            s[i] as int,
            s[j] as int,
        ) + m.spec_cost(s[j] as int, s[j + 1] as int) <= spec_tour_cost(m, s),
        j > i + 1 ==> spec_tour_cost(m, spec_swapped(s, i, j)) == spec_tour_cost(m, s) - (
        m.spec_cost(s[i - 1] as int, s[i] as int) + m.spec_cost(s[i] as int, s[i + 1] as int)
            + m.spec_cost(s[j - 1] as int, s[j] as int) + m.spec_cost(
            s[j] as int,
            s[j + 1] as int,
        )) + (m.spec_cost(s[i - 1] as int, s[j] as int) + m.spec_cost(
            s[j] as int,
            s[i + 1] as int,
        ) + m.spec_cost(s[j - 1] as int, s[i] as int) + m.spec_cost(s[i] as int, s[j + 1] as int)),
        j > i + 1 ==> m.spec_cost(s[i - 1] as int, s[i] as int) + m.spec_cost(
            s[i] as int,
            s[i + 1] as int,
        ) + m.spec_cost(s[j - 1] as int, s[j] as int) + m.spec_cost(s[j] as int, s[j + 1] as int)
            <= spec_tour_cost(m, s),
{
    let t = spec_swapped(s, i, j);
    let last = s.len() - 1;
    lemma_cost_from_is_between(m, s, 0);
    lemma_cost_from_is_between(m, t, 0);
    if j == i + 1 {
        // Segments [0, i-1], [i-1, i+2], [i+2, last] of both tours.
        lemma_between_split3(m, s, i - 1, i + 2, last);
        lemma_between_split3(m, t, i - 1, i + 2, last);
        lemma_cost_between_agree(m, s, t, 0, i - 1);
        lemma_cost_between_agree(m, s, t, i + 2, last);
        lemma_between_three_edges(m, s, i - 1);
        lemma_between_three_edges(m, t, i - 1);
        lemma_cost_between_bounds(m, s, 0, i - 1);
        lemma_cost_between_bounds(m, s, i + 2, last);
    } else {
        // Segments [0, i-1], [i-1, i+1], [i+1, j-1], [j-1, j+1], [j+1, last].
        lemma_between_split5(m, s, i - 1, i + 1, j - 1, j + 1, last);
        lemma_between_split5(m, t, i - 1, i + 1, j - 1, j + 1, last);
        lemma_cost_between_agree(m, s, t, 0, i - 1);
        lemma_cost_between_agree(m, s, t, i + 1, j - 1);
        lemma_cost_between_agree(m, s, t, j + 1, last);
        lemma_between_two_edges(m, s, i - 1);
        lemma_between_two_edges(m, t, i - 1);
        lemma_between_two_edges(m, s, j - 1);
        lemma_between_two_edges(m, t, j - 1);
        lemma_cost_between_bounds(m, s, 0, i - 1);
        lemma_cost_between_bounds(m, s, i + 1, j - 1);
        lemma_cost_between_bounds(m, s, j + 1, last);
    }
}

/// A whole stretch splits at two interior positions.
proof fn lemma_between_split3(m: CostMatrix, x: Seq<usize>, a: int, b: int, last: int)
    requires
        0 <= a <= b <= last,
    ensures
        spec_cost_between(m, x, 0, last) == spec_cost_between(m, x, 0, a) + spec_cost_between(
            m,
            x,
            a,
            b,
        ) + spec_cost_between(m, x, b, last),
{
    lemma_between_concat(m, x, 0, a, b);
    lemma_between_concat(m, x, 0, b, last);
}

/// A whole stretch splits at four interior positions.
proof fn lemma_between_split5(
    m: CostMatrix,
    x: Seq<usize>,
    a: int,
    b: int,
    c: int,
    d: int,
    last: int,
)
    requires
        0 <= a <= b <= c <= d <= last,
    ensures
        spec_cost_between(m, x, 0, last) == spec_cost_between(m, x, 0, a) + spec_cost_between(
            m,
            x,
            a,
            b,
        ) + spec_cost_between(m, x, b, c) + spec_cost_between(m, x, c, d) + spec_cost_between(
            m,
            x,
            d,
            last,
        ),
{
    lemma_between_concat(m, x, 0, a, b);
    lemma_between_concat(m, x, 0, b, c);
    lemma_between_concat(m, x, 0, c, d);
    lemma_between_concat(m, x, 0, d, last);
}

/// Adjacent stretches concatenate.
proof fn lemma_between_concat(m: CostMatrix, x: Seq<usize>, a: int, b: int, c: int)
    requires
        a <= b <= c,
    ensures
        spec_cost_between(m, x, a, c) == spec_cost_between(m, x, a, b) + spec_cost_between(
            m,
            x,
            b,
            c,
        ),
    decreases b - a,
{
    if a < b {
        lemma_between_concat(m, x, a + 1, b, c);
    }
}

/// The two edges of a stretch of length two, spelled out.
proof fn lemma_between_two_edges(m: CostMatrix, x: Seq<usize>, k: int)
    ensures
        spec_cost_between(m, x, k, k + 2) == m.spec_cost(x[k] as int, x[k + 1] as int)
            + m.spec_cost(x[k + 1] as int, x[k + 2] as int),
{
    assert(spec_cost_between(m, x, k + 2, k + 2) == 0);
    assert(spec_cost_between(m, x, k + 1, k + 2) == m.spec_cost(x[k + 1] as int, x[k + 2] as int)
        + spec_cost_between(m, x, k + 2, k + 2));
    assert(spec_cost_between(m, x, k, k + 2) == m.spec_cost(x[k] as int, x[k + 1] as int)
        + spec_cost_between(m, x, k + 1, k + 2));
}

/// The three edges of a stretch of length three, spelled out.
proof fn lemma_between_three_edges(m: CostMatrix, x: Seq<usize>, k: int)
    ensures
        spec_cost_between(m, x, k, k + 3) == m.spec_cost(x[k] as int, x[k + 1] as int)
            + m.spec_cost(x[k + 1] as int, x[k + 2] as int) + m.spec_cost(
            x[k + 2] as int,
            x[k + 3] as int,
        ),
{
    lemma_between_two_edges(m, x, k + 1);
    assert(spec_cost_between(m, x, k, k + 3) == m.spec_cost(x[k] as int, x[k + 1] as int)
        + spec_cost_between(m, x, k + 1, k + 3));
}

/// A candidate tour produced by exchanging two non-depot positions of an
/// evaluated tour.  It owns a copy of the evaluated parent, so no borrow
/// outlives the round that produced it.
#[derive(Debug, Clone)]
pub struct NeighbourSwapNodes {
    pub original: PathWithCost,
    pub i: usize,
    pub j: usize,
    pub swapped: Path,
}

impl NeighbourSwapNodes {
    /// The swap really is a swap: the positions avoid the depot at both
    /// ends and the candidate's nodes are the parent's with `i` and `j`
    /// exchanged.
    pub open spec fn swap_ok(self) -> bool {
        &&& 1 <= self.i < self.j <= self.original.path.nodes@.len() - 2
        &&& self.swapped.nodes@ == spec_swapped(
            self.original.path.nodes@,
            self.i as int,
            self.j as int,
        )
    }

    pub fn from_path_with_cost(path: &PathWithCost, i: usize, j: usize) -> (r: NeighbourSwapNodes)
        requires
            1 <= i < j,
            j + 2 <= path.path.nodes@.len(),
        ensures
            r.original.path.nodes@ == path.path.nodes@,
            r.original.cost == path.cost,
            r.i == i,
            r.j == j,
            r.swap_ok(),
    {
        let mut nodes = clone_nodes(&path.path.nodes);
        let vi = nodes[i];
        let vj = nodes[j];
        nodes[i] = vj;
        nodes[j] = vi;
        NeighbourSwapNodes { original: path.clone_evaluated(), i, j, swapped: Path { nodes } }
    }

    pub fn as_path(&self) -> (p: &Path)
        ensures
            p == &self.swapped,
    {
        &self.swapped
    }

    /// The candidate with its cost computed incrementally from the parent's
    /// cost: only the edges around the swapped positions are exchanged.
    /// The result equals the full recomputation of the swapped tour's cost.
    pub fn into_path_with_cost(self, costs: &CostMatrix) -> (r: PathWithCost)
        requires
            costs.wf(),
            self.swap_ok(),
            self.original.wf(*costs),
        ensures
            r.path == self.swapped,
            r.wf(*costs),
            r.cost as int == spec_tour_cost(*costs, self.swapped.nodes@),
    {
        let i = self.i;
        let j = self.j;
        let _matrix_len = costs.values.len();
        proof {
            costs.lemma_n_bound();
        }
        let s = &self.original.path.nodes;
        let ghost sv: Seq<usize> = s@;
        let ghost n1: int = sv.len() as int;
        proof {
            assert(forall|k: int| 0 <= k < sv.len() ==> (#[trigger] sv[k]) < costs.n);
            lemma_swap_cost(*costs, sv, i as int, j as int);
            lemma_tour_cost_bound(*costs, spec_swapped(sv, i as int, j as int));
        }
        let (obsolete, fresh) = if j == i + 1 {
            let obsolete = costs.cost(s[i - 1], s[i]) as u64 + costs.cost(s[i], s[j]) as u64
                + costs.cost(s[j], s[j + 1]) as u64;
            let fresh = costs.cost(s[i - 1], s[j]) as u64 + costs.cost(s[j], s[i]) as u64
                + costs.cost(s[i], s[j + 1]) as u64;
            (obsolete, fresh)
        } else {
            let obsolete = costs.cost(s[i - 1], s[i]) as u64 + costs.cost(s[i], s[i + 1]) as u64
                + costs.cost(s[j - 1], s[j]) as u64 + costs.cost(s[j], s[j + 1]) as u64;
            let fresh = costs.cost(s[i - 1], s[j]) as u64 + costs.cost(s[j], s[i + 1]) as u64
                + costs.cost(s[j - 1], s[i]) as u64 + costs.cost(s[i], s[j + 1]) as u64;
            (obsolete, fresh)
        };
        proof {
            assert((n1 - 1) * (MAX_EDGE_COST as int) <= (MAX_EDGE_COST as int) * (
            MAX_EDGE_COST as int)) by (nonlinear_arith)
                requires
                    0 <= n1 - 1 <= MAX_EDGE_COST,
            ;
        }
        let base = self.original.cost - obsolete;
        let cost = base + fresh;
        PathWithCost { path: self.swapped, cost }
    }
}

impl PathWithCost {
    /// An explicit copy of an evaluated tour.
    pub fn clone_evaluated(&self) -> (r: PathWithCost)
        ensures
            r.path.nodes@ == self.path.nodes@,
            r.cost == self.cost,
    {
        PathWithCost { path: Path { nodes: clone_nodes(&self.path.nodes) }, cost: self.cost }
    }

    /// The candidate obtained by exchanging positions `i` and `j`.
    pub fn neighbour_swap_nodes(&self, i: usize, j: usize) -> (r: NeighbourSwapNodes)
        requires
            1 <= i < j,
            j + 2 <= self.path.nodes@.len(),
        ensures
            r.original.path.nodes@ == self.path.nodes@,
            r.original.cost == self.cost,
            r.i == i,
            r.j == j,
            r.swap_ok(),
    {
        NeighbourSwapNodes::from_path_with_cost(self, i, j)
    }
}

/// Unfolding helper: a stretch from `a` of positive length is its first
/// edge plus the rest, so appending on the right also works.
proof fn lemma_cost_between_shift(m: CostMatrix, nodes: Seq<usize>, a: int, t: int)
    requires
        0 <= a <= t,
    ensures
        spec_cost_between(m, nodes, a, t + 1) == spec_cost_between(m, nodes, a, t) + m.spec_cost(
            nodes[t] as int,
            nodes[t + 1] as int,
        ),
    decreases t - a,
{
    if a < t {
        lemma_cost_between_shift(m, nodes, a + 1, t);
    } else {
        assert(spec_cost_between(m, nodes, t + 1, t + 1) == 0);
        assert(spec_cost_between(m, nodes, t, t + 1) == m.spec_cost(
            nodes[t] as int,
            nodes[t + 1] as int,
        ) + spec_cost_between(m, nodes, t + 1, t + 1));
    }
}

fn nodes_eq(a: &Vec<usize>, b: &Vec<usize>) -> (r: bool)
    ensures
        r == (a@ == b@),
{
    if a.len() != b.len() {
        return false;
    }
    let mut i: usize = 0;
    while i < a.len()
        invariant
            i <= a@.len(),
            a@.len() == b@.len(),
            forall|t: int| 0 <= t < i ==> a@[t] == b@[t],
        decreases a@.len() - i,
    {
        if a[i] != b[i] {
            return false;
        }
        i = i + 1;
    }
    proof {
        assert(a@ =~= b@);
    }
    true
}

/// A recency set of canonical tour keys: the full node order of each tour
/// seen recently.  It is cleared and refilled by the search rounds, so it
/// stays bounded by the batch sizes that fill it.
pub struct TabuCollection {
    pub keys: Vec<Vec<usize>>,
}

impl TabuCollection {
    /// The node orders currently excluded.
    pub open spec fn spec_contains(self, key: Seq<usize>) -> bool {
        exists|i: int| 0 <= i < self.keys@.len() && self.keys@[i]@ == key
    }

    pub fn new() -> (r: TabuCollection)
        ensures
            forall|k: Seq<usize>| !r.spec_contains(k),
    {
        TabuCollection { keys: Vec::new() }
    }

    pub fn contains(&self, key: &Vec<usize>) -> (r: bool)
        ensures
            r == self.spec_contains(key@),
    {
        let mut i: usize = 0;
        while i < self.keys.len()
            invariant
                i <= self.keys@.len(),
                forall|t: int| 0 <= t < i ==> self.keys@[t]@ != key@,
            decreases self.keys@.len() - i,
        {
            if nodes_eq(&self.keys[i], key) {
                return true;
            }
            i = i + 1;
        }
        false
    }

    pub fn insert(&mut self, key: Vec<usize>)
        ensures
            forall|k: Seq<usize>| #[trigger]
                final(self).spec_contains(k) == (old(self).spec_contains(k) || k == key@),
    {
        self.keys.push(key);
        proof {
            assert forall|k: Seq<usize>| #[trigger]
                self.spec_contains(k) == (old(self).spec_contains(k) || k == key@) by {
                if old(self).spec_contains(k) {
                    let i = choose|i: int|
                        0 <= i < old(self).keys@.len() && old(self).keys@[i]@ == k;
                    assert(self.keys@[i]@ == k);
                }
                if k == key@ {
                    assert(self.keys@[self.keys@.len() - 1]@ == k);
                }
                if self.spec_contains(k) {
                    let i = choose|i: int| 0 <= i < self.keys@.len() && self.keys@[i]@ == k;
                    if i < self.keys@.len() - 1 {
                        assert(old(self).keys@[i]@ == k);
                    }
                }
            }
        }
    }

    pub fn clear(&mut self)
        ensures
            forall|k: Seq<usize>| !final(self).spec_contains(k),
    {
        self.keys.clear();
    }
}

/// A swap pair `(a1, b1)` comes before `(a2, b2)` in the generation order.
pub open spec fn spec_pair_before(a1: int, b1: int, a2: int, b2: int) -> bool {
    a1 < a2 || (a1 == a2 && b1 < b2)
}

/// The pair `(a, b)` names a legal swap for a node list of length `n1`.
pub open spec fn spec_valid_pair(a: int, b: int, n1: int) -> bool {
    1 <= a < b <= n1 - 2
}

/// The travelling-salesman solver: a cost matrix and a wall-clock budget in
/// milliseconds.
#[derive(Debug, Clone)]
pub struct Solver {
    pub distances: CostMatrix,
    pub time_limit_millis: u64,
}

/// How many rounds one restart of the tabu search runs before it starts
/// over from a fresh random tour.
pub const ROUNDS_PER_RESTART: u64 = 2000;

/// How many restarts the search allows; it only bounds the loop, which the
/// wall-clock budget ends first.
pub const RESTART_LIMIT: u64 = 0x1000_0000_0000;

impl Solver {
    /// A solver the search can run on.
    pub open spec fn wf(self) -> bool {
        &&& self.distances.wf()
        &&& self.distances.n >= 1
    }

    pub fn new(distances: CostMatrix, time_limit_millis: u64) -> (r: Solver)
        ensures
            r.distances == distances,
            r.time_limit_millis == time_limit_millis,
    {
        Solver { distances, time_limit_millis }
    }

    /// One tabu round: every swap neighbour of `current` whose node order
    /// is in neither exclusion set is evaluated, with its cost computed
    /// incrementally, and the cheapest survivor is returned.  No tour that
    /// the round started out excluding is returned, and the returned cost
    /// undercuts every other non-excluded swap of `current`.  Nothing comes
    /// back only when every legal swap is excluded.
    pub fn best_non_tabu_neighbour(
        &self,
        current: &PathWithCost,
        tabu: &TabuCollection,
        outer_tabu: &TabuCollection,
    ) -> (r: (Option<PathWithCost>, Vec<Vec<usize>>))
        requires
            self.wf(),
            current.wf(self.distances),
        ensures
            ({
                let s = current.path.nodes@;
                let n1 = s.len() as int;
                match r.0 {
                    Some(c) => {
                        &&& c.wf(self.distances)
                        &&& !tabu.spec_contains(c.path.nodes@)
                        &&& !outer_tabu.spec_contains(c.path.nodes@)
                        &&& exists|a: int, b: int|
                            spec_valid_pair(a, b, n1) && c.path.nodes@ == spec_swapped(s, a, b)
                        &&& forall|a: int, b: int|
                            spec_valid_pair(a, b, n1) && !tabu.spec_contains(
                                #[trigger] spec_swapped(s, a, b),
                            ) && !outer_tabu.spec_contains(spec_swapped(s, a, b))
                                ==> c.cost as int <= spec_tour_cost(
                                self.distances,
                                spec_swapped(s, a, b),
                            )
                    },
                    None => forall|a: int, b: int|
                        spec_valid_pair(a, b, n1) ==> tabu.spec_contains(
                            #[trigger] spec_swapped(s, a, b),
                        ) || outer_tabu.spec_contains(spec_swapped(s, a, b)),
                }
            }),
    {
        let ghost s: Seq<usize> = current.path.nodes@;
        let n1 = current.path.nodes.len();
        let ghost gn1: int = n1 as int;
        let mut best: Option<PathWithCost> = None;
        let mut seen: Vec<Vec<usize>> = Vec::new();
        if n1 < 4 {
            return (None, seen);
        }
        let mut i: usize = 1;
        while i < n1 - 2
            invariant
                self.wf(),
                current.wf(self.distances),
                s == current.path.nodes@,
                gn1 == s.len() as int,
                n1 == s.len(),
                4 <= n1,
                1 <= i <= n1 - 2,
                match best {
                    Some(c) => {
                        &&& c.wf(self.distances)
                        &&& !tabu.spec_contains(c.path.nodes@)
                        &&& !outer_tabu.spec_contains(c.path.nodes@)
                        &&& exists|a: int, b: int|
                            spec_valid_pair(a, b, gn1) && c.path.nodes@ == spec_swapped(s, a, b)
                        &&& forall|a: int, b: int|
                            spec_valid_pair(a, b, gn1) && spec_pair_before(a, b, i as int, a + 1)
                                && !tabu.spec_contains(#[trigger] spec_swapped(s, a, b))
                                && !outer_tabu.spec_contains(spec_swapped(s, a, b))
                                ==> c.cost as int <= spec_tour_cost(
                                self.distances,
                                spec_swapped(s, a, b),
                            )
                    },
                    None => forall|a: int, b: int|
                        spec_valid_pair(a, b, gn1) && spec_pair_before(a, b, i as int, a + 1)
                            ==> tabu.spec_contains(#[trigger] spec_swapped(s, a, b))
                                || outer_tabu.spec_contains(spec_swapped(s, a, b)),
                },
            decreases n1 - i,
        {
            let mut j: usize = i + 1;
            while j <= n1 - 2
                invariant
                    self.wf(),
                    current.wf(self.distances),
                    s == current.path.nodes@,
                    gn1 == s.len() as int,
                    n1 == s.len(),
                    4 <= n1,
                    1 <= i <= n1 - 3,
                    i + 1 <= j <= n1 - 1,
                    match best {
                        Some(c) => {
                            &&& c.wf(self.distances)
                            &&& !tabu.spec_contains(c.path.nodes@)
                            &&& !outer_tabu.spec_contains(c.path.nodes@)
                            &&& exists|a: int, b: int|
                                spec_valid_pair(a, b, gn1) && c.path.nodes@ == spec_swapped(
                                    s,
                                    a,
                                    b,
                                )
                            &&& forall|a: int, b: int|
                                spec_valid_pair(a, b, gn1) && spec_pair_before(
                                    a,
                                    b,
                                    i as int,
                                    j as int,
                                ) && !tabu.spec_contains(#[trigger] spec_swapped(s, a, b))
                                    && !outer_tabu.spec_contains(spec_swapped(s, a, b))
                                    ==> c.cost as int <= spec_tour_cost(
                                    self.distances,
                                    spec_swapped(s, a, b),
                                )
                        },
                        None => forall|a: int, b: int|
                            spec_valid_pair(a, b, gn1) && spec_pair_before(
                                a,
                                b,
                                i as int,
                                j as int,
                            ) ==> tabu.spec_contains(#[trigger] spec_swapped(s, a, b))
                                || outer_tabu.spec_contains(spec_swapped(s, a, b)),
                    },
                decreases n1 - j,
            {
                let candidate = current.neighbour_swap_nodes(i, j);
                let excluded = tabu.contains(&candidate.swapped.nodes) || outer_tabu.contains(
                    &candidate.swapped.nodes,
                );
                if !excluded {
                    seen.push(clone_nodes(&candidate.swapped.nodes));
                    let evaluated = candidate.into_path_with_cost(&self.distances);
                    let take_it = match &best {
                        Some(c) => evaluated.cost < c.cost,
                        None => true,
                    };
                    if take_it {
                        best = Some(evaluated);
                    }
                }
                j = j + 1;
            }
            i = i + 1;
        }
        (best, seen)
    }

    /// The time-bounded multi-start tabu search: random restarts, each
    /// running rounds of neighbourhood generation, exclusion filtering,
    /// incremental evaluation and greedy adoption, with discovered local
    /// optima kept in a longer-lived outer exclusion set.  The returned
    /// one-based node order is a round trip over all nodes and the returned
    /// cost is exactly the cost of that round trip.
    pub fn search(&self, rng: &mut RandomSource) -> (r: Solution)
        requires
            self.wf(),
        ensures
            exists|nodes: Seq<usize>|
                {
                    &&& spec_is_tour(nodes, self.distances.n as nat)
                    &&& #[trigger] spec_tour_cost(self.distances, nodes) == r.cost as int
                    &&& r.path@.len() == nodes.len()
                    &&& forall|i: int| 0 <= i < nodes.len() ==> r.path@[i] == nodes[i] + 1
                },
    {
        let n = self.distances.n;
        let _matrix_len = self.distances.values.len();
        proof {
            self.distances.lemma_n_bound();
        }
        let start = clock::instant_now();
        let mut tabu = TabuCollection::new();
        let mut outer_tabu = TabuCollection::new();

        let first = Path::new_random(n, rng);
        let mut best = PathWithCost::from_path(first, &self.distances);

        let mut restarts: u64 = RESTART_LIMIT;
        while restarts > 0 && clock::elapsed_millis(&start) < self.time_limit_millis
            invariant
                self.wf(),
                best.wf(self.distances),
                n == self.distances.n,
                1 <= n <= 0xffff_ffff,
            decreases restarts,
        {
            tabu.clear();
            let fresh = Path::new_random(n, rng);
            let mut current = PathWithCost::from_path(fresh, &self.distances);
            tabu.insert(clone_nodes(&current.path.nodes));
            let mut current_best = current.clone_evaluated();

            let mut round: u64 = 0;
            let mut stuck = false;
            while round < ROUNDS_PER_RESTART && !stuck
                invariant
                    self.wf(),
                    current.wf(self.distances),
                    current_best.wf(self.distances),
                decreases ROUNDS_PER_RESTART - round,
            {
                let (chosen, mut evaluated_keys) = self.best_non_tabu_neighbour(
                    &current,
                    &tabu,
                    &outer_tabu,
                );
                while evaluated_keys.len() > 0
                    decreases evaluated_keys@.len(),
                {
                    let key = evaluated_keys.pop();
                    match key {
                        Some(k) => {
                            if rng.gen_ratio(3, 10) {
                                tabu.insert(k);
                            }
                        },
                        None => {},
                    }
                }
                match chosen {
                    Some(local_opt) => {
                        if local_opt.cost < current_best.cost {
                            current_best = local_opt.clone_evaluated();
                        }
                        tabu.insert(clone_nodes(&local_opt.path.nodes));
                        current = local_opt;
                    },
                    None => {
                        stuck = true;
                    },
                }
                round = round + 1;
            }

            if current_best.cost < best.cost {
                best = current_best;
                outer_tabu.insert(clone_nodes(&best.path.nodes));
            }
            restarts = restarts - 1;
        }

        let ghost witness: Seq<usize> = best.path.nodes@;
        best.into_solution()
    }
}

/// Why building a solver from instance text failed.
#[derive(Debug, Clone, PartialEq, Eq, Structural)]
pub enum SolverCreationError {
    InvalidHeader,
    InvalidLine,
    NotEnoughLines,
    TooManyLines,
    IOError,
}

/// One matrix line is well-formed: exactly `n` decimal tokens, each within
/// the edge-cost cap.
pub open spec fn spec_row_ok(line: Seq<u8>, n: int) -> bool {
    let toks = spec_tokens(line);
    &&& toks.len() == n
    &&& forall|k: int|
        0 <= k < n ==> spec_is_u64_token(#[trigger] toks[k]) && spec_u64_value(toks[k])
            <= MAX_EDGE_COST
}

/// The edge costs a well-formed matrix line holds.
pub open spec fn spec_row_values(line: Seq<u8>, n: int) -> Seq<u32> {
    Seq::new(n as nat, |k: int| spec_u64_value(spec_tokens(line)[k]) as u32)
}

/// The matrix rows from row `i` on, read from the data lines, or the first
/// failure: a missing line, a malformed line, or lines left over after the
/// last row.
pub open spec fn spec_rows(lines: Seq<Seq<u8>>, i: int, n: int) -> Result<
    Seq<u32>,
    SolverCreationError,
>
    decreases n - i when 0 <= i <= n
{
    if i >= n {
        if lines.len() > n + 1 {
            Err(SolverCreationError::TooManyLines)
        } else {
            Ok(Seq::empty())
        }
    } else if i + 1 >= lines.len() {
        Err(SolverCreationError::NotEnoughLines)
    } else if !spec_row_ok(lines[i + 1], n) {
        Err(SolverCreationError::InvalidLine)
    } else {
        match spec_rows(lines, i + 1, n) {
            Ok(rest) => Ok(spec_row_values(lines[i + 1], n) + rest),
            Err(e) => Err(e),
        }
    }
}

/// What parsing the instance text yields: the time budget in seconds, the
/// node count and the flattened cost matrix, or the first failure.  The
/// header must hold exactly two decimal tokens, a positive time budget and
/// a node count whose square matrix fits in memory; then the matrix rows
/// follow, one line each.
pub open spec fn spec_parse_solver(input: Seq<u8>) -> Result<
    (int, int, Seq<u32>),
    SolverCreationError,
> {
    let lines = spec_lines(input);
    if lines.len() == 0 {
        Err(SolverCreationError::NotEnoughLines)
    } else {
        let toks = spec_tokens(lines[0]);
        if exists|k: int| 0 <= k < toks.len() && !spec_is_u64_token(#[trigger] toks[k]) {
            Err(SolverCreationError::InvalidHeader)
        } else if toks.len() != 2 {
            Err(SolverCreationError::InvalidHeader)
        } else {
            let time = spec_u64_value(toks[0]);
            let n = spec_u64_value(toks[1]);
            if time == 0 {
                Err(SolverCreationError::InvalidHeader)
            } else if n > usize::MAX {
                Err(SolverCreationError::InvalidHeader)
            } else if n * n > usize::MAX {
                Err(SolverCreationError::InvalidHeader)
            } else {
                match spec_rows(lines, 0, n) {
                    Ok(vals) => Ok((time, n, vals)),
                    Err(e) => Err(e),
                }
            }
        }
    }
}

impl Solver {
    /// Reads a solver from the instance text: a header line of time budget
    /// and node count, then the cost matrix, one row per line.  The result
    /// and every failure agree exactly with the parse specification; on
    /// success the solver's matrix is well-formed and its time budget is
    /// the header's seconds in milliseconds, saturated.
    pub fn try_from_bytes(input: &Vec<u8>) -> (r: Result<Solver, SolverCreationError>)
        ensures
            match spec_parse_solver(input@) {
                Ok(parsed) => match r {
                    Ok(solver) => {
                        &&& solver.distances.n as int == parsed.1
                        &&& solver.distances.values@ == parsed.2
                        &&& solver.distances.wf()
                        &&& solver.time_limit_millis as int == (if parsed.0 * 1000 <= u64::MAX {
                            parsed.0 * 1000
                        } else {
                            u64::MAX as int
                        })
                    },
                    Err(_) => false,
                },
                Err(e) => r == Err::<Solver, SolverCreationError>(e),
            },
    {
        let lines = split_lines(input);
        let ghost ls: Seq<Seq<u8>> = spec_lines(input@);
        if lines.len() == 0 {
            return Err(SolverCreationError::NotEnoughLines);
        }
        let header_toks = split_tokens(&lines[0]);
        let ghost hts: Seq<Seq<u8>> = spec_tokens(ls[0]);
        let mut header_vals: Vec<u64> = Vec::new();
        let mut k: usize = 0;
        while k < header_toks.len()
            invariant
                ls == spec_lines(input@),
                ls.len() >= 1,
                hts == spec_tokens(ls[0]),
                header_toks@.len() == hts.len(),
                forall|t: int| 0 <= t < hts.len() ==> (#[trigger] header_toks@[t])@ == hts[t],
                k <= hts.len(),
                header_vals@.len() == k,
                forall|t: int| 0 <= t < k ==> spec_is_u64_token(#[trigger] hts[t]),
                forall|t: int|
                    0 <= t < k ==> (#[trigger] header_vals@[t]) as int == spec_u64_value(hts[t]),
            decreases header_toks@.len() - k,
        {
            match parse_u64(&header_toks[k]) {
                Some(v) => {
                    header_vals.push(v);
                },
                None => {
                    return Err(SolverCreationError::InvalidHeader);
                },
            }
            k = k + 1;
        }
        if header_vals.len() != 2 {
            return Err(SolverCreationError::InvalidHeader);
        }
        let time = header_vals[0];
        let n_value = header_vals[1];
        if time == 0 {
            return Err(SolverCreationError::InvalidHeader);
        }
        if n_value > usize::MAX as u64 {
            return Err(SolverCreationError::InvalidHeader);
        }
        let n = n_value as usize;
        proof {
            assert((n as int) * (n as int) < 0x1_0000_0000_0000_0000_0000_0000_0000_0000)
                by (nonlinear_arith)
                requires
                    n <= 0xffff_ffff_ffff_ffff,
            ;
        }
        let square: u128 = (n as u128) * (n as u128);
        if square > usize::MAX as u128 {
            return Err(SolverCreationError::InvalidHeader);
        }
        let mut values: Vec<u32> = Vec::new();
        let mut i: usize = 0;
        proof {
            assert(ls.len() >= 1);
        }
        let ghost parse_goal: Result<(int, int, Seq<u32>), SolverCreationError> =
            spec_parse_solver(input@);
        proof {
            assert(parse_goal == (match spec_rows(ls, 0, n as int) {
                Ok(vals) => Ok::<(int, int, Seq<u32>), SolverCreationError>(
                    (time as int, n as int, vals),
                ),
                Err(e) => Err::<(int, int, Seq<u32>), SolverCreationError>(e),
            }));
        }
        while i < n
            invariant
                ls == spec_lines(input@),
                lines@.len() == ls.len(),
                forall|t: int| 0 <= t < ls.len() ==> (#[trigger] lines@[t])@ == ls[t],
                i <= n,
                n <= usize::MAX,
                (n as int) * (n as int) <= usize::MAX,
                values@.len() == (i as int) * (n as int),
                parse_goal == spec_parse_solver(input@),
                parse_goal == (match spec_rows(ls, 0, n as int) {
                    Ok(vals) => Ok::<(int, int, Seq<u32>), SolverCreationError>(
                        (time as int, n as int, vals),
                    ),
                    Err(e) => Err::<(int, int, Seq<u32>), SolverCreationError>(e),
                }),
                match spec_rows(ls, i as int, n as int) {
                    Ok(rest) => spec_rows(ls, 0, n as int) == Ok::<Seq<u32>, SolverCreationError>(
                        values@ + rest,
                    ),
                    Err(e) => spec_rows(ls, 0, n as int) == Err::<Seq<u32>, SolverCreationError>(
                        e,
                    ),
                },
            decreases n - i,
        {
            if i + 1 >= lines.len() {
                return Err(SolverCreationError::NotEnoughLines);
            }
            let row_toks = split_tokens(&lines[i + 1]);
            let ghost rts: Seq<Seq<u8>> = spec_tokens(ls[i + 1]);
            if row_toks.len() != n {
                return Err(SolverCreationError::InvalidLine);
            }
            let ghost values_before: Seq<u32> = values@;
            let mut t: usize = 0;
            while t < n
                invariant
                    ls == spec_lines(input@),
                    i < n,
                    i + 1 < ls.len(),
                    parse_goal == spec_parse_solver(input@),
                    parse_goal == (match spec_rows(ls, 0, n as int) {
                        Ok(vals) => Ok::<(int, int, Seq<u32>), SolverCreationError>(
                            (time as int, n as int, vals),
                        ),
                        Err(e) => Err::<(int, int, Seq<u32>), SolverCreationError>(e),
                    }),
                    match spec_rows(ls, i as int, n as int) {
                        Ok(rest) => spec_rows(ls, 0, n as int) == Ok::<
                            Seq<u32>,
                            SolverCreationError,
                        >(values_before + rest),
                        Err(e) => spec_rows(ls, 0, n as int) == Err::<
                            Seq<u32>,
                            SolverCreationError,
                        >(e),
                    },
                    rts == spec_tokens(ls[i + 1]),
                    row_toks@.len() == rts.len(),
                    rts.len() == n,
                    forall|q: int| 0 <= q < rts.len() ==> (#[trigger] row_toks@[q])@ == rts[q],
                    t <= n,
                    values@.len() == values_before.len() + t,
                    values@.take(values_before.len() as int) == values_before,
                    forall|q: int|
                        0 <= q < t ==> spec_is_u64_token(#[trigger] rts[q]) && 0 <= spec_u64_value(
                            rts[q],
                        ) <= MAX_EDGE_COST,
                    forall|q: int|
                        0 <= q < t ==> (#[trigger] values@[values_before.len() + q]) as int
                            == spec_u64_value(rts[q]),
                decreases n - t,
            {
                match parse_u64(&row_toks[t]) {
                    Some(v) => {
                        if v > MAX_EDGE_COST {
                            return Err(SolverCreationError::InvalidLine);
                        }
                        values.push(v as u32);
                        proof {
                            assert(values@.take(values_before.len() as int) =~= values_before);
                        }
                    },
                    None => {
                        return Err(SolverCreationError::InvalidLine);
                    },
                }
                t = t + 1;
            }
            proof {
                assert(spec_row_ok(ls[i + 1], n as int));
                assert forall|j: int|
                    values_before.len() <= j < values_before.len() + n implies #[trigger] values@[j]
                    == spec_row_values(ls[i + 1], n as int)[j - values_before.len()] by {
                    let q = j - values_before.len();
                    assert((values@[values_before.len() + q]) as int == spec_u64_value(rts[q]));
                    assert(spec_row_values(ls[i + 1], n as int)[q] == spec_u64_value(rts[q])
                        as u32);
                }
                assert forall|j: int| 0 <= j < values_before.len() implies #[trigger] values@[j]
                    == values_before[j] by {
                    assert(values@.take(values_before.len() as int)[j] == values@[j]);
                }
                assert(values@ =~= values_before + spec_row_values(ls[i + 1], n as int));
                assert((i as int) * (n as int) + n == (i + 1) * (n as int)) by (nonlinear_arith);
                assert((i + 1) * (n as int) <= (n as int) * (n as int)) by (nonlinear_arith)
                    requires
                        i + 1 <= n,
                        n >= 0,
                ;
                let ghost rowvals = spec_row_values(ls[i + 1], n as int);
                match spec_rows(ls, i + 1, n as int) {
                    Ok(rest) => {
                        assert(values_before + (rowvals + rest) =~= (values_before + rowvals)
                            + rest);
                    },
                    Err(e) => {},
                }
            }
            i = i + 1;
        }
        if lines.len() - 1 > n {
            return Err(SolverCreationError::TooManyLines);
        }
        proof {
            if time <= u64::MAX / 1000 {
                assert((time as int) * 1000 <= u64::MAX) by (nonlinear_arith)
                    requires
                        0 <= time as int <= (u64::MAX as int) / 1000,
                ;
            }
        }
        let millis: u64 = if time > u64::MAX / 1000 {
            u64::MAX
        } else {
            time * 1000
        };
        proof {
            if time <= u64::MAX / 1000 {
                assert((time as int) * 1000 <= u64::MAX);
            } else {
                assert((time as int) * 1000 > u64::MAX) by (nonlinear_arith)
                    requires
                        time as int > (u64::MAX as int) / 1000,
                ;
            }
            assert(values@ =~= values@ + spec_rows(ls, n as int, n as int)->Ok_0);
        }
        Ok(Solver { distances: CostMatrix { values, n }, time_limit_millis: millis })
    }
}

} // verus!
