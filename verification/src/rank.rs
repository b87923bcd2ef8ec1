//! Damped power iteration in fixed-point arithmetic.
//!
//! Scores are whole numbers of parts of `UNIT`, and every node starts with
//! one `UNIT`. In a step each node gives the part `alpha` of its score to a
//! common pool and sends the rest in equal shares along its outgoing edges;
//! a node without outgoing edges gives everything to the pool, and so does
//! every node with what rounding leaves over. The pool is dealt out evenly
//! to all nodes. So a step moves score and neither makes nor loses any: the
//! scores of a vector always add up to `UNIT` per node, exactly.

use crate::graph::{
    edge_sum, edges_in_range, lemma_edge_sum_floor, lemma_edge_sum_permutation,
    lemma_edge_sum_prefix, lemma_edge_sum_push, leaves, out_degree, Edge, Graph, GraphView,
};
use crate::sums::{
    lemma_entry_at_most_sum, lemma_sum_monotone, lemma_sum_non_negative, lemma_sum_update,
    lemma_sum_zeros, lemma_sum_zip, non_negative, sum,
};
use vstd::prelude::*;

verus! {

/// The score `1` in fixed point: scores, the damping weight and the
/// convergence threshold are all counted in parts of `UNIT`.
pub const UNIT: u64 = 1_000_000_000;

/// The largest graph that can be ranked: the total score, `UNIT` per node,
/// has to fit in 64 bits.
pub const MAX_NODES: usize = 4_294_967_295;

/// What a node keeps for its links once the part `alpha` of its score has
/// gone to the common pool.
pub open spec fn kept(alpha: int, score: int) -> int {
    score - (alpha * score) / (UNIT as int)
}

/// What `node` sends along each of its outgoing edges: an equal part of what
/// it keeps, rounded down; nothing where it has no outgoing edge.
pub open spec fn share(edges: Seq<Edge>, alpha: int, scores: Seq<int>, node: int) -> int {
    let degree = out_degree(edges, node);
    if degree == 0 {
        0
    } else {
        kept(alpha, scores[node]) / degree
    }
}

/// The share of every node.
pub open spec fn shares(edges: Seq<Edge>, alpha: int, scores: Seq<int>) -> Seq<int> {
    Seq::new(scores.len(), |u: int| share(edges, alpha, scores, u))
}

/// The weight of an edge: the share of its source.
pub open spec fn carries(shares: Seq<int>) -> spec_fn(Edge) -> int {
    |e: Edge| shares[e.0 as int]
}

/// The weight of an edge as seen from `node`: the share of its source where
/// the edge arrives at `node`, else nothing.
pub open spec fn delivers(shares: Seq<int>, node: int) -> spec_fn(Edge) -> int {
    |e: Edge| if e.1 == node { shares[e.0 as int] } else { 0int }
}

/// The score that travels along edges in one step.
pub open spec fn moved(edges: Seq<Edge>, shares: Seq<int>) -> int {
    edge_sum(edges, carries(shares))
}

/// The score that arrives at `node` along edges in one step.
pub open spec fn inflow(edges: Seq<Edge>, shares: Seq<int>, node: int) -> int {
    edge_sum(edges, delivers(shares, node))
}

/// The common pool of one step: all the score that does not travel along an
/// edge. It holds the part `alpha` of every score, the whole score of every
/// node without outgoing edges, and what rounding leaves over.
pub open spec fn pool(edges: Seq<Edge>, alpha: int, scores: Seq<int>) -> int {
    sum(scores) - moved(edges, shares(edges, alpha, scores))
}

/// The part of the pool that `node` receives: the pool is dealt out evenly
/// over the `nodes` nodes, and the nodes with the smallest numbers get one
/// more each until nothing is left.
pub open spec fn level(nodes: int, pool: int, node: int) -> int {
    if nodes <= 0 {
        0
    } else {
        pool / nodes + if node < pool % nodes { 1int } else { 0int }
    }
}

/// The score of `node` after one step.
pub open spec fn next_score(edges: Seq<Edge>, alpha: int, scores: Seq<int>, node: int) -> int {
    inflow(edges, shares(edges, alpha, scores), node) + level(
        scores.len() as int,
        pool(edges, alpha, scores),
        node,
    )
}

/// The scores after one step of the power iteration.
pub open spec fn next_scores(edges: Seq<Edge>, alpha: int, scores: Seq<int>) -> Seq<int> {
    Seq::new(scores.len(), |v: int| next_score(edges, alpha, scores, v))
}

/// The distance between two integers.
pub open spec fn distance(a: int, b: int) -> int {
    if a >= b {
        a - b
    } else {
        b - a
    }
}

/// The largest change of a single score among the first `upto` nodes; zero
/// where there is none.
pub open spec fn largest_change(before: Seq<int>, after: Seq<int>, upto: nat) -> int
    decreases upto,
{
    if upto == 0 {
        0
    } else {
        let rest = largest_change(before, after, (upto - 1) as nat);
        let last = distance(before[upto - 1], after[upto - 1]);
        if last > rest {
            last
        } else {
            rest
        }
    }
}

/// The largest change of a single score between two vectors.
pub open spec fn max_delta(before: Seq<int>, after: Seq<int>) -> int {
    largest_change(before, after, before.len())
}

/// The starting vector: every node holds one `UNIT`.
pub open spec fn uniform(nodes: nat) -> Seq<int> {
    Seq::new(nodes, |v: int| UNIT as int)
}

/// Why the iteration stopped.
#[derive(Clone, Copy, Debug, PartialEq, Eq, Structural)]
pub enum Termination {
    /// The largest change of a score fell below the threshold.
    Converged,
    /// The cap on the number of steps was reached first.
    CapExhausted,
}

/// The result of a run, as mathematics.
pub ghost struct RunView {
    pub scores: Seq<int>,
    pub termination: Termination,
    pub iterations: nat,
}

/// The run from `scores` with at most `budget` steps: it stops after the
/// first step that changes no score by `epsilon` or more, or when the budget
/// is used up.
pub open spec fn iterate(
    edges: Seq<Edge>,
    alpha: int,
    epsilon: int,
    scores: Seq<int>,
    budget: nat,
) -> RunView
    decreases budget,
{
    if budget == 0 {
        RunView { scores, termination: Termination::CapExhausted, iterations: 0 }
    } else {
        let next = next_scores(edges, alpha, scores);
        if max_delta(scores, next) < epsilon {
            RunView { scores: next, termination: Termination::Converged, iterations: 1 }
        } else {
            let rest = iterate(edges, alpha, epsilon, next, (budget - 1) as nat);
            RunView {
                scores: rest.scores,
                termination: rest.termination,
                iterations: rest.iterations + 1,
            }
        }
    }
}

/// The ranking of a graph: the run from the uniform vector.
pub open spec fn ranking_of(graph: GraphView, alpha: int, epsilon: int, cap: nat) -> RunView {
    iterate(graph.edges, alpha, epsilon, uniform(graph.nodes), cap)
}

/// What a node keeps lies between nothing and its score.
pub proof fn lemma_kept_bounds(alpha: int, score: int)
    requires
        0 <= alpha <= UNIT,
        0 <= score,
    ensures
        0 <= kept(alpha, score) <= score,
{
    let unit = UNIT as int;
    assert(0 <= alpha * score <= unit * score) by (nonlinear_arith)
        requires
            0 <= alpha <= unit,
            0 <= score,
    ;
}

/// A node sends out no more than it keeps, and no share is negative.
pub proof fn lemma_share_bounds(edges: Seq<Edge>, alpha: int, scores: Seq<int>, node: int)
    requires
        0 <= alpha <= UNIT,
        non_negative(scores),
        0 <= node < scores.len(),
    ensures
        0 <= share(edges, alpha, scores, node),
        0 <= out_degree(edges, node) * share(edges, alpha, scores, node) <= scores[node],
{
    let degree = out_degree(edges, node);
    let rest = kept(alpha, scores[node]);
    lemma_kept_bounds(alpha, scores[node]);
    lemma_edge_sum_floor(edges, leaves(node));
    if degree > 0 {
        assert(0 <= rest / degree && 0 <= degree * (rest / degree) <= rest) by (nonlinear_arith)
            requires
                degree > 0,
                rest >= 0,
        ;
    }
}

/// The score that arrives at the nodes, all nodes taken together, is the
/// score that travels along the edges.
pub proof fn lemma_inflow_total(edges: Seq<Edge>, shares: Seq<int>)
    requires
        edges_in_range(edges, shares.len() as int),
    ensures
        sum(Seq::new(shares.len(), |v: int| inflow(edges, shares, v))) == moved(edges, shares),
    decreases edges.len(),
{
    let arriving = Seq::new(shares.len(), |v: int| inflow(edges, shares, v));
    if edges.len() == 0 {
        lemma_sum_zeros(arriving);
    } else {
        let rest = edges.drop_last();
        let e = edges.last();
        let before = Seq::new(shares.len(), |v: int| inflow(rest, shares, v));
        lemma_inflow_total(rest, shares);
        let target = e.1 as int;
        assert(arriving =~= before.update(target, before[target] + shares[e.0 as int]));
        lemma_sum_update(before, target, before[target] + shares[e.0 as int]);
    }
}

/// The score that travels along the edges is, node by node, the share of
/// the node times its out-degree.
pub proof fn lemma_moved_by_source(edges: Seq<Edge>, shares: Seq<int>)
    requires
        edges_in_range(edges, shares.len() as int),
    ensures
        sum(Seq::new(shares.len(), |u: int| out_degree(edges, u) * shares[u])) == moved(
            edges,
            shares,
        ),
    decreases edges.len(),
{
    let leaving = Seq::new(shares.len(), |u: int| out_degree(edges, u) * shares[u]);
    if edges.len() == 0 {
        lemma_sum_zeros(leaving);
    } else {
        let rest = edges.drop_last();
        let e = edges.last();
        let before = Seq::new(shares.len(), |u: int| out_degree(rest, u) * shares[u]);
        lemma_moved_by_source(rest, shares);
        let source = e.0 as int;
        assert forall|u: int| 0 <= u < leaving.len() implies leaving[u] == before.update(
            source,
            before[source] + shares[source],
        )[u] by {
            let d = out_degree(rest, u);
            let s = shares[u];
            if u == source {
                assert((d + 1) * s == d * s + s) by (nonlinear_arith);
            }
        }
        assert(leaving =~= before.update(source, before[source] + shares[source]));
        lemma_sum_update(before, source, before[source] + shares[source]);
    }
}

/// No more score travels along the edges than there is, and none of it is
/// negative: the pool is never in debt.
pub proof fn lemma_moved_bounds(edges: Seq<Edge>, alpha: int, scores: Seq<int>)
    requires
        edges_in_range(edges, scores.len() as int),
        0 <= alpha <= UNIT,
        non_negative(scores),
    ensures
        0 <= moved(edges, shares(edges, alpha, scores)) <= sum(scores),
        non_negative(shares(edges, alpha, scores)),
{
    let sh = shares(edges, alpha, scores);
    let leaving = Seq::new(sh.len(), |u: int| out_degree(edges, u) * sh[u]);
    assert forall|u: int| 0 <= u < sh.len() implies 0 <= #[trigger] leaving[u] <= scores[u] by {
        lemma_share_bounds(edges, alpha, scores, u);
    }
    assert forall|u: int| 0 <= u < sh.len() implies 0 <= #[trigger] sh[u] by {
        lemma_share_bounds(edges, alpha, scores, u);
    }
    lemma_moved_by_source(edges, sh);
    lemma_sum_monotone(leaving, scores);
    lemma_sum_non_negative(leaving);
}

/// The first `upto` nodes receive from the pool: its even part each, and one
/// more for each of them that is among the first `pool % nodes`.
pub proof fn lemma_level_prefix(nodes: int, pool: int, upto: nat)
    requires
        nodes > 0,
        pool >= 0,
        upto <= nodes,
    ensures
        sum(Seq::new(upto, |v: int| level(nodes, pool, v))) == upto * (pool / nodes) + if upto
            < pool % nodes {
            upto as int
        } else {
            pool % nodes
        },
    decreases upto,
{
    let dealt = Seq::new(upto, |v: int| level(nodes, pool, v));
    if upto == 0 {
        assert(0 * (pool / nodes) == 0);
        assert(0 <= pool % nodes);
    } else {
        let fewer = (upto - 1) as nat;
        lemma_level_prefix(nodes, pool, fewer);
        assert(dealt.drop_last() =~= Seq::new(fewer, |v: int| level(nodes, pool, v)));
        assert(upto * (pool / nodes) == fewer * (pool / nodes) + pool / nodes)
            by (nonlinear_arith)
            requires
                upto == fewer + 1,
        ;
    }
}

/// Dealing out the pool gives away all of it, and nobody gets less than
/// nothing.
pub proof fn lemma_level_total(nodes: nat, pool: int)
    requires
        nodes > 0,
        pool >= 0,
    ensures
        sum(Seq::new(nodes, |v: int| level(nodes as int, pool, v))) == pool,
        forall|v: int| 0 <= #[trigger] level(nodes as int, pool, v),
{
    let n = nodes as int;
    lemma_level_prefix(n, pool, nodes);
    assert(pool % n < n && 0 <= pool % n && 0 <= pool / n && n * (pool / n) + pool % n == pool)
        by (nonlinear_arith)
        requires
            n > 0,
            pool >= 0,
    ;
}

/// Mass conservation: one step moves score between nodes and neither makes
/// nor loses any, whatever the graph; in particular a node without outgoing
/// edges loses nothing for the others. No score becomes negative.
pub proof fn lemma_step_conserves_mass(edges: Seq<Edge>, alpha: int, scores: Seq<int>)
    requires
        edges_in_range(edges, scores.len() as int),
        0 <= alpha <= UNIT,
        non_negative(scores),
    ensures
        sum(next_scores(edges, alpha, scores)) == sum(scores),
        non_negative(next_scores(edges, alpha, scores)),
        next_scores(edges, alpha, scores).len() == scores.len(),
{
    let n = scores.len();
    let sh = shares(edges, alpha, scores);
    let next = next_scores(edges, alpha, scores);
    let common = pool(edges, alpha, scores);
    lemma_moved_bounds(edges, alpha, scores);
    if n > 0 {
        let arriving = Seq::new(n, |v: int| inflow(edges, sh, v));
        let dealt = Seq::new(n, |v: int| level(n as int, common, v));
        lemma_inflow_total(edges, sh);
        lemma_level_total(n, common);
        lemma_sum_zip(arriving, dealt, next);
        assert forall|v: int| 0 <= v < n implies next[v] >= 0 by {
            lemma_inflow_floor(edges, sh, v);
        }
    }
}

/// Nothing negative arrives at a node where no share is negative.
pub proof fn lemma_inflow_floor(edges: Seq<Edge>, shares: Seq<int>, node: int)
    requires
        edges_in_range(edges, shares.len() as int),
        non_negative(shares),
    ensures
        inflow(edges, shares, node) >= 0,
{
    lemma_edge_sum_floor(edges, delivers(shares, node));
}


/// The uniform vector holds `UNIT` for every node.
pub proof fn lemma_uniform_total(nodes: nat)
    ensures
        sum(uniform(nodes)) == nodes * UNIT,
        non_negative(uniform(nodes)),
        uniform(nodes).len() == nodes,
    decreases nodes,
{
    if nodes > 0 {
        let fewer = (nodes - 1) as nat;
        lemma_uniform_total(fewer);
        assert(uniform(nodes).drop_last() =~= uniform(fewer));
    }
}

/// The largest change among the first `upto` nodes is the change of one of
/// them, and no other of them changed by more; without nodes it is zero.
pub proof fn lemma_largest_change(before: Seq<int>, after: Seq<int>, upto: nat)
    ensures
        largest_change(before, after, upto) >= 0,
        forall|v: int|
            0 <= v < upto ==> #[trigger] distance(before[v], after[v]) <= largest_change(
                before,
                after,
                upto,
            ),
        upto > 0 ==> exists|v: int|
            0 <= v < upto && #[trigger] distance(before[v], after[v]) == largest_change(
                before,
                after,
                upto,
            ),
    decreases upto,
{
    if upto > 0 {
        let fewer = (upto - 1) as nat;
        lemma_largest_change(before, after, fewer);
        let last = distance(before[upto - 1], after[upto - 1]);
        if last > largest_change(before, after, fewer) || fewer == 0 {
            assert(distance(before[upto - 1], after[upto - 1]) == largest_change(
                before,
                after,
                upto,
            ));
        } else {
            let v = choose|v: int|
                0 <= v < fewer && #[trigger] distance(before[v], after[v]) == largest_change(
                    before,
                    after,
                    fewer,
                );
            assert(distance(before[v], after[v]) == largest_change(before, after, upto));
        }
    }
}

/// `max_delta` is the largest change of a single score: no score changed by
/// more, and where there are nodes one of them changed by exactly that.
pub proof fn lemma_max_delta_is_largest(before: Seq<int>, after: Seq<int>)
    ensures
        max_delta(before, after) >= 0,
        forall|v: int|
            0 <= v < before.len() ==> #[trigger] distance(before[v], after[v]) <= max_delta(
                before,
                after,
            ),
        before.len() > 0 ==> exists|v: int|
            0 <= v < before.len() && #[trigger] distance(before[v], after[v]) == max_delta(
                before,
                after,
            ),
{
    lemma_largest_change(before, after, before.len());
}

/// The scores of a vector, read as integers.
pub open spec fn as_ints(scores: Seq<u64>) -> Seq<int> {
    Seq::new(scores.len(), |i: int| scores[i] as int)
}

/// The tuning of a run. `alpha` and `epsilon` are counted in parts of `UNIT`.
#[derive(Clone, Copy, Debug)]
pub struct RankParams {
    /// The part of every score that is dealt out evenly to all nodes in each
    /// step, between `0` and `UNIT`.
    pub alpha: u64,
    /// The run has converged once no score changes by this much in a step.
    pub epsilon: u64,
    /// The largest number of steps.
    pub max_iterations: usize,
}

impl Default for RankParams {
    /// A tenth for `alpha`, a millionth for `epsilon`, at most a thousand steps.
    fn default() -> (params: Self)
        ensures
            params.alpha == UNIT / 10,
            params.epsilon == UNIT / 1_000_000,
            params.max_iterations == 1000,
    {
        RankParams { alpha: UNIT / 10, epsilon: UNIT / 1_000_000, max_iterations: 1000 }
    }
}

/// Why a graph was not ranked.
#[derive(Clone, Copy, Debug, PartialEq, Eq, Structural)]
pub enum RankError {
    /// `alpha` is more than `UNIT`.
    AlphaOutOfRange,
    /// The graph has more than `MAX_NODES` nodes.
    TooManyNodes,
}

/// One score per node, in parts of `UNIT`. The scores of a vector always add
/// up to `UNIT` per node.
#[derive(Debug)]
pub struct RankVector {
    scores: Vec<u64>,
}

impl View for RankVector {
    type V = Seq<int>;

    closed spec fn view(&self) -> Seq<int> {
        as_ints(self.scores@)
    }
}

impl RankVector {
    /// No score is negative, and together they are `UNIT` per node.
    pub open spec fn wf(&self) -> bool {
        &&& self@.len() <= MAX_NODES
        &&& non_negative(self@)
        &&& sum(self@) == self@.len() * UNIT
    }

    /// The vector in which each of `nodes` nodes holds `UNIT`; none for more
    /// than `MAX_NODES` nodes.
    pub fn uniform(nodes: usize) -> (vector: Option<Self>)
        ensures
            vector is Some <==> nodes <= MAX_NODES,
            vector matches Some(v) ==> v.wf() && v@ == uniform(nodes as nat),
    {
        if nodes > MAX_NODES {
            return None;
        }
        let mut scores: Vec<u64> = Vec::new();
        let mut v: usize = 0;
        while v < nodes
            invariant
                v <= nodes,
                scores.len() == v,
                forall|j: int| 0 <= j < v ==> scores[j] == UNIT,
            decreases nodes - v,
        {
            scores.push(UNIT);
            v = v + 1;
        }
        proof {
            lemma_uniform_total(nodes as nat);
            assert(as_ints(scores@) =~= uniform(nodes as nat));
        }
        Some(RankVector { scores })
    }

    /// Number of nodes.
    pub fn len(&self) -> (count: usize)
        ensures
            count == self@.len(),
    {
        self.scores.len()
    }

    /// The score of `node`, if the vector has that node.
    pub fn score(&self, node: usize) -> (score: Option<u64>)
        ensures
            score is Some <==> node < self@.len(),
            score matches Some(s) ==> s == self@[node as int],
    {
        if node < self.scores.len() {
            Some(self.scores[node])
        } else {
            None
        }
    }

    /// All scores, indexed by node.
    pub fn scores(&self) -> (all: &Vec<u64>)
        ensures
            as_ints(all@) == self@,
    {
        &self.scores
    }

    /// The largest change of a single score from `self` to `after`; none
    /// where the two vectors differ in length.
    pub fn max_delta(&self, after: &RankVector) -> (delta: Option<u64>)
        ensures
            delta is Some <==> self@.len() == after@.len(),
            delta matches Some(d) ==> d == max_delta(self@, after@),
    {
        let n: usize = self.scores.len();
        if after.scores.len() != n {
            return None;
        }
        let mut largest: u64 = 0;
        let mut v: usize = 0;
        while v < n
            invariant
                v <= n,
                n == self.scores.len(),
                n == after.scores.len(),
                largest == largest_change(self@, after@, v as nat),
            decreases n - v,
        {
            let a: u64 = self.scores[v];
            let b: u64 = after.scores[v];
            let change: u64 = if a >= b {
                a - b
            } else {
                b - a
            };
            if change > largest {
                largest = change;
            }
            v = v + 1;
        }
        Some(largest)
    }

    /// One step of the power iteration on `graph`; none where `alpha` is
    /// more than `UNIT` or the vector is not one of that graph.
    pub fn step(&self, graph: &Graph, alpha: u64) -> (next: Option<RankVector>)
        requires
            self.wf(),
            graph.wf(),
        ensures
            next is Some <==> alpha <= UNIT && self@.len() == graph@.nodes,
            next matches Some(v) ==> v.wf() && v@ == next_scores(
                graph@.edges,
                alpha as int,
                self@,
            ),
    {
        if alpha > UNIT || self.scores.len() != graph.node_count() {
            return None;
        }
        let degrees = graph.out_degrees();
        Some(self.advance(graph, &degrees, alpha))
    }

    /// The share of every node, indexed by node.
    fn shares(&self, graph: &Graph, degrees: &Vec<usize>, alpha: u64) -> (sent: Vec<u64>)
        requires
            self.wf(),
            alpha <= UNIT,
            degrees.len() == self@.len(),
            forall|u: int| 0 <= u < degrees.len() ==> degrees[u] == out_degree(graph@.edges, u),
        ensures
            as_ints(sent@) == shares(graph@.edges, alpha as int, self@),
    {
        let n: usize = self.scores.len();
        let mut sent: Vec<u64> = Vec::new();
        let mut u: usize = 0;
        while u < n
            invariant
                u <= n,
                n == self.scores.len(),
                degrees.len() == n,
                sent.len() == u,
                alpha <= UNIT,
                forall|j: int| 0 <= j < degrees.len() ==> degrees[j] == out_degree(graph@.edges, j),
                forall|j: int|
                    0 <= j < u ==> sent[j] == share(graph@.edges, alpha as int, self@, j),
            decreases n - u,
        {
            let score: u64 = self.scores[u];
            let degree: usize = degrees[u];
            let part: u64 = if degree == 0 {
                0
            } else {
                proof {
                    lemma_kept_bounds(alpha as int, score as int);
                    assert(alpha * score <= UNIT * u64::MAX) by (nonlinear_arith)
                        requires
                            alpha <= UNIT,
                            score <= u64::MAX,
                    ;
                }
                let gone: u128 = (alpha as u128) * (score as u128) / (UNIT as u128);
                (score - (gone as u64)) / (degree as u64)
            };
            sent.push(part);
            u = u + 1;
        }
        sent
    }

    /// One step, with the out-degrees of the graph at hand.
    fn advance(&self, graph: &Graph, degrees: &Vec<usize>, alpha: u64) -> (next: RankVector)
        requires
            self.wf(),
            graph.wf(),
            alpha <= UNIT,
            self@.len() == graph@.nodes,
            degrees.len() == self@.len(),
            forall|u: int| 0 <= u < degrees.len() ==> degrees[u] == out_degree(graph@.edges, u),
        ensures
            next.wf(),
            next@ == next_scores(graph@.edges, alpha as int, self@),
    {
        let n: usize = self.scores.len();
        let edges = graph.edges();
        let sent = self.shares(graph, degrees, alpha);
        let ghost sh = shares(edges@, alpha as int, self@);
        proof {
            lemma_moved_bounds(edges@, alpha as int, self@);
            lemma_step_conserves_mass(edges@, alpha as int, self@);
        }
        let mut arrived: Vec<u64> = Vec::new();
        let mut v: usize = 0;
        while v < n
            invariant
                v <= n,
                arrived.len() == v,
                forall|j: int| 0 <= j < v ==> arrived[j] == 0,
            decreases n - v,
        {
            arrived.push(0);
            v = v + 1;
        }
        let mut travelled: u64 = 0;
        let mut k: usize = 0;
        while k < edges.len()
            invariant
                k <= edges.len(),
                edges_in_range(edges@, n as int),
                arrived.len() == n,
                sent.len() == n,
                as_ints(sent@) == sh,
                non_negative(sh),
                sh.len() == n,
                travelled == moved(edges@.take(k as int), sh),
                moved(edges@, sh) <= u64::MAX,
                forall|j: int| 0 <= j < n ==> arrived[j] == inflow(edges@.take(k as int), sh, j),
                forall|j: int| 0 <= j < n ==> arrived[j] <= travelled,
            decreases edges.len() - k,
        {
            let e: Edge = edges[k];
            let source: usize = e.0;
            let target: usize = e.1;
            let ghost prefix = edges@.take(k as int);
            proof {
                assert(edges@.take(k + 1) =~= prefix.push(e));
                lemma_edge_sum_prefix(edges@, k + 1, carries(sh));
                lemma_edge_sum_push(prefix, e, carries(sh));
                assert forall|j: int| 0 <= j < n implies inflow(edges@.take(k + 1), sh, j)
                    == inflow(prefix, sh, j) + if j == target {
                    sh[source as int]
                } else {
                    0
                } by {
                    lemma_edge_sum_push(prefix, e, delivers(sh, j));
                }
            }
            let part: u64 = sent[source];
            let grown: u64 = arrived[target] + part;
            arrived.set(target, grown);
            travelled = travelled + part;
            k = k + 1;
        }
        assert(edges@.take(k as int) =~= edges@);
        if n > 0 {
            let total: u64 = (n as u64) * UNIT;
            let common: u64 = total - travelled;
            let even: u64 = common / (n as u64);
            let odd: u64 = common % (n as u64);
            assert(common == pool(edges@, alpha as int, self@));
            let mut v: usize = 0;
            while v < n
                invariant
                    v <= n,
                    n > 0,
                    arrived.len() == n,
                    even == common / (n as u64),
                    odd == common % (n as u64),
                    travelled + common <= MAX_NODES * UNIT,
                    MAX_NODES * UNIT < u64::MAX,
                    forall|j: int| v <= j < n ==> arrived[j] == inflow(edges@, sh, j),
                    forall|j: int| v <= j < n ==> arrived[j] <= travelled,
                    forall|j: int|
                        0 <= j < v ==> arrived[j] == inflow(edges@, sh, j) + level(
                            n as int,
                            common as int,
                            j,
                        ),
                decreases n - v,
            {
                let extra: u64 = if (v as u64) < odd {
                    1
                } else {
                    0
                };
                let settled: u64 = arrived[v] + even + extra;
                arrived.set(v, settled);
                v = v + 1;
            }
        }
        let next = RankVector { scores: arrived };
        assert(next@ =~= next_scores(edges@, alpha as int, self@));
        next
    }
}


/// The result of a run: the scores, why the run stopped, and after how many
/// steps.
#[derive(Debug)]
pub struct Ranking {
    pub scores: RankVector,
    pub termination: Termination,
    pub iterations: usize,
}

impl View for Ranking {
    type V = RunView;

    open spec fn view(&self) -> RunView {
        RunView {
            scores: self.scores@,
            termination: self.termination,
            iterations: self.iterations as nat,
        }
    }
}

/// A run counted from an earlier start: `by` steps had been taken before it.
pub open spec fn resumed(run: RunView, by: nat) -> RunView {
    RunView { scores: run.scores, termination: run.termination, iterations: run.iterations + by }
}

/// A run that does not converge with its first step is the run from the
/// next vector, one step later.
proof fn lemma_iterate_unfold(
    edges: Seq<Edge>,
    alpha: int,
    epsilon: int,
    scores: Seq<int>,
    budget: nat,
)
    requires
        budget > 0,
        max_delta(scores, next_scores(edges, alpha, scores)) >= epsilon,
    ensures
        iterate(edges, alpha, epsilon, scores, budget) == resumed(
            iterate(edges, alpha, epsilon, next_scores(edges, alpha, scores), (budget - 1) as nat),
            1,
        ),
{
}

/// Ranks the nodes of `graph` by damped power iteration from the uniform
/// vector. The run ends with the first step that changes no score by
/// `params.epsilon` or more, or after `params.max_iterations` steps; the
/// result says which.
pub fn rank(graph: &Graph, params: &RankParams) -> (result: Result<Ranking, RankError>)
    requires
        graph.wf(),
    ensures
        match result {
            Ok(ranking) => {
                &&& params.alpha <= UNIT
                &&& graph@.nodes <= MAX_NODES
                &&& ranking.scores.wf()
                &&& ranking@ == ranking_of(
                    graph@,
                    params.alpha as int,
                    params.epsilon as int,
                    params.max_iterations as nat,
                )
            },
            Err(RankError::AlphaOutOfRange) => params.alpha > UNIT,
            Err(RankError::TooManyNodes) => params.alpha <= UNIT && graph@.nodes > MAX_NODES,
        },
{
    if params.alpha > UNIT {
        return Err(RankError::AlphaOutOfRange);
    }
    let mut current = match RankVector::uniform(graph.node_count()) {
        Some(vector) => vector,
        None => {
            return Err(RankError::TooManyNodes);
        },
    };
    let degrees = graph.out_degrees();
    let alpha: u64 = params.alpha;
    let epsilon: u64 = params.epsilon;
    let cap: usize = params.max_iterations;
    let ghost goal = ranking_of(graph@, alpha as int, epsilon as int, cap as nat);
    let mut done: usize = 0;
    let mut converged: bool = false;
    while done < cap && !converged
        invariant
            graph.wf(),
            current.wf(),
            alpha <= UNIT,
            done <= cap,
            current@.len() == graph@.nodes,
            degrees.len() == current@.len(),
            forall|u: int| 0 <= u < degrees.len() ==> degrees[u] == out_degree(graph@.edges, u),
            converged ==> goal == (RunView {
                scores: current@,
                termination: Termination::Converged,
                iterations: done as nat,
            }),
            !converged ==> goal == resumed(
                iterate(graph@.edges, alpha as int, epsilon as int, current@, (cap - done) as nat),
                done as nat,
            ),
        decreases cap - done + if converged { 0int } else { 1int },
    {
        let next = current.advance(graph, &degrees, alpha);
        let delta: u64 = match current.max_delta(&next) {
            Some(d) => d,
            None => 0,
        };
        if delta < epsilon {
            converged = true;
        } else {
            proof {
                lemma_iterate_unfold(
                    graph@.edges,
                    alpha as int,
                    epsilon as int,
                    current@,
                    (cap - done) as nat,
                );
            }
        }
        current = next;
        done = done + 1;
    }
    let termination = if converged {
        Termination::Converged
    } else {
        Termination::CapExhausted
    };
    Ok(Ranking { scores: current, termination, iterations: done })
}

/// Mass conservation over a whole run: however the run ends, its scores add
/// up to what the starting scores added up to, and none is negative.
pub proof fn lemma_run_conserves_mass(
    edges: Seq<Edge>,
    alpha: int,
    epsilon: int,
    scores: Seq<int>,
    budget: nat,
)
    requires
        edges_in_range(edges, scores.len() as int),
        0 <= alpha <= UNIT,
        non_negative(scores),
    ensures
        sum(iterate(edges, alpha, epsilon, scores, budget).scores) == sum(scores),
        non_negative(iterate(edges, alpha, epsilon, scores, budget).scores),
        iterate(edges, alpha, epsilon, scores, budget).scores.len() == scores.len(),
        iterate(edges, alpha, epsilon, scores, budget).iterations <= budget,
    decreases budget,
{
    if budget > 0 {
        lemma_step_conserves_mass(edges, alpha, scores);
        lemma_run_conserves_mass(
            edges,
            alpha,
            epsilon,
            next_scores(edges, alpha, scores),
            (budget - 1) as nat,
        );
    }
}

/// The scores of a ranking add up to `UNIT` per node.
pub proof fn lemma_ranking_total(graph: GraphView, alpha: int, epsilon: int, cap: nat)
    requires
        edges_in_range(graph.edges, graph.nodes as int),
        0 <= alpha <= UNIT,
    ensures
        sum(ranking_of(graph, alpha, epsilon, cap).scores) == graph.nodes * UNIT,
        non_negative(ranking_of(graph, alpha, epsilon, cap).scores),
        ranking_of(graph, alpha, epsilon, cap).scores.len() == graph.nodes,
{
    lemma_uniform_total(graph.nodes);
    lemma_run_conserves_mass(graph.edges, alpha, epsilon, uniform(graph.nodes), cap);
}

/// `after` comes from `before` by one step, and that step changed no score
/// by `epsilon` or more.
pub open spec fn settles(
    edges: Seq<Edge>,
    alpha: int,
    epsilon: int,
    before: Seq<int>,
    after: Seq<int>,
) -> bool {
    after == next_scores(edges, alpha, before) && max_delta(before, after) < epsilon
}

/// What the reason for stopping says. A run that converged took at least
/// one step and no more than its budget, and its last step changed no score
/// by `epsilon` or more. A run that used up its budget took every step of
/// it.
pub proof fn lemma_termination_meaning(
    edges: Seq<Edge>,
    alpha: int,
    epsilon: int,
    scores: Seq<int>,
    budget: nat,
)
    ensures
        iterate(edges, alpha, epsilon, scores, budget).termination == Termination::CapExhausted
            ==> iterate(edges, alpha, epsilon, scores, budget).iterations == budget,
        iterate(edges, alpha, epsilon, scores, budget).termination == Termination::Converged ==> {
            &&& 1 <= iterate(edges, alpha, epsilon, scores, budget).iterations <= budget
            &&& exists|before: Seq<int>| #[trigger]
                settles(
                    edges,
                    alpha,
                    epsilon,
                    before,
                    iterate(edges, alpha, epsilon, scores, budget).scores,
                )
        },
    decreases budget,
{
    let run = iterate(edges, alpha, epsilon, scores, budget);
    if budget > 0 {
        let next = next_scores(edges, alpha, scores);
        if max_delta(scores, next) < epsilon {
            assert(settles(edges, alpha, epsilon, scores, run.scores));
        } else {
            lemma_termination_meaning(edges, alpha, epsilon, next, (budget - 1) as nat);
            let rest = iterate(edges, alpha, epsilon, next, (budget - 1) as nat);
            if rest.termination == Termination::Converged {
                let before = choose|before: Seq<int>| #[trigger]
                    settles(edges, alpha, epsilon, before, rest.scores);
                assert(settles(edges, alpha, epsilon, before, run.scores));
            }
        }
    }
}

/// The order in which the edges were added does not matter to a step: two
/// lists that hold the same edges equally often give the same scores.
pub proof fn lemma_step_ignores_edge_order(
    a: Seq<Edge>,
    b: Seq<Edge>,
    alpha: int,
    scores: Seq<int>,
)
    requires
        a.to_multiset() == b.to_multiset(),
    ensures
        next_scores(a, alpha, scores) == next_scores(b, alpha, scores),
{
    assert forall|u: int| out_degree(a, u) == out_degree(b, u) by {
        lemma_edge_sum_permutation(a, b, leaves(u));
    }
    let sh = shares(a, alpha, scores);
    assert(sh =~= shares(b, alpha, scores));
    lemma_edge_sum_permutation(a, b, carries(sh));
    assert forall|v: int| inflow(a, sh, v) == inflow(b, sh, v) by {
        lemma_edge_sum_permutation(a, b, delivers(sh, v));
    }
}

/// Determinism: the scores, the reason for stopping and the number of steps
/// depend on the nodes, on how often each edge occurs, and on the
/// parameters, and on nothing else; not on the order of the edges.
pub proof fn lemma_run_ignores_edge_order(
    a: Seq<Edge>,
    b: Seq<Edge>,
    alpha: int,
    epsilon: int,
    scores: Seq<int>,
    budget: nat,
)
    requires
        a.to_multiset() == b.to_multiset(),
    ensures
        iterate(a, alpha, epsilon, scores, budget) == iterate(b, alpha, epsilon, scores, budget),
    decreases budget,
{
    if budget > 0 {
        lemma_step_ignores_edge_order(a, b, alpha, scores);
        lemma_run_ignores_edge_order(
            a,
            b,
            alpha,
            epsilon,
            next_scores(a, alpha, scores),
            (budget - 1) as nat,
        );
    }
}

/// Two graphs with the same nodes and the same edges, each equally often,
/// have the same ranking.
pub proof fn lemma_ranking_ignores_edge_order(
    a: GraphView,
    b: GraphView,
    alpha: int,
    epsilon: int,
    cap: nat,
)
    requires
        a.nodes == b.nodes,
        a.edges.to_multiset() == b.edges.to_multiset(),
    ensures
        ranking_of(a, alpha, epsilon, cap) == ranking_of(b, alpha, epsilon, cap),
{
    lemma_run_ignores_edge_order(a.edges, b.edges, alpha, epsilon, uniform(a.nodes), cap);
}

/// A node without outgoing edges keeps nothing back: its whole score goes
/// to the pool, so every node receives an even part of it in the next step.
pub proof fn lemma_dangling_score_is_shared(
    edges: Seq<Edge>,
    alpha: int,
    scores: Seq<int>,
    dangling: int,
    node: int,
)
    requires
        edges_in_range(edges, scores.len() as int),
        0 <= alpha <= UNIT,
        non_negative(scores),
        0 <= dangling < scores.len(),
        0 <= node < scores.len(),
        out_degree(edges, dangling) == 0,
    ensures
        pool(edges, alpha, scores) >= scores[dangling],
        next_score(edges, alpha, scores, node) >= scores[dangling] / (scores.len() as int),
{
    let n = scores.len() as int;
    let sh = shares(edges, alpha, scores);
    let leaving = Seq::new(scores.len(), |u: int| out_degree(edges, u) * sh[u]);
    let staying = Seq::new(scores.len(), |u: int| scores[u] - leaving[u]);
    assert forall|u: int| 0 <= u < n implies 0 <= #[trigger] staying[u] by {
        lemma_share_bounds(edges, alpha, scores, u);
    }
    lemma_moved_by_source(edges, sh);
    lemma_sum_zip(leaving, staying, scores);
    lemma_entry_at_most_sum(staying, dangling);
    let common = pool(edges, alpha, scores);
    lemma_moved_bounds(edges, alpha, scores);
    lemma_inflow_floor(edges, sh, node);
    assert(common / n >= scores[dangling] / n) by (nonlinear_arith)
        requires
            common >= scores[dangling],
            n > 0,
    ;
}

} // verus!
