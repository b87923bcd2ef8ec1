//! Directed graphs over the nodes `0 .. n`, with repeated edges kept: a link
//! that occurs twice is two edges. Degrees and every other sum over edges
//! are defined by `edge_sum`, which does not depend on the order of the
//! edges.

use vstd::prelude::*;

verus! {

/// A directed link: `(source, target)`.
pub type Edge = (usize, usize);

/// The sum of a weight over the edges of a list, each edge counted as often
/// as it occurs.
pub open spec fn edge_sum(edges: Seq<Edge>, weight: spec_fn(Edge) -> int) -> int
    decreases edges.len(),
{
    if edges.len() == 0 {
        0
    } else {
        edge_sum(edges.drop_last(), weight) + weight(edges.last())
    }
}

/// The weight that counts the edges leaving `node`.
pub open spec fn leaves(node: int) -> spec_fn(Edge) -> int {
    |e: Edge| if e.0 == node { 1int } else { 0int }
}

/// The weight that counts the edges arriving at `node`.
pub open spec fn arrives(node: int) -> spec_fn(Edge) -> int {
    |e: Edge| if e.1 == node { 1int } else { 0int }
}

/// Number of edges that leave `node`; a link that occurs twice counts twice.
pub open spec fn out_degree(edges: Seq<Edge>, node: int) -> int {
    edge_sum(edges, leaves(node))
}

/// Number of edges that arrive at `node`; a link that occurs twice counts twice.
pub open spec fn in_degree(edges: Seq<Edge>, node: int) -> int {
    edge_sum(edges, arrives(node))
}

/// Both ends of every edge are nodes of a graph with `nodes` nodes.
pub open spec fn edges_in_range(edges: Seq<Edge>, nodes: int) -> bool {
    forall|k: int| 0 <= k < edges.len() ==> (#[trigger] edges[k]).0 < nodes && edges[k].1 < nodes
}

/// A node without outgoing edges.
pub open spec fn is_dangling(edges: Seq<Edge>, node: int) -> bool {
    out_degree(edges, node) == 0
}

/// Adding an edge at the end adds its weight.
pub proof fn lemma_edge_sum_push(edges: Seq<Edge>, e: Edge, weight: spec_fn(Edge) -> int)
    ensures
        edge_sum(edges.push(e), weight) == edge_sum(edges, weight) + weight(e),
{
    assert(edges.push(e).drop_last() =~= edges);
}

/// With a weight that is never negative, a prefix of the list weighs at most
/// as much as the whole list, and no less than zero.
pub proof fn lemma_edge_sum_prefix(edges: Seq<Edge>, k: int, weight: spec_fn(Edge) -> int)
    requires
        0 <= k <= edges.len(),
        forall|j: int| 0 <= j < edges.len() ==> weight(#[trigger] edges[j]) >= 0,
    ensures
        0 <= edge_sum(edges.take(k), weight) <= edge_sum(edges, weight),
    decreases edges.len() - k,
{
    if k == edges.len() {
        assert(edges.take(k) =~= edges);
        lemma_edge_sum_floor(edges, weight);
    } else {
        lemma_edge_sum_prefix(edges, k + 1, weight);
        assert(edges.take(k + 1).drop_last() =~= edges.take(k));
        lemma_edge_sum_floor(edges.take(k), weight);
    }
}

/// With a weight that is never negative the sum is not negative.
pub proof fn lemma_edge_sum_floor(edges: Seq<Edge>, weight: spec_fn(Edge) -> int)
    requires
        forall|j: int| 0 <= j < edges.len() ==> weight(#[trigger] edges[j]) >= 0,
    ensures
        edge_sum(edges, weight) >= 0,
    decreases edges.len(),
{
    if edges.len() > 0 {
        lemma_edge_sum_floor(edges.drop_last(), weight);
    }
}

/// Two lists that hold the same edges equally often, in whatever order,
/// give the same sum.
pub proof fn lemma_edge_sum_permutation(a: Seq<Edge>, b: Seq<Edge>, weight: spec_fn(Edge) -> int)
    requires
        a.to_multiset() == b.to_multiset(),
    ensures
        edge_sum(a, weight) == edge_sum(b, weight),
    decreases a.len(),
{
    broadcast use vstd::seq_lib::group_to_multiset_ensures;

    if a.len() == 0 {
        assert(b.to_multiset().len() == 0);
    } else {
        let e = a.last();
        assert(b.to_multiset().contains(e));
        let i = b.index_of(e);
        assert(a.drop_last() =~= a.remove(a.len() - 1));
        lemma_edge_sum_permutation(a.drop_last(), b.remove(i), weight);
        lemma_edge_sum_remove(b, i, weight);
    }
}

/// Taking one edge out of the list takes its weight out of the sum.
pub proof fn lemma_edge_sum_remove(edges: Seq<Edge>, i: int, weight: spec_fn(Edge) -> int)
    requires
        0 <= i < edges.len(),
    ensures
        edge_sum(edges, weight) == edge_sum(edges.remove(i), weight) + weight(edges[i]),
    decreases edges.len(),
{
    if i < edges.len() - 1 {
        lemma_edge_sum_remove(edges.drop_last(), i, weight);
        assert(edges.remove(i).drop_last() =~= edges.drop_last().remove(i));
    }
}

/// What a `Graph` stands for: the nodes `0 .. nodes` and a list of edges.
/// The order of the list carries no meaning; how often a link occurs does.
pub ghost struct GraphView {
    pub nodes: nat,
    pub edges: Seq<Edge>,
}

/// A directed graph over the nodes `0 .. nodes`, with repeated edges kept.
pub struct Graph {
    nodes: usize,
    edges: Vec<Edge>,
}

impl View for Graph {
    type V = GraphView;

    closed spec fn view(&self) -> GraphView {
        GraphView { nodes: self.nodes as nat, edges: self.edges@ }
    }
}

impl Graph {
    /// Every edge joins two nodes of the graph.
    pub open spec fn wf(&self) -> bool {
        edges_in_range(self@.edges, self@.nodes as int)
    }

    /// The graph with `nodes` nodes and no edge.
    pub fn new(nodes: usize) -> (graph: Self)
        ensures
            graph.wf(),
            graph@.nodes == nodes,
            graph@.edges == Seq::<Edge>::empty(),
    {
        Graph { nodes, edges: Vec::new() }
    }

    /// Adds the edge `source -> target` where both are nodes of the graph, and
    /// says whether it did. An edge that is already there is added once more.
    pub fn add_edge(&mut self, source: usize, target: usize) -> (added: bool)
        requires
            old(self).wf(),
        ensures
            final(self).wf(),
            final(self)@.nodes == old(self)@.nodes,
            added == (source < old(self)@.nodes && target < old(self)@.nodes),
            added ==> final(self)@.edges == old(self)@.edges.push((source, target)),
            !added ==> final(self)@.edges == old(self)@.edges,
    {
        if source < self.nodes && target < self.nodes {
            self.edges.push((source, target));
            true
        } else {
            false
        }
    }

    /// Number of nodes.
    pub fn node_count(&self) -> (count: usize)
        ensures
            count == self@.nodes,
    {
        self.nodes
    }

    /// Number of edges, repeated ones counted each time.
    pub fn edge_count(&self) -> (count: usize)
        ensures
            count == self@.edges.len(),
    {
        self.edges.len()
    }

    /// The edges in the order in which they were added.
    pub fn edges(&self) -> (edges: &Vec<Edge>)
        ensures
            edges@ == self@.edges,
    {
        &self.edges
    }

    /// The out-degree of every node, indexed by node.
    pub fn out_degrees(&self) -> (degrees: Vec<usize>)
        requires
            self.wf(),
        ensures
            degrees.len() == self@.nodes,
            forall|u: int| 0 <= u < degrees.len() ==> degrees[u] == out_degree(self@.edges, u),
    {
        let mut degrees: Vec<usize> = Vec::new();
        let mut u: usize = 0;
        while u < self.nodes
            invariant
                u <= self.nodes,
                degrees.len() == u,
                forall|j: int| 0 <= j < u ==> degrees[j] == 0,
            decreases self.nodes - u,
        {
            degrees.push(0);
            u = u + 1;
        }
        let mut k: usize = 0;
        while k < self.edges.len()
            invariant
                self.wf(),
                k <= self.edges.len(),
                degrees.len() == self.nodes,
                forall|j: int|
                    0 <= j < degrees.len() ==> degrees[j] == out_degree(
                        self.edges@.take(k as int),
                        j,
                    ),
                forall|j: int| 0 <= j < degrees.len() ==> degrees[j] <= k,
            decreases self.edges.len() - k,
        {
            let source: usize = self.edges[k].0;
            let ghost prefix = self.edges@.take(k as int);
            let bumped: usize = degrees[source] + 1;
            degrees.set(source, bumped);
            proof {
                let longer = self.edges@.take(k + 1);
                assert(longer =~= prefix.push(self.edges@[k as int]));
                assert forall|j: int| 0 <= j < degrees.len() implies degrees[j] == out_degree(
                    longer,
                    j,
                ) by {
                    lemma_edge_sum_push(prefix, self.edges@[k as int], leaves(j));
                }
            }
            k = k + 1;
        }
        assert(self.edges@.take(k as int) =~= self.edges@);
        degrees
    }

    /// The number of edges that leave `node`.
    pub fn out_degree(&self, node: usize) -> (degree: usize)
        ensures
            degree == out_degree(self@.edges, node as int),
    {
        let mut degree: usize = 0;
        let mut k: usize = 0;
        while k < self.edges.len()
            invariant
                k <= self.edges.len(),
                degree == out_degree(self.edges@.take(k as int), node as int),
                degree <= k,
            decreases self.edges.len() - k,
        {
            proof {
                let prefix = self.edges@.take(k as int);
                assert(self.edges@.take(k + 1) =~= prefix.push(self.edges@[k as int]));
                lemma_edge_sum_push(prefix, self.edges@[k as int], leaves(node as int));
            }
            if self.edges[k].0 == node {
                degree = degree + 1;
            }
            k = k + 1;
        }
        assert(self.edges@.take(k as int) =~= self.edges@);
        degree
    }

    /// The number of edges that arrive at `node`.
    pub fn in_degree(&self, node: usize) -> (degree: usize)
        ensures
            degree == in_degree(self@.edges, node as int),
    {
        let mut degree: usize = 0;
        let mut k: usize = 0;
        while k < self.edges.len()
            invariant
                k <= self.edges.len(),
                degree == in_degree(self.edges@.take(k as int), node as int),
                degree <= k,
            decreases self.edges.len() - k,
        {
            proof {
                let prefix = self.edges@.take(k as int);
                assert(self.edges@.take(k + 1) =~= prefix.push(self.edges@[k as int]));
                lemma_edge_sum_push(prefix, self.edges@[k as int], arrives(node as int));
            }
            if self.edges[k].1 == node {
                degree = degree + 1;
            }
            k = k + 1;
        }
        assert(self.edges@.take(k as int) =~= self.edges@);
        degree
    }

    /// Whether `node` has no outgoing edge.
    pub fn is_dangling(&self, node: usize) -> (dangling: bool)
        ensures
            dangling == is_dangling(self@.edges, node as int),
    {
        self.out_degree(node) == 0
    }
}

} // verus!
