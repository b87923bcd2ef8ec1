use webrank::graph::Graph;
use webrank::rank::{rank, RankError, RankParams, RankVector, Termination, MAX_NODES, UNIT};

fn graph_of(nodes: usize, edges: &[(usize, usize)]) -> Graph {
    let mut graph = Graph::new(nodes);
    for (source, target) in edges {
        assert!(graph.add_edge(*source, *target));
    }
    graph
}

fn total(scores: &RankVector) -> u64 {
    scores.scores().iter().sum()
}

// The graph with the edges 1->2, 3->2, 4->2, 4->3, its nodes counted from zero.
fn four_nodes() -> Graph {
    graph_of(4, &[(0, 1), (2, 1), (3, 1), (3, 2)])
}

#[test]
fn one_step_on_two_nodes_gives_exact_scores() {
    let graph = graph_of(2, &[(0, 1)]);
    let start = RankVector::uniform(2).unwrap();
    let next = start.step(&graph, UNIT / 10).unwrap();
    assert_eq!(next.scores(), &vec![550_000_000, 1_450_000_000]);
}

#[test]
fn step_rounds_down_and_deals_out_the_remainder() {
    // Node 0 keeps 900_000_000 of its score and has three edges: each
    // carries 300_000_000. With alpha at a third of the unit, rounding
    // leaves a remainder that goes to the pool.
    let graph = graph_of(3, &[(0, 1), (0, 2), (0, 2)]);
    let start = RankVector::uniform(3).unwrap();
    let alpha = 333_333_333;
    let next = start.step(&graph, alpha).unwrap();
    // kept = 1_000_000_000 - 333_333_333 = 666_666_667; share = 222_222_222
    // moved = 666_666_666; pool = 3_000_000_000 - 666_666_666 = 2_333_333_334
    // even part 777_777_778, nothing left over
    assert_eq!(next.scores(), &vec![777_777_778, 1_000_000_000, 1_222_222_222]);
    assert_eq!(total(&next), 3 * UNIT);
}

#[test]
fn remainder_of_the_pool_goes_to_the_first_nodes() {
    // No edges: all of the score is pool. 3 * UNIT over 3 nodes is even.
    let graph = Graph::new(3);
    let start = RankVector::uniform(3).unwrap();
    let next = start.step(&graph, 0).unwrap();
    assert_eq!(next.scores(), &vec![UNIT, UNIT, UNIT]);
    // One edge whose share leaves an uneven pool.
    let graph = graph_of(3, &[(0, 1)]);
    let next = start.step(&graph, 1).unwrap();
    // kept = 1_000_000_000 - 1 = 999_999_999, moved = 999_999_999,
    // pool = 2_000_000_001 = 3 * 666_666_667 + 0
    assert_eq!(next.scores(), &vec![666_666_667, 1_666_666_666, 666_666_667]);
    let next = start.step(&graph, 2).unwrap();
    // kept = 999_999_998, pool = 2_000_000_002 = 3 * 666_666_667 + 1
    assert_eq!(next.scores(), &vec![666_666_668, 1_666_666_665, 666_666_667]);
}

#[test]
fn mass_is_conserved_after_every_iteration() {
    let graph = four_nodes();
    for cap in 0..40 {
        let params = RankParams { alpha: UNIT / 10, epsilon: 0, max_iterations: cap };
        let ranking = rank(&graph, &params).unwrap();
        assert_eq!(total(&ranking.scores), 4 * UNIT);
        assert_eq!(ranking.iterations, cap);
        assert_eq!(ranking.termination, Termination::CapExhausted);
    }
}

#[test]
fn mass_is_conserved_with_awkward_alpha() {
    let graph = graph_of(5, &[(0, 1), (0, 2), (0, 3), (1, 2), (2, 0), (2, 0), (4, 4)]);
    let mut current = RankVector::uniform(5).unwrap();
    for _ in 0..50 {
        current = current.step(&graph, 123_456_789).unwrap();
        assert_eq!(total(&current), 5 * UNIT);
    }
}

#[test]
fn same_graph_gives_same_ranking_whatever_the_edge_order() {
    let params = RankParams::default();
    let a = rank(&graph_of(4, &[(0, 1), (2, 1), (3, 1), (3, 2)]), &params).unwrap();
    let b = rank(&graph_of(4, &[(3, 2), (3, 1), (0, 1), (2, 1)]), &params).unwrap();
    let c = rank(&graph_of(4, &[(2, 1), (3, 2), (0, 1), (3, 1)]), &params).unwrap();
    assert_eq!(a.scores.scores(), b.scores.scores());
    assert_eq!(a.scores.scores(), c.scores.scores());
    assert_eq!(a.termination, b.termination);
    assert_eq!(a.termination, c.termination);
    assert_eq!(a.iterations, b.iterations);
    assert_eq!(a.iterations, c.iterations);
}

#[test]
fn repeated_runs_agree() {
    let params = RankParams::default();
    let first = rank(&four_nodes(), &params).unwrap();
    let second = rank(&four_nodes(), &params).unwrap();
    assert_eq!(first.scores.scores(), second.scores.scores());
    assert_eq!(first.termination, second.termination);
    assert_eq!(first.iterations, second.iterations);
}

#[test]
fn dangling_node_hands_its_score_to_all() {
    // Node 1 has no outgoing edge.
    let graph = graph_of(3, &[(0, 1), (2, 1)]);
    assert!(graph.is_dangling(1));
    assert!(!graph.is_dangling(0));
    let mut current = RankVector::uniform(3).unwrap();
    for _ in 0..30 {
        let held = current.score(1).unwrap();
        let next = current.step(&graph, UNIT / 10).unwrap();
        assert_eq!(total(&next), 3 * UNIT);
        for node in 0..3 {
            assert!(next.score(node).unwrap() >= held / 3);
        }
        current = next;
    }
}

#[test]
fn graph_of_dangling_nodes_stays_uniform() {
    let graph = Graph::new(7);
    let ranking = rank(&graph, &RankParams::default()).unwrap();
    assert_eq!(ranking.scores.scores(), &vec![UNIT; 7]);
    assert_eq!(ranking.termination, Termination::Converged);
    assert_eq!(ranking.iterations, 1);
}

#[test]
fn run_converges_on_small_graph() {
    let ranking = rank(&four_nodes(), &RankParams::default()).unwrap();
    assert_eq!(ranking.termination, Termination::Converged);
    assert!(ranking.iterations >= 1);
    assert!(ranking.iterations < 1000);
    assert_eq!(total(&ranking.scores), 4 * UNIT);
    // The last step changed no score by a millionth of a unit or more.
    let again = ranking.scores.step(&four_nodes(), UNIT / 10).unwrap();
    assert!(ranking.scores.max_delta(&again).unwrap() < 2 * (UNIT / 1_000_000));
}

#[test]
fn cap_is_reported_when_it_ends_the_run() {
    let params = RankParams { alpha: UNIT / 10, epsilon: UNIT / 1_000_000, max_iterations: 2 };
    let ranking = rank(&four_nodes(), &params).unwrap();
    assert_eq!(ranking.termination, Termination::CapExhausted);
    assert_eq!(ranking.iterations, 2);
}

#[test]
fn cap_of_zero_returns_the_uniform_vector() {
    let params = RankParams { alpha: UNIT / 10, epsilon: UNIT, max_iterations: 0 };
    let ranking = rank(&four_nodes(), &params).unwrap();
    assert_eq!(ranking.termination, Termination::CapExhausted);
    assert_eq!(ranking.iterations, 0);
    assert_eq!(ranking.scores.scores(), &vec![UNIT; 4]);
}

#[test]
fn threshold_of_zero_never_converges() {
    let params = RankParams { alpha: UNIT / 10, epsilon: 0, max_iterations: 25 };
    let ranking = rank(&Graph::new(3), &params).unwrap();
    assert_eq!(ranking.termination, Termination::CapExhausted);
    assert_eq!(ranking.iterations, 25);
}

#[test]
fn empty_graph_has_an_empty_ranking() {
    let ranking = rank(&Graph::new(0), &RankParams::default()).unwrap();
    assert_eq!(ranking.scores.len(), 0);
    assert_eq!(ranking.termination, Termination::Converged);
    assert_eq!(ranking.iterations, 1);
}

#[test]
fn alpha_above_the_unit_is_refused() {
    let params = RankParams { alpha: UNIT + 1, epsilon: 1, max_iterations: 10 };
    assert_eq!(rank(&four_nodes(), &params).unwrap_err(), RankError::AlphaOutOfRange);
    let start = RankVector::uniform(4).unwrap();
    assert!(start.step(&four_nodes(), UNIT + 1).is_none());
    assert!(start.step(&four_nodes(), UNIT).is_some());
}

#[test]
fn alpha_of_the_whole_unit_makes_everything_uniform() {
    let start = RankVector::uniform(4).unwrap();
    let next = start.step(&four_nodes(), UNIT).unwrap();
    assert_eq!(next.scores(), &vec![UNIT; 4]);
}

#[test]
fn too_many_nodes_are_refused() {
    if let Some(nodes) = MAX_NODES.checked_add(1) {
        let params = RankParams::default();
        assert_eq!(rank(&Graph::new(nodes), &params).unwrap_err(), RankError::TooManyNodes);
        assert!(RankVector::uniform(nodes).is_none());
    }
}

#[test]
fn vector_of_another_graph_is_refused() {
    let start = RankVector::uniform(3).unwrap();
    assert!(start.step(&four_nodes(), UNIT / 10).is_none());
    let other = RankVector::uniform(4).unwrap();
    assert!(start.max_delta(&other).is_none());
}

#[test]
fn max_delta_is_the_largest_single_change() {
    let graph = graph_of(2, &[(0, 1)]);
    let start = RankVector::uniform(2).unwrap();
    let next = start.step(&graph, UNIT / 10).unwrap();
    assert_eq!(start.max_delta(&next), Some(450_000_000));
    assert_eq!(next.max_delta(&start), Some(450_000_000));
    assert_eq!(start.max_delta(&start), Some(0));
}

#[test]
fn score_of_a_node_outside_the_vector_is_none() {
    let start = RankVector::uniform(2).unwrap();
    assert_eq!(start.score(1), Some(UNIT));
    assert_eq!(start.score(2), None);
    assert_eq!(start.len(), 2);
}

#[test]
fn default_parameters() {
    let params = RankParams::default();
    assert_eq!(params.alpha, 100_000_000);
    assert_eq!(params.epsilon, 1_000);
    assert_eq!(params.max_iterations, 1000);
}

#[test]
fn repeated_edge_counts_twice() {
    // 0 links twice to 1 and once to 2: 1 receives two shares of three.
    let graph = graph_of(3, &[(0, 1), (0, 1), (0, 2)]);
    let start = RankVector::uniform(3).unwrap();
    let next = start.step(&graph, 0).unwrap();
    // share = 333_333_333; moved = 999_999_999; pool = 2_000_000_001 = 3 * 666_666_667
    assert_eq!(next.scores(), &vec![666_666_667, 1_333_333_333, 1_000_000_000]);
    assert_eq!(graph.out_degree(0), 3);
    assert_eq!(graph.in_degree(1), 2);
}

#[test]
fn edge_outside_the_graph_is_not_added() {
    let mut graph = Graph::new(2);
    assert!(!graph.add_edge(0, 2));
    assert!(!graph.add_edge(2, 0));
    assert!(graph.add_edge(1, 0));
    assert_eq!(graph.edge_count(), 1);
    assert_eq!(graph.node_count(), 2);
    assert_eq!(graph.edges(), &vec![(1, 0)]);
    assert_eq!(graph.out_degrees(), vec![0, 1]);
}

#[test]
fn large_ring_with_spokes_is_ranked() {
    let nodes = 5_000;
    let mut graph = Graph::new(nodes);
    for node in 0..nodes {
        assert!(graph.add_edge(node, (node + 1) % nodes));
        if node % 10 == 0 {
            assert!(graph.add_edge(node, 0));
        }
    }
    let ranking = rank(&graph, &RankParams::default()).unwrap();
    assert_eq!(total(&ranking.scores), nodes as u64 * UNIT);
    let best = (0..nodes).max_by_key(|node| ranking.scores.score(*node).unwrap()).unwrap();
    assert_eq!(best, 0);
}
