use pagerank::rank::{GraphError, RankPropagator, SCALE};

fn sports_graph() -> Vec<Vec<usize>> {
    vec![
        vec![1, 2], // node 0 links to 1 and 2
        vec![0],    // node 1 links back to 0
        vec![0, 3], // node 2 links to 0 and 3
        vec![0],    // node 3 links back to 0
        vec![0, 1], // node 4 links to 0 and 1
    ]
}

#[test]
fn output_length_equals_node_count() {
    let propagator = RankPropagator::new(85, 100, 10);
    let scores = propagator.rank(&sports_graph()).unwrap();
    assert_eq!(scores.len(), 5);
}

#[test]
fn most_linked_node_ranks_highest_and_reruns_bit_identical() {
    let propagator = RankPropagator::new(85, 100, 100);
    let graph = sports_graph();
    let scores = propagator.rank(&graph).unwrap();
    assert_eq!(scores.len(), 5);
    // node 0 receives edges from every other node: strictly highest score
    for i in 1..5 {
        assert!(scores[0] > scores[i]);
    }
    // deterministic: a second run reproduces the same output exactly
    let again = propagator.rank(&graph).unwrap();
    assert_eq!(scores, again);
}

#[test]
fn zero_iterations_yield_the_uniform_vector() {
    let propagator = RankPropagator::new(85, 100, 0);
    let scores = propagator.rank(&sports_graph()).unwrap();
    assert_eq!(scores, vec![SCALE / 5; 5]);
}

#[test]
fn single_node_at_zero_iterations_scores_one_unit() {
    let propagator = RankPropagator::new(85, 100, 0);
    let scores = propagator.rank(&vec![vec![]]).unwrap();
    assert_eq!(scores, vec![SCALE]);
}

#[test]
fn single_dangling_node_keeps_only_the_damping_floor() {
    // with no incoming edges the node's whole score is the uniform floor
    // (1 - damping) / n = 15% of a unit, from the first iteration on
    for iterations in [1, 2, 50] {
        let propagator = RankPropagator::new(85, 100, iterations);
        let scores = propagator.rank(&vec![vec![]]).unwrap();
        assert_eq!(scores, vec![150_000_000]);
    }
}

#[test]
fn isolated_nodes_all_converge_to_the_same_floor() {
    let graph: Vec<Vec<usize>> = vec![vec![], vec![], vec![]];
    for (dnum, dden) in [(85u64, 100u64), (1, 2), (999_999, 1_000_000)] {
        let expected = (dden - dnum) * SCALE / (dden * 3);
        for iterations in [1, 2, 7] {
            let propagator = RankPropagator::new(dnum, dden, iterations);
            let scores = propagator.rank(&graph).unwrap();
            assert_eq!(scores, vec![expected; 3]);
        }
    }
}

#[test]
fn every_node_keeps_at_least_the_damping_floor() {
    // node 0 has no outgoing edge but is pointed at; node 1 keeps only
    // the floor (1 - damping) / n
    let graph: Vec<Vec<usize>> = vec![vec![], vec![0]];
    let floor = (100 - 85) * SCALE / (100 * 2);
    let propagator = RankPropagator::new(85, 100, 25);
    let scores = propagator.rank(&graph).unwrap();
    assert_eq!(scores[1], floor);
    assert!(scores[0] > scores[1]);
}

#[test]
fn total_mass_never_exceeds_one_unit() {
    let propagator = RankPropagator::new(85, 100, 100);
    let scores = propagator.rank(&sports_graph()).unwrap();
    let total: u64 = scores.iter().sum();
    assert!(total <= SCALE);
    // no node of this graph dangles, so only floor division shaves mass
    assert!(total >= SCALE - 1_000_000);
}

#[test]
fn one_more_iteration_after_convergence_moves_almost_nothing() {
    let graph = sports_graph();
    let converged = RankPropagator::new(85, 100, 100).rank(&graph).unwrap();
    let once_more = RankPropagator::new(85, 100, 101).rank(&graph).unwrap();
    for (a, b) in converged.iter().zip(once_more.iter()) {
        // a thousandth of a millionth of the total mass
        assert!(a.abs_diff(*b) <= 1_000);
    }
}

#[test]
fn edge_beyond_node_count_is_invalid() {
    let propagator = RankPropagator::new(85, 100, 10);
    let result = propagator.rank(&vec![vec![1, 5], vec![0]]);
    assert!(matches!(result, Err(GraphError::InvalidGraph)));
}

#[test]
fn empty_graph_ranks_to_empty_output() {
    let propagator = RankPropagator::new(85, 100, 100);
    let scores = propagator.rank(&Vec::new()).unwrap();
    assert!(scores.is_empty());
}

#[test]
fn self_loops_and_cycles_are_valid() {
    let propagator = RankPropagator::new(85, 100, 20);
    let graph = vec![vec![0, 1], vec![0]];
    let scores = propagator.rank(&graph).unwrap();
    assert_eq!(scores.len(), 2);
    assert!(scores[0] > scores[1]);
}
