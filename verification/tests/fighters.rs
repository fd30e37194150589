use pagerank::fighters::{add_edge, FightNetwork, Fighter};

#[test]
fn fighter_keeps_its_name() {
    let fighter = Fighter::new("Dustin Poirier");
    assert_eq!(fighter.name, "Dustin Poirier");
    assert_eq!(fighter.display(), "Dustin Poirier");
}

#[test]
fn degrees_of_the_fight_network() {
    // a five-fighter network with seven recorded fights
    let mut graph = FightNetwork::new(5);
    add_edge(&mut graph, 0, 1); // Poirier vs. Nurmagomedov
    add_edge(&mut graph, 1, 3); // Nurmagomedov vs. McGregor
    add_edge(&mut graph, 3, 0); // McGregor vs. Poirier
    add_edge(&mut graph, 3, 2); // McGregor vs. Aldo
    add_edge(&mut graph, 3, 4); // McGregor vs. Diaz
    add_edge(&mut graph, 0, 4); // Poirier vs. Diaz
    add_edge(&mut graph, 2, 4); // Aldo vs. Diaz

    assert_eq!(graph.degree(0), 3);
    assert_eq!(graph.degree(1), 2);
    assert_eq!(graph.degree(2), 2);
    assert_eq!(graph.degree(3), 4);
    assert_eq!(graph.degree(4), 3);
}

#[test]
fn empty_network_has_degree_zero() {
    let graph = FightNetwork::new(3);
    assert_eq!(graph.degree(0), 0);
    assert_eq!(graph.degree(2), 0);
}
