use marvel_graph::analytics::Ratio;
use marvel_graph::graph::Hero;
use marvel_graph::graph::MarvelGraph;

fn comic(key: &str, members: &[&str]) -> (String, Vec<String>) {
    (key.to_string(), members.iter().map(|m| m.to_string()).collect())
}

#[test]
fn a_new_hero_has_no_appearances() {
    let hero = Hero::new("Thor".to_string());
    assert_eq!(hero.name, "Thor");
    assert_eq!(hero.comics, 0);
}

#[test]
fn the_most_frequent_hero_is_ranked_by_appearances_not_by_links() {
    let graph = MarvelGraph::from_comics_data(vec![
        comic("C1", &["Hub", "A", "B", "C", "D"]),
        comic("C2", &["Solo"]),
        comic("C3", &["Solo"]),
    ]);
    let most = graph.most_connected_hero();
    assert_eq!(most.name, "Solo");
    assert_eq!(most.comics, 2);
}

#[test]
fn among_equally_frequent_heroes_the_first_named_wins() {
    let graph = MarvelGraph::from_comics_data(vec![
        comic("C1", &["B", "A"]),
        comic("C2", &["A", "B"]),
    ]);
    let most = graph.most_connected_hero();
    assert_eq!(most.name, "B");
    assert_eq!(most.comics, 2);
}

#[test]
fn an_empty_graph_has_no_most_frequent_hero() {
    let graph = MarvelGraph::from_comics_data(Vec::new());
    let most = graph.most_connected_hero();
    assert_eq!(most.name, "");
    assert_eq!(most.comics, 0);
}

#[test]
fn an_empty_graph_has_average_zero() {
    let graph = MarvelGraph::from_comics_data(Vec::new());
    assert_eq!(graph.average_connections(), Ratio { num: 0, den: 1 });
    assert!(graph.compute_centrality().is_empty());
}

#[test]
fn the_average_is_the_sum_of_degrees_over_the_nodes() {
    let graph = MarvelGraph::from_comics_data(vec![
        comic("C1", &["A", "B"]),
        comic("C2", &["B", "C"]),
        comic("C3", &["D"]),
    ]);
    assert_eq!(graph.average_connections(), Ratio { num: 4, den: 4 });
    let star = MarvelGraph::from_comics_data(vec![
        comic("C1", &["A", "B"]),
        comic("C2", &["A", "C"]),
    ]);
    assert_eq!(star.average_connections(), Ratio { num: 4, den: 3 });
    let value = star.average_connections();
    assert!((value.num as f64 / value.den as f64 - 4.0 / 3.0).abs() < 1e-12);
}

#[test]
fn centrality_is_degree_over_the_other_nodes() {
    let graph = MarvelGraph::from_comics_data(vec![
        comic("C1", &["A", "B"]),
        comic("C2", &["B", "C"]),
        comic("C3", &["D"]),
    ]);
    let centrality = graph.compute_centrality();
    let expected = [("A", 1u128), ("B", 2), ("C", 1), ("D", 0)];
    assert_eq!(centrality.len(), 4);
    for (i, (name, degree)) in expected.iter().enumerate() {
        assert_eq!(centrality[i].0, *name);
        assert_eq!(centrality[i].1, Ratio { num: *degree, den: 3 });
    }
}

#[test]
fn centrality_is_one_in_a_complete_graph_and_never_more() {
    let graph = MarvelGraph::from_comics_data(vec![comic("C1", &["A", "B", "C", "D", "E"])]);
    for (_, share) in graph.compute_centrality() {
        assert_eq!(share, Ratio { num: 4, den: 4 });
    }
    let mixed = MarvelGraph::from_comics_data(vec![
        comic("C1", &["A", "B", "C"]),
        comic("C2", &["C", "D"]),
        comic("C3", &["E"]),
    ]);
    for (_, share) in mixed.compute_centrality() {
        assert!(share.den == 4);
        assert!(share.num <= share.den);
        let value = share.num as f64 / share.den as f64;
        assert!(0.0 <= value && value <= 1.0);
    }
}

#[test]
fn the_only_node_of_a_graph_has_centrality_zero() {
    let graph = MarvelGraph::from_comics_data(vec![comic("C1", &["A"])]);
    let centrality = graph.compute_centrality();
    assert_eq!(centrality.len(), 1);
    assert_eq!(centrality[0].0, "A");
    assert_eq!(centrality[0].1, Ratio { num: 0, den: 1 });
    assert_eq!(graph.average_connections(), Ratio { num: 0, den: 1 });
}
