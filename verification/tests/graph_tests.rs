use marvel_graph::graph::MarvelGraph;

fn comic(key: &str, members: &[&str]) -> (String, Vec<String>) {
    (key.to_string(), members.iter().map(|m| m.to_string()).collect())
}

fn sorted(mut v: Vec<usize>) -> Vec<usize> {
    v.sort();
    v
}

#[test]
fn test_graph_creation() {
    let sample_data = vec![
        comic("Comic1", &["Hero1", "Hero2"]),
        comic("Comic2", &["Hero2", "Hero3"]),
    ];
    let graph = MarvelGraph::from_comics_data(sample_data);

    assert_eq!(graph.node_count(), 3, "Incorrect number of nodes");
    assert_eq!(graph.edge_count(), 2, "Incorrect number of edges");
}

#[test]
fn test_most_connected_hero() {
    let sample_data = vec![
        comic("Comic1", &["Hero1", "Hero2"]),
        comic("Comic2", &["Hero2", "Hero3"]),
        comic("Comic3", &["Hero1", "Hero3"]),
        comic("Comic4", &["Hero1", "Hero4"]),
    ];

    let graph = MarvelGraph::from_comics_data(sample_data);
    let most_connected = graph.most_connected_hero();

    assert_eq!(most_connected.name, "Hero1", "Incorrect most connected hero");
    assert_eq!(
        most_connected.comics, 3,
        "Incorrect number of comics for the most connected hero"
    );
}

#[test]
fn test_degrees_of_separation_with_precomputed_data() {
    let sample_data = vec![
        comic("Comic1", &["Hero1", "Hero2"]),
        comic("Comic2", &["Hero2", "Hero3"]),
        comic("Comic3", &["Hero3", "Hero4"]),
        comic("Comic4", &["Hero4", "Hero5"]),
    ];

    let graph = MarvelGraph::from_comics_data(sample_data);
    let reachable_heroes = graph.compute_reachable_heroes();

    let hero1_index = graph.get_hero_index("Hero1").expect("Hero1 not found");
    let hero5_index = graph.get_hero_index("Hero5").expect("Hero5 not found");

    let is_connected_within_six_degrees = reachable_heroes
        .get(hero1_index)
        .map_or(false, |reachable| reachable.contains(&hero5_index));

    assert!(
        is_connected_within_six_degrees,
        "Hero1 and Hero5 are not connected within 6 degrees"
    );
}

#[test]
fn nodes_are_numbered_in_order_of_first_appearance() {
    let graph = MarvelGraph::from_comics_data(vec![
        comic("G1", &["A", "B"]),
        comic("G2", &["B", "C"]),
    ]);
    assert_eq!(graph.get_hero_index("A"), Some(0));
    assert_eq!(graph.get_hero_index("B"), Some(1));
    assert_eq!(graph.get_hero_index("C"), Some(2));
    assert_eq!(graph.get_hero_index("D"), None);
    assert_eq!(graph.hero(2).expect("node 2").name, "C");
    assert!(graph.hero(3).is_none());
}

#[test]
fn two_overlapping_comics_give_three_nodes_and_two_links() {
    let graph = MarvelGraph::from_comics_data(vec![
        comic("G1", &["A", "B"]),
        comic("G2", &["B", "C"]),
    ]);
    assert_eq!(graph.node_count(), 3);
    assert_eq!(graph.edge_count(), 2);
    assert_eq!(graph.neighbors(0), vec![1]);
    assert_eq!(sorted(graph.neighbors(1)), vec![0, 2]);
    assert_eq!(graph.neighbors(2), vec![1]);
}

#[test]
fn permuted_input_gives_the_same_graph_by_name() {
    let first = MarvelGraph::from_comics_data(vec![
        comic("G1", &["A", "B"]),
        comic("G2", &["B", "C"]),
    ]);
    let second = MarvelGraph::from_comics_data(vec![
        comic("G2", &["C", "B"]),
        comic("G1", &["B", "A"]),
    ]);
    assert_eq!(second.node_count(), first.node_count());
    assert_eq!(second.edge_count(), first.edge_count());
    for name in ["A", "B", "C"] {
        let i = first.get_hero_index(name).expect("in first");
        let j = second.get_hero_index(name).expect("in second");
        assert_eq!(
            first.hero(i).expect("hero").comics,
            second.hero(j).expect("hero").comics
        );
        let mut near_first: Vec<String> = first
            .neighbors(i)
            .into_iter()
            .map(|n| first.hero(n).expect("hero").name)
            .collect();
        let mut near_second: Vec<String> = second
            .neighbors(j)
            .into_iter()
            .map(|n| second.hero(n).expect("hero").name)
            .collect();
        near_first.sort();
        near_second.sort();
        assert_eq!(near_first, near_second);
    }
    assert_eq!(second.get_hero_index("C"), Some(0));
}

#[test]
fn a_pair_that_shares_two_comics_is_linked_once() {
    let graph = MarvelGraph::from_comics_data(vec![
        comic("G1", &["A", "B"]),
        comic("G2", &["B", "A"]),
        comic("G3", &["A", "B", "A"]),
    ]);
    assert_eq!(graph.node_count(), 2);
    assert_eq!(graph.edge_count(), 1);
    assert_eq!(graph.neighbors(0), vec![1]);
    assert_eq!(graph.neighbors(1), vec![0]);
}

#[test]
fn a_name_repeated_in_one_comic_counts_once_and_links_to_nobody_new() {
    let graph = MarvelGraph::from_comics_data(vec![
        comic("G1", &["A", "A", "B"]),
        comic("G2", &["A"]),
        comic("G3", &["C", "C"]),
    ]);
    assert_eq!(graph.node_count(), 3);
    assert_eq!(graph.hero(0).expect("A").comics, 2);
    assert_eq!(graph.hero(1).expect("B").comics, 1);
    assert_eq!(graph.hero(2).expect("C").comics, 1);
    assert_eq!(graph.edge_count(), 1);
    assert!(graph.neighbors(2).is_empty());
}

#[test]
fn every_two_members_of_a_comic_are_linked() {
    let graph = MarvelGraph::from_comics_data(vec![comic("G1", &["A", "B", "C", "D"])]);
    assert_eq!(graph.node_count(), 4);
    assert_eq!(graph.edge_count(), 6);
    for a in 0..4 {
        let expected: Vec<usize> = (0..4).filter(|b| *b != a).collect();
        assert_eq!(sorted(graph.neighbors(a)), expected);
    }
}

#[test]
fn entries_with_the_same_key_are_comics_of_their_own() {
    let graph = MarvelGraph::from_comics_data(vec![
        comic("G1", &["A", "B"]),
        comic("G1", &["A", "C"]),
    ]);
    assert_eq!(graph.hero(0).expect("A").comics, 2);
    assert_eq!(graph.edge_count(), 2);
}

#[test]
fn an_empty_input_gives_an_empty_graph() {
    let graph = MarvelGraph::from_comics_data(Vec::new());
    assert_eq!(graph.node_count(), 0);
    assert_eq!(graph.edge_count(), 0);
    assert_eq!(graph.get_hero_index("A"), None);
    assert!(graph.hero(0).is_none());
    assert!(graph.neighbors(0).is_empty());
    assert!(graph.compute_reachable_heroes().is_empty());
}

#[test]
fn a_comic_without_members_adds_nothing() {
    let graph = MarvelGraph::from_comics_data(vec![comic("G1", &[]), comic("G2", &["A"])]);
    assert_eq!(graph.node_count(), 1);
    assert_eq!(graph.edge_count(), 0);
    assert_eq!(graph.hero(0).expect("A").comics, 1);
}

#[test]
fn a_number_that_names_no_node_has_no_neighbours() {
    let graph = MarvelGraph::from_comics_data(vec![comic("G1", &["A", "B"])]);
    assert!(graph.neighbors(2).is_empty());
    assert!(graph.neighbors(usize::MAX).is_empty());
    assert!(graph.reachable_from(2, 6).is_empty());
}
