use marvel_graph::graph::MarvelGraph;

fn pair(key: &str, a: &str, b: &str) -> (String, Vec<String>) {
    (key.to_string(), vec![a.to_string(), b.to_string()])
}

fn chain() -> MarvelGraph {
    MarvelGraph::from_comics_data(vec![
        pair("C1", "H1", "H2"),
        pair("C2", "H2", "H3"),
        pair("C3", "H3", "H4"),
        pair("C4", "H4", "H5"),
    ])
}

fn sorted(mut v: Vec<usize>) -> Vec<usize> {
    v.sort();
    v
}

#[test]
fn the_end_of_a_chain_of_four_links_is_within_six_but_not_within_one() {
    let graph = chain();
    let h1 = graph.get_hero_index("H1").expect("H1");
    let h5 = graph.get_hero_index("H5").expect("H5");
    let within_six = graph.compute_reachable_within(6);
    let within_one = graph.compute_reachable_within(1);
    assert!(within_six[h1].contains(&h5));
    assert!(!within_one[h1].contains(&h5));
}

#[test]
fn the_bound_counts_links() {
    let graph = chain();
    assert_eq!(graph.reachable_from(0, 0), Vec::<usize>::new());
    assert_eq!(graph.reachable_from(0, 1), vec![1]);
    assert_eq!(graph.reachable_from(0, 2), vec![1, 2]);
    assert_eq!(graph.reachable_from(0, 3), vec![1, 2, 3]);
    assert_eq!(graph.reachable_from(0, 4), vec![1, 2, 3, 4]);
    assert_eq!(sorted(graph.reachable_from(2, 1)), vec![1, 3]);
    assert_eq!(sorted(graph.reachable_from(2, 2)), vec![0, 1, 3, 4]);
}

#[test]
fn a_chain_longer_than_the_bound_is_cut_at_six_links() {
    let names = ["N0", "N1", "N2", "N3", "N4", "N5", "N6", "N7", "N8"];
    let mut data = Vec::new();
    for i in 0..8 {
        data.push(pair("C", names[i], names[i + 1]));
    }
    let graph = MarvelGraph::from_comics_data(data);
    let rows = graph.compute_reachable_heroes();
    assert_eq!(rows.len(), 9);
    assert_eq!(sorted(rows[0].clone()), vec![1, 2, 3, 4, 5, 6]);
    assert_eq!(sorted(rows[8].clone()), vec![2, 3, 4, 5, 6, 7]);
    assert_eq!(sorted(rows[4].clone()), vec![0, 1, 2, 3, 5, 6, 7, 8]);
}

#[test]
fn the_source_is_not_in_its_own_row() {
    let graph = MarvelGraph::from_comics_data(vec![
        pair("C1", "A", "B"),
        pair("C2", "B", "C"),
        pair("C3", "C", "A"),
    ]);
    let rows = graph.compute_reachable_heroes();
    for x in 0..3 {
        assert!(!rows[x].contains(&x));
        assert_eq!(rows[x].len(), 2);
    }
}

#[test]
fn reachability_is_symmetric() {
    let graph = MarvelGraph::from_comics_data(vec![
        pair("C1", "A", "B"),
        pair("C2", "B", "C"),
        pair("C3", "C", "D"),
        pair("C4", "E", "F"),
        pair("C5", "D", "G"),
        pair("C6", "B", "G"),
    ]);
    let n = graph.node_count();
    for bound in 0..5 {
        let rows = graph.compute_reachable_within(bound);
        for x in 0..n {
            for y in 0..n {
                assert_eq!(rows[x].contains(&y), rows[y].contains(&x));
            }
        }
    }
}

#[test]
fn separate_parts_do_not_reach_each_other() {
    let graph = MarvelGraph::from_comics_data(vec![pair("C1", "A", "B"), pair("C2", "C", "D")]);
    let rows = graph.compute_reachable_heroes();
    assert_eq!(rows[0], vec![1]);
    assert_eq!(rows[1], vec![0]);
    assert_eq!(rows[2], vec![3]);
    assert_eq!(rows[3], vec![2]);
}

#[test]
fn no_node_is_listed_twice_where_two_walks_lead_to_it() {
    let graph = MarvelGraph::from_comics_data(vec![
        pair("C1", "A", "B"),
        pair("C2", "A", "C"),
        pair("C3", "B", "D"),
        pair("C4", "C", "D"),
    ]);
    assert_eq!(sorted(graph.reachable_from(0, 6)), vec![1, 2, 3]);
    assert_eq!(sorted(graph.reachable_from(0, 1)), vec![1, 2]);
}
