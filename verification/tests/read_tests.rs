use marvel_graph::graph::MarvelGraph;
use marvel_graph::read::group_rows;
use marvel_graph::read::read_edges;

fn row(fields: &[&str]) -> Vec<String> {
    fields.iter().map(|f| f.to_string()).collect()
}

fn entry(key: &str, members: &[&str]) -> (String, Vec<String>) {
    (key.to_string(), members.iter().map(|m| m.to_string()).collect())
}

#[test]
fn rows_are_grouped_by_comic_in_order_of_first_appearance() {
    let rows = vec![
        row(&["Thor", "C2"]),
        row(&["Hulk", "C1"]),
        row(&["Loki", "C2"]),
        row(&["Thor", "C1"]),
        row(&["Thor", "C2"]),
    ];
    let out = group_rows(&rows);
    assert_eq!(
        out.comics,
        vec![entry("C2", &["Thor", "Loki", "Thor"]), entry("C1", &["Hulk", "Thor"])]
    );
    assert_eq!(out.skipped, 0);
}

#[test]
fn rows_without_exactly_two_fields_are_left_out_and_counted() {
    let rows = vec![
        row(&["Thor"]),
        row(&["Hulk", "C1"]),
        row(&["Loki", "C1", "extra"]),
        row(&[]),
    ];
    let out = group_rows(&rows);
    assert_eq!(out.comics, vec![entry("C1", &["Hulk"])]);
    assert_eq!(out.skipped, 3);
}

#[test]
fn no_rows_give_no_comics() {
    let out = group_rows(&Vec::new());
    assert!(out.comics.is_empty());
    assert_eq!(out.skipped, 0);
}

#[test]
fn a_table_is_read_without_header_row() {
    let out = read_edges(b"Thor,C1\nHulk,C1\nLoki,C2\n").expect("reads");
    assert_eq!(out.comics, vec![entry("C1", &["Thor", "Hulk"]), entry("C2", &["Loki"])]);
    assert_eq!(out.skipped, 0);
}

#[test]
fn quoted_fields_keep_their_commas() {
    let out = read_edges(b"\"ODINSON, THOR\",\"AVENGERS, THE 1\"\nHULK,\"AVENGERS, THE 1\"\n")
        .expect("reads");
    assert_eq!(out.comics, vec![entry("AVENGERS, THE 1", &["ODINSON, THOR", "HULK"])]);
}

#[test]
fn a_row_of_another_length_is_skipped_not_fatal() {
    let out = read_edges(b"Thor,C1\nlonely\nHulk,C1,extra\nLoki,C1\n").expect("reads");
    assert_eq!(out.comics, vec![entry("C1", &["Thor", "Loki"])]);
    assert_eq!(out.skipped, 2);
}

#[test]
fn bytes_that_are_no_text_are_an_error() {
    let result = read_edges(&[b'A', b',', 0xff, 0xfe, b'\n']);
    let error = result.expect_err("invalid UTF-8");
    assert!(!error.message.is_empty());
}

#[test]
fn an_empty_table_gives_an_empty_graph() {
    let out = read_edges(b"").expect("reads");
    assert!(out.comics.is_empty());
    let graph = MarvelGraph::from_comics_data(out.comics);
    assert_eq!(graph.node_count(), 0);
}

#[test]
fn a_table_becomes_a_graph() {
    let out = read_edges(b"H1,C1\nH2,C1\nH2,C2\nH3,C2\n").expect("reads");
    let graph = MarvelGraph::from_comics_data(out.comics);
    assert_eq!(graph.node_count(), 3);
    assert_eq!(graph.edge_count(), 2);
    assert_eq!(graph.most_connected_hero().name, "H2");
}
