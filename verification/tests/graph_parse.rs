//! Tests of the adjacency-matrix line parser and graph assembly.

use hopsim::graph::Graph;
use hopsim::GraphError;

#[test]
fn parse_line_reads_bits() {
    let mut adj: Vec<bool> = Vec::new();
    let r = Graph::parse_line("0110", &mut adj);
    assert_eq!(r, Ok(4));
    assert_eq!(adj, vec![false, true, true, false]);
}

#[test]
fn parse_line_skips_whitespace() {
    let mut adj: Vec<bool> = Vec::new();
    let r = Graph::parse_line(" 0 1 \t1 ", &mut adj);
    assert_eq!(r, Ok(3));
    assert_eq!(adj, vec![false, true, true]);
}

#[test]
fn parse_line_rejects_foreign_characters() {
    let mut adj: Vec<bool> = vec![true];
    let r = Graph::parse_line("012", &mut adj);
    assert_eq!(r, Err(GraphError::InvalidCharacter));
    assert_eq!(adj, vec![true]);
}

#[test]
fn parse_line_rejects_blank_lines() {
    let mut adj: Vec<bool> = Vec::new();
    let r = Graph::parse_line(" \t ", &mut adj);
    assert_eq!(r, Err(GraphError::EmptyRow));
    assert!(adj.is_empty());
}

#[test]
fn from_lines_builds_a_square_graph() {
    let lines = vec![String::from("01"), String::from("10")];
    let g = Graph::from_lines(&lines).unwrap();
    assert_eq!(g.nodes_count(), 2);
    assert!(!g.adjacent(0, 0));
    assert!(g.adjacent(0, 1));
    assert!(g.adjacent(1, 0));
    assert!(!g.adjacent(1, 1));
}

#[test]
fn from_lines_skips_blank_lines() {
    let lines = vec![
        String::from("011"),
        String::from(""),
        String::from("101"),
        String::from("  "),
        String::from("110"),
    ];
    let g = Graph::from_lines(&lines).unwrap();
    assert_eq!(g.nodes_count(), 3);
    assert!(g.adjacent(2, 1));
    assert!(!g.adjacent(2, 2));
}

#[test]
fn from_lines_rejects_bad_input() {
    let none: Vec<String> = Vec::new();
    assert!(matches!(Graph::from_lines(&none), Err(GraphError::EmptyGraph)));
    let uneven = vec![String::from("01"), String::from("1")];
    assert!(matches!(
        Graph::from_lines(&uneven),
        Err(GraphError::UnequalRowLengths)
    ));
    let bad = vec![String::from("0a")];
    assert!(matches!(
        Graph::from_lines(&bad),
        Err(GraphError::InvalidCharacter)
    ));
    let wide = vec![String::from("01")];
    assert!(matches!(Graph::from_lines(&wide), Err(GraphError::NotSquare)));
    let blank_first = vec![String::from("  "), String::from("01")];
    assert!(matches!(
        Graph::from_lines(&blank_first),
        Err(GraphError::EmptyRow)
    ));
}
