use bfs::ParseError;
use bfs::build_graph;

#[test]
fn test_build_graph() {
    let edges = vec![Ok((0, 1)), Ok((1, 0)), Ok((0, 2)), Ok((1, 3)), Ok((2, 4))];
    let graph = build_graph(edges).unwrap();
    assert!(graph.has_edge(0, 1));
    assert!(graph.has_edge(0, 2));
    assert!(graph.has_edge(1, 0));
    assert!(graph.has_edge(4, 2));
    assert!(!graph.has_edge(4, 1));
}

#[test]
fn neighbor_lists_after_build() {
    let edges = vec![Ok((0, 1)), Ok((1, 0)), Ok((0, 2)), Ok((1, 3)), Ok((2, 4))];
    let graph = build_graph(edges).unwrap();
    assert_eq!(graph.neighbors(0).unwrap(), &vec![1u32, 2]);
    assert_eq!(graph.neighbors(4).unwrap(), &vec![2u32]);
    assert!(!graph.neighbors(1).unwrap().contains(&4));
    assert!(graph.neighbors(9).is_none());
    assert!(graph.contains_node(3));
    assert!(!graph.contains_node(9));
}

#[test]
fn symmetry_of_built_graph() {
    let edges = vec![Ok((10, 20)), Ok((20, 30)), Ok((30, 10)), Ok((30, 40))];
    let graph = build_graph(edges).unwrap();
    for (a, b) in [(10u32, 20u32), (20, 30), (30, 10), (30, 40)] {
        assert!(graph.has_edge(a, b));
        assert!(graph.has_edge(b, a));
    }
}

#[test]
fn self_loop_recorded_once() {
    let edges = vec![Ok((5, 5)), Ok((5, 5))];
    let graph = build_graph(edges).unwrap();
    assert_eq!(graph.neighbors(5).unwrap(), &vec![5u32]);
}

#[test]
fn repeated_edge_not_duplicated() {
    let edges = vec![Ok((1, 2)), Ok((1, 2)), Ok((2, 1))];
    let graph = build_graph(edges).unwrap();
    assert_eq!(graph.neighbors(1).unwrap(), &vec![2u32]);
    assert_eq!(graph.neighbors(2).unwrap(), &vec![1u32]);
}

#[test]
fn first_error_stops_build() {
    let edges = vec![Ok((0, 1)), Err(ParseError::MalformedRecord), Ok((2, 3))];
    assert!(matches!(build_graph(edges), Err(ParseError::MalformedRecord)));
}

#[test]
fn read_failure_propagates() {
    let edges = vec![Err(ParseError::ReadFailure), Ok((0, 1))];
    assert!(matches!(build_graph(edges), Err(ParseError::ReadFailure)));
}

#[test]
fn empty_input_builds_empty_graph() {
    let graph = build_graph(vec![]).unwrap();
    assert!(!graph.contains_node(0));
}
