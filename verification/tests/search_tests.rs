use bfs::SearchError;
use bfs::build_graph;
use bfs::search::bfs;

fn graph_from(edges: &[(u32, u32)]) -> bfs::Graph {
    let records: Vec<Result<(u32, u32), bfs::ParseError>> =
        edges.iter().map(|&e| Ok(e)).collect();
    build_graph(records).unwrap()
}

#[test]
fn test_bfs() {
    let edges = [
        (0u32, 1u32),
        (1, 2),
        (1, 3),
        (2, 4),
        (4, 5),
        (3, 5),
        (3, 6),
        (5, 7),
    ];
    let graph = graph_from(&edges);
    let path = bfs(&graph, 0, 7).unwrap().unwrap();
    assert_eq!(&path, &[0u32, 1, 3, 5, 7]);
}

#[test]
fn shortest_path_length_matches_distance() {
    // A long way round (0-1-2-3-9) and a short cut (0-8-9).
    let graph = graph_from(&[(0, 1), (1, 2), (2, 3), (3, 9), (0, 8), (8, 9)]);
    let path = bfs(&graph, 0, 9).unwrap().unwrap();
    assert_eq!(path, vec![0u32, 8, 9]);
}

#[test]
fn start_equals_goal_returns_single_node() {
    let graph = graph_from(&[]);
    let path = bfs(&graph, 0, 0).unwrap().unwrap();
    assert_eq!(path, vec![0u32]);
}

#[test]
fn start_equals_goal_inside_graph() {
    let graph = graph_from(&[(3, 4)]);
    let path = bfs(&graph, 3, 3).unwrap().unwrap();
    assert_eq!(path, vec![3u32]);
}

#[test]
fn unreachable_goal_is_not_an_error() {
    let graph = graph_from(&[(0, 1), (2, 3)]);
    assert_eq!(bfs(&graph, 0, 3).unwrap(), None);
}

#[test]
fn missing_goal_is_not_an_error() {
    let graph = graph_from(&[(0, 1)]);
    assert_eq!(bfs(&graph, 0, 7).unwrap(), None);
}

#[test]
fn unknown_start_is_an_error() {
    let graph = graph_from(&[]);
    assert!(matches!(bfs(&graph, 0, 1), Err(SearchError::UnknownNode(0))));
}

#[test]
fn unknown_start_with_other_edges_is_an_error() {
    let graph = graph_from(&[(1, 2)]);
    assert!(matches!(bfs(&graph, 5, 2), Err(SearchError::UnknownNode(5))));
}

#[test]
fn direct_neighbor_path() {
    let graph = graph_from(&[(6, 7)]);
    assert_eq!(bfs(&graph, 6, 7).unwrap().unwrap(), vec![6u32, 7]);
}
