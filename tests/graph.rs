use data_structures::graph::Graph;

fn sample() -> Graph<&'static str> {
    let mut graph = Graph::new();
    for v in ["A", "B", "C", "D", "E", "F"] {
        graph.add_vertex(v);
    }
    graph.add_edge("A", "B", 4).unwrap();
    graph.add_edge("A", "C", 2).unwrap();
    graph.add_edge("B", "E", 3).unwrap();
    graph.add_edge("C", "D", 2).unwrap();
    graph.add_edge("C", "F", 4).unwrap();
    graph.add_edge("D", "E", 3).unwrap();
    graph.add_edge("D", "F", 1).unwrap();
    graph.add_edge("E", "F", 1).unwrap();
    graph
}

#[test]
fn test_graph() {
    let mut graph = Graph::new();
    let empty: Vec<&str> = vec![];
    assert_eq!(graph.dfs_iter("A"), empty);
    assert_eq!(graph.bfs("A"), empty);

    graph.add_vertex("A");
    graph.add_vertex("B");
    graph.add_vertex("C");
    graph.add_vertex("D");
    graph.add_vertex("E");
    graph.add_vertex("F");
    graph.add_edge("A", "B", 4).unwrap();
    graph.add_edge("A", "C", 2).unwrap();
    graph.add_edge("B", "E", 3).unwrap();
    graph.add_edge("C", "D", 2).unwrap();
    graph.add_edge("C", "F", 4).unwrap();
    graph.add_edge("D", "E", 3).unwrap();
    graph.add_edge("D", "F", 1).unwrap();
    graph.add_edge("E", "F", 1).unwrap();
    assert_eq!(graph.dfs_iter("A"), vec!["A", "C", "F", "E", "D", "B"]);
    assert_eq!(graph.dfs_recur("A"), vec!["A", "B", "E", "D", "C", "F",]);
    assert_eq!(graph.bfs("A"), vec!["A", "B", "C", "E", "D", "F"]);
    assert_eq!(graph.dijkstra("A", "E").unwrap(), vec!["A", "C", "D", "F", "E"]);
}

#[test]
fn shortest_path_weight_is_six() {
    let graph = sample();
    let path = graph.dijkstra("A", "E").unwrap();
    let mut total = 0;
    for pair in path.windows(2) {
        let edges = graph.neighbors(pair[0]).unwrap();
        let w = edges.iter().filter(|e| e.vertex == pair[1]).map(|e| e.weight).min().unwrap();
        total += w;
    }
    assert_eq!(total, 6);
}

#[test]
fn traversal_fixture_orders() {
    let graph = sample();
    assert_eq!(graph.bfs("A"), vec!["A", "B", "C", "E", "D", "F"]);
    assert_eq!(graph.dfs_iter("A"), vec!["A", "C", "F", "E", "D", "B"]);
}

#[test]
fn add_edge_is_symmetric() {
    let mut graph = Graph::new();
    graph.add_vertex(1u32);
    graph.add_vertex(2u32);
    graph.add_edge(1, 2, 7).unwrap();
    let a = graph.neighbors(1).unwrap();
    let b = graph.neighbors(2).unwrap();
    assert_eq!(a.len(), 1);
    assert_eq!((a[0].vertex, a[0].weight), (2, 7));
    assert_eq!(b.len(), 1);
    assert_eq!((b[0].vertex, b[0].weight), (1, 7));
}

#[test]
fn add_vertex_twice_keeps_edges() {
    let mut graph = Graph::new();
    graph.add_vertex("u");
    graph.add_vertex("v");
    graph.add_edge("u", "v", 3).unwrap();
    graph.add_vertex("u");
    let a = graph.neighbors("u").unwrap();
    assert_eq!(a.len(), 1);
    assert_eq!((a[0].vertex, a[0].weight), ("v", 3));
    assert_eq!(graph.vertices(), vec!["u", "v"]);
}

#[test]
fn add_edge_with_unknown_vertex_fails() {
    let mut graph = Graph::new();
    graph.add_vertex("u");
    assert!(graph.add_edge("u", "x", 1).is_err());
    assert!(graph.add_edge("x", "u", 1).is_err());
    assert_eq!(graph.neighbors("u").unwrap().len(), 0);
    assert!(graph.neighbors("x").is_none());
}

#[test]
fn traversals_visit_each_reachable_vertex_once() {
    let mut graph = sample();
    graph.add_vertex("G");
    graph.add_vertex("H");
    graph.add_edge("G", "H", 1).unwrap();
    for order in [graph.dfs_iter("A"), graph.bfs("A"), graph.dfs_recur("A")] {
        let mut seen = order.clone();
        seen.sort();
        assert_eq!(seen, vec!["A", "B", "C", "D", "E", "F"]);
    }
    assert_eq!(graph.bfs("G"), vec!["G", "H"]);
    assert_eq!(graph.dfs_iter("H"), vec!["H", "G"]);
}

#[test]
fn traversals_from_unknown_start_are_empty() {
    let graph = sample();
    assert!(graph.dfs_iter("Z").is_empty());
    assert!(graph.bfs("Z").is_empty());
    assert!(graph.dfs_recur("Z").is_empty());
}

#[test]
fn isolated_start_is_visited_alone() {
    let mut graph = Graph::new();
    graph.add_vertex("solo");
    assert_eq!(graph.dfs_iter("solo"), vec!["solo"]);
    assert_eq!(graph.bfs("solo"), vec!["solo"]);
    assert_eq!(graph.dfs_recur("solo"), vec!["solo"]);
}

#[test]
fn dijkstra_errors() {
    let mut graph = sample();
    graph.add_vertex("G");
    assert!(graph.dijkstra("A", "G").is_err());
    assert!(graph.dijkstra("A", "Z").is_err());
    assert!(graph.dijkstra("Z", "A").is_err());
    assert_eq!(graph.dijkstra("G", "G").unwrap(), vec!["G"]);
    assert_eq!(graph.dijkstra("A", "A").unwrap(), vec!["A"]);
}

#[test]
fn dijkstra_prefers_lighter_longer_path() {
    let mut graph = Graph::new();
    for v in [0u8, 1, 2, 3] {
        graph.add_vertex(v);
    }
    graph.add_edge(0, 3, 10).unwrap();
    graph.add_edge(0, 1, 1).unwrap();
    graph.add_edge(1, 2, 1).unwrap();
    graph.add_edge(2, 3, 1).unwrap();
    assert_eq!(graph.dijkstra(0, 3).unwrap(), vec![0, 1, 2, 3]);
    assert_eq!(graph.dijkstra(3, 0).unwrap(), vec![3, 2, 1, 0]);
}

#[test]
fn dijkstra_handles_huge_weights() {
    let mut graph = Graph::new();
    for v in [0u8, 1, 2] {
        graph.add_vertex(v);
    }
    graph.add_edge(0, 1, usize::MAX - 1).unwrap();
    graph.add_edge(1, 2, usize::MAX - 1).unwrap();
    assert_eq!(graph.dijkstra(0, 1).unwrap(), vec![0, 1]);
    assert!(graph.dijkstra(0, 2).is_err());
}

#[test]
fn round_trip_keeps_outputs() {
    let graph = sample();
    let vertices = graph.vertices();
    let edges: Vec<_> = vertices.iter().map(|v| graph.neighbors(*v).unwrap()).collect();
    let rebuilt = Graph::from_adjacency(&vertices, &edges).unwrap();
    for v in &vertices {
        assert_eq!(rebuilt.dfs_iter(*v), graph.dfs_iter(*v));
        assert_eq!(rebuilt.bfs(*v), graph.bfs(*v));
        assert_eq!(rebuilt.dfs_recur(*v), graph.dfs_recur(*v));
        for w in &vertices {
            assert_eq!(rebuilt.dijkstra(*v, *w).unwrap(), graph.dijkstra(*v, *w).unwrap());
        }
    }
}

#[test]
fn from_adjacency_rejects_bad_input() {
    let graph = sample();
    let vertices = graph.vertices();
    let edges: Vec<_> = vertices.iter().map(|v| graph.neighbors(*v).unwrap()).collect();
    let mut repeated = vertices.clone();
    repeated[1] = "A";
    assert!(Graph::from_adjacency(&repeated, &edges).is_err());
    let short = vertices[..5].to_vec();
    assert!(Graph::from_adjacency(&short, &edges).is_err());
    let mut renamed = vertices.clone();
    renamed[5] = "Z";
    assert!(Graph::from_adjacency(&renamed, &edges).is_err());
}

#[test]
fn error_messages_name_the_cause() {
    let mut graph = sample();
    graph.add_vertex("G");
    assert_eq!(graph.add_edge("A", "Z", 1).unwrap_err().msg, "unknown vertex");
    assert_eq!(graph.dijkstra("Z", "A").unwrap_err().msg, "unknown vertex");
    assert_eq!(graph.dijkstra("A", "G").unwrap_err().msg, "no path");
    let err = data_structures::graph::GraphErr::new(String::from("boom"));
    assert_eq!(err.msg, "boom");
}

#[test]
fn parallel_edges_and_self_loops() {
    let mut graph = Graph::new();
    graph.add_vertex('a');
    graph.add_vertex('b');
    graph.add_edge('a', 'b', 5).unwrap();
    graph.add_edge('a', 'b', 2).unwrap();
    graph.add_edge('a', 'a', 0).unwrap();
    assert_eq!(graph.neighbors('a').unwrap().len(), 4);
    assert_eq!(graph.dijkstra('a', 'b').unwrap(), vec!['a', 'b']);
    assert_eq!(graph.dfs_iter('a'), vec!['a', 'b']);
    assert_eq!(graph.bfs('b'), vec!['b', 'a']);
}
