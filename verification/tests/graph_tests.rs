use digraph::Graph;

#[test]
fn property_add_vertex_contains_vertex() {
    fn prop(val: i32) -> bool {
        let mut graph = Graph::new();
        graph.insert_vertex(val);
        graph.contains_vertex(&val)
    }
    for val in [0, 1, -1, 42, -17, i32::MAX, i32::MIN] {
        assert!(prop(val));
    }
}

#[test]
fn property_add_edge_contains_edge() {
    fn prop(val1: i32, val2: i32) -> bool {
        let mut graph = Graph::new();
        graph.insert_edge(val1, val2);
        graph.contains_edge(&val1, &val2)
    }
    for (val1, val2) in [(0, 0), (1, 2), (-3, 7), (5, 5), (i32::MIN, i32::MAX)] {
        assert!(prop(val1, val2));
    }
}

#[test]
fn edge_not_present_after_removal() {
    fn prop(u: i32, v: i32) -> bool {
        let mut graph = Graph::new();
        graph.insert_edge(u.clone(), v.clone());
        graph.remove_edge(&u, &v);
        !graph.contains_edge(&u, &v)
    }
    for (u, v) in [(0, 0), (1, 2), (-3, 7), (5, 5), (i32::MIN, i32::MAX)] {
        assert!(prop(u, v));
    }
}

#[test]
fn vertex_not_present_after_removal() {
    fn prop(val: i32) -> bool {
        let mut graph = Graph::new();
        graph.insert_vertex(val.clone());
        graph.remove_vertex(&val);
        !graph.contains_vertex(&val)
    }
    for val in [0, 1, -1, 42, -17, i32::MAX, i32::MIN] {
        assert!(prop(val));
    }
}

#[test]
fn direct_path_exists() {
    let mut graph = Graph::new();
    graph.insert_edge("A", "B");
    assert!(graph.path_exists_between(&"A", &"B"));
}

#[test]
fn indirect_path_exists() {
    let mut graph = Graph::new();
    graph.insert_edge("A", "B");
    graph.insert_edge("B", "C");
    assert!(graph.path_exists_between(&"A", &"C"));
}

#[test]
fn no_path_exists() {
    let mut graph = Graph::new();
    graph.insert_edge("A", "B");
    graph.insert_edge("C", "D");
    assert!(!graph.path_exists_between(&"A", &"C"));
}

#[test]
fn complex_graph_with_path() {
    let mut graph = Graph::new();
    graph.insert_edge("A", "B");
    graph.insert_edge("B", "C");
    graph.insert_edge("C", "D");
    graph.insert_edge("D", "E");
    graph.insert_edge("A", "F");
    graph.insert_edge("F", "G");
    graph.insert_edge("G", "D");
    assert!(graph.path_exists_between(&"A", &"E"));
}

#[test]
fn complex_graph_without_path() {
    let mut graph = Graph::new();
    graph.insert_edge("A", "B");
    graph.insert_edge("B", "C");
    graph.insert_edge("E", "F");
    graph.insert_edge("F", "G");
    assert!(!graph.path_exists_between(&"A", &"G"));
}

#[test]
fn test_contains_vertex() {
    let mut graph = Graph::new();
    graph.insert_edge("A", "B");
    graph.insert_edge("C", "B");

    assert!(graph.contains_vertex(&"A"));
    assert!(graph.contains_vertex(&"B"));
    assert!(graph.contains_vertex(&"C"));
}

#[test]
fn insert_vertex_twice_same_state() {
    let mut graph = Graph::new();
    graph.insert_vertex("A");
    graph.insert_vertex("A");
    let verts = graph.vertices();
    assert_eq!(verts.len(), 1);
    assert!(verts.contains(&"A"));
    assert!(graph.neighbors(&"A").is_empty());
}

#[test]
fn insert_edge_twice_same_state() {
    let mut graph = Graph::new();
    graph.insert_edge("A", "B");
    graph.insert_edge("A", "B");
    let verts = graph.vertices();
    assert_eq!(verts.len(), 2);
    let nbrs = graph.neighbors(&"A");
    assert_eq!(nbrs.len(), 1);
    assert!(nbrs.contains(&"B"));
    assert!(graph.neighbors(&"B").is_empty());
}

#[test]
fn path_to_self_always_exists() {
    let mut graph = Graph::new();
    assert!(graph.path_exists_between(&"Z", &"Z"));
    graph.insert_vertex("A");
    assert!(graph.path_exists_between(&"A", &"A"));
    assert!(graph.path_exists_between(&"Z", &"Z"));
}

#[test]
fn cycle_terminates() {
    let mut graph = Graph::new();
    graph.insert_edge("A", "B");
    graph.insert_edge("B", "A");
    assert!(graph.path_exists_between(&"A", &"B"));
    assert!(!graph.path_exists_between(&"A", &"Z"));
}

#[test]
fn self_loop_permitted() {
    let mut graph = Graph::new();
    graph.insert_edge("A", "A");
    assert!(graph.contains_vertex(&"A"));
    assert!(graph.contains_edge(&"A", &"A"));
    let nbrs = graph.neighbors(&"A");
    assert_eq!(nbrs.len(), 1);
    assert!(nbrs.contains(&"A"));
    assert!(graph.path_exists_between(&"A", &"A"));
}

#[test]
fn insert_edge_inserts_both_endpoints() {
    let mut graph = Graph::new();
    graph.insert_edge(3, 9);
    assert!(graph.contains_vertex(&3));
    assert!(graph.contains_vertex(&9));
    assert!(graph.contains_edge(&3, &9));
    assert!(!graph.contains_edge(&9, &3));
}

#[test]
fn remove_vertex_scrubs_neighbor_sets() {
    let mut graph = Graph::new();
    graph.insert_edge("A", "B");
    graph.insert_edge("C", "B");
    graph.insert_edge("B", "D");
    graph.remove_vertex(&"B");
    assert!(!graph.contains_vertex(&"B"));
    assert!(graph.neighbors(&"A").is_empty());
    assert!(graph.neighbors(&"C").is_empty());
    assert!(!graph.contains_edge(&"A", &"B"));
    assert!(!graph.contains_edge(&"C", &"B"));
    assert!(!graph.contains_edge(&"B", &"D"));
    assert!(graph.contains_vertex(&"A"));
    assert!(graph.contains_vertex(&"C"));
    assert!(graph.contains_vertex(&"D"));
}

#[test]
fn remove_vertex_cuts_paths() {
    let mut graph = Graph::new();
    graph.insert_edge("A", "B");
    graph.insert_edge("B", "C");
    assert!(graph.path_exists_between(&"A", &"C"));
    graph.remove_vertex(&"B");
    assert!(!graph.path_exists_between(&"A", &"C"));
}

#[test]
fn removals_of_absent_items_are_noops() {
    let mut graph = Graph::new();
    graph.insert_edge("A", "B");
    graph.remove_edge(&"A", &"C");
    graph.remove_edge(&"X", &"Y");
    graph.remove_vertex(&"Q");
    assert!(graph.contains_edge(&"A", &"B"));
    assert!(graph.contains_vertex(&"A"));
    assert!(graph.contains_vertex(&"B"));
    assert_eq!(graph.vertices().len(), 2);
}

#[test]
fn neighbors_of_absent_vertex_is_empty() {
    let graph: Graph<&str> = Graph::new();
    assert!(graph.neighbors(&"A").is_empty());
}

#[test]
fn neighbors_lists_each_target_once() {
    let mut graph = Graph::new();
    graph.insert_edge("A", "B");
    graph.insert_edge("A", "C");
    graph.insert_edge("A", "B");
    let nbrs = graph.neighbors(&"A");
    assert_eq!(nbrs.len(), 2);
    assert!(nbrs.contains(&"B"));
    assert!(nbrs.contains(&"C"));
}

#[test]
fn vertices_lists_every_vertex_once() {
    let mut graph = Graph::new();
    graph.insert_vertex(1);
    graph.insert_edge(1, 2);
    graph.insert_edge(2, 3);
    let verts = graph.vertices();
    assert_eq!(verts.len(), 3);
    assert!(verts.contains(&1));
    assert!(verts.contains(&2));
    assert!(verts.contains(&3));
}

#[test]
fn empty_graph_queries() {
    let graph: Graph<i32> = Graph::new();
    assert!(!graph.contains_vertex(&0));
    assert!(!graph.contains_edge(&0, &1));
    assert!(graph.vertices().is_empty());
    assert!(!graph.path_exists_between(&0, &1));
    assert!(graph.path_exists_between(&7, &7));
}
