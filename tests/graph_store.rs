use ophois::graph::{Graph, Node};

#[test]
fn insert_node() {
    let mut graph = Graph::new();
    let node_id = "u".to_string();
    graph.insert_node(Node::_new(node_id.clone()));
    let is_contained = graph.contains_node(&node_id);
    assert_eq!(is_contained, true);
}

#[test]
fn get_node() {
    let mut graph = Graph::new();
    let u = "u".to_string();
    let v = "v".to_string();
    graph.insert_node(Node::_new(u.clone()));
    graph.insert_node(Node::_new(v.clone()));
    graph.insert_link((u.clone(), v.clone()));
    graph.insert_link((v.clone(), u.clone()));
    assert_eq!(graph.get_node(&u).neighbours[0], v);
}

#[test]
fn insert_link() {
    let mut graph = Graph::new();
    let u = "u".to_string();
    let v = "v".to_string();
    let w = "w".to_string();
    graph.insert_node(Node::_new(u.clone()));
    graph.insert_node(Node::_new(v.clone()));
    graph.insert_node(Node::_new(w.clone()));
    graph.insert_link((u.clone(), v.clone()));
    graph.insert_link((v.clone(), u.clone()));
    graph.insert_link((v.clone(), w.clone()));
    graph.insert_link((w.clone(), v.clone()));
    assert_eq!(graph.contains_link(&u, &v), true);
    assert_eq!(graph.contains_link(&v, &u), true);
    assert_eq!(graph.contains_link(&v, &w), true);
    assert_eq!(graph.contains_link(&w, &v), true);
    assert_eq!(graph.link_index(&u, &v).unwrap(), 0);
    assert_eq!(graph.link_index(&u, &v).unwrap(), 0);
    assert_eq!(graph.link_index(&v, &w).unwrap(), 1);
}

#[test]
fn remove_node_without_neighbours() {
    let mut graph = Graph::new();
    let node_id = "u".to_string();
    graph.insert_node(Node::_new(node_id.clone()));
    graph.remove_node(&node_id);
    let is_contained = graph.contains_node(&node_id);
    assert_eq!(is_contained, false);
}

#[test]
fn remove_node_with_neighbours() {
    let mut graph = Graph::new();
    let u = "u".to_string();
    let v = "v".to_string();
    let w = "w".to_string();
    graph.insert_node(Node::_new(u.clone()));
    graph.insert_node(Node::_new(v.clone()));
    graph.insert_node(Node::_new(w.clone()));
    graph.insert_link((u.clone(), v.clone()));
    graph.insert_link((v.clone(), u.clone()));
    graph.insert_link((v.clone(), w.clone()));
    graph.insert_link((w.clone(), v.clone()));
    graph.remove_node(&v);
    let empty_vector: Vec<String> = vec![];
    assert_eq!(graph.get_node(&u).neighbours, empty_vector);
    assert_eq!(graph.get_node(&w).neighbours, empty_vector);
    assert_eq!(graph.contains_node(&v), false);
    assert_eq!(graph.contains_link(&u, &v), false);
    assert_eq!(graph.contains_link(&v, &u), false);
    assert_eq!(graph.contains_link(&v, &w), false);
    assert_eq!(graph.contains_link(&w, &v), false);
}

fn every_link_points_at_its_slot(graph: &Graph) -> bool {
    for id in graph.node_ids() {
        let node = graph.get_node(&id);
        for (k, n) in node.neighbours.iter().enumerate() {
            if graph.link_index(&id, n) != Some(k) {
                return false;
            }
        }
    }
    true
}

#[test]
fn slots_stay_exact_after_each_operation() {
    let mut graph = Graph::new();
    for id in ["a", "b", "c", "d"] {
        graph.insert_node(Node::_new(id.to_string()));
        assert!(every_link_points_at_its_slot(&graph));
    }
    let pairs = [("a", "b"), ("a", "c"), ("a", "d"), ("b", "c")];
    for (s, t) in pairs {
        graph.insert_link((s.to_string(), t.to_string()));
        graph.insert_link((t.to_string(), s.to_string()));
        assert!(every_link_points_at_its_slot(&graph));
    }
    graph.remove_link(&("a".to_string(), "b".to_string()));
    assert_eq!(graph.link_index("a", "d"), Some(0));
    assert_eq!(graph.link_index("a", "c"), Some(1));
    assert_eq!(graph.get_node("a").neighbours, vec!["d".to_string(), "c".to_string()]);
    graph.remove_link(&("b".to_string(), "a".to_string()));
    assert!(every_link_points_at_its_slot(&graph));
    graph.remove_node("c");
    assert!(every_link_points_at_its_slot(&graph));
    assert_eq!(graph.get_node("a").neighbours, vec!["d".to_string()]);
    assert_eq!(graph.get_node("b").neighbours.len(), 0);
    assert_eq!(graph.link_count(), 2);
    assert_eq!(graph.node_count(), 3);
}

#[test]
fn removing_the_last_slot_moves_nothing() {
    let mut graph = Graph::new();
    for id in ["a", "b", "c"] {
        graph.insert_node(Node::_new(id.to_string()));
    }
    graph.insert_link(("a".to_string(), "b".to_string()));
    graph.insert_link(("a".to_string(), "c".to_string()));
    graph.remove_link(&("a".to_string(), "c".to_string()));
    assert_eq!(graph.link_index("a", "b"), Some(0));
    assert_eq!(graph.link_index("a", "c"), None);
    assert_eq!(graph.get_node("a").neighbours, vec!["b".to_string()]);
}

#[test]
fn inserting_an_existing_id_keeps_the_first_node() {
    let mut graph = Graph::new();
    let mut first = Node::_new("a".to_string());
    first.latitude = "1".to_string();
    graph.insert_node(first);
    let mut second = Node::_new("a".to_string());
    second.latitude = "2".to_string();
    graph.insert_node(second);
    assert_eq!(graph.node_count(), 1);
    assert_eq!(graph.get_node("a").latitude, "1");
}
