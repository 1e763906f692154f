use ophois::graph::Graph;
use ophois::ids::{deterministic_link, merge_id, piece_id_text, separator};
use ophois::records::{split_fields, LoadError};

#[test]
fn loads_nodes_and_links() {
    let graph = Graph::_from("a␟1.5␟2.5\nb␟3␟4\r\na␟b\n", '␟').unwrap();
    assert_eq!(graph.node_count(), 2);
    assert_eq!(graph.link_count(), 2);
    assert_eq!(graph.get_node("a").latitude, "1.5");
    assert_eq!(graph.get_node("a").longitude, "2.5");
    assert_eq!(graph.get_node("b").longitude, "4");
    assert_eq!(graph.get_node("a").neighbours, vec!["b".to_string()]);
}

#[test]
fn repeated_link_record_adds_nothing() {
    let graph = Graph::_from("a␟1␟2\nb␟3␟4\na␟b\nb␟a", '␟').unwrap();
    assert_eq!(graph.link_count(), 2);
}

#[test]
fn wrong_field_count_is_refused() {
    assert_eq!(Graph::_from("a␟1␟2␟3", '␟').err(), Some(LoadError::WrongFieldCount(4)));
    assert_eq!(Graph::_from("a\n", '␟').err(), Some(LoadError::WrongFieldCount(1)));
}

#[test]
fn unknown_node_is_refused() {
    assert_eq!(Graph::_from("a␟1␟2\na␟b", '␟').err(), Some(LoadError::UnknownNode));
}

#[test]
fn self_loop_is_refused() {
    assert_eq!(Graph::_from("a␟1␟2\na␟a", '␟').err(), Some(LoadError::SelfLoop));
}

#[test]
fn empty_input_is_an_empty_graph() {
    let graph = Graph::_from("", ' ').unwrap();
    assert_eq!(graph.node_count(), 0);
}

#[test]
fn fields_split_on_the_separator() {
    assert_eq!(split_fields("a b  c", ' '), vec!["a", "b", "", "c"]);
    assert_eq!(split_fields("", ' '), vec![""]);
}

#[test]
fn ids_are_ordered_canonically() {
    assert_eq!(separator(), '␟');
    assert_eq!(deterministic_link("b", "a"), ("a".to_string(), "b".to_string()));
    assert_eq!(deterministic_link("a", "b"), ("a".to_string(), "b".to_string()));
    assert_eq!(deterministic_link("ab", "a"), ("a".to_string(), "ab".to_string()));
    assert_eq!(merge_id("92192237", "3761637489"), "3761637489-92192237");
    assert_eq!(piece_id_text("3761637496", "1829061602", 13, 14), "1829061602-3761637496:13/14");
    assert_eq!(piece_id_text("x", "y", 0, 120), "x-y:0/120");
}
