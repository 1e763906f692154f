use ophois::discretize::{discretize, subdivide_link};
use ophois::graph::{Graph, Node};

fn point(node: &Node) -> (f32, f32) {
    (node.longitude.parse().unwrap(), node.latitude.parse().unwrap())
}

fn haversine(a: &Node, b: &Node) -> f32 {
    let (ax, ay) = point(a);
    let (bx, by) = point(b);
    let r: f32 = 6356752.0;
    let d_lat: f32 = (by - ay).to_radians();
    let d_lon: f32 = (bx - ax).to_radians();
    let lat1: f32 = ay.to_radians();
    let lat2: f32 = by.to_radians();
    let h: f32 = ((d_lat / 2.0).sin()) * ((d_lat / 2.0).sin())
        + ((d_lon / 2.0).sin()) * ((d_lon / 2.0).sin()) * (lat1.cos()) * (lat2.cos());
    let c: f32 = 2.0 * ((h.sqrt()).atan2((1.0 - h).sqrt()));
    r * c
}

fn point_on_line(a: &Node, b: &Node, i: u32, part: u32) -> (String, String) {
    let (ax, ay) = point(a);
    let (bx, by) = point(b);
    let t = i as f32 / part as f32;
    ((ax + t * (bx - ax)).to_string(), (ay + t * (by - ay)).to_string())
}

#[test]
fn test_discretize() {
    let mut graph = Graph::_from("92192237␟48.8275872␟2.3490245\n3761637486-3761637489␟48.8275351␟2.348701\n1852590201␟48.8276523␟2.3494784\n3761637496␟48.8278544␟2.3473522\n1829061602␟48.8275089␟2.3484223\n2576426850-2576426853␟48.827429699999996␟2.34868405\n1829061614␟48.8273732␟2.3487375\n1829061614␟2576426850-2576426853\n3761637486-3761637489␟92192237\n1829061614␟92192237\n1829061602␟3761637496\n1829061602␟2576426850-2576426853\n2576426850-2576426853␟3761637486-3761637489\n1829061602␟3761637486-3761637489\n1852590201␟92192237", '␟').unwrap();
    graph = discretize(graph, &|a: &Node, b: &Node| (haversine(a, b) / 6.0) as u32, &point_on_line);
    assert!(graph.node_count() == 35);
    assert!(graph.link_count() / 2 == 36);
    let expected: Vec<(&str, usize)> = vec![
        ("3761637496", 1),
        ("1829061602-3761637496:1/14", 2),
        ("1829061602-3761637496:2/14", 2),
        ("1829061602-3761637496:3/14", 2),
        ("1829061602-3761637496:4/14", 2),
        ("1829061602-3761637496:5/14", 2),
        ("1829061602-3761637496:6/14", 2),
        ("1829061602-3761637496:7/14", 2),
        ("1829061602-3761637496:8/14", 2),
        ("1829061602-3761637496:9/14", 2),
        ("1829061602-3761637496:10/14", 2),
        ("1829061602-3761637496:11/14", 2),
        ("1829061602-3761637496:12/14", 2),
        ("1829061602-3761637496:13/14", 2),
        ("1829061602", 3),
        ("1829061602-3761637486-3761637489:1/3", 2),
        ("1829061602-3761637486-3761637489:2/3", 2),
        ("2576426850-2576426853", 3),
        ("1829061602-2576426850-2576426853:1/3", 2),
        ("1829061602-2576426850-2576426853:2/3", 2),
        ("3761637486-3761637489", 3),
        ("3761637486-3761637489-92192237:1/4", 2),
        ("3761637486-3761637489-92192237:2/4", 2),
        ("3761637486-3761637489-92192237:3/4", 2),
        ("1829061614-92192237:1/5", 2),
        ("1829061614-92192237:2/5", 2),
        ("1829061614-92192237:3/5", 2),
        ("1829061614-92192237:4/5", 2),
        ("92192237", 3),
        ("1852590201-92192237:1/5", 2),
        ("1852590201-92192237:2/5", 2),
        ("1852590201-92192237:3/5", 2),
        ("1852590201-92192237:4/5", 2),
        ("1852590201", 1),
        ("1829061614", 2),
    ];
    for (node, degree) in expected {
        assert!(graph.contains_node(node));
        assert!(graph.get_node(node).neighbours.len() == degree);
    }
}

#[test]
fn subdividing_a_link_makes_a_chain() {
    let graph = Graph::_from("u␟0␟0\nv␟0␟4\nw␟1␟0\nu␟v\nu␟w", '␟').unwrap();
    let graph = subdivide_link(graph, &"v".to_string(), &"u".to_string(), 4, &point_on_line);
    assert_eq!(graph.node_count(), 6);
    assert_eq!(graph.link_count() / 2, 5);
    assert_eq!(graph.get_node("u").neighbours.len(), 2);
    assert_eq!(graph.get_node("v").neighbours.len(), 1);
    assert!(!graph.contains_link("u", "v"));
    assert!(graph.contains_link("v", "u-v:1/4"));
    assert!(graph.contains_link("u-v:1/4", "u-v:2/4"));
    assert!(graph.contains_link("u-v:2/4", "u-v:3/4"));
    assert!(graph.contains_link("u-v:3/4", "u"));
    for i in 1..4 {
        let id = format!("u-v:{}/4", i);
        assert_eq!(graph.get_node(&id).neighbours.len(), 2);
    }
    assert_eq!(graph.get_node("u-v:1/4").longitude, "3");
    assert_eq!(graph.get_node("u-v:3/4").longitude, "1");
}

#[test]
fn eighty_four_metres_in_six_metre_pieces() {
    let graph = Graph::_from("a␟0␟0\nb␟0␟0.00076\na␟b", '␟').unwrap();
    let length = haversine(graph.get_node("a"), graph.get_node("b"));
    assert!(length > 84.0 && length < 85.0);
    let graph = discretize(graph, &|a: &Node, b: &Node| (haversine(a, b) / 6.0) as u32, &point_on_line);
    assert_eq!(graph.node_count(), 15);
    assert_eq!(graph.link_count() / 2, 14);
    assert_eq!(graph.get_node("a").neighbours.len(), 1);
    assert_eq!(graph.get_node("b").neighbours.len(), 1);
    for i in 1..14 {
        let id = format!("a-b:{}/14", i);
        assert_eq!(graph.get_node(&id).neighbours.len(), 2);
    }
}

#[test]
fn short_links_are_kept() {
    let graph = Graph::_from("a␟0␟0\nb␟0␟1\na␟b", '␟').unwrap();
    let graph = discretize(graph, &|_: &Node, _: &Node| 1, &point_on_line);
    assert_eq!(graph.node_count(), 2);
    assert!(graph.contains_link("a", "b"));
}

#[test]
fn half_links_are_left_as_they_are() {
    let mut graph = Graph::_from("a␟0␟0\nb␟0␟1\nc␟0␟2\na␟b\nb␟c", '␟').unwrap();
    graph.remove_link(&("c".to_string(), "b".to_string()));
    let graph = discretize(graph, &|_: &Node, _: &Node| 2, &point_on_line);
    assert_eq!(graph.node_count(), 4);
    assert!(graph.contains_node("a-b:1/2"));
    assert!(!graph.contains_link("a", "b"));
    assert!(graph.contains_link("b", "c"));
    assert!(!graph.contains_link("c", "b"));
    assert!(!graph.contains_node("b-c:1/2"));
}
