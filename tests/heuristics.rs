use ophois::graph::{Graph, Node};
use ophois::heuristics::{
    bfs_largest_component, collapse_nodes_in_order, contract_links_in_order, remove_degree_two_nodes, remove_under_delta_links, remove_under_delta_nodes,
    replace_link_by_node, replace_node_by_links,
};
use ophois::order::random_order;
use rand::rngs::StdRng;
use rand::SeedableRng;

fn point(node: &Node) -> (f32, f32) {
    (node.longitude.parse().unwrap(), node.latitude.parse().unwrap())
}

fn haversine(a: &Node, b: &Node) -> f32 {
    let (ax, ay) = point(a);
    let (bx, by) = point(b);
    let r: f32 = 6356752.0;
    let d_lat: f32 = (by - ay).to_radians();
    let d_lon: f32 = (bx - ax).to_radians();
    let lat1: f32 = ay.to_radians();
    let lat2: f32 = by.to_radians();
    let h: f32 = ((d_lat / 2.0).sin()) * ((d_lat / 2.0).sin())
        + ((d_lon / 2.0).sin()) * ((d_lon / 2.0).sin()) * (lat1.cos()) * (lat2.cos());
    let c: f32 = 2.0 * ((h.sqrt()).atan2((1.0 - h).sqrt()));
    r * c
}

fn midpoint(a: &Node, b: &Node) -> (String, String) {
    let (ax, ay) = point(a);
    let (bx, by) = point(b);
    (((ax + bx) / 2.0).to_string(), ((ay + by) / 2.0).to_string())
}

#[test]
fn test_bfs_and_largest_component() {
    let mut graph = Graph::_from("21658501␟48.8279975␟2.3518307\n21658502␟48.8279276␟2.3513732\n92192237␟48.8275872␟2.3490245\n1829061602␟48.8275089␟2.3484223\n1829061607␟48.8278868␟2.347252\n1829061610␟48.8260051␟2.3474783\n1829061640␟48.827773␟2.3503086\n1829061642␟48.8278201␟2.3506517\n1829061648␟48.8277624␟2.3502336\n1829061667␟48.8265177␟2.3501273\n1829061676␟48.8269249␟2.348167\n1852590201␟48.8276523␟2.3494784\n2268836829␟48.8276001␟2.3486802\n2286779145␟48.8260569␟2.3475149\n2286779154␟48.8276739␟2.3496385\n2576426847␟48.8273391␟2.3487858\n2576426850␟48.8274242␟2.3486471\n2576426851␟48.8274323␟2.3487423\n2576426852␟48.8274347␟2.3487671\n2576426853␟48.8274352␟2.348721\n2576426854␟48.8274412␟2.3487844\n2576426855␟48.827493␟2.3485442\n2576426856␟48.8275026␟2.3485468\n2576426858␟48.8275464␟2.3489207\n2576426859␟48.8275541␟2.3489099\n2597215157␟48.8265578␟2.3500902\n2598270008␟48.8276879␟2.349736\n3758221284␟48.8273411␟2.3486982\n3758221292␟48.8274025␟2.3486929\n3758221295␟48.8275185␟2.3484976\n3758221301␟48.8275751␟2.3489308\n3761637482␟48.8274512␟2.3486719\n3761637486␟48.8275249␟2.348704\n3761637488␟48.8275416␟2.3486683\n3761637489␟48.8275453␟2.348698\n3761637490␟48.8275499␟2.348735\n3761637496␟48.8278544␟2.3473522\n6400885441␟48.8274338␟2.3488187\n6400933176␟48.8268914␟2.3481419\n1829061610␟2286779145\n2286779145␟6400933176\n6400933176␟1829061676\n1829061676␟3758221284\n3758221301␟3761637490\n92192237␟1852590201\n1852590201␟2286779154\n2286779154␟2598270008\n2598270008␟1829061648\n1829061648␟1829061640\n1829061640␟1829061642\n1829061642␟21658502\n21658502␟21658501\n3758221292␟2576426850\n1829061602␟3761637496\n3761637496␟1829061607\n1829061667␟2597215157\n2597215157␟2576426847\n2576426854␟2576426852\n2576426852␟2576426851\n2576426851␟2576426853\n2576426853␟3761637482\n3761637482␟2576426855\n2576426855␟2576426856\n2576426856␟3761637486\n3761637486␟2576426859\n2576426859␟2576426858\n2576426858␟2576426854\n3761637490␟3761637489\n3761637489␟3761637488\n3761637488␟3758221295\n2268836829␟3761637489\n3761637489␟3761637486\n3761637486␟3761637482\n3761637482␟2576426850\n3758221292␟2576426853", '␟').unwrap();
    graph = bfs_largest_component(graph);
    assert!(graph.node_count() == 18);
    assert!(graph.link_count() / 2 == 20);
    let expected: Vec<(&str, usize)> = vec![
        ("3758221295", 1),
        ("3761637488", 2),
        ("3761637489", 4),
        ("2268836829", 1),
        ("3761637490", 2),
        ("3758221301", 1),
        ("3761637486", 4),
        ("2576426856", 2),
        ("2576426855", 2),
        ("3761637482", 4),
        ("2576426850", 2),
        ("3758221292", 2),
        ("2576426853", 3),
        ("2576426851", 2),
        ("2576426852", 2),
        ("2576426854", 2),
        ("2576426858", 2),
        ("2576426859", 2),
    ];
    for (node, degree) in expected {
        assert!(graph.contains_node(node));
        assert!(graph.get_node(node).neighbours.len() == degree);
    }
}
#[test]
fn test_replace_node_by_links() {
    let mut graph = Graph::_from("3761637488␟48.8275416␟2.3486683\n3761637486␟48.8275249␟2.348704\n3761637489␟48.8275453␟2.348698\n3761637490␟48.8275499␟2.348735\n2268836829␟48.8276001␟2.3486802\n3761637489␟3761637488\n3761637489␟2268836829\n3761637489␟3761637490\n3761637489␟3761637486", '␟').unwrap();
    graph = replace_node_by_links(graph, "3761637489");
    assert!(graph.node_count() == 4);
    assert!(graph.link_count() / 2 == 6);
    let expected: Vec<(&str, usize)> = vec![
        ("3761637488", 3),
        ("3761637486", 3),
        ("3761637490", 3),
        ("2268836829", 3),
    ];
    for (node, degree) in expected {
        assert!(graph.contains_node(node));
        assert!(graph.get_node(node).neighbours.len() == degree);
    }
}
#[test]
fn test_remove_degree_two_nodes() {
    let mut graph = Graph::_from("2576426859␟48.8275541␟2.3489099\n2576426853␟48.8274352␟2.348721\n3761637489␟48.8275453␟2.348698\n2576426856␟48.8275026␟2.3485468\n3758221284␟48.8273411␟2.3486982\n92192237␟48.8275872␟2.3490245\n3761637486␟48.8275249␟2.348704\n3761637488␟48.8275416␟2.3486683\n1829061602␟48.8275089␟2.3484223\n3758221301␟48.8275751␟2.3489308\n2268836829␟48.8276001␟2.3486802\n2576426850␟48.8274242␟2.3486471\n3761637482␟48.8274512␟2.3486719\n2576426858␟48.8275464␟2.3489207\n6400885441␟48.8274338␟2.3488187\n3758221295␟48.8275185␟2.3484976\n1852590201␟48.8276523␟2.3494784\n2576426854␟48.8274412␟2.3487844\n2576426851␟48.8274323␟2.3487423\n3758221292␟48.8274025␟2.3486929\n1829061614␟48.8273732␟2.3487375\n2576426855␟48.827493␟2.3485442\n2576426852␟48.8274347␟2.3487671\n3761637490␟48.8275499␟2.348735\n3761637496␟48.8278544␟2.3473522\n2576426847␟48.8273391␟2.3487858\n3758221301␟92192237\n2576426855␟3761637482\n1829061614␟3758221284\n1829061602␟3761637496\n1852590201␟92192237\n1829061614␟6400885441\n2576426853␟3761637482\n2576426851␟2576426852\n2576426850␟3761637482\n2576426855␟2576426856\n3758221301␟3761637490\n3761637482␟3761637486\n6400885441␟92192237\n3761637488␟3761637489\n1829061614␟3758221292\n1829061602␟2576426850\n3758221295␟3761637488\n3761637486␟3761637489\n2576426853␟3758221292\n1829061614␟2576426847\n3761637489␟3761637490\n2576426858␟2576426859\n2576426856␟3761637486\n2576426851␟2576426853\n2576426859␟3761637486\n1829061602␟3758221295\n2576426852␟2576426854\n2268836829␟3761637489\n2576426850␟3758221292\n2576426854␟2576426858", '␟').unwrap();
    graph = remove_degree_two_nodes(graph);
    assert!(graph.node_count() == 14);
    assert!(graph.link_count() / 2 == 17);
    let expected: Vec<(&str, usize)> = vec![
        ("1852590201", 1),
        ("92192237", 3),
        ("3761637489", 4),
        ("2268836829", 1),
        ("3761637486", 3),
        ("3761637482", 3),
        ("2576426853", 3),
        ("2576426850", 3),
        ("3758221292", 3),
        ("1829061614", 4),
        ("3758221284", 1),
        ("2576426847", 1),
        ("1829061602", 3),
        ("3761637496", 1),
    ];
    for (node, degree) in expected {
        assert!(graph.contains_node(node));
        assert!(graph.get_node(node).neighbours.len() == degree);
    }
}
#[test]
fn test_remove_under_delta_nodes() {
    let mut graph = Graph::_from("3758221284␟48.8273411␟2.3486982\n3761637489␟48.8275453␟2.348698\n3761637482␟48.8274512␟2.3486719\n3761637496␟48.8278544␟2.3473522\n2576426847␟48.8273391␟2.3487858\n1829061614␟48.8273732␟2.3487375\n2576426853␟48.8274352␟2.348721\n2576426850␟48.8274242␟2.3486471\n1852590201␟48.8276523␟2.3494784\n3758221292␟48.8274025␟2.3486929\n3761637486␟48.8275249␟2.348704\n2268836829␟48.8276001␟2.3486802\n92192237␟48.8275872␟2.3490245\n1829061602␟48.8275089␟2.3484223\n2576426853␟3761637486\n2576426850␟3758221292\n1829061614␟3758221292\n2268836829␟3761637489\n3761637489␟92192237\n2576426853␟3761637482\n3761637482␟3761637486\n1829061614␟3758221284\n1829061602␟3761637496\n1852590201␟92192237\n2576426850␟3761637482\n1829061602␟2576426850\n1829061614␟2576426847\n1829061602␟3761637489\n2576426853␟3758221292\n3761637486␟3761637489\n1829061614␟92192237", '␟').unwrap();
    graph = remove_under_delta_nodes(graph, &|a: &Node, b: &Node| haversine(a, b) <= 10.0, &mut StdRng::seed_from_u64(7));
    assert!(graph.node_count() == 9);
    assert!(graph.link_count() / 2 == 12);
    let expected: Vec<(&str, usize)> = vec![
        ("3761637496", 1),
        ("1829061602", 3),
        ("3761637489", 3),
        ("3761637486", 3),
        ("2576426853", 3),
        ("2576426850", 4),
        ("1829061614", 3),
        ("92192237", 3),
        ("1852590201", 1),
    ];
    for (node, degree) in expected {
        assert!(graph.contains_node(node));
        assert!(graph.get_node(node).neighbours.len() == degree);
    }
}
#[test]
fn test_replace_link_by_node() {
    let mut graph = Graph::_from("1852590201␟48.8276523␟2.3494784\n92192237␟48.8275872␟2.3490245\n3761637489␟48.8275453␟2.348698\n1829061602␟48.8275089␟2.3484223\n3761637486␟48.8275249␟2.348704\n1829061614␟48.8273732␟2.3487375\n1852590201␟92192237\n1829061602␟3761637489\n3761637489␟92192237\n3761637486␟3761637489\n1829061614␟92192237", '␟').unwrap();
    graph = replace_link_by_node(graph, &("92192237".to_string(), "3761637489".to_string()), &midpoint);
    assert!(graph.node_count() == 5);
    assert!(graph.link_count() / 2 == 4);
    let expected: Vec<(&str, usize)> = vec![
        ("1829061602", 1),
        ("3761637486", 1),
        ("1829061614", 1),
        ("1852590201", 1),
        ("3761637489-92192237", 4),
    ];
    for (node, degree) in expected {
        assert!(graph.contains_node(node));
        assert!(graph.get_node(node).neighbours.len() == degree);
    }
}
#[test]
fn test_remove_under_delta_links() {
    let mut graph = Graph::_from("3761637496␟48.8278544␟2.3473522\n3761637486␟48.8275249␟2.348704\n92192237␟48.8275872␟2.3490245\n2576426850␟48.8274242␟2.3486471\n1829061614␟48.8273732␟2.3487375\n1852590201␟48.8276523␟2.3494784\n3761637489␟48.8275453␟2.348698\n2576426853␟48.8274352␟2.348721\n1829061602␟48.8275089␟2.3484223\n3761637489␟92192237\n3761637486␟3761637489\n1829061614␟92192237\n2576426850␟3761637486\n1829061602␟3761637496\n2576426850␟2576426853\n1829061614␟2576426853\n2576426853␟3761637486\n1829061602␟2576426850\n1829061614␟2576426850\n1852590201␟92192237\n1829061602␟3761637489", '␟').unwrap();
    graph = remove_under_delta_links(graph, &|a: &Node, b: &Node| haversine(a, b) < 6.0, &midpoint, &mut StdRng::seed_from_u64(7));
    assert!(graph.node_count() == 7);
    assert!(graph.link_count() / 2 == 8);
    let expected: Vec<(&str, usize)> = vec![
        ("3761637496", 1),
        ("1829061602", 3),
        ("3761637486-3761637489", 3),
        ("2576426850-2576426853", 3),
        ("1829061614", 2),
        ("92192237", 3),
        ("1852590201", 1),
    ];
    for (node, degree) in expected {
        assert!(graph.contains_node(node));
        assert!(graph.get_node(node).neighbours.len() == degree);
    }
}

fn line_of_three() -> Graph {
    Graph::_from("A␟0␟0\nB␟0.0001␟0\nC␟0.0002␟0\nA␟B\nB␟C", '␟').unwrap()
}

#[test]
fn node_collapse_splices_the_middle_node_when_visited_first() {
    let mut seed: u64 = 0;
    while random_order(3, &mut StdRng::seed_from_u64(seed))[0] != 1 {
        seed += 1;
    }
    let graph = line_of_three();
    let within = |a: &Node, b: &Node| haversine(a, b) <= 20.0;
    let graph = remove_under_delta_nodes(graph, &within, &mut StdRng::seed_from_u64(seed));
    assert_eq!(graph.node_count(), 2);
    assert_eq!(graph.link_count() / 2, 1);
    assert!(!graph.contains_node("B"));
    assert!(graph.contains_link("A", "C"));
    assert!(graph.contains_link("C", "A"));
}

#[test]
fn node_collapse_keeps_nodes_with_a_long_link() {
    let graph = line_of_three();
    let within = |a: &Node, b: &Node| haversine(a, b) <= 5.0;
    let graph = remove_under_delta_nodes(graph, &within, &mut StdRng::seed_from_u64(3));
    assert_eq!(graph.node_count(), 3);
    assert_eq!(graph.link_count() / 2, 2);
}

#[test]
fn degree_two_chain_becomes_one_link() {
    let graph = Graph::_from("a␟0␟0\nb␟0␟1\nc␟0␟2\nd␟0␟3\na␟b\nb␟c\nc␟d", '␟').unwrap();
    let graph = remove_degree_two_nodes(graph);
    assert_eq!(graph.node_count(), 2);
    assert!(graph.contains_link("a", "d"));
    let again = remove_degree_two_nodes(graph);
    assert_eq!(again.node_count(), 2);
    assert_eq!(again.link_count() / 2, 1);
}

#[test]
fn degree_two_pass_on_parallel_paths_leaves_degree_two_nodes() {
    let graph = Graph::_from(
        "a␟0␟0\nb␟0␟1\ny␟0␟2\nz␟0␟3\nw␟0␟4\na␟b\nb␟y\na␟y\ny␟z\na␟w",
        '␟',
    )
    .unwrap();
    let graph = remove_degree_two_nodes(graph);
    assert!(!graph.contains_node("b"));
    assert_eq!(graph.get_node("a").neighbours.len(), 2);
    assert_eq!(graph.get_node("y").neighbours.len(), 2);
}

#[test]
fn contraction_does_not_depend_on_direction() {
    let forward = replace_link_by_node(line_of_three(), &("A".to_string(), "B".to_string()), &midpoint);
    let backward = replace_link_by_node(line_of_three(), &("B".to_string(), "A".to_string()), &midpoint);
    assert!(forward.contains_node("A-B"));
    assert!(backward.contains_node("A-B"));
    assert_eq!(forward.get_node("A-B").longitude, backward.get_node("A-B").longitude);
    assert_eq!(forward.get_node("A-B").latitude, backward.get_node("A-B").latitude);
    assert_eq!(forward.get_node("A-B").latitude, "0.00005");
    assert!(forward.contains_link("A-B", "C"));
    assert!(backward.contains_link("C", "A-B"));
    assert_eq!(forward.node_count(), 2);
}

#[test]
fn link_collapse_leaves_no_short_link() {
    let graph = line_of_three();
    let graph = remove_under_delta_links(
        graph,
        &|a: &Node, b: &Node| haversine(a, b) < 15.0,
        &midpoint,
        &mut StdRng::seed_from_u64(11),
    );
    for (s, t) in graph.link_keys() {
        assert!(haversine(graph.get_node(&s), graph.get_node(&t)) >= 15.0);
    }
    assert_eq!(graph.node_count(), 2);
}

#[test]
fn largest_component_keeps_first_of_equal_size() {
    let graph = Graph::_from("a␟0␟0\nb␟0␟1\nc␟0␟2\nd␟0␟3\na␟b\nc␟d", '␟').unwrap();
    let graph = bfs_largest_component(graph);
    assert_eq!(graph.node_count(), 2);
    assert!(graph.contains_link("a", "b"));
    assert!(!graph.contains_node("c"));
}

#[test]
fn random_order_is_a_shuffled_permutation() {
    let mut shuffled = false;
    for seed in 0..20u64 {
        let order = random_order(10, &mut StdRng::seed_from_u64(seed));
        let mut sorted = order.clone();
        sorted.sort();
        assert_eq!(sorted, (0..10).collect::<Vec<usize>>());
        if order != (0..10).collect::<Vec<usize>>() {
            shuffled = true;
        }
    }
    assert!(shuffled);
}

#[test]
fn node_collapse_in_given_order_middle_first() {
    let graph = line_of_three();
    let order = vec!["B".to_string(), "A".to_string(), "C".to_string()];
    let within = |a: &Node, b: &Node| haversine(a, b) <= 20.0;
    let graph = collapse_nodes_in_order(graph, &order, &within);
    assert_eq!(graph.node_count(), 2);
    assert_eq!(graph.link_count(), 2);
    assert!(!graph.contains_node("B"));
    assert!(graph.contains_link("A", "C"));
    assert!(graph.contains_link("C", "A"));
}

#[test]
fn node_collapse_in_given_order_leaf_first() {
    let graph = line_of_three();
    let order = vec!["A".to_string(), "B".to_string(), "C".to_string()];
    let within = |a: &Node, b: &Node| haversine(a, b) <= 20.0;
    let graph = collapse_nodes_in_order(graph, &order, &within);
    assert_eq!(graph.node_count(), 0);
}

#[test]
fn link_pass_in_given_order() {
    let graph = line_of_three();
    let order = vec![("A".to_string(), "B".to_string()), ("B".to_string(), "C".to_string())];
    let short = |a: &Node, b: &Node| haversine(a, b) < 15.0;
    let (graph, contracted) = contract_links_in_order(graph, &order, &short, &midpoint);
    assert!(contracted);
    assert_eq!(graph.node_count(), 2);
    assert!(graph.contains_link("A-B", "C"));
    let order = vec![("A-B".to_string(), "C".to_string())];
    let (graph, contracted) = contract_links_in_order(graph, &order, &short, &midpoint);
    assert!(!contracted);
    assert_eq!(graph.node_count(), 2);
}

#[test]
fn link_collapse_without_short_links_changes_nothing() {
    let graph = line_of_three();
    let graph = remove_under_delta_links(
        graph,
        &|a: &Node, b: &Node| haversine(a, b) < 1.0,
        &midpoint,
        &mut StdRng::seed_from_u64(5),
    );
    assert_eq!(graph.node_count(), 3);
    assert_eq!(graph.link_count(), 4);
}

#[test]
fn largest_component_follows_only_links_present_both_ways() {
    let mut graph = line_of_three();
    graph.remove_link(&("C".to_string(), "B".to_string()));
    let graph = bfs_largest_component(graph);
    assert_eq!(graph.node_count(), 2);
    assert!(!graph.contains_node("C"));
    assert_eq!(graph.get_node("B").neighbours, vec!["A".to_string()]);
    assert!(graph.contains_link("A", "B"));
    assert!(graph.contains_link("B", "A"));
    assert!(!graph.contains_link("B", "C"));
}
