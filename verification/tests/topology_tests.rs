use drone_net::topology::Topology;
use rand::Rng;

/// Utility that grows the topology by the given nodes and edges,
/// skipping what is already present.
fn update_topology(topology: &mut Topology, nodes: Vec<u8>, edges: Vec<(u8, u8)>) {
    for node in nodes {
        if !topology.nodes().contains(&node) {
            topology.add_node(node);
        }
    }
    for edge in edges {
        if !topology.neighbors(edge.0).contains(&edge.1) {
            topology.add_edge(edge.0, edge.1);
            topology.add_edge(edge.1, edge.0);
        }
    }
}

#[test]
fn should_find_best_path() {
    const PDR: f64 = 0.7;
    let mut topology = Topology::new();

    // 11 and 12 are terminal nodes (i.e. client or server), the other nodes are drones
    update_topology(
        &mut topology,
        vec![1, 2, 3, 4, 5, 6, 11, 12],
        vec![
            (11, 1),
            (1, 2),
            (2, 3),
            (3, 12),
            (11, 4),
            (4, 5),
            (5, 6),
            (6, 12),
        ],
    );

    let route = topology.get_routing_header(11, 12).hops;
    // Simulate packets dropped on the route, updating the history of the nodes
    for node in route.clone() {
        for _i in 0..10 {
            topology
                .update_node_history(&vec![node], rand::thread_rng().gen_range(0.0..1.0) < PDR);
        }
    }

    let new_route = topology.get_routing_header(11, 12).hops;

    // Check that the sender and receiver node are the same
    assert_eq!(route.get(0), new_route.get(0));
    assert_eq!(
        route.get(route.len() - 1),
        new_route.get(new_route.len() - 1)
    );

    // Check that the new route is different from the old one, to account for the pdr
    assert_ne!(route.get(1), new_route.get(1));
    assert_ne!(route.get(2), new_route.get(2));
    assert_ne!(route.get(3), new_route.get(3));
}

#[test]
fn add_edge_is_symmetric() {
    let mut t = Topology::new();
    t.add_node(1);
    t.add_node(2);
    t.add_edge(1, 2);
    assert!(t.neighbors(1).contains(&2));
    assert!(t.neighbors(2).contains(&1));
    // adding the same edge twice does not duplicate entries
    t.add_edge(1, 2);
    assert_eq!(t.neighbors(1), vec![2]);
    assert_eq!(t.neighbors(2), vec![1]);
}

#[test]
fn pdr_starts_at_zero_and_truncates() {
    let mut t = Topology::new();
    assert_eq!(t.pdr_for_node(9), 0);
    t.update_node_history(&vec![9, 9, 9], false);
    t.update_node_history(&vec![9], true);
    assert_eq!(t.pdr_for_node(9), 33);
}

#[test]
fn remove_node_strips_neighbor_lists() {
    let mut t = Topology::new();
    for n in [1u8, 2, 3] {
        t.add_node(n);
    }
    t.add_edge(1, 2);
    t.add_edge(2, 3);
    t.add_edge(1, 3);
    t.remove_node(2);
    assert_eq!(t.nodes(), &vec![1, 3]);
    assert_eq!(t.neighbors(1), vec![3]);
    assert_eq!(t.neighbors(3), vec![1]);
    assert_eq!(t.neighbors(2), Vec::<u8>::new());
}

#[test]
fn remove_edges_keeps_other_links() {
    let mut t = Topology::new();
    for n in [1u8, 2, 3] {
        t.add_node(n);
    }
    t.add_edge(1, 2);
    t.add_edge(1, 3);
    t.remove_edges(1, 2);
    assert!(!t.neighbors(1).contains(&2));
    assert!(!t.neighbors(2).contains(&1));
    assert!(t.neighbors(1).contains(&3));
    assert!(t.neighbors(3).contains(&1));
}

#[test]
fn labels_and_types_are_plain_tables() {
    let mut t = Topology::new();
    t.add_node(7);
    assert!(t.get_label(7).is_none());
    t.set_label(7, String::from("gateway"));
    assert_eq!(t.get_label(7), Some(&String::from("gateway")));
    assert!(t.get_node_type(7).is_none());
    t.set_node_type(7, String::from("drone"));
    assert_eq!(t.get_node_type(7), Some(&String::from("drone")));
    assert_eq!(t.get_node_types().get(&7), Some(&String::from("drone")));
}

#[test]
fn clear_forgets_graph_and_counters() {
    let mut t = Topology::new();
    t.add_node(1);
    t.add_node(2);
    t.add_edge(1, 2);
    t.set_label(1, String::from("one"));
    t.update_node_history(&vec![1], false);
    t.clear();
    assert!(t.nodes().is_empty());
    assert!(t.neighbors(1).is_empty());
    assert_eq!(t.pdr_for_node(1), 0);
    // labels survive a clear; they are unused until the id reappears
    assert_eq!(t.get_label(1), Some(&String::from("one")));
}

#[test]
fn routing_header_cursor_starts_after_source() {
    let mut t = Topology::new();
    for n in [1u8, 2] {
        t.add_node(n);
    }
    t.add_edge(1, 2);
    let header = t.get_routing_header(1, 2);
    assert_eq!(header.hop_index, 1);
    assert_eq!(header.hops, vec![1, 2]);
}
