use drone_net::routing::{compute_route, compute_route_dijkstra};
use drone_net::topology::Topology;

fn build(nodes: &[u8], edges: &[(u8, u8)]) -> Topology {
    let mut t = Topology::new();
    for &n in nodes {
        t.add_node(n);
    }
    for &(a, b) in edges {
        t.add_edge(a, b);
    }
    t
}

#[test]
fn bfs_returns_fewest_hops() {
    // two ways from 11 to 12: a three-hop chain and a one-hop shortcut
    let t = build(
        &[11, 1, 2, 3, 4, 12],
        &[(11, 1), (1, 2), (2, 3), (3, 12), (11, 4), (4, 12)],
    );
    let route = compute_route(&t, 11, 12);
    assert_eq!(route, vec![11, 4, 12]);
}

#[test]
fn bfs_unreachable_returns_empty() {
    let t = build(&[1, 2, 3], &[(1, 3)]);
    assert_eq!(compute_route(&t, 1, 2), Vec::<u8>::new());
    // nodes absent from the topology are unreachable too
    assert_eq!(compute_route(&t, 1, 99), Vec::<u8>::new());
    assert_eq!(compute_route(&t, 98, 99), Vec::<u8>::new());
}

#[test]
fn bfs_trivial_path_to_self() {
    let t = build(&[5, 6], &[(5, 6)]);
    assert_eq!(compute_route(&t, 5, 5), vec![5]);
}

#[test]
fn weighted_search_switches_to_reliable_chain() {
    // relays 1..=6, endpoints 11 and 12, two parallel three-hop relay
    // chains bridging them
    let mut t = build(
        &[1, 2, 3, 4, 5, 6, 11, 12],
        &[
            (11, 1),
            (1, 2),
            (2, 3),
            (3, 12),
            (11, 4),
            (4, 5),
            (5, 6),
            (6, 12),
        ],
    );
    for relay in 1u8..=6 {
        t.set_node_type(relay, String::from("drone"));
    }
    t.set_node_type(11, String::from("client"));
    t.set_node_type(12, String::from("server"));

    let first = compute_route_dijkstra(&mut t, 11, 12);
    assert_eq!(first, vec![11, 1, 2, 3, 12]);

    // heavy losses on every relay of the chosen chain
    for &relay in &[1u8, 2, 3] {
        t.update_node_history(&vec![relay, relay, relay], false);
        for _ in 0..7 {
            t.update_node_history(&vec![relay], true);
        }
    }

    let second = compute_route_dijkstra(&mut t, 11, 12);
    assert_eq!(second, vec![11, 4, 5, 6, 12]);
    assert_eq!(first.first(), second.first());
    assert_eq!(first.last(), second.last());
    assert_ne!(first[1], second[1]);
    assert_ne!(first[2], second[2]);
    assert_ne!(first[3], second[3]);
}

#[test]
fn weighted_search_skips_non_relay_interiors() {
    // the only bridge between the endpoints is itself an endpoint, so
    // the weighted search finds nothing while plain search does
    let mut t = build(&[11, 7, 12], &[(11, 7), (7, 12)]);
    t.set_node_type(7, String::from("client"));
    assert_eq!(compute_route(&t, 11, 12), vec![11, 7, 12]);
    assert_eq!(compute_route_dijkstra(&mut t, 11, 12), Vec::<u8>::new());
}

#[test]
fn weighted_search_reaches_tagged_destination() {
    let mut t = build(&[11, 1, 12], &[(11, 1), (1, 12)]);
    t.set_node_type(1, String::from("drone"));
    t.set_node_type(12, String::from("server"));
    assert_eq!(compute_route_dijkstra(&mut t, 11, 12), vec![11, 1, 12]);
}

#[test]
fn weighted_search_is_stable_while_history_is_unchanged() {
    let mut t = build(
        &[1, 2, 3, 4, 5, 6, 11, 12],
        &[
            (11, 1),
            (1, 2),
            (2, 3),
            (3, 12),
            (11, 4),
            (4, 5),
            (5, 6),
            (6, 12),
        ],
    );
    for relay in 1u8..=6 {
        t.set_node_type(relay, String::from("drone"));
    }
    let first = compute_route_dijkstra(&mut t, 11, 12);
    let second = compute_route_dijkstra(&mut t, 11, 12);
    assert_eq!(first.first(), second.first());
    assert_eq!(first.last(), second.last());
    assert_eq!(first, second);
}
