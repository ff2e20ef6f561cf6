use hanger_lane::network::{Edge, Network};

fn get_test_edges() -> Vec<Edge> {
    vec![
        Edge::new(0, 1, 1),
        Edge::new(0, 2, 2),
        Edge::new(0, 2, 3),
        Edge::new(1, 3, 4),
        Edge::new(2, 3, 5),
        Edge::new(2, 3, 6),
        Edge::new(5, 6, 7),
        Edge::new(6, 5, 8),
        Edge::new(6, 5, 9),
        Edge::new(7, 7, 10),
    ]
}

fn get_test_network(edges: &Vec<Edge>) -> Network {
    Network::new(8, edges)
}

fn contains_exactly(actual: &[Edge], expected: &[Edge]) -> bool {
    if actual.len() != expected.len() {
        return false;
    }
    let mut used = vec![false; expected.len()];
    for a in actual {
        let mut found = false;
        for (i, e) in expected.iter().enumerate() {
            if !used[i] && a == e {
                used[i] = true;
                found = true;
                break;
            }
        }
        if !found {
            return false;
        }
    }
    true
}

#[test]
fn test_get_out() {
    let edges = get_test_edges();
    let network = get_test_network(&edges);
    assert!(contains_exactly(network.get_out(0), &[edges[0], edges[1], edges[2]]));
    assert!(contains_exactly(network.get_out(1), &[edges[3]]));
    assert!(contains_exactly(network.get_out(2), &[edges[4], edges[5]]));
    assert!(network.get_out(3).len() == 0);
    assert!(network.get_out(4).len() == 0);
    assert!(contains_exactly(network.get_out(5), &[edges[6]]));
    assert!(contains_exactly(network.get_out(6), &[edges[7], edges[8]]));
    assert!(contains_exactly(network.get_out(7), &[edges[9]]));
}

#[test]
fn test_get_in() {
    let edges = get_test_edges();
    let network = get_test_network(&edges);
    assert!(network.get_in(0).len() == 0);
    assert!(contains_exactly(network.get_in(1), &[edges[0]]));
    assert!(contains_exactly(network.get_in(2), &[edges[1], edges[2]]));
    assert!(contains_exactly(network.get_in(3), &[edges[3], edges[4], edges[5]]));
    assert!(network.get_in(4).len() == 0);
    assert!(contains_exactly(network.get_in(5), &[edges[7], edges[8]]));
    assert!(contains_exactly(network.get_in(6), &[edges[6]]));
    assert!(contains_exactly(network.get_in(7), &[edges[9]]));
}

#[test]
fn test_create_grid() {
    let expected_edges = vec![
        Edge::new(0, 1, 1),
        Edge::new(0, 3, 1),
        Edge::new(1, 0, 1),
        Edge::new(1, 2, 1),
        Edge::new(1, 4, 1),
        Edge::new(2, 1, 1),
        Edge::new(2, 5, 1),
        Edge::new(3, 0, 1),
        Edge::new(3, 4, 1),
        Edge::new(3, 6, 1),
        Edge::new(4, 1, 1),
        Edge::new(4, 3, 1),
        Edge::new(4, 5, 1),
        Edge::new(4, 7, 1),
        Edge::new(5, 2, 1),
        Edge::new(5, 4, 1),
        Edge::new(5, 8, 1),
        Edge::new(6, 3, 1),
        Edge::new(6, 7, 1),
        Edge::new(7, 4, 1),
        Edge::new(7, 6, 1),
        Edge::new(7, 8, 1),
        Edge::new(8, 5, 1),
        Edge::new(8, 7, 1),
    ];

    let edges = Edge::create_grid(3, 3, 1, Edge::create_4_neighbour_deltas());
    assert!(contains_exactly(&edges, &expected_edges));
}

#[test]
fn test_dijkstra() {
    let edges = get_test_edges();
    let network = get_test_network(&edges);
    let expected = vec![
        vec![Some(0), None, None, None, None, None, None, None],
        vec![Some(1), Some(0), None, None, None, None, None, None],
        vec![Some(2), None, Some(0), None, None, None, None, None],
        vec![Some(5), Some(4), Some(5), Some(0), None, None, None, None],
        vec![None, None, None, None, Some(0), None, None, None],
        vec![None, None, None, None, None, Some(0), Some(8), None],
        vec![None, None, None, None, None, Some(7), Some(0), None],
        vec![None, None, None, None, None, None, None, Some(0)],
    ];

    for i in 0..8 {
        assert!(network.dijkstra(vec![i]) == expected[i]);
    }
}

#[test]
fn test_dijkstra_on_grid() {
    let edges = Edge::create_grid(4, 4, 1, Edge::create_4_neighbour_deltas());
    let network = Network::new(16, &edges);
    let expected = vec![
        Some(0),
        Some(1),
        Some(2),
        Some(3),
        Some(1),
        Some(2),
        Some(3),
        Some(4),
        Some(2),
        Some(3),
        Some(4),
        Some(5),
        Some(3),
        Some(4),
        Some(5),
        Some(6),
    ];

    assert!(network.dijkstra(vec![0]) == expected);
}

#[test]
fn test_multi_destinations() {
    let edges = Edge::create_grid(4, 4, 1, Edge::create_4_neighbour_deltas());
    let network = Network::new(16, &edges);
    let expected = vec![
        Some(0),
        Some(0),
        Some(0),
        Some(0),
        Some(1),
        Some(1),
        Some(1),
        Some(1),
        Some(2),
        Some(2),
        Some(2),
        Some(2),
        Some(3),
        Some(3),
        Some(3),
        Some(3),
    ];

    assert!(network.dijkstra(vec![0, 1, 2, 3]) == expected);
}
