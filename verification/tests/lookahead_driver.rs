use hanger_lane::Vehicle;
use hanger_lane::network::{Edge, Network};
use hanger_lane::occupancy::Occupancy;
use hanger_lane::random::RandomSource;
use hanger_lane::steps::lookahead_driver::LookaheadDriver;

fn get_test_driver(lookahead: usize, destination: Vec<usize>) -> LookaheadDriver {
    let edges = Edge::create_grid(4, 4, 1, Edge::create_4_neighbour_deltas());
    let network = Network::new(16, &edges);
    let costs = vec![network.dijkstra(destination)];
    LookaheadDriver::new(lookahead, network, costs)
}

fn init(
    lookahead: usize,
    vehicle: usize,
    destination: Vec<usize>,
) -> (LookaheadDriver, Vehicle, Occupancy, RandomSource) {
    let driver = get_test_driver(lookahead, destination.clone());
    let vehicle = Vehicle { location: vehicle, destination, destination_index: 0 };
    let occupancy = Occupancy::new(16);
    let rng = RandomSource::new(42);
    (driver, vehicle, occupancy, rng)
}

#[test]
fn no_obstructions() {
    let (driver, mut vehicle, occupancy, mut rng) = init(3, 1, vec![13]);

    driver.update(&mut vehicle, &occupancy, &mut rng);
    assert!(vehicle.location == 5);
}

#[test]
fn lookahead_required_for_obstruction() {
    let (driver, mut vehicle, mut occupancy, mut rng) = init(3, 1, vec![13]);

    occupancy.lock(4);
    occupancy.lock(5);
    driver.update(&mut vehicle, &occupancy, &mut rng);
    assert!(vehicle.location == 2);
}

#[test]
fn multiple_destinations_no_obstructions() {
    let (driver, mut vehicle, occupancy, mut rng) = init(3, 1, vec![12, 13, 14, 15]);

    driver.update(&mut vehicle, &occupancy, &mut rng);
    assert!(vehicle.location == 5);
}

#[test]
fn lookahead_not_enough_for_obstruction() {
    let (driver, mut vehicle, mut occupancy, mut rng) = init(2, 1, vec![13]);

    occupancy.lock(4);
    occupancy.lock(5);
    driver.update(&mut vehicle, &occupancy, &mut rng);
    assert!(vehicle.location == 1);
}

#[test]
fn full_lookahead_not_required_for_obstruction() {
    let (driver, mut vehicle, mut occupancy, mut rng) = init(4, 1, vec![13]);

    occupancy.lock(4);
    occupancy.lock(5);
    driver.update(&mut vehicle, &occupancy, &mut rng);
    assert!(vehicle.location == 2);
}

#[test]
fn no_route() {
    let (driver, mut vehicle, mut occupancy, mut rng) = init(3, 1, vec![13]);

    occupancy.lock(4);
    occupancy.lock(5);
    occupancy.lock(6);
    occupancy.lock(7);
    driver.update(&mut vehicle, &occupancy, &mut rng);
    assert!(vehicle.location == 1);
}

#[test]
fn two_routes_a() {
    let (driver, mut vehicle, mut occupancy, mut rng) = init(3, 1, vec![13]);

    occupancy.lock(5);
    occupancy.lock(6);
    driver.update(&mut vehicle, &occupancy, &mut rng);
    assert!(vehicle.location == 0);
}

#[test]
fn two_routes_b() {
    let (driver, mut vehicle, mut occupancy, mut rng) = init(3, 2, vec![13]);

    occupancy.lock(5);
    occupancy.lock(6);
    driver.update(&mut vehicle, &occupancy, &mut rng);
    assert!(vehicle.location == 1 || vehicle.location == 3);
}

#[test]
fn two_routes_c() {
    let (driver, mut vehicle, mut occupancy, mut rng) = init(3, 2, vec![14]);

    occupancy.lock(5);
    occupancy.lock(6);
    driver.update(&mut vehicle, &occupancy, &mut rng);
    assert!(vehicle.location == 3);
}

#[test]
fn adjacent_to_goal() {
    let (driver, mut vehicle, occupancy, mut rng) = init(3, 0, vec![1]);

    driver.update(&mut vehicle, &occupancy, &mut rng);
    println!("###{}", vehicle.location);
    assert!(vehicle.location == 1);
}

#[test]
fn on_goal() {
    let (driver, mut vehicle, occupancy, mut rng) = init(3, 0, vec![0]);

    driver.update(&mut vehicle, &occupancy, &mut rng);
    assert!(vehicle.location == 0);
}

#[test]
fn goal_blocked() {
    let (driver, mut vehicle, mut occupancy, mut rng) = init(3, 0, vec![1]);

    occupancy.lock(1);
    driver.update(&mut vehicle, &occupancy, &mut rng);
    assert!(vehicle.location == 0);
}

#[test]
fn on_goal_adjacent_to_another_goal() {
    let (driver, mut vehicle, occupancy, mut rng) = init(3, 0, vec![0, 1]);

    driver.update(&mut vehicle, &occupancy, &mut rng);
    assert!(vehicle.location == 0);
}

#[test]
fn position_blocked() {
    let (driver, mut vehicle, mut occupancy, mut rng) = init(3, 0, vec![1]);

    occupancy.lock(0);
    driver.update(&mut vehicle, &occupancy, &mut rng);
    assert!(vehicle.location == 1);
}

#[test]
fn all_the_way() {
    let (driver, mut vehicle, mut occupancy, mut rng) = init(3, 1, vec![13]);

    occupancy.lock(4);
    occupancy.lock(5);
    driver.update(&mut vehicle, &occupancy, &mut rng);
    assert!(vehicle.location == 2);
    driver.update(&mut vehicle, &occupancy, &mut rng);
    assert!(vehicle.location == 6);
    driver.update(&mut vehicle, &occupancy, &mut rng);
    assert!(vehicle.location == 10);
    driver.update(&mut vehicle, &occupancy, &mut rng);
    assert!(vehicle.location == 9 || vehicle.location == 14);
    driver.update(&mut vehicle, &occupancy, &mut rng);
    assert!(vehicle.location == 13);
}

#[test]
fn should_not_go_onto_nodes_with_no_route_to_destination() {
    let edges = vec![
        Edge::new(1, 0, 1),
        Edge::new(1, 2, 1),
        Edge::new(1, 4, 1),
        Edge::new(4, 3, 1),
        Edge::new(4, 5, 1),
        Edge::new(4, 7, 1),
    ];
    let network = Network::new(8, &edges);
    let costs = vec![network.dijkstra(vec![7])];
    let driver = LookaheadDriver::new(3, network, costs);
    let mut vehicle = Vehicle { location: 1, destination: vec![7], destination_index: 0 };
    let occupancy = Occupancy::new(16);
    let mut rng = RandomSource::new(42);

    driver.update(&mut vehicle, &occupancy, &mut rng);
    assert!(vehicle.location == 4);
    driver.update(&mut vehicle, &occupancy, &mut rng);
    assert!(vehicle.location == 7);
}

#[test]
fn should_not_go_onto_nodes_with_no_route_to_destination_even_with_obstruction() {
    let edges = vec![
        Edge::new(1, 0, 1),
        Edge::new(1, 2, 1),
        Edge::new(1, 4, 1),
        Edge::new(4, 3, 1),
        Edge::new(4, 5, 1),
        Edge::new(4, 7, 1),
    ];
    let network = Network::new(8, &edges);
    let costs = vec![network.dijkstra(vec![7])];
    let driver = LookaheadDriver::new(3, network, costs);
    let mut vehicle = Vehicle { location: 1, destination: vec![7], destination_index: 0 };
    let mut occupancy = Occupancy::new(16);
    let mut rng = RandomSource::new(42);

    occupancy.lock(4);

    driver.update(&mut vehicle, &occupancy, &mut rng);
    assert!(vehicle.location == 1);
}
