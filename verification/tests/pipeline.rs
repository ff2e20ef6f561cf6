use hanger_lane::{Traffic, Vehicle};
use hanger_lane::city::City;
use hanger_lane::city_map::{check_map, create_city};
use hanger_lane::simulation::Simulation;
use hanger_lane::network::{Edge, Network};
use hanger_lane::occupancy::Occupancy;
use hanger_lane::random::RandomSource;
use hanger_lane::simulation::{RemoveVehicles, SimulationState, SpawnVehicles, UpdateVehicles};
use hanger_lane::steps::block_occupier::{VehicleFree, VehicleOccupy};
use hanger_lane::steps::lookahead_driver::LookaheadDriver;
use hanger_lane::steps::traffic_lights::{CounterTimer, Timer, TrafficLights};
use hanger_lane::editor::Editor;
use hanger_lane::version::{Local, Master};

#[test]
fn remove_vehicles_drops_arrivals() {
    let arrived = Vehicle { location: 3, destination: vec![3, 5], destination_index: 0 };
    let driving = Vehicle { location: 2, destination: vec![3, 5], destination_index: 0 };
    let state = SimulationState {
        traffic: Traffic { id: 9, vehicles: vec![arrived, driving] },
        occupancy: Occupancy::new(8),
        rng: RandomSource::new(1),
    };
    let state = RemoveVehicles {}.step(state);
    assert!(state.traffic.id == 9);
    assert!(state.traffic.vehicles.len() == 1);
    assert!(state.traffic.vehicles[0].location == 2);
}

#[test]
fn spawn_locks_whole_block() {
    // a 1x1 city: four nodes, one source, one destination group
    let mut city = City::new(1, 1);
    city.sources = vec![vec![2]];
    city.destinations = vec![vec![0]];
    let spawn = SpawnVehicles { city, block_size: 4, frequency: 1 };
    let state = SimulationState {
        traffic: Traffic { id: 0, vehicles: vec![] },
        occupancy: Occupancy::new(4),
        rng: RandomSource::new(7),
    };
    let state = spawn.step(state);
    assert!(state.traffic.vehicles.len() == 1);
    assert!(state.traffic.vehicles[0].location == 2);
    assert!(state.traffic.vehicles[0].destination == vec![0]);
    assert!(!state.occupancy.is_unlocked(0));
    assert!(!state.occupancy.is_unlocked(1));
    assert!(!state.occupancy.is_unlocked(2));
    assert!(!state.occupancy.is_unlocked(3));
}

#[test]
fn spawn_skips_locked_sources() {
    let mut city = City::new(1, 1);
    city.sources = vec![vec![2]];
    city.destinations = vec![vec![0]];
    let spawn = SpawnVehicles { city, block_size: 4, frequency: 1 };
    let mut occupancy = Occupancy::new(4);
    occupancy.lock(2);
    let state = SimulationState {
        traffic: Traffic { id: 0, vehicles: vec![] },
        occupancy,
        rng: RandomSource::new(7),
    };
    let state = spawn.step(state);
    assert!(state.traffic.vehicles.len() == 0);
}

#[test]
fn update_vehicles_moves_and_relocks() {
    let edges = Edge::create_grid(4, 4, 1, Edge::create_4_neighbour_deltas());
    let network = Network::new(16, &edges);
    let costs = vec![network.dijkstra(vec![13])];
    let update = UpdateVehicles {
        free: VehicleFree::new(4),
        driver: LookaheadDriver::new(1, network, costs),
        occupy: VehicleOccupy::new(4),
    };
    let mut occupancy = Occupancy::new(16);
    // the vehicle holds its own block, as the protocol demands
    occupancy.lock(0);
    occupancy.lock(1);
    occupancy.lock(2);
    occupancy.lock(3);
    let vehicle = Vehicle { location: 1, destination: vec![13], destination_index: 0 };
    let state = SimulationState {
        traffic: Traffic { id: 4, vehicles: vec![vehicle] },
        occupancy,
        rng: RandomSource::new(3),
    };
    let state = update.step(state);
    assert!(state.traffic.id == 4);
    assert!(state.traffic.vehicles[0].location == 5);
    // the old block is free again, the new one is held
    assert!(state.occupancy.is_unlocked(0));
    assert!(state.occupancy.is_unlocked(1));
    assert!(!state.occupancy.is_unlocked(4));
    assert!(!state.occupancy.is_unlocked(5));
    assert!(!state.occupancy.is_unlocked(6));
    assert!(!state.occupancy.is_unlocked(7));
}

#[test]
fn version_channel_publishes_snapshots() {
    let mut master = Master::new(Traffic { id: 7, vehicles: vec![] });
    let mut local = Local::new(&master);
    local.update();
    assert!(local.local.is_none());
    master.publish();
    local.update();
    assert!(local.local.as_ref().unwrap().id == 7);
    master.master.id = 8;
    master.publish();
    local.update();
    assert!(local.local.as_ref().unwrap().id == 8);
}

#[test]
fn random_draws_stay_below_bound() {
    let mut rng = RandomSource::new(99);
    for _ in 0..100 {
        assert!(rng.below(10) < 10);
    }
    assert!(rng.below(1) == 0);
}

#[test]
fn counter_timer_counts_each_phase() {
    let mut timer = CounterTimer::new(vec![2, 3]);
    assert!(!timer.ready());
    assert!(!timer.ready());
    assert!(timer.ready());
    timer.reset();
    assert!(!timer.ready());
    assert!(!timer.ready());
    assert!(!timer.ready());
    assert!(timer.ready());
    timer.reset();
    assert!(!timer.ready());
    assert!(!timer.ready());
    assert!(timer.ready());
}

#[test]
fn single_light_group_swaps_with_itself() {
    let mut occupancy = Occupancy::new(3);
    let mut lights = TrafficLights::new(vec![vec![1]], CounterTimer::new(vec![0]), &mut occupancy);
    assert!(occupancy.is_unlocked(1));
    lights.step(&mut occupancy);
    assert!(occupancy.is_unlocked(1));
}

#[test]
fn num_nodes_counts_four_per_tile() {
    let city = City::new(5, 3);
    assert!(city.get_num_nodes() == 60);
    let single = City::new(1, 1);
    assert!(single.get_num_nodes() == 4);
}

#[test]
fn grid_of_one_tile_has_no_edges() {
    let edges = Edge::create_grid(1, 1, 1, Edge::create_4_neighbour_deltas());
    assert!(edges.len() == 0);
}

#[test]
fn check_map_accepts_and_rejects() {
    assert!(check_map(",D^1\nSv101,"));
    assert!(check_map(""));
    assert!(!check_map("q"));
    assert!(!check_map("Sv"));
    assert!(!check_map("Sx3"));
    assert!(!check_map("Sv99999999999999999999999999"));
}

#[test]
fn full_tick_advances_id_and_spawns() {
    // a 3x1 city: roads eastward, a source on the west end, the
    // destination on the east end
    let city = create_city("S>0 >>,>>,D>0");
    let node_count = city.get_num_nodes();
    let mut occupancy = Occupancy::new(node_count);
    let network = Network::new(node_count, &city.create_edges());
    let mut costs = Vec::new();
    for destination in city.destinations.iter() {
        costs.push(network.dijkstra(destination.clone()));
    }
    let mut simulation = Simulation {
        traffic_lights: None::<TrafficLights<CounterTimer>>,
        spawn: SpawnVehicles { city, block_size: 4, frequency: 1 },
        update: UpdateVehicles {
            free: VehicleFree::new(4),
            driver: LookaheadDriver::new(3, network, costs),
            occupy: VehicleOccupy::new(4),
        },
        remove: RemoveVehicles {},
        delay: hanger_lane::steps::delay::Delay::new(0),
    };
    let mut state = SimulationState {
        traffic: Traffic { id: 0, vehicles: vec![] },
        occupancy,
        rng: RandomSource::new(5),
    };
    state = simulation.step(state);
    assert!(state.traffic.id == 1);
    assert!(state.traffic.vehicles.len() == 1);
    assert!(state.traffic.vehicles[0].location == 5);
    state = simulation.step(state);
    assert!(state.traffic.id == 2);
    // after a few ticks every spawned vehicle has drained into the
    // destination and been removed; the id keeps rising
    for _ in 0..10 {
        state = simulation.step(state);
    }
    assert!(state.traffic.id == 12);
}

#[test]
fn editor_publishes_a_revision() {
    let master = Master::new(City::new(2, 2));
    let mut editor = Editor::new(master);
    let mut local = Local::new(&editor.city_publisher);
    editor.run();
    local.update();
    assert!(editor.city_publisher.master.id == 1);
    assert!(local.local.as_ref().unwrap().id == 1);
}

#[test]
fn spawn_demands_the_whole_block_free() {
    // the source node itself is free, but another node of its block holds
    // a lock, so nothing spawns
    let mut city = City::new(1, 1);
    city.sources = vec![vec![2]];
    city.destinations = vec![vec![0]];
    let spawn = SpawnVehicles { city, block_size: 4, frequency: 1 };
    let mut occupancy = Occupancy::new(4);
    occupancy.lock(0);
    let state = SimulationState {
        traffic: Traffic { id: 0, vehicles: vec![] },
        occupancy,
        rng: RandomSource::new(7),
    };
    let state = spawn.step(state);
    assert!(state.traffic.vehicles.len() == 0);
}

#[test]
fn full_tick_with_lights_cycles_and_drives() {
    // as the drained 3x1 map, with the destination's tile under a light
    // group that opens first and a second group over the source's tile
    let city = create_city("S>0 >> T>0,>> T>1,D>0");
    let node_count = city.get_num_nodes();
    let mut occupancy = Occupancy::new(node_count);
    let network = Network::new(node_count, &city.create_edges());
    let mut costs = Vec::new();
    for destination in city.destinations.iter() {
        costs.push(network.dijkstra(destination.clone()));
    }
    let lights = TrafficLights::new(
        city.lights.clone(),
        CounterTimer::new(vec![1, 1]),
        &mut occupancy,
    );
    let mut simulation = Simulation {
        traffic_lights: Some(lights),
        spawn: SpawnVehicles { city, block_size: 4, frequency: 1 },
        update: UpdateVehicles {
            free: VehicleFree::new(4),
            driver: LookaheadDriver::new(3, network, costs),
            occupy: VehicleOccupy::new(4),
        },
        remove: RemoveVehicles {},
        delay: hanger_lane::steps::delay::Delay::new(0),
    };
    let mut state = SimulationState {
        traffic: Traffic { id: 0, vehicles: vec![] },
        occupancy,
        rng: RandomSource::new(11),
    };
    for _ in 0..8 {
        state = simulation.step(state);
    }
    assert!(state.traffic.id == 8);
    // the group-1 light on the middle tile keeps cycling; when it is red
    // its node carries its lock on top of any vehicle block
    assert!(state.occupancy.occupancy.iter().all(|&c| c <= 2));
}
