use hanger_lane::occupancy::Occupancy;
use hanger_lane::steps::traffic_lights::{InstantTimer, TrafficLights};

#[test]
fn should_initialise_with_first_cycle_unlocked() {
    let mut occupancy = Occupancy::new(6);
    TrafficLights::new(vec![vec![1, 3], vec![2, 4]], InstantTimer {}, &mut occupancy);
    assert!(occupancy.is_unlocked(0));
    assert!(occupancy.is_unlocked(1));
    assert!(!occupancy.is_unlocked(2));
    assert!(occupancy.is_unlocked(3));
    assert!(!occupancy.is_unlocked(4));
    assert!(occupancy.is_unlocked(5));
}

#[test]
fn cycle_once() {
    let mut occupancy = Occupancy::new(6);
    let mut traffic_lights = TrafficLights::new(
        vec![vec![1, 3], vec![2, 4]],
        InstantTimer {},
        &mut occupancy,
    );
    traffic_lights.step(&mut occupancy);

    assert!(occupancy.is_unlocked(0));
    assert!(!occupancy.is_unlocked(1));
    assert!(occupancy.is_unlocked(2));
    assert!(!occupancy.is_unlocked(3));
    assert!(occupancy.is_unlocked(4));
    assert!(occupancy.is_unlocked(5));
}

#[test]
fn cycle_twice() {
    let mut occupancy = Occupancy::new(6);
    let mut traffic_lights = TrafficLights::new(
        vec![vec![1, 3], vec![2, 4]],
        InstantTimer {},
        &mut occupancy,
    );
    traffic_lights.step(&mut occupancy);
    traffic_lights.step(&mut occupancy);

    assert!(occupancy.is_unlocked(0));
    assert!(occupancy.is_unlocked(1));
    assert!(!occupancy.is_unlocked(2));
    assert!(occupancy.is_unlocked(3));
    assert!(!occupancy.is_unlocked(4));
    assert!(occupancy.is_unlocked(5));
}
