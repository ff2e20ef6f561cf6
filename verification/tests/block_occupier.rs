use hanger_lane::Vehicle;
use hanger_lane::occupancy::Occupancy;
use hanger_lane::steps::block_occupier::{VehicleFree, VehicleOccupy};

#[test]
fn free_then_occupy_start_of_range() {
    let occupy = VehicleOccupy::new(3);
    let vehicle = Vehicle { location: 0, destination: vec![1], destination_index: 0 };
    let mut occupancy = Occupancy::new(9);
    occupancy.remove_all_locks(0);
    occupy.update(&vehicle, &mut occupancy);
    assert!(!occupancy.is_unlocked(0));
    assert!(!occupancy.is_unlocked(1));
    assert!(!occupancy.is_unlocked(2));
}

#[test]
fn free_then_occupy_mid_range() {
    let occupy = VehicleOccupy::new(4);
    let vehicle = Vehicle { location: 5, destination: vec![6], destination_index: 0 };
    let mut occupancy = Occupancy::new(12);
    occupancy.remove_all_locks(0);
    occupy.update(&vehicle, &mut occupancy);
    assert!(!occupancy.is_unlocked(4));
    assert!(!occupancy.is_unlocked(5));
    assert!(!occupancy.is_unlocked(6));
    assert!(!occupancy.is_unlocked(7));
}

#[test]
fn free_then_occupy_end_of_range() {
    let occupy = VehicleOccupy::new(5);
    let vehicle = Vehicle { location: 10, destination: vec![11], destination_index: 0 };
    let mut occupancy = Occupancy::new(15);
    occupancy.remove_all_locks(0);
    occupy.update(&vehicle, &mut occupancy);
    assert!(!occupancy.is_unlocked(10));
    assert!(!occupancy.is_unlocked(11));
    assert!(!occupancy.is_unlocked(12));
    assert!(!occupancy.is_unlocked(13));
    assert!(!occupancy.is_unlocked(14));
}

#[test]
fn occupy_then_free_start_of_range() {
    let free = VehicleFree::new(3);
    let occupy = VehicleOccupy::new(3);
    let vehicle = Vehicle { location: 0, destination: vec![1], destination_index: 0 };
    let mut occupancy = Occupancy::new(9);
    occupy.update(&vehicle, &mut occupancy);
    free.update(&vehicle, &mut occupancy);
    assert!(occupancy.is_unlocked(0));
    assert!(occupancy.is_unlocked(1));
    assert!(occupancy.is_unlocked(2));
}

#[test]
fn occupy_then_free_mid_range() {
    let free = VehicleFree::new(4);
    let occupy = VehicleOccupy::new(4);
    let vehicle = Vehicle { location: 5, destination: vec![6], destination_index: 0 };
    let mut occupancy = Occupancy::new(12);
    occupy.update(&vehicle, &mut occupancy);
    free.update(&vehicle, &mut occupancy);
    assert!(occupancy.is_unlocked(4));
    assert!(occupancy.is_unlocked(5));
    assert!(occupancy.is_unlocked(6));
    assert!(occupancy.is_unlocked(7));
}

#[test]
fn occupy_then_free_end_of_range() {
    let free = VehicleFree::new(5);
    let occupy = VehicleOccupy::new(5);
    let vehicle = Vehicle { location: 10, destination: vec![11], destination_index: 0 };
    let mut occupancy = Occupancy::new(15);
    occupy.update(&vehicle, &mut occupancy);
    free.update(&vehicle, &mut occupancy);
    assert!(occupancy.is_unlocked(10));
    assert!(occupancy.is_unlocked(11));
    assert!(occupancy.is_unlocked(12));
    assert!(occupancy.is_unlocked(13));
    assert!(occupancy.is_unlocked(14));
}

#[test]
fn should_not_occupy_destination() {
    let occupy = VehicleOccupy::new(3);
    let vehicle = Vehicle { location: 0, destination: vec![0, 1], destination_index: 0 };
    let mut occupancy = Occupancy::new(9);
    occupancy.remove_all_locks(0);
    occupy.update(&vehicle, &mut occupancy);
    assert!(occupancy.is_unlocked(0));
    assert!(occupancy.is_unlocked(1));
    assert!(occupancy.is_unlocked(2));
}
