use hanger_lane::occupancy::Occupancy;

#[test]
fn remove_all_locks() {
    let mut occupancy = Occupancy::new(10);
    occupancy.remove_all_locks(7);
    assert!(occupancy.is_unlocked(7));
}

#[test]
fn lock() {
    let mut occupancy = Occupancy::new(10);
    occupancy.remove_all_locks(7);
    occupancy.lock(7);
    assert!(!occupancy.is_unlocked(7));
}

#[test]
fn lock_then_unlock() {
    let mut occupancy = Occupancy::new(10);
    occupancy.remove_all_locks(7);
    occupancy.lock(7);
    occupancy.unlock(7);
    assert!(occupancy.is_unlocked(7));
}

#[test]
fn double_lock() {
    let mut occupancy = Occupancy::new(10);
    occupancy.remove_all_locks(7);
    occupancy.lock(7);
    occupancy.lock(7);
    assert!(!occupancy.is_unlocked(7));
    occupancy.unlock(7);
    assert!(!occupancy.is_unlocked(7));
    occupancy.unlock(7);
    assert!(occupancy.is_unlocked(7));
}
