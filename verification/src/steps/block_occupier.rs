use vstd::prelude::*;
use crate::Vehicle;
use crate::occupancy::Occupancy;

verus! {

/// The first node of the block (the group of nodes sharing one tile) that
/// `location` belongs to.
pub open spec fn block_start_spec(block_size: int, location: int) -> int {
    block_size * (location / block_size)
}

/// Whether `v` occurs in `dests`.
pub open spec fn is_destination(dests: Seq<usize>, v: usize) -> bool {
    dests.contains(v)
}

/// Whether `j` lies in the block of `location`.
pub open spec fn in_block(block_size: int, location: int, j: int) -> bool {
    block_start_spec(block_size, location) <= j < block_start_spec(block_size, location)
        + block_size
}

/// `r` holds one lock more than `o` on every node of the block of
/// `location`, and the same count elsewhere.
pub open spec fn block_locked(block_size: int, location: int, o: Seq<usize>, r: Seq<usize>) -> bool {
    &&& r.len() == o.len()
    &&& forall|j: int|
        0 <= j < o.len() ==> #[trigger] r[j] == if in_block(block_size, location, j) {
            o[j] + 1
        } else {
            o[j] as int
        }
}

/// `r` holds one lock fewer than `o` on every node of the block of
/// `location`, and the same count elsewhere.
pub open spec fn block_freed(block_size: int, location: int, o: Seq<usize>, r: Seq<usize>) -> bool {
    &&& r.len() == o.len()
    &&& forall|j: int|
        0 <= j < o.len() ==> #[trigger] r[j] == if in_block(block_size, location, j) {
            o[j] - 1
        } else {
            o[j] as int
        }
}

fn contains_node(dests: &Vec<usize>, v: usize) -> (r: bool)
    ensures
        r == is_destination(dests@, v),
{
    let mut i: usize = 0;
    while i < dests.len()
        invariant
            i <= dests@.len(),
            forall|j: int| 0 <= j < i ==> #[trigger] dests@[j] != v,
        decreases dests@.len() - i,
    {
        if dests[i] == v {
            return true;
        }
        i = i + 1;
    }
    false
}

fn block_start(block_size: usize, location: usize) -> (r: usize)
    requires
        block_size >= 1,
    ensures
        r == block_start_spec(block_size as int, location as int),
        r <= location,
{
    proof {
        assert(block_size * (location / block_size) <= location && block_size * (location
            / block_size) >= 0) by (nonlinear_arith)
            requires
                block_size >= 1,
                location >= 0,
        {}
    }
    block_size * (location / block_size)
}

/// Releases the vehicle's block before it drives, so that neighbours (and
/// the vehicle itself) may take the freed nodes this tick.
pub struct VehicleFree {
    pub block_size: usize,
}

impl VehicleFree {
    pub fn new(block_size: usize) -> (r: VehicleFree)
        ensures
            r.block_size == block_size,
    {
        VehicleFree { block_size }
    }

    /// Removes one lock from every node of the vehicle's block.
    pub fn update(&self, vehicle: &Vehicle, occupancy: &mut Occupancy)
        requires
            self.block_size >= 1,
            block_start_spec(self.block_size as int, vehicle.location as int) + self.block_size
                <= old(occupancy).len(),
            forall|j: int|
                in_block(self.block_size as int, vehicle.location as int, j)
                    ==> old(occupancy).counters()[j] > 0,
        ensures
            block_freed(
                self.block_size as int,
                vehicle.location as int,
                old(occupancy).counters(),
                final (occupancy).counters(),
            ),
    {
        let start = block_start(self.block_size, vehicle.location);
        let mut offset: usize = 0;
        while offset < self.block_size
            invariant
                offset <= self.block_size,
                start == block_start_spec(self.block_size as int, vehicle.location as int),
                start + self.block_size <= occupancy.len(),
                occupancy.len() == old(occupancy).len(),
                forall|j: int|
                    0 <= j < occupancy.len() ==> #[trigger] occupancy.counters()[j] == if start
                        <= j < start + offset {
                        old(occupancy).counters()[j] - 1
                    } else {
                        old(occupancy).counters()[j] as int
                    },
                forall|j: int|
                    in_block(self.block_size as int, vehicle.location as int, j)
                        ==> old(occupancy).counters()[j] > 0,
            decreases self.block_size - offset,
        {
            proof {
                vstd::std_specs::vec::axiom_spec_len(&occupancy.occupancy);
                assert(in_block(
                    self.block_size as int,
                    vehicle.location as int,
                    start + offset,
                ));
            }
            occupancy.unlock(start + offset);
            offset = offset + 1;
        }
    }
}

/// Re-takes the vehicle's block after it drives, unless the vehicle stands
/// on one of its destinations: destinations are never block-locked, so
/// arrivals can drain through them.
pub struct VehicleOccupy {
    pub block_size: usize,
}

impl VehicleOccupy {
    pub fn new(block_size: usize) -> (r: VehicleOccupy)
        ensures
            r.block_size == block_size,
    {
        VehicleOccupy { block_size }
    }

    /// Adds one lock to every node of the vehicle's block, or leaves the
    /// grid untouched when the vehicle has arrived.
    pub fn update(&self, vehicle: &Vehicle, occupancy: &mut Occupancy)
        requires
            self.block_size >= 1,
            block_start_spec(self.block_size as int, vehicle.location as int) + self.block_size
                <= old(occupancy).len(),
            forall|j: int|
                in_block(self.block_size as int, vehicle.location as int, j)
                    ==> old(occupancy).counters()[j] < usize::MAX,
        ensures
            if is_destination(vehicle.destination@, vehicle.location) {
                *final (occupancy) == *old(occupancy)
            } else {
                block_locked(
                    self.block_size as int,
                    vehicle.location as int,
                    old(occupancy).counters(),
                    final (occupancy).counters(),
                )
            },
    {
        if !contains_node(&vehicle.destination, vehicle.location) {
            let start = block_start(self.block_size, vehicle.location);
            let mut offset: usize = 0;
            while offset < self.block_size
                invariant
                    offset <= self.block_size,
                    start == block_start_spec(self.block_size as int, vehicle.location as int),
                    start + self.block_size <= occupancy.len(),
                    occupancy.len() == old(occupancy).len(),
                    forall|j: int|
                        0 <= j < occupancy.len() ==> #[trigger] occupancy.counters()[j] == if start
                            <= j < start + offset {
                            old(occupancy).counters()[j] + 1
                        } else {
                            old(occupancy).counters()[j] as int
                        },
                    forall|j: int|
                        in_block(self.block_size as int, vehicle.location as int, j)
                            ==> old(occupancy).counters()[j] < usize::MAX,
                decreases self.block_size - offset,
            {
                proof {
                    vstd::std_specs::vec::axiom_spec_len(&occupancy.occupancy);
                    assert(in_block(
                        self.block_size as int,
                        vehicle.location as int,
                        start + offset,
                    ));
                }
                occupancy.lock(start + offset);
                offset = offset + 1;
            }
        }
    }
}

} // verus!
