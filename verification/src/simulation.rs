use vstd::prelude::*;
use vstd::pervasive::VecAdditionalExecFns;
use crate::{Traffic, Vehicle};
use crate::city::City;
use crate::occupancy::Occupancy;
use crate::random::RandomSource;
use crate::steps::block_occupier::{block_freed, block_locked, block_start_spec, in_block,
    VehicleFree, VehicleOccupy};
use crate::steps::delay::Delay;
use crate::steps::lookahead_driver::{drive_step, LookaheadDriver};
use crate::steps::traffic_lights::{count_in, lemma_count_in_nonneg, lemma_locks_except_ge_member,
    lemma_locks_except_insert, lemma_locks_except_nonneg, lights_wf, locks_except, Timer,
    TrafficLights};

verus! {

/// Whether the vehicle stands on one of its destination nodes.
pub open spec fn at_destination(v: Vehicle) -> bool {
    v.destination@.contains(v.location)
}

/// How many of the first `k` vehicles hold a block lock on node `j`: every
/// listed vehicle counts, wherever it stands.
pub open spec fn blocks_all(vehicles: Seq<Vehicle>, bs: int, j: int, k: int) -> int
    decreases k,
{
    if k <= 0 {
        0
    } else {
        blocks_all(vehicles, bs, j, k - 1) + if in_block(bs, vehicles[k - 1].location as int, j) {
            1int
        } else {
            0int
        }
    }
}

/// How many of the first `k` vehicles hold a block lock on node `j`, not
/// counting vehicles standing on a destination: those never block.
pub open spec fn blocks_active(vehicles: Seq<Vehicle>, bs: int, j: int, k: int) -> int
    decreases k,
{
    if k <= 0 {
        0
    } else {
        blocks_active(vehicles, bs, j, k - 1) + if !at_destination(vehicles[k - 1]) && in_block(
            bs,
            vehicles[k - 1].location as int,
            j,
        ) {
            1int
        } else {
            0int
        }
    }
}

pub proof fn lemma_blocks_active_bounds(vehicles: Seq<Vehicle>, bs: int, j: int, k: int)
    ensures
        0 <= blocks_active(vehicles, bs, j, k),
        blocks_active(vehicles, bs, j, k) <= blocks_all(vehicles, bs, j, k),
        k >= 0 ==> blocks_all(vehicles, bs, j, k) <= k,
    decreases k,
{
    if k > 0 {
        lemma_blocks_active_bounds(vehicles, bs, j, k - 1);
    }
}

/// The count over a longer prefix includes each earlier member's lock.
pub proof fn lemma_blocks_all_member(vehicles: Seq<Vehicle>, bs: int, j: int, m: int, n: int)
    requires
        0 <= m < n,
        in_block(bs, vehicles[m].location as int, j),
    ensures
        blocks_all(vehicles, bs, j, n) >= blocks_all(vehicles, bs, j, m) + 1,
    decreases n,
{
    if m == n - 1 {
    } else {
        lemma_blocks_all_member(vehicles, bs, j, m, n - 1);
    }
}

/// The counts read only the first `k` vehicles.
pub proof fn lemma_blocks_congruent(s1: Seq<Vehicle>, s2: Seq<Vehicle>, bs: int, j: int, k: int)
    requires
        forall|t: int| 0 <= t < k ==> s1[t] == s2[t],
    ensures
        blocks_all(s1, bs, j, k) == blocks_all(s2, bs, j, k),
        blocks_active(s1, bs, j, k) == blocks_active(s2, bs, j, k),
    decreases k,
{
    if k > 0 {
        lemma_blocks_congruent(s1, s2, bs, j, k - 1);
    }
}

/// Longer active counts include each active member's lock.
pub proof fn lemma_blocks_active_member(vehicles: Seq<Vehicle>, bs: int, j: int, m: int, n: int)
    requires
        0 <= m < n,
        !at_destination(vehicles[m]),
        in_block(bs, vehicles[m].location as int, j),
    ensures
        blocks_active(vehicles, bs, j, n) >= blocks_active(vehicles, bs, j, m) + 1,
    decreases n,
{
    if m == n - 1 {
    } else {
        lemma_blocks_active_member(vehicles, bs, j, m, n - 1);
    }
}

/// No two vehicles that can block stand on the same block: vehicles before
/// `m` count only while off their destinations, those from `m` on always.
pub open spec fn blocks_distinct(vehicles: Seq<Vehicle>, bs: int, m: int) -> bool {
    forall|t1: int, t2: int|
        #![trigger vehicles[t1], vehicles[t2]]
        0 <= t1 < t2 < vehicles.len() && (t1 >= m || !at_destination(vehicles[t1])) && (t2 >= m
            || !at_destination(vehicles[t2])) ==> block_start_spec(
            bs,
            vehicles[t1].location as int,
        ) != block_start_spec(bs, vehicles[t2].location as int)
}

/// A node of one block is covered exactly by the vehicles of that block.
pub proof fn lemma_block_cover(bs: int, loc: int, j: int)
    requires
        bs >= 1,
        loc >= 0,
        j >= 0,
    ensures
        in_block(bs, loc, j) <==> block_start_spec(bs, j) == block_start_spec(bs, loc),
{
    assert((bs * (loc / bs) <= j < bs * (loc / bs) + bs) <==> bs * (j / bs) == bs * (loc
        / bs)) by (nonlinear_arith)
        requires
            bs >= 1,
            loc >= 0,
            j >= 0,
    {}
}

/// An aligned block fits inside a grid whose size the block size divides.
pub proof fn lemma_block_in_range(bs: int, loc: int, n: int)
    requires
        bs >= 1,
        0 <= loc < n,
        n % bs == 0,
    ensures
        0 <= block_start_spec(bs, loc),
        block_start_spec(bs, loc) + bs <= n,
{
    assert(0 <= bs * (loc / bs) && bs * (loc / bs) + bs <= n) by (nonlinear_arith)
        requires
            bs >= 1,
            0 <= loc < n,
            n % bs == 0,
    {}
}

/// The whole simulation state that one tick transforms: the traffic, the
/// lock grid, and the explicit random source.
pub struct SimulationState {
    pub traffic: Traffic,
    pub occupancy: Occupancy,
    pub rng: RandomSource,
}

fn copy_nodes(nodes: &Vec<usize>) -> (r: Vec<usize>)
    ensures
        r@ == nodes@,
{
    let mut out: Vec<usize> = Vec::new();
    let mut i: usize = 0;
    while i < nodes.len()
        invariant
            i <= nodes@.len(),
            out@ == nodes@.take(i as int),
        decreases nodes@.len() - i,
    {
        out.push(nodes[i]);
        proof {
            assert(out@ =~= nodes@.take(i + 1));
        }
        i = i + 1;
    }
    proof {
        assert(nodes@.take(nodes@.len() as int) =~= nodes@);
    }
    out
}

/// A node lies within its own block.
pub proof fn lemma_in_own_block(bs: int, loc: int)
    requires
        bs >= 1,
        loc >= 0,
    ensures
        in_block(bs, loc, loc),
{
    assert(bs * (loc / bs) <= loc < bs * (loc / bs) + bs) by (nonlinear_arith)
        requires
            bs >= 1,
            loc >= 0,
    {}
}

/// What holds of every outcome of one spawning pass: the old vehicles stay
/// as they are; each added vehicle stands on a node of some source group
/// whose whole block carried no lock beforehand, aims at an existing
/// destination group, and holds one fresh block lock; the counters change
/// by exactly those block locks.
pub open spec fn spawn_outcome(
    sp: SpawnVehicles,
    vs0: Seq<Vehicle>,
    occ0: Seq<usize>,
    vs1: Seq<Vehicle>,
    occ1: Seq<usize>,
) -> bool {
    &&& vs1.len() >= vs0.len()
    &&& vs1.len() <= vs0.len() + sp.city.sources@.len()
    &&& forall|m: int| 0 <= m < vs0.len() ==> #[trigger] vs1[m] == vs0[m]
    &&& forall|m: int|
        vs0.len() <= m < vs1.len() ==> (exists|g: int|
            0 <= g < sp.city.sources@.len() && sp.city.sources@[g]@.contains(
                (#[trigger] vs1[m]).location,
            )) && vs1[m].destination_index < sp.city.destinations@.len() && vs1[m].destination@
            == sp.city.destinations@[vs1[m].destination_index as int]@ && (forall|j: int|
            in_block(sp.block_size as int, vs1[m].location as int, j) ==> occ0[j] == 0)
    &&& occ1.len() == occ0.len()
    &&& forall|j: int|
        0 <= j < occ0.len() ==> (#[trigger] occ1[j]) == occ0[j] + blocks_all(
            vs1.subrange(vs0.len() as int, vs1.len() as int),
            sp.block_size as int,
            j,
            vs1.len() - vs0.len(),
        )
}

/// Whether every node of the block of `node` carries no lock.
fn block_is_free(occupancy: &Occupancy, block_size: usize, node: usize) -> (r: bool)
    requires
        block_size >= 1,
        node < occupancy.len(),
        occupancy.len() as int % block_size as int == 0,
    ensures
        r == forall|j: int|
            in_block(block_size as int, node as int, j) ==> occupancy.counters()[j] == 0,
{
    proof {
        lemma_block_in_range(block_size as int, node as int, occupancy.len() as int);
        assert(block_size * (node as int / block_size as int) <= node as int)
            by (nonlinear_arith)
            requires
                block_size >= 1,
                node >= 0,
        {}
    }
    let start = block_size * (node / block_size);
    let mut offset: usize = 0;
    while offset < block_size
        invariant
            offset <= block_size,
            block_size >= 1,
            start == block_start_spec(block_size as int, node as int),
            start + block_size <= occupancy.len(),
            forall|j: int| start <= j < start + offset ==> occupancy.counters()[j] == 0,
        decreases block_size - offset,
    {
        proof {
            vstd::std_specs::vec::axiom_spec_len(&occupancy.occupancy);
        }
        if !occupancy.is_unlocked(start + offset) {
            proof {
                assert(in_block(block_size as int, node as int, start + offset));
            }
            return false;
        }
        offset = offset + 1;
    }
    true
}

/// Bernoulli spawning: on each tick each source group may, with probability
/// `1 / frequency`, add one vehicle on a free node of the group, aimed at a
/// uniformly chosen destination group, and block-lock it at once.
pub struct SpawnVehicles {
    pub city: City,
    pub block_size: usize,
    pub frequency: usize,
}

impl SpawnVehicles {
    /// What holds of every outcome of the random draws: the old vehicles
    /// stay as they are; each added vehicle stands on a node of some source
    /// group, aims at an existing destination group, and holds one fresh
    /// block lock; counters change by exactly those block locks.
    pub fn step(&self, state: SimulationState) -> (r: SimulationState)
        requires
            self.frequency >= 1,
            self.block_size >= 1,
            self.city.wf(),
            self.city.destinations@.len() >= 1,
            state.occupancy.len() == 4 * self.city.width * self.city.height,
            state.occupancy.len() as int % self.block_size as int == 0,
            forall|j: int|
                0 <= j < state.occupancy.len() ==> (#[trigger] state.occupancy.counters()[j])
                    < usize::MAX,
            forall|j: int|
                0 <= j < state.occupancy.len() ==> blocks_all(
                    state.traffic.vehicles@,
                    self.block_size as int,
                    j,
                    state.traffic.vehicles@.len() as int,
                ) <= (#[trigger] state.occupancy.counters()[j]),
            forall|m: int|
                0 <= m < state.traffic.vehicles@.len() ==> (
                #[trigger] state.traffic.vehicles@[m]).location < state.occupancy.len(),
            blocks_distinct(state.traffic.vehicles@, self.block_size as int, 0),
        ensures
            r.traffic.id == state.traffic.id,
            spawn_outcome(
                *self,
                state.traffic.vehicles@,
                state.occupancy.counters(),
                r.traffic.vehicles@,
                r.occupancy.counters(),
            ),
            r.occupancy.len() == state.occupancy.len(),
            blocks_distinct(r.traffic.vehicles@, self.block_size as int, 0),
    {
        let mut traffic = state.traffic;
        let mut occupancy = state.occupancy;
        let mut rng = state.rng;
        let ghost n0 = traffic.vehicles@.len() as int;
        let ghost occ0 = occupancy.counters();
        let bs = self.block_size;
        let mut g: usize = 0;
        while g < self.city.sources.len()
            invariant
                g <= self.city.sources@.len(),
                self.frequency >= 1,
                bs == self.block_size,
                self.block_size >= 1,
                self.city.wf(),
                self.city.destinations@.len() >= 1,
                occupancy.len() == occ0.len(),
                occ0.len() == 4 * self.city.width * self.city.height,
                occ0.len() as int % bs as int == 0,
                forall|j: int| 0 <= j < occ0.len() ==> (#[trigger] occ0[j]) < usize::MAX,
                traffic.id == state.traffic.id,
                0 <= n0,
                traffic.vehicles@.len() >= n0,
                traffic.vehicles@.len() <= n0 + g,
                forall|m: int|
                    0 <= m < n0 ==> #[trigger] traffic.vehicles@[m] == state.traffic.vehicles@[m],
                forall|m: int|
                    n0 <= m < traffic.vehicles@.len() ==> (exists|g2: int|
                        0 <= g2 < self.city.sources@.len() && self.city.sources@[g2]@.contains(
                            (#[trigger] traffic.vehicles@[m]).location,
                        )) && traffic.vehicles@[m].destination_index
                        < self.city.destinations@.len() && traffic.vehicles@[m].destination@
                        == self.city.destinations@[traffic.vehicles@[m].destination_index as int]@
                        && (forall|j: int|
                        in_block(bs as int, traffic.vehicles@[m].location as int, j) ==> occ0[j]
                            == 0),
                forall|m: int|
                    n0 <= m < traffic.vehicles@.len() ==> (#[trigger] traffic.vehicles@[m]).location
                        < occ0.len(),
                forall|m: int|
                    0 <= m < n0 ==> (#[trigger] traffic.vehicles@[m]).location < occ0.len(),
                forall|j: int|
                    0 <= j < occ0.len() ==> blocks_all(state.traffic.vehicles@, bs as int, j, n0)
                        <= (#[trigger] occ0[j]),
                blocks_distinct(traffic.vehicles@, bs as int, 0),
                forall|j: int|
                    0 <= j < occ0.len() ==> (#[trigger] occupancy.counters()[j]) == occ0[j]
                        + blocks_all(
                        traffic.vehicles@.subrange(n0, traffic.vehicles@.len() as int),
                        bs as int,
                        j,
                        traffic.vehicles@.len() - n0,
                    ),
                forall|j: int|
                    0 <= j < occ0.len() ==> occ0[j] <= (#[trigger] occupancy.counters()[j])
                        <= occ0[j] + 1,
                forall|j: int, j2: int|
                    0 <= j < occ0.len() && 0 <= j2 < occ0.len() && block_start_spec(bs as int, j)
                        == block_start_spec(bs as int, j2) ==> (#[trigger] occupancy.counters()[j])
                        - occ0[j] == (#[trigger] occupancy.counters()[j2]) - occ0[j2],
            decreases self.city.sources@.len() - g,
        {
            let draw = rng.below(self.frequency);
            if draw == 0 {
                let source = &self.city.sources[g];
                let mut candidates: Vec<usize> = Vec::new();
                let mut s: usize = 0;
                while s < source.len()
                    invariant
                        s <= source@.len(),
                        source@ == self.city.sources@[g as int]@,
                        g < self.city.sources@.len(),
                        self.city.wf(),
                        occupancy.len() == occ0.len(),
                        occ0.len() == 4 * self.city.width * self.city.height,
                        occ0.len() as int % bs as int == 0,
                        bs == self.block_size,
                        bs >= 1,
                        forall|c: int|
                            0 <= c < candidates@.len() ==> self.city.sources@[g as int]@.contains(
                                #[trigger] candidates@[c],
                            ) && candidates@[c] < occ0.len() && (forall|j: int|
                                in_block(bs as int, candidates@[c] as int, j)
                                    ==> occupancy.counters()[j] == 0),
                    decreases source@.len() - s,
                {
                    let node = source[s];
                    proof {
                        assert(self.city.sources@[g as int]@[s as int] < 4 * self.city.width
                            * self.city.height);
                    }
                    if block_is_free(&occupancy, bs, node) {
                        candidates.push(node);
                        proof {
                            assert(self.city.sources@[g as int]@.contains(node));
                        }
                    }
                    s = s + 1;
                }
                if candidates.len() > 0 {
                    let pick = rng.below(candidates.len());
                    let location = candidates[pick];
                    let destination_index = rng.below(self.city.destinations.len());
                    let destination = copy_nodes(&self.city.destinations[destination_index]);
                    let ghost pre_vehicles = traffic.vehicles@;
                    let ghost pre_occ = occupancy.counters();
                    proof {
                        // the picked node's whole block is free, so no
                        // listed vehicle's block covers it, and the new
                        // block is fresh
                        assert(candidates@[pick as int] == location);
                        lemma_in_own_block(bs as int, location as int);
                        assert(pre_occ[location as int] == 0);
                        lemma_block_in_range(bs as int, location as int, occ0.len() as int);
                        assert forall|j: int|
                            in_block(bs as int, location as int, j) implies occ0[j] == 0 by {
                            assert(pre_occ[j] == 0);
                            assert(occ0[j] <= occupancy.counters()[j]);
                        }
                        let added0 = pre_vehicles.subrange(n0, pre_vehicles.len() as int);
                        assert(blocks_all(pre_vehicles, bs as int, location as int,
                            pre_vehicles.len() as int) == blocks_all(
                            pre_vehicles,
                            bs as int,
                            location as int,
                            n0,
                        ) + blocks_all(added0, bs as int, location as int, added0.len() as int))
                            by {
                            lemma_blocks_all_split(
                                pre_vehicles,
                                bs as int,
                                location as int,
                                n0,
                                pre_vehicles.len() as int,
                            );
                        }
                        assert(blocks_all(pre_vehicles, bs as int, location as int, n0)
                            == blocks_all(state.traffic.vehicles@, bs as int, location as int, n0))
                            by {
                            lemma_blocks_congruent(
                                pre_vehicles,
                                state.traffic.vehicles@,
                                bs as int,
                                location as int,
                                n0,
                            );
                        }
                        assert(blocks_all(pre_vehicles, bs as int, location as int,
                            pre_vehicles.len() as int) == 0) by {
                            lemma_blocks_active_bounds(
                                pre_vehicles,
                                bs as int,
                                location as int,
                                n0,
                            );
                            let added0 = pre_vehicles.subrange(n0, pre_vehicles.len() as int);
                            lemma_blocks_active_bounds(
                                added0,
                                bs as int,
                                location as int,
                                added0.len() as int,
                            );
                        }
                        assert forall|t: int| 0 <= t < pre_vehicles.len() implies block_start_spec(
                            bs as int,
                            (#[trigger] pre_vehicles[t]).location as int,
                        ) != block_start_spec(bs as int, location as int) by {
                            if in_block(bs as int, pre_vehicles[t].location as int,
                                location as int) {
                                lemma_blocks_all_member(
                                    pre_vehicles,
                                    bs as int,
                                    location as int,
                                    t,
                                    pre_vehicles.len() as int,
                                );
                                lemma_blocks_active_bounds(
                                    pre_vehicles,
                                    bs as int,
                                    location as int,
                                    t,
                                );
                            }
                            lemma_block_cover(
                                bs as int,
                                pre_vehicles[t].location as int,
                                location as int,
                            );
                        }
                    }
                    traffic.vehicles.push(
                        Vehicle { location, destination, destination_index },
                    );
                    proof {
                        assert forall|t1: int, t2: int|
                            #![trigger traffic.vehicles@[t1], traffic.vehicles@[t2]]
                            0 <= t1 < t2 < traffic.vehicles@.len() implies block_start_spec(
                            bs as int,
                            traffic.vehicles@[t1].location as int,
                        ) != block_start_spec(bs as int, traffic.vehicles@[t2].location as int) by {
                            if t2 == traffic.vehicles@.len() - 1 {
                                assert(traffic.vehicles@[t1] == pre_vehicles[t1]);
                            } else {
                                assert(traffic.vehicles@[t1] == pre_vehicles[t1]);
                                assert(traffic.vehicles@[t2] == pre_vehicles[t2]);
                            }
                        }
                    }
                    proof {
                        lemma_block_in_range(bs as int, location as int, occ0.len() as int);
                        assert(bs * (location as int / bs as int) <= location as int)
                            by (nonlinear_arith)
                            requires
                                bs >= 1,
                                location >= 0,
                        {}
                    }
                    let start = bs * (location / bs);
                    let mut offset: usize = 0;
                    while offset < bs
                        invariant
                            offset <= bs,
                            bs >= 1,
                            start == block_start_spec(bs as int, location as int),
                            start + bs <= occupancy.len(),
                            occupancy.len() == pre_occ.len(),
                            location < occ0.len(),
                            occ0.len() == pre_occ.len(),
                            forall|j: int|
                                0 <= j < pre_occ.len() ==> (#[trigger] occupancy.counters()[j])
                                    == if start <= j < start + offset {
                                    pre_occ[j] + 1
                                } else {
                                    pre_occ[j] as int
                                },
                            forall|j: int| 0 <= j < occ0.len() ==> (#[trigger] occ0[j]) < usize::MAX,
                            forall|j: int|
                                0 <= j < occ0.len() ==> occ0[j] <= (#[trigger] pre_occ[j])
                                    <= occ0[j] + 1,
                            forall|j: int, j2: int|
                                0 <= j < occ0.len() && 0 <= j2 < occ0.len() && block_start_spec(
                                    bs as int,
                                    j,
                                ) == block_start_spec(bs as int, j2) ==> (#[trigger] pre_occ[j])
                                    - occ0[j] == (#[trigger] pre_occ[j2]) - occ0[j2],
                            pre_occ[location as int] == 0,
                        decreases bs - offset,
                    {
                        proof {
                            vstd::std_specs::vec::axiom_spec_len(&occupancy.occupancy);
                            assert(in_block(bs as int, location as int, start + offset));
                            assert(block_start_spec(bs as int, (start + offset) as int)
                                == block_start_spec(bs as int, location as int))
                                by (nonlinear_arith)
                                requires
                                    bs >= 1,
                                    location >= 0,
                                    start == bs * (location as int / bs as int),
                                    start <= start + offset < start + bs,
                            {}
                            assert(pre_occ[start + offset] - occ0[start + offset]
                                == pre_occ[location as int] - occ0[location as int]);
                            assert(occ0[location as int] <= pre_occ[location as int]);
                            assert(pre_occ[location as int] == 0);
                            assert(occ0[location as int] == 0);
                            assert(pre_occ[start + offset] == occ0[start + offset]);
                            assert(occupancy.counters()[start + offset] == pre_occ[start
                                + offset]);
                            assert(occupancy.counters()[start + offset] < usize::MAX);
                        }
                        occupancy.lock(start + offset);
                        offset = offset + 1;
                    }
                    proof {
                        assert(0 <= n0 <= pre_vehicles.len());
                        assert(traffic.vehicles@ == pre_vehicles.push(
                            Vehicle {
                                location,
                                destination: traffic.vehicles@.last().destination,
                                destination_index,
                            },
                        ));
                        let added_pre = pre_vehicles.subrange(n0, pre_vehicles.len() as int);
                        let added_post = traffic.vehicles@.subrange(
                            n0,
                            traffic.vehicles@.len() as int,
                        );
                        assert(traffic.vehicles@.len() == pre_vehicles.len() + 1);
                        assert(added_post.len() == added_pre.len() + 1);
                        assert forall|t: int| 0 <= t < added_pre.len() implies added_post[t]
                            == added_pre[t] by {
                            assert(added_post[t] == traffic.vehicles@[n0 + t]);
                            assert(added_pre[t] == pre_vehicles[n0 + t]);
                        }
                        assert(added_post.drop_last() =~= added_pre);
                        assert(added_post.last() == traffic.vehicles@.last());
                        assert forall|j: int| 0 <= j < occ0.len() implies (
                        #[trigger] occupancy.counters()[j]) == occ0[j] + blocks_all(
                            added_post,
                            bs as int,
                            j,
                            added_post.len() as int,
                        ) by {
                            lemma_blocks_congruent(
                                added_post,
                                added_pre,
                                bs as int,
                                j,
                                added_pre.len() as int,
                            );
                            assert(added_post[added_post.len() - 1].location == location);
                            assert(blocks_all(added_post, bs as int, j, added_post.len() as int)
                                == blocks_all(added_pre, bs as int, j, added_pre.len() as int)
                                + if in_block(bs as int, location as int, j) {
                                1int
                            } else {
                                0int
                            });
                        }
                        assert forall|j: int|
                            0 <= j < occ0.len() implies occ0[j] <= (
                        #[trigger] occupancy.counters()[j]) && occupancy.counters()[j] <= occ0[j]
                            + 1 by {
                            if in_block(bs as int, location as int, j) {
                                lemma_in_block_start(bs as int, location as int, j);
                                assert(pre_occ[j] - occ0[j] == pre_occ[location as int]
                                    - occ0[location as int]);
                                assert(pre_occ[j] == occ0[j]);
                            }
                        }
                        assert forall|j: int, j2: int|
                            0 <= j < occ0.len() && 0 <= j2 < occ0.len() && block_start_spec(
                                bs as int,
                                j,
                            ) == block_start_spec(bs as int, j2) implies (
                        #[trigger] occupancy.counters()[j]) - occ0[j] == (
                        #[trigger] occupancy.counters()[j2]) - occ0[j2] by {
                            assert(in_block(bs as int, location as int, j) == in_block(
                                bs as int,
                                location as int,
                                j2,
                            )) by {
                                lemma_in_block_same_start(bs as int, location as int, j, j2);
                            }
                        }
                    }
                }
            }
            g = g + 1;
        }
        SimulationState { traffic, occupancy, rng }
    }
}

/// A node of a block has the block's own start.
proof fn lemma_in_block_start(bs: int, loc: int, j: int)
    requires
        bs >= 1,
        loc >= 0,
        in_block(bs, loc, j),
    ensures
        block_start_spec(bs, j) == block_start_spec(bs, loc),
{
    assert(bs * (j / bs) == bs * (loc / bs)) by (nonlinear_arith)
        requires
            bs >= 1,
            loc >= 0,
            bs * (loc / bs) <= j < bs * (loc / bs) + bs,
    {}
}

/// Two nodes of one block are covered together.
proof fn lemma_in_block_same_start(bs: int, loc: int, j: int, j2: int)
    requires
        bs >= 1,
        block_start_spec(bs, j) == block_start_spec(bs, j2),
    ensures
        in_block(bs, loc, j) == in_block(bs, loc, j2),
{
    assert((block_start_spec(bs, loc) <= j < block_start_spec(bs, loc) + bs) == (block_start_spec(
        bs,
        loc,
    ) <= j2 < block_start_spec(bs, loc) + bs)) by (nonlinear_arith)
        requires
            bs >= 1,
            bs * (j / bs) == bs * (j2 / bs),
    {}
}

/// The vehicles that have not arrived, in order: a vehicle is retained
/// exactly when its location is outside its destination set.
pub open spec fn retained(vehicles: Seq<Vehicle>) -> Seq<Vehicle>
    decreases vehicles.len(),
{
    if vehicles.len() == 0 {
        Seq::empty()
    } else {
        retained(vehicles.drop_last()) + if at_destination(vehicles.last()) {
            Seq::empty()
        } else {
            seq![vehicles.last()]
        }
    }
}

proof fn lemma_retained_take_step(vehicles: Seq<Vehicle>, k: int)
    requires
        0 <= k < vehicles.len(),
    ensures
        retained(vehicles.take(k + 1)) == retained(vehicles.take(k)) + if at_destination(
            vehicles[k],
        ) {
            Seq::<Vehicle>::empty()
        } else {
            seq![vehicles[k]]
        },
{
    assert(vehicles.take(k + 1).drop_last() =~= vehicles.take(k));
    assert(vehicles.take(k + 1).last() == vehicles[k]);
}

/// Drops every vehicle that stands on one of its destinations.  Arrivals
/// hold no block lock, so nothing else changes.
pub struct RemoveVehicles {}

impl RemoveVehicles {
    pub fn step(&self, state: SimulationState) -> (r: SimulationState)
        ensures
            r.traffic.id == state.traffic.id,
            r.traffic.vehicles@ == retained(state.traffic.vehicles@),
            r.occupancy == state.occupancy,
            r.rng == state.rng,
    {
        let mut traffic = state.traffic;
        let occupancy = state.occupancy;
        let rng = state.rng;
        let mut vehicles_next: Vec<Vehicle> = Vec::new();
        let mut m: usize = 0;
        let mut vehicles = traffic.vehicles;
        let ghost vseq = vehicles@;
        while m < vehicles.len()
            invariant
                m <= vseq.len(),
                vehicles@.len() == vseq.len(),
                forall|t: int| m <= t < vseq.len() ==> #[trigger] vehicles@[t] == vseq[t],
                vehicles_next@ == retained(vseq.take(m as int)),
            decreases vseq.len() - m,
        {
            let mut v = Vehicle { location: 0, destination: Vec::new(), destination_index: 0 };
            vehicles.set_and_swap(m, &mut v);
            let arrived = vehicle_arrived(&v);
            if !arrived {
                vehicles_next.push(v);
            }
            proof {
                lemma_retained_take_step(vseq, m as int);
                if at_destination(vseq[m as int]) {
                    assert(vehicles_next@ =~= retained(vseq.take(m + 1)));
                } else {
                    assert(vehicles_next@ =~= retained(vseq.take(m + 1)));
                }
            }
            m = m + 1;
        }
        proof {
            assert(vseq.take(vseq.len() as int) =~= vseq);
        }
        traffic.vehicles = vehicles_next;
        SimulationState { traffic, occupancy, rng }
    }
}

/// One vehicle's pass through the update bracket, as a relation on the
/// counters around it: its old block is freed, the driver decides under
/// the freed counters, and the block it ends on is re-locked unless it has
/// arrived.  The intermediate counter state is determined by the inputs.
pub open spec fn bracket_step(
    u: UpdateVehicles,
    occ_in: Seq<usize>,
    v0: Vehicle,
    v1: Vehicle,
    occ_out: Seq<usize>,
) -> bool {
    exists|occ_freed: Seq<usize>|
        #[trigger] block_freed(u.free.block_size as int, v0.location as int, occ_in, occ_freed)
            && drive_step(u.driver, occ_freed, v0, v1) && if at_destination(v1) {
            occ_out == occ_freed
        } else {
            block_locked(u.occupy.block_size as int, v1.location as int, occ_freed, occ_out)
        }
}

/// The whole update pass: a chain of intermediate counter states threads
/// the bracket through the vehicles in insertion order, so each driver
/// decision sees the earlier vehicles' moves.
pub open spec fn bracket_chain(
    u: UpdateVehicles,
    vs0: Seq<Vehicle>,
    vs1: Seq<Vehicle>,
    occ_in: Seq<usize>,
    occ_out: Seq<usize>,
) -> bool {
    exists|occs: Seq<Seq<usize>>|
        (#[trigger] occs.len()) == vs0.len() + 1 && occs[0] == occ_in && occs[vs0.len() as int]
            == occ_out && forall|m: int|
            0 <= m < vs0.len() ==> bracket_step(u, occs[m], vs0[m], vs1[m], occs[m + 1])
}

/// The per-vehicle update bracket: free the vehicle's block, let the
/// driver move it, then lock the block it ends on unless it has arrived.
/// Freeing first lets neighbouring vehicles swap positions within a tick.
pub struct UpdateVehicles {
    pub free: VehicleFree,
    pub driver: LookaheadDriver,
    pub occupy: VehicleOccupy,
}

impl UpdateVehicles {
    /// The two block sizes agree and the driver's tables are usable.
    pub open spec fn wf(self) -> bool {
        &&& self.driver.wf()
        &&& self.free.block_size == self.occupy.block_size
        &&& self.free.block_size >= 1
    }

    /// Applies the bracket to every vehicle in insertion order, so later
    /// vehicles see earlier vehicles' updated positions.  The counters end
    /// up with the old vehicles' block locks gone and the moved, still
    /// driving vehicles' block locks in place.
    pub fn step(&self, state: SimulationState) -> (r: SimulationState)
        requires
            self.wf(),
            state.occupancy.len() == self.driver.network.nodes,
            state.occupancy.len() as int % self.free.block_size as int == 0,
            forall|m: int|
                0 <= m < state.traffic.vehicles@.len() ==> (
                #[trigger] state.traffic.vehicles@[m]).location < self.driver.network.nodes
                    && state.traffic.vehicles@[m].destination_index < self.driver.costs@.len(),
            forall|j: int|
                0 <= j < state.occupancy.len() ==> blocks_all(
                    state.traffic.vehicles@,
                    self.free.block_size as int,
                    j,
                    state.traffic.vehicles@.len() as int,
                ) <= (#[trigger] state.occupancy.counters()[j]),
            forall|j: int|
                0 <= j < state.occupancy.len() ==> (#[trigger] state.occupancy.counters()[j])
                    + state.traffic.vehicles@.len() <= usize::MAX,
            blocks_distinct(state.traffic.vehicles@, self.free.block_size as int, 0),
        ensures
            r.traffic.id == state.traffic.id,
            bracket_chain(
                *self,
                state.traffic.vehicles@,
                r.traffic.vehicles@,
                state.occupancy.counters(),
                r.occupancy.counters(),
            ),
            blocks_distinct(
                r.traffic.vehicles@,
                self.free.block_size as int,
                r.traffic.vehicles@.len() as int,
            ),
            r.traffic.vehicles@.len() == state.traffic.vehicles@.len(),
            forall|m: int|
                0 <= m < state.traffic.vehicles@.len() ==> (#[trigger] r.traffic.vehicles@[m]).destination
                    == state.traffic.vehicles@[m].destination && r.traffic.vehicles@[m].destination_index
                    == state.traffic.vehicles@[m].destination_index && r.traffic.vehicles@[m].location
                    < self.driver.network.nodes,
            r.occupancy.len() == state.occupancy.len(),
            forall|j: int|
                0 <= j < state.occupancy.len() ==> (#[trigger] r.occupancy.counters()[j])
                    == state.occupancy.counters()[j] - blocks_all(
                    state.traffic.vehicles@,
                    self.free.block_size as int,
                    j,
                    state.traffic.vehicles@.len() as int,
                ) + blocks_active(
                    r.traffic.vehicles@,
                    self.free.block_size as int,
                    j,
                    state.traffic.vehicles@.len() as int,
                ),
    {
        let mut traffic = state.traffic;
        let mut occupancy = state.occupancy;
        let mut rng = state.rng;
        let bs = self.free.block_size;
        let ghost vseq0 = traffic.vehicles@;
        let ghost occ0 = occupancy.counters();
        let ghost n = vseq0.len() as int;
        let ghost nodes = self.driver.network.nodes;
        let ghost mut occs: Seq<Seq<usize>> = seq![occ0];
        let mut m: usize = 0;
        while m < traffic.vehicles.len()
            invariant
                m <= n,
                self.wf(),
                bs == self.free.block_size,
                n == vseq0.len(),
                nodes == self.driver.network.nodes,
                traffic.vehicles@.len() == n,
                occupancy.len() == occ0.len(),
                occ0.len() == nodes,
                occ0.len() as int % bs as int == 0,
                traffic.id == state.traffic.id,
                forall|t: int|
                    0 <= t < n ==> (#[trigger] vseq0[t]).location < nodes
                        && vseq0[t].destination_index < self.driver.costs@.len(),
                forall|j: int|
                    0 <= j < occ0.len() ==> blocks_all(vseq0, bs as int, j, n) <= (
                    #[trigger] occ0[j]),
                forall|j: int| 0 <= j < occ0.len() ==> (#[trigger] occ0[j]) + n <= usize::MAX,
                forall|t: int| m <= t < n ==> #[trigger] traffic.vehicles@[t] == vseq0[t],
                forall|t: int|
                    0 <= t < m ==> (#[trigger] traffic.vehicles@[t]).destination
                        == vseq0[t].destination && traffic.vehicles@[t].destination_index
                        == vseq0[t].destination_index && traffic.vehicles@[t].location < nodes,
                forall|j: int|
                    0 <= j < occ0.len() ==> (#[trigger] occupancy.counters()[j]) == occ0[j]
                        - blocks_all(vseq0, bs as int, j, m as int) + blocks_active(
                        traffic.vehicles@,
                        bs as int,
                        j,
                        m as int,
                    ),
                blocks_distinct(traffic.vehicles@, bs as int, m as int),
                occs.len() == m + 1,
                occs[0] == occ0,
                occs[m as int] == occupancy.counters(),
                forall|t: int|
                    0 <= t < m ==> bracket_step(
                        *self,
                        occs[t],
                        vseq0[t],
                        traffic.vehicles@[t],
                        occs[t + 1],
                    ),
            decreases n - m,
        {
            let ghost preswap = traffic.vehicles@;
            let mut v = Vehicle { location: 0, destination: Vec::new(), destination_index: 0 };
            traffic.vehicles.set_and_swap(m, &mut v);
            let ghost hybrid = traffic.vehicles@;
            let ghost cur0 = occupancy.counters();
            proof {
                assert(v == vseq0[m as int]);
                lemma_block_in_range(bs as int, v.location as int, occ0.len() as int);
                assert forall|j: int| 0 <= j < occ0.len() implies (#[trigger] cur0[j]) == occ0[j]
                    - blocks_all(vseq0, bs as int, j, m as int) + blocks_active(
                    hybrid,
                    bs as int,
                    j,
                    m as int,
                ) by {
                    lemma_blocks_congruent(hybrid, preswap, bs as int, j, m as int);
                }
                assert forall|j: int|
                    in_block(bs as int, v.location as int, j) implies cur0[j] > 0 by {
                    lemma_blocks_all_member(vseq0, bs as int, j, m as int, n);
                    lemma_blocks_active_bounds(hybrid, bs as int, j, m as int);
                    assert(blocks_all(vseq0, bs as int, j, n) <= occ0[j]);
                }
                assert forall|j: int| 0 <= j < occ0.len() implies (#[trigger] cur0[j]) + 1
                    <= usize::MAX by {
                    lemma_blocks_active_bounds(hybrid, bs as int, j, m as int);
                    lemma_blocks_active_bounds(vseq0, bs as int, j, m as int);
                }
            }
            self.free.update(&v, &mut occupancy);
            let ghost cur1 = occupancy.counters();
            proof {
                assert forall|j: int| 0 <= j < occ0.len() implies (#[trigger] cur1[j]) == occ0[j]
                    - blocks_all(vseq0, bs as int, j, m + 1) + blocks_active(
                    hybrid,
                    bs as int,
                    j,
                    m as int,
                ) by {
                    assert(blocks_all(vseq0, bs as int, j, m + 1) == blocks_all(
                        vseq0,
                        bs as int,
                        j,
                        m as int,
                    ) + if in_block(bs as int, vseq0[m as int].location as int, j) {
                        1int
                    } else {
                        0int
                    });
                }
            }
            self.driver.update(&mut v, &occupancy, &mut rng);
            proof {
                lemma_block_in_range(bs as int, v.location as int, occ0.len() as int);
                assert forall|j: int|
                    in_block(bs as int, v.location as int, j) implies cur1[j] < usize::MAX by {
                    lemma_blocks_active_bounds(hybrid, bs as int, j, m as int);
                    lemma_blocks_active_bounds(vseq0, bs as int, j, m + 1);
                    assert(cur1[j] <= occ0[j] + m);
                }
            }
            self.occupy.update(&v, &mut occupancy);
            let ghost vnew = v;
            traffic.vehicles.set(m, v);
            proof {
                let updated = traffic.vehicles@;
                assert(updated[m as int] == vnew);
                assert(forall|t: int| 0 <= t < m ==> #[trigger] updated[t] == hybrid[t]);
                assert forall|j: int| 0 <= j < occ0.len() implies (
                #[trigger] occupancy.counters()[j]) == occ0[j] - blocks_all(
                    vseq0,
                    bs as int,
                    j,
                    m + 1,
                ) + blocks_active(updated, bs as int, j, m + 1) by {
                    lemma_blocks_congruent(updated, hybrid, bs as int, j, m as int);
                    assert(blocks_active(updated, bs as int, j, m + 1) == blocks_active(
                        updated,
                        bs as int,
                        j,
                        m as int,
                    ) + if !at_destination(vnew) && in_block(bs as int, vnew.location as int, j) {
                        1int
                    } else {
                        0int
                    });
                    if at_destination(vnew) {
                        assert(occupancy.counters()[j] == cur1[j]);
                    }
                }
                // no two vehicles that can block share a block
                let updated = traffic.vehicles@;
                assert forall|t1: int, t2: int|
                    #![trigger updated[t1], updated[t2]]
                    0 <= t1 < t2 < updated.len() && (t1 >= m + 1 || !at_destination(updated[t1]))
                        && (t2 >= m + 1 || !at_destination(updated[t2])) implies block_start_spec(
                    bs as int,
                    updated[t1].location as int,
                ) != block_start_spec(bs as int, updated[t2].location as int) by {
                    if t1 != m as int && t2 != m as int {
                        assert(updated[t1] == preswap[t1]);
                        assert(updated[t2] == preswap[t2]);
                    } else {
                        let t = if t1 == m as int {
                            t2
                        } else {
                            t1
                        };
                        assert(updated[m as int] == vnew);
                        assert(!at_destination(vnew));
                        if vnew.location == vseq0[m as int].location {
                            // the vehicle stayed on its own block
                            assert(updated[t] == preswap[t]);
                            assert(preswap[m as int].location == vseq0[m as int].location);
                        } else {
                            // the vehicle moved onto a free block, which no
                            // other vehicle's block lock covers
                            let q = choose|q: Seq<usize>|
                                #[trigger] crate::steps::lookahead_driver::improving_path(
                                    self.driver.network,
                                    cur1,
                                    self.driver.costs@[vseq0[m as int].destination_index as int]@,
                                    vseq0[m as int].location,
                                    self.driver.lookahead + 1,
                                    q,
                                ) && q.len() >= 2 && q[1] == vnew.location;
                            let lp = vnew.location as int;
                            assert(cur1[lp] == 0);
                            let sub = vseq0.subrange(m + 1, n);
                            assert(blocks_all(vseq0, bs as int, lp, n) <= occ0[lp]);
                            lemma_blocks_all_split(vseq0, bs as int, lp, m + 1, n);
                            lemma_blocks_active_bounds(sub, bs as int, lp, sub.len() as int);
                            lemma_blocks_active_bounds(hybrid, bs as int, lp, m as int);
                            assert(blocks_all(sub, bs as int, lp, sub.len() as int) == 0);
                            assert(blocks_active(hybrid, bs as int, lp, m as int) == 0);
                            if t > m as int {
                                assert(updated[t] == vseq0[t]);
                                if in_block(bs as int, vseq0[t].location as int, lp) {
                                    assert(sub[t - m - 1] == vseq0[t]);
                                    lemma_blocks_all_member(
                                        sub,
                                        bs as int,
                                        lp,
                                        t - m - 1,
                                        sub.len() as int,
                                    );
                                    lemma_blocks_active_bounds(sub, bs as int, lp, t - m - 1);
                                }
                                lemma_block_cover(bs as int, vseq0[t].location as int, lp);
                            } else {
                                assert(updated[t] == hybrid[t]);
                                assert(!at_destination(hybrid[t]));
                                if in_block(bs as int, hybrid[t].location as int, lp) {
                                    lemma_blocks_active_member(
                                        hybrid,
                                        bs as int,
                                        lp,
                                        t,
                                        m as int,
                                    );
                                    lemma_blocks_active_bounds(hybrid, bs as int, lp, t);
                                }
                                lemma_block_cover(bs as int, hybrid[t].location as int, lp);
                            }
                            lemma_block_cover(bs as int, lp, lp);
                        }
                    }
                }
                // extend the bracket chain by this vehicle's pass
                let cur2 = occupancy.counters();
                assert(block_freed(
                    self.free.block_size as int,
                    vseq0[m as int].location as int,
                    occs[m as int],
                    cur1,
                ));
                assert(drive_step(self.driver, cur1, vseq0[m as int], vnew));
                assert(bracket_step(*self, occs[m as int], vseq0[m as int], vnew, cur2));
                let prev_occs = occs;
                occs = occs.push(cur2);
                assert(forall|t: int| 0 <= t <= m ==> #[trigger] occs[t] == prev_occs[t]);
                assert forall|t: int| 0 <= t < m + 1 implies bracket_step(
                    *self,
                    occs[t],
                    vseq0[t],
                    updated[t],
                    occs[t + 1],
                ) by {
                    if t < m as int {
                        assert(updated[t] == hybrid[t]);
                        assert(bracket_step(*self, prev_occs[t], vseq0[t], hybrid[t], prev_occs[t
                            + 1]));
                    } else {
                        assert(updated[t] == vnew);
                        assert(occs[t] == prev_occs[m as int]);
                        assert(occs[t + 1] == cur2);
                    }
                }
            }
            m = m + 1;
        }
        proof {
            assert(occs.len() == n + 1);
            assert(occs[0] == occ0);
            assert(occs[n] == occupancy.counters());
            assert(bracket_chain(*self, vseq0, traffic.vehicles@, occ0, occupancy.counters()));
        }
        SimulationState { traffic, occupancy, rng }
    }
}


fn vehicle_arrived(v: &Vehicle) -> (r: bool)
    ensures
        r == at_destination(*v),
{
    let mut i: usize = 0;
    while i < v.destination.len()
        invariant
            i <= v.destination@.len(),
            forall|t: int| 0 <= t < i ==> (#[trigger] v.destination@[t]) != v.location,
        decreases v.destination@.len() - i,
    {
        if v.destination[i] == v.location {
            return true;
        }
        i = i + 1;
    }
    false
}

/// A prefix count splits off the count of the remaining slice.
pub proof fn lemma_blocks_all_split(vehicles: Seq<Vehicle>, bs: int, j: int, m: int, k: int)
    requires
        0 <= m <= k <= vehicles.len(),
    ensures
        blocks_all(vehicles, bs, j, k) == blocks_all(vehicles, bs, j, m) + blocks_all(
            vehicles.subrange(m, vehicles.len() as int),
            bs,
            j,
            k - m,
        ),
    decreases k - m,
{
    if k > m {
        lemma_blocks_all_split(vehicles, bs, j, m, k - 1);
        assert(vehicles.subrange(m, vehicles.len() as int)[k - 1 - m] == vehicles[k - 1]);
    }
}

/// After the arrivals are dropped, every remaining vehicle's block lock is
/// exactly the active locks of the full list.
pub proof fn lemma_blocks_retained(vehicles: Seq<Vehicle>, bs: int, j: int)
    ensures
        blocks_all(retained(vehicles), bs, j, retained(vehicles).len() as int) == blocks_active(
            vehicles,
            bs,
            j,
            vehicles.len() as int,
        ),
    decreases vehicles.len(),
{
    if vehicles.len() > 0 {
        let d = vehicles.drop_last();
        lemma_blocks_retained(d, bs, j);
        lemma_blocks_congruent(vehicles, d, bs, j, d.len() as int);
        if at_destination(vehicles.last()) {
            assert(retained(vehicles) =~= retained(d));
        } else {
            assert(retained(vehicles) =~= retained(d).push(vehicles.last()));
            let r = retained(vehicles);
            lemma_blocks_congruent(r, retained(d), bs, j, retained(d).len() as int);
            assert(r[r.len() - 1] == vehicles.last());
        }
    }
}

/// Every retained vehicle is one of the listed vehicles, off its
/// destinations.
pub proof fn lemma_retained_sub(vehicles: Seq<Vehicle>, i: int)
    requires
        0 <= i < retained(vehicles).len(),
    ensures
        exists|k: int|
            0 <= k < vehicles.len() && retained(vehicles)[i] == (#[trigger] vehicles[k])
                && !at_destination(vehicles[k]),
    decreases vehicles.len(),
{
    if vehicles.len() > 0 {
        let d = vehicles.drop_last();
        if i < retained(d).len() {
            lemma_retained_sub(d, i);
            let k = choose|k: int|
                0 <= k < d.len() && retained(d)[i] == (#[trigger] d[k]) && !at_destination(d[k]);
            assert(retained(vehicles)[i] == vehicles[k]);
        } else {
            assert(!at_destination(vehicles.last()));
            assert(retained(vehicles)[i] == vehicles[vehicles.len() - 1]);
        }
    }
}

/// Dropping the arrivals keeps the surviving blocks pairwise distinct.
pub proof fn lemma_retained_distinct(vehicles: Seq<Vehicle>, bs: int)
    requires
        blocks_distinct(vehicles, bs, vehicles.len() as int),
    ensures
        blocks_distinct(retained(vehicles), bs, 0),
    decreases vehicles.len(),
{
    if vehicles.len() > 0 {
        let d = vehicles.drop_last();
        assert(blocks_distinct(d, bs, d.len() as int));
        lemma_retained_distinct(d, bs);
        let r = retained(vehicles);
        if at_destination(vehicles.last()) {
            assert(r =~= retained(d));
        } else {
            assert(r =~= retained(d).push(vehicles.last()));
            assert forall|t1: int, t2: int|
                #![trigger r[t1], r[t2]]
                0 <= t1 < t2 < r.len() implies block_start_spec(bs, r[t1].location as int)
                != block_start_spec(bs, r[t2].location as int) by {
                if t2 == r.len() - 1 {
                    lemma_retained_sub(d, t1);
                    let k = choose|k: int|
                        0 <= k < d.len() && retained(d)[t1] == (#[trigger] d[k])
                            && !at_destination(d[k]);
                    assert(vehicles[k] == d[k]);
                    assert(r[t1] == vehicles[k]);
                    assert(r[t2] == vehicles[vehicles.len() - 1]);
                } else {
                    assert(r[t1] == retained(d)[t1]);
                    assert(r[t2] == retained(d)[t2]);
                }
            }
        }
    }
}

/// The composed tick: lights, spawning, driving, arrivals, in that order,
/// with the published counter bumped once per tick.
pub struct Simulation<T: Timer> {
    pub traffic_lights: Option<TrafficLights<T>>,
    pub spawn: SpawnVehicles,
    pub update: UpdateVehicles,
    pub remove: RemoveVehicles,
    pub delay: Delay,
}

/// The lights' lock contribution at node `j`: each closed group holds one
/// lock per occurrence of `j`; the open group holds none.
pub open spec fn lights_part<T: Timer>(sim: Simulation<T>, j: int) -> int {
    match sim.traffic_lights {
        Some(tl) => locks_except(tl.nodes@, tl.cycle as int, j, tl.nodes@.len() as int),
        None => 0,
    }
}

/// The lights' total possible contribution at node `j`, all groups closed.
pub open spec fn lights_total<T: Timer>(sim: Simulation<T>, j: int) -> int {
    match sim.traffic_lights {
        Some(tl) => locks_except(tl.nodes@, -1, j, tl.nodes@.len() as int),
        None => 0,
    }
}

/// What the lights phase of one tick does: with no lights configured the
/// counters pass through; otherwise the timer is polled, and when it fires
/// the open group's nodes are locked, the next group's unlocked and the
/// cycle advances, the timer restarting.
pub open spec fn lights_outcome<T: Timer>(
    l0: Option<TrafficLights<T>>,
    l1: Option<TrafficLights<T>>,
    occ0: Seq<usize>,
    occ1: Seq<usize>,
) -> bool {
    match (l0, l1) {
        (Option::None, Option::None) => occ1 == occ0,
        (Option::Some(t0), Option::Some(t1)) => {
            &&& t1.nodes == t0.nodes
            &&& occ1.len() == occ0.len()
            &&& t0.timer.firing() ==> t1.cycle == (t0.cycle + 1) % (t0.nodes@.len() as int)
                && t1.timer == t0.timer.polled().restarted() && forall|v: int|
                0 <= v < occ0.len() ==> (#[trigger] occ1[v]) == occ0[v] + count_in(
                    t0.nodes@[t0.cycle as int]@,
                    v,
                ) - count_in(t0.nodes@[t1.cycle as int]@, v)
            &&& !t0.timer.firing() ==> t1.cycle == t0.cycle && t1.timer == t0.timer.polled()
                && occ1 == occ0
        },
        _ => false,
    }
}

/// The static shape of a simulation: the steps agree on the graph size,
/// the block size and the destination groups.
pub open spec fn sim_wf<T: Timer>(sim: Simulation<T>) -> bool {
    &&& sim.update.wf()
    &&& sim.spawn.block_size == sim.update.free.block_size
    &&& sim.spawn.frequency >= 1
    &&& sim.spawn.city.wf()
    &&& sim.spawn.city.destinations@.len() >= 1
    &&& sim.update.driver.costs@.len() == sim.spawn.city.destinations@.len()
    &&& sim.update.driver.network.nodes == 4 * sim.spawn.city.width * sim.spawn.city.height
    &&& sim.update.driver.network.nodes as int % sim.spawn.block_size as int == 0
    &&& match sim.traffic_lights {
        Some(tl) => tl.nodes@.len() >= 1 && tl.cycle < tl.nodes@.len() && lights_wf(
            tl.nodes@,
            sim.update.driver.network.nodes as int,
        ),
        None => true,
    }
}

/// The tick-boundary state invariant.  Its heart is the occupancy
/// accounting: every node's lock count is exactly the locks of the closed
/// light groups plus the block locks of the listed vehicles.
pub open spec fn sim_state_wf<T: Timer>(sim: Simulation<T>, state: SimulationState) -> bool {
    &&& state.occupancy.len() == sim.update.driver.network.nodes
    &&& forall|m: int|
        0 <= m < state.traffic.vehicles@.len() ==> !at_destination(
            #[trigger] state.traffic.vehicles@[m],
        )
    &&& blocks_distinct(state.traffic.vehicles@, sim.spawn.block_size as int, 0)
    &&& forall|m: int|
        0 <= m < state.traffic.vehicles@.len() ==> (
        #[trigger] state.traffic.vehicles@[m]).location < sim.update.driver.network.nodes
            && state.traffic.vehicles@[m].destination_index < sim.update.driver.costs@.len()
    &&& forall|j: int|
        0 <= j < state.occupancy.len() ==> (#[trigger] state.occupancy.counters()[j])
            == lights_part(sim, j) + blocks_all(
            state.traffic.vehicles@,
            sim.spawn.block_size as int,
            j,
            state.traffic.vehicles@.len() as int,
        )
}

/// Room for one tick's worth of extra locks on every counter.
pub open spec fn sim_headroom<T: Timer>(sim: Simulation<T>, state: SimulationState) -> bool {
    forall|j: int|
        0 <= j < state.occupancy.len() ==> (#[trigger] state.occupancy.counters()[j])
            + lights_total(sim, j) + state.traffic.vehicles@.len() + 2
            * sim.spawn.city.sources@.len() + 2 <= usize::MAX
}

impl<T: Timer> Simulation<T> {
    /// One full tick.  The traffic id rises by exactly one, and the
    /// accounting invariant holds again at the next boundary.
    pub fn step(&mut self, state: SimulationState) -> (r: SimulationState)
        requires
            sim_wf(*old(self)),
            sim_state_wf(*old(self), state),
            sim_headroom(*old(self), state),
            state.traffic.id < usize::MAX,
        ensures
            sim_wf(*final (self)),
            final (self).spawn == old(self).spawn,
            final (self).update == old(self).update,
            final (self).delay == old(self).delay,
            r.traffic.id == state.traffic.id + 1,
            sim_state_wf(*final (self), r),
            exists|occ_lit: Seq<usize>, spawned: Seq<Vehicle>, occ_spawned: Seq<usize>, driven: Seq<
                Vehicle>, occ_driven: Seq<usize>|
                {
                    &&& #[trigger] lights_outcome(
                        old(self).traffic_lights,
                        final (self).traffic_lights,
                        state.occupancy.counters(),
                        occ_lit,
                    )
                    &&& #[trigger] spawn_outcome(
                        old(self).spawn,
                        state.traffic.vehicles@,
                        occ_lit,
                        spawned,
                        occ_spawned,
                    )
                    &&& #[trigger] bracket_chain(
                        old(self).update,
                        spawned,
                        driven,
                        occ_spawned,
                        occ_driven,
                    )
                    &&& r.traffic.vehicles@ == retained(driven)
                    &&& r.occupancy.counters() == occ_driven
                },
    {
        let ghost bs = self.spawn.block_size as int;
        let ghost nodes = self.update.driver.network.nodes;
        let mut s = state;
        let ghost occ_a = s.occupancy.counters();
        let ghost veh_a = s.traffic.vehicles@;
        match self.traffic_lights.take() {
            Some(mut tl) => {
                let ghost cyc0 = tl.cycle as int;
                let ghost groups = tl.nodes@;
                proof {
                    assert forall|j: int| 0 <= j < s.occupancy.len() implies (
                    #[trigger] s.occupancy.counters()[j]) + count_in(
                        groups[cyc0]@,
                        j,
                    ) <= usize::MAX by {
                        lemma_locks_except_ge_member(
                            groups,
                            -1,
                            cyc0,
                            j,
                            groups.len() as int,
                        );
                        lemma_blocks_active_bounds(veh_a, bs, j, veh_a.len() as int);
                    }
                    assert forall|j: int| 0 <= j < s.occupancy.len() implies (
                    #[trigger] s.occupancy.counters()[j]) >= locks_except(
                        groups,
                        cyc0,
                        j,
                        groups.len() as int,
                    ) by {
                        lemma_blocks_active_bounds(veh_a, bs, j, veh_a.len() as int);
                    }
                }
                tl.step(&mut s.occupancy);
                proof {
                    assert forall|j: int| 0 <= j < s.occupancy.len() implies (
                    #[trigger] s.occupancy.counters()[j]) == locks_except(
                        groups,
                        tl.cycle as int,
                        j,
                        groups.len() as int,
                    ) + blocks_all(veh_a, bs, j, veh_a.len() as int) by {
                        if tl.cycle != cyc0 {
                            lemma_locks_except_insert(groups, cyc0, j, groups.len() as int);
                            lemma_locks_except_insert(
                                groups,
                                tl.cycle as int,
                                j,
                                groups.len() as int,
                            );
                        }
                    }
                    assert forall|j: int| 0 <= j < s.occupancy.len() implies (
                    #[trigger] s.occupancy.counters()[j]) <= occ_a[j] + locks_except(
                        groups,
                        -1,
                        j,
                        groups.len() as int,
                    ) by {
                        lemma_locks_except_ge_member(
                            groups,
                            -1,
                            cyc0,
                            j,
                            groups.len() as int,
                        );
                        lemma_count_in_nonneg(groups[tl.cycle as int]@, j);
                        lemma_locks_except_nonneg(groups, -1, j, groups.len() as int);
                    }
                }
                self.traffic_lights = Some(tl);
                proof {
                    assert(lights_part(*self, 0) == locks_except(
                        groups,
                        self.traffic_lights->Some_0.cycle as int,
                        0,
                        groups.len() as int,
                    ));
                    assert(lights_outcome(
                        old(self).traffic_lights,
                        self.traffic_lights,
                        occ_a,
                        s.occupancy.counters(),
                    ));
                }
            },
            None => {
                self.traffic_lights = None;
                proof {
                    assert(lights_outcome(
                        old(self).traffic_lights,
                        self.traffic_lights,
                        occ_a,
                        s.occupancy.counters(),
                    ));
                }
            },
        }
        let ghost occ_b = s.occupancy.counters();
        proof {
            // after the lights, the accounting holds with the new open group
            assert forall|j: int| 0 <= j < s.occupancy.len() implies (#[trigger] occ_b[j])
                == lights_part(*self, j) + blocks_all(veh_a, bs, j, veh_a.len() as int) by {}
            assert forall|j: int| 0 <= j < s.occupancy.len() implies (#[trigger] occ_b[j])
                <= occ_a[j] + lights_total(*self, j) by {}
            assert forall|j: int| 0 <= j < s.occupancy.len() implies (
            #[trigger] s.occupancy.counters()[j]) < usize::MAX by {
                lemma_blocks_active_bounds(veh_a, bs, j, veh_a.len() as int);
            }
            assert forall|j: int| 0 <= j < s.occupancy.len() implies blocks_all(
                veh_a,
                bs,
                j,
                veh_a.len() as int,
            ) <= (#[trigger] s.occupancy.counters()[j]) by {
                match self.traffic_lights {
                    Some(tl) => {
                        lemma_locks_except_nonneg(
                            tl.nodes@,
                            tl.cycle as int,
                            j,
                            tl.nodes@.len() as int,
                        );
                    },
                    None => {},
                }
            }
        }
        let s = self.spawn.step(s);
        let ghost occ_c = s.occupancy.counters();
        let ghost veh_c = s.traffic.vehicles@;
        proof {
            let added = veh_c.subrange(veh_a.len() as int, veh_c.len() as int);
            assert forall|j: int| 0 <= j < s.occupancy.len() implies (#[trigger] occ_c[j])
                == lights_part(*self, j) + blocks_all(veh_c, bs, j, veh_c.len() as int) by {
                lemma_blocks_all_split(veh_c, bs, j, veh_a.len() as int, veh_c.len() as int);
                lemma_blocks_congruent(veh_c, veh_a, bs, j, veh_a.len() as int);
            }
            assert forall|m: int| 0 <= m < veh_c.len() implies (
            #[trigger] veh_c[m]).location < nodes && veh_c[m].destination_index
                < self.update.driver.costs@.len() by {
                if m >= veh_a.len() {
                    let g = choose|g: int|
                        0 <= g < self.spawn.city.sources@.len()
                            && self.spawn.city.sources@[g]@.contains(veh_c[m].location);
                    let i = choose|i: int|
                        0 <= i < self.spawn.city.sources@[g]@.len()
                            && self.spawn.city.sources@[g]@[i] == veh_c[m].location;
                    assert(self.spawn.city.sources@[g]@[i] < 4 * self.spawn.city.width
                        * self.spawn.city.height);
                }
            }
            assert forall|j: int| 0 <= j < s.occupancy.len() implies blocks_all(
                veh_c,
                bs,
                j,
                veh_c.len() as int,
            ) <= (#[trigger] occ_c[j]) by {
                match self.traffic_lights {
                    Some(tl) => {
                        lemma_locks_except_nonneg(
                            tl.nodes@,
                            tl.cycle as int,
                            j,
                            tl.nodes@.len() as int,
                        );
                    },
                    None => {},
                }
            }
            assert forall|j: int| 0 <= j < s.occupancy.len() implies (#[trigger] occ_c[j])
                + veh_c.len() <= usize::MAX by {
                let added2 = veh_c.subrange(veh_a.len() as int, veh_c.len() as int);
                lemma_blocks_all_split(veh_c, bs, j, veh_a.len() as int, veh_c.len() as int);
                lemma_blocks_congruent(veh_c, veh_a, bs, j, veh_a.len() as int);
                lemma_blocks_active_bounds(added2, bs, j, added2.len() as int);
                lemma_blocks_active_bounds(veh_a, bs, j, veh_a.len() as int);
            }
        }
        let s = self.update.step(s);
        let ghost occ_d = s.occupancy.counters();
        let ghost veh_d = s.traffic.vehicles@;
        proof {
            assert forall|j: int| 0 <= j < s.occupancy.len() implies (#[trigger] occ_d[j])
                == lights_part(*self, j) + blocks_active(veh_d, bs, j, veh_d.len() as int) by {}
        }
        let mut s = self.remove.step(s);
        proof {
            assert(s.traffic.vehicles@ == retained(veh_d));
            assert forall|j: int| 0 <= j < s.occupancy.len() implies (
            #[trigger] s.occupancy.counters()[j]) == lights_part(*self, j) + blocks_all(
                s.traffic.vehicles@,
                bs,
                j,
                s.traffic.vehicles@.len() as int,
            ) by {
                lemma_blocks_retained(veh_d, bs, j);
            }
            assert forall|m: int| 0 <= m < s.traffic.vehicles@.len() implies (
            #[trigger] s.traffic.vehicles@[m]).location < nodes
                && s.traffic.vehicles@[m].destination_index
                < self.update.driver.costs@.len() && !at_destination(
                s.traffic.vehicles@[m],
            ) by {
                lemma_retained_sub(veh_d, m);
            }
            lemma_retained_distinct(veh_d, bs);
            // the tick's transcript: the lights outcome, the spawn outcome,
            // the per-vehicle bracket chain, and the arrivals dropped
            assert(lights_outcome(old(self).traffic_lights, self.traffic_lights, occ_a, occ_b));
            assert(spawn_outcome(self.spawn, veh_a, occ_b, veh_c, occ_c));
            assert(bracket_chain(self.update, veh_c, veh_d, occ_c, occ_d));
            assert(s.traffic.vehicles@ == retained(veh_d));
            assert(s.occupancy.counters() == occ_d);
        }
        s.traffic.id = s.traffic.id + 1;
        s
    }
}

} // verus!
