use vstd::prelude::*;
use crate::occupancy::Occupancy;

verus! {

/// How often `v` occurs in `s`.
pub open spec fn count_in(s: Seq<usize>, v: int) -> int
    decreases s.len(),
{
    if s.len() == 0 {
        0
    } else {
        count_in(s.drop_last(), v) + if s.last() == v {
            1int
        } else {
            0int
        }
    }
}

pub proof fn lemma_count_in_nonneg(s: Seq<usize>, v: int)
    ensures
        count_in(s, v) >= 0,
    decreases s.len(),
{
    if s.len() > 0 {
        lemma_count_in_nonneg(s.drop_last(), v);
    }
}

proof fn lemma_count_in_take_step(s: Seq<usize>, v: int, i: int)
    requires
        0 <= i < s.len(),
    ensures
        count_in(s.take(i + 1), v) == count_in(s.take(i), v) + if s[i] == v {
            1int
        } else {
            0int
        },
{
    assert(s.take(i + 1).drop_last() =~= s.take(i));
    assert(s.take(i + 1).last() == s[i]);
}

proof fn lemma_count_in_take_all(s: Seq<usize>, v: int)
    ensures
        count_in(s.take(s.len() as int), v) == count_in(s, v),
{
    assert(s.take(s.len() as int) =~= s);
}

/// The locks the light groups hold on node `v`, summed over the first `k`
/// groups but leaving group `except` out.
pub open spec fn locks_except(groups: Seq<Vec<usize>>, except: int, v: int, k: int) -> int
    decreases k,
{
    if k <= 0 {
        0
    } else {
        locks_except(groups, except, v, k - 1) + if k - 1 == except {
            0int
        } else {
            count_in(groups[k - 1]@, v)
        }
    }
}

pub proof fn lemma_locks_except_nonneg(groups: Seq<Vec<usize>>, except: int, v: int, k: int)
    ensures
        locks_except(groups, except, v, k) >= 0,
    decreases k,
{
    if k > 0 {
        lemma_locks_except_nonneg(groups, except, v, k - 1);
        if k - 1 != except {
            lemma_count_in_nonneg(groups[k - 1]@, v);
        }
    }
}

/// Leaving group `c` out of the sum removes exactly that group's count.
pub proof fn lemma_locks_except_insert(groups: Seq<Vec<usize>>, c: int, v: int, k: int)
    requires
        0 <= c < k,
    ensures
        locks_except(groups, c, v, k) + count_in(groups[c]@, v) == locks_except(groups, -1, v, k),
    decreases k,
{
    if c < k - 1 {
        lemma_locks_except_insert(groups, c, v, k - 1);
    } else {
        assert(locks_except(groups, c, v, k - 1) == locks_except(groups, -1, v, k - 1)) by {
            lemma_locks_except_same(groups, c, v, k - 1);
        }
    }
}

/// The exception does not matter below it.
proof fn lemma_locks_except_same(groups: Seq<Vec<usize>>, c: int, v: int, k: int)
    requires
        c >= k,
    ensures
        locks_except(groups, c, v, k) == locks_except(groups, -1, v, k),
    decreases k,
{
    if k > 0 {
        lemma_locks_except_same(groups, c, v, k - 1);
    }
}

/// The sum over all groups but `except` dominates any single member group.
pub proof fn lemma_locks_except_ge_member(groups: Seq<Vec<usize>>, except: int, g: int, v: int, k: int)
    requires
        0 <= g < k,
        g != except,
    ensures
        locks_except(groups, except, v, k) >= count_in(groups[g]@, v),
    decreases k,
{
    if g == k - 1 {
        lemma_locks_except_nonneg(groups, except, v, k - 1);
    } else {
        lemma_locks_except_ge_member(groups, except, g, v, k - 1);
        if k - 1 != except {
            lemma_count_in_nonneg(groups[k - 1]@, v);
        }
    }
}

/// Every node named by the first `k` groups is a valid occupancy index.
pub open spec fn lights_wf(groups: Seq<Vec<usize>>, n: int) -> bool {
    forall|g: int, i: int|
        0 <= g < groups.len() && 0 <= i < groups[g]@.len() ==> (#[trigger] groups[g]@[i]) < n
}

/// The light invariant: above the base counts, every group except the open
/// one (`cycle`) holds one lock on each of its nodes, with multiplicity.
/// Exactly one group is open at every tick boundary.
pub open spec fn lights_consistent(
    groups: Seq<Vec<usize>>,
    cycle: int,
    base: Seq<usize>,
    occ: Seq<usize>,
) -> bool {
    &&& occ.len() == base.len()
    &&& forall|v: int|
        0 <= v < occ.len() ==> (#[trigger] occ[v]) == base[v] + locks_except(
            groups,
            cycle,
            v,
            groups.len() as int,
        )
}

/// A pluggable phase clock: `ready` says whether the current phase has
/// elapsed, `reset` starts counting the next phase.  The three spec
/// functions model an implementation exactly: what `ready` answers, the
/// timer it leaves behind, and the timer `reset` starts.
pub trait Timer: Sized {
    /// Whether the current phase has elapsed: the answer `ready` gives.
    spec fn firing(self) -> bool;

    /// The timer as one `ready` poll leaves it.
    spec fn polled(self) -> Self;

    /// The timer as `reset` leaves it.
    spec fn restarted(self) -> Self;

    fn ready(&mut self) -> (r: bool)
        ensures
            r == old(self).firing(),
            *final (self) == old(self).polled();

    fn reset(&mut self)
        ensures
            *final (self) == old(self).restarted();
}

/// A timer that holds a step target per phase and advances a counter on
/// every `ready` call.
pub struct CounterTimer {
    pub counter: usize,
    pub cycle: usize,
    pub targets: Vec<usize>,
}

impl CounterTimer {
    pub fn new(targets: Vec<usize>) -> (r: CounterTimer)
        ensures
            r.counter == 0,
            r.cycle == 0,
            r.targets == targets,
    {
        CounterTimer { counter: 0, cycle: 0, targets }
    }
}

impl Timer for CounterTimer {
    /// Fires once the counter reaches the current phase's step target.
    open spec fn firing(self) -> bool {
        self.cycle < self.targets@.len() && self.counter >= self.targets@[self.cycle as int]
    }

    /// Polling advances the counter by one, up to the counter's capacity.
    open spec fn polled(self) -> Self {
        CounterTimer {
            counter: if self.counter < usize::MAX {
                (self.counter + 1) as usize
            } else {
                self.counter
            },
            ..self
        }
    }

    /// Resetting zeroes the counter and turns to the next phase.
    open spec fn restarted(self) -> Self {
        CounterTimer {
            counter: 0,
            cycle: if self.targets@.len() > 0 {
                (((if self.cycle < usize::MAX {
                    self.cycle + 1
                } else {
                    0
                }) as usize) % self.targets@.len() as usize) as usize
            } else {
                self.cycle
            },
            ..self
        }
    }

    fn ready(&mut self) -> (r: bool) {
        let out = if self.cycle < self.targets.len() {
            self.counter >= self.targets[self.cycle]
        } else {
            false
        };
        if self.counter < usize::MAX {
            self.counter = self.counter + 1;
        }
        out
    }

    fn reset(&mut self) {
        self.counter = 0;
        if self.targets.len() > 0 {
            let bumped = if self.cycle < usize::MAX {
                self.cycle + 1
            } else {
                0
            };
            self.cycle = bumped % self.targets.len();
        }
    }
}

/// A timer that is always ready: every step advances the lights by one
/// phase.
pub struct InstantTimer {}

impl Timer for InstantTimer {
    open spec fn firing(self) -> bool {
        true
    }

    open spec fn polled(self) -> Self {
        self
    }

    open spec fn restarted(self) -> Self {
        self
    }

    fn ready(&mut self) -> (r: bool) {
        true
    }

    fn reset(&mut self) {
    }
}

/// Cyclic group activation: all groups but the open one keep their nodes
/// locked; when the timer fires, the open group closes and the next opens.
pub struct TrafficLights<T: Timer> {
    pub nodes: Vec<Vec<usize>>,
    pub timer: T,
    pub cycle: usize,
}

impl<T: Timer> TrafficLights<T> {
    /// Locks every group, then opens group zero.
    pub fn new(nodes: Vec<Vec<usize>>, timer: T, occupancy: &mut Occupancy) -> (r:
        TrafficLights<T>)
        requires
            nodes@.len() >= 1,
            lights_wf(nodes@, old(occupancy).len() as int),
            forall|v: int|
                0 <= v < old(occupancy).len() ==> (#[trigger] old(occupancy).counters()[v])
                    + locks_except(nodes@, -1, v, nodes@.len() as int) <= usize::MAX,
        ensures
            r.nodes == nodes,
            r.cycle == 0,
            final (occupancy).len() == old(occupancy).len(),
            lights_consistent(
                nodes@,
                0,
                old(occupancy).counters(),
                final (occupancy).counters(),
            ),
    {
        let out = TrafficLights { nodes, timer, cycle: 0 };
        out.lock_all(occupancy);
        proof {
            assert forall|v: int| 0 <= v < occupancy.len() implies occupancy.counters()[v]
                >= count_in(out.nodes@[0]@, v) by {
                lemma_locks_except_insert(out.nodes@, 0, v, out.nodes@.len() as int);
                lemma_locks_except_nonneg(out.nodes@, 0, v, out.nodes@.len() as int);
            }
        }
        out.unlock(0, occupancy);
        proof {
            assert forall|v: int| 0 <= v < occupancy.len() implies (
            #[trigger] occupancy.counters()[v]) == old(occupancy).counters()[v] + locks_except(
                out.nodes@,
                0,
                v,
                out.nodes@.len() as int,
            ) by {
                lemma_locks_except_insert(out.nodes@, 0, v, out.nodes@.len() as int);
            }
        }
        out
    }

    /// Adds one lock on every node of group `cycle`, with multiplicity.
    fn lock(&self, cycle: usize, occupancy: &mut Occupancy)
        requires
            cycle < self.nodes@.len(),
            lights_wf(self.nodes@, old(occupancy).len() as int),
            forall|v: int|
                0 <= v < old(occupancy).len() ==> (#[trigger] old(occupancy).counters()[v])
                    + count_in(self.nodes@[cycle as int]@, v) <= usize::MAX,
        ensures
            final (occupancy).len() == old(occupancy).len(),
            forall|v: int|
                0 <= v < old(occupancy).len() ==> (#[trigger] final (occupancy).counters()[v])
                    == old(occupancy).counters()[v] + count_in(self.nodes@[cycle as int]@, v),
    {
        let group = &self.nodes[cycle];
        let ghost gseq = group@;
        let mut i: usize = 0;
        while i < group.len()
            invariant
                i <= gseq.len(),
                group@ == gseq,
                gseq == self.nodes@[cycle as int]@,
                cycle < self.nodes@.len(),
                lights_wf(self.nodes@, old(occupancy).len() as int),
                occupancy.len() == old(occupancy).len(),
                forall|v: int|
                    0 <= v < old(occupancy).len() ==> (#[trigger] old(occupancy).counters()[v])
                        + count_in(gseq, v) <= usize::MAX,
                forall|v: int|
                    0 <= v < old(occupancy).len() ==> (#[trigger] occupancy.counters()[v]) == old(
                        occupancy,
                    ).counters()[v] + count_in(gseq.take(i as int), v),
            decreases gseq.len() - i,
        {
            let node = group[i];
            proof {
                vstd::std_specs::vec::axiom_spec_len(&occupancy.occupancy);
                lemma_count_in_take_step(gseq, node as int, i as int);
                lemma_count_in_prefix_le(gseq, node as int, i + 1);
                lemma_count_in_nonneg(gseq.take(i as int), node as int);
                assert(occupancy.counters()[node as int] < usize::MAX);
            }
            occupancy.lock(node);
            proof {
                assert forall|v: int| 0 <= v < old(occupancy).len() implies (
                #[trigger] occupancy.counters()[v]) == old(occupancy).counters()[v] + count_in(
                    gseq.take(i + 1),
                    v,
                ) by {
                    lemma_count_in_take_step(gseq, v, i as int);
                }
            }
            i = i + 1;
        }
        proof {
            assert forall|v: int| 0 <= v < old(occupancy).len() implies (
            #[trigger] occupancy.counters()[v]) == old(occupancy).counters()[v] + count_in(
                gseq,
                v,
            ) by {
                lemma_count_in_take_all(gseq, v);
            }
        }
    }

    /// Removes one lock from every node of group `cycle`, with
    /// multiplicity.
    fn unlock(&self, cycle: usize, occupancy: &mut Occupancy)
        requires
            cycle < self.nodes@.len(),
            lights_wf(self.nodes@, old(occupancy).len() as int),
            forall|v: int|
                0 <= v < old(occupancy).len() ==> (#[trigger] old(occupancy).counters()[v])
                    >= count_in(self.nodes@[cycle as int]@, v),
        ensures
            final (occupancy).len() == old(occupancy).len(),
            forall|v: int|
                0 <= v < old(occupancy).len() ==> (#[trigger] final (occupancy).counters()[v])
                    == old(occupancy).counters()[v] - count_in(self.nodes@[cycle as int]@, v),
    {
        let group = &self.nodes[cycle];
        let ghost gseq = group@;
        let mut i: usize = 0;
        while i < group.len()
            invariant
                i <= gseq.len(),
                group@ == gseq,
                gseq == self.nodes@[cycle as int]@,
                cycle < self.nodes@.len(),
                lights_wf(self.nodes@, old(occupancy).len() as int),
                occupancy.len() == old(occupancy).len(),
                forall|v: int|
                    0 <= v < old(occupancy).len() ==> (#[trigger] old(occupancy).counters()[v])
                        >= count_in(gseq, v),
                forall|v: int|
                    0 <= v < old(occupancy).len() ==> (#[trigger] occupancy.counters()[v]) == old(
                        occupancy,
                    ).counters()[v] - count_in(gseq.take(i as int), v),
            decreases gseq.len() - i,
        {
            let node = group[i];
            proof {
                vstd::std_specs::vec::axiom_spec_len(&occupancy.occupancy);
                lemma_count_in_take_step(gseq, node as int, i as int);
                lemma_count_in_prefix_le(gseq, node as int, i + 1);
                lemma_count_in_nonneg(gseq.take(i as int), node as int);
                assert(occupancy.counters()[node as int] > 0);
            }
            occupancy.unlock(node);
            proof {
                assert forall|v: int| 0 <= v < old(occupancy).len() implies (
                #[trigger] occupancy.counters()[v]) == old(occupancy).counters()[v] - count_in(
                    gseq.take(i + 1),
                    v,
                ) by {
                    lemma_count_in_take_step(gseq, v, i as int);
                }
            }
            i = i + 1;
        }
        proof {
            assert forall|v: int| 0 <= v < old(occupancy).len() implies (
            #[trigger] occupancy.counters()[v]) == old(occupancy).counters()[v] - count_in(
                gseq,
                v,
            ) by {
                lemma_count_in_take_all(gseq, v);
            }
        }
    }

    /// Locks every group in turn.
    fn lock_all(&self, occupancy: &mut Occupancy)
        requires
            lights_wf(self.nodes@, old(occupancy).len() as int),
            forall|v: int|
                0 <= v < old(occupancy).len() ==> (#[trigger] old(occupancy).counters()[v])
                    + locks_except(self.nodes@, -1, v, self.nodes@.len() as int) <= usize::MAX,
        ensures
            final (occupancy).len() == old(occupancy).len(),
            forall|v: int|
                0 <= v < old(occupancy).len() ==> (#[trigger] final (occupancy).counters()[v])
                    == old(occupancy).counters()[v] + locks_except(
                    self.nodes@,
                    -1,
                    v,
                    self.nodes@.len() as int,
                ),
    {
        let mut g: usize = 0;
        while g < self.nodes.len()
            invariant
                g <= self.nodes@.len(),
                lights_wf(self.nodes@, old(occupancy).len() as int),
                occupancy.len() == old(occupancy).len(),
                forall|v: int|
                    0 <= v < old(occupancy).len() ==> (#[trigger] old(occupancy).counters()[v])
                        + locks_except(self.nodes@, -1, v, self.nodes@.len() as int)
                        <= usize::MAX,
                forall|v: int|
                    0 <= v < old(occupancy).len() ==> (#[trigger] occupancy.counters()[v]) == old(
                        occupancy,
                    ).counters()[v] + locks_except(self.nodes@, -1, v, g as int),
            decreases self.nodes@.len() - g,
        {
            proof {
                assert forall|v: int| 0 <= v < old(occupancy).len() implies (
                #[trigger] occupancy.counters()[v]) + count_in(self.nodes@[g as int]@, v)
                    <= usize::MAX by {
                    lemma_locks_except_prefix_le(self.nodes@, v, g + 1, self.nodes@.len() as int);
                }
            }
            self.lock(g, occupancy);
            g = g + 1;
        }
    }

    /// One tick: when the timer fires, close the open group, open the next
    /// and reset the clock; otherwise leave everything as it stands.
    pub fn step(&mut self, occupancy: &mut Occupancy)
        requires
            old(self).cycle < old(self).nodes@.len(),
            lights_wf(old(self).nodes@, old(occupancy).len() as int),
            forall|v: int|
                0 <= v < old(occupancy).len() ==> (#[trigger] old(occupancy).counters()[v])
                    + count_in(old(self).nodes@[old(self).cycle as int]@, v) <= usize::MAX,
            forall|v: int|
                0 <= v < old(occupancy).len() ==> (#[trigger] old(occupancy).counters()[v])
                    >= locks_except(
                    old(self).nodes@,
                    old(self).cycle as int,
                    v,
                    old(self).nodes@.len() as int,
                ),
        ensures
            final (self).nodes == old(self).nodes,
            final (self).cycle < final (self).nodes@.len(),
            final (occupancy).len() == old(occupancy).len(),
            old(self).timer.firing() ==> final (self).cycle == (old(self).cycle + 1) % (old(self).nodes@.len() as int)
                && final (self).timer == old(self).timer.polled().restarted()
                && forall|v: int|
                0 <= v < old(occupancy).len() ==> (#[trigger] final (occupancy).counters()[v])
                    == old(occupancy).counters()[v] + count_in(
                    old(self).nodes@[old(self).cycle as int]@,
                    v,
                ) - count_in(old(self).nodes@[final (self).cycle as int]@, v),
            !old(self).timer.firing() ==> final (self).cycle == old(self).cycle
                && final (self).timer == old(self).timer.polled()
                && final (occupancy).counters() == old(occupancy).counters(),
    {
        if self.timer.ready() {
            proof {
                vstd::std_specs::vec::axiom_spec_len(&self.nodes);
            }
            let next_cycle = (self.cycle + 1) % self.nodes.len();
            let ghost mid = *occupancy;
            let cur = self.cycle;
            self.lock(cur, occupancy);
            proof {
                assert forall|v: int| 0 <= v < occupancy.len() implies (
                #[trigger] occupancy.counters()[v]) >= count_in(
                    self.nodes@[next_cycle as int]@,
                    v,
                ) by {
                    if next_cycle == cur {
                        lemma_count_in_nonneg(self.nodes@[cur as int]@, v);
                        lemma_locks_except_nonneg(
                            self.nodes@,
                            cur as int,
                            v,
                            self.nodes@.len() as int,
                        );
                    } else {
                        lemma_locks_except_ge_member(
                            self.nodes@,
                            cur as int,
                            next_cycle as int,
                            v,
                            self.nodes@.len() as int,
                        );
                        lemma_count_in_nonneg(self.nodes@[cur as int]@, v);
                    }
                }
            }
            self.unlock(next_cycle, occupancy);
            self.cycle = next_cycle;
            self.timer.reset();
        }
    }
}

/// Stepping the lights preserves the light invariant: after the open group
/// closes and the next opens, the counters again sit exactly one lock above
/// the base for every closed group's node.
pub proof fn lemma_lights_consistent_step(
    groups: Seq<Vec<usize>>,
    cycle: int,
    next: int,
    base: Seq<usize>,
    occ0: Seq<usize>,
    occ1: Seq<usize>,
)
    requires
        0 <= cycle < groups.len(),
        next == (cycle + 1) % (groups.len() as int),
        lights_consistent(groups, cycle, base, occ0),
        occ1.len() == occ0.len(),
        forall|v: int|
            0 <= v < occ0.len() ==> (#[trigger] occ1[v]) == occ0[v] + count_in(groups[cycle]@, v)
                - count_in(groups[next]@, v),
    ensures
        lights_consistent(groups, next, base, occ1),
{
    assert(0 <= next < groups.len()) by (nonlinear_arith)
        requires
            next == (cycle + 1) % (groups.len() as int),
            groups.len() >= 1,
    {}
    assert forall|v: int| 0 <= v < occ1.len() implies (#[trigger] occ1[v]) == base[v]
        + locks_except(groups, next, v, groups.len() as int) by {
        lemma_locks_except_insert(groups, cycle, v, groups.len() as int);
        lemma_locks_except_insert(groups, next, v, groups.len() as int);
    }
}

/// A prefix of the group list never locks more than the whole list.
proof fn lemma_locks_except_prefix_le(groups: Seq<Vec<usize>>, v: int, k: int, n: int)
    requires
        0 <= k <= n <= groups.len(),
    ensures
        locks_except(groups, -1, v, k) <= locks_except(groups, -1, v, n),
    decreases n - k,
{
    if k < n {
        lemma_locks_except_prefix_le(groups, v, k + 1, n);
        lemma_count_in_nonneg(groups[k]@, v);
    }
}

/// A prefix of a group never counts more than the whole group.
proof fn lemma_count_in_prefix_le(s: Seq<usize>, v: int, i: int)
    requires
        0 <= i <= s.len(),
    ensures
        count_in(s.take(i), v) <= count_in(s, v),
    decreases s.len() - i,
{
    if i < s.len() {
        lemma_count_in_take_step(s, v, i);
        lemma_count_in_prefix_le(s, v, i + 1);
    } else {
        lemma_count_in_take_all(s, v);
    }
}

} // verus!

