use vstd::prelude::*;
use crate::Vehicle;
use crate::network::{Edge, Network, edges_out_of, lemma_edges_out_of_complete,
    lemma_edges_out_of_sound};
use crate::occupancy::Occupancy;
use crate::random::RandomSource;

verus! {

/// Whether the graph holds an edge from `u` to `v`.
pub open spec fn step_edge(net: Network, u: usize, v: usize) -> bool {
    exists|e: Edge| #[trigger] net.has_edge(e) && e.from == u && e.to == v
}

/// A simple path through unlocked nodes: consecutive nodes are joined by
/// edges, no node repeats, and every node after the starting one is free.
pub open spec fn free_path(net: Network, occ: Seq<usize>, p: Seq<usize>) -> bool {
    &&& p.len() >= 1
    &&& forall|i: int| 0 <= i < p.len() ==> (#[trigger] p[i]) < net.nodes
    &&& forall|i: int| 0 <= i < p.len() - 1 ==> step_edge(net, #[trigger] p[i], p[i + 1])
    &&& forall|i: int, j: int| #![trigger p[i], p[j]] 0 <= i < j < p.len() ==> p[i] != p[j]
    &&& forall|i: int| 1 <= i < p.len() ==> occ[(#[trigger] p[i]) as int] == 0
}

/// Whether `v` validly extends the path `p`: reachable by an edge from its
/// end, unlocked, and not yet visited.
pub open spec fn valid_ext(net: Network, occ: Seq<usize>, p: Seq<usize>, v: usize) -> bool {
    &&& step_edge(net, p.last(), v)
    &&& v < net.nodes
    &&& occ[v as int] == 0
    &&& !p.contains(v)
}

/// Whether `q` is some valid one-node extension of `base`.
pub open spec fn is_extension(net: Network, occ: Seq<usize>, base: Seq<usize>, q: Seq<usize>) -> bool {
    exists|v: usize| #[trigger] valid_ext(net, occ, base, v) && q == base.push(v)
}

/// Whether one of `paths` reads exactly `q`.
pub open spec fn holds_path(paths: Seq<Vec<usize>>, q: Seq<usize>) -> bool {
    exists|k: int| 0 <= k < paths.len() && (#[trigger] paths[k])@ == q
}

/// A free path of at most `maxlen` nodes starting at `n`.
pub open spec fn rooted(net: Network, occ: Seq<usize>, n: usize, maxlen: int, q: Seq<usize>) -> bool {
    free_path(net, occ, q) && q[0] == n && q.len() <= maxlen
}

/// Whether `q` extends some held path of exactly `lte` nodes.
pub open spec fn sound_ext(
    net: Network,
    occ: Seq<usize>,
    paths: Seq<Vec<usize>>,
    lte: int,
    q: Seq<usize>,
) -> bool {
    exists|k0: int|
        0 <= k0 < paths.len() && (#[trigger] paths[k0])@.len() == lte && is_extension(
            net,
            occ,
            paths[k0]@,
            q,
        )
}

/// Every held path is a free path of at most `maxlen` nodes from `n`.
pub open spec fn all_rooted(
    net: Network,
    occ: Seq<usize>,
    n: usize,
    maxlen: int,
    paths: Seq<Vec<usize>>,
) -> bool {
    forall|k: int| 0 <= k < paths.len() ==> rooted(net, occ, n, maxlen, (#[trigger] paths[k])@)
}

/// Every free path of at most `maxlen` nodes from `n` is held.
pub open spec fn complete_upto(
    net: Network,
    occ: Seq<usize>,
    n: usize,
    maxlen: int,
    paths: Seq<Vec<usize>>,
) -> bool {
    forall|q: Seq<usize>| #[trigger] rooted(net, occ, n, maxlen, q) ==> holds_path(paths, q)
}

/// A bounded free path from `n` whose endpoint's remaining cost beats the
/// cost of staying at `n`.
pub open spec fn improving_path(
    net: Network,
    occ: Seq<usize>,
    costs: Seq<Option<u32>>,
    n: usize,
    maxlen: int,
    q: Seq<usize>,
) -> bool {
    &&& rooted(net, occ, n, maxlen, q)
    &&& costs[n as int] is Some
    &&& costs[q.last() as int] is Some
    &&& costs[q.last() as int].unwrap() < costs[n as int].unwrap()
}

/// One driving decision as a relation between the vehicle before and
/// after, under the lock counters the driver saw: the destination is kept;
/// the vehicle stays exactly when no bounded free path improves on its
/// node, and otherwise moves to the first step of a path whose endpoint
/// cost is least and, among those, whose length is least.
pub open spec fn drive_step(d: LookaheadDriver, occ: Seq<usize>, v0: Vehicle, v1: Vehicle) -> bool {
    &&& v1.destination == v0.destination
    &&& v1.destination_index == v0.destination_index
    &&& v1.location < d.network.nodes
    &&& v1.location != v0.location ==> exists|q: Seq<usize>|
        #[trigger] improving_path(
            d.network,
            occ,
            d.costs@[v0.destination_index as int]@,
            v0.location,
            d.lookahead + 1,
            q,
        ) && q.len() >= 2 && q[1] == v1.location && (forall|q2: Seq<usize>|
            #[trigger] rooted(d.network, occ, v0.location, d.lookahead + 1, q2)
                && d.costs@[v0.destination_index as int]@[q2.last() as int] is Some
                ==> d.costs@[v0.destination_index as int]@[q2.last() as int].unwrap()
                >= d.costs@[v0.destination_index as int]@[q.last() as int].unwrap()) && (forall|
            q2: Seq<usize>,
        |
            #[trigger] rooted(d.network, occ, v0.location, d.lookahead + 1, q2)
                && d.costs@[v0.destination_index as int]@[q2.last() as int] is Some
                && d.costs@[v0.destination_index as int]@[q2.last() as int].unwrap()
                == d.costs@[v0.destination_index as int]@[q.last() as int].unwrap() ==> q2.len()
                >= q.len())
    &&& v1.location == v0.location ==> forall|q: Seq<usize>|
        !(#[trigger] improving_path(
            d.network,
            occ,
            d.costs@[v0.destination_index as int]@,
            v0.location,
            d.lookahead + 1,
            q,
        ))
}

proof fn lemma_free_path_push(net: Network, occ: Seq<usize>, p: Seq<usize>, v: usize)
    requires
        free_path(net, occ, p),
        valid_ext(net, occ, p, v),
    ensures
        free_path(net, occ, p.push(v)),
{
    let q = p.push(v);
    assert forall|i: int, j: int| #![trigger q[i], q[j]] 0 <= i < j < q.len() implies q[i]
        != q[j] by {
        if j == q.len() - 1 {
            assert(!p.contains(v));
            if 0 <= i < p.len() && p[i] == v {
                assert(p.contains(v));
            }
        }
    }
    assert forall|i: int| 0 <= i < q.len() - 1 implies step_edge(net, #[trigger] q[i], q[i + 1]) by {
        if i == q.len() - 2 {
            assert(q[i] == p.last());
        }
    }
}

proof fn lemma_free_path_pop(net: Network, occ: Seq<usize>, q: Seq<usize>)
    requires
        free_path(net, occ, q),
        q.len() >= 2,
    ensures
        free_path(net, occ, q.drop_last()),
        valid_ext(net, occ, q.drop_last(), q.last()),
        q.drop_last().push(q.last()) == q,
{
    let p = q.drop_last();
    assert(p.last() == q[q.len() - 2]);
    assert(step_edge(net, q[q.len() - 2], q[q.len() - 1]));
    if p.contains(q.last()) {
        let i = choose|i: int| 0 <= i < p.len() && p[i] == q.last();
        assert(q[i] == q[q.len() - 1]);
    }
    assert(p.push(q.last()) =~= q);
}

/// A path held by either part of a concatenation is held by the whole.
proof fn lemma_holds_path_grow(a: Seq<Vec<usize>>, b: Seq<Vec<usize>>, q: Seq<usize>)
    requires
        holds_path(a, q) || holds_path(b, q),
    ensures
        holds_path(a + b, q),
{
    if holds_path(a, q) {
        let k = choose|k: int| 0 <= k < a.len() && (#[trigger] a[k])@ == q;
        assert((a + b)[k]@ == q);
    } else {
        let k = choose|k: int| 0 <= k < b.len() && (#[trigger] b[k])@ == q;
        assert((a + b)[a.len() + k]@ == q);
    }
}

fn path_contains(path: &Vec<usize>, v: usize) -> (r: bool)
    ensures
        r == path@.contains(v),
{
    let mut i: usize = 0;
    while i < path.len()
        invariant
            i <= path@.len(),
            forall|j: int| 0 <= j < i ==> (#[trigger] path@[j]) != v,
        decreases path@.len() - i,
    {
        if path[i] == v {
            return true;
        }
        i = i + 1;
    }
    false
}

fn clone_path(path: &Vec<usize>) -> (r: Vec<usize>)
    ensures
        r@ == path@,
{
    let mut out: Vec<usize> = Vec::new();
    let mut i: usize = 0;
    while i < path.len()
        invariant
            i <= path@.len(),
            out@ == path@.take(i as int),
        decreases path@.len() - i,
    {
        out.push(path[i]);
        proof {
            assert(out@ =~= path@.take(i + 1));
        }
        i = i + 1;
    }
    proof {
        assert(path@.take(path@.len() as int) =~= path@);
    }
    out
}

/// With single-step lookahead, every move of the driver lowers the
/// remaining cost: an improving path of at most two nodes ends at its own
/// first step, so the node moved to costs strictly less than the node
/// left.  (With deeper lookahead a detour's first step may cost more; only
/// the path's endpoint is guaranteed cheaper.)
pub proof fn lemma_single_step_move_lowers_cost(
    net: Network,
    occ: Seq<usize>,
    costs: Seq<Option<u32>>,
    n: usize,
    q: Seq<usize>,
    m: usize,
)
    requires
        improving_path(net, occ, costs, n, 2, q),
        q.len() >= 2,
        q[1] == m,
    ensures
        costs[m as int] is Some,
        costs[n as int] is Some,
        costs[m as int].unwrap() < costs[n as int].unwrap(),
{
    assert(q.len() == 2);
    assert(q.last() == q[1]);
}

/// Drives one vehicle one step: enumerate the simple unlocked paths of
/// bounded depth from its node, and step toward the reachable endpoint of
/// least remaining cost, when one strictly improves on staying put.
pub struct LookaheadDriver {
    pub lookahead: usize,
    pub network: Network,
    pub costs: Vec<Vec<Option<u32>>>,
}

impl LookaheadDriver {
    /// The cost tables cover every node, and the graph is well formed.
    pub open spec fn wf(self) -> bool {
        &&& self.network.wf()
        &&& self.lookahead < usize::MAX
        &&& forall|d: int|
            0 <= d < self.costs@.len() ==> (#[trigger] self.costs@[d])@.len()
                == self.network.nodes
    }

    pub fn new(lookahead: usize, network: Network, costs: Vec<Vec<Option<u32>>>) -> (r:
        LookaheadDriver)
        ensures
            r.lookahead == lookahead,
            r.network == network,
            r.costs == costs,
    {
        LookaheadDriver { lookahead, network, costs }
    }

    /// All one-node extensions of `path` through an out-edge of its end to
    /// an unlocked, unvisited node: nothing else, and none missing.
    fn extend(&self, path: &Vec<usize>, occupancy: &Occupancy) -> (r: Vec<Vec<usize>>)
        requires
            self.wf(),
            path@.len() >= 1,
            forall|i: int| 0 <= i < path@.len() ==> (#[trigger] path@[i]) < self.network.nodes,
            occupancy.len() == self.network.nodes,
        ensures
            forall|k: int|
                0 <= k < r@.len() ==> is_extension(
                    self.network,
                    occupancy.counters(),
                    path@,
                    (#[trigger] r@[k])@,
                ),
            forall|v: usize|
                #[trigger] valid_ext(self.network, occupancy.counters(), path@, v) ==> holds_path(
                    r@,
                    path@.push(v),
                ),
    {
        let last = path[path.len() - 1];
        let edges = self.network.get_out(last);
        let ghost eseq = edges@;
        let mut out: Vec<Vec<usize>> = Vec::new();
        let mut i: usize = 0;
        while i < edges.len()
            invariant
                i <= eseq.len(),
                edges@ == eseq,
                eseq == edges_out_of(self.network.all_edges(), last as int),
                self.wf(),
                last == path@.last(),
                path@.len() >= 1,
                forall|t: int| 0 <= t < path@.len() ==> (#[trigger] path@[t]) < self.network.nodes,
                occupancy.len() == self.network.nodes,
                forall|k: int|
                    0 <= k < out@.len() ==> is_extension(
                        self.network,
                        occupancy.counters(),
                        path@,
                        (#[trigger] out@[k])@,
                    ),
                forall|j: int|
                    0 <= j < i && valid_ext(
                        self.network,
                        occupancy.counters(),
                        path@,
                        (#[trigger] eseq[j]).to,
                    ) ==> holds_path(out@, path@.push(eseq[j].to)),
            decreases eseq.len() - i,
        {
            let e = edges[i];
            proof {
                lemma_edges_out_of_sound(self.network.all_edges(), last as int, i as int);
                assert(self.network.has_edge(e));
                assert(e.to < self.network.nodes);
            }
            let ghost prev = out@;
            if occupancy.is_unlocked(e.to) && !path_contains(path, e.to) {
                let mut neighbour_path = clone_path(path);
                neighbour_path.push(e.to);
                out.push(neighbour_path);
                proof {
                    assert(step_edge(self.network, last, e.to));
                    assert(valid_ext(self.network, occupancy.counters(), path@, e.to));
                    assert(out@.last()@ == path@.push(e.to));
                    assert(is_extension(
                        self.network,
                        occupancy.counters(),
                        path@,
                        out@.last()@,
                    ));
                }
            }
            proof {
                assert(forall|k: int| 0 <= k < prev.len() ==> #[trigger] out@[k] == prev[k]);
                assert forall|j: int|
                    0 <= j < i + 1 && valid_ext(
                        self.network,
                        occupancy.counters(),
                        path@,
                        (#[trigger] eseq[j]).to,
                    ) implies holds_path(out@, path@.push(eseq[j].to)) by {
                    if j < i {
                        let k = choose|k: int|
                            0 <= k < prev.len() && (#[trigger] prev[k])@ == path@.push(eseq[j].to);
                        assert(out@[k]@ == path@.push(eseq[j].to));
                    } else {
                        assert(out@[out@.len() - 1]@ == path@.push(e.to));
                    }
                }
            }
            i = i + 1;
        }
        proof {
            assert forall|v: usize|
                valid_ext(self.network, occupancy.counters(), path@, v) implies holds_path(
                out@,
                path@.push(v),
            ) by {
                let e = choose|e: Edge|
                    #[trigger] self.network.has_edge(e) && e.from == path@.last() && e.to == v;
                let j = choose|j: int|
                    0 <= j < self.network.all_edges().len() && self.network.all_edges()[j] == e;
                lemma_edges_out_of_complete(self.network.all_edges(), last as int, j);
                let t = choose|t: int| 0 <= t < eseq.len() && eseq[t] == e;
                assert(valid_ext(self.network, occupancy.counters(), path@, eseq[t].to));
            }
        }
        out
    }

    /// Extends every held path of exactly `length_to_extend` nodes in every
    /// valid way, and keeps all the held paths too.
    fn extend_all(
        &self,
        paths: Vec<Vec<usize>>,
        length_to_extend: usize,
        occupancy: &Occupancy,
    ) -> (r: Vec<Vec<usize>>)
        requires
            self.wf(),
            occupancy.len() == self.network.nodes,
            forall|k: int|
                0 <= k < paths@.len() ==> (#[trigger] paths@[k])@.len() >= 1 && forall|i: int|
                    0 <= i < paths@[k]@.len() ==> (#[trigger] paths@[k]@[i]) < self.network.nodes,
        ensures
            forall|k: int|
                0 <= k < r@.len() ==> holds_path(paths@, (#[trigger] r@[k])@) || sound_ext(
                    self.network,
                    occupancy.counters(),
                    paths@,
                    length_to_extend as int,
                    r@[k]@,
                ),
            forall|k0: int|
                0 <= k0 < paths@.len() ==> holds_path(r@, (#[trigger] paths@[k0])@),
            forall|k0: int, v: usize|
                0 <= k0 < paths@.len() && paths@[k0]@.len() == length_to_extend
                    && #[trigger] valid_ext(self.network, occupancy.counters(), paths@[k0]@, v)
                    ==> holds_path(r@, paths@[k0]@.push(v)),
    {
        let mut paths_out: Vec<Vec<usize>> = Vec::new();
        let mut i: usize = 0;
        while i < paths.len()
            invariant
                i <= paths@.len(),
                self.wf(),
                occupancy.len() == self.network.nodes,
                forall|k: int|
                    0 <= k < paths@.len() ==> (#[trigger] paths@[k])@.len() >= 1 && forall|t: int|
                        0 <= t < paths@[k]@.len() ==> (#[trigger] paths@[k]@[t])
                            < self.network.nodes,
                forall|k: int|
                    0 <= k < paths_out@.len() ==> sound_ext(
                        self.network,
                        occupancy.counters(),
                        paths@,
                        length_to_extend as int,
                        (#[trigger] paths_out@[k])@,
                    ),
                forall|k0: int, v: usize|
                    0 <= k0 < i && paths@[k0]@.len() == length_to_extend
                        && #[trigger] valid_ext(
                        self.network,
                        occupancy.counters(),
                        paths@[k0]@,
                        v,
                    ) ==> holds_path(paths_out@, paths@[k0]@.push(v)),
            decreases paths@.len() - i,
        {
            let ghost before = paths_out@;
            if paths[i].len() == length_to_extend {
                let mut extensions = self.extend(&paths[i], occupancy);
                let ghost ext = extensions@;
                paths_out.append(&mut extensions);
                proof {
                    assert(paths_out@ == before + ext);
                    assert forall|k: int| 0 <= k < paths_out@.len() implies sound_ext(
                        self.network,
                        occupancy.counters(),
                        paths@,
                        length_to_extend as int,
                        (#[trigger] paths_out@[k])@,
                    ) by {
                        if k >= before.len() {
                            assert(paths_out@[k] == ext[k - before.len()]);
                            assert(is_extension(
                                self.network,
                                occupancy.counters(),
                                paths@[i as int]@,
                                paths_out@[k]@,
                            ));
                        } else {
                            assert(paths_out@[k] == before[k]);
                            assert(sound_ext(
                                self.network,
                                occupancy.counters(),
                                paths@,
                                length_to_extend as int,
                                before[k]@,
                            ));
                        }
                    }
                    assert forall|k0: int, v: usize|
                        0 <= k0 < i + 1 && paths@[k0]@.len() == length_to_extend
                            && #[trigger] valid_ext(
                            self.network,
                            occupancy.counters(),
                            paths@[k0]@,
                            v,
                        ) implies holds_path(paths_out@, paths@[k0]@.push(v)) by {
                        if k0 < i {
                            lemma_holds_path_grow(before, ext, paths@[k0]@.push(v));
                        } else {
                            assert(holds_path(ext, paths@[k0]@.push(v)));
                            lemma_holds_path_grow(before, ext, paths@[k0]@.push(v));
                        }
                    }
                }
            }
            i = i + 1;
        }
        let ghost exts = paths_out@;
        let mut all = paths;
        let ghost pseq = all@;
        paths_out.append(&mut all);
        proof {
            assert(paths_out@ == exts + pseq);
            assert forall|k0: int| 0 <= k0 < pseq.len() implies holds_path(
                paths_out@,
                (#[trigger] pseq[k0])@,
            ) by {
                assert(holds_path(pseq, pseq[k0]@));
                lemma_holds_path_grow(exts, pseq, pseq[k0]@);
            }
            assert forall|k0: int, v: usize|
                0 <= k0 < pseq.len() && pseq[k0]@.len() == length_to_extend
                    && #[trigger] valid_ext(self.network, occupancy.counters(), pseq[k0]@, v)
                    implies holds_path(paths_out@, pseq[k0]@.push(v)) by {
                lemma_holds_path_grow(exts, pseq, pseq[k0]@.push(v));
            }
            assert forall|k: int| 0 <= k < paths_out@.len() implies holds_path(
                pseq,
                (#[trigger] paths_out@[k])@,
            ) || sound_ext(
                self.network,
                occupancy.counters(),
                pseq,
                length_to_extend as int,
                paths_out@[k]@,
            ) by {
                if k >= exts.len() {
                    assert(paths_out@[k]@ == pseq[k - exts.len()]@);
                    assert(holds_path(pseq, paths_out@[k]@));
                } else {
                    assert(paths_out@[k] == exts[k]);
                    assert(sound_ext(
                        self.network,
                        occupancy.counters(),
                        pseq,
                        length_to_extend as int,
                        exts[k]@,
                    ));
                }
            }
        }
        paths_out
    }

    /// One driving decision.  The vehicle keeps its destination; it stays
    /// put exactly when no bounded free path reaches a node of strictly
    /// lower remaining cost, and otherwise moves to the first step of such
    /// a path.  Which improving path is followed is left to the random
    /// tie-break.
    pub fn update(&self, vehicle: &mut Vehicle, occupancy: &Occupancy, rng: &mut RandomSource)
        requires
            self.wf(),
            old(vehicle).destination_index < self.costs@.len(),
            old(vehicle).location < self.network.nodes,
            occupancy.len() == self.network.nodes,
        ensures
            drive_step(*self, occupancy.counters(), *old(vehicle), *final (vehicle)),
    {
        let node = vehicle.location;
        let ghost ctable = self.costs@[vehicle.destination_index as int]@;
        let ghost occ = occupancy.counters();
        let ghost net = self.network;
        let ghost maxlen = self.lookahead + 1;
        let costs = &self.costs[vehicle.destination_index];
        let current = costs[node];
        if current.is_none() {
            return ;
        }
        let current_cost = current.unwrap();
        let mut paths: Vec<Vec<usize>> = Vec::new();
        let mut first: Vec<usize> = Vec::new();
        first.push(node);
        paths.push(first);
        proof {
            assert(paths@[0]@ =~= seq![node]);
            assert(free_path(net, occ, paths@[0]@));
            assert forall|q: Seq<usize>| #[trigger] rooted(net, occ, node, 1, q) implies
                holds_path(paths@, q) by {
                assert(q =~= paths@[0]@);
            }
            assert(complete_upto(net, occ, node, 1, paths@));
            assert(all_rooted(net, occ, node, 1, paths@));
            assert(complete_upto(net, occ, node, 0int + 1, paths@));
            assert(all_rooted(net, occ, node, 0int + 1, paths@));
        }
        let mut i: usize = 0;
        while i < self.lookahead
            invariant
                i <= self.lookahead,
                self.wf(),
                net == self.network,
                occ == occupancy.counters(),
                node < self.network.nodes,
                occupancy.len() == self.network.nodes,
                all_rooted(net, occ, node, i + 1, paths@),
                complete_upto(net, occ, node, i + 1, paths@),
            decreases self.lookahead - i,
        {
            let ghost old_paths = paths@;
            let ghost depth = i as int;
            let next = self.extend_all(paths, i + 1, occupancy);
            paths = next;
            i = i + 1;
            proof {
                assert forall|k: int| 0 <= k < paths@.len() implies rooted(
                    net,
                    occ,
                    node,
                    depth + 2,
                    (#[trigger] paths@[k])@,
                ) by {
                    if holds_path(old_paths, paths@[k]@) {
                        let k0 = choose|k0: int|
                            0 <= k0 < old_paths.len() && (#[trigger] old_paths[k0])@
                                == paths@[k]@;
                        assert(rooted(net, occ, node, depth + 1, old_paths[k0]@));
                    } else {
                        assert(sound_ext(net, occ, old_paths, depth + 1, paths@[k]@));
                        let k0 = choose|k0: int|
                            0 <= k0 < old_paths.len() && (#[trigger] old_paths[k0])@.len() == depth
                                + 1 && is_extension(net, occ, old_paths[k0]@, paths@[k]@);
                        let v = choose|v: usize|
                            #[trigger] valid_ext(net, occ, old_paths[k0]@, v) && paths@[k]@
                                == old_paths[k0]@.push(v);
                        assert(rooted(net, occ, node, depth + 1, old_paths[k0]@));
                        lemma_free_path_push(net, occ, old_paths[k0]@, v);
                    }
                }
                assert(all_rooted(net, occ, node, depth + 2, paths@));
                assert(all_rooted(net, occ, node, i + 1, paths@));
                assert forall|q: Seq<usize>|
                    #[trigger] rooted(net, occ, node, depth + 2, q) implies holds_path(
                    paths@,
                    q,
                ) by {
                    if q.len() <= depth + 1 {
                        assert(rooted(net, occ, node, depth + 1, q));
                        assert(holds_path(old_paths, q));
                        let k0 = choose|k0: int|
                            0 <= k0 < old_paths.len() && (#[trigger] old_paths[k0])@ == q;
                        assert(holds_path(paths@, old_paths[k0]@));
                    } else {
                        lemma_free_path_pop(net, occ, q);
                        let p = q.drop_last();
                        assert(rooted(net, occ, node, depth + 1, p));
                        assert(holds_path(old_paths, p));
                        let k0 = choose|k0: int|
                            0 <= k0 < old_paths.len() && (#[trigger] old_paths[k0])@ == p;
                        assert(valid_ext(net, occ, old_paths[k0]@, q.last()));
                        assert(holds_path(paths@, old_paths[k0]@.push(q.last())));
                        assert(old_paths[k0]@.push(q.last()) == q);
                    }
                }
                assert(complete_upto(net, occ, node, depth + 2, paths@));
                assert(complete_upto(net, occ, node, i + 1, paths@));
            }
        }
        proof {
            assert(all_rooted(net, occ, node, maxlen, paths@));
            assert(complete_upto(net, occ, node, maxlen, paths@));
        }
        // the least remaining cost over all reachable endpoints
        let mut lowest: Option<u32> = None;
        let mut lowest_k: usize = 0;
        let mut k: usize = 0;
        while k < paths.len()
            invariant
                k <= paths@.len(),
                self.wf(),
                net == self.network,
                ctable == self.costs@[vehicle.destination_index as int]@,
                costs@ == ctable,
                ctable.len() == self.network.nodes,
                vehicle.destination_index < self.costs@.len(),
                all_rooted(net, occ, node, maxlen, paths@),
                lowest is None ==> forall|t: int|
                    0 <= t < k ==> ctable[(#[trigger] paths@[t])@.last() as int] is None,
                lowest is Some ==> lowest_k < k && ctable[paths@[lowest_k as int]@.last() as int]
                    == lowest,
                lowest is Some ==> forall|t: int|
                    0 <= t < k && ctable[(#[trigger] paths@[t])@.last() as int] is Some
                        ==> ctable[paths@[t]@.last() as int].unwrap() >= lowest.unwrap(),
            decreases paths@.len() - k,
        {
            let p = &paths[k];
            let last = p[p.len() - 1];
            proof {
                assert(rooted(net, occ, node, maxlen, paths@[k as int]@));
                assert(paths@[k as int]@.last() < self.network.nodes);
            }
            let c = costs[last];
            if c.is_some() {
                if lowest.is_none() || c.unwrap() < lowest.unwrap() {
                    lowest = c;
                    lowest_k = k;
                }
            }
            k = k + 1;
        }
        if lowest.is_some() && lowest.unwrap() < current_cost {
            let b = lowest.unwrap();
            // candidates reach cost `b`; prefer the shortest ones
            let ghost candidate = |t: int|
                ctable[paths@[t]@.last() as int] is Some && ctable[paths@[t]@.last() as int].unwrap()
                    == b;
            proof {
                assert forall|t: int|
                    0 <= t < paths@.len() && #[trigger] candidate(t) implies paths@[t]@.len()
                    >= 2 by {
                    if paths@[t]@.len() == 1 {
                        assert(rooted(net, occ, node, maxlen, paths@[t]@));
                        assert(paths@[t]@.last() == paths@[t]@[0]);
                        assert(paths@[t]@[0] == node);
                    }
                }
                assert(candidate(lowest_k as int));
            }
            let mut shortest: usize = usize::MAX;
            let mut k2: usize = 0;
            while k2 < paths.len()
                invariant
                    k2 <= paths@.len(),
                    self.wf(),
                    net == self.network,
                    ctable == self.costs@[vehicle.destination_index as int]@,
                    costs@ == ctable,
                    ctable.len() == self.network.nodes,
                    vehicle.destination_index < self.costs@.len(),
                    candidate == (|t: int|
                        ctable[paths@[t]@.last() as int] is Some
                            && ctable[paths@[t]@.last() as int].unwrap() == b),
                    all_rooted(net, occ, node, maxlen, paths@),
                    lowest_k < paths@.len() && candidate(lowest_k as int),
                    shortest == usize::MAX || exists|t: int|
                        0 <= t < k2 && #[trigger] candidate(t) && paths@[t]@.len() == shortest,
                    forall|t: int|
                        0 <= t < k2 && #[trigger] candidate(t) ==> paths@[t]@.len() >= shortest,
                decreases paths@.len() - k2,
            {
                let p = &paths[k2];
                let last = p[p.len() - 1];
                proof {
                    assert(rooted(net, occ, node, maxlen, paths@[k2 as int]@));
                    assert(paths@[k2 as int]@.last() < self.network.nodes);
                }
                let c = costs[last];
                if c.is_some() && c.unwrap() == b {
                    proof {
                        assert(candidate(k2 as int));
                    }
                    if p.len() < shortest {
                        shortest = p.len();
                    }
                }
                k2 = k2 + 1;
            }
            proof {
                assert(candidate(lowest_k as int));
                if shortest == usize::MAX {
                    assert(paths@[lowest_k as int]@.len() >= shortest);
                    assert(paths@[lowest_k as int]@.len() <= usize::MAX) by {
                        assert(rooted(net, occ, node, maxlen, paths@[lowest_k as int]@));
                    }
                    assert(paths@[lowest_k as int]@.len() == shortest);
                }
            }
            let ghost fstep = |m: usize|
                exists|q: Seq<usize>|
                    #[trigger] improving_path(net, occ, ctable, node, maxlen, q) && q.len() >= 2
                        && q[1] == m && ctable[q.last() as int] == Some(b) && q.len()
                        == shortest;
            let mut firsts: Vec<usize> = Vec::new();
            let mut k3: usize = 0;
            while k3 < paths.len()
                invariant
                    k3 <= paths@.len(),
                    self.wf(),
                    net == self.network,
                    ctable == self.costs@[vehicle.destination_index as int]@,
                    costs@ == ctable,
                    ctable.len() == self.network.nodes,
                    vehicle.destination_index < self.costs@.len(),
                    node < self.network.nodes,
                    ctable[node as int] is Some,
                    ctable[node as int].unwrap() == current_cost,
                    b < current_cost,
                    candidate == (|t: int|
                        ctable[paths@[t]@.last() as int] is Some
                            && ctable[paths@[t]@.last() as int].unwrap() == b),
                    fstep == (|m: usize|
                        exists|q: Seq<usize>|
                            #[trigger] improving_path(net, occ, ctable, node, maxlen, q) && q.len()
                                >= 2 && q[1] == m && ctable[q.last() as int] == Some(b) && q.len()
                                == shortest),
                    all_rooted(net, occ, node, maxlen, paths@),
                    exists|t: int|
                        0 <= t < paths@.len() && #[trigger] candidate(t) && paths@[t]@.len()
                            == shortest,
                    forall|j: int| 0 <= j < firsts@.len() ==> fstep(#[trigger] firsts@[j]),
                    forall|t: int|
                        0 <= t < k3 && #[trigger] candidate(t) && paths@[t]@.len() == shortest
                            ==> firsts@.len() >= 1,
                decreases paths@.len() - k3,
            {
                let p = &paths[k3];
                let last = p[p.len() - 1];
                proof {
                    assert(rooted(net, occ, node, maxlen, paths@[k3 as int]@));
                    assert(paths@[k3 as int]@.last() < self.network.nodes);
                }
                let c = costs[last];
                if c.is_some() && c.unwrap() == b && p.len() == shortest {
                    proof {
                        assert(candidate(k3 as int));
                        assert(paths@[k3 as int]@.len() >= 2) by {
                            if paths@[k3 as int]@.len() == 1 {
                                assert(paths@[k3 as int]@.last() == paths@[k3 as int]@[0]);
                                assert(paths@[k3 as int]@[0] == node);
                            }
                        }
                        assert(improving_path(net, occ, ctable, node, maxlen, paths@[k3 as int]@));
                        assert(ctable[paths@[k3 as int]@.last() as int] == Some(b));
                        assert(paths@[k3 as int]@.len() == shortest);
                    }
                    firsts.push(p[1]);
                    proof {
                        assert(firsts@.last() == paths@[k3 as int]@[1]);
                        assert(fstep(paths@[k3 as int]@[1]));
                    }
                }
                k3 = k3 + 1;
            }
            proof {
                let t = choose|t: int|
                    0 <= t < paths@.len() && #[trigger] candidate(t) && paths@[t]@.len()
                        == shortest;
                assert(firsts@.len() >= 1);
            }
            let pick = rng.below(firsts.len());
            let target = firsts[pick];
            proof {
                assert(fstep(target));
                let q = choose|q: Seq<usize>|
                    #[trigger] improving_path(net, occ, ctable, node, maxlen, q) && q.len() >= 2
                        && q[1] == target && ctable[q.last() as int] == Some(b) && q.len()
                        == shortest;
                assert(q[1] != q[0]);
                assert(q[0] == node);
                assert(target != node);
                assert(q[1] < self.network.nodes);
                // no bounded free path reaches a cheaper endpoint, and none
                // reaches this cost in fewer steps
                assert forall|q2: Seq<usize>|
                    #[trigger] rooted(net, occ, node, maxlen, q2) && ctable[q2.last() as int]
                        is Some implies ctable[q2.last() as int].unwrap()
                    >= ctable[q.last() as int].unwrap() by {
                    assert(holds_path(paths@, q2));
                    let t = choose|t: int| 0 <= t < paths@.len() && (#[trigger] paths@[t])@ == q2;
                }
                assert forall|q2: Seq<usize>|
                    #[trigger] rooted(net, occ, node, maxlen, q2) && ctable[q2.last() as int]
                        is Some && ctable[q2.last() as int].unwrap()
                        == ctable[q.last() as int].unwrap() implies q2.len() >= q.len() by {
                    assert(holds_path(paths@, q2));
                    let t = choose|t: int| 0 <= t < paths@.len() && (#[trigger] paths@[t])@ == q2;
                    assert(candidate(t));
                }
            }
            vehicle.location = target;
        } else {
            proof {
                assert forall|q: Seq<usize>|
                    !(#[trigger] improving_path(net, occ, ctable, node, maxlen, q)) by {
                    if improving_path(net, occ, ctable, node, maxlen, q) {
                        assert(rooted(net, occ, node, maxlen, q));
                        assert(holds_path(paths@, q));
                        let t = choose|t: int|
                            0 <= t < paths@.len() && (#[trigger] paths@[t])@ == q;
                        assert(ctable[paths@[t]@.last() as int] is Some);
                    }
                }
            }
        }
    }
}

} // verus!
