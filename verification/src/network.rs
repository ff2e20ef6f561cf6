use vstd::prelude::*;
use vstd::pervasive::VecAdditionalExecFns;

verus! {

/// A directed edge of the road graph, with a small unsigned cost.
#[derive(Clone, Copy, Debug, PartialEq, Eq, Structural)]
pub struct Edge {
    pub from: usize,
    pub to: usize,
    pub cost: u8,
}

/// The edges of `edges` whose target is `v`, in input order.
pub open spec fn edges_into(edges: Seq<Edge>, v: int) -> Seq<Edge>
    decreases edges.len(),
{
    if edges.len() == 0 {
        Seq::empty()
    } else {
        edges_into(edges.drop_last(), v) + (if edges.last().to == v {
            seq![edges.last()]
        } else {
            Seq::empty()
        })
    }
}

/// The edges of `edges` whose source is `u`, in input order.
pub open spec fn edges_out_of(edges: Seq<Edge>, u: int) -> Seq<Edge>
    decreases edges.len(),
{
    if edges.len() == 0 {
        Seq::empty()
    } else {
        edges_out_of(edges.drop_last(), u) + (if edges.last().from == u {
            seq![edges.last()]
        } else {
            Seq::empty()
        })
    }
}

proof fn lemma_edges_into_take_step(edges: Seq<Edge>, v: int, k: int)
    requires
        0 <= k < edges.len(),
    ensures
        edges_into(edges.take(k + 1), v) == edges_into(edges.take(k), v) + (if edges[k].to == v {
            seq![edges[k]]
        } else {
            Seq::<Edge>::empty()
        }),
{
    assert(edges.take(k + 1).drop_last() =~= edges.take(k));
    assert(edges.take(k + 1).last() == edges[k]);
}

proof fn lemma_edges_out_of_take_step(edges: Seq<Edge>, u: int, k: int)
    requires
        0 <= k < edges.len(),
    ensures
        edges_out_of(edges.take(k + 1), u) == edges_out_of(edges.take(k), u) + (if edges[k].from
            == u {
            seq![edges[k]]
        } else {
            Seq::<Edge>::empty()
        }),
{
    assert(edges.take(k + 1).drop_last() =~= edges.take(k));
    assert(edges.take(k + 1).last() == edges[k]);
}

/// Every edge of `edges_into(edges, v)` is an edge of `edges` with target `v`.
proof fn lemma_edges_into_sound(edges: Seq<Edge>, v: int, i: int)
    requires
        0 <= i < edges_into(edges, v).len(),
    ensures
        edges.contains(edges_into(edges, v)[i]),
        edges_into(edges, v)[i].to == v,
    decreases edges.len(),
{
    if edges.len() > 0 {
        if i < edges_into(edges.drop_last(), v).len() {
            lemma_edges_into_sound(edges.drop_last(), v, i);
            assert(edges.drop_last().contains(edges_into(edges.drop_last(), v)[i]));
            let j = choose|j: int|
                0 <= j < edges.drop_last().len() && edges.drop_last()[j] == edges_into(
                    edges.drop_last(),
                    v,
                )[i];
            assert(edges[j] == edges_into(edges, v)[i]);
        } else {
            assert(edges[edges.len() - 1] == edges_into(edges, v)[i]);
        }
    }
}

/// Every edge of `edges_out_of(edges, u)` is an edge of `edges` with
/// source `u`.
pub proof fn lemma_edges_out_of_sound(edges: Seq<Edge>, u: int, i: int)
    requires
        0 <= i < edges_out_of(edges, u).len(),
    ensures
        edges.contains(edges_out_of(edges, u)[i]),
        edges_out_of(edges, u)[i].from == u,
    decreases edges.len(),
{
    if edges.len() > 0 {
        if i < edges_out_of(edges.drop_last(), u).len() {
            lemma_edges_out_of_sound(edges.drop_last(), u, i);
            assert(edges.drop_last().contains(edges_out_of(edges.drop_last(), u)[i]));
            let j = choose|j: int|
                0 <= j < edges.drop_last().len() && edges.drop_last()[j] == edges_out_of(
                    edges.drop_last(),
                    u,
                )[i];
            assert(edges[j] == edges_out_of(edges, u)[i]);
        } else {
            assert(edges[edges.len() - 1] == edges_out_of(edges, u)[i]);
        }
    }
}

/// Every edge of `edges` with source `u` occurs in `edges_out_of(edges, u)`.
pub proof fn lemma_edges_out_of_complete(edges: Seq<Edge>, u: int, k: int)
    requires
        0 <= k < edges.len(),
        edges[k].from == u,
    ensures
        edges_out_of(edges, u).contains(edges[k]),
    decreases edges.len(),
{
    if k == edges.len() - 1 {
        assert(edges_out_of(edges, u).last() == edges[k]);
        assert(edges_out_of(edges, u).contains(edges[k]));
    } else {
        lemma_edges_out_of_complete(edges.drop_last(), u, k);
        let i = choose|i: int|
            0 <= i < edges_out_of(edges.drop_last(), u).len() && edges_out_of(
                edges.drop_last(),
                u,
            )[i] == edges.drop_last()[k];
        assert(edges_out_of(edges, u)[i] == edges[k]);
        assert(edges_out_of(edges, u).contains(edges[k]));
    }
}

/// Every edge of `edges` with target `v` occurs in `edges_into(edges, v)`.
proof fn lemma_edges_into_complete(edges: Seq<Edge>, v: int, k: int)
    requires
        0 <= k < edges.len(),
        edges[k].to == v,
    ensures
        edges_into(edges, v).contains(edges[k]),
    decreases edges.len(),
{
    if k == edges.len() - 1 {
        assert(edges_into(edges, v).last() == edges[k]);
        assert(edges_into(edges, v).contains(edges[k]));
    } else {
        lemma_edges_into_complete(edges.drop_last(), v, k);
        let i = choose|i: int|
            0 <= i < edges_into(edges.drop_last(), v).len() && edges_into(edges.drop_last(), v)[i]
                == edges.drop_last()[k];
        assert(edges_into(edges, v)[i] == edges[k]);
        assert(edges_into(edges, v).contains(edges[k]));
    }
}

/// How many entries of `s` are true.
pub open spec fn count_true(s: Seq<bool>) -> int
    decreases s.len(),
{
    if s.len() == 0 {
        0
    } else {
        count_true(s.drop_last()) + if s.last() {
            1int
        } else {
            0int
        }
    }
}

proof fn lemma_count_true_bounds(s: Seq<bool>)
    ensures
        0 <= count_true(s) <= s.len(),
    decreases s.len(),
{
    if s.len() > 0 {
        lemma_count_true_bounds(s.drop_last());
    }
}

proof fn lemma_count_true_zero(s: Seq<bool>)
    requires
        forall|v: int| 0 <= v < s.len() ==> !s[v],
    ensures
        count_true(s) == 0,
    decreases s.len(),
{
    if s.len() > 0 {
        lemma_count_true_zero(s.drop_last());
    }
}

proof fn lemma_count_true_set(s: Seq<bool>, i: int)
    requires
        0 <= i < s.len(),
        !s[i],
    ensures
        count_true(s.update(i, true)) == count_true(s) + 1,
    decreases s.len(),
{
    if i == s.len() - 1 {
        assert(s.update(i, true).drop_last() =~= s.drop_last());
    } else {
        assert(s.update(i, true).drop_last() =~= s.drop_last().update(i, true));
        lemma_count_true_set(s.drop_last(), i);
    }
}

proof fn lemma_count_true_unset_below_len(s: Seq<bool>, i: int)
    requires
        0 <= i < s.len(),
        !s[i],
    ensures
        count_true(s) <= s.len() - 1,
    decreases s.len(),
{
    if i == s.len() - 1 {
        lemma_count_true_bounds(s.drop_last());
    } else {
        lemma_count_true_unset_below_len(s.drop_last(), i);
    }
}

/// The node index of tile `(x, y)` on a `width`-wide grid.
pub open spec fn grid_index(x: int, y: int, width: int) -> int {
    y * width + x
}

/// The pair of opposite edges that `delta` contributes at tile `(x, y)`,
/// or nothing when the displaced tile falls off the grid.
pub open spec fn grid_cell_edges(
    width: int,
    height: int,
    cost: u8,
    delta: (usize, usize),
    x: int,
    y: int,
) -> Seq<Edge> {
    let xb = x + delta.0;
    let yb = y + delta.1;
    if xb < width && yb < height {
        seq![
            Edge {
                from: grid_index(x, y, width) as usize,
                to: grid_index(xb, yb, width) as usize,
                cost,
            },
            Edge {
                from: grid_index(xb, yb, width) as usize,
                to: grid_index(x, y, width) as usize,
                cost,
            },
        ]
    } else {
        Seq::empty()
    }
}

/// The edges `delta` contributes at tiles `(x, 0) .. (x, yc)`.
pub open spec fn grid_edges_y(
    width: int,
    height: int,
    cost: u8,
    delta: (usize, usize),
    x: int,
    yc: int,
) -> Seq<Edge>
    decreases yc,
{
    if yc <= 0 {
        Seq::empty()
    } else {
        grid_edges_y(width, height, cost, delta, x, yc - 1) + grid_cell_edges(
            width,
            height,
            cost,
            delta,
            x,
            yc - 1,
        )
    }
}

/// The edges `delta` contributes at columns `0 .. xc`.
pub open spec fn grid_edges_x(
    width: int,
    height: int,
    cost: u8,
    delta: (usize, usize),
    xc: int,
) -> Seq<Edge>
    decreases xc,
{
    if xc <= 0 {
        Seq::empty()
    } else {
        grid_edges_x(width, height, cost, delta, xc - 1) + grid_edges_y(
            width,
            height,
            cost,
            delta,
            xc - 1,
            height,
        )
    }
}

/// The edges the first `k` deltas contribute, in order.
pub open spec fn grid_edges(
    width: int,
    height: int,
    cost: u8,
    deltas: Seq<(usize, usize)>,
    k: int,
) -> Seq<Edge>
    decreases k,
{
    if k <= 0 {
        Seq::empty()
    } else {
        grid_edges(width, height, cost, deltas, k - 1) + grid_edges_x(
            width,
            height,
            cost,
            deltas[k - 1],
            width,
        )
    }
}

impl Edge {
    pub fn new(from: usize, to: usize, cost: u8) -> (r: Edge)
        ensures
            r == (Edge { from, to, cost }),
    {
        Edge { from, to, cost }
    }

    /// The two displacements whose mirrored pairs give 4-adjacency.
    pub fn create_4_neighbour_deltas() -> (r: Vec<(usize, usize)>)
        ensures
            r@ == seq![(1usize, 0usize), (0usize, 1usize)],
    {
        let mut out: Vec<(usize, usize)> = Vec::new();
        out.push((1, 0));
        out.push((0, 1));
        proof {
            assert(out@ =~= seq![(1usize, 0usize), (0usize, 1usize)]);
        }
        out
    }

    /// The three displacements whose mirrored pairs give 8-adjacency.
    pub fn create_8_neighbour_deltas() -> (r: Vec<(usize, usize)>)
        ensures
            r@ == seq![(1usize, 0usize), (1usize, 1usize), (0usize, 1usize)],
    {
        let mut out: Vec<(usize, usize)> = Vec::new();
        out.push((1, 0));
        out.push((1, 1));
        out.push((0, 1));
        proof {
            assert(out@ =~= seq![(1usize, 0usize), (1usize, 1usize), (0usize, 1usize)]);
        }
        out
    }

    /// Both directions of every in-grid displacement by one of
    /// `neighbour_deltas`, tile by tile, delta-major.
    pub fn create_grid(
        width: usize,
        height: usize,
        cost: u8,
        neighbour_deltas: Vec<(usize, usize)>,
    ) -> (r: Vec<Edge>)
        requires
            width * height <= usize::MAX,
            forall|k: int|
                0 <= k < neighbour_deltas@.len() ==> (#[trigger] neighbour_deltas@[k]).0 + width
                    <= usize::MAX && neighbour_deltas@[k].1 + height <= usize::MAX,
        ensures
            r@ == grid_edges(
                width as int,
                height as int,
                cost,
                neighbour_deltas@,
                neighbour_deltas@.len() as int,
            ),
            forall|k: int|
                0 <= k < r@.len() ==> (#[trigger] r@[k]).from < width * height && r@[k].to < width
                    * height && r@[k].cost == cost,
    {
        let w = width;
        let h = height;
        let mut out: Vec<Edge> = Vec::new();
        let mut di: usize = 0;
        while di < neighbour_deltas.len()
            invariant
                di <= neighbour_deltas@.len(),
                width * height <= usize::MAX,
                forall|k: int|
                    0 <= k < neighbour_deltas@.len() ==> (#[trigger] neighbour_deltas@[k]).0
                        + width <= usize::MAX && neighbour_deltas@[k].1 + height <= usize::MAX,
                w == width,
                h == height,
                out@ == grid_edges(w as int, h as int, cost, neighbour_deltas@, di as int),
                forall|k: int|
                    0 <= k < out@.len() ==> (#[trigger] out@[k]).from < width * height
                        && out@[k].to < width * height && out@[k].cost == cost,
            decreases neighbour_deltas@.len() - di,
        {
            let delta = neighbour_deltas[di];
            let mut x: usize = 0;
            while x < w
                invariant
                    x <= w,
                    di < neighbour_deltas@.len(),
                    delta == neighbour_deltas@[di as int],
                    width * height <= usize::MAX,
                    delta.0 + width <= usize::MAX,
                    delta.1 + height <= usize::MAX,
                    w == width,
                    h == height,
                    out@ == grid_edges(w as int, h as int, cost, neighbour_deltas@, di as int)
                        + grid_edges_x(w as int, h as int, cost, delta, x as int),
                    forall|k: int|
                        0 <= k < out@.len() ==> (#[trigger] out@[k]).from < width * height
                            && out@[k].to < width * height && out@[k].cost == cost,
                decreases w - x,
            {
                let mut y: usize = 0;
                while y < h
                    invariant
                        y <= h,
                        x < w,
                        di < neighbour_deltas@.len(),
                        delta == neighbour_deltas@[di as int],
                        width * height <= usize::MAX,
                        delta.0 + width <= usize::MAX,
                        delta.1 + height <= usize::MAX,
                        w == width,
                        h == height,
                        out@ == grid_edges(w as int, h as int, cost, neighbour_deltas@, di as int)
                            + grid_edges_x(w as int, h as int, cost, delta, x as int)
                            + grid_edges_y(w as int, h as int, cost, delta, x as int, y as int),
                        forall|k: int|
                            0 <= k < out@.len() ==> (#[trigger] out@[k]).from < width * height
                                && out@[k].to < width * height && out@[k].cost == cost,
                    decreases h - y,
                {
                    let x_b = x + delta.0;
                    let y_b = y + delta.1;
                    if x_b < w && y_b < h {
                        proof {
                            assert(y * w + x < w * h && y_b * w + x_b < w * h) by (nonlinear_arith)
                                requires
                                    x < w,
                                    y < h,
                                    x_b < w,
                                    y_b < h,
                                    w * h <= usize::MAX,
                            {}
                        }
                        let index_a = (y * w) + x;
                        let index_b = (y_b * w) + x_b;
                        out.push(Edge { from: index_a, to: index_b, cost });
                        out.push(Edge { from: index_b, to: index_a, cost });
                        proof {
                            assert(out@ =~= grid_edges(
                                w as int,
                                h as int,
                                cost,
                                neighbour_deltas@,
                                di as int,
                            ) + grid_edges_x(w as int, h as int, cost, delta, x as int)
                                + grid_edges_y(
                                w as int,
                                h as int,
                                cost,
                                delta,
                                x as int,
                                y + 1,
                            ));
                        }
                    } else {
                        proof {
                            assert(grid_cell_edges(
                                w as int,
                                h as int,
                                cost,
                                delta,
                                x as int,
                                y as int,
                            ) =~= Seq::<Edge>::empty());
                            assert(out@ =~= grid_edges(
                                w as int,
                                h as int,
                                cost,
                                neighbour_deltas@,
                                di as int,
                            ) + grid_edges_x(w as int, h as int, cost, delta, x as int)
                                + grid_edges_y(
                                w as int,
                                h as int,
                                cost,
                                delta,
                                x as int,
                                y + 1,
                            ));
                        }
                    }
                    y = y + 1;
                }
                x = x + 1;
            }
            proof {
                assert(out@ =~= grid_edges(
                    w as int,
                    h as int,
                    cost,
                    neighbour_deltas@,
                    di + 1,
                ));
            }
            di = di + 1;
        }
        out
    }
}

/// A directed graph over nodes `0..nodes`, with each node's incoming and
/// outgoing edges stored for direct enumeration.
pub struct Network {
    pub nodes: usize,
    pub edges: Ghost<Seq<Edge>>,
    pub edges_out: Vec<Vec<Edge>>,
    pub edges_in: Vec<Vec<Edge>>,
}

impl Network {
    /// The edges this network was built from.
    pub open spec fn all_edges(self) -> Seq<Edge> {
        self.edges@
    }

    /// Whether `e` is one of the graph's edges.
    pub open spec fn has_edge(self, e: Edge) -> bool {
        self.all_edges().contains(e)
    }

    /// The adjacency lists partition the edge list by source and by target,
    /// in input order.
    pub open spec fn wf(self) -> bool {
        &&& self.edges_out@.len() == self.nodes
        &&& self.edges_in@.len() == self.nodes
        &&& forall|v: int|
            0 <= v < self.nodes ==> (#[trigger] self.edges_in@[v])@ == edges_into(
                self.all_edges(),
                v,
            )
        &&& forall|u: int|
            0 <= u < self.nodes ==> (#[trigger] self.edges_out@[u])@ == edges_out_of(
                self.all_edges(),
                u,
            )
        &&& forall|e: Edge| #[trigger]
            self.has_edge(e) ==> e.from < self.nodes && e.to < self.nodes
    }

    pub fn new(nodes: usize, edges: &Vec<Edge>) -> (r: Network)
        requires
            forall|k: int|
                0 <= k < edges@.len() ==> (#[trigger] edges@[k]).from < nodes && edges@[k].to
                    < nodes,
        ensures
            r.wf(),
            r.nodes == nodes,
            r.all_edges() == edges@,
    {
        let mut out = Network {
            nodes,
            edges: Ghost(edges@),
            edges_out: Vec::new(),
            edges_in: Vec::new(),
        };
        out.calculate_all_edges_in_and_out(edges);
        out
    }

    fn calculate_all_edges_in_and_out(&mut self, edges: &Vec<Edge>)
        requires
            old(self).all_edges() == edges@,
            forall|k: int|
                0 <= k < edges@.len() ==> (#[trigger] edges@[k]).from < old(self).nodes
                    && edges@[k].to < old(self).nodes,
        ensures
            final (self).nodes == old(self).nodes,
            final (self).all_edges() == old(self).all_edges(),
            final (self).wf(),
    {
        self.edges_out = Vec::new();
        self.edges_in = Vec::new();
        let nodes = self.nodes;
        let mut i: usize = 0;
        while i < nodes
            invariant
                i <= nodes,
                self.nodes == nodes,
                self.edges == old(self).edges,
                self.edges_out@.len() == i,
                self.edges_in@.len() == i,
                forall|v: int| 0 <= v < i ==> (#[trigger] self.edges_in@[v])@.len() == 0,
                forall|u: int| 0 <= u < i ==> (#[trigger] self.edges_out@[u])@.len() == 0,
            decreases nodes - i,
        {
            self.edges_out.push(Vec::new());
            self.edges_in.push(Vec::new());
            i = i + 1;
        }
        let mut k: usize = 0;
        while k < edges.len()
            invariant
                k <= edges@.len(),
                self.nodes == nodes,
                self.edges == old(self).edges,
                self.all_edges() == edges@,
                self.edges_out@.len() == nodes,
                self.edges_in@.len() == nodes,
                forall|j: int|
                    0 <= j < edges@.len() ==> (#[trigger] edges@[j]).from < nodes && edges@[j].to
                        < nodes,
                forall|v: int|
                    0 <= v < nodes ==> (#[trigger] self.edges_in@[v])@ == edges_into(
                        edges@.take(k as int),
                        v,
                    ),
                forall|u: int|
                    0 <= u < nodes ==> (#[trigger] self.edges_out@[u])@ == edges_out_of(
                        edges@.take(k as int),
                        u,
                    ),
            decreases edges@.len() - k,
        {
            let e = edges[k];
            let ghost prev_in = self.edges_in@;
            let ghost prev_out = self.edges_out@;
            let mut bucket: Vec<Edge> = Vec::new();
            self.edges_in.set_and_swap(e.to, &mut bucket);
            bucket.push(e);
            self.edges_in.set(e.to, bucket);
            let mut bucket_out: Vec<Edge> = Vec::new();
            self.edges_out.set_and_swap(e.from, &mut bucket_out);
            bucket_out.push(e);
            self.edges_out.set(e.from, bucket_out);
            proof {
                assert forall|v: int| 0 <= v < nodes implies (#[trigger] self.edges_in@[v])@
                    == edges_into(edges@.take(k + 1), v) by {
                    lemma_edges_into_take_step(edges@, v, k as int);
                    if v == edges@[k as int].to {
                        assert(self.edges_in@[v]@ =~= prev_in[v]@ + seq![edges@[k as int]]);
                    } else {
                        assert(self.edges_in@[v]@ =~= prev_in[v]@);
                        assert(edges_into(edges@.take(k + 1), v) =~= edges_into(
                            edges@.take(k as int),
                            v,
                        ));
                    }
                }
                assert forall|u: int| 0 <= u < nodes implies (#[trigger] self.edges_out@[u])@
                    == edges_out_of(edges@.take(k + 1), u) by {
                    lemma_edges_out_of_take_step(edges@, u, k as int);
                    if u == edges@[k as int].from {
                        assert(self.edges_out@[u]@ =~= prev_out[u]@ + seq![edges@[k as int]]);
                    } else {
                        assert(self.edges_out@[u]@ =~= prev_out[u]@);
                        assert(edges_out_of(edges@.take(k + 1), u) =~= edges_out_of(
                            edges@.take(k as int),
                            u,
                        ));
                    }
                }
            }
            k = k + 1;
        }
        proof {
            assert(edges@.take(edges@.len() as int) =~= edges@);
            assert forall|e: Edge| #[trigger] self.has_edge(e) implies e.from < self.nodes && e.to
                < self.nodes by {
                let j = choose|j: int| 0 <= j < edges@.len() && edges@[j] == e;
                assert(edges@[j].from < nodes);
            }
        }
    }

    pub fn get_in(&self, node: usize) -> (r: &Vec<Edge>)
        requires
            self.wf(),
            node < self.nodes,
        ensures
            r@ == edges_into(self.all_edges(), node as int),
    {
        &self.edges_in[node]
    }

    pub fn get_out(&self, node: usize) -> (r: &Vec<Edge>)
        requires
            self.wf(),
            node < self.nodes,
        ensures
            r@ == edges_out_of(self.all_edges(), node as int),
    {
        &self.edges_out[node]
    }
}


/// The two displacements of 4-adjacency.
pub open spec fn four_neighbour_deltas() -> Seq<(usize, usize)> {
    seq![(1usize, 0usize), (0usize, 1usize)]
}

/// The grid edge from tile `(x1, y1)` to tile `(x2, y2)`.
pub open spec fn tile_edge(width: int, cost: u8, x1: int, y1: int, x2: int, y2: int) -> Edge {
    Edge {
        from: grid_index(x1, y1, width) as usize,
        to: grid_index(x2, y2, width) as usize,
        cost,
    }
}

/// Whether the two tiles lie side by side on the grid.
pub open spec fn grid_adjacent(width: int, height: int, x1: int, y1: int, x2: int, y2: int) -> bool {
    &&& 0 <= x1 < width
    &&& 0 <= y1 < height
    &&& 0 <= x2 < width
    &&& 0 <= y2 < height
    &&& ((x2 == x1 + 1 && y2 == y1) || (x1 == x2 + 1 && y2 == y1) || (y2 == y1 + 1 && x2 == x1)
        || (y1 == y2 + 1 && x2 == x1))
}

proof fn lemma_contains_concat<A>(a: Seq<A>, b: Seq<A>, e: A)
    requires
        a.contains(e) || b.contains(e),
    ensures
        (a + b).contains(e),
{
    if a.contains(e) {
        let k = choose|k: int| 0 <= k < a.len() && a[k] == e;
        assert((a + b)[k] == e);
    } else {
        let k = choose|k: int| 0 <= k < b.len() && b[k] == e;
        assert((a + b)[a.len() + k] == e);
    }
}

proof fn lemma_grid_y_contains(
    width: int,
    height: int,
    cost: u8,
    delta: (usize, usize),
    x: int,
    y: int,
    yc: int,
    e: Edge,
)
    requires
        0 <= y < yc,
        grid_cell_edges(width, height, cost, delta, x, y).contains(e),
    ensures
        grid_edges_y(width, height, cost, delta, x, yc).contains(e),
    decreases yc,
{
    if y == yc - 1 {
        lemma_contains_concat(
            grid_edges_y(width, height, cost, delta, x, yc - 1),
            grid_cell_edges(width, height, cost, delta, x, yc - 1),
            e,
        );
    } else {
        lemma_grid_y_contains(width, height, cost, delta, x, y, yc - 1, e);
        lemma_contains_concat(
            grid_edges_y(width, height, cost, delta, x, yc - 1),
            grid_cell_edges(width, height, cost, delta, x, yc - 1),
            e,
        );
    }
}

proof fn lemma_grid_x_contains(
    width: int,
    height: int,
    cost: u8,
    delta: (usize, usize),
    x: int,
    xc: int,
    e: Edge,
)
    requires
        0 <= x < xc,
        grid_edges_y(width, height, cost, delta, x, height).contains(e),
    ensures
        grid_edges_x(width, height, cost, delta, xc).contains(e),
    decreases xc,
{
    if x == xc - 1 {
        lemma_contains_concat(
            grid_edges_x(width, height, cost, delta, xc - 1),
            grid_edges_y(width, height, cost, delta, xc - 1, height),
            e,
        );
    } else {
        lemma_grid_x_contains(width, height, cost, delta, x, xc - 1, e);
        lemma_contains_concat(
            grid_edges_x(width, height, cost, delta, xc - 1),
            grid_edges_y(width, height, cost, delta, xc - 1, height),
            e,
        );
    }
}

/// Every pair of adjacent tiles has its edge in the 4-neighbour grid, in
/// both directions.
pub proof fn lemma_grid_edges_complete(
    width: int,
    height: int,
    cost: u8,
    x1: int,
    y1: int,
    x2: int,
    y2: int,
)
    requires
        grid_adjacent(width, height, x1, y1, x2, y2),
    ensures
        grid_edges(width, height, cost, four_neighbour_deltas(), 2).contains(
            tile_edge(width, cost, x1, y1, x2, y2),
        ),
{
    let deltas = four_neighbour_deltas();
    let e = tile_edge(width, cost, x1, y1, x2, y2);
    let all = grid_edges(width, height, cost, deltas, 2);
    assert(all == grid_edges(width, height, cost, deltas, 1) + grid_edges_x(
        width,
        height,
        cost,
        deltas[1],
        width,
    ));
    assert(grid_edges(width, height, cost, deltas, 1) == grid_edges(
        width,
        height,
        cost,
        deltas,
        0,
    ) + grid_edges_x(width, height, cost, deltas[0], width));
    if y1 == y2 {
        // horizontal neighbours come from the (1, 0) displacement at the
        // western tile
        let xa = if x1 < x2 {
            x1
        } else {
            x2
        };
        let cell = grid_cell_edges(width, height, cost, deltas[0], xa, y1);
        assert(cell[0] == tile_edge(width, cost, xa, y1, xa + 1, y1));
        assert(cell[1] == tile_edge(width, cost, xa + 1, y1, xa, y1));
        assert(cell.contains(e));
        lemma_grid_y_contains(width, height, cost, deltas[0], xa, y1, height, e);
        lemma_grid_x_contains(width, height, cost, deltas[0], xa, width, e);
        lemma_contains_concat(
            grid_edges(width, height, cost, deltas, 0),
            grid_edges_x(width, height, cost, deltas[0], width),
            e,
        );
        lemma_contains_concat(
            grid_edges(width, height, cost, deltas, 1),
            grid_edges_x(width, height, cost, deltas[1], width),
            e,
        );
    } else {
        // vertical neighbours come from the (0, 1) displacement at the
        // northern tile
        let ya = if y1 < y2 {
            y1
        } else {
            y2
        };
        let cell = grid_cell_edges(width, height, cost, deltas[1], x1, ya);
        assert(cell[0] == tile_edge(width, cost, x1, ya, x1, ya + 1));
        assert(cell[1] == tile_edge(width, cost, x1, ya + 1, x1, ya));
        assert(cell.contains(e));
        lemma_grid_y_contains(width, height, cost, deltas[1], x1, ya, height, e);
        lemma_grid_x_contains(width, height, cost, deltas[1], x1, width, e);
        lemma_contains_concat(
            grid_edges(width, height, cost, deltas, 1),
            grid_edges_x(width, height, cost, deltas[1], width),
            e,
        );
    }
}

proof fn lemma_grid_y_sound(
    width: int,
    height: int,
    cost: u8,
    delta: (usize, usize),
    x: int,
    yc: int,
    e: Edge,
)
    requires
        grid_edges_y(width, height, cost, delta, x, yc).contains(e),
    ensures
        exists|y: int|
            0 <= y < yc && #[trigger] grid_cell_edges(width, height, cost, delta, x, y).contains(
                e,
            ),
    decreases yc,
{
    if yc > 0 {
        let prev = grid_edges_y(width, height, cost, delta, x, yc - 1);
        let cell = grid_cell_edges(width, height, cost, delta, x, yc - 1);
        let k = choose|k: int|
            0 <= k < (prev + cell).len() && (prev + cell)[k] == e;
        if k < prev.len() {
            assert(prev[k] == e);
            lemma_grid_y_sound(width, height, cost, delta, x, yc - 1, e);
        } else {
            assert(cell[k - prev.len()] == e);
            assert(grid_cell_edges(width, height, cost, delta, x, yc - 1).contains(e));
        }
    }
}

proof fn lemma_grid_x_sound(
    width: int,
    height: int,
    cost: u8,
    delta: (usize, usize),
    xc: int,
    e: Edge,
)
    requires
        grid_edges_x(width, height, cost, delta, xc).contains(e),
    ensures
        exists|x: int, y: int|
            0 <= x < xc && 0 <= y < height && #[trigger] grid_cell_edges(
                width,
                height,
                cost,
                delta,
                x,
                y,
            ).contains(e),
    decreases xc,
{
    if xc > 0 {
        let prev = grid_edges_x(width, height, cost, delta, xc - 1);
        let col = grid_edges_y(width, height, cost, delta, xc - 1, height);
        let k = choose|k: int|
            0 <= k < (prev + col).len() && (prev + col)[k] == e;
        if k < prev.len() {
            assert(prev[k] == e);
            lemma_grid_x_sound(width, height, cost, delta, xc - 1, e);
        } else {
            assert(col[k - prev.len()] == e);
            lemma_grid_y_sound(width, height, cost, delta, xc - 1, height, e);
            let y = choose|y: int|
                0 <= y < height && #[trigger] grid_cell_edges(
                    width,
                    height,
                    cost,
                    delta,
                    xc - 1,
                    y,
                ).contains(e);
            assert(grid_cell_edges(width, height, cost, delta, xc - 1, y).contains(e));
        }
    }
}

/// Every edge of the 4-neighbour grid joins two adjacent tiles.
pub proof fn lemma_grid_edges_sound(width: int, height: int, cost: u8, e: Edge)
    requires
        grid_edges(width, height, cost, four_neighbour_deltas(), 2).contains(e),
    ensures
        exists|x1: int, y1: int, x2: int, y2: int|
            #[trigger] grid_adjacent(width, height, x1, y1, x2, y2) && e == tile_edge(
                width,
                cost,
                x1,
                y1,
                x2,
                y2,
            ),
{
    let deltas = four_neighbour_deltas();
    let part0 = grid_edges(width, height, cost, deltas, 0);
    let part1 = grid_edges_x(width, height, cost, deltas[0], width);
    let part2 = grid_edges_x(width, height, cost, deltas[1], width);
    assert(grid_edges(width, height, cost, deltas, 1) == part0 + part1);
    assert(grid_edges(width, height, cost, deltas, 2) == grid_edges(
        width,
        height,
        cost,
        deltas,
        1,
    ) + part2);
    assert(grid_edges(width, height, cost, deltas, 2) == (part0 + part1) + part2);
    let k = choose|k: int|
        0 <= k < ((part0 + part1) + part2).len() && ((part0 + part1) + part2)[k] == e;
    let di: int = if k < part1.len() {
        0
    } else {
        1
    };
    if k < part1.len() {
        assert(part1[k] == e);
        lemma_grid_x_sound(width, height, cost, deltas[0], width, e);
    } else {
        assert(part2[k - part1.len()] == e);
        lemma_grid_x_sound(width, height, cost, deltas[1], width, e);
    }
    let d = deltas[di];
    let (x, y) = choose|x: int, y: int|
        0 <= x < width && 0 <= y < height && #[trigger] grid_cell_edges(
            width,
            height,
            cost,
            d,
            x,
            y,
        ).contains(e);
    let cell = grid_cell_edges(width, height, cost, d, x, y);
    let xb = x + d.0;
    let yb = y + d.1;
    assert(cell.len() > 0);
    assert(xb < width && yb < height);
    assert(e == cell[0] || e == cell[1]);
    if e == cell[0] {
        assert(grid_adjacent(width, height, x, y, xb, yb));
        assert(e == tile_edge(width, cost, x, y, xb, yb));
    } else {
        assert(grid_adjacent(width, height, xb, yb, x, y));
        assert(e == tile_edge(width, cost, xb, yb, x, y));
    }
}

/// The grid row a 4-neighbour edge was generated at: the lesser of its
/// endpoints' tile rows.
pub open spec fn edge_row(width: int, e: Edge) -> int {
    if e.from as int / width <= e.to as int / width {
        e.from as int / width
    } else {
        e.to as int / width
    }
}

/// The grid column a 4-neighbour edge was generated at.
pub open spec fn edge_col(width: int, e: Edge) -> int {
    if e.from as int % width <= e.to as int % width {
        e.from as int % width
    } else {
        e.to as int % width
    }
}

/// Whether the edge joins two tiles of one row.
pub open spec fn edge_horizontal(width: int, e: Edge) -> bool {
    e.from as int / width == e.to as int / width
}

/// The shape of the two edges one displacement contributes at one tile.
proof fn lemma_cell_shape(width: int, height: int, cost: u8, delta: (usize, usize), x: int, y: int)
    requires
        width >= 1,
        width * height <= usize::MAX,
        delta == (1usize, 0usize) || delta == (0usize, 1usize),
        0 <= x < width,
        0 <= y < height,
        x + delta.0 < width,
        y + delta.1 < height,
    ensures
        grid_cell_edges(width, height, cost, delta, x, y).len() == 2,
        forall|k: int|
            0 <= k < 2 ==> edge_row(
                width,
                #[trigger] grid_cell_edges(width, height, cost, delta, x, y)[k],
            ) == y && edge_col(width, grid_cell_edges(width, height, cost, delta, x, y)[k]) == x
                && edge_horizontal(
                width,
                grid_cell_edges(width, height, cost, delta, x, y)[k],
            ) == (delta == (1usize, 0usize)),
        grid_cell_edges(width, height, cost, delta, x, y)[0] != grid_cell_edges(
            width,
            height,
            cost,
            delta,
            x,
            y,
        )[1],
{
    let a = grid_index(x, y, width);
    let b = grid_index(x + delta.0, y + delta.1, width);
    assert(a == y * width + x && b == (y + delta.1) * width + (x + delta.0));
    assert(a / width == y && a % width == x && b / width == y + delta.1 && b % width == x
        + delta.0 && a != b && 0 <= a && 0 <= b && a <= usize::MAX && b <= usize::MAX)
        by (nonlinear_arith)
        requires
            width >= 1,
            0 <= x < width,
            0 <= y,
            0 <= x + delta.0 < width,
            0 <= y + delta.1 < height,
            delta.0 + delta.1 == 1,
            a == y * width + x,
            b == (y + delta.1) * width + (x + delta.0),
            width * height <= usize::MAX,
    {}
}

/// The edges one displacement contributes in one column are pairwise
/// distinct and carry their own row, column and orientation.
proof fn lemma_grid_y_distinct(
    width: int,
    height: int,
    cost: u8,
    delta: (usize, usize),
    x: int,
    yc: int,
)
    requires
        width >= 1,
        width * height <= usize::MAX,
        delta == (1usize, 0usize) || delta == (0usize, 1usize),
        0 <= x < width,
        yc <= height,
    ensures
        forall|k: int|
            0 <= k < grid_edges_y(width, height, cost, delta, x, yc).len() ==> edge_row(
                width,
                #[trigger] grid_edges_y(width, height, cost, delta, x, yc)[k],
            ) < yc && edge_col(width, grid_edges_y(width, height, cost, delta, x, yc)[k]) == x
                && edge_horizontal(
                width,
                grid_edges_y(width, height, cost, delta, x, yc)[k],
            ) == (delta == (1usize, 0usize)),
        forall|k1: int, k2: int|
            0 <= k1 < k2 < grid_edges_y(width, height, cost, delta, x, yc).len()
                ==> (#[trigger] grid_edges_y(width, height, cost, delta, x, yc)[k1]) != (
            #[trigger] grid_edges_y(width, height, cost, delta, x, yc)[k2]),
    decreases yc,
{
    if yc > 0 {
        lemma_grid_y_distinct(width, height, cost, delta, x, yc - 1);
        let prev = grid_edges_y(width, height, cost, delta, x, yc - 1);
        let cell = grid_cell_edges(width, height, cost, delta, x, yc - 1);
        let cur = grid_edges_y(width, height, cost, delta, x, yc);
        assert(cur == prev + cell);
        if x + delta.0 < width && yc - 1 + delta.1 < height {
            lemma_cell_shape(width, height, cost, delta, x, yc - 1);
            assert(cell[0] == cur[prev.len() as int]);
            assert(cell[1] == cur[prev.len() + 1int]);
        } else {
            assert(cell.len() == 0);
        }
        assert forall|k1: int, k2: int| 0 <= k1 < k2 < cur.len() implies (#[trigger] cur[k1]) != (
        #[trigger] cur[k2]) by {
            if k2 >= prev.len() {
                if k1 < prev.len() {
                    assert(cur[k1] == prev[k1]);
                    assert(edge_row(width, cur[k1]) < yc - 1);
                    assert(edge_row(width, cur[k2]) == yc - 1);
                } else {
                    assert(cur[k1] == cell[k1 - prev.len()]);
                    assert(cur[k2] == cell[k2 - prev.len()]);
                }
            } else {
                assert(cur[k1] == prev[k1]);
                assert(cur[k2] == prev[k2]);
            }
        }
    }
}

/// The edges one displacement contributes over the first `xc` columns are
/// pairwise distinct and keep their orientation.
proof fn lemma_grid_x_distinct(
    width: int,
    height: int,
    cost: u8,
    delta: (usize, usize),
    xc: int,
)
    requires
        width >= 1,
        width * height <= usize::MAX,
        delta == (1usize, 0usize) || delta == (0usize, 1usize),
        xc <= width,
    ensures
        forall|k: int|
            0 <= k < grid_edges_x(width, height, cost, delta, xc).len() ==> edge_col(
                width,
                #[trigger] grid_edges_x(width, height, cost, delta, xc)[k],
            ) < xc && edge_horizontal(
                width,
                grid_edges_x(width, height, cost, delta, xc)[k],
            ) == (delta == (1usize, 0usize)),
        forall|k1: int, k2: int|
            0 <= k1 < k2 < grid_edges_x(width, height, cost, delta, xc).len()
                ==> (#[trigger] grid_edges_x(width, height, cost, delta, xc)[k1]) != (
            #[trigger] grid_edges_x(width, height, cost, delta, xc)[k2]),
    decreases xc,
{
    if xc > 0 {
        lemma_grid_x_distinct(width, height, cost, delta, xc - 1);
        lemma_grid_y_distinct(width, height, cost, delta, xc - 1, height);
        let prev = grid_edges_x(width, height, cost, delta, xc - 1);
        let col = grid_edges_y(width, height, cost, delta, xc - 1, height);
        let cur = grid_edges_x(width, height, cost, delta, xc);
        assert(cur == prev + col);
        assert forall|k1: int, k2: int| 0 <= k1 < k2 < cur.len() implies (#[trigger] cur[k1]) != (
        #[trigger] cur[k2]) by {
            if k2 >= prev.len() {
                if k1 < prev.len() {
                    assert(cur[k1] == prev[k1]);
                    assert(cur[k2] == col[k2 - prev.len()]);
                    assert(edge_col(width, cur[k1]) < xc - 1);
                    assert(edge_col(width, cur[k2]) == xc - 1);
                } else {
                    assert(cur[k1] == col[k1 - prev.len()]);
                    assert(cur[k2] == col[k2 - prev.len()]);
                }
            } else {
                assert(cur[k1] == prev[k1]);
                assert(cur[k2] == prev[k2]);
            }
        }
    }
}

/// The 4-neighbour grid lists every edge once: together with the two
/// membership lemmas, its edge list equals, as a multiset, the edge set of
/// 4-adjacency.
pub proof fn lemma_grid_edges_distinct(width: int, height: int, cost: u8)
    requires
        width >= 1,
        width * height <= usize::MAX,
    ensures
        forall|k1: int, k2: int|
            0 <= k1 < k2 < grid_edges(width, height, cost, four_neighbour_deltas(), 2).len()
                ==> (#[trigger] grid_edges(width, height, cost, four_neighbour_deltas(), 2)[k1])
                != (#[trigger] grid_edges(width, height, cost, four_neighbour_deltas(), 2)[k2]),
{
    let deltas = four_neighbour_deltas();
    let part0 = grid_edges(width, height, cost, deltas, 0);
    let part1 = grid_edges_x(width, height, cost, deltas[0], width);
    let part2 = grid_edges_x(width, height, cost, deltas[1], width);
    let all = grid_edges(width, height, cost, deltas, 2);
    assert(grid_edges(width, height, cost, deltas, 1) == part0 + part1);
    assert(all == grid_edges(width, height, cost, deltas, 1) + part2);
    lemma_grid_x_distinct(width, height, cost, deltas[0], width);
    lemma_grid_x_distinct(width, height, cost, deltas[1], width);
    assert forall|k1: int, k2: int| 0 <= k1 < k2 < all.len() implies (#[trigger] all[k1]) != (
    #[trigger] all[k2]) by {
        let n1 = part1.len() as int;
        if k2 < n1 {
            assert(all[k1] == part1[k1]);
            assert(all[k2] == part1[k2]);
        } else if k1 >= n1 {
            assert(all[k1] == part2[k1 - n1]);
            assert(all[k2] == part2[k2 - n1]);
        } else {
            assert(all[k1] == part1[k1]);
            assert(all[k2] == part2[k2 - n1]);
            assert(edge_horizontal(width, all[k1]));
            assert(!edge_horizontal(width, all[k2]));
        }
    }
}


/// A directed walk through the graph, starting at `from`: each listed edge
/// is an edge of the network and they join end to end.
pub open spec fn edge_path(net: Network, from: usize, p: Seq<Edge>) -> bool {
    &&& forall|i: int| 0 <= i < p.len() ==> net.has_edge(#[trigger] p[i])
    &&& p.len() > 0 ==> p[0].from == from
    &&& forall|i: int| 0 <= i < p.len() - 1 ==> (#[trigger] p[i]).to == p[i + 1].from
}

/// Where the walk ends: its last edge's target, or `from` when it is empty.
pub open spec fn path_end(from: usize, p: Seq<Edge>) -> usize {
    if p.len() == 0 {
        from
    } else {
        p.last().to
    }
}

/// The walk's total edge cost.
pub open spec fn path_cost(p: Seq<Edge>) -> int
    decreases p.len(),
{
    if p.len() == 0 {
        0
    } else {
        p[0].cost + path_cost(p.subrange(1, p.len() as int))
    }
}

/// Whether the walk leads from `from` to one of the goals.
pub open spec fn reaches(net: Network, goals: Seq<usize>, from: usize, p: Seq<Edge>) -> bool {
    edge_path(net, from, p) && goals.contains(path_end(from, p))
}

proof fn lemma_path_cost_nonneg(p: Seq<Edge>)
    ensures
        path_cost(p) >= 0,
    decreases p.len(),
{
    if p.len() > 0 {
        lemma_path_cost_nonneg(p.subrange(1, p.len() as int));
    }
}

/// No goal walk costs less than the table says: the table is a lower bound
/// on every walk to the goal set, from the goal-zero and relaxation clauses
/// alone.
pub proof fn lemma_table_le_path(
    net: Network,
    goals: Seq<usize>,
    out: Seq<Option<u32>>,
    from: usize,
    p: Seq<Edge>,
)
    requires
        net.wf(),
        forall|i: int| 0 <= i < goals.len() ==> (#[trigger] goals[i]) < net.nodes,
        dijkstra_post(net, goals, out),
        from < net.nodes,
        reaches(net, goals, from, p),
    ensures
        out[from as int] is Some,
        out[from as int].unwrap() <= path_cost(p),
    decreases p.len(),
{
    if p.len() == 0 {
        let i = choose|i: int| 0 <= i < goals.len() && goals[i] == from;
        assert(out[goals[i] as int] == Some(0u32));
    } else {
        let e = p[0];
        assert(net.has_edge(e));
        let tail = p.subrange(1, p.len() as int);
        assert forall|i: int| 0 <= i < tail.len() - 1 implies (#[trigger] tail[i]).to == tail[i
            + 1].from by {
            assert(tail[i] == p[i + 1]);
            assert(tail[i + 1] == p[i + 2]);
        }
        assert(edge_path(net, e.to, tail));
        assert(path_end(e.to, tail) == path_end(from, p));
        lemma_table_le_path(net, goals, out, e.to, tail);
        assert(out[e.from as int] is Some && out[e.from as int].unwrap() <= out[e.to as int].unwrap()
            + e.cost);
        lemma_path_cost_nonneg(tail);
    }
}

/// Every finite table entry is achieved by some goal walk of exactly that
/// cost, once every edge costs at least one: the witness clause descends
/// strictly until it lands on a goal.
pub proof fn lemma_table_achieved(
    net: Network,
    goals: Seq<usize>,
    out: Seq<Option<u32>>,
    v: usize,
)
    requires
        net.wf(),
        forall|e: Edge| #[trigger] net.has_edge(e) ==> e.cost >= 1,
        dijkstra_post(net, goals, out),
        v < net.nodes,
        out[v as int] is Some,
    ensures
        exists|p: Seq<Edge>|
            #[trigger] reaches(net, goals, v, p) && path_cost(p) == out[v as int].unwrap(),
    decreases out[v as int].unwrap(),
{
    let d = out[v as int].unwrap();
    if d == 0 && goals.contains(v) {
        let p = Seq::<Edge>::empty();
        assert(reaches(net, goals, v, p));
        assert(path_cost(p) == 0);
    } else {
        let e = choose|e: Edge|
            #[trigger] net.has_edge(e) && e.from == v && e.cost <= d && out[e.to as int] is Some
                && out[e.to as int].unwrap() == d - e.cost;
        assert(e.cost >= 1);
        assert(out[e.to as int].unwrap() < d);
        lemma_table_achieved(net, goals, out, e.to);
        let tail = choose|p: Seq<Edge>|
            #[trigger] reaches(net, goals, e.to, p) && path_cost(p) == out[e.to as int].unwrap();
        let p = seq![e] + tail;
        assert forall|i: int| 0 <= i < p.len() - 1 implies (#[trigger] p[i]).to == p[i
            + 1].from by {
            if i == 0 {
                if tail.len() > 0 {
                    assert(p[1] == tail[0]);
                    assert(tail[0].from == e.to);
                }
            } else {
                assert(p[i] == tail[i - 1]);
                assert(p[i + 1] == tail[i]);
            }
        }
        if tail.len() == 0 {
            assert(path_end(v, p) == e.to);
            assert(path_end(e.to, tail) == e.to);
        } else {
            assert(p.last() == tail.last());
            assert(path_end(v, p) == path_end(e.to, tail));
        }
        assert(edge_path(net, v, p));
        assert(reaches(net, goals, v, p));
        assert(p.subrange(1, p.len() as int) =~= tail);
        assert(path_cost(p) == e.cost + path_cost(tail));
        assert(path_cost(p) == d);
    }
}

/// With unit-or-larger edge costs the contract pins the table exactly: an
/// entry is finite precisely when some walk reaches the goal set, and then
/// it equals the least cost of such a walk.
pub proof fn lemma_dijkstra_exact(
    net: Network,
    goals: Seq<usize>,
    out: Seq<Option<u32>>,
    v: usize,
)
    requires
        net.wf(),
        forall|i: int| 0 <= i < goals.len() ==> (#[trigger] goals[i]) < net.nodes,
        forall|e: Edge| #[trigger] net.has_edge(e) ==> e.cost >= 1,
        dijkstra_post(net, goals, out),
        v < net.nodes,
    ensures
        (out[v as int] is Some) <==> exists|p: Seq<Edge>| #[trigger] reaches(net, goals, v, p),
        out[v as int] is Some ==> (exists|p: Seq<Edge>|
            #[trigger] reaches(net, goals, v, p) && path_cost(p) == out[v as int].unwrap())
            && forall|p: Seq<Edge>|
            #[trigger] reaches(net, goals, v, p) ==> path_cost(p) >= out[v as int].unwrap(),
{
    if out[v as int] is Some {
        lemma_table_achieved(net, goals, out, v);
        assert forall|p: Seq<Edge>| #[trigger] reaches(net, goals, v, p) implies path_cost(p)
            >= out[v as int].unwrap() by {
            lemma_table_le_path(net, goals, out, v, p);
        }
        let p = choose|p: Seq<Edge>|
            #[trigger] reaches(net, goals, v, p) && path_cost(p) == out[v as int].unwrap();
        assert(reaches(net, goals, v, p));
    } else {
        if exists|p: Seq<Edge>| #[trigger] reaches(net, goals, v, p) {
            let p = choose|p: Seq<Edge>| #[trigger] reaches(net, goals, v, p);
            lemma_table_le_path(net, goals, out, v, p);
        }
    }
}

/// With unit-or-larger edge costs the table is a function of the graph and
/// the goal set alone: any two tables meeting the contract agree, whatever
/// tie order or duplicate goals produced them.
pub proof fn lemma_dijkstra_deterministic(
    net: Network,
    goals: Seq<usize>,
    out1: Seq<Option<u32>>,
    out2: Seq<Option<u32>>,
)
    requires
        net.wf(),
        forall|i: int| 0 <= i < goals.len() ==> (#[trigger] goals[i]) < net.nodes,
        forall|e: Edge| #[trigger] net.has_edge(e) ==> e.cost >= 1,
        dijkstra_post(net, goals, out1),
        dijkstra_post(net, goals, out2),
    ensures
        out1 == out2,
{
    assert forall|v: int| 0 <= v < net.nodes implies out1[v] == out2[v] by {
        lemma_dijkstra_exact(net, goals, out1, v as usize);
        lemma_dijkstra_exact(net, goals, out2, v as usize);
        if out1[v] is Some && out2[v] is Some {
            assert(out1[v].unwrap() <= out2[v].unwrap());
            assert(out2[v].unwrap() <= out1[v].unwrap());
            assert(out1[v] == Some(out1[v].unwrap()));
            assert(out2[v] == Some(out2[v].unwrap()));
        }
    }
    assert(out1 =~= out2);
}

/// The edge `e` into a settled node has already relaxed its source: either
/// the source is settled with a cost within `cost(e.to) + e.cost`, or the
/// frontier holds a candidate for the source within that bound.
spec fn relaxed(
    net: Network,
    closed: Seq<bool>,
    out: Seq<Option<u32>>,
    heap: Seq<(usize, u32)>,
    e: Edge,
) -> bool {
    ||| (closed[e.from as int] && out[e.from as int].unwrap() <= out[e.to as int].unwrap()
        + e.cost)
    ||| exists|k: int|
        0 <= k < heap.len() && (#[trigger] heap[k]).0 == e.from && heap[k].1 <= out[e.to as int].unwrap()
            + e.cost
}

/// Goal `goals[i]` is settled at cost zero or still queued at cost zero.
spec fn goal_seeded(
    goals: Seq<usize>,
    closed: Seq<bool>,
    out: Seq<Option<u32>>,
    heap: Seq<(usize, u32)>,
    i: int,
) -> bool {
    ||| (closed[goals[i] as int] && out[goals[i] as int] == Some(0u32))
    ||| exists|k: int| 0 <= k < heap.len() && #[trigger] heap[k] == (goals[i], 0u32)
}

/// Every queued candidate cost is real: zero at a goal, or one edge away
/// from a settled node whose cost accounts for the rest.
spec fn entry_witnessed(
    net: Network,
    goals: Seq<usize>,
    closed: Seq<bool>,
    out: Seq<Option<u32>>,
    entry: (usize, u32),
) -> bool {
    ||| (entry.1 == 0 && goals.contains(entry.0))
    ||| exists|e: Edge|
        #[trigger] net.has_edge(e) && e.from == entry.0 && closed[e.to as int] && e.cost <= entry.1
            && out[e.to as int] == Some((entry.1 - e.cost) as u32)
}

/// Every settled cost is real in the same sense.
spec fn node_witnessed(net: Network, goals: Seq<usize>, out: Seq<Option<u32>>, v: int) -> bool {
    ||| (out[v].unwrap() == 0 && goals.contains(v as usize))
    ||| exists|e: Edge|
        #[trigger] net.has_edge(e) && e.from == v && e.cost <= out[v].unwrap() && out[e.to as int]
            is Some && out[e.to as int].unwrap() == out[v].unwrap() - e.cost
}

/// The resting state of the shortest-path search, between pops.
#[verifier::opaque]
spec fn dijkstra_inv(
    net: Network,
    goals: Seq<usize>,
    closed: Seq<bool>,
    out: Seq<Option<u32>>,
    heap: Seq<(usize, u32)>,
) -> bool {
    &&& closed.len() == net.nodes
    &&& out.len() == net.nodes
    &&& forall|i: int| 0 <= i < goals.len() ==> (#[trigger] goals[i]) < net.nodes
    &&& forall|v: int| 0 <= v < net.nodes ==> ((#[trigger] out[v]) is Some <==> closed[v])
    &&& forall|k: int| 0 <= k < heap.len() ==> (#[trigger] heap[k]).0 < net.nodes
    &&& forall|k: int| 0 <= k < heap.len() ==> (#[trigger] heap[k]).1 <= 255 * count_true(closed)
    &&& forall|v: int, k: int|
        0 <= v < net.nodes && closed[v] && 0 <= k < heap.len() ==> (#[trigger] out[v]).unwrap()
            <= (#[trigger] heap[k]).1
    &&& forall|e: Edge|
        #[trigger] net.has_edge(e) && closed[e.to as int] ==> relaxed(net, closed, out, heap, e)
    &&& forall|i: int| 0 <= i < goals.len() ==> goal_seeded(goals, closed, out, heap, i)
    &&& forall|k: int|
        0 <= k < heap.len() ==> entry_witnessed(net, goals, closed, out, #[trigger] heap[k])
    &&& forall|v: int|
        0 <= v < net.nodes && closed[v] ==> node_witnessed(net, goals, out, v)
}

/// The state while the in-edges of the just-settled `index` (of final cost
/// `cost`) are being relaxed.
#[verifier::opaque]
spec fn dijkstra_mid_inv(
    net: Network,
    goals: Seq<usize>,
    closed: Seq<bool>,
    out: Seq<Option<u32>>,
    heap: Seq<(usize, u32)>,
    index: usize,
    cost: u32,
) -> bool {
    &&& closed.len() == net.nodes
    &&& out.len() == net.nodes
    &&& forall|i: int| 0 <= i < goals.len() ==> (#[trigger] goals[i]) < net.nodes
    &&& index < net.nodes
    &&& closed[index as int]
    &&& out[index as int] == Some(cost)
    &&& cost <= 255 * (count_true(closed) - 1)
    &&& forall|v: int| 0 <= v < net.nodes ==> ((#[trigger] out[v]) is Some <==> closed[v])
    &&& forall|v: int|
        0 <= v < net.nodes && closed[v] ==> (#[trigger] out[v]).unwrap() <= cost
    &&& forall|k: int| 0 <= k < heap.len() ==> (#[trigger] heap[k]).0 < net.nodes
    &&& forall|k: int| 0 <= k < heap.len() ==> (#[trigger] heap[k]).1 <= 255 * count_true(closed)
    &&& forall|v: int, k: int|
        0 <= v < net.nodes && closed[v] && 0 <= k < heap.len() ==> (#[trigger] out[v]).unwrap()
            <= (#[trigger] heap[k]).1
    &&& forall|e: Edge|
        #[trigger] net.has_edge(e) && closed[e.to as int] && e.to != index ==> relaxed(
            net,
            closed,
            out,
            heap,
            e,
        )
    &&& forall|i: int| 0 <= i < goals.len() ==> goal_seeded(goals, closed, out, heap, i)
    &&& forall|k: int|
        0 <= k < heap.len() ==> entry_witnessed(net, goals, closed, out, #[trigger] heap[k])
    &&& forall|v: int|
        0 <= v < net.nodes && closed[v] ==> node_witnessed(net, goals, out, v)
}

/// Popping a minimal entry whose node is already settled keeps the resting
/// state.
#[verifier::rlimit(100)]
#[verifier::spinoff_prover]
proof fn lemma_dijkstra_skip(
    net: Network,
    goals: Seq<usize>,
    closed: Seq<bool>,
    out: Seq<Option<u32>>,
    heap0: Seq<(usize, u32)>,
    best: int,
    heap1: Seq<(usize, u32)>,
)
    requires
        net.wf(),
        dijkstra_inv(net, goals, closed, out, heap0),
        0 <= best < heap0.len(),
        forall|k: int| 0 <= k < heap0.len() ==> heap0[best].1 <= (#[trigger] heap0[k]).1,
        closed[heap0[best].0 as int],
        heap1 == heap0.update(best, heap0.last()).drop_last(),
    ensures
        dijkstra_inv(net, goals, closed, out, heap1),
{
    reveal(dijkstra_inv);
    let index = heap0[best].0;
    assert forall|k: int| 0 <= k < heap1.len() implies (#[trigger] heap1[k]).0 < net.nodes
        && heap1[k].1 <= 255 * count_true(closed) && entry_witnessed(
        net,
        goals,
        closed,
        out,
        heap1[k],
    ) by {
        let k0: int = if k == best {
            heap0.len() - 1
        } else {
            k
        };
        assert(heap0.last() == heap0[heap0.len() - 1]);
        assert(heap1[k] == heap0[k0]);
        assert(entry_witnessed(net, goals, closed, out, heap0[k0]));
    }
    assert forall|v: int, k: int|
        0 <= v < net.nodes && closed[v] && 0 <= k < heap1.len() implies (
    #[trigger] out[v]).unwrap() <= (#[trigger] heap1[k]).1 by {
        let k0: int = if k == best {
            heap0.len() - 1
        } else {
            k
        };
        assert(heap1[k] == heap0[k0]);
        assert(out[v].unwrap() <= heap0[k0].1);
    }
    assert forall|i: int| 0 <= i < goals.len() implies goal_seeded(
        goals,
        closed,
        out,
        heap1,
        i,
    ) by {
        let gnode = goals[i];
        assert(goal_seeded(goals, closed, out, heap0, i));
        if !(closed[gnode as int] && out[gnode as int] == Some(0u32)) {
            let k = choose|k: int| 0 <= k < heap0.len() && #[trigger] heap0[k] == (gnode, 0u32);
            if k == best {
                // the popped entry is this goal's zero-cost candidate, and the
                // goal is settled, so its settled cost is zero
                assert(heap0[best] == (gnode, 0u32));
                assert(gnode == index);
                assert(out[gnode as int] is Some);
                assert(out[gnode as int].unwrap() <= heap0[k].1);
                assert(out[gnode as int] == Some(0u32));
            } else if k == heap0.len() - 1 && best < heap0.len() - 1 {
                assert(heap0.last() == (gnode, 0u32));
                assert(heap1[best] == (gnode, 0u32));
            } else {
                assert(heap1[k] == (gnode, 0u32));
            }
        }
    }
    assert forall|e: Edge| #[trigger] net.has_edge(e) && closed[e.to as int] implies relaxed(
        net,
        closed,
        out,
        heap1,
        e,
    ) by {
        assert(relaxed(net, closed, out, heap0, e));
        if !(closed[e.from as int] && out[e.from as int].unwrap() <= out[e.to as int].unwrap()
            + e.cost) {
            let k = choose|k: int|
                0 <= k < heap0.len() && (#[trigger] heap0[k]).0 == e.from && heap0[k].1
                    <= out[e.to as int].unwrap() + e.cost;
            if k == best {
                assert(heap0[best].0 == index);
                assert(closed[e.from as int]);
                assert(out[e.from as int].unwrap() <= heap0[best].1);
            } else if k == heap0.len() - 1 && best < heap0.len() - 1 {
                assert(heap1[best] == heap0[k]);
            } else {
                assert(heap1[k] == heap0[k]);
            }
        }
    }
}

/// Shared premises of the lemmas that settle the node of a minimal entry.
spec fn close_pre(
    net: Network,
    goals: Seq<usize>,
    closed0: Seq<bool>,
    out0: Seq<Option<u32>>,
    heap0: Seq<(usize, u32)>,
    best: int,
    closed1: Seq<bool>,
    out1: Seq<Option<u32>>,
    heap1: Seq<(usize, u32)>,
) -> bool {
    &&& net.wf()
    &&& dijkstra_inv(net, goals, closed0, out0, heap0)
    &&& 0 <= best < heap0.len()
    &&& forall|k: int| 0 <= k < heap0.len() ==> heap0[best].1 <= (#[trigger] heap0[k]).1
    &&& !closed0[heap0[best].0 as int]
    &&& closed1 == closed0.update(heap0[best].0 as int, true)
    &&& out1 == out0.update(heap0[best].0 as int, Some(heap0[best].1))
    &&& heap1 == heap0.update(best, heap0.last()).drop_last()
}

/// Settling a node: surviving frontier entries keep their bounds and
/// witnesses, and settled costs stay below every queued candidate.
#[verifier::rlimit(100)]
#[verifier::spinoff_prover]
proof fn lemma_dijkstra_close_frontier(
    net: Network,
    goals: Seq<usize>,
    closed0: Seq<bool>,
    out0: Seq<Option<u32>>,
    heap0: Seq<(usize, u32)>,
    best: int,
    closed1: Seq<bool>,
    out1: Seq<Option<u32>>,
    heap1: Seq<(usize, u32)>,
)
    requires
        close_pre(net, goals, closed0, out0, heap0, best, closed1, out1, heap1),
    ensures
        count_true(closed1) == count_true(closed0) + 1,
        heap0[best].1 <= 255 * count_true(closed0),
        count_true(closed1) <= closed1.len(),
        forall|k: int| 0 <= k < heap1.len() ==> (#[trigger] heap1[k]).0 < net.nodes,
        forall|k: int| 0 <= k < heap1.len() ==> (#[trigger] heap1[k]).1 <= 255 * count_true(closed1),
        forall|k: int|
            0 <= k < heap1.len() ==> entry_witnessed(net, goals, closed1, out1, #[trigger] heap1[k]),
        forall|v: int, k: int|
            0 <= v < net.nodes && closed1[v] && 0 <= k < heap1.len() ==> (#[trigger] out1[v]).unwrap()
                <= (#[trigger] heap1[k]).1,
        forall|v: int|
            0 <= v < net.nodes && closed1[v] ==> (#[trigger] out1[v]).unwrap() <= heap0[best].1,
{
    reveal(dijkstra_inv);
    let index = heap0[best].0;
    let cost = heap0[best].1;
    lemma_count_true_set(closed0, index as int);
    lemma_count_true_unset_below_len(closed0, index as int);
    lemma_count_true_bounds(closed0);
    assert(count_true(closed1) == count_true(closed0) + 1);
    assert(cost <= 255 * count_true(closed0));
    // surviving frontier entries keep their bounds and witnesses
    assert forall|k: int| 0 <= k < heap1.len() implies (#[trigger] heap1[k]).0 < net.nodes
        && heap1[k].1 <= 255 * count_true(closed1) && entry_witnessed(
        net,
        goals,
        closed1,
        out1,
        heap1[k],
    ) by {
        let k0: int = if k == best {
            heap0.len() - 1
        } else {
            k
        };
        assert(heap1[k] == heap0[k0]);
        assert(entry_witnessed(net, goals, closed0, out0, heap0[k0]));
        if !(heap0[k0].1 == 0 && goals.contains(heap0[k0].0)) {
            let e = choose|e: Edge|
                #[trigger] net.has_edge(e) && e.from == heap0[k0].0 && closed0[e.to as int]
                    && e.cost <= heap0[k0].1 && out0[e.to as int] == Some(
                    (heap0[k0].1 - e.cost) as u32,
                );
            assert(e.to < net.nodes);
            assert(e.to != index);
            assert(out1[e.to as int] == out0[e.to as int]);
            assert(net.has_edge(e) && e.from == heap1[k].0 && closed1[e.to as int] && e.cost
                <= heap1[k].1 && out1[e.to as int] == Some((heap1[k].1 - e.cost) as u32));
        }
    }
    // settled costs stay below every queued candidate, and below `cost`
    assert forall|v: int, k: int|
        0 <= v < net.nodes && closed1[v] && 0 <= k < heap1.len() implies (
    #[trigger] out1[v]).unwrap() <= (#[trigger] heap1[k]).1 by {
        let k0: int = if k == best {
            heap0.len() - 1
        } else {
            k
        };
        assert(heap1[k] == heap0[k0]);
        if v == index as int {
            assert(cost <= heap0[k0].1);
        } else {
            assert(out0[v].unwrap() <= heap0[k0].1);
        }
    }
    assert forall|v: int| 0 <= v < net.nodes && closed1[v] implies (#[trigger] out1[v]).unwrap()
        <= cost by {
        if v != index as int {
            assert(out0[v].unwrap() <= heap0[best].1);
        }
    }
}

/// Settling a node: every settled cost stays witnessed.
#[verifier::rlimit(100)]
#[verifier::spinoff_prover]
proof fn lemma_dijkstra_close_witness(
    net: Network,
    goals: Seq<usize>,
    closed0: Seq<bool>,
    out0: Seq<Option<u32>>,
    heap0: Seq<(usize, u32)>,
    best: int,
    closed1: Seq<bool>,
    out1: Seq<Option<u32>>,
    heap1: Seq<(usize, u32)>,
)
    requires
        close_pre(net, goals, closed0, out0, heap0, best, closed1, out1, heap1),
    ensures
        forall|v: int|
            0 <= v < net.nodes && closed1[v] ==> node_witnessed(net, goals, out1, v),
{
    reveal(dijkstra_inv);
    let index = heap0[best].0;
    let cost = heap0[best].1;
    // the popped entry is real, so the settled cost is real
    assert(entry_witnessed(net, goals, closed0, out0, heap0[best]));
    assert forall|v: int| 0 <= v < net.nodes && closed1[v] implies node_witnessed(
        net,
        goals,
        out1,
        v,
    ) by {
        if v == index as int {
            if !(cost == 0 && goals.contains(index)) {
                let e = choose|e: Edge|
                    #[trigger] net.has_edge(e) && e.from == index && closed0[e.to as int]
                        && e.cost <= cost && out0[e.to as int] == Some((cost - e.cost) as u32);
                assert(e.to < net.nodes);
                assert(e.to != index);
                assert(out1[e.to as int] == out0[e.to as int]);
                assert(net.has_edge(e) && e.from == v && e.cost <= out1[v].unwrap()
                    && out1[e.to as int] is Some && out1[e.to as int].unwrap()
                    == out1[v].unwrap() - e.cost);
            }
        } else {
            assert(node_witnessed(net, goals, out0, v));
            if !(out0[v].unwrap() == 0 && goals.contains(v as usize)) {
                let e = choose|e: Edge|
                    #[trigger] net.has_edge(e) && e.from == v && e.cost <= out0[v].unwrap()
                        && out0[e.to as int] is Some && out0[e.to as int].unwrap()
                        == out0[v].unwrap() - e.cost;
                assert(e.to < net.nodes);
                assert(e.to != index);
                assert(out1[e.to as int] == out0[e.to as int]);
                assert(net.has_edge(e) && e.from == v && e.cost <= out1[v].unwrap()
                    && out1[e.to as int] is Some && out1[e.to as int].unwrap()
                    == out1[v].unwrap() - e.cost);
            }
        }
    }
}

/// Settling a node: goals stay seeded.
#[verifier::rlimit(100)]
#[verifier::spinoff_prover]
proof fn lemma_dijkstra_close_goals(
    net: Network,
    goals: Seq<usize>,
    closed0: Seq<bool>,
    out0: Seq<Option<u32>>,
    heap0: Seq<(usize, u32)>,
    best: int,
    closed1: Seq<bool>,
    out1: Seq<Option<u32>>,
    heap1: Seq<(usize, u32)>,
)
    requires
        close_pre(net, goals, closed0, out0, heap0, best, closed1, out1, heap1),
    ensures
        forall|i2: int| 0 <= i2 < goals.len() ==> goal_seeded(goals, closed1, out1, heap1, i2),
{
    reveal(dijkstra_inv);
    let index = heap0[best].0;
    let cost = heap0[best].1;
    // a popped goal candidate has cost zero
    assert forall|i2: int| 0 <= i2 < goals.len() implies goal_seeded(
        goals,
        closed1,
        out1,
        heap1,
        i2,
    ) by {
        let gnode = goals[i2];
        assert(goal_seeded(goals, closed0, out0, heap0, i2));
        assert(gnode < net.nodes);
        if closed0[gnode as int] {
            assert(gnode != index);
            assert(out1[gnode as int] == out0[gnode as int]);
        } else {
            let k = choose|k: int| 0 <= k < heap0.len() && #[trigger] heap0[k] == (gnode, 0u32);
            if gnode == index {
                assert(heap0[best].1 <= heap0[k].1);
                assert(cost == 0);
                assert(out1[gnode as int] == Some(0u32));
            } else if k == best {
                assert(heap0[k].0 == index);
                assert(false);
            } else if k == heap0.len() - 1 && best < heap0.len() - 1 {
                assert(heap0.last() == (gnode, 0u32));
                assert(heap1[best] == (gnode, 0u32));
            } else {
                assert(heap1[k] == (gnode, 0u32));
            }
        }
    }
}

/// Settling a node: every edge into a previously settled node stays relaxed.
#[verifier::rlimit(100)]
#[verifier::spinoff_prover]
proof fn lemma_dijkstra_close_edges(
    net: Network,
    goals: Seq<usize>,
    closed0: Seq<bool>,
    out0: Seq<Option<u32>>,
    heap0: Seq<(usize, u32)>,
    best: int,
    closed1: Seq<bool>,
    out1: Seq<Option<u32>>,
    heap1: Seq<(usize, u32)>,
)
    requires
        close_pre(net, goals, closed0, out0, heap0, best, closed1, out1, heap1),
    ensures
        forall|e: Edge|
            #[trigger] net.has_edge(e) && closed1[e.to as int] && e.to != heap0[best].0 ==> relaxed(
                net,
                closed1,
                out1,
                heap1,
                e,
            ),
{
    reveal(dijkstra_inv);
    let index = heap0[best].0;
    let cost = heap0[best].1;
    assert forall|e: Edge|
        #[trigger] net.has_edge(e) && closed1[e.to as int] && e.to != index implies relaxed(
        net,
        closed1,
        out1,
        heap1,
        e,
    ) by {
        assert(relaxed(net, closed0, out0, heap0, e));
        assert(e.to < net.nodes && e.from < net.nodes);
        assert(out1[e.to as int] == out0[e.to as int]);
        if closed0[e.from as int] && out0[e.from as int].unwrap() <= out0[e.to as int].unwrap()
            + e.cost {
            assert(out1[e.from as int] == out0[e.from as int]);
        } else {
            let k = choose|k: int|
                0 <= k < heap0.len() && (#[trigger] heap0[k]).0 == e.from && heap0[k].1
                    <= out0[e.to as int].unwrap() + e.cost;
            if e.from == index {
                assert(heap0[best].1 <= heap0[k].1);
                assert(out1[e.from as int].unwrap() == cost);
            } else if k == best {
                assert(false);
            } else if k == heap0.len() - 1 && best < heap0.len() - 1 {
                assert(heap0.last() == heap0[k]);
                assert(heap1[best] == heap0[k]);
                assert(heap1[best].0 == e.from && heap1[best].1 <= out1[e.to as int].unwrap()
                    + e.cost);
            } else {
                assert(heap1[k].0 == e.from && heap1[k].1 <= out1[e.to as int].unwrap() + e.cost);
            }
        }
    }
}

/// Settling the node of a minimal entry restores the working state for the
/// relaxation of its incoming edges.
proof fn lemma_dijkstra_close(
    net: Network,
    goals: Seq<usize>,
    closed0: Seq<bool>,
    out0: Seq<Option<u32>>,
    heap0: Seq<(usize, u32)>,
    best: int,
    closed1: Seq<bool>,
    out1: Seq<Option<u32>>,
    heap1: Seq<(usize, u32)>,
)
    requires
        close_pre(net, goals, closed0, out0, heap0, best, closed1, out1, heap1),
    ensures
        dijkstra_mid_inv(net, goals, closed1, out1, heap1, heap0[best].0, heap0[best].1),
        count_true(closed1) == count_true(closed0) + 1,
        closed1.len() == net.nodes,
        out1.len() == net.nodes,
{
    lemma_dijkstra_close_frontier(
        net,
        goals,
        closed0,
        out0,
        heap0,
        best,
        closed1,
        out1,
        heap1,
    );
    lemma_dijkstra_close_witness(net, goals, closed0, out0, heap0, best, closed1, out1, heap1);
    lemma_dijkstra_close_goals(net, goals, closed0, out0, heap0, best, closed1, out1, heap1);
    lemma_dijkstra_close_edges(net, goals, closed0, out0, heap0, best, closed1, out1, heap1);
    reveal(dijkstra_inv);
    reveal(dijkstra_mid_inv);
    assert(closed1.len() == net.nodes);
    assert(dijkstra_mid_inv(net, goals, closed1, out1, heap1, heap0[best].0, heap0[best].1));
}

/// Pushing the relaxation of one in-edge of `index` keeps the working state
/// and discharges that edge.
proof fn lemma_dijkstra_push(
    net: Network,
    goals: Seq<usize>,
    closed: Seq<bool>,
    out: Seq<Option<u32>>,
    heap0: Seq<(usize, u32)>,
    e: Edge,
    index: usize,
    cost: u32,
    heap1: Seq<(usize, u32)>,
)
    requires
        dijkstra_mid_inv(net, goals, closed, out, heap0, index, cost),
        net.has_edge(e),
        e.to == index,
        e.from < net.nodes,
        !closed[e.from as int],
        cost + e.cost <= u32::MAX,
        heap1 == heap0.push((e.from, (cost + e.cost) as u32)),
    ensures
        dijkstra_mid_inv(net, goals, closed, out, heap1, index, cost),
        relaxed(net, closed, out, heap1, e),
        forall|e2: Edge|
            #[trigger] relaxed(net, closed, out, heap0, e2) ==> relaxed(net, closed, out, heap1, e2),
{
    reveal(dijkstra_mid_inv);
    let pushed = (e.from, (cost + e.cost) as u32);
    assert(heap1.last() == pushed);
    assert(forall|k: int| 0 <= k < heap0.len() ==> #[trigger] heap1[k] == heap0[k]);
    assert(net.has_edge(e) && e.from == pushed.0 && closed[e.to as int] && e.cost <= pushed.1
        && out[e.to as int] == Some((pushed.1 - e.cost) as u32));
    assert(entry_witnessed(net, goals, closed, out, pushed));
    assert forall|k: int| 0 <= k < heap1.len() implies entry_witnessed(
        net,
        goals,
        closed,
        out,
        #[trigger] heap1[k],
    ) by {
        if k < heap0.len() {
            assert(entry_witnessed(net, goals, closed, out, heap0[k]));
        }
    }
    assert(relaxed(net, closed, out, heap1, e));
    assert forall|e2: Edge| #[trigger] relaxed(net, closed, out, heap0, e2) implies relaxed(
        net,
        closed,
        out,
        heap1,
        e2,
    ) by {
        if !(closed[e2.from as int] && out[e2.from as int].unwrap() <= out[e2.to as int].unwrap()
            + e2.cost) {
            let k = choose|k: int|
                0 <= k < heap0.len() && (#[trigger] heap0[k]).0 == e2.from && heap0[k].1
                    <= out[e2.to as int].unwrap() + e2.cost;
            assert(heap1[k] == heap0[k]);
        }
    }
    assert forall|e2: Edge|
        #[trigger] net.has_edge(e2) && closed[e2.to as int] && e2.to != index implies relaxed(
        net,
        closed,
        out,
        heap1,
        e2,
    ) by {
        assert(relaxed(net, closed, out, heap0, e2));
    }
    assert forall|i2: int| 0 <= i2 < goals.len() implies goal_seeded(
        goals,
        closed,
        out,
        heap1,
        i2,
    ) by {
        assert(goal_seeded(goals, closed, out, heap0, i2));
        if !(closed[goals[i2] as int] && out[goals[i2] as int] == Some(0u32)) {
            let k = choose|k: int|
                0 <= k < heap0.len() && #[trigger] heap0[k] == (goals[i2], 0u32);
            assert(heap1[k] == heap0[k]);
        }
    }
}

/// Once every in-edge of `index` has been relaxed, the resting state holds
/// again.
proof fn lemma_dijkstra_finish(
    net: Network,
    goals: Seq<usize>,
    closed: Seq<bool>,
    out: Seq<Option<u32>>,
    heap: Seq<(usize, u32)>,
    index: usize,
    cost: u32,
    in_seq: Seq<Edge>,
)
    requires
        dijkstra_mid_inv(net, goals, closed, out, heap, index, cost),
        net.wf(),
        in_seq == edges_into(net.all_edges(), index as int),
        forall|j: int| 0 <= j < in_seq.len() ==> relaxed(net, closed, out, heap, in_seq[j]),
    ensures
        dijkstra_inv(net, goals, closed, out, heap),
{
    reveal(dijkstra_inv);
    reveal(dijkstra_mid_inv);
    assert forall|e: Edge| #[trigger] net.has_edge(e) && closed[e.to as int] implies relaxed(
        net,
        closed,
        out,
        heap,
        e,
    ) by {
        if e.to == index {
            let k = choose|k: int|
                0 <= k < net.all_edges().len() && net.all_edges()[k] == e;
            lemma_edges_into_complete(net.all_edges(), index as int, k);
            let j = choose|j: int| 0 <= j < in_seq.len() && in_seq[j] == e;
            assert(relaxed(net, closed, out, heap, in_seq[j]));
        }
    }
}

/// What the shortest-path table promises: goals cost zero, every edge into
/// a reached node relaxes its source, and every finite cost is witnessed by
/// a goal or an exact edge step.
pub open spec fn dijkstra_post(net: Network, goals: Seq<usize>, out: Seq<Option<u32>>) -> bool {
    &&& out.len() == net.nodes
    &&& forall|i: int| 0 <= i < goals.len() ==> out[#[trigger] goals[i] as int] == Some(0u32)
    &&& forall|e: Edge|
        #[trigger] net.has_edge(e) && out[e.to as int] is Some ==> out[e.from as int] is Some
            && out[e.from as int].unwrap() <= out[e.to as int].unwrap() + e.cost
    &&& forall|v: int|
        0 <= v < net.nodes && (#[trigger] out[v]) is Some ==> (out[v].unwrap() == 0
            && goals.contains(v as usize)) || exists|e: Edge|
            #[trigger] net.has_edge(e) && e.from == v && e.cost <= out[v].unwrap()
                && out[e.to as int] is Some && out[e.to as int].unwrap() == out[v].unwrap()
                - e.cost
}

impl Network {
    /// Reverse-graph shortest distances: `r[v]` is the least total edge cost
    /// of a directed path from `v` to any node of `nodes`, or `None` when no
    /// such path exists.  The contract pins the table down by three facts:
    /// goals cost zero, every edge into a reached node relaxes its source,
    /// and every finite cost is witnessed by a goal or an exact edge step.
    pub fn dijkstra(&self, nodes: Vec<usize>) -> (out: Vec<Option<u32>>)
        requires
            self.wf(),
            forall|i: int| 0 <= i < nodes@.len() ==> (#[trigger] nodes@[i]) < self.nodes,
            255 * (self.nodes as int) <= u32::MAX,
        ensures
            out@.len() == self.nodes,
            dijkstra_post(*self, nodes@, out@),
    {
        let n = self.nodes;
        let mut closed: Vec<bool> = Vec::new();
        let mut out: Vec<Option<u32>> = Vec::new();
        let mut i: usize = 0;
        while i < n
            invariant
                i <= n,
                closed@.len() == i,
                out@.len() == i,
                forall|v: int| 0 <= v < i ==> !(#[trigger] closed@[v]),
                forall|v: int| 0 <= v < i ==> (#[trigger] out@[v]) is None,
            decreases n - i,
        {
            closed.push(false);
            out.push(None);
            i = i + 1;
        }
        proof {
            lemma_count_true_zero(closed@);
        }
        let mut heap: Vec<(usize, u32)> = Vec::new();
        let mut g: usize = 0;
        while g < nodes.len()
            invariant
                g <= nodes@.len(),
                closed@.len() == n,
                out@.len() == n,
                n == self.nodes,
                count_true(closed@) == 0,
                forall|v: int| 0 <= v < n ==> !(#[trigger] closed@[v]),
                forall|v: int| 0 <= v < n ==> (#[trigger] out@[v]) is None,
                forall|i2: int| 0 <= i2 < nodes@.len() ==> (#[trigger] nodes@[i2]) < n,
                forall|k: int|
                    0 <= k < heap@.len() ==> (#[trigger] heap@[k]).1 == 0 && nodes@.contains(
                        heap@[k].0,
                    ) && heap@[k].0 < n,
                forall|i2: int|
                    0 <= i2 < g ==> exists|k: int|
                        0 <= k < heap@.len() && #[trigger] heap@[k] == ((#[trigger] nodes@[i2]),
                        0u32),
            decreases nodes@.len() - g,
        {
            let node = nodes[g];
            let ghost prevh = heap@;
            heap.push((node, 0));
            proof {
                assert(heap@[heap@.len() - 1] == (nodes@[g as int], 0u32));
                assert(nodes@.contains(nodes@[g as int]));
                assert forall|i2: int| 0 <= i2 < g + 1 implies exists|k: int|
                    0 <= k < heap@.len() && #[trigger] heap@[k] == ((#[trigger] nodes@[i2]),
                    0u32) by {
                    if i2 < g {
                        let k = choose|k: int|
                            0 <= k < prevh.len() && #[trigger] prevh[k] == (nodes@[i2], 0u32);
                        assert(heap@[k] == prevh[k]);
                    } else {
                        assert(heap@[heap@.len() - 1] == (nodes@[i2], 0u32));
                    }
                }
            }
            g = g + 1;
        }
        proof {
            reveal(dijkstra_inv);
            assert forall|i2: int| 0 <= i2 < nodes@.len() implies goal_seeded(
                nodes@,
                closed@,
                out@,
                heap@,
                i2,
            ) by {}
            assert forall|k: int| 0 <= k < heap@.len() implies entry_witnessed(
                *self,
                nodes@,
                closed@,
                out@,
                heap@[k],
            ) by {}
            assert(dijkstra_inv(*self, nodes@, closed@, out@, heap@));
        }
        while heap.len() > 0
            invariant
                n == self.nodes,
                self.wf(),
                255 * (self.nodes as int) <= u32::MAX,
                closed@.len() == n,
                out@.len() == n,
                dijkstra_inv(*self, nodes@, closed@, out@, heap@),
            decreases n - count_true(closed@), heap@.len(),
        {
            proof {
                lemma_count_true_bounds(closed@);
            }
            let ghost heap0 = heap@;
            let ghost closed0 = closed@;
            let ghost out0 = out@;
            let mut best: usize = 0;
            let mut j: usize = 1;
            while j < heap.len()
                invariant
                    heap@.len() > 0,
                    best < heap@.len(),
                    j <= heap@.len(),
                    heap@ == heap0,
                    forall|k: int| 0 <= k < j ==> heap@[best as int].1 <= (#[trigger] heap@[k]).1,
                decreases heap@.len() - j,
            {
                if heap[j].1 < heap[best].1 {
                    best = j;
                }
                j = j + 1;
            }
            let entry = heap[best];
            let index = entry.0;
            let cost = entry.1;
            heap.swap_remove(best);
            proof {
                assert(heap0[best as int] == entry);
                assert(forall|k: int|
                    0 <= k < heap0.len() ==> entry.1 <= (#[trigger] heap0[k]).1);
                assert(index < n) by {
                    reveal(dijkstra_inv);
                }
            }
            if !closed[index] {
                closed.set(index, true);
                out.set(index, Some(cost));
                proof {
                    lemma_dijkstra_close(
                        *self,
                        nodes@,
                        closed0,
                        out0,
                        heap0,
                        best as int,
                        closed@,
                        out@,
                        heap@,
                    );
                }
                let in_edges = self.get_in(index);
                let ghost in_seq = in_edges@;
                let mut t: usize = 0;
                while t < in_edges.len()
                    invariant
                        n == self.nodes,
                        self.wf(),
                        255 * (self.nodes as int) <= u32::MAX,
                        t <= in_seq.len(),
                        in_edges@ == in_seq,
                        in_seq == edges_into(self.all_edges(), index as int),
                        index < n,
                        closed@.len() == n,
                        out@.len() == n,
                        dijkstra_mid_inv(*self, nodes@, closed@, out@, heap@, index, cost),
                        forall|j2: int|
                            0 <= j2 < t ==> relaxed(*self, closed@, out@, heap@, in_seq[j2]),
                    decreases in_seq.len() - t,
                {
                    let e = in_edges[t];
                    proof {
                        lemma_edges_into_sound(self.all_edges(), index as int, t as int);
                        lemma_count_true_bounds(closed@);
                        assert(self.has_edge(e));
                        assert(e.from < n && e.to < n);
                        assert(e.to == index);
                    }
                    let ghost prevh = heap@;
                    if !closed[e.from] {
                        proof {
                            reveal(dijkstra_mid_inv);
                            assert(cost + e.cost <= 255 * (self.nodes as int));
                        }
                        heap.push((e.from, cost + e.cost as u32));
                        proof {
                            lemma_dijkstra_push(
                                *self,
                                nodes@,
                                closed@,
                                out@,
                                prevh,
                                e,
                                index,
                                cost,
                                heap@,
                            );
                        }
                    } else {
                        proof {
                            reveal(dijkstra_mid_inv);
                            assert(relaxed(*self, closed@, out@, heap@, e));
                        }
                    }
                    t = t + 1;
                }
                proof {
                    lemma_dijkstra_finish(
                        *self,
                        nodes@,
                        closed@,
                        out@,
                        heap@,
                        index,
                        cost,
                        in_seq,
                    );
                    lemma_count_true_bounds(closed@);
                }
            } else {
                proof {
                    lemma_dijkstra_skip(
                        *self,
                        nodes@,
                        closed0,
                        out0,
                        heap0,
                        best as int,
                        heap@,
                    );
                }
            }
        }
        proof {
            reveal(dijkstra_inv);
            assert forall|i2: int| 0 <= i2 < nodes@.len() implies out@[#[trigger] nodes@[i2] as int]
                == Some(0u32) by {
                assert(goal_seeded(nodes@, closed@, out@, heap@, i2));
            }
            assert forall|e: Edge|
                #[trigger] self.has_edge(e) && out@[e.to as int] is Some implies out@[e.from as int]
                is Some && out@[e.from as int].unwrap() <= out@[e.to as int].unwrap()
                + e.cost by {
                assert(relaxed(*self, closed@, out@, heap@, e));
            }
            assert forall|v: int|
                0 <= v < self.nodes && (#[trigger] out@[v]) is Some implies (out@[v].unwrap() == 0
                && nodes@.contains(v as usize)) || exists|e: Edge|
                #[trigger] self.has_edge(e) && e.from == v && e.cost <= out@[v].unwrap()
                    && out@[e.to as int] is Some && out@[e.to as int].unwrap() == out@[v].unwrap()
                    - e.cost by {
                assert(node_witnessed(*self, nodes@, out@, v));
            }
            assert(dijkstra_post(*self, nodes@, out@));
        }
        out
    }
}

} // verus!
