use vstd::prelude::*;
use crate::{Cell, Direction, direction_index, direction_index_spec, direction_of_index,
    direction_of_index_spec, get_opposite, opposite_spec};
use crate::network::Edge;

verus! {

/// A road within one tile: a vehicle facing `entry` at `(x, y)` may leave
/// the tile facing `exit`.
#[derive(Clone, Copy, Debug, PartialEq, Eq, Structural)]
pub struct Road {
    pub x: usize,
    pub y: usize,
    pub entry: Direction,
    pub exit: Direction,
}

impl Road {
    pub fn new(x: usize, y: usize, entry: Direction, exit: Direction) -> (r: Road)
        ensures
            r == (Road { x, y, entry, exit }),
    {
        Road { x, y, entry, exit }
    }

    /// The cell a vehicle occupies when it enters this road.
    pub fn get_start(&self) -> (r: Cell)
        ensures
            r == (Cell { x: self.x, y: self.y, d: self.entry }),
    {
        Cell { x: self.x, y: self.y, d: self.entry }
    }

    /// The cell a vehicle leaves this road through.
    pub fn get_exit(&self) -> (r: Cell)
        ensures
            r == (Cell { x: self.x, y: self.y, d: self.exit }),
    {
        Cell { x: self.x, y: self.y, d: self.exit }
    }
}

/// The canonical node index of `cell` on a `width`-wide map.
pub open spec fn cell_index_spec(cell: Cell, width: int) -> int {
    direction_index_spec(cell.d) + 4 * cell.x + 4 * width * cell.y
}

/// The cell whose canonical index is `index` on a `width`-wide map.
pub open spec fn cell_of_index_spec(index: int, width: int) -> Cell {
    Cell {
        x: ((index % (4 * width)) / 4) as usize,
        y: (index / (4 * width)) as usize,
        d: direction_of_index_spec((index % (4 * width)) % 4),
    }
}

/// One tile forward in the cell's own direction, bounded by the map.
pub open spec fn forward_spec(cell: Cell, width: int, height: int) -> Option<Cell> {
    match cell.d {
        Direction::North => if cell.y > 0 {
            Some(Cell { x: cell.x, y: (cell.y - 1) as usize, d: cell.d })
        } else {
            None
        },
        Direction::South => if cell.y < height - 1 {
            Some(Cell { x: cell.x, y: (cell.y + 1) as usize, d: cell.d })
        } else {
            None
        },
        Direction::West => if cell.x > 0 {
            Some(Cell { x: (cell.x - 1) as usize, y: cell.y, d: cell.d })
        } else {
            None
        },
        Direction::East => if cell.x < width - 1 {
            Some(Cell { x: (cell.x + 1) as usize, y: cell.y, d: cell.d })
        } else {
            None
        },
    }
}

/// The edge contributed by one road: from the road's start cell to the cell
/// one tile beyond its exit, when that tile is on the map.
pub open spec fn road_edge_spec(road: Road, width: int, height: int) -> Seq<Edge> {
    let start = Cell { x: road.x, y: road.y, d: road.entry };
    let exit = Cell { x: road.x, y: road.y, d: road.exit };
    match forward_spec(exit, width, height) {
        Some(fwd) => seq![
            Edge {
                from: cell_index_spec(start, width) as usize,
                to: cell_index_spec(fwd, width) as usize,
                cost: 1,
            },
        ],
        None => Seq::empty(),
    }
}

/// The edges of the first `k` roads, in order.
pub open spec fn roads_edges_spec(roads: Seq<Road>, width: int, height: int, k: int) -> Seq<Edge>
    decreases k,
{
    if k <= 0 {
        Seq::empty()
    } else {
        roads_edges_spec(roads, width, height, k - 1) + road_edge_spec(roads[k - 1], width, height)
    }
}

/// The roads `Road { x, y, entry, exit }` for `x` in `0 .. xc`.
pub open spec fn all_roads_x(entry: Direction, exit: Direction, y: int, xc: int) -> Seq<Road>
    decreases xc,
{
    if xc <= 0 {
        Seq::empty()
    } else {
        all_roads_x(entry, exit, y, xc - 1) + seq![
            Road { x: (xc - 1) as usize, y: y as usize, entry, exit },
        ]
    }
}

/// Those roads for every row `y` in `0 .. yc`.
pub open spec fn all_roads_y(width: int, entry: Direction, exit: Direction, yc: int) -> Seq<Road>
    decreases yc,
{
    if yc <= 0 {
        Seq::empty()
    } else {
        all_roads_y(width, entry, exit, yc - 1) + all_roads_x(entry, exit, yc - 1, width)
    }
}

/// Those roads for the first `ec` entry directions that do not U-turn out
/// of `exit`.
pub open spec fn all_roads_entries(width: int, height: int, exit: Direction, ec: int) -> Seq<Road>
    decreases ec,
{
    if ec <= 0 {
        Seq::empty()
    } else {
        all_roads_entries(width, height, exit, ec - 1) + (if exit != opposite_spec(
            direction_of_index_spec(ec - 1),
        ) {
            all_roads_y(width, direction_of_index_spec(ec - 1), exit, height)
        } else {
            Seq::empty()
        })
    }
}

/// Every road of the saturated map, for the first `xc` exit directions.
pub open spec fn all_roads_exits(width: int, height: int, xc: int) -> Seq<Road>
    decreases xc,
{
    if xc <= 0 {
        Seq::empty()
    } else {
        all_roads_exits(width, height, xc - 1) + all_roads_entries(
            width,
            height,
            direction_of_index_spec(xc - 1),
            4,
        )
    }
}

/// The city map: dimensions, roads, and the node-index groups for sources,
/// destinations and traffic lights.
#[derive(Clone, Debug)]
pub struct City {
    pub id: usize,
    pub width: usize,
    pub height: usize,
    pub roads: Vec<Road>,
    pub sources: Vec<Vec<usize>>,
    pub destinations: Vec<Vec<usize>>,
    pub lights: Vec<Vec<usize>>,
}

impl City {
    /// The map has room for its node indices and every stored index is in
    /// range; roads lie on the map.
    pub open spec fn wf(self) -> bool {
        &&& self.width >= 1
        &&& self.height >= 1
        &&& 4 * self.width * self.height <= usize::MAX
        &&& forall|i: int|
            0 <= i < self.roads@.len() ==> (#[trigger] self.roads@[i]).x < self.width
                && self.roads@[i].y < self.height
        &&& forall|g: int, i: int|
            0 <= g < self.sources@.len() && 0 <= i < self.sources@[g]@.len()
                ==> (#[trigger] self.sources@[g]@[i]) < 4 * self.width * self.height
        &&& forall|g: int, i: int|
            0 <= g < self.destinations@.len() && 0 <= i < self.destinations@[g]@.len()
                ==> (#[trigger] self.destinations@[g]@[i]) < 4 * self.width * self.height
        &&& forall|g: int, i: int|
            0 <= g < self.lights@.len() && 0 <= i < self.lights@[g]@.len()
                ==> (#[trigger] self.lights@[g]@[i]) < 4 * self.width * self.height
    }

    pub fn new(width: usize, height: usize) -> (r: City)
        ensures
            r.id == 0,
            r.width == width,
            r.height == height,
            r.roads@.len() == 0,
            r.sources@.len() == 0,
            r.destinations@.len() == 0,
            r.lights@.len() == 0,
    {
        City {
            id: 0,
            width,
            height,
            roads: Vec::new(),
            sources: Vec::new(),
            destinations: Vec::new(),
            lights: Vec::new(),
        }
    }

    /// The map saturated with every road that does not U-turn within its
    /// tile: twelve per tile.
    pub fn _with_all_roads(width: usize, height: usize) -> (r: City)
        ensures
            r.id == 0,
            r.width == width,
            r.height == height,
            r.roads@ == all_roads_exits(width as int, height as int, 4),
            r.sources@.len() == 0,
            r.destinations@.len() == 0,
            r.lights@.len() == 0,
    {
        let mut roads: Vec<Road> = Vec::new();
        let mut ei: usize = 0;
        while ei < 4
            invariant
                ei <= 4,
                roads@ == all_roads_exits(width as int, height as int, ei as int),
            decreases 4 - ei,
        {
            let exit = direction_of_index(ei);
            let mut ni: usize = 0;
            while ni < 4
                invariant
                    ni <= 4,
                    ei < 4,
                    exit == direction_of_index_spec(ei as int),
                    roads@ == all_roads_exits(width as int, height as int, ei as int)
                        + all_roads_entries(width as int, height as int, exit, ni as int),
                decreases 4 - ni,
            {
                let entry = direction_of_index(ni);
                if !(exit == get_opposite(&entry)) {
                    let mut y: usize = 0;
                    while y < height
                        invariant
                            y <= height,
                            ni < 4,
                            ei < 4,
                            exit == direction_of_index_spec(ei as int),
                            entry == direction_of_index_spec(ni as int),
                            exit != opposite_spec(entry),
                            roads@ == all_roads_exits(width as int, height as int, ei as int)
                                + all_roads_entries(width as int, height as int, exit, ni as int)
                                + all_roads_y(width as int, entry, exit, y as int),
                        decreases height - y,
                    {
                        let mut x: usize = 0;
                        while x < width
                            invariant
                                x <= width,
                                y < height,
                                ni < 4,
                                ei < 4,
                                exit == direction_of_index_spec(ei as int),
                                entry == direction_of_index_spec(ni as int),
                                exit != opposite_spec(entry),
                                roads@ == all_roads_exits(width as int, height as int, ei as int)
                                    + all_roads_entries(
                                    width as int,
                                    height as int,
                                    exit,
                                    ni as int,
                                ) + all_roads_y(width as int, entry, exit, y as int)
                                    + all_roads_x(entry, exit, y as int, x as int),
                            decreases width - x,
                        {
                            roads.push(Road { x, y, entry, exit });
                            proof {
                                assert(roads@ =~= all_roads_exits(
                                    width as int,
                                    height as int,
                                    ei as int,
                                ) + all_roads_entries(width as int, height as int, exit, ni as int)
                                    + all_roads_y(width as int, entry, exit, y as int)
                                    + all_roads_x(entry, exit, y as int, x + 1));
                            }
                            x = x + 1;
                        }
                        proof {
                            assert(roads@ =~= all_roads_exits(
                                width as int,
                                height as int,
                                ei as int,
                            ) + all_roads_entries(width as int, height as int, exit, ni as int)
                                + all_roads_y(width as int, entry, exit, y + 1));
                        }
                        y = y + 1;
                    }
                    proof {
                        assert(roads@ =~= all_roads_exits(width as int, height as int, ei as int)
                            + all_roads_entries(width as int, height as int, exit, ni + 1));
                    }
                } else {
                    proof {
                        assert(roads@ =~= all_roads_exits(width as int, height as int, ei as int)
                            + all_roads_entries(width as int, height as int, exit, ni + 1));
                    }
                }
                ni = ni + 1;
            }
            proof {
                assert(roads@ =~= all_roads_exits(width as int, height as int, ei + 1));
            }
            ei = ei + 1;
        }
        City {
            id: 0,
            width,
            height,
            roads,
            sources: Vec::new(),
            destinations: Vec::new(),
            lights: Vec::new(),
        }
    }

    /// One tile forward in the cell's own direction, or `None` at the map's
    /// edge.
    pub fn forward(&self, cell: &Cell) -> (r: Option<Cell>)
        requires
            self.width >= 1,
            self.height >= 1,
        ensures
            r == forward_spec(*cell, self.width as int, self.height as int),
    {
        match cell.d {
            Direction::North => if cell.y > 0 {
                Some(Cell { x: cell.x, y: cell.y - 1, d: cell.d })
            } else {
                None
            },
            Direction::South => if cell.y < self.height - 1 {
                Some(Cell { x: cell.x, y: cell.y + 1, d: cell.d })
            } else {
                None
            },
            Direction::West => if cell.x > 0 {
                Some(Cell { x: cell.x - 1, y: cell.y, d: cell.d })
            } else {
                None
            },
            Direction::East => if cell.x < self.width - 1 {
                Some(Cell { x: cell.x + 1, y: cell.y, d: cell.d })
            } else {
                None
            },
        }
    }

    /// The canonical node index of `cell`: its direction index, plus four
    /// per tile along the row, plus four rows of `width` tiles per row
    /// above.
    pub fn get_index(&self, cell: &Cell) -> (r: usize)
        requires
            cell.x < self.width,
            cell.y < self.height,
            4 * self.width * self.height <= usize::MAX,
        ensures
            r == cell_index_spec(*cell, self.width as int),
            r < 4 * self.width * self.height,
    {
        proof {
            assert(direction_index_spec(cell.d) + 4 * cell.x + 4 * self.width * cell.y < 4
                * self.width * self.height && 4 * cell.x <= usize::MAX && 4 * cell.y
                <= usize::MAX && 4 * cell.y * self.width <= usize::MAX && cell.y * 4
                * self.width == 4 * self.width * cell.y) by (nonlinear_arith)
                requires
                    cell.x < self.width,
                    cell.y < self.height,
                    direction_index_spec(cell.d) < 4,
                    4 * self.width * self.height <= usize::MAX,
            {}
        }
        direction_index(cell.d) + (cell.x * 4) + (cell.y * 4 * self.width)
    }

    /// The cell whose canonical index is `index`.
    pub fn get_cell(&self, index: usize) -> (r: Cell)
        requires
            self.width >= 1,
            4 * self.width <= usize::MAX,
        ensures
            r == cell_of_index_spec(index as int, self.width as int),
    {
        let y = index / (4 * self.width);
        let r = index % (4 * self.width);
        let x = r / 4;
        let d = r % 4;
        proof {
            assert(r % 4 < 4);
            assert((index as int % (4 * self.width)) % 4 == r as int % 4);
        }
        Cell { x, y, d: direction_of_index(d) }
    }

    pub fn get_num_nodes(&self) -> (r: usize)
        requires
            4 * self.width * self.height <= usize::MAX,
        ensures
            r == 4 * self.width * self.height,
    {
        proof {
            assert(self.width * self.height * 4 == 4 * self.width * self.height)
                by (nonlinear_arith);
            assert(self.width * self.height <= usize::MAX) by (nonlinear_arith)
                requires
                    4 * self.width * self.height <= usize::MAX,
            {}
        }
        self.width * self.height * 4
    }

    /// One edge of cost one per road whose exit leads onto the map.
    pub fn create_edges(&self) -> (r: Vec<Edge>)
        requires
            self.wf(),
        ensures
            r@ == roads_edges_spec(
                self.roads@,
                self.width as int,
                self.height as int,
                self.roads@.len() as int,
            ),
            forall|k: int|
                0 <= k < r@.len() ==> (#[trigger] r@[k]).from < 4 * self.width * self.height
                    && r@[k].to < 4 * self.width * self.height,
    {
        let mut out: Vec<Edge> = Vec::new();
        let mut i: usize = 0;
        while i < self.roads.len()
            invariant
                i <= self.roads@.len(),
                self.wf(),
                out@ == roads_edges_spec(
                    self.roads@,
                    self.width as int,
                    self.height as int,
                    i as int,
                ),
                forall|k: int|
                    0 <= k < out@.len() ==> (#[trigger] out@[k]).from < 4 * self.width
                        * self.height && out@[k].to < 4 * self.width * self.height,
            decreases self.roads@.len() - i,
        {
            let road = self.roads[i];
            if let Some(fwd) = self.forward(&road.get_exit()) {
                let from = self.get_index(&road.get_start());
                let to = self.get_index(&fwd);
                out.push(Edge { from, to, cost: 1 });
            }
            proof {
                assert(out@ =~= roads_edges_spec(
                    self.roads@,
                    self.width as int,
                    self.height as int,
                    i + 1,
                ));
            }
            i = i + 1;
        }
        out
    }
}

/// Indexing a cell and decoding the index round-trips: every on-map cell is
/// recovered exactly.
pub proof fn lemma_index_of_cell_round_trip(cell: Cell, width: int, height: int)
    requires
        width >= 1,
        cell.x < width,
        cell.y < height,
    ensures
        cell_of_index_spec(cell_index_spec(cell, width), width) == cell,
{
    let d = direction_index_spec(cell.d);
    let i = cell_index_spec(cell, width);
    assert(i == d + 4 * cell.x + 4 * width * cell.y);
    assert(i % (4 * width) == d + 4 * cell.x && i / (4 * width) == cell.y) by (nonlinear_arith)
        requires
            i == d + 4 * cell.x + 4 * width * cell.y,
            0 <= d < 4,
            width >= 1,
            0 <= cell.x < width,
            0 <= cell.y,
    {}
    assert((d + 4 * cell.x) / 4 == cell.x && (d + 4 * cell.x) % 4 == d) by (nonlinear_arith)
        requires
            0 <= d < 4,
            0 <= cell.x,
    {}
}

/// Decoding an index and re-indexing the cell round-trips: every index
/// under `4 * width * height` is recovered exactly.
pub proof fn lemma_cell_of_index_round_trip(index: int, width: int, height: int)
    requires
        width >= 1,
        0 <= index < 4 * width * height,
        4 * width * height <= usize::MAX,
    ensures
        cell_index_spec(cell_of_index_spec(index, width), width) == index,
        cell_of_index_spec(index, width).x < width,
        cell_of_index_spec(index, width).y < height,
{
    let r = index % (4 * width);
    let y = index / (4 * width);
    let x = r / 4;
    let d = r % 4;
    assert(height >= 1) by (nonlinear_arith)
        requires
            width >= 1,
            0 <= index < 4 * width * height,
    {}
    assert(0 <= r < 4 * width && index == (4 * width) * y + r && 0 <= y && y < height)
        by (nonlinear_arith)
        requires
            width >= 1,
            0 <= index < 4 * width * height,
            r == index % (4 * width),
            y == index / (4 * width),
    {}
    assert(0 <= d < 4 && r == 4 * x + d && 0 <= x && x < width) by (nonlinear_arith)
        requires
            0 <= r < 4 * width,
            x == r / 4,
            d == r % 4,
            width >= 1,
    {}
    assert(direction_index_spec(direction_of_index_spec(d)) == d);
    assert(x <= usize::MAX && y <= usize::MAX) by (nonlinear_arith)
        requires
            0 <= x < width,
            0 <= y < height,
            width >= 1,
            height >= 1,
            4 * width * height <= usize::MAX,
    {}
    assert(cell_index_spec(cell_of_index_spec(index, width), width) == d + 4 * x + 4 * width * y);
    assert(d + 4 * x + 4 * width * y == index) by (nonlinear_arith)
        requires
            index == (4 * width) * y + r,
            r == 4 * x + d,
    {}
}

} // verus!
