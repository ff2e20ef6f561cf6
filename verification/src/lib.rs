use vstd::prelude::*;

pub mod city;
pub mod city_map;
pub mod editor;
pub mod network;
pub mod occupancy;
pub mod random;
pub mod simulation;
pub mod steps;
pub mod version;

verus! {

/// One of the four orientations a cell can face.
#[derive(Clone, Copy, Debug, PartialEq, Eq, Structural)]
pub enum Direction {
    North,
    South,
    East,
    West,
}

/// The index 0..4 that the canonical ordering (N, E, S, W) assigns a direction.
pub open spec fn direction_index_spec(d: Direction) -> int {
    match d {
        Direction::North => 0,
        Direction::East => 1,
        Direction::South => 2,
        Direction::West => 3,
    }
}

pub fn direction_index(d: Direction) -> (r: usize)
    ensures
        r == direction_index_spec(d),
{
    match d {
        Direction::North => 0,
        Direction::East => 1,
        Direction::South => 2,
        Direction::West => 3,
    }
}

/// The direction whose canonical index differs by 2.
pub open spec fn opposite_spec(d: Direction) -> Direction {
    match d {
        Direction::North => Direction::South,
        Direction::East => Direction::West,
        Direction::South => Direction::North,
        Direction::West => Direction::East,
    }
}

pub fn get_opposite(direction: &Direction) -> (r: Direction)
    ensures
        r == opposite_spec(*direction),
{
    match *direction {
        Direction::North => Direction::South,
        Direction::East => Direction::West,
        Direction::South => Direction::North,
        Direction::West => Direction::East,
    }
}

/// The direction whose canonical index is `i`.
pub open spec fn direction_of_index_spec(i: int) -> Direction {
    if i == 0 {
        Direction::North
    } else if i == 1 {
        Direction::East
    } else if i == 2 {
        Direction::South
    } else {
        Direction::West
    }
}

pub fn direction_of_index(i: usize) -> (r: Direction)
    requires
        i < 4,
    ensures
        r == direction_of_index_spec(i as int),
{
    if i == 0 {
        Direction::North
    } else if i == 1 {
        Direction::East
    } else if i == 2 {
        Direction::South
    } else {
        Direction::West
    }
}

/// A graph node: a tile position together with an orientation.
#[derive(Clone, Copy, Debug, PartialEq, Eq, Structural)]
pub struct Cell {
    pub x: usize,
    pub y: usize,
    pub d: Direction,
}

impl Cell {
    pub fn new(x: usize, y: usize, d: Direction) -> (r: Cell)
        ensures
            r == (Cell { x, y, d }),
    {
        Cell { x, y, d }
    }
}

/// An in-flight vehicle: where it stands, the node indices it may arrive
/// at, and the destination group those indices came from.
#[derive(Clone, Debug)]
pub struct Vehicle {
    pub location: usize,
    pub destination: Vec<usize>,
    pub destination_index: usize,
}

/// A snapshot of all in-flight vehicles, tagged with a tick counter.
#[derive(Clone, Debug)]
pub struct Traffic {
    pub id: usize,
    pub vehicles: Vec<Vehicle>,
}

} // verus!
