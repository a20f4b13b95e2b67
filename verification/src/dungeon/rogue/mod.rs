//! The classic dungeon style: a grid of rooms joined by passages.
use crate::dungeon::{Coord, Direction};
use std::ops::Range;
use vstd::prelude::*;

pub mod graph;
pub mod passages;

verus! {

/// What a tile of the floor is made of.
#[derive(Clone, Copy, Debug, PartialEq, Eq, Structural, Hash)]
pub enum Surface {
    Passage,
    Floor,
    WallX,
    WallY,
    Stair,
    Door,
    Trap,
    /// Nothing at all: solid rock.
    Blank,
}

impl Surface {
    /// Whether a character can stand on this surface.
    pub open spec fn walkable(self) -> bool {
        self != Surface::WallX && self != Surface::WallY && self != Surface::Blank
    }

    /// Whether a character can stand on this surface.
    pub fn can_walk(&self) -> (b: bool)
        ensures
            b == self.walkable(),
    {
        match self {
            Surface::WallX | Surface::WallY | Surface::Blank => false,
            _ => true,
        }
    }
}

/// A rectangle of tiles: the columns `x_start..x_end` of the rows
/// `y_start..y_end`. It holds at least one tile.
#[derive(Clone, Copy, Debug, PartialEq, Eq, Hash)]
pub struct TileRange {
    x_start: i32,
    x_end: i32,
    y_start: i32,
    y_end: i32,
}

impl TileRange {
    #[verifier::type_invariant]
    pub closed spec fn inv(self) -> bool {
        self.x_start < self.x_end && self.y_start < self.y_end
    }

    /// The first column.
    pub closed spec fn x_start(self) -> int {
        self.x_start as int
    }

    /// The column after the last one.
    pub closed spec fn x_end(self) -> int {
        self.x_end as int
    }

    /// The first row.
    pub closed spec fn y_start(self) -> int {
        self.y_start as int
    }

    /// The row after the last one.
    pub closed spec fn y_end(self) -> int {
        self.y_end as int
    }

    /// The rectangle of the given columns and rows, unless one of the two
    /// ranges is empty.
    pub fn from_ranges(x_range: Range<i32>, y_range: Range<i32>) -> (made: Option<TileRange>)
        ensures
            made.is_some() == (x_range.start < x_range.end && y_range.start < y_range.end),
            made matches Some(r) ==> {
                &&& r.x_start() == x_range.start
                &&& r.x_end() == x_range.end
                &&& r.y_start() == y_range.start
                &&& r.y_end() == y_range.end
                &&& r.inv()
            },
    {
        if x_range.start < x_range.end && y_range.start < y_range.end {
            Some(
                TileRange {
                    x_start: x_range.start,
                    x_end: x_range.end,
                    y_start: y_range.start,
                    y_end: y_range.end,
                },
            )
        } else {
            None
        }
    }

    /// The columns of the rectangle.
    pub fn get_x(&self) -> (r: Range<i32>)
        ensures
            r.start == self.x_start(),
            r.end == self.x_end(),
            r.start < r.end,
    {
        proof {
            use_type_invariant(self);
        }
        self.x_start..self.x_end
    }

    /// The rows of the rectangle.
    pub fn get_y(&self) -> (r: Range<i32>)
        ensures
            r.start == self.y_start(),
            r.end == self.y_end(),
            r.start < r.end,
    {
        proof {
            use_type_invariant(self);
        }
        self.y_start..self.y_end
    }
}

/// The shape of a room.
#[derive(Clone, Debug)]
pub enum RoomKind {
    /// A walled rectangle; `range` includes the walls.
    Normal { range: TileRange },
    /// A maze that fills `range`; a passage may attach at each of `passages`.
    Maze { range: TileRange, passages: Vec<Coord> },
    /// No room at all, only a point that passages run through.
    Empty { up_left: Coord },
}

/// One room of the grid.
#[derive(Clone, Debug)]
pub struct Room {
    pub kind: RoomKind,
}

impl Room {
    /// A room of the given shape.
    pub fn new(kind: RoomKind) -> (room: Room)
        ensures
            room.kind == kind,
    {
        Room { kind }
    }

    /// Whether a passage that leaves the room in `direction` finds a tile to
    /// attach to.
    pub fn attaches(&self, direction: Direction) -> (ok: bool)
        ensures
            ok == self.can_attach(direction),
    {
        match &self.kind {
            RoomKind::Normal { range } => {
                let xs = range.get_x();
                let ys = range.get_y();
                match direction {
                    Direction::Up | Direction::Down => xs.end as i64 - xs.start as i64 > 2,
                    Direction::Left | Direction::Right => ys.end as i64 - ys.start as i64 > 2,
                    _ => false,
                }
            },
            RoomKind::Maze { range: _, passages } => passages.len() > 0,
            RoomKind::Empty { .. } => true,
        }
    }

    /// Whether a passage that leaves the room in direction `d` finds a tile to
    /// attach to: a wall needs a tile between its corners, and a maze one
    /// attachment point.
    pub open spec fn can_attach(self, d: Direction) -> bool {
        match self.kind {
            RoomKind::Normal { range } => edge_tiles(range, d).len() > 0,
            RoomKind::Maze { range, passages } => passages@.len() > 0,
            RoomKind::Empty { up_left } => true,
        }
    }
}

/// The tiles of the wall of `range` that faces direction `d`, without the two
/// corners, from the left or from the top. No wall faces a diagonal direction.
pub open spec fn edge_tiles(range: TileRange, d: Direction) -> Seq<Coord> {
    let across = range.x_end() - range.x_start() - 2;
    let along = range.y_end() - range.y_start() - 2;
    match d {
        Direction::Down => Seq::new(
            if across > 0 { across as nat } else { 0 },
            |i: int| Coord::at(range.x_start() + 1 + i, range.y_end() - 1),
        ),
        Direction::Up => Seq::new(
            if across > 0 { across as nat } else { 0 },
            |i: int| Coord::at(range.x_start() + 1 + i, range.y_start()),
        ),
        Direction::Left => Seq::new(
            if along > 0 { along as nat } else { 0 },
            |i: int| Coord::at(range.x_start(), range.y_start() + 1 + i),
        ),
        Direction::Right => Seq::new(
            if along > 0 { along as nat } else { 0 },
            |i: int| Coord::at(range.x_end() - 1, range.y_start() + 1 + i),
        ),
        _ => Seq::empty(),
    }
}

} // verus!
