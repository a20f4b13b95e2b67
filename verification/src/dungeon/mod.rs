//! Tile coordinates and directions shared by every dungeon style.
use vstd::prelude::*;

pub mod rogue;

verus! {

/// A column of the tile grid.
#[derive(Clone, Copy, Debug, PartialEq, Eq, Structural, Hash)]
pub struct X(pub i32);

/// A row of the tile grid. Rows grow downwards.
#[derive(Clone, Copy, Debug, PartialEq, Eq, Structural, Hash)]
pub struct Y(pub i32);

/// A tile coordinate.
#[derive(Clone, Copy, Debug, PartialEq, Eq, Structural, Hash)]
pub struct Coord {
    pub x: X,
    pub y: Y,
}

/// The eight compass directions and standing still. The four cardinal
/// directions come first.
#[derive(Clone, Copy, Debug, PartialEq, Eq, Structural, Hash)]
pub enum Direction {
    Up,
    Right,
    Left,
    Down,
    LeftUp,
    RightUp,
    LeftDown,
    RightDown,
    Stay,
}

/// A value placed at a tile coordinate.
#[derive(Clone, Copy, Debug, PartialEq, Eq, Hash)]
pub struct Positioned<T>(pub Coord, pub T);

/// `n` steps of a unit step `unit`, which is -1, 0 or 1.
pub open spec fn scaled(unit: int, n: int) -> int {
    if unit > 0 {
        n
    } else if unit < 0 {
        -n
    } else {
        0
    }
}

impl Direction {
    /// The column step of one move in this direction.
    pub open spec fn dx(self) -> int {
        match self {
            Direction::Right | Direction::RightUp | Direction::RightDown => 1,
            Direction::Left | Direction::LeftUp | Direction::LeftDown => -1,
            Direction::Up | Direction::Down | Direction::Stay => 0,
        }
    }

    /// The row step of one move in this direction.
    pub open spec fn dy(self) -> int {
        match self {
            Direction::Down | Direction::LeftDown | Direction::RightDown => 1,
            Direction::Up | Direction::LeftUp | Direction::RightUp => -1,
            Direction::Left | Direction::Right | Direction::Stay => 0,
        }
    }

    /// Whether this is one of `Up`, `Right`, `Left`, `Down`.
    pub open spec fn is_cardinal(self) -> bool {
        self == Direction::Up || self == Direction::Right || self == Direction::Left
            || self == Direction::Down
    }

    /// The direction that undoes this one.
    pub open spec fn opposite(self) -> Direction {
        match self {
            Direction::Up => Direction::Down,
            Direction::Right => Direction::Left,
            Direction::Left => Direction::Right,
            Direction::Down => Direction::Up,
            Direction::LeftUp => Direction::RightDown,
            Direction::RightUp => Direction::LeftDown,
            Direction::LeftDown => Direction::RightUp,
            Direction::RightDown => Direction::LeftUp,
            Direction::Stay => Direction::Stay,
        }
    }

    /// The unit step of this direction as a coordinate.
    pub fn to_cd(self) -> (cd: Coord)
        ensures
            cd.x.0 == self.dx(),
            cd.y.0 == self.dy(),
    {
        match self {
            Direction::Up => Coord::new(0, -1),
            Direction::RightUp => Coord::new(1, -1),
            Direction::Right => Coord::new(1, 0),
            Direction::RightDown => Coord::new(1, 1),
            Direction::Down => Coord::new(0, 1),
            Direction::LeftDown => Coord::new(-1, 1),
            Direction::Left => Coord::new(-1, 0),
            Direction::LeftUp => Coord::new(-1, -1),
            Direction::Stay => Coord::new(0, 0),
        }
    }

    /// The direction that undoes this one.
    pub fn reverse(self) -> (rev: Direction)
        ensures
            rev == self.opposite(),
    {
        match self {
            Direction::Up => Direction::Down,
            Direction::Right => Direction::Left,
            Direction::Left => Direction::Right,
            Direction::Down => Direction::Up,
            Direction::LeftUp => Direction::RightDown,
            Direction::RightUp => Direction::LeftDown,
            Direction::LeftDown => Direction::RightUp,
            Direction::RightDown => Direction::LeftUp,
            Direction::Stay => Direction::Stay,
        }
    }
}

impl Coord {
    /// The coordinate at column `x`, row `y`.
    pub open spec fn at(x: int, y: int) -> Coord {
        Coord { x: X(x as i32), y: Y(y as i32) }
    }

    /// This coordinate moved `n` steps in direction `d`.
    pub open spec fn stepped(self, d: Direction, n: int) -> Coord {
        Coord::at(self.x.0 + scaled(d.dx(), n), self.y.0 + scaled(d.dy(), n))
    }

    /// Whether `other` is one step up, down, left or right of this coordinate.
    pub open spec fn touches(self, other: Coord) -> bool {
        ||| (self.x.0 == other.x.0 && (self.y.0 - other.y.0 == 1 || other.y.0 - self.y.0 == 1))
        ||| (self.y.0 == other.y.0 && (self.x.0 - other.x.0 == 1 || other.x.0 - self.x.0 == 1))
    }

    /// The coordinate at column `x`, row `y`.
    pub fn new(x: i32, y: i32) -> (cd: Coord)
        ensures
            cd == (Coord { x: X(x), y: Y(y) }),
    {
        Coord { x: X(x), y: Y(y) }
    }

    /// Whether this coordinate lies strictly left of `other`.
    pub fn is_lefter(self, other: Coord) -> (b: bool)
        ensures
            b == (self.x.0 < other.x.0),
    {
        self.x.0 < other.x.0
    }

    /// Whether this coordinate lies strictly above `other`.
    pub fn is_upper(self, other: Coord) -> (b: bool)
        ensures
            b == (self.y.0 < other.y.0),
    {
        self.y.0 < other.y.0
    }

    /// This coordinate moved one step in direction `d`.
    pub fn step(self, d: Direction) -> (cd: Coord)
        requires
            i32::MIN <= self.x.0 + d.dx() <= i32::MAX,
            i32::MIN <= self.y.0 + d.dy() <= i32::MAX,
        ensures
            cd == self.stepped(d, 1),
    {
        let delta = d.to_cd();
        Coord { x: X(self.x.0 + delta.x.0), y: Y(self.y.0 + delta.y.0) }
    }
}

} // verus!
