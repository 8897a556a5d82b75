//! Coordinates on the grid and the four unit directions.
use vstd::prelude::*;

verus! {

/// One of the four orthogonal directions.
#[derive(Clone, Copy, Debug, PartialEq, Eq, Structural)]
pub enum Direction {
    Up,
    Down,
    Left,
    Right,
}

/// Horizontal component of a direction's unit offset.
pub open spec fn dx(d: Direction) -> int {
    match d {
        Direction::Left => -1,
        Direction::Right => 1,
        _ => 0,
    }
}

/// Vertical component of a direction's unit offset (rows grow downwards).
pub open spec fn dy(d: Direction) -> int {
    match d {
        Direction::Up => -1,
        Direction::Down => 1,
        _ => 0,
    }
}

/// The directions in the order in which the engine visits them.
pub open spec fn direction_at(i: int) -> Direction {
    if i == 0 {
        Direction::Up
    } else if i == 1 {
        Direction::Down
    } else if i == 2 {
        Direction::Left
    } else {
        Direction::Right
    }
}

/// Position of a direction in the engine's visiting order.
pub open spec fn direction_rank(d: Direction) -> int {
    match d {
        Direction::Up => 0,
        Direction::Down => 1,
        Direction::Left => 2,
        Direction::Right => 3,
    }
}

/// Executable form of `direction_at` for `i < 4`.
pub fn direction_from_index(i: usize) -> (d: Direction)
    requires
        i < 4,
    ensures
        d == direction_at(i as int),
{
    if i == 0 {
        Direction::Up
    } else if i == 1 {
        Direction::Down
    } else if i == 2 {
        Direction::Left
    } else {
        Direction::Right
    }
}

/// A cell position: column `x`, row `y`.
#[derive(Clone, Copy, Debug, PartialEq, Eq, Structural)]
pub struct Coordinate {
    pub x: i32,
    pub y: i32,
}

/// `(x, y)` lies on a `w` by `h` grid.
pub open spec fn in_grid(x: int, y: int, w: int, h: int) -> bool {
    0 <= x < w && 0 <= y < h
}

/// A coordinate whose neighbours in every direction are representable.
pub open spec fn steppable(c: Coordinate) -> bool {
    i32::MIN < c.x < i32::MAX && i32::MIN < c.y < i32::MAX
}

impl Coordinate {
    pub open spec fn spec_inside(self, w: int, h: int) -> bool {
        in_grid(self.x as int, self.y as int, w, h)
    }

    /// The neighbour of this coordinate in direction `d`.
    pub open spec fn spec_move_to(self, d: Direction) -> Coordinate {
        Coordinate { x: (self.x + dx(d)) as i32, y: (self.y + dy(d)) as i32 }
    }

    pub fn new(x: i32, y: i32) -> (r: Coordinate)
        ensures
            r.x == x,
            r.y == y,
    {
        Coordinate { x, y }
    }

    pub fn to_tuple(self) -> (r: (i32, i32))
        ensures
            r == (self.x, self.y),
    {
        (self.x, self.y)
    }

    /// Whether the coordinate lies on a `width` by `height` grid.
    pub fn inside(self, width: i32, height: i32) -> (r: bool)
        ensures
            r == self.spec_inside(width as int, height as int),
    {
        self.x >= 0 && self.x < width && self.y >= 0 && self.y < height
    }

    /// The coordinate one step away in `direction`.
    pub fn move_to(self, direction: Direction) -> (r: Coordinate)
        requires
            steppable(self),
        ensures
            r == self.spec_move_to(direction),
            r.x == self.x + dx(direction),
            r.y == self.y + dy(direction),
    {
        let off = direction.relative_position();
        Coordinate { x: self.x + off.x, y: self.y + off.y }
    }
}

impl Direction {
    /// The unit offset of this direction.
    pub fn relative_position(self) -> (r: Coordinate)
        ensures
            r.x == dx(self),
            r.y == dy(self),
    {
        match self {
            Direction::Up => Coordinate::new(0, -1),
            Direction::Down => Coordinate::new(0, 1),
            Direction::Left => Coordinate::new(-1, 0),
            Direction::Right => Coordinate::new(1, 0),
        }
    }
}

} // verus!
