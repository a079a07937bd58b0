//! Plain screen geometry: positions, rectangles, directions and sides.
use vstd::prelude::*;

verus! {

/// A cell position on the screen.
#[derive(Clone, Copy, PartialEq, Eq, Debug, Structural)]
pub struct Position {
    pub x: u16,
    pub y: u16,
}

/// A rectangular screen area.
#[derive(Clone, Copy, PartialEq, Eq, Debug, Structural)]
pub struct Rect {
    pub x: u16,
    pub y: u16,
    pub width: u16,
    pub height: u16,
}

/// Saturating addition of two `u16` values, as a number.
pub open spec fn sat_add(a: int, b: int) -> int {
    if a + b > u16::MAX { u16::MAX as int } else { a + b }
}

impl Position {
    pub fn new(x: u16, y: u16) -> (p: Position)
        ensures
            p.x == x,
            p.y == y,
    {
        Position { x, y }
    }
}

impl Rect {
    pub open spec fn spec_right(self) -> int {
        sat_add(self.x as int, self.width as int)
    }

    pub open spec fn spec_bottom(self) -> int {
        sat_add(self.y as int, self.height as int)
    }

    /// Whether a position lies inside the rectangle.
    pub open spec fn spec_contains(self, p: Position) -> bool {
        &&& self.x <= p.x
        &&& p.x < self.spec_right()
        &&& self.y <= p.y
        &&& p.y < self.spec_bottom()
    }

    pub fn new(x: u16, y: u16, width: u16, height: u16) -> (r: Rect)
        ensures
            r == (Rect { x, y, width, height }),
    {
        Rect { x, y, width, height }
    }

    /// The empty rectangle at the origin.
    pub fn zero() -> (r: Rect)
        ensures
            r == (Rect { x: 0, y: 0, width: 0, height: 0 }),
    {
        Rect { x: 0, y: 0, width: 0, height: 0 }
    }

    /// The first column to the right of the rectangle (saturating).
    pub fn right(&self) -> (r: u16)
        ensures
            r == self.spec_right(),
    {
        self.x.saturating_add(self.width)
    }

    /// The first row below the rectangle (saturating).
    pub fn bottom(&self) -> (r: u16)
        ensures
            r == self.spec_bottom(),
    {
        self.y.saturating_add(self.height)
    }

    pub fn left(&self) -> (r: u16)
        ensures
            r == self.x,
    {
        self.x
    }

    pub fn top(&self) -> (r: u16)
        ensures
            r == self.y,
    {
        self.y
    }

    /// Number of cells covered by the rectangle.
    pub fn area(&self) -> (r: u32)
        ensures
            r == self.width * self.height,
    {
        proof {
            vstd::arithmetic::mul::lemma_mul_upper_bound(
                self.width as int, u16::MAX as int, self.height as int, u16::MAX as int);
        }
        (self.width as u32) * (self.height as u32)
    }

    /// Whether a position lies inside the rectangle.
    pub fn contains(&self, p: Position) -> (b: bool)
        ensures
            b == self.spec_contains(p),
    {
        self.x <= p.x && p.x < self.right() && self.y <= p.y && p.y < self.bottom()
    }

    /// The top-left corner.
    pub fn as_position(&self) -> (p: Position)
        ensures
            p.x == self.x,
            p.y == self.y,
    {
        Position { x: self.x, y: self.y }
    }
}


/// A layout direction.
#[derive(Clone, Copy, PartialEq, Eq, Debug, Structural)]
pub enum Direction {
    Horizontal,
    Vertical,
}

impl Direction {
    pub open spec fn spec_perpendicular(self) -> Direction {
        match self {
            Direction::Horizontal => Direction::Vertical,
            Direction::Vertical => Direction::Horizontal,
        }
    }

    /// The other direction.
    pub fn perpendicular(&self) -> (d: Direction)
        ensures
            d == self.spec_perpendicular(),
    {
        match self {
            Direction::Horizontal => Direction::Vertical,
            Direction::Vertical => Direction::Horizontal,
        }
    }
}

/// A side of the screen.
#[derive(Clone, Copy, PartialEq, Eq, Debug, Structural)]
pub enum Side {
    Top,
    Bottom,
    Left,
    Right,
}

impl Side {
    pub open spec fn spec_opposite(self) -> Side {
        match self {
            Side::Top => Side::Bottom,
            Side::Bottom => Side::Top,
            Side::Left => Side::Right,
            Side::Right => Side::Left,
        }
    }

    pub open spec fn spec_vertical(self) -> bool {
        self is Top || self is Bottom
    }

    /// The side across.
    pub fn opposite(&self) -> (s: Side)
        ensures
            s == self.spec_opposite(),
    {
        match self {
            Side::Top => Side::Bottom,
            Side::Bottom => Side::Top,
            Side::Left => Side::Right,
            Side::Right => Side::Left,
        }
    }

    /// Whether the side is the top or the bottom.
    pub fn vertical(&self) -> (b: bool)
        ensures
            b == self.spec_vertical(),
    {
        match self {
            Side::Top | Side::Bottom => true,
            _ => false,
        }
    }

    /// Whether the side is the left or the right.
    pub fn horizontal(&self) -> (b: bool)
        ensures
            b == !self.spec_vertical(),
    {
        match self {
            Side::Left | Side::Right => true,
            _ => false,
        }
    }
}

/// The opposite of the opposite side is the side itself, and a side and its opposite lie along
/// the same axis.
pub proof fn lemma_opposite_involutive(s: Side)
    ensures
        s.spec_opposite().spec_opposite() == s,
        s.spec_opposite() != s,
        s.spec_opposite().spec_vertical() == s.spec_vertical(),
{
}
} // verus!
