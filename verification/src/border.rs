//! A line border between two areas. After drawing it, the cells just past its two ends are
//! checked for contact with a crossing border, and their symbols are turned into the matching
//! junctions.
use vstd::prelude::*;
use crate::geometry::{Direction, Position, Rect};
use crate::text::owned;

verus! {

/// A border between areas laid out along a direction: a horizontal line between areas stacked
/// vertically, a vertical line between areas side by side.
#[derive(Clone, Copy, PartialEq, Eq, Debug, Structural)]
pub struct Border {
    pub direction: Direction,
}

/// The symbol a border is drawn with.
pub open spec fn line_symbol(direction: Direction) -> Seq<char> {
    match direction {
        Direction::Vertical => "─"@,
        Direction::Horizontal => "│"@,
    }
}

/// The junction the cell before a border's start becomes, if it touches a crossing line.
pub open spec fn junction_before(direction: Direction, symbol: Seq<char>) -> Option<Seq<char>> {
    match direction {
        Direction::Vertical => if symbol == "│"@ { Some("├"@) } else if symbol == "┤"@ { Some("┼"@) } else { None },
        Direction::Horizontal => if symbol == "─"@ { Some("┬"@) } else if symbol == "┴"@ { Some("┼"@) } else { None },
    }
}

/// The junction the cell past a border's end becomes, if it touches a crossing line.
pub open spec fn junction_after(direction: Direction, symbol: Seq<char>) -> Option<Seq<char>> {
    match direction {
        Direction::Vertical => if symbol == "│"@ { Some("┤"@) } else if symbol == "├"@ { Some("┼"@) } else { None },
        Direction::Horizontal => if symbol == "─"@ { Some("┴"@) } else if symbol == "┬"@ { Some("┼"@) } else { None },
    }
}

/// Whether two texts are the same.
fn same_text(a: &str, b: &str) -> (r: bool)
    ensures
        r == (a@ == b@),
{
    owned(a) == owned(b)
}

impl Border {
    pub fn new(direction: Direction) -> (b: Border)
        ensures
            b.direction == direction,
    {
        Border { direction }
    }

    /// A border between areas stacked side by side.
    pub fn horizontal() -> (b: Border)
        ensures
            b.direction == Direction::Horizontal,
    {
        Border::new(Direction::Horizontal)
    }

    /// A border between areas stacked one above the other.
    pub fn vertical() -> (b: Border)
        ensures
            b.direction == Direction::Vertical,
    {
        Border::new(Direction::Vertical)
    }

    /// The symbol the border is drawn with.
    pub fn symbol(&self) -> (s: String)
        ensures
            s@ == line_symbol(self.direction),
    {
        match self.direction {
            Direction::Vertical => owned("─"),
            Direction::Horizontal => owned("│"),
        }
    }

    /// The cells the border covers: the top row of the area, from left to right, for a
    /// horizontal line; its left column, from top to bottom, for a vertical one.
    pub fn cells(&self, area: Rect) -> (c: Vec<Position>)
        ensures
            match self.direction {
                Direction::Vertical => c@.len() == area.spec_right() - area.x
                    && forall|i: int| 0 <= i < c@.len() ==> #[trigger] c@[i] == (Position { x: (area.x + i) as u16, y: area.y }),
                Direction::Horizontal => c@.len() == area.spec_bottom() - area.y
                    && forall|i: int| 0 <= i < c@.len() ==> #[trigger] c@[i] == (Position { x: area.x, y: (area.y + i) as u16 }),
            },
    {
        let mut c: Vec<Position> = Vec::new();
        match self.direction {
            Direction::Vertical => {
                let end = area.right();
                let mut x = area.left();
                while x < end
                    invariant
                        area.x <= x <= end,
                        end == area.spec_right(),
                        c@.len() == x - area.x,
                        forall|i: int| 0 <= i < c@.len() ==> #[trigger] c@[i] == (Position { x: (area.x + i) as u16, y: area.y }),
                    decreases end - x,
                {
                    c.push(Position { x, y: area.top() });
                    x += 1;
                }
            },
            Direction::Horizontal => {
                let end = area.bottom();
                let mut y = area.top();
                while y < end
                    invariant
                        area.y <= y <= end,
                        end == area.spec_bottom(),
                        c@.len() == y - area.y,
                        forall|i: int| 0 <= i < c@.len() ==> #[trigger] c@[i] == (Position { x: area.x, y: (area.y + i) as u16 }),
                    decreases end - y,
                {
                    c.push(Position { x: area.left(), y });
                    y += 1;
                }
            },
        }
        c
    }

    /// The cell just before the border's start, if it is on the screen.
    pub fn before(&self, area: Rect) -> (p: Option<Position>)
        ensures
            p == (match self.direction {
                Direction::Vertical => if area.x > 0 { Some(Position { x: (area.x - 1) as u16, y: area.y }) } else { None },
                Direction::Horizontal => if area.y > 0 { Some(Position { x: area.x, y: (area.y - 1) as u16 }) } else { None },
            }),
    {
        match self.direction {
            Direction::Vertical => if area.left() > 0 { Some(Position { x: area.left() - 1, y: area.top() }) } else { None },
            Direction::Horizontal => if area.top() > 0 { Some(Position { x: area.left(), y: area.top() - 1 }) } else { None },
        }
    }

    /// The cell just past the border's end.
    pub fn after(&self, area: Rect) -> (p: Position)
        ensures
            p == (match self.direction {
                Direction::Vertical => Position { x: area.spec_right() as u16, y: area.y },
                Direction::Horizontal => Position { x: area.x, y: area.spec_bottom() as u16 },
            }),
    {
        match self.direction {
            Direction::Vertical => Position { x: area.right(), y: area.top() },
            Direction::Horizontal => Position { x: area.left(), y: area.bottom() },
        }
    }

    /// The symbol the cell before the border's start takes, if it touches a crossing line.
    pub fn join_before(&self, symbol: &str) -> (r: Option<String>)
        ensures
            match junction_before(self.direction, symbol@) {
                Some(j) => r matches Some(s) && s@ == j,
                None => r is None,
            },
    {
        match self.direction {
            Direction::Vertical => {
                if same_text(symbol, "│") {
                    Some(owned("├"))
                } else if same_text(symbol, "┤") {
                    Some(owned("┼"))
                } else {
                    None
                }
            },
            Direction::Horizontal => {
                if same_text(symbol, "─") {
                    Some(owned("┬"))
                } else if same_text(symbol, "┴") {
                    Some(owned("┼"))
                } else {
                    None
                }
            },
        }
    }

    /// The symbol the cell past the border's end takes, if it touches a crossing line.
    pub fn join_after(&self, symbol: &str) -> (r: Option<String>)
        ensures
            match junction_after(self.direction, symbol@) {
                Some(j) => r matches Some(s) && s@ == j,
                None => r is None,
            },
    {
        match self.direction {
            Direction::Vertical => {
                if same_text(symbol, "│") {
                    Some(owned("┤"))
                } else if same_text(symbol, "├") {
                    Some(owned("┼"))
                } else {
                    None
                }
            },
            Direction::Horizontal => {
                if same_text(symbol, "─") {
                    Some(owned("┴"))
                } else if same_text(symbol, "┬") {
                    Some(owned("┼"))
                } else {
                    None
                }
            },
        }
    }
}

} // verus!
