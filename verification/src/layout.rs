//! Splitting an area along a direction by constraints, through ratatui's layout solver.
use vstd::prelude::*;
use crate::geometry::{Direction, Rect};
use ratatui::layout as rl;

verus! {

/// A size constraint on one segment of a split area.
#[derive(Clone, Copy, PartialEq, Eq, Debug, Structural)]
pub enum Constraint {
    /// Exactly this many cells, as far as they fit.
    Length(u16),
    /// A share of what the other segments leave, in proportion to the weight.
    Fill(u16),
    /// A percentage of the whole.
    Percentage(u16),
}

/// A segment of an area split along a direction: it spans the whole area across the
/// direction, and, where the area ends inside the coordinate range, lies within the area along
/// the direction.
pub open spec fn segment_of(direction: Direction, area: Rect, r: Rect) -> bool {
    match direction {
        Direction::Horizontal => {
            &&& r.y == area.y
            &&& r.height == area.height
            &&& area.x + area.width <= u16::MAX ==> area.x <= r.x && r.x + r.width <= area.x + area.width
        },
        Direction::Vertical => {
            &&& r.x == area.x
            &&& r.width == area.width
            &&& area.y + area.height <= u16::MAX ==> area.y <= r.y && r.y + r.height <= area.y + area.height
        },
    }
}

/// `count` segments of an area split along a direction.
pub open spec fn segments_of(direction: Direction, area: Rect, rects: Seq<Rect>, count: int) -> bool {
    &&& rects.len() == count
    &&& forall|i: int| 0 <= i < rects.len() ==> segment_of(direction, area, #[trigger] rects[i])
}

/// `ratatui::layout::Layout::new(direction, constraints).split(area)`, with no margin and no
/// spacing. The solver gives one segment per constraint. Its bounds on where each segment
/// starts and ends are required ones, so each segment lies within the area along the
/// direction; across it, every segment is the area's. Where within the area each segment
/// falls is left to the solver, which may settle conflicting constraints either way, so that
/// is not stated, nor that the segments come in order.
#[verifier::external_body]
pub(crate) fn split_area(direction: Direction, constraints: &Vec<Constraint>, area: Rect) -> (rects: Vec<Rect>)
    ensures
        segments_of(direction, area, rects@, constraints@.len() as int),
{
    let d = match direction { Direction::Horizontal => rl::Direction::Horizontal, Direction::Vertical => rl::Direction::Vertical };
    let cs = constraints.iter().map(|c| match c { Constraint::Length(n) => rl::Constraint::Length(*n), Constraint::Fill(n) => rl::Constraint::Fill(*n), Constraint::Percentage(n) => rl::Constraint::Percentage(*n) });
    let r = rl::Rect { x: area.x, y: area.y, width: area.width, height: area.height };
    rl::Layout::new(d, cs).split(r).iter().map(|s| Rect { x: s.x, y: s.y, width: s.width, height: s.height }).collect()
}

} // verus!
