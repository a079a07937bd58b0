//! The home screen, shown when no pane is open: the editor's title, centered.
use vstd::prelude::*;
use crate::geometry::{Direction, Rect};
use crate::layout::{split_area, segment_of, Constraint};
use crate::text::owned;

verus! {

pub struct Home {
    title: String,
    area: Rect,
}

impl Home {
    /// The title is "TED".
    pub fn new() -> (h: Home)
        ensures
            h.title()@ == "TED"@,
            h.area_spec() == (Rect { x: 0, y: 0, width: 0, height: 0 }),
    {
        Home { title: owned("TED"), area: Rect::zero() }
    }

    pub closed spec fn title(self) -> String {
        self.title
    }

    pub closed spec fn area_spec(self) -> Rect {
        self.area
    }

    pub fn title_text(&self) -> (t: &str)
        ensures
            t@ == self.title()@,
    {
        self.title.as_str()
    }

    pub fn area(&self) -> (a: Rect)
        ensures
            a == self.area_spec(),
    {
        self.area
    }

    /// Lay the home screen out in an area, which is recorded: the title goes on the middle of
    /// three rows, one row high between two that share the rest. The line spans the area's
    /// width and lies within it.
    pub fn layout(&mut self, area: Rect) -> (line: Rect)
        ensures
            segment_of(Direction::Vertical, area, line),
            final(self).area_spec() == area,
            final(self).title() == old(self).title(),
    {
        let mut c: Vec<Constraint> = Vec::new();
        c.push(Constraint::Fill(1));
        c.push(Constraint::Length(1));
        c.push(Constraint::Fill(1));
        proof {
            assert(c@ =~= seq![Constraint::Fill(1), Constraint::Length(1), Constraint::Fill(1)]);
        }
        let rows = split_area(Direction::Vertical, &c, area);
        self.area = area;
        let line = rows[1];
        proof {
            assert(segment_of(Direction::Vertical, area, rows@[1]));
        }
        line
    }

    /// A key: `q` closes the home screen.
    pub fn key(c: char) -> (close: bool)
        ensures
            close == (c == 'q'),
    {
        c == 'q'
    }
}

} // verus!
