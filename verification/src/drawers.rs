//! Top, bottom, left and right drawers around a central widget, with a side overlay and a
//! floating widget that are mutually exclusive and take the focus while they are shown.
//!
//! ```text
//! ┌────────────────────────────────┐
//! │              Top               │
//! ├───────┬────────────────┬───────┤
//! │       │                │       │
//! │  Left │      Main      │ Right │
//! │       │                │       │
//! ├───────┴────────────────┴───────┤
//! │             Bottom             │
//! └────────────────────────────────┘
//! ```
//!
//! The widgets themselves live with the caller; this layout decides which of them an event
//! goes to, which one gets the focus, and where each one is drawn.
use vstd::prelude::*;
use crate::geometry::{Direction, Position, Rect, Side};
use crate::layout::{split_area, segment_of, segments_of, Constraint};

verus! {

/// A drawer: whether it is open, and its size across its side.
#[derive(Clone, Copy, PartialEq, Eq, Debug, Structural)]
pub struct Drawer {
    pub open: bool,
    pub size: u16,
}

pub struct Drawers {
    area: Rect,
    /// If none, the main widget is focused
    focused: Option<Side>,
    drag: Option<Side>,
    top: Option<Drawer>,
    bottom: Option<Drawer>,
    left: Option<Drawer>,
    right: Option<Drawer>,
    /// The side and size of the overlay, if one is shown
    overlay: Option<(Side, u16)>,
    /// Whether a floating widget is shown
    floating: bool,
}

/// What the drawers hold, as plain values.
pub struct DrawersView {
    pub area: Rect,
    pub focused: Option<Side>,
    pub drag: Option<Side>,
    pub top: Option<Drawer>,
    pub bottom: Option<Drawer>,
    pub left: Option<Drawer>,
    pub right: Option<Drawer>,
    pub overlay: Option<(Side, u16)>,
    pub floating: bool,
}

impl DrawersView {
    /// The drawer on a side.
    pub open spec fn slot(self, side: Side) -> Option<Drawer> {
        match side {
            Side::Top => self.top,
            Side::Bottom => self.bottom,
            Side::Left => self.left,
            Side::Right => self.right,
        }
    }

    /// The same drawers with the one on a side replaced.
    pub open spec fn with_slot(self, side: Side, d: Option<Drawer>) -> DrawersView {
        match side {
            Side::Top => DrawersView { top: d, ..self },
            Side::Bottom => DrawersView { bottom: d, ..self },
            Side::Left => DrawersView { left: d, ..self },
            Side::Right => DrawersView { right: d, ..self },
        }
    }

    /// Whether the drawer on a side is there and open.
    pub open spec fn is_open(self, side: Side) -> bool {
        self.slot(side) matches Some(d) && d.open
    }

    /// The size of an open drawer.
    pub open spec fn open_size(self, side: Side) -> int {
        self.slot(side)->0.size as int
    }

    /// The size a drawer takes on screen with its border; nothing when it is closed.
    pub open spec fn displayed(self, side: Side) -> int {
        if self.is_open(side) { self.open_size(side) + 1 } else { 0 }
    }

    /// The displayed size of the drawer on a side fits in a cell count.
    pub open spec fn fits(self, side: Side) -> bool {
        self.is_open(side) ==> self.open_size(side) < u16::MAX
    }

    /// The extent of the area across a side: its height for the top and bottom, its width for
    /// the left and right.
    pub open spec fn extent(self, side: Side) -> int {
        if side.spec_vertical() { self.area.height as int } else { self.area.width as int }
    }
}

/// `a - b`, or 0 where `b` is larger.
pub open spec fn sat_sub(a: int, b: int) -> int {
    if a >= b { a - b } else { 0 }
}

/// The smaller of two numbers.
pub open spec fn min(a: int, b: int) -> int {
    if a <= b { a } else { b }
}

/// A drawer toggled open or closed. When it opens in an area that was laid out, its size is
/// clamped to what the opposite drawer leaves.
pub open spec fn toggled(v: DrawersView, side: Side) -> DrawersView {
    match v.slot(side) {
        None => v,
        Some(d) => v.with_slot(side, Some(Drawer {
            open: !d.open,
            size: if !d.open && v.area.width * v.area.height != 0 {
                min(d.size as int, sat_sub(v.extent(side), v.displayed(side.spec_opposite()))) as u16
            } else {
                d.size
            },
        })),
    }
}

/// An overlay and a floating widget are never shown together.
pub open spec fn exclusive(v: DrawersView) -> bool {
    !(v.overlay is Some && v.floating)
}

impl View for Drawers {
    type V = DrawersView;

    closed spec fn view(&self) -> DrawersView {
        DrawersView {
            area: self.area,
            focused: self.focused,
            drag: self.drag,
            top: self.top,
            bottom: self.bottom,
            left: self.left,
            right: self.right,
            overlay: self.overlay,
            floating: self.floating,
        }
    }
}

/// A pointer event, as the drawers see it.
#[derive(Clone, Copy, PartialEq, Eq, Debug, Structural)]
pub enum Pointer {
    Down(Position),
    Up,
    Drag(Position),
    Scroll(Position),
    /// Any other event.
    Other,
}

/// Where an event goes after the drawers looked at it.
#[derive(Clone, Copy, PartialEq, Eq, Debug, Structural)]
pub enum Route {
    /// The drawers handled it.
    Handled,
    /// On to the focused widget.
    Focused,
    /// To the drawer on a side, whose answer is the answer.
    Drawer(Side),
    /// To the main widget, whose answer is the answer.
    Main,
    /// Nobody handles it.
    NotHandled,
}

/// The widget that gets the event once the pointer is dealt with.
#[derive(Clone, Copy, PartialEq, Eq, Debug, Structural)]
pub enum Target {
    Drawer(Side),
    Main,
    /// The focused drawer is gone: nothing gets it.
    Nothing,
}

/// What a focus move asks of the caller.
#[derive(Clone, Copy, PartialEq, Eq, Debug, Structural)]
pub enum Moved {
    /// The drawer on a side was focused: tell its widget.
    Drawer(Side),
    /// The main widget was focused: tell it.
    Main,
    /// Handled, with nothing to tell.
    Stay,
    /// Not a focus move from here.
    Unhandled,
}

/// The widget whose cursor is shown.
#[derive(Clone, Copy, PartialEq, Eq, Debug, Structural)]
pub enum Owner {
    Floating,
    Overlay,
    Drawer(Side),
    Main,
}

/// Where each part is drawn.
pub struct DrawerAreas {
    /// Each open drawer's area, and its border's.
    pub top: Option<(Rect, Rect)>,
    pub bottom: Option<(Rect, Rect)>,
    pub left: Option<(Rect, Rect)>,
    pub right: Option<(Rect, Rect)>,
    pub main: Rect,
    pub overlay: Option<Rect>,
    pub floating: Option<Rect>,
}

/// The constraints along the vertical direction: the open top drawer and its border, the rest,
/// the open bottom drawer's border and the drawer.
pub open spec fn vertical_constraints_of(v: DrawersView) -> Seq<Constraint> {
    (if v.is_open(Side::Top) { seq![Constraint::Length(v.open_size(Side::Top) as u16), Constraint::Length(1)] } else { seq![] })
        + seq![Constraint::Fill(1)]
        + (if v.is_open(Side::Bottom) { seq![Constraint::Length(1), Constraint::Length(v.open_size(Side::Bottom) as u16)] } else { seq![] })
}

/// The constraints along the horizontal direction, in the same way with the left and right.
pub open spec fn horizontal_constraints_of(v: DrawersView) -> Seq<Constraint> {
    (if v.is_open(Side::Left) { seq![Constraint::Length(v.open_size(Side::Left) as u16), Constraint::Length(1)] } else { seq![] })
        + seq![Constraint::Fill(1)]
        + (if v.is_open(Side::Right) { seq![Constraint::Length(1), Constraint::Length(v.open_size(Side::Right) as u16)] } else { seq![] })
}

/// The direction, constraints and segment of an overlay on a side.
pub open spec fn overlay_split(side: Side, size: u16) -> (Direction, Seq<Constraint>, int) {
    match side {
        Side::Top => (Direction::Vertical, seq![Constraint::Length(size), Constraint::Fill(1)], 0),
        Side::Bottom => (Direction::Vertical, seq![Constraint::Fill(1), Constraint::Length(size)], 1),
        Side::Left => (Direction::Horizontal, seq![Constraint::Length(size), Constraint::Fill(1)], 0),
        Side::Right => (Direction::Horizontal, seq![Constraint::Fill(1), Constraint::Length(size)], 1),
    }
}

/// Segments that the solver may give for drawers laid out in an area: the vertical split of
/// the area, the horizontal split of its middle segment, and the overlay's segment of the area
/// where there is an overlay.
pub open spec fn drawer_segments(v: DrawersView, area: Rect, vertical: Seq<Rect>, horizontal: Seq<Rect>, overlay: Option<Rect>) -> bool {
    &&& segments_of(Direction::Vertical, area, vertical, vertical_constraints_of(v).len() as int)
    &&& segments_of(Direction::Horizontal, vertical[if v.is_open(Side::Top) { 2int } else { 0 }], horizontal, horizontal_constraints_of(v).len() as int)
    &&& match v.overlay {
        Some(o) => overlay matches Some(r) && segment_of(overlay_split(o.0, o.1).0, area, r),
        None => overlay is None,
    }
}

/// Where each part goes, given the vertical segments of the area and the horizontal segments
/// of the middle vertical segment.
pub open spec fn placed(v: DrawersView, vertical: Seq<Rect>, horizontal: Seq<Rect>, overlay: Option<Rect>) -> DrawerAreas {
    let t = v.is_open(Side::Top);
    let l = v.is_open(Side::Left);
    let vo: int = if t { 2 } else { 0 };
    let ho: int = if l { 2 } else { 0 };
    DrawerAreas {
        top: if t { Some((vertical[0], vertical[1])) } else { None },
        bottom: if v.is_open(Side::Bottom) { Some((vertical[vo + 2], vertical[vo + 1])) } else { None },
        left: if l { Some((horizontal[0], horizontal[1])) } else { None },
        right: if v.is_open(Side::Right) { Some((horizontal[ho + 2], horizontal[ho + 1])) } else { None },
        main: horizontal[ho],
        overlay,
        floating: if v.floating { Some(v.area) } else { None },
    }
}

/// Where a click lands: the side of the open drawer under it, and whether it is on that
/// drawer's border. The cursor is taken relative to the area; the bottom and right limits are
/// measured from the area's bottom and right edges.
pub open spec fn click_of(v: DrawersView, cursor: Position) -> Option<(Side, bool)> {
    let rx = sat_sub(cursor.x as int, v.area.x as int);
    let ry = sat_sub(cursor.y as int, v.area.y as int);
    let bottom_limit = v.area.spec_bottom() - (v.open_size(Side::Bottom) + 1);
    let right_limit = v.area.spec_right() - (v.open_size(Side::Right) + 1);
    if v.is_open(Side::Top) && ry <= v.open_size(Side::Top) {
        Some((Side::Top, ry == v.open_size(Side::Top)))
    } else if v.is_open(Side::Bottom) && ry >= bottom_limit {
        Some((Side::Bottom, ry == bottom_limit))
    } else if v.is_open(Side::Left) && rx <= v.open_size(Side::Left) {
        Some((Side::Left, rx == v.open_size(Side::Left)))
    } else if v.is_open(Side::Right) && rx >= right_limit {
        Some((Side::Right, rx == right_limit))
    } else {
        None
    }
}

/// The limits that `click_of` measures from the bottom and right edges are cell positions
/// wherever it looks at them.
pub open spec fn click_defined(v: DrawersView, cursor: Position) -> bool {
    let rx = sat_sub(cursor.x as int, v.area.x as int);
    let ry = sat_sub(cursor.y as int, v.area.y as int);
    let top_hit = v.is_open(Side::Top) && ry <= v.open_size(Side::Top);
    let bottom_hit = v.is_open(Side::Bottom) && ry >= v.area.spec_bottom() - (v.open_size(Side::Bottom) + 1);
    let left_hit = v.is_open(Side::Left) && rx <= v.open_size(Side::Left);
    &&& !top_hit && v.is_open(Side::Bottom) ==> v.open_size(Side::Bottom) + 1 <= v.area.spec_bottom()
    &&& !top_hit && !bottom_hit && !left_hit && v.is_open(Side::Right) ==> v.open_size(Side::Right) + 1 <= v.area.spec_right()
}

/// The size a drag to the cursor gives the drawer on a side: the cursor's distance from the
/// area's edge on that side, up to what the opposite drawer leaves.
pub open spec fn dragged(v: DrawersView, side: Side, cursor: Position) -> int {
    let room = sat_sub(v.extent(side), v.displayed(side.spec_opposite()));
    match side {
        Side::Top => min(sat_sub(cursor.y as int, v.area.y as int), room),
        Side::Bottom => min(sat_sub(v.area.spec_bottom(), cursor.y + 1), room),
        Side::Left => min(sat_sub(cursor.x as int, v.area.x as int), room),
        Side::Right => min(sat_sub(v.area.spec_right(), cursor.x + 1), room),
    }
}

/// The numbers `dragged` adds up stay cell counts.
pub open spec fn drag_defined(v: DrawersView, side: Side, cursor: Position) -> bool {
    &&& v.fits(side.spec_opposite())
    &&& side is Bottom ==> cursor.y < u16::MAX
    &&& side is Right ==> cursor.x < u16::MAX
}

/// What a pointer event does to the drawers, and where it goes next.
pub open spec fn pointer_step(v: DrawersView, event: Pointer) -> (DrawersView, Route) {
    match event {
        Pointer::Down(c) => match click_of(v, c) {
            Some((s, true)) => (DrawersView { drag: Some(s), ..v }, Route::Handled),
            Some((s, false)) => (DrawersView { focused: Some(s), drag: None, ..v }, Route::Focused),
            None => (DrawersView { focused: None, drag: None, ..v }, Route::Focused),
        },
        Pointer::Up => (DrawersView { drag: None, ..v }, Route::Focused),
        Pointer::Drag(c) => match v.drag {
            Some(s) => (
                if v.is_open(s) {
                    v.with_slot(s, Some(Drawer { open: true, size: dragged(v, s, c) as u16 }))
                } else {
                    DrawersView { drag: None, ..v }
                },
                Route::Handled,
            ),
            None => (v, Route::Focused),
        },
        Pointer::Scroll(c) => (v, match click_of(v, c) {
            Some((s, _)) => if v.slot(s) is Some { Route::Drawer(s) } else { Route::NotHandled },
            None => Route::Main,
        }),
        Pointer::Other => (v, Route::Focused),
    }
}

/// The event can be stepped without leaving the cell range.
pub open spec fn pointer_defined(v: DrawersView, event: Pointer) -> bool {
    match event {
        Pointer::Down(c) => click_defined(v, c),
        Pointer::Scroll(c) => click_defined(v, c),
        Pointer::Drag(c) => v.drag matches Some(s) ==> drag_defined(v, s, c),
        _ => true,
    }
}

/// Focus a drawer, only if it exists and is open; else do nothing.
pub open spec fn focus_drawer_step(v: DrawersView, side: Side) -> (DrawersView, Moved) {
    if v.is_open(side) { (DrawersView { focused: Some(side), ..v }, Moved::Drawer(side)) } else { (v, Moved::Stay) }
}

/// Focus the left or right drawer when the cursor is over it or its border, else the main
/// widget (without telling it).
pub open spec fn horizontal_step(v: DrawersView, cursor: Position) -> (DrawersView, Moved) {
    if v.is_open(Side::Left) && sat_sub(cursor.x as int, v.area.x as int) <= v.open_size(Side::Left) + 1 {
        focus_drawer_step(v, Side::Left)
    } else if v.is_open(Side::Right) && sat_sub(v.area.spec_right(), cursor.x as int) <= v.open_size(Side::Right) + 1 {
        focus_drawer_step(v, Side::Right)
    } else {
        (DrawersView { focused: None, ..v }, Moved::Stay)
    }
}

/// Ctrl with h, l, k or j moves the focus left, right, up or down between the drawers and the
/// main widget.
pub open spec fn key_step(v: DrawersView, key: char, cursor: Position) -> (DrawersView, Moved) {
    let main = (DrawersView { focused: None, ..v }, Moved::Main);
    if key == 'h' {
        match v.focused {
            Some(Side::Right) => main,
            None => focus_drawer_step(v, Side::Left),
            _ => (v, Moved::Unhandled),
        }
    } else if key == 'l' {
        match v.focused {
            Some(Side::Left) => main,
            None => focus_drawer_step(v, Side::Right),
            _ => (v, Moved::Unhandled),
        }
    } else if key == 'k' {
        match v.focused {
            Some(Side::Bottom) => horizontal_step(v, cursor),
            None => focus_drawer_step(v, Side::Top),
            _ => (v, Moved::Unhandled),
        }
    } else if key == 'j' {
        match v.focused {
            Some(Side::Top) => horizontal_step(v, cursor),
            None => focus_drawer_step(v, Side::Bottom),
            _ => (v, Moved::Unhandled),
        }
    } else {
        (v, Moved::Unhandled)
    }
}

/// The sizes `horizontal_step` adds a border to stay cell counts.
pub open spec fn horizontal_defined(v: DrawersView, cursor: Position) -> bool {
    &&& v.fits(Side::Left)
    &&& !(v.is_open(Side::Left) && sat_sub(cursor.x as int, v.area.x as int) <= v.open_size(Side::Left) + 1) ==> v.fits(Side::Right)
}

/// The key can be stepped without leaving the cell range.
pub open spec fn key_defined(v: DrawersView, key: char, cursor: Position) -> bool {
    &&& (key == 'k' && v.focused == Some(Side::Bottom)) ==> horizontal_defined(v, cursor)
    &&& (key == 'j' && v.focused == Some(Side::Top)) ==> horizontal_defined(v, cursor)
}

impl Drawers {
    /// No drawers, no overlay, nothing floating; the main widget has the focus.
    pub fn new() -> (d: Drawers)
        ensures
            d@ == (DrawersView {
                area: Rect { x: 0, y: 0, width: 0, height: 0 },
                focused: None,
                drag: None,
                top: None,
                bottom: None,
                left: None,
                right: None,
                overlay: None,
                floating: false,
            }),
    {
        Drawers {
            area: Rect::zero(),
            focused: None,
            drag: None,
            top: None,
            bottom: None,
            left: None,
            right: None,
            overlay: None,
            floating: false,
        }
    }

    /// The size of the open drawer on a side, as a wide integer; none when it is closed.
    fn open_size_of(&self, side: Side) -> (r: Option<u32>)
        ensures
            r == (if self@.is_open(side) { Some(self@.open_size(side) as u32) } else { None }),
    {
        match self.slot(side) {
            Some(d) => if d.open { Some(d.size as u32) } else { None },
            None => None,
        }
    }

    /// Whether the displayed size of the drawer on a side fits in a cell count.
    fn fits_check(&self, side: Side) -> (b: bool)
        ensures
            b == self@.fits(side),
    {
        match self.open_size_of(side) {
            Some(n) => n < 0xffff,
            None => true,
        }
    }

    /// Whether a click at a position can be stepped without leaving the cell range: what
    /// `pointer` asks of a press or a scroll.
    pub fn click_ok(&self, cursor: Position) -> (b: bool)
        ensures
            b == click_defined(self@, cursor),
    {
        let rx: u32 = if cursor.x >= self.area.x { (cursor.x - self.area.x) as u32 } else { 0 };
        let ry: u32 = if cursor.y >= self.area.y { (cursor.y - self.area.y) as u32 } else { 0 };
        let bottom = self.area.bottom() as u32;
        let right = self.area.right() as u32;
        let top_hit = match self.open_size_of(Side::Top) {
            Some(n) => ry <= n,
            None => false,
        };
        let bottom_size = self.open_size_of(Side::Bottom);
        let bottom_hit = match bottom_size {
            Some(n) => ry + n + 1 >= bottom,
            None => false,
        };
        let left_hit = match self.open_size_of(Side::Left) {
            Some(n) => rx <= n,
            None => false,
        };
        let bottom_ok = match bottom_size {
            Some(n) => top_hit || n + 1 <= bottom,
            None => true,
        };
        let right_ok = match self.open_size_of(Side::Right) {
            Some(n) => top_hit || bottom_hit || left_hit || n + 1 <= right,
            None => true,
        };
        bottom_ok && right_ok
    }

    /// Whether a pointer event can be stepped without leaving the cell range: what `pointer`
    /// asks of it.
    pub fn pointer_ok(&self, event: Pointer) -> (b: bool)
        ensures
            b == pointer_defined(self@, event),
    {
        match event {
            Pointer::Down(c) => self.click_ok(c),
            Pointer::Scroll(c) => self.click_ok(c),
            Pointer::Drag(c) => match self.drag {
                Some(s) => {
                    self.fits_check(s.opposite()) && (match s {
                        Side::Bottom => c.y < 0xffff,
                        Side::Right => c.x < 0xffff,
                        _ => true,
                    })
                },
                None => true,
            },
            _ => true,
        }
    }

    /// Whether a key can be stepped without leaving the cell range: what `key_move` asks of it.
    pub fn key_ok(&self, key: char, cursor: Position) -> (b: bool)
        ensures
            b == key_defined(self@, key, cursor),
    {
        let vertical = (key == 'k' && self.focused == Some(Side::Bottom)) || (key == 'j' && self.focused == Some(Side::Top));
        if !vertical {
            return true;
        }
        let rx: u32 = if cursor.x >= self.area.x { (cursor.x - self.area.x) as u32 } else { 0 };
        let over_left = match self.open_size_of(Side::Left) {
            Some(n) => rx <= n + 1,
            None => false,
        };
        self.fits_check(Side::Left) && (over_left || self.fits_check(Side::Right))
    }

    /// The drawer on a side.
    pub fn slot(&self, side: Side) -> (d: Option<Drawer>)
        ensures
            d == self@.slot(side),
    {
        match side {
            Side::Top => self.top,
            Side::Bottom => self.bottom,
            Side::Left => self.left,
            Side::Right => self.right,
        }
    }

    fn set_slot(&mut self, side: Side, d: Option<Drawer>)
        ensures
            final(self)@ == old(self)@.with_slot(side, d),
    {
        match side {
            Side::Top => self.top = d,
            Side::Bottom => self.bottom = d,
            Side::Left => self.left = d,
            Side::Right => self.right = d,
        }
    }

    /// Add a closed drawer of a size on a side, in place of any drawer there.
    pub fn with_drawer(self, drawer: Side, size: u16) -> (d: Drawers)
        ensures
            d@ == self@.with_slot(drawer, Some(Drawer { open: false, size })),
    {
        let mut d = self;
        d.set_slot(drawer, Some(Drawer { open: false, size }));
        d
    }

    /// The area where the drawers were laid out last time.
    pub fn area(&self) -> (a: Rect)
        ensures
            a == self@.area,
    {
        self.area
    }

    /// The focused drawer; none when the main widget has the focus.
    pub fn focused(&self) -> (f: Option<Side>)
        ensures
            f == self@.focused,
    {
        self.focused
    }

    /// The side of the overlay, if one is shown.
    pub fn overlay_side(&self) -> (s: Option<Side>)
        ensures
            s == (match self@.overlay { Some(o) => Some(o.0), None => None }),
    {
        match self.overlay {
            Some((side, _)) => Some(side),
            None => None,
        }
    }

    /// Whether a floating widget is shown.
    pub fn is_floating(&self) -> (b: bool)
        ensures
            b == self@.floating,
    {
        self.floating
    }

    /// The displayed size of the drawer + its border on the given side, 0 when it is closed.
    /// Used to clamp drawer sizes to avoid collision with the opposite drawer.
    pub fn displayed_size(&self, side: Side) -> (n: u16)
        requires
            self@.fits(side),
        ensures
            n == self@.displayed(side),
    {
        match self.slot(side) {
            Some(d) => if d.open { d.size + 1 } else { 0 },
            None => 0,
        }
    }

    /// Toggle a drawer open or closed. When it opens in an area that was laid out, its size is
    /// clamped so that it does not run into the opposite drawer.
    pub fn toggle(&mut self, drawer: Side)
        requires
            old(self)@.fits(drawer.spec_opposite()),
        ensures
            final(self)@ == toggled(old(self)@, drawer),
    {
        let opposite = self.displayed_size(drawer.opposite());
        if let Some(d) = self.slot(drawer) {
            let mut size = d.size;
            if !d.open && self.area.area() != 0 {
                let room = if drawer.vertical() {
                    self.area.height.saturating_sub(opposite)
                } else {
                    self.area.width.saturating_sub(opposite)
                };
                if room < size {
                    size = room;
                }
            }
            self.set_slot(drawer, Some(Drawer { open: !d.open, size }));
        }
    }

    /// Show an overlay of a size on a side, in place of a floating widget.
    pub fn overlay(&mut self, side: Side, size: u16)
        ensures
            final(self)@ == (DrawersView { overlay: Some((side, size)), floating: false, ..old(self)@ }),
    {
        self.floating = false;
        self.overlay = Some((side, size));
    }

    /// Show a floating widget, in place of an overlay.
    pub fn floating(&mut self)
        ensures
            final(self)@ == (DrawersView { overlay: None, floating: true, ..old(self)@ }),
    {
        self.overlay = None;
        self.floating = true;
    }

    /// The floating widget asked to be closed.
    pub fn close_floating(&mut self)
        ensures
            final(self)@ == (DrawersView { floating: false, ..old(self)@ }),
    {
        self.floating = false;
    }

    /// The overlay asked to be closed.
    pub fn close_overlay(&mut self)
        ensures
            final(self)@ == (DrawersView { overlay: None, ..old(self)@ }),
    {
        self.overlay = None;
    }

    /// Returns the side of the clicked drawer, and whether the click is on the border (for
    /// dragging) or not.
    pub fn click_target(&self, cursor: Position) -> (r: Option<(Side, bool)>)
        requires
            click_defined(self@, cursor),
        ensures
            r == click_of(self@, cursor),
    {
        let rx = cursor.x.saturating_sub(self.area.x);
        let ry = cursor.y.saturating_sub(self.area.y);
        if let Some(d) = self.top {
            if d.open && ry <= d.size {
                return Some((Side::Top, ry == d.size));
            }
        }
        if let Some(d) = self.bottom {
            if d.open {
                let limit = self.area.bottom() - (d.size + 1);
                if ry >= limit {
                    return Some((Side::Bottom, ry == limit));
                }
            }
        }
        if let Some(d) = self.left {
            if d.open && rx <= d.size {
                return Some((Side::Left, rx == d.size));
            }
        }
        if let Some(d) = self.right {
            if d.open {
                let limit = self.area.right() - (d.size + 1);
                if rx >= limit {
                    return Some((Side::Right, rx == limit));
                }
            }
        }
        None
    }

    /// The size a drag to the cursor gives the drawer on a side.
    pub fn drag_size(&self, side: Side, cursor: Position) -> (n: u16)
        requires
            drag_defined(self@, side, cursor),
        ensures
            n == dragged(self@, side, cursor),
    {
        let opposite = self.displayed_size(side.opposite());
        match side {
            Side::Top => {
                let a = cursor.y.saturating_sub(self.area.y);
                let b = self.area.height.saturating_sub(opposite);
                if a <= b { a } else { b }
            },
            Side::Bottom => {
                let a = self.area.bottom().saturating_sub(cursor.y + 1);
                let b = self.area.height.saturating_sub(opposite);
                if a <= b { a } else { b }
            },
            Side::Left => {
                let a = cursor.x.saturating_sub(self.area.x);
                let b = self.area.width.saturating_sub(opposite);
                if a <= b { a } else { b }
            },
            Side::Right => {
                let a = self.area.right().saturating_sub(cursor.x + 1);
                let b = self.area.width.saturating_sub(opposite);
                if a <= b { a } else { b }
            },
        }
    }

    /// Deal with a pointer event: start or stop dragging a border, resize the dragged drawer,
    /// move the focus to the clicked drawer or the main widget, or send a scroll to the widget
    /// under the cursor. Says where the event goes next.
    pub fn pointer(&mut self, event: Pointer) -> (r: Route)
        requires
            pointer_defined(old(self)@, event),
        ensures
            (final(self)@, r) == pointer_step(old(self)@, event),
    {
        match event {
            Pointer::Down(cursor) => {
                match self.click_target(cursor) {
                    Some((side, border)) => {
                        if border {
                            self.drag = Some(side);
                            return Route::Handled;
                        }
                        self.focused = Some(side);
                    },
                    None => self.focused = None,
                }
                self.drag = None;
                Route::Focused
            },
            Pointer::Up => {
                self.drag = None;
                Route::Focused
            },
            Pointer::Drag(cursor) => {
                match self.drag {
                    Some(side) => {
                        let new_size = self.drag_size(side, cursor);
                        match self.slot(side) {
                            Some(d) => {
                                if d.open {
                                    self.set_slot(side, Some(Drawer { open: true, size: new_size }));
                                } else {
                                    self.drag = None;
                                }
                            },
                            None => self.drag = None,
                        }
                        Route::Handled
                    },
                    None => Route::Focused,
                }
            },
            Pointer::Scroll(cursor) => {
                match self.click_target(cursor) {
                    Some((side, _)) => {
                        if self.slot(side).is_some() {
                            Route::Drawer(side)
                        } else {
                            Route::NotHandled
                        }
                    },
                    None => Route::Main,
                }
            },
            Pointer::Other => Route::Focused,
        }
    }

    /// The widget that gets an event next: the focused drawer, or the main widget. A focused
    /// drawer that is gone loses the focus, and nothing gets the event.
    pub fn focus_target(&mut self) -> (t: Target)
        ensures
            match old(self)@.focused {
                Some(s) => if old(self)@.slot(s) is Some {
                    t == Target::Drawer(s) && final(self)@ == old(self)@
                } else {
                    t == Target::Nothing && final(self)@ == (DrawersView { focused: None, ..old(self)@ })
                },
                None => t == Target::Main && final(self)@ == old(self)@,
            },
    {
        match self.focused {
            Some(side) => {
                if self.slot(side).is_some() {
                    Target::Drawer(side)
                } else {
                    self.focused = None;
                    Target::Nothing
                }
            },
            None => Target::Main,
        }
    }

    /// The drawer on a side asked to be closed: it closes and the main widget gets the focus.
    pub fn close_drawer(&mut self, side: Side)
        ensures
            final(self)@ == (match old(self)@.slot(side) {
                Some(d) => DrawersView { focused: None, ..old(self)@.with_slot(side, Some(Drawer { open: false, size: d.size })) },
                None => DrawersView { focused: None, ..old(self)@ },
            }),
    {
        if let Some(d) = self.slot(side) {
            self.set_slot(side, Some(Drawer { open: false, size: d.size }));
        }
        self.focused = None;
    }

    /// Focus a drawer, only if it exists and is open.
    fn focus_drawer(&mut self, side: Side) -> (m: Moved)
        ensures
            (final(self)@, m) == focus_drawer_step(old(self)@, side),
    {
        match self.slot(side) {
            Some(d) => {
                if d.open {
                    self.focused = Some(side);
                    Moved::Drawer(side)
                } else {
                    Moved::Stay
                }
            },
            None => Moved::Stay,
        }
    }

    /// Focus the widget that collides with the cursor in the given direction. Used when moving
    /// the focus up from the bottom drawer or down from the top drawer, which can fall into
    /// either the left, center or right widget depending on the cursor position.
    fn focus_horizontal(&mut self, cursor: Position) -> (m: Moved)
        requires
            horizontal_defined(old(self)@, cursor),
        ensures
            (final(self)@, m) == horizontal_step(old(self)@, cursor),
    {
        if let Some(d) = self.left {
            if d.open {
                let rel = cursor.x.saturating_sub(self.area.x);
                if rel <= d.size + 1 {
                    return self.focus_drawer(Side::Left);
                }
            }
        }
        if let Some(d) = self.right {
            if d.open {
                let rel = self.area.right().saturating_sub(cursor.x);
                if rel <= d.size + 1 {
                    return self.focus_drawer(Side::Right);
                }
            }
        }
        self.focused = None;
        Moved::Stay
    }

    /// A Ctrl key: h, l, k and j move the focus left, right, up and down between the drawers
    /// and the main widget.
    pub fn key_move(&mut self, key: char, cursor: Position) -> (m: Moved)
        requires
            key_defined(old(self)@, key, cursor),
        ensures
            (final(self)@, m) == key_step(old(self)@, key, cursor),
    {
        if key == 'h' {
            match self.focused {
                Some(Side::Right) => {
                    self.focused = None;
                    Moved::Main
                },
                None => self.focus_drawer(Side::Left),
                _ => Moved::Unhandled,
            }
        } else if key == 'l' {
            match self.focused {
                Some(Side::Left) => {
                    self.focused = None;
                    Moved::Main
                },
                None => self.focus_drawer(Side::Right),
                _ => Moved::Unhandled,
            }
        } else if key == 'k' {
            match self.focused {
                Some(Side::Bottom) => self.focus_horizontal(cursor),
                None => self.focus_drawer(Side::Top),
                _ => Moved::Unhandled,
            }
        } else if key == 'j' {
            match self.focused {
                Some(Side::Top) => self.focus_horizontal(cursor),
                None => self.focus_drawer(Side::Bottom),
                _ => Moved::Unhandled,
            }
        } else {
            Moved::Unhandled
        }
    }

    /// The widget whose cursor is shown: the floating widget, else the overlay, else the
    /// focused drawer, else the main widget.
    pub fn cursor_owner(&self) -> (o: Owner)
        ensures
            o == (if self@.floating {
                Owner::Floating
            } else if self@.overlay is Some {
                Owner::Overlay
            } else if self@.focused matches Some(s) && self@.slot(s) is Some {
                Owner::Drawer(self@.focused->0)
            } else {
                Owner::Main
            }),
    {
        if self.floating {
            Owner::Floating
        } else if self.overlay.is_some() {
            Owner::Overlay
        } else {
            match self.focused {
                Some(side) => if self.slot(side).is_some() { Owner::Drawer(side) } else { Owner::Main },
                None => Owner::Main,
            }
        }
    }

    /// The constraints along the vertical direction.
    pub fn vertical_constraints(&self) -> (c: Vec<Constraint>)
        ensures
            c@ == vertical_constraints_of(self@),
    {
        let mut c: Vec<Constraint> = Vec::new();
        if let Some(d) = self.top {
            if d.open {
                c.push(Constraint::Length(d.size));
                c.push(Constraint::Length(1));
            }
        }
        c.push(Constraint::Fill(1));
        if let Some(d) = self.bottom {
            if d.open {
                c.push(Constraint::Length(1));
                c.push(Constraint::Length(d.size));
            }
        }
        proof {
            assert(c@ =~= vertical_constraints_of(self@));
        }
        c
    }

    /// The constraints along the horizontal direction.
    pub fn horizontal_constraints(&self) -> (c: Vec<Constraint>)
        ensures
            c@ == horizontal_constraints_of(self@),
    {
        let mut c: Vec<Constraint> = Vec::new();
        if let Some(d) = self.left {
            if d.open {
                c.push(Constraint::Length(d.size));
                c.push(Constraint::Length(1));
            }
        }
        c.push(Constraint::Fill(1));
        if let Some(d) = self.right {
            if d.open {
                c.push(Constraint::Length(1));
                c.push(Constraint::Length(d.size));
            }
        }
        proof {
            assert(c@ =~= horizontal_constraints_of(self@));
        }
        c
    }

    /// Which segment of the vertical split holds the left, main and right widgets.
    pub fn middle_index(&self) -> (i: usize)
        ensures
            i == (if self@.is_open(Side::Top) { 2int } else { 0 }),
    {
        match self.top {
            Some(d) => if d.open { 2 } else { 0 },
            None => 0,
        }
    }

    /// Give each part its segment: the open top drawer and its border come first in the
    /// vertical segments, the open bottom drawer's border and the drawer last, with the rest in
    /// between; the same goes for the left and right drawers in the horizontal segments of that
    /// rest, around the main widget. A floating widget takes the whole area.
    pub fn place(&self, vertical: &Vec<Rect>, horizontal: &Vec<Rect>, overlay: Option<Rect>) -> (a: DrawerAreas)
        requires
            vertical@.len() == vertical_constraints_of(self@).len(),
            horizontal@.len() == horizontal_constraints_of(self@).len(),
        ensures
            a == placed(self@, vertical@, horizontal@, overlay),
    {
        let vo = self.middle_index();
        let ho: usize = match self.left {
            Some(d) => if d.open { 2 } else { 0 },
            None => 0,
        };
        let top = match self.top {
            Some(d) => if d.open { Some((vertical[0], vertical[1])) } else { None },
            None => None,
        };
        let bottom = match self.bottom {
            Some(d) => if d.open { Some((vertical[vo + 2], vertical[vo + 1])) } else { None },
            None => None,
        };
        let left = match self.left {
            Some(d) => if d.open { Some((horizontal[0], horizontal[1])) } else { None },
            None => None,
        };
        let right = match self.right {
            Some(d) => if d.open { Some((horizontal[ho + 2], horizontal[ho + 1])) } else { None },
            None => None,
        };
        DrawerAreas {
            top,
            bottom,
            left,
            right,
            main: horizontal[ho],
            overlay,
            floating: if self.floating { Some(self.area) } else { None },
        }
    }

    /// The direction, constraints and segment of an overlay on a side.
    pub fn overlay_constraints(side: Side, size: u16) -> (r: (Direction, Vec<Constraint>, usize))
        ensures
            (r.0, r.1@, r.2 as int) == overlay_split(side, size),
    {
        let mut c: Vec<Constraint> = Vec::new();
        let (direction, index): (Direction, usize) = match side {
            Side::Top => {
                c.push(Constraint::Length(size));
                c.push(Constraint::Fill(1));
                (Direction::Vertical, 0)
            },
            Side::Bottom => {
                c.push(Constraint::Fill(1));
                c.push(Constraint::Length(size));
                (Direction::Vertical, 1)
            },
            Side::Left => {
                c.push(Constraint::Length(size));
                c.push(Constraint::Fill(1));
                (Direction::Horizontal, 0)
            },
            Side::Right => {
                c.push(Constraint::Fill(1));
                c.push(Constraint::Length(size));
                (Direction::Horizontal, 1)
            },
        };
        proof {
            assert(c@ =~= overlay_split(side, size).1);
        }
        (direction, c, index)
    }

    /// Lay the drawers out in an area, which is recorded, and say where each part goes: each
    /// part gets its segment of the splits that the solver gave, as `place` says.
    pub fn layout(&mut self, area: Rect) -> (a: DrawerAreas)
        ensures
            final(self)@ == (DrawersView { area, ..old(self)@ }),
            exists|vertical: Seq<Rect>, horizontal: Seq<Rect>, overlay: Option<Rect>|
                #[trigger] drawer_segments(final(self)@, area, vertical, horizontal, overlay)
                && a == placed(final(self)@, vertical, horizontal, overlay),
    {
        self.area = area;
        let vc = self.vertical_constraints();
        let vertical = split_area(Direction::Vertical, &vc, area);
        let middle = vertical[self.middle_index()];
        let hc = self.horizontal_constraints();
        let horizontal = split_area(Direction::Horizontal, &hc, middle);
        let overlay = match self.overlay {
            Some((side, size)) => {
                let (d, c, i) = Drawers::overlay_constraints(side, size);
                let rects = split_area(d, &c, area);
                proof {
                    assert(segment_of(d, area, rects@[i as int]));
                }
                Some(rects[i])
            },
            None => None,
        };
        let a = self.place(&vertical, &horizontal, overlay);
        proof {
            assert(drawer_segments(self@, area, vertical@, horizontal@, overlay));
        }
        a
    }
}


/// One rectangle lying within another.
pub open spec fn within(inner: Rect, outer: Rect) -> bool {
    &&& outer.x <= inner.x
    &&& inner.x + inner.width <= outer.x + outer.width
    &&& outer.y <= inner.y
    &&& inner.y + inner.height <= outer.y + outer.height
}

/// Whatever segments the solver gives, every part of drawers laid out in an area lies within
/// the area, where the area ends inside the coordinate range: the drawers, their borders, the
/// main widget and the overlay; a floating widget takes the whole area.
pub proof fn lemma_placed_within(v: DrawersView, area: Rect, vertical: Seq<Rect>, horizontal: Seq<Rect>, overlay: Option<Rect>)
    requires
        drawer_segments(v, area, vertical, horizontal, overlay),
        v.area == area,
        area.x + area.width <= u16::MAX,
        area.y + area.height <= u16::MAX,
    ensures
        ({
            let a = placed(v, vertical, horizontal, overlay);
            &&& within(a.main, area)
            &&& a.top matches Some(p) ==> within(p.0, area) && within(p.1, area)
            &&& a.bottom matches Some(p) ==> within(p.0, area) && within(p.1, area)
            &&& a.left matches Some(p) ==> within(p.0, area) && within(p.1, area)
            &&& a.right matches Some(p) ==> within(p.0, area) && within(p.1, area)
            &&& a.overlay matches Some(r) ==> within(r, area)
            &&& a.floating matches Some(r) ==> r == area
        }),
{
    let mi: int = if v.is_open(Side::Top) { 2 } else { 0 };
    let m = vertical[mi];
    assert(segment_of(Direction::Vertical, area, m));
    assert forall|i: int| 0 <= i < vertical.len() implies within(#[trigger] vertical[i], area) by {
        assert(segment_of(Direction::Vertical, area, vertical[i]));
    }
    assert forall|i: int| 0 <= i < horizontal.len() implies within(#[trigger] horizontal[i], area) by {
        assert(segment_of(Direction::Horizontal, m, horizontal[i]));
    }
    match v.overlay {
        Some(o) => {
            let r = overlay->0;
            assert(segment_of(overlay_split(o.0, o.1).0, area, r));
            match o.0 {
                Side::Top => assert(within(r, area)),
                Side::Bottom => assert(within(r, area)),
                Side::Left => assert(within(r, area)),
                Side::Right => assert(within(r, area)),
            }
        },
        None => {},
    }
}

/// Dragging the border of an open drawer puts the border under the cursor: the drawer, from
/// its edge of the area, reaches just up to the cursor's row or column, where that leaves room
/// for the opposite drawer; where it does not, the drawer takes all that room.
pub proof fn lemma_drag_puts_border_at_cursor(v: DrawersView, side: Side, cursor: Position)
    requires
        v.drag == Some(side),
        v.is_open(side),
        drag_defined(v, side, cursor),
        v.area.x + v.area.width <= u16::MAX,
        v.area.y + v.area.height <= u16::MAX,
    ensures
        ({
            let after = pointer_step(v, Pointer::Drag(cursor)).0;
            let n = after.open_size(side);
            let room = sat_sub(v.extent(side), v.displayed(side.spec_opposite()));
            &&& after.is_open(side)
            &&& n <= v.extent(side)
            &&& side is Top && v.area.y <= cursor.y && cursor.y - v.area.y <= room ==> v.area.y + n == cursor.y
            &&& side is Bottom && cursor.y < v.area.y + v.area.height && v.area.y + v.area.height - (cursor.y + 1) <= room
                ==> cursor.y + 1 + n == v.area.y + v.area.height
            &&& side is Left && v.area.x <= cursor.x && cursor.x - v.area.x <= room ==> v.area.x + n == cursor.x
            &&& side is Right && cursor.x < v.area.x + v.area.width && v.area.x + v.area.width - (cursor.x + 1) <= room
                ==> cursor.x + 1 + n == v.area.x + v.area.width
            &&& side is Top && cursor.y - v.area.y > room ==> n == room
            &&& side is Bottom && v.area.y + v.area.height - (cursor.y + 1) > room ==> n == room
            &&& side is Left && cursor.x - v.area.x > room ==> n == room
            &&& side is Right && v.area.x + v.area.width - (cursor.x + 1) > room ==> n == room
        }),
{
    let d = dragged(v, side, cursor);
    assert(0 <= d <= v.extent(side));
    let after = v.with_slot(side, Some(Drawer { open: true, size: d as u16 }));
    assert(pointer_step(v, Pointer::Drag(cursor)).0 == after);
    match side {
        Side::Top => assert(after.slot(Side::Top) == Some(Drawer { open: true, size: d as u16 })),
        Side::Bottom => assert(after.slot(Side::Bottom) == Some(Drawer { open: true, size: d as u16 })),
        Side::Left => assert(after.slot(Side::Left) == Some(Drawer { open: true, size: d as u16 })),
        Side::Right => assert(after.slot(Side::Right) == Some(Drawer { open: true, size: d as u16 })),
    }
}

/// Toggling a drawer twice gives back whether it was open, and leaves the other drawers, the
/// focus, the overlay and the floating widget alone; in an area not laid out yet it gives back
/// the drawers exactly.
pub proof fn lemma_toggle_twice(v: DrawersView, side: Side)
    ensures
        toggled(toggled(v, side), side).slot(side) matches Some(d2) ==> (v.slot(side) matches Some(d) && d2.open == d.open),
        toggled(toggled(v, side), side).slot(side) is Some == v.slot(side) is Some,
        forall|other: Side| other != side ==> toggled(toggled(v, side), side).slot(other) == v.slot(other),
        toggled(toggled(v, side), side).focused == v.focused,
        toggled(toggled(v, side), side).overlay == v.overlay,
        toggled(toggled(v, side), side).floating == v.floating,
        v.area.width * v.area.height == 0 ==> toggled(toggled(v, side), side) == v,
{
    if v.area.width * v.area.height == 0 {
        match v.slot(side) {
            None => {},
            Some(d) => {
                match side {
                    Side::Top => assert(toggled(toggled(v, side), side) == v),
                    Side::Bottom => assert(toggled(toggled(v, side), side) == v),
                    Side::Left => assert(toggled(toggled(v, side), side) == v),
                    Side::Right => assert(toggled(toggled(v, side), side) == v),
                }
            },
        }
    }
}

/// A drawer opened in a laid-out area leaves room for the opposite drawer: its size and the
/// opposite drawer's displayed size add up to no more than the area's extent on that axis,
/// whenever the opposite drawer alone fits.
pub proof fn lemma_toggle_no_collision(v: DrawersView, side: Side)
    requires
        v.slot(side) matches Some(d) && !d.open,
        v.area.width * v.area.height != 0,
        v.displayed(side.spec_opposite()) <= v.extent(side),
    ensures
        toggled(v, side).is_open(side),
        toggled(v, side).open_size(side) + toggled(v, side).displayed(side.spec_opposite()) <= v.extent(side),
{
}

/// Dragging a drawer's border never runs it into the opposite drawer: the new size and the
/// opposite drawer's displayed size add up to no more than the area's extent, whenever the
/// opposite drawer alone fits.
pub proof fn lemma_drag_no_collision(v: DrawersView, side: Side, cursor: Position)
    requires
        v.drag == Some(side),
        v.is_open(side),
        drag_defined(v, side, cursor),
        v.displayed(side.spec_opposite()) <= v.extent(side),
    ensures
        pointer_step(v, Pointer::Drag(cursor)).0.is_open(side),
        pointer_step(v, Pointer::Drag(cursor)).0.open_size(side)
            + pointer_step(v, Pointer::Drag(cursor)).0.displayed(side.spec_opposite()) <= v.extent(side),
{
}

/// No step shows an overlay and a floating widget together.
pub proof fn lemma_exclusive_kept(v: DrawersView, side: Side, size: u16, event: Pointer, key: char, cursor: Position)
    requires
        exclusive(v),
    ensures
        exclusive(toggled(v, side)),
        exclusive(DrawersView { overlay: Some((side, size)), floating: false, ..v }),
        exclusive(DrawersView { overlay: None, floating: true, ..v }),
        exclusive(pointer_step(v, event).0),
        exclusive(key_step(v, key, cursor).0),
{
}

} // verus!
