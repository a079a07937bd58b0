//! Where a file's text is shown in a preview: which lines and columns, and where the
//! highlighted line goes.
use vstd::prelude::*;
use crate::geometry::Rect;

verus! {

/// The scroll that puts the highlighted line in the middle of an area of a height.
pub fn centered_scroll(line: Option<usize>, scroll: usize, height: u16) -> (s: usize)
    ensures
        s == (match line {
            Some(l) => if l >= height / 2 { (l - height / 2) as usize } else { 0 },
            None => scroll,
        }),
{
    match line {
        Some(l) => l.saturating_sub(height as usize / 2),
        None => scroll,
    }
}

/// The columns of a line of `len` characters shown from a horizontal scroll in a width.
pub fn shown_columns(scroll_x: usize, width: u16, len: usize) -> (r: (usize, usize))
    requires
        scroll_x + width <= usize::MAX,
    ensures
        r.0 == (if scroll_x <= len { scroll_x } else { len }),
        r.1 == (if scroll_x + width <= len { (scroll_x + width) as usize } else { len }),
{
    let end = scroll_x + width as usize;
    (if scroll_x <= len { scroll_x } else { len }, if end <= len { end } else { len })
}

/// The row of the highlighted line, a line of `len` characters, when it is shown: as wide as
/// what is shown of the line, one row high.
pub fn highlight_rect(area: Rect, line: usize, scroll_x: usize, scroll_y: usize, len: usize) -> (r: Option<Rect>)
    requires
        scroll_y + area.height <= usize::MAX,
        line >= scroll_y && line < scroll_y + area.height ==> area.y + ((line - scroll_y) as u16) <= u16::MAX,
    ensures
        r == (if line >= scroll_y && line < scroll_y + area.height {
            let shown = if len >= scroll_x { len - scroll_x } else { 0 };
            Some(Rect {
                x: area.x,
                y: (area.y + ((line - scroll_y) as u16)) as u16,
                width: (if shown <= area.width { shown } else { area.width as int }) as u16,
                height: 1,
            })
        } else {
            None
        }),
{
    if line >= scroll_y && line < scroll_y + area.height as usize {
        let shown = len.saturating_sub(scroll_x);
        let width = if shown <= area.width as usize { shown } else { area.width as usize };
        Some(Rect::new(area.x, area.y + (line - scroll_y) as u16, width as u16, 1))
    } else {
        None
    }
}

} // verus!
