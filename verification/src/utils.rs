//! Scrolling and border dragging arithmetic.
use vstd::prelude::*;
use crate::config::Config;
use crate::geometry::{Direction, Position, Rect};

verus! {

/// The scroll offset that `scroll_to_cursor` gives.
pub open spec fn scrolled(scroll: int, cursor: int, height: int, margin: int) -> int {
    if scroll + margin > cursor {
        if cursor >= margin { cursor - margin } else { 0 }
    } else if scroll + height <= cursor + margin {
        cursor + margin - height + 1
    } else {
        scroll
    }
}

/// Update the scroll position to ensure the cursor is visible with the given scroll margin.
pub fn scroll_to_cursor(scroll: &mut usize, cursor: usize, area: Rect, config: &Config)
    requires
        *old(scroll) + config.scroll_margin <= usize::MAX,
        *old(scroll) + area.height <= usize::MAX,
        cursor + config.scroll_margin < usize::MAX,
    ensures
        *final(scroll) == scrolled(*old(scroll) as int, cursor as int, area.height as int, config.scroll_margin as int),
{
    let height = area.height as usize;
    let margin = config.scroll_margin as usize;
    if *scroll + margin > cursor {
        *scroll = cursor.saturating_sub(margin);
    } else if *scroll + height <= cursor + margin {
        *scroll = cursor + margin - height + 1;
    }
}

/// Scrolling to the cursor leaves it in view, and where the margin fits twice in the height,
/// at least the margin away from the bottom edge, and from the top edge unless the view
/// starts at the top.
pub proof fn lemma_cursor_in_view(scroll: int, cursor: int, height: int, margin: int)
    requires
        0 <= scroll,
        0 <= cursor,
        0 <= margin < height,
    ensures
        0 <= scrolled(scroll, cursor, height, margin) <= cursor < scrolled(scroll, cursor, height, margin) + height,
        2 * margin < height ==> {
            &&& cursor + margin < scrolled(scroll, cursor, height, margin) + height
            &&& (scrolled(scroll, cursor, height, margin) + margin <= cursor || scrolled(scroll, cursor, height, margin) == 0)
        },
{
}

/// Scrolling to a cursor that is already in view, the margin away from both edges, leaves the
/// view where it is; a cursor above that margin is brought to the top margin (or the view to
/// the top), and one below it to the bottom margin.
pub proof fn lemma_scroll_moves_only_when_needed(scroll: int, cursor: int, height: int, margin: int)
    requires
        0 <= scroll,
        0 <= cursor,
        0 <= margin,
    ensures
        scroll + margin <= cursor && cursor + margin < scroll + height ==> scrolled(scroll, cursor, height, margin) == scroll,
        cursor < scroll + margin ==> scrolled(scroll, cursor, height, margin) <= scroll
            && (scrolled(scroll, cursor, height, margin) + margin == cursor || scrolled(scroll, cursor, height, margin) == 0),
        scroll + margin <= cursor && scroll + height <= cursor + margin ==>
            scrolled(scroll, cursor, height, margin) > scroll
            && scrolled(scroll, cursor, height, margin) + height == cursor + margin + 1,
{
}

/// Sum of the first `n` sizes.
pub open spec fn prefix_sum(sizes: Seq<u16>, n: int) -> int
    decreases n,
{
    if n <= 0 {
        0
    } else {
        prefix_sum(sizes, n - 1) + sizes[n - 1]
    }
}

/// The size that `drag_to_cursor` gives the pane before the border.
pub open spec fn dragged_size(sizes: Seq<u16>, border: int, rel: int) -> int {
    let before = prefix_sum(sizes, border) + border;
    let size = if rel >= before { rel - before } else { 0 };
    let combined = sizes[border] + sizes[border + 1];
    if size < combined { size } else { combined }
}

/// Position of the cursor relative to an area, along a direction (saturating at 0).
pub open spec fn relative(cursor: Position, direction: Direction, area: Rect) -> int {
    match direction {
        Direction::Horizontal => if cursor.x >= area.x { cursor.x - area.x } else { 0 },
        Direction::Vertical => if cursor.y >= area.y { cursor.y - area.y } else { 0 },
    }
}

/// Update neighbor pane sizes in order to drag their shared border to the mouse position: the
/// pane before the border takes the cursor's offset past the panes and borders before it, up to
/// the two panes' combined size, and the pane after it takes the rest.
pub fn drag_to_cursor(sizes: &mut Vec<u16>, border: usize, cursor: Position, direction: Direction, area: Rect)
    requires
        border + 1 < old(sizes)@.len(),
        prefix_sum(old(sizes)@, border as int) + border <= u16::MAX,
        old(sizes)@[border as int] + old(sizes)@[border + 1] <= u16::MAX,
    ensures
        final(sizes)@ == old(sizes)@.update(
            border as int,
            dragged_size(old(sizes)@, border as int, relative(cursor, direction, area)) as u16,
        ).update(
            border + 1,
            (old(sizes)@[border as int] + old(sizes)@[border + 1] - dragged_size(old(sizes)@, border as int, relative(cursor, direction, area))) as u16,
        ),
{
    let rel = match direction {
        Direction::Horizontal => cursor.x.saturating_sub(area.x),
        Direction::Vertical => cursor.y.saturating_sub(area.y),
    };
    let mut sum: u16 = 0;
    let mut i: usize = 0;
    while i < border
        invariant
            i <= border,
            border + 1 < sizes@.len(),
            sum == prefix_sum(sizes@, i as int),
            prefix_sum(sizes@, border as int) + border <= u16::MAX,
        decreases border - i,
    {
        proof {
            lemma_prefix_sum_mono(sizes@, i + 1, border as int);
        }
        sum = sum + sizes[i];
        i += 1;
    }
    let size = rel.saturating_sub(sum + border as u16);
    let combined = sizes[border] + sizes[border + 1];
    let size = if size < combined { size } else { combined };
    sizes.set(border, size);
    sizes.set(border + 1, combined - size);
}

/// Sums of more of the first sizes are no smaller.
pub proof fn lemma_prefix_sum_mono(sizes: Seq<u16>, a: int, b: int)
    requires
        0 <= a <= b <= sizes.len(),
    ensures
        prefix_sum(sizes, a) <= prefix_sum(sizes, b),
    decreases b - a,
{
    if a < b {
        lemma_prefix_sum_mono(sizes, a, b - 1);
    }
}

/// Dragging a border keeps the combined size of the two panes around it, and the other sizes.
pub proof fn lemma_drag_keeps_total(sizes: Seq<u16>, border: int, rel: int)
    requires
        0 <= border,
        border + 1 < sizes.len(),
        sizes[border] + sizes[border + 1] <= u16::MAX,
    ensures
        0 <= dragged_size(sizes, border, rel) <= sizes[border] + sizes[border + 1],
{
    lemma_prefix_sum_mono(sizes, 0, border);
}

} // verus!
