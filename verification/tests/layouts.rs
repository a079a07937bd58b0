use ted::border::Border;
use ted::drawers::{Drawer, Drawers, Moved, Owner, Pointer, Route, Target};
use ted::geometry::{Direction, Position, Rect, Side};
use ted::panes::{Child, ClickResult, Opened, Paint, PaneKey, Panes, PanesRoute};
use ted::utils::{drag_to_cursor, scroll_to_cursor};
use ted::config::Config;

fn opened_pane(panes: &mut Panes) -> PaneKey {
    match panes.open() {
        Opened::Added(k) => k,
        Opened::Replaced(_) => panic!("a new pane was expected"),
    }
}

#[test]
fn panes_open_adds_a_focused_pane() {
    let mut panes = Panes::new();
    assert!(panes.is_empty());
    let p = opened_pane(&mut panes);
    assert_eq!(panes.focused(), Some(p));
    assert_eq!(panes.pane_count(), 1);
    let root = panes.split_at(panes.root_key());
    assert_eq!(root.children, vec![Child::Pane(p)]);
    assert_eq!(root.sizes, vec![1]);
    // With a focused pane, the widget replaces the focused one.
    match panes.open() {
        Opened::Replaced(k) => assert_eq!(k, p),
        Opened::Added(_) => panic!("the focused pane should be replaced"),
    }
}

#[test]
fn split_along_the_root_direction_inserts_before() {
    let mut panes = Panes::new();
    let p = opened_pane(&mut panes);
    let clone = panes.split(p, Direction::Horizontal);
    assert_ne!(clone, p);
    assert_eq!(panes.focused(), Some(clone));
    assert_eq!(panes.split_count(), 1);
    let root = panes.split_at(panes.root_key());
    assert_eq!(root.children, vec![Child::Pane(clone), Child::Pane(p)]);
    assert_eq!(root.sizes, vec![1, 1]);
}

#[test]
fn split_across_makes_a_new_split() {
    let mut panes = Panes::new();
    let p = opened_pane(&mut panes);
    let clone = panes.split(p, Direction::Vertical);
    assert_eq!(panes.split_count(), 2);
    let root = panes.split_at(panes.root_key());
    assert_eq!(root.children.len(), 1);
    match root.children[0] {
        Child::Split(s) => {
            let inner = panes.split_at(s);
            assert_eq!(inner.children, vec![Child::Pane(p), Child::Pane(clone)]);
            assert_eq!(inner.direction, Direction::Vertical);
            assert_eq!(inner.parent, Some(panes.root_key()));
        }
        Child::Pane(_) => panic!("a split was expected"),
    }
}

#[test]
fn close_undoes_split() {
    for direction in [Direction::Horizontal, Direction::Vertical] {
        let mut panes = Panes::new();
        let a = opened_pane(&mut panes);
        let b = panes.split(a, Direction::Horizontal);
        let before_children = panes.split_at(panes.root_key()).children.clone();
        let before_splits = panes.split_count();
        panes.focus(a);
        let clone = panes.split(a, direction);
        let hook = panes.close(clone);
        assert_eq!(hook, None);
        assert_eq!(panes.focused(), Some(a));
        assert_eq!(panes.split_count(), before_splits);
        assert_eq!(panes.split_at(panes.root_key()).children, before_children);
        assert!(panes.has_pane(b));
        assert!(!panes.has_pane(clone));
    }
}

#[test]
fn close_focuses_the_nearest_sibling() {
    let mut panes = Panes::new();
    let a = opened_pane(&mut panes);
    let b = panes.split(a, Direction::Horizontal);
    let c = panes.split(b, Direction::Horizontal);
    // Children: [c, b, a], c focused; closing it focuses b, now at its place.
    assert_eq!(panes.close(c), None);
    assert_eq!(panes.focused(), Some(b));
    // Closing the last child focuses the one before.
    panes.focus(a);
    assert_eq!(panes.close(a), None);
    assert_eq!(panes.focused(), Some(b));
    // Closing the last pane of the root leaves nothing focused.
    assert_eq!(panes.close(b), None);
    assert_eq!(panes.focused(), None);
    assert!(panes.is_empty());
}

#[test]
fn close_of_an_unfocused_pane_keeps_the_focus() {
    let mut panes = Panes::new();
    let a = opened_pane(&mut panes);
    let b = panes.split(a, Direction::Horizontal);
    assert_eq!(panes.focused(), Some(b));
    assert_eq!(panes.close(a), None);
    assert_eq!(panes.focused(), Some(b));
}

#[test]
fn closing_into_a_split_focuses_its_first_pane() {
    let mut panes = Panes::new();
    let a = opened_pane(&mut panes);
    let b = panes.split(a, Direction::Vertical); // root: [split(a, b)]
    let c = panes.split(b, Direction::Horizontal); // inner vertical split: [a, split(b, c)]
    assert_eq!(panes.focused(), Some(c));
    panes.focus(a);
    // Closing a collapses the vertical split: its place goes to the split holding b and c,
    // whose first pane gets the focus.
    let hook = panes.close(a);
    assert_eq!(hook, Some(b));
    assert_eq!(panes.focused(), Some(b));
    assert_eq!(panes.split_count(), 2);
}

#[test]
fn layout_draws_borders_then_panes() {
    let mut panes = Panes::new();
    let a = opened_pane(&mut panes);
    let b = panes.split(a, Direction::Horizontal);
    let paints = panes.layout(Rect::new(0, 0, 81, 10));
    assert_eq!(paints.len(), 3);
    match paints[0] {
        Paint::Border(d, r) => {
            assert_eq!(d, Direction::Vertical);
            assert_eq!(r.width, 1);
            assert_eq!(r.height, 10);
        }
        _ => panic!("the border comes first"),
    }
    let root = panes.split_at(panes.root_key());
    assert_eq!(root.area, Rect::new(0, 0, 81, 10));
    assert_eq!(root.sizes.iter().map(|s| *s as u32).sum::<u32>(), 80);
    match (paints[1], paints[2]) {
        (Paint::Pane(k1, r1), Paint::Pane(k2, r2)) => {
            assert_eq!(k1, b);
            assert_eq!(k2, a);
            assert_eq!(r1.width, root.sizes[0]);
            assert_eq!(r2.width, root.sizes[1]);
            assert_eq!(r2.x, r1.width + 1);
        }
        _ => panic!("panes come after the border"),
    }
}

#[test]
fn clicks_hit_panes_and_borders() {
    let mut panes = Panes::new();
    let a = opened_pane(&mut panes);
    let b = panes.split(a, Direction::Horizontal);
    let _ = panes.layout(Rect::new(0, 0, 81, 10));
    let w = panes.split_at(panes.root_key()).sizes[0];
    assert_eq!(panes.click(Position::new(0, 3)), Some(ClickResult::Pane(b)));
    assert_eq!(panes.click(Position::new(w, 3)), Some(ClickResult::Border(panes.root_key(), 0)));
    assert_eq!(panes.click(Position::new(w + 1, 3)), Some(ClickResult::Pane(a)));
    assert_eq!(panes.scroll_target(Position::new(w + 2, 3)), Some(a));
    assert_eq!(panes.scroll_target(Position::new(200, 3)), None);
    // A click on a pane focuses it and goes on to it.
    assert_eq!(panes.pointer(Pointer::Down(Position::new(w + 1, 3))), PanesRoute::Continue(true));
    assert_eq!(panes.focused(), Some(a));
    // A click on a border starts a drag, and a drag moves the border.
    assert_eq!(panes.pointer(Pointer::Down(Position::new(w, 3))), PanesRoute::Handled);
    assert_eq!(panes.pointer(Pointer::Drag(Position::new(20, 3))), PanesRoute::Handled);
    let sizes = panes.split_at(panes.root_key()).sizes.clone();
    assert_eq!(sizes[0], 20);
    assert_eq!(sizes[0] + sizes[1], 80);
    assert_eq!(panes.pointer(Pointer::Up), PanesRoute::Continue(false));
    assert_eq!(panes.pointer(Pointer::Drag(Position::new(30, 3))), PanesRoute::Continue(false));
}

#[test]
fn neighbors_are_found_past_the_shared_border() {
    let mut panes = Panes::new();
    let a = opened_pane(&mut panes);
    let b = panes.split(a, Direction::Horizontal);
    let paints = panes.layout(Rect::new(0, 0, 81, 10));
    let (area_b, area_a) = match (paints[1], paints[2]) {
        (Paint::Pane(_, r1), Paint::Pane(_, r2)) => (r1, r2),
        _ => panic!("two panes"),
    };
    assert_eq!(panes.focus_neighbor(area_b, Side::Right, Position::new(5, 5)), Some(a));
    assert_eq!(panes.focus_neighbor(area_a, Side::Left, Position::new(50, 5)), Some(b));
    assert_eq!(panes.focus_neighbor(area_a, Side::Top, Position::new(50, 0)), None);
    assert_eq!(panes.key_target('l', area_b, Position::new(5, 5)), Some(a));
    assert_eq!(panes.key_target('x', area_b, Position::new(5, 5)), None);
}

#[test]
fn drawers_toggle_and_clamp() {
    let mut d = Drawers::new().with_drawer(Side::Left, 30).with_drawer(Side::Right, 30);
    assert_eq!(d.slot(Side::Left), Some(Drawer { open: false, size: 30 }));
    assert_eq!(d.displayed_size(Side::Left), 0);
    // Before any layout, the size is kept as it is.
    d.toggle(Side::Left);
    assert_eq!(d.slot(Side::Left), Some(Drawer { open: true, size: 30 }));
    assert_eq!(d.displayed_size(Side::Left), 31);
    let _ = d.layout(Rect::new(0, 0, 50, 20));
    // Opening the right drawer leaves room for the left one: 50 - 31 = 19.
    d.toggle(Side::Right);
    assert_eq!(d.slot(Side::Right), Some(Drawer { open: true, size: 19 }));
    d.toggle(Side::Right);
    assert_eq!(d.slot(Side::Right), Some(Drawer { open: false, size: 19 }));
    // Toggling a missing drawer does nothing.
    d.toggle(Side::Top);
    assert_eq!(d.slot(Side::Top), None);
}

#[test]
fn drawers_layout_places_each_part() {
    let mut d = Drawers::new().with_drawer(Side::Left, 10);
    d.toggle(Side::Left);
    let areas = d.layout(Rect::new(0, 0, 100, 50));
    assert_eq!(areas.left, Some((Rect::new(0, 0, 10, 50), Rect::new(10, 0, 1, 50))));
    assert_eq!(areas.main, Rect::new(11, 0, 89, 50));
    assert_eq!(areas.top, None);
    assert_eq!(areas.right, None);
    assert_eq!(areas.floating, None);
    d.overlay(Side::Bottom, 5);
    let areas = d.layout(Rect::new(0, 0, 100, 50));
    assert_eq!(areas.overlay, Some(Rect::new(0, 45, 100, 5)));
    d.floating();
    assert_eq!(d.overlay_side(), None);
    let areas = d.layout(Rect::new(0, 0, 100, 50));
    assert_eq!(areas.floating, Some(Rect::new(0, 0, 100, 50)));
    assert_eq!(d.cursor_owner(), Owner::Floating);
}

#[test]
fn drawers_clicks_focus_and_drag() {
    let mut d = Drawers::new().with_drawer(Side::Left, 10).with_drawer(Side::Bottom, 5);
    d.toggle(Side::Left);
    d.toggle(Side::Bottom);
    let _ = d.layout(Rect::new(0, 0, 100, 50));
    assert_eq!(d.click_target(Position::new(3, 3)), Some((Side::Left, false)));
    assert_eq!(d.click_target(Position::new(10, 3)), Some((Side::Left, true)));
    assert_eq!(d.click_target(Position::new(50, 44)), Some((Side::Bottom, true)));
    assert_eq!(d.click_target(Position::new(50, 47)), Some((Side::Bottom, false)));
    assert_eq!(d.click_target(Position::new(50, 10)), None);
    assert_eq!(d.pointer(Pointer::Down(Position::new(3, 3))), Route::Focused);
    assert_eq!(d.focused(), Some(Side::Left));
    assert_eq!(d.focus_target(), Target::Drawer(Side::Left));
    assert_eq!(d.pointer(Pointer::Down(Position::new(50, 10))), Route::Focused);
    assert_eq!(d.focused(), None);
    assert_eq!(d.focus_target(), Target::Main);
    // Dragging the left border to column 20 makes the drawer 20 wide.
    assert_eq!(d.pointer(Pointer::Down(Position::new(10, 3))), Route::Handled);
    assert_eq!(d.pointer(Pointer::Drag(Position::new(20, 3))), Route::Handled);
    assert_eq!(d.slot(Side::Left), Some(Drawer { open: true, size: 20 }));
    assert_eq!(d.pointer(Pointer::Up), Route::Focused);
    assert_eq!(d.pointer(Pointer::Scroll(Position::new(50, 10))), Route::Main);
    assert_eq!(d.pointer(Pointer::Scroll(Position::new(2, 10))), Route::Drawer(Side::Left));
}

#[test]
fn drawers_keys_move_the_focus() {
    let mut d = Drawers::new().with_drawer(Side::Left, 10).with_drawer(Side::Top, 5);
    d.toggle(Side::Left);
    d.toggle(Side::Top);
    let _ = d.layout(Rect::new(0, 0, 100, 50));
    assert_eq!(d.key_move('h', Position::new(0, 0)), Moved::Drawer(Side::Left));
    assert_eq!(d.focused(), Some(Side::Left));
    assert_eq!(d.key_move('h', Position::new(0, 0)), Moved::Unhandled);
    assert_eq!(d.key_move('l', Position::new(0, 0)), Moved::Main);
    assert_eq!(d.focused(), None);
    // No right drawer: handled, nothing focused.
    assert_eq!(d.key_move('l', Position::new(0, 0)), Moved::Stay);
    assert_eq!(d.key_move('k', Position::new(0, 0)), Moved::Drawer(Side::Top));
    // Down from the top drawer, over the left drawer.
    assert_eq!(d.key_move('j', Position::new(4, 0)), Moved::Drawer(Side::Left));
    d.close_drawer(Side::Left);
    assert_eq!(d.slot(Side::Left), Some(Drawer { open: false, size: 10 }));
    assert_eq!(d.focused(), None);
    assert_eq!(d.key_move('x', Position::new(0, 0)), Moved::Unhandled);
}

#[test]
fn borders_join_crossing_lines() {
    let v = Border::vertical();
    assert_eq!(v.symbol(), "─");
    assert_eq!(v.join_before("│").as_deref(), Some("├"));
    assert_eq!(v.join_before("┤").as_deref(), Some("┼"));
    assert_eq!(v.join_before("x"), None);
    assert_eq!(v.join_after("│").as_deref(), Some("┤"));
    assert_eq!(v.join_after("├").as_deref(), Some("┼"));
    let h = Border::horizontal();
    assert_eq!(h.symbol(), "│");
    assert_eq!(h.join_before("─").as_deref(), Some("┬"));
    assert_eq!(h.join_before("┴").as_deref(), Some("┼"));
    assert_eq!(h.join_after("─").as_deref(), Some("┴"));
    assert_eq!(h.join_after("┬").as_deref(), Some("┼"));
    let area = Rect::new(3, 4, 2, 5);
    assert_eq!(v.cells(area), vec![Position::new(3, 4), Position::new(4, 4)]);
    assert_eq!(h.cells(area).len(), 5);
    assert_eq!(v.before(area), Some(Position::new(2, 4)));
    assert_eq!(h.before(Rect::new(3, 0, 1, 5)), None);
    assert_eq!(v.after(area), Position::new(5, 4));
    assert_eq!(h.after(area), Position::new(3, 9));
}

#[test]
fn scroll_keeps_the_cursor_in_view() {
    let config = Config::default();
    let area = Rect::new(0, 0, 10, 20);
    let mut scroll = 0;
    scroll_to_cursor(&mut scroll, 3, area, &config);
    assert_eq!(scroll, 0);
    scroll_to_cursor(&mut scroll, 30, area, &config);
    assert_eq!(scroll, 16);
    scroll_to_cursor(&mut scroll, 17, area, &config);
    assert_eq!(scroll, 12);
}

#[test]
fn drag_moves_the_shared_border() {
    let mut sizes = vec![10, 10, 10];
    drag_to_cursor(&mut sizes, 1, Position::new(15, 0), Direction::Horizontal, Rect::new(0, 0, 32, 5));
    assert_eq!(sizes, vec![10, 4, 16]);
    drag_to_cursor(&mut sizes, 1, Position::new(100, 0), Direction::Horizontal, Rect::new(0, 0, 32, 5));
    assert_eq!(sizes, vec![10, 20, 0]);
}

#[test]
fn geometry_basics() {
    let r = Rect::new(65530, 1, 10, 3);
    assert_eq!(r.right(), u16::MAX);
    assert_eq!(r.bottom(), 4);
    assert_eq!(r.area(), 30);
    assert!(r.contains(Position::new(65531, 2)));
    assert!(!r.contains(Position::new(65531, 4)));
    assert_eq!(Side::Top.opposite(), Side::Bottom);
    assert_eq!(Side::Left.opposite().opposite(), Side::Left);
    assert!(Side::Top.vertical());
    assert!(Side::Right.horizontal());
    assert_eq!(Direction::Horizontal.perpendicular(), Direction::Vertical);
}

#[test]
fn key_moves_are_checked_before_asking() {
    let mut panes = Panes::new();
    let a = opened_pane(&mut panes);
    let b = panes.split(a, Direction::Horizontal);
    let paints = panes.layout(Rect::new(0, 0, 81, 10));
    let area_b = match paints[1] {
        Paint::Pane(_, r) => r,
        _ => panic!("a pane"),
    };
    assert!(panes.key_target_ok('l', area_b, Position::new(5, 5)));
    assert_eq!(panes.key_target('l', area_b, Position::new(5, 5)), Some(a));
    assert!(panes.key_target_ok('x', area_b, Position::new(5, 5)));
    // No row below the last one of the cell range.
    assert!(!panes.key_target_ok('j', Rect::new(0, 0, 10, u16::MAX), Position::new(5, 5)));
    assert!(!panes.key_target_ok('l', Rect::new(u16::MAX - 3, 0, 3, 10), Position::new(5, 5)));
    let _ = b;
}

#[test]
fn laid_out_segments_lie_within_the_area() {
    let mut panes = Panes::new();
    let a = opened_pane(&mut panes);
    let _ = panes.split(a, Direction::Vertical);
    let area = Rect::new(3, 2, 40, 21);
    for paint in panes.layout(area) {
        let r = match paint {
            Paint::Pane(_, r) => r,
            Paint::Border(_, r) => r,
        };
        assert_eq!((r.x, r.width), (area.x, area.width));
        assert!(area.y <= r.y && r.y + r.height <= area.y + area.height);
    }
}

#[test]
fn drawer_parts_lie_within_the_area() {
    let mut d = Drawers::new()
        .with_drawer(Side::Left, 10)
        .with_drawer(Side::Right, 12)
        .with_drawer(Side::Top, 4)
        .with_drawer(Side::Bottom, 6);
    d.toggle(Side::Left);
    d.toggle(Side::Right);
    d.toggle(Side::Top);
    d.toggle(Side::Bottom);
    d.overlay(Side::Right, 20);
    let area = Rect::new(5, 3, 90, 40);
    let areas = d.layout(area);
    let within = |r: Rect| {
        area.x <= r.x && r.x + r.width <= area.x + area.width && area.y <= r.y && r.y + r.height <= area.y + area.height
    };
    assert!(within(areas.main));
    for (drawer, border) in [areas.top, areas.bottom, areas.left, areas.right].into_iter().flatten() {
        assert!(within(drawer));
        assert!(within(border));
    }
    assert_eq!(areas.overlay, Some(Rect::new(75, 3, 20, 40)));
    assert!(areas.top.is_some() && areas.bottom.is_some() && areas.left.is_some() && areas.right.is_some());
}
