use ted::finder::{cols, highlight_indices, result_padding, result_rows, Finder, FinderAction, FinderKey, Segment};
use ted::geometry::{Position, Rect};
use ted::highlights::{highlight_lines, Capture, HighlightLine, HighlightLines};
use ted::home::Home;
use ted::matcher::{file_slice_range, grep_searches, grep_slice_range, grep_tick, MatcherData, MatcherMode, MatcherView, Matchers, Tick};
use ted::preview::{centered_scroll, highlight_rect, shown_columns};
use ted::text::split_words;

fn tick(matched: usize) -> Tick {
    Tick { changed: true, running: false, matched, total: matched + 10 }
}

#[test]
fn matchers_select_within_the_matches() {
    let mut m = Matchers::new();
    assert_eq!(m.mode(), MatcherMode::File);
    assert_eq!((m.selected(), m.matched(), m.total()), (0, 0, 0));
    m.up();
    assert_eq!(m.selected(), 0);
    assert!(m.tick(tick(3), 0));
    assert_eq!((m.matched(), m.total()), (3, 13));
    m.up();
    m.up();
    m.up();
    assert_eq!(m.selected(), 2);
    m.down();
    assert_eq!(m.selected(), 1);
    m.search();
    assert_eq!(m.selected(), 0);
    m.open(&MatcherData::File(".".to_string()));
    assert_eq!(m.mode(), MatcherMode::File);
    m.close();
    assert_eq!(m.previewed(), None);
}

#[test]
fn ticks_are_debounced() {
    let mut m = Matchers::new();
    // Nothing changed: not taken.
    assert!(!m.tick(Tick { changed: false, running: false, matched: 5, total: 5 }, 100));
    assert_eq!(m.matched(), 0);
    // Still running, asked 5 ms ago: not taken yet.
    assert!(!m.tick(Tick { changed: true, running: true, matched: 5, total: 5 }, 5));
    // Still running, asked 10 ms ago: taken.
    assert!(m.tick(Tick { changed: true, running: true, matched: 5, total: 5 }, 10));
    assert_eq!(m.matched(), 5);
    assert_eq!(Tick::empty(), Tick { changed: false, running: false, matched: 0, total: 0 });
    assert_eq!(MatcherMode::from_data(&MatcherData::Grep("x".to_string())), MatcherMode::Grep);
}

#[test]
fn matcher_ranges() {
    assert_eq!(file_slice_range(10, 5, 100), (10, 15));
    assert_eq!(file_slice_range(10, 5, 12), (10, 12));
    assert_eq!(grep_slice_range(2, 3, 10), (2, 5));
    assert_eq!(grep_slice_range(8, 3, 10), (8, 10));
    assert_eq!(grep_slice_range(12, 3, 10), (10, 10));
    assert!(!grep_searches("ab"));
    assert!(grep_searches("abc"));
    assert!(!grep_searches("éé"));
    assert!(grep_searches("ééé"));
    let mut length = 4;
    assert_eq!(grep_tick(4, &mut length, true), Tick { matched: 4, total: 4, changed: false, running: true });
    assert_eq!(grep_tick(5, &mut length, false), Tick { matched: 5, total: 5, changed: true, running: false });
    assert_eq!(length, 5);
    assert_eq!(grep_tick(5, &mut length, false), Tick { matched: 5, total: 5, changed: false, running: false });
    let empty = MatcherView::File(vec![]);
    assert_eq!(empty.len(), 0);
    assert!(empty.is_empty());
}

#[test]
fn finder_typing_and_moving() {
    let mut f = Finder::new();
    let mut m = Matchers::new();
    assert!(m.tick(tick(5), 0));
    assert_eq!(f.key(FinderKey::Char('a', false), &mut m), FinderAction::Search(true));
    assert_eq!(f.key(FinderKey::Char(' ', false), &mut m), FinderAction::Search(true));
    assert_eq!(f.key(FinderKey::Char('b', false), &mut m), FinderAction::Search(true));
    assert_eq!(f.filter(), "a b");
    assert_eq!(f.key(FinderKey::Up, &mut m), FinderAction::Preview);
    assert_eq!(m.selected(), 1);
    assert_eq!(f.key(FinderKey::Char('k', true), &mut m), FinderAction::Preview);
    assert_eq!(m.selected(), 2);
    assert_eq!(f.key(FinderKey::Char('j', true), &mut m), FinderAction::Preview);
    assert_eq!(m.selected(), 1);
    assert_eq!(f.key(FinderKey::Char('x', true), &mut m), FinderAction::NotHandled);
    assert_eq!(f.key(FinderKey::Backspace, &mut m), FinderAction::Search(false));
    assert_eq!(f.filter(), "a ");
    assert_eq!(m.selected(), 0);
    assert_eq!(f.key(FinderKey::Other, &mut m), FinderAction::NotHandled);
    assert_eq!(f.key(FinderKey::Esc, &mut m), FinderAction::Close);
}

#[test]
fn finder_scrolls_to_the_selection() {
    let mut f = Finder::new();
    f.scroll_to(12, 5);
    assert_eq!(f.offset(), 8);
    f.scroll_to(10, 5);
    assert_eq!(f.offset(), 8);
    f.scroll_to(3, 5);
    assert_eq!(f.offset(), 3);
    assert_eq!(result_rows(Rect::new(0, 0, 10, 12)), 10);
    assert_eq!(result_rows(Rect::new(0, 0, 10, 1)), 0);
    assert_eq!(result_padding(Rect::new(0, 0, 10, 12), 4), 6);
}

#[test]
fn finder_search_line() {
    let mut f = Finder::new();
    let mut m = Matchers::new();
    for c in "abc".chars() {
        f.key(FinderKey::Char(c, false), &mut m);
    }
    let l = f.search_line(Rect::new(0, 0, 40, 3), 12, 345);
    assert_eq!(l.skip, 0);
    assert_eq!(l.padding, 24);
    assert_eq!(l.cursor, Position::new(5, 1));
    assert_eq!(f.cursor(), Position::new(5, 1));
    // A narrow box cuts the filter from the left.
    let l = f.search_line(Rect::new(10, 20, 14, 3), 12, 345);
    assert_eq!(l.skip, 2);
    assert_eq!(l.padding, 0);
    assert_eq!(l.cursor, Position::new(13, 21));
}

#[test]
fn finder_layout_and_indices() {
    let mut f = Finder::new();
    let a = f.layout(Rect::new(0, 0, 100, 100));
    assert_eq!(f.area(), Rect::new(25, 0, 50, 100));
    assert_eq!(a.search.height, 3);
    assert_eq!(a.preview.width, 50);
    let mut m = Matchers::new();
    for c in "main".chars() {
        f.key(FinderKey::Char(c, false), &mut m);
    }
    assert_eq!(f.compute_indices("./src/main.rs", 2), vec![4, 5, 6, 7]);
    assert_eq!(f.compute_indices("./src/main.rs", 0), vec![6, 7, 8, 9]);
    assert_eq!(f.compute_indices("./src/lib.rs", 2), Vec::<u32>::new());
}

#[test]
fn cols_counts_digits() {
    assert_eq!(cols(0), 1);
    assert_eq!(cols(9), 1);
    assert_eq!(cols(10), 2);
    assert_eq!(cols(12345), 5);
    assert_eq!(cols(usize::MAX), usize::MAX.to_string().len());
}

#[test]
fn highlights_split_into_pieces() {
    let seg = |start, end, highlighted| Segment { start, end, highlighted };
    assert_eq!(
        highlight_indices("abcdef", &vec![1, 2, 4]),
        vec![seg(0, 1, false), seg(1, 3, true), seg(3, 4, false), seg(4, 5, true), seg(5, 6, false)]
    );
    assert_eq!(highlight_indices("abc", &vec![0, 1]), vec![seg(0, 2, true), seg(2, 3, false)]);
    assert_eq!(highlight_indices("abc", &vec![]), vec![seg(0, 3, false)]);
    assert_eq!(highlight_indices("ab", &vec![1, 1, 5]), vec![seg(0, 1, false), seg(1, 2, true), seg(2, 2, false), seg(2, 2, true)]);
}

#[test]
fn words_are_split_on_white_space() {
    assert_eq!(split_words("  a  bc\td "), vec!["a".to_string(), "bc".to_string(), "d".to_string()]);
    assert_eq!(split_words(""), Vec::<String>::new());
    assert_eq!(split_words("x\u{3000}y"), vec!["x".to_string(), "y".to_string()]);
}

#[test]
fn highlight_lines_cover_each_row() {
    let c = Capture { style: 7, start_row: 2, start_col: 5, end_row: 4, end_col: 3 };
    let mut h = HighlightLines::from_capture(c);
    assert_eq!(h.next(), Some(HighlightLine { style: 7, start: 5, end: usize::MAX, row: 2 }));
    assert_eq!(h.next(), Some(HighlightLine { style: 7, start: 0, end: usize::MAX, row: 3 }));
    assert_eq!(h.next(), Some(HighlightLine { style: 7, start: 0, end: 3, row: 4 }));
    assert_eq!(h.next(), None);
    let one = Capture { style: 1, start_row: 0, start_col: 1, end_row: 0, end_col: 4 };
    assert_eq!(
        highlight_lines(&vec![one, c]),
        vec![
            HighlightLine { style: 1, start: 1, end: 4, row: 0 },
            HighlightLine { style: 7, start: 5, end: usize::MAX, row: 2 },
            HighlightLine { style: 7, start: 0, end: usize::MAX, row: 3 },
            HighlightLine { style: 7, start: 0, end: 3, row: 4 },
        ]
    );
}

#[test]
fn home_and_preview() {
    let mut h = Home::new();
    assert_eq!(h.title_text(), "TED");
    assert_eq!(h.layout(Rect::new(0, 0, 10, 11)), Rect::new(0, 5, 10, 1));
    assert_eq!(h.area(), Rect::new(0, 0, 10, 11));
    assert!(Home::key('q'));
    assert!(!Home::key('w'));
    assert_eq!(centered_scroll(Some(30), 0, 20), 20);
    assert_eq!(centered_scroll(Some(3), 7, 20), 0);
    assert_eq!(centered_scroll(None, 7, 20), 7);
    assert_eq!(shown_columns(2, 10, 5), (2, 5));
    assert_eq!(shown_columns(8, 10, 5), (5, 5));
    assert_eq!(highlight_rect(Rect::new(1, 2, 10, 5), 4, 1, 2, 30), Some(Rect::new(1, 4, 10, 1)));
    assert_eq!(highlight_rect(Rect::new(1, 2, 10, 5), 4, 1, 2, 5), Some(Rect::new(1, 4, 4, 1)));
    assert_eq!(highlight_rect(Rect::new(1, 2, 10, 5), 9, 1, 2, 5), None);
}

#[test]
fn typing_then_backspace_gives_the_filter_back() {
    let mut f = Finder::new();
    let mut m = Matchers::new();
    assert_eq!(f.key(FinderKey::Char('a', false), &mut m), FinderAction::Search(true));
    assert_eq!(f.key(FinderKey::Char('z', false), &mut m), FinderAction::Search(true));
    assert_eq!(f.key(FinderKey::Backspace, &mut m), FinderAction::Search(false));
    assert_eq!(f.filter(), "a");
    assert_eq!(f.offset(), 0);
    assert_eq!(f.key(FinderKey::Backspace, &mut m), FinderAction::Search(false));
    assert_eq!(f.key(FinderKey::Backspace, &mut m), FinderAction::Search(false));
    assert_eq!(f.filter(), "");
}
