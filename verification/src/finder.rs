//! The finder: a floating search box over the file matcher, with a preview of the selected
//! file, the results around the selection, and the filter with the match counts.
use vstd::prelude::*;
use vstd::relations::{sorted_by, total_ordering};
use crate::geometry::{Direction, Position, Rect};
use crate::layout::{split_area, segment_of, Constraint};
use crate::matcher::Matchers;
use crate::text::{owned, pop_char, push_char, split_words, words_of};
use nucleo::Matcher as FuzzyMatcher;

verus! {

#[verifier::external_type_specification]
#[verifier::external_body]
pub struct ExFuzzyMatcher(FuzzyMatcher);

/// The positions in a haystack that nucleo's path matcher (`Config::DEFAULT.match_paths()`)
/// gives for the best fuzzy match of a needle, in its own order; none when there is no match.
pub uninterp spec fn fuzzy_match(haystack: Seq<char>, needle: Seq<char>) -> Seq<u32>;

/// A matcher for paths: `nucleo::Matcher::new(Config::DEFAULT.match_paths())`.
#[verifier::external_body]
fn path_matcher() -> FuzzyMatcher {
    FuzzyMatcher::new(nucleo::Config::DEFAULT.match_paths())
}

/// `nucleo::Matcher::fuzzy_indices` on a haystack and a needle, both turned into nucleo's
/// `Utf32String`: the positions it pushes, named by `fuzzy_match`. It asserts that the
/// haystack is no longer than `u32::MAX`.
#[verifier::external_body]
fn fuzzy_indices(matcher: &mut FuzzyMatcher, haystack: &str, needle: &str) -> (r: Vec<u32>)
    requires
        haystack@.len() <= u32::MAX,
    ensures
        r@ == fuzzy_match(haystack@, needle@),
{
    let mut indices = Vec::new();
    let (h, n) = (nucleo::Utf32String::from(haystack), nucleo::Utf32String::from(needle));
    matcher.fuzzy_indices(h.slice(..), n.slice(..), &mut indices);
    indices
}

/// A key as the finder reads it.
#[derive(Clone, Copy, PartialEq, Eq, Debug, Structural)]
pub enum FinderKey {
    Esc,
    Enter,
    /// A character, with whether Ctrl was held.
    Char(char, bool),
    Up,
    Down,
    Backspace,
    Other,
}

/// What a key asks of the caller.
#[derive(Clone, Copy, PartialEq, Eq, Debug, Structural)]
pub enum FinderAction {
    /// The matcher was closed: close the finder.
    Close,
    /// The filter changed: search with it, appending to the last search or not.
    Search(bool),
    /// The selection moved: preview the selected entry.
    Preview,
    /// Not for the finder.
    NotHandled,
}

/// Where the parts of the finder go.
#[derive(Clone, Copy, PartialEq, Eq, Debug, Structural)]
pub struct FinderAreas {
    pub preview: Rect,
    pub results: Rect,
    pub search: Rect,
}

/// How the search line is drawn: the filter from a character on, then padding, then the
/// counts; and where the cursor goes.
#[derive(Clone, Copy, PartialEq, Eq, Debug, Structural)]
pub struct SearchLine {
    pub skip: usize,
    pub padding: usize,
    pub cursor: Position,
}

/// A piece of a result line, as character positions, highlighted or not.
#[derive(Clone, Copy, PartialEq, Eq, Debug, Structural)]
pub struct Segment {
    pub start: usize,
    pub end: usize,
    pub highlighted: bool,
}

/// Finder widget
pub struct Finder {
    area: Rect,
    cursor: Position,
    matcher: FuzzyMatcher,
    filter: String,
    /// The filter's words, each matched on its own for highlighting
    words: Vec<String>,
    /// Scroll offset
    offset: usize,
}

/// What the finder holds, as plain values.
pub struct FinderView {
    pub area: Rect,
    pub cursor: Position,
    pub filter: Seq<char>,
    pub words: Seq<Seq<char>>,
    pub offset: usize,
}

impl View for Finder {
    type V = FinderView;

    closed spec fn view(&self) -> FinderView {
        FinderView {
            area: self.area,
            cursor: self.cursor,
            filter: self.filter@,
            words: self.words@.map_values(|w: String| w@),
            offset: self.offset,
        }
    }
}

/// The number of digits of a number.
pub open spec fn digits(n: nat) -> nat
    decreases n,
{
    if n < 10 { 1 } else { 1 + digits(n / 10) }
}

/// `a - b`, or 0 where `b` is larger.
pub open spec fn sat_sub(a: int, b: int) -> int {
    if a >= b { a - b } else { 0 }
}

/// The smaller of two numbers.
pub open spec fn min(a: int, b: int) -> int {
    if a <= b { a } else { b }
}

/// The scroll offset that keeps the selected entry among the `rows` shown.
pub open spec fn scrolled_offset(offset: int, selected: int, rows: int) -> int {
    if offset > selected {
        selected
    } else if offset + rows <= selected {
        if sat_sub(selected, rows) == usize::MAX { usize::MAX as int } else { sat_sub(selected, rows) + 1 }
    } else {
        offset
    }
}

/// The finder after a character is typed into the filter: the words are split anew and the
/// results scroll back to the top.
pub open spec fn typed(v: FinderView, c: char) -> FinderView {
    FinderView { filter: v.filter.push(c), words: words_of(v.filter.push(c)), offset: 0, ..v }
}

/// The finder after backspace: the last character of the filter, if any, is taken out, the
/// words are split anew and the results scroll back to the top.
pub open spec fn erased(v: FinderView) -> FinderView {
    let f = if v.filter.len() == 0 { v.filter } else { v.filter.drop_last() };
    FinderView { filter: f, words: words_of(f), offset: 0, ..v }
}

/// Typing a character and then backspace gives back the filter and its words, with the
/// results at the top; backspace on an empty filter leaves it empty.
pub proof fn lemma_type_then_erase(v: FinderView, c: char)
    ensures
        erased(typed(v, c)) == (FinderView { words: words_of(v.filter), offset: 0, ..v }),
        v.filter.len() == 0 ==> erased(v).filter.len() == 0,
{
    assert(v.filter.push(c).drop_last() =~= v.filter);
}

/// Scrolling the results to the selected entry leaves it among the rows shown.
pub proof fn lemma_selected_in_view(offset: usize, selected: usize, rows: usize)
    requires
        rows > 0,
    ensures
        scrolled_offset(offset as int, selected as int, rows as int) <= selected
            < scrolled_offset(offset as int, selected as int, rows as int) + rows,
{
}

/// The search line for a filter of `filter_cols` characters in a box of a width, with the
/// match counts: the filter is cut from the left so that the counts fit.
pub open spec fn search_line_of(filter_cols: int, search: Rect, matched: nat, total: nat) -> SearchLine {
    let available = sat_sub(search.width as int, 4);
    let counter_cols = (4 + digits(total) + digits(matched)) as int;
    let filter_len = sat_sub(available, counter_cols);
    SearchLine {
        skip: sat_sub(filter_cols, filter_len) as usize,
        padding: sat_sub(available, filter_cols + counter_cols) as usize,
        cursor: Position {
            x: min(search.x + 2 + min(filter_cols, filter_len), u16::MAX as int) as u16,
            y: min(search.y + 1, u16::MAX as int) as u16,
        },
    }
}

/// Ten to the power of a number.
pub open spec fn pow10(k: nat) -> nat
    decreases k,
{
    if k == 0 { 1 } else { 10 * pow10((k - 1) as nat) }
}

proof fn lemma_digits_le(n: nat, k: nat)
    requires
        1 <= k,
        n < pow10(k),
    ensures
        1 <= digits(n) <= k,
    decreases k,
{
    if n >= 10 {
        assert(k >= 2) by {
            if k == 1 {
                reveal_with_fuel(pow10, 2);
                assert(pow10(1) == 10);
            }
        }
        lemma_digits_le(n / 10, (k - 1) as nat);
    }
}

/// A `usize` has at most 20 digits.
proof fn lemma_digits_usize(n: usize)
    ensures
        1 <= digits(n as nat) <= 20,
{
    reveal_with_fuel(pow10, 21);
    assert(pow10(20) == 100000000000000000000);
    lemma_digits_le(n as nat, 20);
}

/// The columns needed to display a number.
pub fn cols(n: usize) -> (c: usize)
    ensures
        c == digits(n as nat),
{
    proof {
        lemma_digits_usize(n);
    }
    let mut m = n;
    let mut c: usize = 1;
    while m >= 10
        invariant
            c + digits(m as nat) == digits(n as nat) + 1,
            digits(n as nat) <= 20,
            1 <= digits(m as nat),
        decreases m,
    {
        m = m / 10;
        c += 1;
        proof {
            lemma_digits_usize(m);
        }
    }
    c
}

impl Finder {
    /// An empty filter, scrolled to the top.
    pub fn new() -> (f: Finder)
        ensures
            f@ == (FinderView {
                area: Rect { x: 0, y: 0, width: 0, height: 0 },
                cursor: Position { x: 0, y: 0 },
                filter: Seq::empty(),
                words: Seq::empty(),
                offset: 0,
            }),
    {
        let f = Finder {
            area: Rect::zero(),
            cursor: Position { x: 0, y: 0 },
            matcher: path_matcher(),
            filter: String::new(),
            words: Vec::new(),
            offset: 0,
        };
        proof {
            assert(f.words@.map_values(|w: String| w@) =~= Seq::<Seq<char>>::empty());
        }
        f
    }

    pub fn area(&self) -> (a: Rect)
        ensures
            a == self@.area,
    {
        self.area
    }

    pub fn cursor(&self) -> (p: Position)
        ensures
            p == self@.cursor,
    {
        self.cursor
    }

    pub fn filter(&self) -> (f: &str)
        ensures
            f@ == self@.filter,
    {
        self.filter.as_str()
    }

    pub fn offset(&self) -> (o: usize)
        ensures
            o == self@.offset,
    {
        self.offset
    }

    /// The filter changed: its words are taken again and the results scroll back to the top.
    fn update_filter(&mut self)
        ensures
            final(self)@ == (FinderView { words: words_of(old(self)@.filter), offset: 0, ..old(self)@ }),
    {
        self.words = split_words(self.filter.as_str());
        self.offset = 0;
    }

    /// Handle a key: Esc and Enter close the matcher; Ctrl with j or k, and the arrows, move the
    /// selection; a character is typed into the filter, and backspace takes the last one out.
    pub fn key(&mut self, key: FinderKey, matchers: &mut Matchers) -> (action: FinderAction)
        requires
            old(matchers)@.mode is File,
        ensures
            match key {
                FinderKey::Esc | FinderKey::Enter => action == FinderAction::Close
                    && final(matchers)@ == (crate::matcher::MatchersView { selected: 0, previewed: None, ..old(matchers)@ })
                    && final(self)@ == old(self)@,
                FinderKey::Char(c, true) => if c == 'j' {
                    action == FinderAction::Preview && final(self)@ == old(self)@
                        && final(matchers)@.selected == (if old(matchers)@.selected == 0 { 0 } else { old(matchers)@.selected - 1 })
                } else if c == 'k' {
                    action == FinderAction::Preview && final(self)@ == old(self)@
                        && final(matchers)@.selected == crate::matcher::next_selected(old(matchers)@)
                } else {
                    action == FinderAction::NotHandled && final(self)@ == old(self)@ && final(matchers)@ == old(matchers)@
                },
                FinderKey::Char(c, false) => action == FinderAction::Search(true)
                    && final(self)@ == typed(old(self)@, c)
                    && final(matchers)@ == (crate::matcher::MatchersView { selected: 0, ..old(matchers)@ }),
                FinderKey::Up => action == FinderAction::Preview && final(self)@ == old(self)@
                    && final(matchers)@.selected == crate::matcher::next_selected(old(matchers)@),
                FinderKey::Down => action == FinderAction::Preview && final(self)@ == old(self)@
                    && final(matchers)@.selected == (if old(matchers)@.selected == 0 { 0 } else { old(matchers)@.selected - 1 }),
                FinderKey::Backspace => action == FinderAction::Search(false)
                    && final(self)@ == erased(old(self)@)
                    && final(matchers)@ == (crate::matcher::MatchersView { selected: 0, ..old(matchers)@ }),
                FinderKey::Other => action == FinderAction::NotHandled && final(self)@ == old(self)@ && final(matchers)@ == old(matchers)@,
            },
            final(matchers)@.mode == old(matchers)@.mode,
            final(matchers)@.tick == old(matchers)@.tick,
    {
        match key {
            FinderKey::Esc | FinderKey::Enter => {
                matchers.close();
                FinderAction::Close
            },
            FinderKey::Char(c, ctrl) => {
                if ctrl {
                    if c == 'j' {
                        matchers.down();
                        FinderAction::Preview
                    } else if c == 'k' {
                        matchers.up();
                        FinderAction::Preview
                    } else {
                        FinderAction::NotHandled
                    }
                } else {
                    push_char(&mut self.filter, c);
                    matchers.search();
                    self.update_filter();
                    FinderAction::Search(true)
                }
            },
            FinderKey::Up => {
                matchers.up();
                FinderAction::Preview
            },
            FinderKey::Down => {
                matchers.down();
                FinderAction::Preview
            },
            FinderKey::Backspace => {
                let _ = pop_char(&mut self.filter);
                matchers.search();
                self.update_filter();
                FinderAction::Search(false)
            },
            FinderKey::Other => FinderAction::NotHandled,
        }
    }

    /// Lay the finder out in an area: the middle half across it holds, from the top, a margin
    /// of 5%, the preview and the results sharing what is left, the search box of three rows,
    /// and a margin of 10%. That middle is recorded as the finder's area: it spans the area's
    /// height and lies within its width; the preview, the results and the search box span the
    /// middle's width and lie within its height.
    pub fn layout(&mut self, area: Rect) -> (a: FinderAreas)
        ensures
            final(self)@ == (FinderView { area: final(self)@.area, ..old(self)@ }),
            segment_of(Direction::Horizontal, area, final(self)@.area),
            segment_of(Direction::Vertical, final(self)@.area, a.preview),
            segment_of(Direction::Vertical, final(self)@.area, a.results),
            segment_of(Direction::Vertical, final(self)@.area, a.search),
    {
        let mut h: Vec<Constraint> = Vec::new();
        h.push(Constraint::Percentage(25));
        h.push(Constraint::Percentage(50));
        h.push(Constraint::Percentage(25));
        let columns = split_area(Direction::Horizontal, &h, area);
        let main = columns[1];
        proof {
            assert(segment_of(Direction::Horizontal, area, columns@[1]));
        }
        self.area = main;
        let mut v: Vec<Constraint> = Vec::new();
        v.push(Constraint::Percentage(5));
        v.push(Constraint::Fill(1));
        v.push(Constraint::Fill(1));
        v.push(Constraint::Length(3));
        v.push(Constraint::Percentage(10));
        let rows = split_area(Direction::Vertical, &v, main);
        proof {
            assert(segment_of(Direction::Vertical, main, rows@[1]));
            assert(segment_of(Direction::Vertical, main, rows@[2]));
            assert(segment_of(Direction::Vertical, main, rows@[3]));
        }
        FinderAreas { preview: rows[1], results: rows[2], search: rows[3] }
    }

    /// Adjust the scroll offset to keep the selected entry in view among `rows` results.
    pub fn scroll_to(&mut self, selected: usize, rows: usize)
        ensures
            final(self)@ == (FinderView { offset: scrolled_offset(old(self)@.offset as int, selected as int, rows as int) as usize, ..old(self)@ }),
    {
        if self.offset > selected {
            self.offset = selected;
        } else if selected - self.offset >= rows {
            self.offset = selected.saturating_sub(rows).saturating_add(1);
        }
    }

    /// The search line for the match counts in the search box; the cursor is placed after the
    /// filter shown, and recorded.
    pub fn search_line(&mut self, search: Rect, matched: usize, total: usize) -> (l: SearchLine)
        requires
            old(self)@.filter.len() + 64 <= usize::MAX,
        ensures
            l == search_line_of(old(self)@.filter.len() as int, search, matched as nat, total as nat),
            final(self)@ == (FinderView { cursor: l.cursor, ..old(self)@ }),
    {
        proof {
            lemma_digits_usize(matched);
            lemma_digits_usize(total);
        }
        let available = search.width.saturating_sub(4) as usize;
        let counter_cols = 4 + cols(total) + cols(matched);
        let filter_cols = self.filter.as_str().unicode_len();
        let filter_len = available.saturating_sub(counter_cols);
        let skip = filter_cols.saturating_sub(filter_len);
        let padding = available.saturating_sub(filter_cols + counter_cols);
        let shown = if filter_cols <= filter_len { filter_cols } else { filter_len };
        let x = search.x as usize + 2 + shown;
        let cursor = Position {
            x: if x <= u16::MAX as usize { x as u16 } else { u16::MAX },
            y: search.y.saturating_add(1),
        };
        self.cursor = cursor;
        SearchLine { skip, padding, cursor }
    }
}

/// The rows of results a box shows inside its border.
pub fn result_rows(results: Rect) -> (n: usize)
    ensures
        n == sat_sub(results.height as int, 2),
{
    results.height.saturating_sub(2) as usize
}

/// The empty rows above `count` results, which are drawn from the bottom of the box.
pub fn result_padding(results: Rect, count: usize) -> (n: u16)
    requires
        (count as u16) + 2 <= u16::MAX,
    ensures
        n == sat_sub(results.height as int, (count as u16) + 2),
{
    let c = count as u16;
    results.height.saturating_sub(2 + c)
}


/// The match positions of each word, one word after another.
pub open spec fn all_matches(haystack: Seq<char>, words: Seq<Seq<char>>) -> Seq<u32>
    decreases words.len(),
{
    if words.len() == 0 {
        seq![]
    } else {
        all_matches(haystack, words.drop_last()) + fuzzy_match(haystack, words.last())
    }
}

/// The usual order on positions.
pub open spec fn position_leq() -> spec_fn(u32, u32) -> bool {
    |a: u32, b: u32| a <= b
}

/// The positions from `shift` on, moved back by `shift`.
pub open spec fn kept_shifted(s: Seq<u32>, shift: u32) -> Seq<u32>
    decreases s.len(),
{
    if s.len() == 0 {
        seq![]
    } else if s.last() >= shift {
        kept_shifted(s.drop_last(), shift).push((s.last() - shift) as u32)
    } else {
        kept_shifted(s.drop_last(), shift)
    }
}

/// The highlighted positions of a haystack for the filter's words: all matched positions in
/// order, the first `shift` taken off (when there is a shift).
pub open spec fn match_positions(haystack: Seq<char>, words: Seq<Seq<char>>, shift: u32) -> Seq<u32> {
    let sorted = all_matches(haystack, words).sort_by(position_leq());
    if shift > 0 { kept_shifted(sorted, shift) } else { sorted }
}

/// A position is among all the matches of the words exactly when one of the words matches it.
proof fn lemma_all_matches_contains(haystack: Seq<char>, words: Seq<Seq<char>>, x: u32)
    ensures
        all_matches(haystack, words).contains(x)
            <==> exists|k: int| 0 <= k < words.len() && #[trigger] fuzzy_match(haystack, words[k]).contains(x),
    decreases words.len(),
{
    if words.len() > 0 {
        let init = words.drop_last();
        lemma_all_matches_contains(haystack, init, x);
        let a = all_matches(haystack, init);
        let b = fuzzy_match(haystack, words.last());
        let n = (words.len() - 1) as int;
        if (a + b).contains(x) {
            let i = choose|i: int| 0 <= i < (a + b).len() && (a + b)[i] == x;
            if i < a.len() {
                assert(a[i] == x);
                let k = choose|k: int| 0 <= k < init.len() && #[trigger] fuzzy_match(haystack, init[k]).contains(x);
                assert(init[k] == words[k]);
                assert(fuzzy_match(haystack, words[k]).contains(x));
            } else {
                assert(b[i - a.len()] == x);
                assert(words[n] == words.last());
                assert(fuzzy_match(haystack, words[n]).contains(x));
            }
        }
        if exists|k: int| 0 <= k < words.len() && #[trigger] fuzzy_match(haystack, words[k]).contains(x) {
            let k = choose|k: int| 0 <= k < words.len() && #[trigger] fuzzy_match(haystack, words[k]).contains(x);
            if k < n {
                assert(init[k] == words[k]);
                assert(fuzzy_match(haystack, init[k]).contains(x));
                assert(a.contains(x));
                let i = choose|i: int| 0 <= i < a.len() && a[i] == x;
                assert((a + b)[i] == x);
            } else {
                assert(b.contains(x));
                let i = choose|i: int| 0 <= i < b.len() && b[i] == x;
                assert((a + b)[a.len() + i] == x);
            }
        }
    }
}

/// A position is kept after the shift exactly when it is some position at or past the shift,
/// less the shift.
proof fn lemma_kept_shifted_contains(s: Seq<u32>, shift: u32, y: u32)
    ensures
        kept_shifted(s, shift).contains(y)
            <==> exists|i: int| 0 <= i < s.len() && #[trigger] s[i] >= shift && s[i] - shift == y,
    decreases s.len(),
{
    if s.len() > 0 {
        let init = s.drop_last();
        lemma_kept_shifted_contains(init, shift, y);
        let k = kept_shifted(init, shift);
        let n = (s.len() - 1) as int;
        if kept_shifted(s, shift).contains(y) {
            let j = choose|j: int| 0 <= j < kept_shifted(s, shift).len() && kept_shifted(s, shift)[j] == y;
            if s.last() >= shift && j == k.len() {
                assert(s[n] >= shift && s[n] - shift == y);
            } else {
                assert(k[j] == y);
                assert(k.contains(y));
                let i = choose|i: int| 0 <= i < init.len() && #[trigger] init[i] >= shift && init[i] - shift == y;
                assert(s[i] == init[i]);
            }
        }
        if exists|i: int| 0 <= i < s.len() && #[trigger] s[i] >= shift && s[i] - shift == y {
            let i = choose|i: int| 0 <= i < s.len() && #[trigger] s[i] >= shift && s[i] - shift == y;
            if i < n {
                assert(init[i] == s[i]);
                assert(k.contains(y));
                let j = choose|j: int| 0 <= j < k.len() && k[j] == y;
                assert(kept_shifted(s, shift)[j] == y);
            } else {
                assert(kept_shifted(s, shift)[k.len() as int] == y);
            }
        }
    }
}

/// The highlighted positions are those matched by any word of the filter, the shift taken
/// off: every position that some word matches, at or past the shift, is highlighted less the
/// shift, and every highlighted position comes from a position some word matches.
pub proof fn lemma_match_positions_of_words(haystack: Seq<char>, words: Seq<Seq<char>>, shift: u32)
    ensures
        forall|k: int, p: u32|
            0 <= k < words.len() && #[trigger] fuzzy_match(haystack, words[k]).contains(p) && p >= shift
                ==> match_positions(haystack, words, shift).contains((p - shift) as u32),
        forall|y: u32| #[trigger] match_positions(haystack, words, shift).contains(y)
            ==> y + shift <= u32::MAX && exists|k: int| 0 <= k < words.len()
                && #[trigger] fuzzy_match(haystack, words[k]).contains((y + shift) as u32),
{
    let all = all_matches(haystack, words);
    let sorted = all.sort_by(position_leq());
    lemma_position_order();
    all.lemma_sort_by_ensures(position_leq());
    all.to_multiset_ensures();
    sorted.to_multiset_ensures();
    let mp = match_positions(haystack, words, shift);
    assert forall|k: int, p: u32|
        0 <= k < words.len() && #[trigger] fuzzy_match(haystack, words[k]).contains(p) && p >= shift
        implies mp.contains((p - shift) as u32) by {
        lemma_all_matches_contains(haystack, words, p);
        assert(all.to_multiset().count(p) > 0);
        assert(sorted.contains(p));
        if shift > 0 {
            lemma_kept_shifted_contains(sorted, shift, (p - shift) as u32);
            let i = choose|i: int| 0 <= i < sorted.len() && sorted[i] == p;
            assert(sorted[i] >= shift && sorted[i] - shift == (p - shift) as u32);
        }
    }
    assert forall|y: u32| #[trigger] mp.contains(y)
        implies y + shift <= u32::MAX && exists|k: int| 0 <= k < words.len()
            && #[trigger] fuzzy_match(haystack, words[k]).contains((y + shift) as u32) by {
        if shift > 0 {
            lemma_kept_shifted_contains(sorted, shift, y);
            let i = choose|i: int| 0 <= i < sorted.len() && #[trigger] sorted[i] >= shift && sorted[i] - shift == y;
            assert(sorted[i] == (y + shift) as u32);
            assert(sorted.contains((y + shift) as u32));
        } else {
            assert(sorted.contains(y));
            assert((y + shift) as u32 == y);
        }
        let p = (y + shift) as u32;
        assert(sorted.to_multiset().count(p) > 0);
        assert(all.contains(p));
        lemma_all_matches_contains(haystack, words, p);
    }
}

proof fn lemma_position_order()
    ensures
        total_ordering(position_leq()),
{
}

/// Sort positions.
fn sort_positions(v: &Vec<u32>) -> (r: Vec<u32>)
    ensures
        r@ == v@.sort_by(position_leq()),
{
    let mut r: Vec<u32> = Vec::new();
    let mut i: usize = 0;
    proof {
        assert(v@.take(0) =~= Seq::<u32>::empty());
        assert(r@ =~= Seq::<u32>::empty());
    }
    while i < v.len()
        invariant
            i <= v@.len(),
            sorted_by(r@, position_leq()),
            r@.to_multiset() == v@.take(i as int).to_multiset(),
        decreases v@.len() - i,
    {
        let x = v[i];
        let mut p: usize = 0;
        while p < r.len() && r[p] <= x
            invariant
                p <= r@.len(),
                forall|j: int| 0 <= j < p ==> r@[j] <= x,
            decreases r@.len() - p,
        {
            p += 1;
        }
        proof {
            assert(forall|j: int| p <= j < r@.len() ==> x < r@[j]) by {
                if p < r@.len() {
                    assert(x < r@[p as int]);
                    assert forall|j: int| p <= j < r@.len() implies x < r@[j] by {
                        assert(position_leq()(r@[p as int], r@[j]) || j == p);
                    }
                }
            }
            vstd::seq_lib::to_multiset_insert(r@, p as int, x);
            assert(v@.take(i + 1) =~= v@.take(i as int).push(x));
            vstd::seq_lib::to_multiset_build(v@.take(i as int), x);
        }
        r.insert(p, x);
        proof {
            assert forall|a: int, b: int| 0 <= a < b < r@.len() implies #[trigger] position_leq()(r@[a], r@[b]) by {
                let old_r = r@.remove(p as int);
                if a < p && b < p {
                    assert(position_leq()(old_r[a], old_r[b - 0]));
                } else if a < p && b == p {
                } else if a < p && b > p {
                    assert(position_leq()(old_r[a], old_r[b - 1]));
                } else if a == p {
                } else {
                    assert(position_leq()(old_r[a - 1], old_r[b - 1]));
                }
            }
        }
        i += 1;
    }
    proof {
        assert(v@.take(v@.len() as int) =~= v@);
        lemma_position_order();
        v@.lemma_sort_by_ensures(position_leq());
        vstd::seq_lib::lemma_sorted_unique(r@, v@.sort_by(position_leq()), position_leq());
    }
    r
}

/// Keep the positions from `shift` on, moved back by `shift`.
fn keep_shifted(v: &Vec<u32>, shift: u32) -> (r: Vec<u32>)
    ensures
        r@ == kept_shifted(v@, shift),
{
    let mut r: Vec<u32> = Vec::new();
    let mut i: usize = 0;
    proof {
        assert(v@.take(0) =~= Seq::<u32>::empty());
    }
    while i < v.len()
        invariant
            i <= v@.len(),
            r@ == kept_shifted(v@.take(i as int), shift),
        decreases v@.len() - i,
    {
        proof {
            assert(v@.take(i + 1).drop_last() =~= v@.take(i as int));
        }
        if v[i] >= shift {
            r.push(v[i] - shift);
        }
        i += 1;
    }
    proof {
        assert(v@.take(v@.len() as int) =~= v@);
    }
    r
}

impl Finder {
    /// The positions of a haystack to highlight for the filter's words: each word's best fuzzy
    /// match, all together in order, the first `shift` positions taken off.
    pub fn compute_indices(&mut self, haystack: &str, shift: u32) -> (r: Vec<u32>)
        requires
            haystack@.len() <= u32::MAX,
        ensures
            r@ == match_positions(haystack@, old(self)@.words, shift),
            final(self)@ == old(self)@,
    {
        let ghost words = self.words@.map_values(|w: String| w@);
        let mut all: Vec<u32> = Vec::new();
        let mut i: usize = 0;
        proof {
            assert(words.take(0) =~= Seq::<Seq<char>>::empty());
        }
        while i < self.words.len()
            invariant
                i <= self.words@.len(),
                words == self.words@.map_values(|w: String| w@),
                self@ == old(self)@,
                haystack@.len() <= u32::MAX,
                all@ == all_matches(haystack@, words.take(i as int)),
            decreases self.words@.len() - i,
        {
            let found = fuzzy_indices(&mut self.matcher, haystack, self.words[i].as_str());
            proof {
                assert(words.take(i + 1).drop_last() =~= words.take(i as int));
                assert(words.take(i + 1).last() == self.words@[i as int]@);
            }
            let mut j: usize = 0;
            let ghost before = all@;
            while j < found.len()
                invariant
                    j <= found@.len(),
                    all@ == before + found@.take(j as int),
                decreases found@.len() - j,
            {
                all.push(found[j]);
                proof {
                    assert(found@.take(j + 1) =~= found@.take(j as int).push(found@[j as int]));
                }
                j += 1;
            }
            proof {
                assert(found@.take(found@.len() as int) =~= found@);
            }
            i += 1;
        }
        proof {
            assert(words.take(words.len() as int) =~= words);
        }
        let sorted = sort_positions(&all);
        if shift > 0 {
            keep_shifted(&sorted, shift)
        } else {
            sorted
        }
    }
}

/// Whether a position starts a run of positions each at most one past the one before.
pub open spec fn starts_run(idx: Seq<u32>, i: int) -> bool {
    i == 0 || idx[i] > idx[i - 1] + 1
}

/// Whether a position ends such a run.
pub open spec fn ends_run(idx: Seq<u32>, i: int) -> bool {
    i == idx.len() - 1 || idx[i + 1] > idx[i] + 1
}

/// The boundaries of the runs among the first `k` positions: where each run starts, and just
/// past where it ends.
pub open spec fn run_bounds(idx: Seq<u32>, k: int) -> Seq<int>
    decreases k,
{
    if k <= 0 {
        seq![]
    } else {
        run_bounds(idx, k - 1)
            + (if starts_run(idx, k - 1) { seq![idx[k - 1] as int] } else { seq![] })
            + (if ends_run(idx, k - 1) { seq![idx[k - 1] + 1] } else { seq![] })
    }
}

/// The pieces cut at the first `k` boundaries of a text of `n` characters, and the last
/// boundary: between two boundaries, a piece that is highlighted every other time, starting
/// with one that is not; empty pieces are left out.
pub open spec fn pieces(b: Seq<int>, k: int, n: int) -> (Seq<Segment>, int)
    decreases k,
{
    if k <= 0 {
        (seq![], 0)
    } else {
        let prev = pieces(b, k - 1, n);
        let x = b[k - 1];
        if x - prev.1 > 0 {
            (prev.0.push(Segment { start: min(prev.1, n) as usize, end: min(x, n) as usize, highlighted: (k - 1) % 2 == 1 }), x)
        } else {
            (prev.0, x)
        }
    }
}

/// A text of `n` characters cut into pieces at the runs of highlighted positions, with the
/// rest after the last run as a last piece.
pub open spec fn highlight_of(idx: Seq<u32>, n: int) -> Seq<Segment> {
    let b = run_bounds(idx, idx.len() as int);
    let cut = pieces(b, b.len() as int, n);
    if min(cut.1, n) < n {
        cut.0.push(Segment { start: min(cut.1, n) as usize, end: n as usize, highlighted: false })
    } else {
        cut.0
    }
}

/// The boundaries never go back.
pub open spec fn bounds_ordered(idx: Seq<u32>) -> bool {
    let b = run_bounds(idx, idx.len() as int);
    forall|i: int| 0 < i < b.len() ==> b[i - 1] <= #[trigger] b[i]
}

/// Cut a text into pieces at the runs of highlighted positions: the text up to the first run,
/// the run highlighted, the text up to the next run, and so on, with the rest last.
pub fn highlight_indices(s: &str, indices: &Vec<u32>) -> (r: Vec<Segment>)
    requires
        forall|i: int| 0 <= i < indices@.len() ==> indices@[i] < u32::MAX,
        bounds_ordered(indices@),
    ensures
        r@ == highlight_of(indices@, s@.len() as int),
{
    let n = s.unicode_len();
    let m = indices.len();
    let mut b: Vec<usize> = Vec::new();
    let mut i: usize = 0;
    while i < m
        invariant
            m == indices@.len(),
            i <= m,
            forall|j: int| 0 <= j < indices@.len() ==> indices@[j] < u32::MAX,
            b@.map_values(|x: usize| x as int) == run_bounds(indices@, i as int),
        decreases m - i,
    {
        let x = indices[i];
        let ghost before = b@;
        if i == 0 || x > indices[i - 1] + 1 {
            b.push(x as usize);
        }
        if i == m - 1 || indices[i + 1] > x + 1 {
            b.push(x as usize + 1);
        }
        proof {
            assert(b@.map_values(|x: usize| x as int) =~= run_bounds(indices@, i + 1));
        }
        i += 1;
    }
    let ghost bs = b@.map_values(|x: usize| x as int);
    let mut r: Vec<Segment> = Vec::new();
    let mut prev: usize = 0;
    let mut k: usize = 0;
    while k < b.len()
        invariant
            bs == b@.map_values(|x: usize| x as int),
            k <= b@.len(),
            n == s@.len(),
            (r@, prev as int) == pieces(bs, k as int, n as int),
        decreases b@.len() - k,
    {
        let x = b[k];
        if x > prev {
            r.push(Segment {
                start: if prev <= n { prev } else { n },
                end: if x <= n { x } else { n },
                highlighted: k % 2 == 1,
            });
        }
        prev = x;
        k += 1;
    }
    let start = if prev <= n { prev } else { n };
    if start < n {
        r.push(Segment { start, end: n, highlighted: false });
    }
    r
}

/// Whether one of the first `k` positions is `p`.
pub open spec fn marked(idx: Seq<u32>, k: int, p: int) -> bool {
    exists|t: int| 0 <= t < k && idx[t] == p
}

/// Positions in order, each at least the one before.
pub open spec fn positions_sorted(idx: Seq<u32>) -> bool {
    forall|i: int, j: int| 0 <= i <= j < idx.len() ==> idx[i] <= idx[j]
}

/// The boundaries of the runs among the first `k` positions rise, and between two of them
/// positions are all marked or all unmarked, alternately, starting with unmarked ones.
spec fn runs_ok(idx: Seq<u32>, k: int) -> bool {
    let b = run_bounds(idx, k);
    &&& forall|i: int, j: int| 0 <= i < j < b.len() ==> b[i] < b[j]
    &&& b.len() > 0 ==> b[0] >= 0
    &&& forall|m: int, p: int|
        #![trigger b[m], marked(idx, k, p)]
        0 <= m < b.len() && (if m == 0 { 0 } else { b[m - 1] }) <= p < b[m] ==> (marked(idx, k, p) <==> m % 2 == 1)
    &&& b.len() % 2 == 0 ==> forall|p: int|
        (if b.len() == 0 { 0 } else { b.last() }) <= p ==> !#[trigger] marked(idx, k, p)
    &&& b.len() % 2 == 1 ==> {
        &&& k > 0
        &&& b.last() <= idx[k - 1]
        &&& forall|p: int| b.last() <= p ==> (#[trigger] marked(idx, k, p) <==> p <= idx[k - 1])
    }
    &&& k > 0 ==> (b.len() % 2 == 0 <==> ends_run(idx, k - 1))
    &&& k > 0 && b.len() % 2 == 0 ==> b.last() == idx[k - 1] + 1
}

proof fn lemma_runs_ok(idx: Seq<u32>, k: int)
    requires
        positions_sorted(idx),
        0 <= k <= idx.len(),
    ensures
        runs_ok(idx, k),
    decreases k,
{
    if k > 0 {
        lemma_runs_ok(idx, k - 1);
        let b0 = run_bounds(idx, k - 1);
        let x = idx[k - 1] as int;
        let st = if starts_run(idx, k - 1) { seq![x] } else { seq![] };
        let en = if ends_run(idx, k - 1) { seq![x + 1] } else { seq![] };
        let b = run_bounds(idx, k);
        assert(b == b0 + st + en);
        assert forall|p: int| #[trigger] marked(idx, k, p) <==> marked(idx, k - 1, p) || p == x by {
            if marked(idx, k, p) {
                let t = choose|t: int| 0 <= t < k && idx[t] == p;
                if t < k - 1 {
                    assert(marked(idx, k - 1, p));
                }
            }
            if marked(idx, k - 1, p) {
                let t = choose|t: int| 0 <= t < k - 1 && idx[t] == p;
                assert(0 <= t < k && idx[t] == p);
            }
            if p == x {
                assert(0 <= k - 1 < k && idx[k - 1] == p);
            }
        }
        if k > 1 {
            assert(idx[k - 2] <= idx[k - 1]);
        }
        if b0.len() % 2 == 0 {
            // The run of the new position starts with it.
            assert(starts_run(idx, k - 1));
            assert(b0.len() > 0 ==> b0.last() < x);
            assert forall|m: int, p: int|
                #![trigger b[m], marked(idx, k, p)]
                0 <= m < b.len() && (if m == 0 { 0 } else { b[m - 1] }) <= p < b[m] implies (marked(idx, k, p) <==> m % 2 == 1) by {
                if m < b0.len() {
                    assert(b[m] == b0[m]);
                    if m > 0 {
                        assert(b[m - 1] == b0[m - 1]);
                    }
                    assert(b0[m] <= b0.last());
                } else if m == b0.len() {
                    assert(b[m] == x);
                    if m > 0 {
                        assert(b[m - 1] == b0.last());
                    }
                } else {
                    assert(b[m] == x + 1 && b[m - 1] == x);
                }
            }
        } else {
            // The new position extends the open run.
            assert(!starts_run(idx, k - 1));
            assert(b == b0 + en);
            assert forall|m: int, p: int|
                #![trigger b[m], marked(idx, k, p)]
                0 <= m < b.len() && (if m == 0 { 0 } else { b[m - 1] }) <= p < b[m] implies (marked(idx, k, p) <==> m % 2 == 1) by {
                if m < b0.len() {
                    assert(b[m] == b0[m]);
                    if m > 0 {
                        assert(b[m - 1] == b0[m - 1]);
                    }
                    assert(b0[m] <= b0.last());
                } else {
                    assert(b[m] == x + 1 && b[m - 1] == b0.last());
                }
            }
        }
    }
}

/// The boundary before the `m`-th one: the start of the text for the first.
pub open spec fn bound_before(b: Seq<int>, m: int) -> int {
    if m == 0 { 0 } else { b[m - 1] }
}

/// The pieces cut at rising boundaries within a text follow one another from its start, none
/// empty, each between two boundaries and highlighted for every other one.
proof fn lemma_pieces_ok(b: Seq<int>, k: int, n: int)
    requires
        forall|i: int, j: int| 0 <= i < j < b.len() ==> b[i] < b[j],
        b.len() > 0 ==> b[0] >= 0,
        forall|i: int| 0 <= i < b.len() ==> b[i] <= n,
        n <= usize::MAX,
        0 <= k <= b.len(),
    ensures
        ({
            let cut = pieces(b, k, n);
            let segs = cut.0;
            &&& cut.1 == bound_before(b, k)
            &&& segs.len() == 0 ==> cut.1 == 0
            &&& segs.len() > 0 ==> segs[0].start == 0 && segs.last().end == cut.1
            &&& forall|i: int| 0 <= i < segs.len() - 1 ==> #[trigger] segs[i].end == segs[i + 1].start
            &&& forall|i: int| 0 <= i < segs.len() ==> exists|m: int|
                0 <= m < k && #[trigger] segs[i].start == bound_before(b, m) && segs[i].end == b[m]
                    && segs[i].start < segs[i].end && segs[i].highlighted == (m % 2 == 1)
        }),
    decreases k,
{
    if k > 0 {
        lemma_pieces_ok(b, k - 1, n);
        let prev = pieces(b, k - 1, n);
        let x = b[k - 1];
        if k > 1 {
            assert(b[k - 2] < b[k - 1]);
        }
        let cut = pieces(b, k, n);
        if x - prev.1 > 0 {
            let seg = Segment { start: min(prev.1, n) as usize, end: min(x, n) as usize, highlighted: (k - 1) % 2 == 1 };
            assert(cut.0 == prev.0.push(seg));
            assert(seg.start == prev.1 && seg.end == x);
            assert forall|i: int| 0 <= i < cut.0.len() implies exists|m: int|
                0 <= m < k && #[trigger] cut.0[i].start == bound_before(b, m) && cut.0[i].end == b[m]
                    && cut.0[i].start < cut.0[i].end && cut.0[i].highlighted == (m % 2 == 1) by {
                if i < prev.0.len() {
                    assert(cut.0[i] == prev.0[i]);
                } else {
                    assert(cut.0[i] == seg);
                    assert(seg.start == bound_before(b, k - 1));
                }
            }
            assert forall|i: int| 0 <= i < cut.0.len() - 1 implies #[trigger] cut.0[i].end == cut.0[i + 1].start by {
                assert(cut.0[i] == prev.0[i]);
                if i + 1 < prev.0.len() {
                    assert(cut.0[i + 1] == prev.0[i + 1]);
                } else {
                    assert(cut.0[i + 1] == seg);
                }
            }
        } else {
            // Only the first boundary can fall at the start of the text.
            assert(k == 1 && x == 0);
        }
    }
}

/// The run boundaries of sorted positions within a text rise, lie within the text, come in
/// pairs, and the positions between two of them are all marked or all unmarked, alternately.
proof fn lemma_run_bounds(idx: Seq<u32>, n: int)
    requires
        positions_sorted(idx),
        forall|i: int| 0 <= i < idx.len() ==> idx[i] < n,
    ensures
        ({
            let b = run_bounds(idx, idx.len() as int);
            &&& forall|i: int, j: int| 0 <= i < j < b.len() ==> b[i] < b[j]
            &&& b.len() > 0 ==> b[0] >= 0
            &&& forall|i: int| 0 <= i < b.len() ==> b[i] <= n
            &&& forall|m: int, p: int|
                #![trigger b[m], marked(idx, idx.len() as int, p)]
                0 <= m < b.len() && bound_before(b, m) <= p < b[m] ==> (marked(idx, idx.len() as int, p) <==> m % 2 == 1)
            &&& forall|p: int|
                bound_before(b, b.len() as int) <= p ==> !#[trigger] marked(idx, idx.len() as int, p)
        }),
{
    let len = idx.len() as int;
    lemma_runs_ok(idx, len);
    let b = run_bounds(idx, len);
    assert(b.len() % 2 == 0);
    assert forall|i: int| 0 <= i < b.len() implies b[i] <= n by {
        if i < b.len() - 1 {
            assert(b[i] < b[b.len() - 1]);
        }
    }
}

/// Each piece cut at the run boundaries of sorted positions is highlighted exactly where its
/// positions are marked.
proof fn lemma_cut_marks(idx: Seq<u32>, n: int)
    requires
        positions_sorted(idx),
        forall|i: int| 0 <= i < idx.len() ==> idx[i] < n,
        0 <= n <= usize::MAX,
    ensures
        ({
            let b = run_bounds(idx, idx.len() as int);
            let cut = pieces(b, b.len() as int, n);
            &&& cut.1 == bound_before(b, b.len() as int)
            &&& cut.0.len() == 0 ==> cut.1 == 0
            &&& cut.0.len() > 0 ==> cut.0[0].start == 0 && cut.0.last().end == cut.1
            &&& cut.1 <= n
            &&& forall|i: int| 0 <= i < cut.0.len() - 1 ==> #[trigger] cut.0[i].end == cut.0[i + 1].start
            &&& forall|i: int| 0 <= i < cut.0.len() ==> #[trigger] cut.0[i].start < cut.0[i].end
            &&& forall|i: int, p: int|
                #![trigger cut.0[i], marked(idx, idx.len() as int, p)]
                0 <= i < cut.0.len() && cut.0[i].start <= p < cut.0[i].end ==> (cut.0[i].highlighted
                    <==> marked(idx, idx.len() as int, p))
        }),
{
    let len = idx.len() as int;
    lemma_run_bounds(idx, n);
    let b = run_bounds(idx, len);
    lemma_pieces_ok(b, b.len() as int, n);
    let cut = pieces(b, b.len() as int, n);
    assert forall|i: int| 0 <= i < cut.0.len() implies #[trigger] cut.0[i].start < cut.0[i].end by {
        let m = choose|m: int|
            0 <= m < b.len() && #[trigger] cut.0[i].start == bound_before(b, m) && cut.0[i].end == b[m]
                && cut.0[i].start < cut.0[i].end && cut.0[i].highlighted == (m % 2 == 1);
    }
    assert forall|i: int, p: int|
        #![trigger cut.0[i], marked(idx, len, p)]
        0 <= i < cut.0.len() && cut.0[i].start <= p < cut.0[i].end implies (cut.0[i].highlighted
            <==> marked(idx, len, p)) by {
        let m = choose|m: int|
            0 <= m < b.len() && #[trigger] cut.0[i].start == bound_before(b, m) && cut.0[i].end == b[m]
                && cut.0[i].start < cut.0[i].end && cut.0[i].highlighted == (m % 2 == 1);
        assert(bound_before(b, m) <= p < b[m]);
    }
    if b.len() > 0 {
        assert(b[b.len() - 1] <= n);
    }
}

/// Cutting a text at sorted highlighted positions, all within the text, gives pieces that
/// follow one another from its start to its end, none of them empty, and a character lies in
/// a highlighted piece exactly when its position is one of the highlighted ones. Such
/// positions also meet what `highlight_indices` asks of their run boundaries.
pub proof fn lemma_highlight_pieces(idx: Seq<u32>, n: int)
    requires
        positions_sorted(idx),
        forall|i: int| 0 <= i < idx.len() ==> idx[i] < n,
        0 <= n <= usize::MAX,
    ensures
        bounds_ordered(idx),
        ({
            let segs = highlight_of(idx, n);
            &&& n > 0 ==> segs.len() > 0 && segs[0].start == 0 && segs.last().end == n
            &&& n == 0 ==> segs.len() == 0
            &&& forall|i: int| 0 <= i < segs.len() ==> #[trigger] segs[i].start < segs[i].end
            &&& forall|i: int| 0 <= i < segs.len() - 1 ==> #[trigger] segs[i].end == segs[i + 1].start
            &&& forall|i: int, p: int|
                #![trigger segs[i], marked(idx, idx.len() as int, p)]
                0 <= i < segs.len() && segs[i].start <= p < segs[i].end ==> (segs[i].highlighted
                    <==> marked(idx, idx.len() as int, p))
        }),
{
    let len = idx.len() as int;
    lemma_run_bounds(idx, n);
    lemma_cut_marks(idx, n);
    let b = run_bounds(idx, len);
    let cut = pieces(b, b.len() as int, n);
    let segs = highlight_of(idx, n);
    if cut.1 < n {
        let last = Segment { start: cut.1 as usize, end: n as usize, highlighted: false };
        assert(segs == cut.0.push(last));
        assert forall|i: int, p: int|
            #![trigger segs[i], marked(idx, len, p)]
            0 <= i < segs.len() && segs[i].start <= p < segs[i].end implies (segs[i].highlighted
                <==> marked(idx, len, p)) by {
            if i < cut.0.len() {
                assert(segs[i] == cut.0[i]);
            } else {
                assert(segs[i] == last);
                assert(!marked(idx, len, p));
            }
        }
        assert forall|i: int| 0 <= i < segs.len() implies #[trigger] segs[i].start < segs[i].end by {
            if i < cut.0.len() {
                assert(segs[i] == cut.0[i]);
            }
        }
        assert forall|i: int| 0 <= i < segs.len() - 1 implies #[trigger] segs[i].end == segs[i + 1].start by {
            assert(segs[i] == cut.0[i]);
            if i + 1 < cut.0.len() {
                assert(segs[i + 1] == cut.0[i + 1]);
            }
        }
    } else {
        assert(segs == cut.0);
    }
}

/// Keeping and moving back the positions from a shift on keeps them in order: each one kept
/// is one of the positions, moved back.
proof fn lemma_kept_shifted_sorted(s: Seq<u32>, shift: u32)
    requires
        positions_sorted(s),
    ensures
        positions_sorted(kept_shifted(s, shift)),
        forall|i: int| 0 <= i < kept_shifted(s, shift).len() ==> exists|j: int|
            0 <= j < s.len() && #[trigger] kept_shifted(s, shift)[i] + shift == s[j],
    decreases s.len(),
{
    if s.len() > 0 {
        let rest = s.drop_last();
        lemma_kept_shifted_sorted(rest, shift);
        let k0 = kept_shifted(rest, shift);
        let k = kept_shifted(s, shift);
        if s.last() >= shift {
            assert(k == k0.push((s.last() - shift) as u32));
            assert forall|i: int| 0 <= i < k0.len() implies k0[i] <= s.last() - shift by {
                let j = choose|j: int| 0 <= j < rest.len() && #[trigger] k0[i] + shift == rest[j];
                assert(rest[j] == s[j]);
                assert(s[j] <= s[s.len() - 1]);
            }
            assert forall|i: int| 0 <= i < k.len() implies exists|j: int|
                0 <= j < s.len() && #[trigger] k[i] + shift == s[j] by {
                if i < k0.len() {
                    let j = choose|j: int| 0 <= j < rest.len() && #[trigger] k0[i] + shift == rest[j];
                    assert(k[i] == k0[i] && rest[j] == s[j]);
                } else {
                    assert(k[i] + shift == s[s.len() - 1]);
                }
            }
        } else {
            assert forall|i: int| 0 <= i < k.len() implies exists|j: int|
                0 <= j < s.len() && #[trigger] k[i] + shift == s[j] by {
                let j = choose|j: int| 0 <= j < rest.len() && #[trigger] k0[i] + shift == rest[j];
                assert(rest[j] == s[j]);
            }
        }
    }
}

/// The positions to highlight come out in order.
pub proof fn lemma_match_positions_sorted(haystack: Seq<char>, words: Seq<Seq<char>>, shift: u32)
    ensures
        positions_sorted(match_positions(haystack, words, shift)),
{
    let all = all_matches(haystack, words);
    lemma_position_order();
    all.lemma_sort_by_ensures(position_leq());
    let sorted = all.sort_by(position_leq());
    assert forall|i: int, j: int| 0 <= i <= j < sorted.len() implies sorted[i] <= sorted[j] by {
        if i < j {
            assert(position_leq()(sorted[i], sorted[j]));
        }
    }
    if shift > 0 {
        lemma_kept_shifted_sorted(sorted, shift);
    }
}

} // verus!
