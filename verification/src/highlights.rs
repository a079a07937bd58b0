//! Text highlights for display, one line at a time.
use vstd::prelude::*;
use ropey::Rope;
use tree_sitter::{Query, Tree};
use crate::buffer::{
    rope_len_bytes, rope_len_lines, rope_line, rope_line_to_byte, rope_text, slice_char_to_byte,
    slice_len_bytes, slice_len_chars,
};
use crate::lines::{lemma_line_starts, lemma_utf8_prefix, lemma_utf8_split, line_count, line_start, utf8_len};

verus! {

/// A highlight on a single line
#[derive(Clone, Copy, PartialEq, Eq, Debug, Structural)]
pub struct HighlightLine {
    /// Style index
    pub style: usize,
    pub start: usize,
    pub end: usize,
    pub row: usize,
}

/// A highlighted span of text, from a row and column to a row and column, with a style index.
#[derive(Clone, Copy, PartialEq, Eq, Debug, Structural)]
pub struct Capture {
    pub style: usize,
    pub start_row: usize,
    pub start_col: usize,
    pub end_row: usize,
    pub end_col: usize,
}

/// Iterator over the single-line highlights of a span.
#[derive(Clone, Copy, PartialEq, Eq, Debug, Structural)]
pub struct HighlightLines {
    pub style: usize,
    pub start_col: usize,
    pub end_col: usize,
    pub start_row: usize,
    pub end_row: usize,
    pub current_row: usize,
}

/// The highlight of a span on one of its rows: from the span's start column on its first row
/// (else from the line start), to its end column on its last row (else to the line end).
pub open spec fn line_of(h: HighlightLines, row: int) -> HighlightLine {
    HighlightLine {
        style: h.style,
        start: if row == h.start_row { h.start_col } else { 0 },
        end: if row == h.end_row { h.end_col } else { usize::MAX },
        row: row as usize,
    }
}

/// The single-line highlights left, from the current row to the last.
pub open spec fn lines_left(h: HighlightLines) -> Seq<HighlightLine> {
    Seq::new(if h.end_row >= h.current_row { (h.end_row - h.current_row + 1) as nat } else { 0 }, |i: int| line_of(h, h.current_row + i))
}

impl HighlightLines {
    /// The highlights of a span, from its first row.
    pub fn from_capture(c: Capture) -> (h: HighlightLines)
        ensures
            h == (HighlightLines {
                style: c.style,
                start_col: c.start_col,
                end_col: c.end_col,
                start_row: c.start_row,
                end_row: c.end_row,
                current_row: c.start_row,
            }),
    {
        HighlightLines {
            style: c.style,
            start_col: c.start_col,
            end_col: c.end_col,
            start_row: c.start_row,
            end_row: c.end_row,
            current_row: c.start_row,
        }
    }

    /// The highlight on the current row, moving on to the next; none past the last row.
    pub fn next(&mut self) -> (r: Option<HighlightLine>)
        requires
            old(self).current_row <= old(self).end_row ==> old(self).current_row < usize::MAX,
        ensures
            old(self).current_row > old(self).end_row ==> r is None && *final(self) == *old(self),
            old(self).current_row <= old(self).end_row ==> r == Some(line_of(*old(self), old(self).current_row as int))
                && *final(self) == (HighlightLines { current_row: (old(self).current_row + 1) as usize, ..*old(self) }),
    {
        if self.current_row > self.end_row {
            return None;
        }
        let is_first = self.current_row == self.start_row;
        let is_last = self.current_row == self.end_row;
        let start = if is_first { self.start_col } else { 0 };
        let end = if is_last { self.end_col } else { usize::MAX };
        let row = self.current_row;
        self.current_row += 1;
        Some(HighlightLine { style: self.style, start, end, row })
    }

    /// All the highlights left, one per row.
    pub fn rest(&mut self) -> (r: Vec<HighlightLine>)
        requires
            old(self).end_row < usize::MAX,
        ensures
            r@ == lines_left(*old(self)),
            final(self).current_row > final(self).end_row,
    {
        let ghost h0 = *self;
        let mut r: Vec<HighlightLine> = Vec::new();
        loop
            invariant
                self.end_row < usize::MAX,
                self.style == h0.style && self.start_col == h0.start_col && self.end_col == h0.end_col,
                self.start_row == h0.start_row && self.end_row == h0.end_row,
                h0.current_row <= self.current_row || h0.current_row > h0.end_row,
                h0.current_row > h0.end_row ==> self.current_row == h0.current_row && r@.len() == 0,
                h0.current_row <= h0.end_row ==> self.current_row <= self.end_row + 1
                    && r@ == lines_left(h0).take(self.current_row - h0.current_row),
            ensures
                self.current_row > self.end_row,
                r@ == lines_left(h0),
            decreases self.end_row + 1 - self.current_row,
        {
            let ghost before = *self;
            match self.next() {
                Some(line) => {
                    proof {
                        assert(lines_left(h0).take(self.current_row - h0.current_row)
                            =~= lines_left(h0).take(before.current_row - h0.current_row).push(line));
                    }
                    r.push(line);
                },
                None => {
                    proof {
                        if h0.current_row <= h0.end_row {
                            assert(lines_left(h0).take(self.current_row - h0.current_row) =~= lines_left(h0));
                        } else {
                            assert(lines_left(h0) =~= Seq::<HighlightLine>::empty());
                        }
                    }
                    break;
                },
            }
        }
        r
    }
}

/// The single-line highlights of spans, span after span.
pub open spec fn all_lines(captures: Seq<Capture>) -> Seq<HighlightLine>
    decreases captures.len(),
{
    if captures.len() == 0 {
        seq![]
    } else {
        let c = captures.last();
        all_lines(captures.drop_last()) + lines_left(HighlightLines {
            style: c.style,
            start_col: c.start_col,
            end_col: c.end_col,
            start_row: c.start_row,
            end_row: c.end_row,
            current_row: c.start_row,
        })
    }
}

/// Split highlighted spans into single-line highlights, span after span.
pub fn highlight_lines(captures: &Vec<Capture>) -> (r: Vec<HighlightLine>)
    requires
        forall|i: int| 0 <= i < captures@.len() ==> (#[trigger] captures@[i]).end_row < usize::MAX,
    ensures
        r@ == all_lines(captures@),
{
    let mut r: Vec<HighlightLine> = Vec::new();
    let mut i: usize = 0;
    proof {
        assert(captures@.take(0) =~= Seq::<Capture>::empty());
    }
    while i < captures.len()
        invariant
            i <= captures@.len(),
            forall|j: int| 0 <= j < captures@.len() ==> (#[trigger] captures@[j]).end_row < usize::MAX,
            r@ == all_lines(captures@.take(i as int)),
        decreases captures@.len() - i,
    {
        let mut h = HighlightLines::from_capture(captures[i]);
        let lines = h.rest();
        let ghost before = r@;
        let mut j: usize = 0;
        while j < lines.len()
            invariant
                j <= lines@.len(),
                r@ == before + lines@.take(j as int),
            decreases lines@.len() - j,
        {
            r.push(lines[j]);
            proof {
                assert(lines@.take(j + 1) =~= lines@.take(j as int).push(lines@[j as int]));
            }
            j += 1;
        }
        proof {
            assert(lines@.take(lines@.len() as int) =~= lines@);
            assert(captures@.take(i + 1).drop_last() =~= captures@.take(i as int));
        }
        i += 1;
    }
    proof {
        assert(captures@.take(captures@.len() as int) =~= captures@);
    }
    r
}

#[verifier::external_type_specification]
#[verifier::external_body]
pub struct ExQuery(Query);

/// What a highlight computation covers: a byte range of a text.
pub struct HighlightsView {
    pub start: int,
    pub end: int,
    pub text: Seq<char>,
}

/// Highlight computation from tree-sitter, over a byte range of a rope.
pub struct HighlightsTS<'a> {
    range: std::ops::Range<usize>,
    tree: &'a Tree,
    query: &'a Query,
    rope: &'a Rope,
}

impl<'a> View for HighlightsTS<'a> {
    type V = HighlightsView;

    closed spec fn view(&self) -> HighlightsView {
        HighlightsView { start: self.range.start as int, end: self.range.end as int, text: rope_text(*self.rope) }
    }
}

impl<'a> HighlightsTS<'a> {
    /// The syntax tree highlighted.
    pub closed spec fn tree_of(self) -> Tree {
        *self.tree
    }

    /// The highlighting query.
    pub closed spec fn query_of(self) -> Query {
        *self.query
    }

    /// The rope highlighted.
    pub closed spec fn rope_of(self) -> Rope {
        *self.rope
    }

    /// The same computation over another byte range.
    pub open spec fn moved(self, other: Self, start: int, end: int) -> bool {
        &&& other@ == (HighlightsView { start, end, text: self@.text })
        &&& other.tree_of() == self.tree_of()
        &&& other.query_of() == self.query_of()
        &&& other.rope_of() == self.rope_of()
    }

    /// A computation over the whole text of the rope.
    pub fn new(tree: &'a Tree, query: &'a Query, rope: &'a Rope) -> (h: Self)
        ensures
            h@ == (HighlightsView { start: 0, end: utf8_len(rope_text(*rope)) as int, text: rope_text(*rope) }),
            h.tree_of() == *tree,
            h.query_of() == *query,
            h.rope_of() == *rope,
    {
        let len = rope_len_bytes(rope);
        let range = 0..len;
        HighlightsTS { range, tree, query, rope }
    }

    /// The byte range covered.
    pub fn range(&self) -> (r: std::ops::Range<usize>)
        ensures
            r.start == self@.start,
            r.end == self@.end,
    {
        self.range.start..self.range.end
    }

    /// The syntax tree highlighted.
    pub fn tree(&self) -> (r: &'a Tree)
        ensures
            *r == self.tree_of(),
    {
        self.tree
    }

    /// The highlighting query.
    pub fn query(&self) -> (r: &'a Query)
        ensures
            *r == self.query_of(),
    {
        self.query
    }

    /// The rope highlighted.
    pub fn rope(&self) -> (r: &'a Rope)
        ensures
            *r == self.rope_of(),
            rope_text(*r) == self@.text,
    {
        self.rope
    }

    /// Set the byte range for a single line, its line break included.
    pub fn line(self, line: usize) -> (r: Self)
        requires
            line < line_count(self@.text),
        ensures
            self.moved(
                r,
                utf8_len(self@.text.take(line_start(self@.text, line as int))) as int,
                utf8_len(self@.text.take(line_start(self@.text, line + 1))) as int,
            ),
    {
        HighlightsTS { range: line_bytes(self.rope, line), tree: self.tree, query: self.query, rope: self.rope }
    }

    /// Set the byte range for a range of lines; lines past the last reach the text's end.
    pub fn lines(self, lines: std::ops::Range<usize>) -> (r: Self)
        requires
            lines.start <= line_count(self@.text),
        ensures
            self.moved(
                r,
                utf8_len(self@.text.take(line_start(self@.text, lines.start as int))) as int,
                if lines.end >= line_count(self@.text) {
                    utf8_len(self@.text) as int
                } else {
                    utf8_len(self@.text.take(line_start(self@.text, lines.end as int))) as int
                },
            ),
    {
        HighlightsTS { range: lines_bytes(self.rope, lines), tree: self.tree, query: self.query, rope: self.rope }
    }

    /// Set the byte range for a range of characters within a line.
    pub fn line_range(self, line: usize, chars: std::ops::Range<usize>) -> (r: Self)
        requires
            line < line_count(self@.text),
            chars.start <= line_start(self@.text, line + 1) - line_start(self@.text, line as int),
            chars.end <= line_start(self@.text, line + 1) - line_start(self@.text, line as int),
        ensures
            self.moved(
                r,
                utf8_len(self@.text.take(line_start(self@.text, line as int) + chars.start)) as int,
                utf8_len(self@.text.take(line_start(self@.text, line as int) + chars.end)) as int,
            ),
    {
        HighlightsTS {
            range: line_range_bytes(self.rope, line, chars),
            tree: self.tree,
            query: self.query,
            rope: self.rope,
        }
    }
}

impl<'a> HighlightsTS<'a> {
    /// The computation for a single line, if the text has that line; `None` past the last.
    pub fn try_line(self, line: usize) -> (r: Option<Self>)
        ensures
            r is Some <==> line < line_count(self@.text),
            r matches Some(h) ==> self.moved(
                h,
                utf8_len(self@.text.take(line_start(self@.text, line as int))) as int,
                utf8_len(self@.text.take(line_start(self@.text, line + 1))) as int,
            ),
    {
        if line < line_total(self.rope) {
            Some(self.line(line))
        } else {
            None
        }
    }

    /// The computation for a range of lines, if the text has its first line or ends just
    /// before it; `None` otherwise.
    pub fn try_lines(self, lines: std::ops::Range<usize>) -> (r: Option<Self>)
        ensures
            r is Some <==> lines.start <= line_count(self@.text),
            r matches Some(h) ==> self.moved(
                h,
                utf8_len(self@.text.take(line_start(self@.text, lines.start as int))) as int,
                if lines.end >= line_count(self@.text) {
                    utf8_len(self@.text) as int
                } else {
                    utf8_len(self@.text.take(line_start(self@.text, lines.end as int))) as int
                },
            ),
    {
        if lines.start <= line_total(self.rope) {
            Some(self.lines(lines))
        } else {
            None
        }
    }

    /// The computation for a range of characters within a line, if the text has that line and
    /// the range lies within it, its line break included; `None` otherwise.
    pub fn try_line_range(self, line: usize, chars: std::ops::Range<usize>) -> (r: Option<Self>)
        ensures
            r is Some <==> {
                &&& line < line_count(self@.text)
                &&& chars.start <= line_start(self@.text, line + 1) - line_start(self@.text, line as int)
                &&& chars.end <= line_start(self@.text, line + 1) - line_start(self@.text, line as int)
            },
            r matches Some(h) ==> self.moved(
                h,
                utf8_len(self@.text.take(line_start(self@.text, line as int) + chars.start)) as int,
                utf8_len(self@.text.take(line_start(self@.text, line as int) + chars.end)) as int,
            ),
    {
        if line >= line_total(self.rope) {
            return None;
        }
        let n = line_chars(self.rope, line);
        if chars.start <= n && chars.end <= n {
            Some(self.line_range(line, chars))
        } else {
            None
        }
    }
}

/// The number of characters of a line of a rope, its line break included, if the rope's text
/// has that line; `None` past the last.
pub fn try_line_chars(rope: &Rope, line: usize) -> (r: Option<usize>)
    ensures
        r is Some <==> line < line_count(rope_text(*rope)),
        r matches Some(n) ==> n == line_start(rope_text(*rope), line + 1) - line_start(rope_text(*rope), line as int),
{
    if line < line_total(rope) {
        Some(line_chars(rope, line))
    } else {
        None
    }
}

/// The number of lines of a rope's text: what the byte ranges of lines ask their line to be
/// below.
pub fn line_total(rope: &Rope) -> (n: usize)
    ensures
        n == line_count(rope_text(*rope)),
{
    rope_len_lines(rope)
}

/// The number of characters of a line of a rope, its line break included: what the byte range
/// of characters within the line asks them to be within.
pub fn line_chars(rope: &Rope, line: usize) -> (n: usize)
    requires
        line < line_count(rope_text(*rope)),
    ensures
        n == line_start(rope_text(*rope), line + 1) - line_start(rope_text(*rope), line as int),
{
    proof {
        lemma_line_starts(rope_text(*rope), line as int);
    }
    let slice = rope_line(rope, line);
    slice_len_chars(&slice)
}

/// The byte range of a line of a rope, its line break included.
pub fn line_bytes(rope: &Rope, line: usize) -> (r: std::ops::Range<usize>)
    requires
        line < line_count(rope_text(*rope)),
    ensures
        r.start == utf8_len(rope_text(*rope).take(line_start(rope_text(*rope), line as int))),
        r.end == utf8_len(rope_text(*rope).take(line_start(rope_text(*rope), line + 1))),
{
    // The rope's length in bytes bounds the sum below.
    let _text_bytes = rope_len_bytes(rope);
    proof {
        let t = rope_text(*rope);
        lemma_line_starts(t, line as int);
        lemma_utf8_split(t, line_start(t, line as int), line_start(t, line + 1));
        lemma_utf8_prefix(t, line_start(t, line + 1));
    }
    let start = rope_line_to_byte(rope, line);
    let slice = rope_line(rope, line);
    start..start + slice_len_bytes(&slice)
}

/// The byte range of a range of lines of a rope; lines past the last reach the text's end.
pub fn lines_bytes(rope: &Rope, lines: std::ops::Range<usize>) -> (r: std::ops::Range<usize>)
    requires
        lines.start <= line_count(rope_text(*rope)),
    ensures
        r.start == utf8_len(rope_text(*rope).take(line_start(rope_text(*rope), lines.start as int))),
        r.end == if lines.end >= line_count(rope_text(*rope)) {
            utf8_len(rope_text(*rope)) as int
        } else {
            utf8_len(rope_text(*rope).take(line_start(rope_text(*rope), lines.end as int))) as int
        },
{
    let start = rope_line_to_byte(rope, lines.start);
    let end = if lines.end >= rope_len_lines(rope) {
        rope_len_bytes(rope)
    } else {
        rope_line_to_byte(rope, lines.end)
    };
    start..end
}

/// The byte range of a range of characters within a line of a rope.
pub fn line_range_bytes(rope: &Rope, line: usize, chars: std::ops::Range<usize>) -> (r: std::ops::Range<usize>)
    requires
        line < line_count(rope_text(*rope)),
        chars.start <= line_start(rope_text(*rope), line + 1) - line_start(rope_text(*rope), line as int),
        chars.end <= line_start(rope_text(*rope), line + 1) - line_start(rope_text(*rope), line as int),
    ensures
        r.start == utf8_len(rope_text(*rope).take(line_start(rope_text(*rope), line as int) + chars.start)),
        r.end == utf8_len(rope_text(*rope).take(line_start(rope_text(*rope), line as int) + chars.end)),
{
    // The rope's length in bytes bounds the sums below.
    let _text_bytes = rope_len_bytes(rope);
    let ghost t = rope_text(*rope);
    let ghost a = line_start(t, line as int);
    let ghost b = line_start(t, line + 1);
    proof {
        lemma_line_starts(t, line as int);
        lemma_utf8_split(t, a, a + chars.start);
        lemma_utf8_split(t, a, a + chars.end);
        lemma_utf8_prefix(t, a + chars.start);
        lemma_utf8_prefix(t, a + chars.end);
        assert(t.subrange(a, b).take(chars.start as int) =~= t.subrange(a, a + chars.start));
        assert(t.subrange(a, b).take(chars.end as int) =~= t.subrange(a, a + chars.end));
    }
    let offset = rope_line_to_byte(rope, line);
    let slice = rope_line(rope, line);
    let start = offset + slice_char_to_byte(&slice, chars.start);
    let end = offset + slice_char_to_byte(&slice, chars.end);
    start..end
}

} // verus!
