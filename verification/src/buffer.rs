//! Text buffers backed by a `ropey` rope, with an optional tree-sitter parse.
use vstd::prelude::*;
use ropey::{Rope, RopeSlice};
use tree_sitter::{Parser, Query, Tree};
use crate::highlights::{HighlightsTS, HighlightsView};
use crate::lines::{line_count, line_start, utf8_len};

verus! {

#[verifier::external_type_specification]
#[verifier::external_body]
pub struct ExRope(Rope);

#[verifier::external_type_specification]
#[verifier::external_body]
pub struct ExTree(Tree);

#[verifier::external_type_specification]
#[verifier::external_body]
pub struct ExParser(Parser);

#[verifier::external_type_specification]
#[verifier::external_body]
pub struct ExRopeSlice<'a>(RopeSlice<'a>);

/// The text that a rope holds, as characters.
pub uninterp spec fn rope_text(r: Rope) -> Seq<char>;

/// The text that a slice of a rope holds, as characters.
pub uninterp spec fn slice_text(s: RopeSlice) -> Seq<char>;

/// `Rope::len_bytes`: the length of the rope's text in UTF-8.
#[verifier::external_body]
pub(crate) fn rope_len_bytes(rope: &Rope) -> (r: usize)
    ensures
        r == utf8_len(rope_text(*rope)),
{
    rope.len_bytes()
}

/// `Rope::len_lines`: one more than the line breaks of the rope's text, as the crate's
/// documentation lists them (with its default features, which this crate keeps).
#[verifier::external_body]
pub(crate) fn rope_len_lines(rope: &Rope) -> (r: usize)
    ensures
        r == line_count(rope_text(*rope)),
{
    rope.len_lines()
}

/// `Rope::line_to_byte`: the byte offset at which a line starts, the line past the last
/// giving the text's length; it panics past that line.
#[verifier::external_body]
pub(crate) fn rope_line_to_byte(rope: &Rope, line: usize) -> (r: usize)
    requires
        line <= line_count(rope_text(*rope)),
    ensures
        r == utf8_len(rope_text(*rope).take(line_start(rope_text(*rope), line as int))),
{
    rope.line_to_byte(line)
}

/// `Rope::line`: the text of a line, its line break included; it panics past the last line.
#[verifier::external_body]
pub(crate) fn rope_line<'a>(rope: &'a Rope, line: usize) -> (r: RopeSlice<'a>)
    requires
        line < line_count(rope_text(*rope)),
    ensures
        slice_text(r) == rope_text(*rope).subrange(
            line_start(rope_text(*rope), line as int),
            line_start(rope_text(*rope), line + 1),
        ),
{
    rope.line(line)
}

/// `RopeSlice::len_bytes`: the length of the slice's text in UTF-8.
#[verifier::external_body]
pub(crate) fn slice_len_bytes(slice: &RopeSlice) -> (r: usize)
    ensures
        r == utf8_len(slice_text(*slice)),
{
    slice.len_bytes()
}

/// `RopeSlice::len_chars`: the number of characters of the slice.
#[verifier::external_body]
pub(crate) fn slice_len_chars(slice: &RopeSlice) -> (r: usize)
    ensures
        r == slice_text(*slice).len(),
{
    slice.len_chars()
}

/// `RopeSlice::char_to_byte`: the byte offset of a character of the slice, the one past the
/// last giving the slice's length; it panics past that one.
#[verifier::external_body]
pub(crate) fn slice_char_to_byte(slice: &RopeSlice, char_idx: usize) -> (r: usize)
    requires
        char_idx <= slice_text(*slice).len(),
    ensures
        r == utf8_len(slice_text(*slice).take(char_idx as int)),
{
    slice.char_to_byte(char_idx)
}

/// `Rope::from_str`: a rope holding exactly the given text.
#[verifier::external_body]
fn rope_from_str(text: &str) -> (r: Rope)
    ensures
        rope_text(r) == text@,
{
    Rope::from_str(text)
}

/// `tree_sitter::Parser::parse` on the text of a rope, with no earlier tree. The tree it gives
/// depends on the parser's language, which is not described here: nothing is stated of it.
#[verifier::external_body]
fn parse_rope(parser: &mut Parser, rope: &Rope) -> Option<Tree> {
    parser.parse(rope.to_string(), None)
}

/// A text buffer with optional highlighting.
pub struct Buffer {
    pub rope: Rope,
    pub tree: Option<Tree>,
    pub parser: Option<Parser>,
}

impl Buffer {
    /// A buffer holding the given text, not parsed, without a parser.
    pub fn new(string: &str) -> (b: Buffer)
        ensures
            rope_text(b.rope) == string@,
            b.tree.is_none(),
            b.parser.is_none(),
    {
        Buffer { rope: rope_from_str(string), tree: None, parser: None }
    }

    /// Initial full parsing of the buffer's text with its parser, which must be set. The
    /// parser's tree for the text, and the parser, are stored by `store_parse`. Which tree
    /// tree-sitter gives depends on the grammar the parser holds, which is opaque here, so the
    /// tree is not described, nor is it stated that the stored tree is the one the parser gave.
    pub fn parse(&mut self)
        requires
            old(self).parser is Some,
        ensures
            final(self).rope == old(self).rope,
            final(self).parser is Some,
    {
        let mut parser = self.parser.take().unwrap();
        let tree = parse_rope(&mut parser, &self.rope);
        self.store_parse(parser, tree);
    }

    /// Keep a parse of the buffer's text: the tree, and the parser that gave it.
    pub fn store_parse(&mut self, parser: Parser, tree: Option<Tree>)
        ensures
            final(self).rope == old(self).rope,
            final(self).tree == tree,
            final(self).parser == Some(parser),
    {
        self.tree = tree;
        self.parser = Some(parser);
    }

    /// A highlight computation for the given query over the whole text, once it is parsed.
    pub fn highlights_ts<'a>(&'a self, query: &'a Query) -> (r: Option<HighlightsTS<'a>>)
        ensures
            r is Some <==> self.tree is Some,
            r matches Some(h) ==> {
                &&& h@ == (HighlightsView {
                    start: 0,
                    end: utf8_len(rope_text(self.rope)) as int,
                    text: rope_text(self.rope),
                })
                &&& h.tree_of() == self.tree->0
                &&& h.query_of() == *query
                &&& h.rope_of() == self.rope
            },
    {
        match &self.tree {
            Some(tree) => Some(HighlightsTS::new(tree, query, &self.rope)),
            None => None,
        }
    }

    /// Incremental re-parsing after an edit; editing is not supported yet, so nothing changes.
    pub fn edit(&mut self)
        ensures
            *final(self) == *old(self),
    {
    }
}

} // verus!
