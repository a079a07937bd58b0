//! Lines of a text as a rope counts them, and the byte offsets of their characters.
//!
//! A line ends after a line break: LF, CR LF (one break), a CR not followed by LF, VT, FF,
//! NEL, LS or PS. The line break belongs to the line it ends, and the position right after
//! it starts the next line, so a text with `n` line breaks has `n + 1` lines.
use vstd::prelude::*;

verus! {

/// Bytes that a character takes in UTF-8.
pub open spec fn utf8_width(c: char) -> nat {
    if (c as u32) < 0x80 {
        1
    } else if (c as u32) < 0x800 {
        2
    } else if (c as u32) < 0x10000 {
        3
    } else {
        4
    }
}

/// Bytes that a text takes in UTF-8.
pub open spec fn utf8_len(t: Seq<char>) -> nat
    decreases t.len(),
{
    if t.len() == 0 {
        0
    } else {
        utf8_len(t.drop_last()) + utf8_width(t.last())
    }
}

/// Whether the character at `i` ends a line: a line break, where a CR followed by an LF
/// leaves the end to the LF.
pub open spec fn ends_line(t: Seq<char>, i: int) -> bool {
    let c = t[i];
    if c == '\r' {
        !(i + 1 < t.len() && t[i + 1] == '\n')
    } else {
        c == '\n' || c == '\u{0B}' || c == '\u{0C}' || c == '\u{85}' || c == '\u{2028}'
            || c == '\u{2029}'
    }
}

/// Lines that end among the first `n` characters.
pub open spec fn breaks_before(t: Seq<char>, n: int) -> nat
    decreases n,
{
    if n <= 0 {
        0
    } else {
        breaks_before(t, n - 1) + if ends_line(t, n - 1) {
            1nat
        } else {
            0nat
        }
    }
}

/// Lines of a text: one more than its line breaks.
pub open spec fn line_count(t: Seq<char>) -> nat {
    breaks_before(t, t.len() as int) + 1
}

/// The first position from `p` on before which `line` lines have ended, or the text's
/// length if there is none.
pub open spec fn line_start_from(t: Seq<char>, line: int, p: int) -> int
    decreases t.len() - p,
{
    if p >= t.len() || breaks_before(t, p) >= line {
        p
    } else {
        line_start_from(t, line, p + 1)
    }
}

/// Position, in characters, at which a line starts; for the line past the last, the text's
/// length.
pub open spec fn line_start(t: Seq<char>, line: int) -> int {
    line_start_from(t, line, 0)
}

proof fn lemma_breaks_monotone(t: Seq<char>, a: int, b: int)
    requires
        a <= b,
    ensures
        breaks_before(t, a) <= breaks_before(t, b),
    decreases b - a,
{
    if a < b {
        lemma_breaks_monotone(t, a, b - 1);
    }
}

proof fn lemma_line_start_from(t: Seq<char>, line: int, p: int)
    requires
        0 <= p <= t.len(),
    ensures
        p <= line_start_from(t, line, p) <= t.len(),
        forall|q: int|
            p <= q <= line_start_from(t, line, p) && q < line_start_from(t, line, p) ==> breaks_before(
                t,
                q,
            ) < line,
        line_start_from(t, line, p) < t.len() ==> breaks_before(t, line_start_from(t, line, p)) >= line,
    decreases t.len() - p,
{
    if !(p >= t.len() || breaks_before(t, p) >= line) {
        lemma_line_start_from(t, line, p + 1);
    }
}

/// Lines start in order, within the text, the line past the last at its end.
pub proof fn lemma_line_starts(t: Seq<char>, line: int)
    requires
        0 <= line,
    ensures
        0 <= line_start(t, line) <= line_start(t, line + 1) <= t.len(),
        line == line_count(t) - 1 ==> line_start(t, line + 1) == t.len(),
{
    lemma_line_start_from(t, line, 0);
    lemma_line_start_from(t, line + 1, 0);
    let a = line_start(t, line);
    let b = line_start(t, line + 1);
    if b < a {
        lemma_breaks_monotone(t, b, t.len() as int);
        assert(breaks_before(t, b) < line);
        if b < t.len() {
            assert(breaks_before(t, b) >= line + 1);
        }
    }
    if line == line_count(t) - 1 && b < t.len() {
        lemma_breaks_monotone(t, b, t.len() as int);
    }
}

/// The bytes of a text's first `j` characters are those of its first `i` and of the ones
/// between.
pub proof fn lemma_utf8_split(t: Seq<char>, i: int, j: int)
    requires
        0 <= i <= j <= t.len(),
    ensures
        utf8_len(t.take(j)) == utf8_len(t.take(i)) + utf8_len(t.subrange(i, j)),
    decreases j - i,
{
    if j > i {
        lemma_utf8_split(t, i, j - 1);
        assert(t.take(j).drop_last() =~= t.take(j - 1));
        assert(t.subrange(i, j).drop_last() =~= t.subrange(i, j - 1));
    } else {
        assert(t.subrange(i, j) =~= Seq::<char>::empty());
    }
}

/// A text's first characters take no more bytes than the whole text.
pub proof fn lemma_utf8_prefix(t: Seq<char>, j: int)
    requires
        0 <= j <= t.len(),
    ensures
        utf8_len(t.take(j)) <= utf8_len(t),
    decreases t.len() - j,
{
    if j < t.len() {
        lemma_utf8_split(t, j, j + 1);
        lemma_utf8_prefix(t, j + 1);
    } else {
        assert(t.take(j) =~= t);
    }
}

} // verus!
