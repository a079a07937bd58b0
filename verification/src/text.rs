//! Small text helpers, and the trusted wrappers of the `std` path functions the tree uses.
use vstd::prelude::*;

verus! {

/// The final component of a path as the platform's `std::path::Path::file_name` gives it,
/// converted lossily to text, or the empty text where there is none.
pub uninterp spec fn file_name_of(path: Seq<char>) -> Seq<char>;

/// `Path::file_name`, read lossily as text, empty when the path has no final component.
#[verifier::external_body]
pub(crate) fn path_file_name(path: &str) -> (name: String)
    ensures
        name@ == file_name_of(path@),
{
    std::path::Path::new(path).file_name().unwrap_or_default().to_string_lossy().to_string()
}

/// The parent of a path as the platform's `std::path::Path::parent` gives it, read lossily as
/// text.
pub uninterp spec fn parent_path_of(path: Seq<char>) -> Option<Seq<char>>;

/// `Path::parent`, read lossily as text: the path without its final component, a part of the
/// path's text and so shorter than it; none for a path that ends in a root or a prefix, or that
/// is empty.
#[verifier::external_body]
pub(crate) fn path_parent(path: &str) -> (parent: Option<String>)
    ensures
        match parent {
            Some(q) => parent_path_of(path@) == Some(q@) && q@.len() < path@.len(),
            None => parent_path_of(path@) is None,
        },
{
    match std::path::Path::new(path).parent() {
        Some(p) => Some(p.to_string_lossy().to_string()),
        None => None,
    }
}

/// An owned copy of a string slice.
pub fn owned(s: &str) -> (r: String)
    ensures
        r@ == s@,
{
    s.to_owned()
}

/// Whether a list of strings holds the given text.
pub fn contains_text(list: &Vec<String>, s: &str) -> (b: bool)
    ensures
        b == (exists|i: int| 0 <= i < list@.len() && #[trigger] list@[i]@ == s@),
{
    let t = owned(s);
    let mut i: usize = 0;
    while i < list.len()
        invariant
            i <= list@.len(),
            t@ == s@,
            forall|j: int| 0 <= j < i ==> #[trigger] list@[j]@ != s@,
        decreases list@.len() - i,
    {
        if list[i] == t {
            return true;
        }
        i += 1;
    }
    false
}


/// `String::push`: the character is appended.
#[verifier::external_body]
pub(crate) fn push_char(s: &mut String, c: char)
    ensures
        final(s)@ == old(s)@.push(c),
{
    s.push(c)
}

/// `String::pop`: the last character is removed and returned; nothing for an empty text.
#[verifier::external_body]
pub(crate) fn pop_char(s: &mut String) -> (c: Option<char>)
    ensures
        old(s)@.len() == 0 ==> c is None && final(s)@ == old(s)@,
        old(s)@.len() > 0 ==> c == Some(old(s)@.last()) && final(s)@ == old(s)@.drop_last(),
{
    s.pop()
}

/// Unicode white space, as `char::is_whitespace` tells it.
pub open spec fn is_space(c: char) -> bool {
    ||| c == ' '
    ||| ('\u{9}' <= c && c <= '\u{d}')
    ||| c == '\u{85}'
    ||| c == '\u{a0}'
    ||| c == '\u{1680}'
    ||| ('\u{2000}' <= c && c <= '\u{200a}')
    ||| c == '\u{2028}'
    ||| c == '\u{2029}'
    ||| c == '\u{202f}'
    ||| c == '\u{205f}'
    ||| c == '\u{3000}'
}

/// Whether a character is white space.
pub fn space(c: char) -> (b: bool)
    ensures
        b == is_space(c),
{
    c == ' ' || ('\u{9}' <= c && c <= '\u{d}') || c == '\u{85}' || c == '\u{a0}' || c == '\u{1680}'
        || ('\u{2000}' <= c && c <= '\u{200a}') || c == '\u{2028}' || c == '\u{2029}' || c == '\u{202f}'
        || c == '\u{205f}' || c == '\u{3000}'
}

/// The words of a text from position `i` on, a word having started at `start` (or none, when
/// `start` is negative), after the words in `acc`: the runs of characters between white space.
pub open spec fn words_scan(s: Seq<char>, i: int, start: int, acc: Seq<Seq<char>>) -> Seq<Seq<char>>
    decreases s.len() - i,
{
    if i >= s.len() {
        if start >= 0 { acc.push(s.subrange(start, s.len() as int)) } else { acc }
    } else if is_space(s[i]) {
        if start >= 0 {
            words_scan(s, i + 1, -1, acc.push(s.subrange(start, i)))
        } else {
            words_scan(s, i + 1, -1, acc)
        }
    } else {
        words_scan(s, i + 1, if start >= 0 { start } else { i }, acc)
    }
}

/// The white-space separated words of a text, in order.
pub open spec fn words_of(s: Seq<char>) -> Seq<Seq<char>> {
    words_scan(s, 0, -1, seq![])
}

/// Split a text into its white-space separated words.
pub fn split_words(s: &str) -> (words: Vec<String>)
    ensures
        words@.map_values(|w: String| w@) == words_of(s@),
{
    let n = s.unicode_len();
    let mut words: Vec<String> = Vec::new();
    let mut start: usize = 0;
    let mut in_word = false;
    let mut i: usize = 0;
    proof {
        assert(words@.map_values(|w: String| w@) =~= Seq::<Seq<char>>::empty());
    }
    while i < n
        invariant
            n == s@.len(),
            i <= n,
            in_word ==> start < i,
            words_scan(s@, i as int, if in_word { start as int } else { -1 }, words@.map_values(|w: String| w@)) == words_of(s@),
        decreases n - i,
    {
        let c = s.get_char(i);
        if space(c) {
            if in_word {
                let w = owned(s.substring_char(start, i));
                proof {
                    assert(words@.push(w).map_values(|w: String| w@) =~= words@.map_values(|w: String| w@).push(s@.subrange(start as int, i as int)));
                }
                words.push(w);
                in_word = false;
            }
        } else if !in_word {
            start = i;
            in_word = true;
        }
        i += 1;
    }
    if in_word {
        let w = owned(s.substring_char(start, n));
        proof {
            assert(words@.push(w).map_values(|w: String| w@) =~= words@.map_values(|w: String| w@).push(s@.subrange(start as int, n as int)));
        }
        words.push(w);
    }
    words
}

} // verus!
