//! Files of the file tree, with their icon.
use vstd::prelude::*;
use crate::buffer::Buffer;
use crate::keys::FolderKey;
use crate::text::{file_name_of, path_file_name, push_char};

verus! {

/// An RGB color.
#[derive(Clone, Copy, PartialEq, Eq, Debug, Structural)]
pub struct Rgb {
    pub r: u8,
    pub g: u8,
    pub b: u8,
}

/// The value of a hexadecimal digit, in either case.
pub open spec fn hex_value(c: char) -> Option<u8> {
    if '0' <= c && c <= '9' {
        Some((c as int - '0' as int) as u8)
    } else if 'a' <= c && c <= 'f' {
        Some((c as int - 'a' as int + 10) as u8)
    } else if 'A' <= c && c <= 'F' {
        Some((c as int - 'A' as int + 10) as u8)
    } else {
        None
    }
}

/// A shorthand channel `X`, meaning `XX`.
pub open spec fn short_channel(c: char) -> Option<u8> {
    match hex_value(c) {
        Some(v) => Some((v * 17) as u8),
        None => None,
    }
}

/// A full channel of two characters as `u8::from_str_radix(_, 16)` reads it: two digits, or a
/// `+` sign followed by one digit.
pub open spec fn full_channel(c1: char, c2: char) -> Option<u8> {
    if c1 == '+' {
        hex_value(c2)
    } else {
        match (hex_value(c1), hex_value(c2)) {
            (Some(a), Some(b)) => Some((a * 16 + b) as u8),
            _ => None,
        }
    }
}

/// Colors as `HexColor::parse` accepts them: `#RGB`, `#RGBA`, `#RRGGBB` or `#RRGGBBAA`;
/// the alpha channel, when present, must be valid and is then dropped.
pub open spec fn hex_rgb(s: Seq<char>) -> Option<Rgb> {
    if s.len() == 0 || s[0] != '#' {
        None
    } else if s.len() == 4 || s.len() == 5 {
        match (short_channel(s[1]), short_channel(s[2]), short_channel(s[3])) {
            (Some(r), Some(g), Some(b)) =>
                if s.len() == 5 && short_channel(s[4]) is None { None } else { Some(Rgb { r, g, b }) },
            _ => None,
        }
    } else if s.len() == 7 || s.len() == 9 {
        match (full_channel(s[1], s[2]), full_channel(s[3], s[4]), full_channel(s[5], s[6])) {
            (Some(r), Some(g), Some(b)) =>
                if s.len() == 9 && full_channel(s[7], s[8]) is None { None } else { Some(Rgb { r, g, b }) },
            _ => None,
        }
    } else {
        None
    }
}

/// `hex_color::HexColor::parse`, keeping the red, green and blue channels of a success.
#[verifier::external_body]
fn parse_hex_color(s: &str) -> (c: Option<Rgb>)
    ensures
        c == hex_rgb(s@),
{
    match hex_color::HexColor::parse(s) {
        Ok(h) => Some(Rgb { r: h.r, g: h.g, b: h.b }),
        Err(_) => None,
    }
}

/// `devicons::FileIcon::from` on a path: its glyph and its color code. The icon depends on
/// whether the path is a directory on disk, so nothing is stated of the result.
#[verifier::external_body]
fn devicon_for(path: &str) -> (res: (char, String)) {
    let icon = devicons::FileIcon::from(std::path::Path::new(path));
    (icon.icon, icon.color.to_string())
}

/// The text of a glyph followed by a space.
fn glyph_text(glyph: char) -> (t: String)
    ensures
        t@ == seq![glyph, ' '],
{
    let mut text = String::new();
    push_char(&mut text, glyph);
    push_char(&mut text, ' ');
    proof {
        assert(text@ =~= seq![glyph, ' ']);
    }
    text
}

/// The icon displayed before a file name.
pub struct Devicon {
    pub text: String,
    pub color: Option<Rgb>,
}

impl Devicon {
    /// The icon for a glyph and its color code: the glyph and a space, and the parsed color.
    pub fn from_icon(glyph: char, color: &str) -> (d: Devicon)
        ensures
            d.text@ == seq![glyph, ' '],
            d.color == hex_rgb(color@),
    {
        Devicon { text: glyph_text(glyph), color: parse_hex_color(color) }
    }

    /// The icon of the file at a path: the glyph that the icon set gives it and a space, and its
    /// parsed color; which glyph and color depends on the disk, so only their form is stated.
    pub fn new(path: &str) -> (d: Devicon)
        ensures
            d.text@.len() == 2,
            d.text@[1] == ' ',
            exists|code: Seq<char>| d.color == hex_rgb(code),
    {
        let (glyph, color) = devicon_for(path);
        let d = Devicon::from_icon(glyph, color.as_str());
        assert(d.color == hex_rgb(color@));
        d
    }
}

pub struct File {
    /// Absolute path
    pub path: String,
    /// Optional parent (is None when the file is loaded as a peeked orphan)
    pub parent: Option<FolderKey>,
    pub name: String,
    pub icon: Devicon,
    pub buffer: Option<Buffer>,
}

impl File {
    /// A file named after the final component of its path, with its icon and no buffer.
    pub fn new(path: String, parent: Option<FolderKey>) -> (f: File)
        ensures
            f.path@ == path@,
            f.parent == parent,
            f.name@ == file_name_of(path@),
            f.buffer.is_none(),
    {
        let icon = Devicon::new(path.as_str());
        let name = path_file_name(path.as_str());
        File { path, parent, name, icon, buffer: None }
    }
}

} // verus!
