//! The values a screen holds: colours, styles, cell widths and cells.
//!
//! These mirror the `ansi` crate's own types field for field, as plain data
//! the emulator's contracts can talk about. `crate::outside` converts between
//! the two.

use vstd::prelude::*;

verus! {

/// A terminal colour: the terminal's default, one of the 256 indexed colours,
/// or 24-bit RGB.
#[derive(Clone, Copy, Debug, PartialEq, Eq, Structural)]
pub enum Color {
    Default,
    Indexed(u8),
    Rgb(u8, u8, u8),
}

/// A complete character style: foreground, background and attributes.
#[derive(Clone, Copy, Debug, PartialEq, Eq, Structural)]
pub struct TextStyle {
    pub fg: Color,
    pub bg: Color,
    pub bold: bool,
    pub dim: bool,
    pub italic: bool,
    pub underline: bool,
    pub reverse: bool,
    pub strike: bool,
}

/// How many columns a cell covers: the right half of a double-width glyph,
/// a normal cell, or the left half of a double-width glyph.
#[derive(Clone, Copy, Debug, PartialEq, Eq, Structural)]
pub enum CellWidth {
    Continuation,
    Single,
    Wide,
}

/// One character cell: a character, its style and its width.
#[derive(Clone, Copy, Debug, PartialEq, Eq, Structural)]
pub struct GridCell {
    pub ch: char,
    pub style: TextStyle,
    pub width: CellWidth,
}

/// The default style: default colours, no attributes.
pub open spec fn plain_style() -> TextStyle {
    TextStyle {
        fg: Color::Default,
        bg: Color::Default,
        bold: false,
        dim: false,
        italic: false,
        underline: false,
        reverse: false,
        strike: false,
    }
}

/// The blank cell: a single-width space in the default style.
pub open spec fn blank_cell() -> GridCell {
    GridCell { ch: ' ', style: plain_style(), width: CellWidth::Single }
}

/// The default style, as a value.
pub fn default_style() -> (s: TextStyle)
    ensures
        s == plain_style(),
{
    TextStyle {
        fg: Color::Default,
        bg: Color::Default,
        bold: false,
        dim: false,
        italic: false,
        underline: false,
        reverse: false,
        strike: false,
    }
}

/// The blank cell, as a value.
pub fn blank() -> (c: GridCell)
    ensures
        c == blank_cell(),
{
    GridCell { ch: ' ', style: default_style(), width: CellWidth::Single }
}

/// The character a terminal shows for bytes that are not valid UTF-8.
pub open spec fn replacement_char() -> char {
    '\u{FFFD}'
}

/// True for characters laid out as two columns: the East Asian wide and
/// fullwidth blocks (Hangul Jamo, CJK, Hangul syllables, fullwidth forms)
/// and the common emoji blocks.
pub open spec fn is_wide(ch: char) -> bool {
    let c = ch as u32;
    ||| 0x1100 <= c <= 0x115F
    ||| 0x2E80 <= c <= 0x303E
    ||| 0x3041 <= c <= 0x33FF
    ||| 0x3400 <= c <= 0x4DBF
    ||| 0x4E00 <= c <= 0x9FFF
    ||| 0xA000 <= c <= 0xA4CF
    ||| 0xAC00 <= c <= 0xD7A3
    ||| 0xF900 <= c <= 0xFAFF
    ||| 0xFE30 <= c <= 0xFE4F
    ||| 0xFF00 <= c <= 0xFF60
    ||| 0xFFE0 <= c <= 0xFFE6
    ||| 0x1F300 <= c <= 0x1F64F
    ||| 0x1F900 <= c <= 0x1F9FF
    ||| 0x20000 <= c <= 0x2FFFD
    ||| 0x30000 <= c <= 0x3FFFD
}

/// Whether `ch` takes two columns (see [`is_wide`]).
pub fn char_is_wide(ch: char) -> (r: bool)
    ensures
        r == is_wide(ch),
{
    let c = ch as u32;
    (0x1100 <= c && c <= 0x115F) || (0x2E80 <= c && c <= 0x303E) || (0x3041 <= c && c
        <= 0x33FF) || (0x3400 <= c && c <= 0x4DBF) || (0x4E00 <= c && c <= 0x9FFF) || (0xA000
        <= c && c <= 0xA4CF) || (0xAC00 <= c && c <= 0xD7A3) || (0xF900 <= c && c <= 0xFAFF)
        || (0xFE30 <= c && c <= 0xFE4F) || (0xFF00 <= c && c <= 0xFF60) || (0xFFE0 <= c && c
        <= 0xFFE6) || (0x1F300 <= c && c <= 0x1F64F) || (0x1F900 <= c && c <= 0x1F9FF) || (
    0x20000 <= c && c <= 0x2FFFD) || (0x30000 <= c && c <= 0x3FFFD)
}

} // verus!
