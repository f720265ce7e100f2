//! The calls this library makes into the `ansi` crate (and one into std),
//! with what each is trusted to do.
//!
//! `ansi` owns the cell grid ([`ansi::Screen`]), the tokenizer
//! ([`ansi::Parser`] and [`ansi::Utf8Decoder`]) and SGR parameter handling
//! ([`ansi::Style::apply_sgr`]). Everything here is believed, not proved: each
//! contract restates what the crate's source and documentation show.

use vstd::prelude::*;
use crate::cell::{GridCell, CellWidth, Color, TextStyle, blank_cell, plain_style, replacement_char};
use crate::lex::{Event, Lexeme, lexemes_of};
use crate::model::{Grid, blank_grid_of};

verus! {

#[verifier::external_type_specification]
#[verifier::external_body]
pub struct ExScreen(ansi::Screen);

#[verifier::external_type_specification]
#[verifier::external_body]
pub struct ExCell(ansi::Cell);

#[verifier::external_type_specification]
#[verifier::external_body]
pub struct ExStyle(ansi::Style);

#[verifier::external_type_specification]
#[verifier::external_body]
pub struct ExParser(ansi::Parser);

#[verifier::external_type_specification]
#[verifier::external_body]
pub struct ExUtf8Decoder(ansi::Utf8Decoder);

// ---- what the outside values hold --------------------------------------

/// What an `ansi::Screen` shows: its cells row by row, its width, and where
/// its cursor rests.
pub uninterp spec fn screen_view(s: ansi::Screen) -> Grid;

/// The library's copy of an `ansi::Cell`.
pub uninterp spec fn cell_model(c: ansi::Cell) -> GridCell;

/// The library's copy of an `ansi::Style`.
pub uninterp spec fn style_model(s: ansi::Style) -> TextStyle;

/// The style `ansi::Style::apply_sgr` makes of `style` given SGR `params`.
pub uninterp spec fn sgr_applied(style: TextStyle, params: Seq<u16>) -> TextStyle;

/// The lexemes `parser`, in its present state, reports for `input`.
pub uninterp spec fn parser_lex(parser: ansi::Parser, input: Seq<u8>) -> Seq<Lexeme>;

/// The lexemes a parser in the ground state reports for `input`.
pub uninterp spec fn ground_lex(input: Seq<u8>) -> Seq<Lexeme>;

/// The bytes of an incomplete character that a decoder holds for its next
/// chunk (at most three).
pub uninterp spec fn decoder_held(d: ansi::Utf8Decoder) -> Seq<u8>;

/// What a decoder holding nothing makes of `bytes`: the characters it emits,
/// invalid bytes shown as U+FFFD, and the bytes of a final incomplete
/// character that it holds back.
pub uninterp spec fn utf8_decode(bytes: Seq<u8>) -> (Seq<char>, Seq<u8>);

// ---- screens --------------------------------------------------------------

/// A row of `cols` copies of `cell`.
pub open spec fn row_of(cols: nat, cell: GridCell) -> Seq<GridCell> {
    Seq::new(cols, |c: int| cell)
}

/// `Screen::new`: a blank screen. It allocates `rows x cols` cells, so the
/// grid must fit in memory.
pub assume_specification[ansi::Screen::new](rows: usize, cols: usize) -> (s: ansi::Screen)
    requires
        (rows as int) * (cols as int) * 32 <= isize::MAX,
    ensures
        screen_view(s) == blank_grid_of(rows as nat, cols as nat),
;

/// `Screen::rows`: the number of rows.
pub assume_specification[ansi::Screen::rows](s: &ansi::Screen) -> (r: usize)
    ensures
        r == screen_view(*s).cells.len(),
;

/// `Screen::cols`: the number of columns.
pub assume_specification[ansi::Screen::cols](s: &ansi::Screen) -> (c: usize)
    ensures
        c == screen_view(*s).cols,
;

/// `Screen::cell`: the cell at `(row, col)`, or a blank one out of bounds.
pub assume_specification[ansi::Screen::cell](s: &ansi::Screen, row: usize, col: usize) -> (c:
    ansi::Cell)
    ensures
        row < screen_view(*s).cells.len() && col < screen_view(*s).cols ==> cell_model(c)
            == screen_view(*s).cells[row as int][col as int],
        !(row < screen_view(*s).cells.len() && col < screen_view(*s).cols) ==> cell_model(c)
            == blank_cell(),
;

/// `Screen::set`: overwrite one cell; out-of-bounds writes are ignored.
pub assume_specification[ansi::Screen::set](
    s: &mut ansi::Screen,
    row: usize,
    col: usize,
    cell: ansi::Cell,
)
    ensures
        row < screen_view(*old(s)).cells.len() && col < screen_view(*old(s)).cols ==> screen_view(
            *final(s),
        ) == (Grid {
            cells: screen_view(*old(s)).cells.update(
                row as int,
                screen_view(*old(s)).cells[row as int].update(col as int, cell_model(cell)),
            ),
            ..screen_view(*old(s))
        }),
        !(row < screen_view(*old(s)).cells.len() && col < screen_view(*old(s)).cols)
            ==> screen_view(*final(s)) == screen_view(*old(s)),
;

/// The rows of `cells` after rows `top..=bottom` move up by `n` (at most the
/// region's height), with rows of `fill` coming in at the bottom.
pub open spec fn rows_scrolled_up(
    cells: Seq<Seq<GridCell>>,
    cols: nat,
    top: int,
    bottom: int,
    n: int,
    fill: GridCell,
) -> Seq<Seq<GridCell>> {
    let k = if n < bottom - top + 1 { n } else { bottom - top + 1 };
    Seq::new(
        cells.len(),
        |r: int|
            if top <= r <= bottom {
                if r + k <= bottom {
                    cells[r + k]
                } else {
                    row_of(cols, fill)
                }
            } else {
                cells[r]
            },
    )
}

/// The rows of `cells` after rows `top..=bottom` move down by `n` (at most the
/// region's height), with rows of `fill` coming in at the top.
pub open spec fn rows_scrolled_down(
    cells: Seq<Seq<GridCell>>,
    cols: nat,
    top: int,
    bottom: int,
    n: int,
    fill: GridCell,
) -> Seq<Seq<GridCell>> {
    let k = if n < bottom - top + 1 { n } else { bottom - top + 1 };
    Seq::new(
        cells.len(),
        |r: int|
            if top <= r <= bottom {
                if r >= top + k {
                    cells[r - k]
                } else {
                    row_of(cols, fill)
                }
            } else {
                cells[r]
            },
    )
}

/// `Screen::scroll_rows_up`: rows `top..=bottom` move up by `n`; an empty or
/// out-of-range region, or `n == 0`, changes nothing.
pub assume_specification[ansi::Screen::scroll_rows_up](
    s: &mut ansi::Screen,
    top: usize,
    bottom: usize,
    n: usize,
    fill: ansi::Cell,
)
    ensures
        (top > bottom || bottom >= screen_view(*old(s)).cells.len() || n == 0) ==> screen_view(
            *final(s),
        ) == screen_view(*old(s)),
        !(top > bottom || bottom >= screen_view(*old(s)).cells.len() || n == 0) ==> screen_view(
            *final(s),
        ) == (Grid {
            cells: rows_scrolled_up(
                screen_view(*old(s)).cells,
                screen_view(*old(s)).cols,
                top as int,
                bottom as int,
                n as int,
                cell_model(fill),
            ),
            ..screen_view(*old(s))
        }),
;

/// `Screen::scroll_rows_down`: the mirror of `scroll_rows_up`.
pub assume_specification[ansi::Screen::scroll_rows_down](
    s: &mut ansi::Screen,
    top: usize,
    bottom: usize,
    n: usize,
    fill: ansi::Cell,
)
    ensures
        (top > bottom || bottom >= screen_view(*old(s)).cells.len() || n == 0) ==> screen_view(
            *final(s),
        ) == screen_view(*old(s)),
        !(top > bottom || bottom >= screen_view(*old(s)).cells.len() || n == 0) ==> screen_view(
            *final(s),
        ) == (Grid {
            cells: rows_scrolled_down(
                screen_view(*old(s)).cells,
                screen_view(*old(s)).cols,
                top as int,
                bottom as int,
                n as int,
                cell_model(fill),
            ),
            ..screen_view(*old(s))
        }),
;

/// `Screen::cursor`: where the cursor rests, as `(row, col)`.
#[verifier::external_body]
pub(crate) fn cursor_of(s: &ansi::Screen) -> (rc: (usize, usize))
    ensures
        rc.0 == screen_view(*s).row,
        rc.1 == screen_view(*s).col,
{
    let c = s.cursor();
    (c.row, c.col)
}

/// `Screen::set_cursor`: move the cursor, clamped onto the grid.
#[verifier::external_body]
pub(crate) fn put_cursor(s: &mut ansi::Screen, row: usize, col: usize)
    requires
        screen_view(*old(s)).cells.len() > 0,
        screen_view(*old(s)).cols > 0,
    ensures
        screen_view(*final(s)) == (Grid {
            row: if row < screen_view(*old(s)).cells.len() {
                row as nat
            } else {
                (screen_view(*old(s)).cells.len() - 1) as nat
            },
            col: if col < screen_view(*old(s)).cols {
                col as nat
            } else {
                (screen_view(*old(s)).cols - 1) as nat
            },
            ..screen_view(*old(s))
        }),
{
    s.set_cursor(ansi::Cursor::new(row, col))
}

/// `Screen::clone`: a screen showing the same thing.
#[verifier::external_body]
pub(crate) fn copy_screen(s: &ansi::Screen) -> (c: ansi::Screen)
    ensures
        screen_view(c) == screen_view(*s),
{
    s.clone()
}

// ---- cells and styles -------------------------------------------------------

/// An `ansi::Style` with the fields of `s`.
#[verifier::external_body]
pub(crate) fn to_ansi_style(s: &TextStyle) -> (r: ansi::Style)
    ensures
        style_model(r) == *s,
{
    let c = |c: Color| match c {
        Color::Default => ansi::Color::Default,
        Color::Indexed(i) => ansi::Color::Indexed(i),
        Color::Rgb(r, g, b) => ansi::Color::Rgb(r, g, b),
    };
    ansi::Style { fg: c(s.fg), bg: c(s.bg), bold: s.bold, dim: s.dim, italic: s.italic,
        underline: s.underline, reverse: s.reverse, strike: s.strike }
}

/// The fields of an `ansi::Style`.
#[verifier::external_body]
pub(crate) fn from_ansi_style(s: ansi::Style) -> (r: TextStyle)
    ensures
        r == style_model(s),
{
    let c = |c: ansi::Color| match c {
        ansi::Color::Default => Color::Default,
        ansi::Color::Indexed(i) => Color::Indexed(i),
        ansi::Color::Rgb(r, g, b) => Color::Rgb(r, g, b),
    };
    TextStyle { fg: c(s.fg), bg: c(s.bg), bold: s.bold, dim: s.dim, italic: s.italic,
        underline: s.underline, reverse: s.reverse, strike: s.strike }
}

/// An `ansi::Cell` holding `ch` in `style`, `width` columns wide.
#[verifier::external_body]
pub(crate) fn to_ansi_cell(ch: char, style: ansi::Style, width: CellWidth) -> (r: ansi::Cell)
    ensures
        cell_model(r) == (GridCell { ch, style: style_model(style), width }),
{
    ansi::Cell {
        ch,
        style,
        width: match width {
            CellWidth::Continuation => ansi::CellWidth::Continuation,
            CellWidth::Single => ansi::CellWidth::Single,
            CellWidth::Wide => ansi::CellWidth::Wide,
        },
    }
}

/// The fields of an `ansi::Cell`.
#[verifier::external_body]
pub(crate) fn from_ansi_cell(c: ansi::Cell) -> (r: (char, ansi::Style, CellWidth))
    ensures
        (GridCell { ch: r.0, style: style_model(r.1), width: r.2 }) == cell_model(c),
{
    let width = match c.width {
        ansi::CellWidth::Continuation => CellWidth::Continuation,
        ansi::CellWidth::Single => CellWidth::Single,
        ansi::CellWidth::Wide => CellWidth::Wide,
    };
    (c.ch, c.style, width)
}

/// `TextStyle::apply_sgr`: apply SGR parameters as a terminal would. An empty
/// list, or a lone 0, resets to the default style.
pub assume_specification[ansi::Style::apply_sgr](s: &mut ansi::Style, params: &[u16])
    ensures
        style_model(*final(s)) == sgr_applied(style_model(*old(s)), params@),
        params@.len() == 0 ==> style_model(*final(s)) == plain_style(),
        params@ == seq![0u16] ==> style_model(*final(s)) == plain_style(),
;

// ---- the tokenizer ----------------------------------------------------------

/// `Parser::new`: a parser in the ground state, which behaves (in what it
/// reports and in whether it ends in the ground state) as any parser in the
/// ground state does. Fed nothing, it reports nothing and stays in the
/// ground state.
pub assume_specification[ansi::Parser::new]() -> (p: ansi::Parser)
    ensures
        parser_at_ground(p),
        forall|input: Seq<u8>| #[trigger] parser_lex(p, input) == ground_lex(input),
        forall|input: Seq<u8>| #[trigger] parser_rests(p, input) == ground_rests(input),
        parser_lex(p, Seq::empty()) == Seq::<Lexeme>::empty(),
        parser_rests(p, Seq::empty()),
;

/// `char::from_u32`: the character with code `v`, if `v` is a Unicode
/// scalar value (below 0x110000 and not a surrogate).
#[verifier::external_body]
pub(crate) fn char_from_u32(v: u32) -> (c: Option<char>)
    ensures
        c == if v < 0xD800 || (0xE000 <= v && v < 0x110000) {
            Some(v as char)
        } else {
            None::<char>
        },
{
    char::from_u32(v)
}

/// Whether a parser is in the ground state: no escape sequence or string
/// open.
pub uninterp spec fn parser_at_ground(p: ansi::Parser) -> bool;

/// Whether `parser`, in its present state, is in the ground state after
/// being fed `input`.
pub uninterp spec fn parser_rests(parser: ansi::Parser, input: Seq<u8>) -> bool;

/// Whether a parser in the ground state is in the ground state again after
/// being fed `input`.
pub uninterp spec fn ground_rests(input: Seq<u8>) -> bool;

/// `Parser::is_ground`: no escape sequence or string is open, so the parser
/// behaves exactly as a fresh one.
pub assume_specification[ansi::Parser::is_ground](p: &ansi::Parser) -> (g: bool)
    ensures
        g == parser_at_ground(*p),
        g == parser_rests(*p, Seq::empty()),
        g ==> forall|input: Seq<u8>| #[trigger] parser_lex(*p, input) == ground_lex(input),
        g ==> forall|input: Seq<u8>| #[trigger] parser_rests(*p, input) == ground_rests(input),
;

/// `Parser::feed_with`, with each event copied into an owned [`Event`].
/// Chunks may split the stream anywhere: what one call reports, followed by
/// what the parser reports afterwards, is what it would have reported for the
/// whole input, text runs taken byte by byte; and whether it ends in the
/// ground state after further input is what it would have been after the
/// whole. Fed nothing afterwards, it reports nothing and its state stands.
#[verifier::external_body]
pub(crate) fn lex_chunk(parser: &mut ansi::Parser, bytes: &[u8]) -> (events: Vec<Event>)
    ensures
        forall|more: Seq<u8>| #[trigger]
            parser_lex(*old(parser), bytes@ + more) == lexemes_of(events@) + parser_lex(
                *final(parser),
                more,
            ),
        parser_lex(*final(parser), Seq::empty()) == Seq::<Lexeme>::empty(),
        parser_at_ground(*final(parser)) ==> forall|input: Seq<u8>| #[trigger]
            parser_lex(*final(parser), input) == ground_lex(input),
        forall|more: Seq<u8>| #[trigger]
            parser_rests(*old(parser), bytes@ + more) == parser_rests(*final(parser), more),
        parser_rests(*final(parser), Seq::empty()) == parser_at_ground(*final(parser)),
        parser_at_ground(*final(parser)) ==> forall|input: Seq<u8>| #[trigger]
            parser_rests(*final(parser), input) == ground_rests(input),
{
    let mut out = Vec::new();
    parser.feed_with(bytes, |e| out.push(match e {
        ansi::Event::Text(b) => Event::Text(b.to_vec()),
        ansi::Event::Control(b) => Event::Control(b),
        ansi::Event::Csi { private, params, final_byte, .. } => Event::Csi { private, params: params.to_vec(), final_byte },
        ansi::Event::Esc { final_byte, .. } => Event::Esc { final_byte },
        ansi::Event::Osc(_) => Event::Osc,
        ansi::Event::Other { .. } => Event::Other,
    }));
    out
}

/// `Utf8Decoder::new`: a decoder holding nothing.
pub assume_specification[ansi::Utf8Decoder::new]() -> (d: ansi::Utf8Decoder)
    ensures
        decoder_held(d) == Seq::<u8>::empty(),
;

/// `Utf8Decoder::is_pending`: an incomplete character is held.
pub assume_specification[ansi::Utf8Decoder::is_pending](d: &ansi::Utf8Decoder) -> (p: bool)
    ensures
        p == (decoder_held(*d).len() > 0),
;

/// Append a piece of decoded text.
pub fn append_text(out: &mut String, piece: &str)
    ensures
        final(out)@ == old(out)@ + piece@,
{
    out.append(piece);
}

/// `Utf8Decoder::decode`, collecting the pieces into one string. It decodes
/// the bytes held from the last chunk followed by `bytes`, exactly as a fresh
/// decoder would, and holds back a final incomplete character; so decoding
/// in chunks gives what decoding at once does.
#[verifier::external_body]
pub(crate) fn decode_chunk(d: &mut ansi::Utf8Decoder, bytes: &[u8]) -> (text: String)
    ensures
        (text@, decoder_held(*final(d))) == utf8_decode(decoder_held(*old(d)) + bytes@),
        forall|more: Seq<u8>| #[trigger]
            utf8_decode(decoder_held(*old(d)) + bytes@ + more) == (text@ + utf8_decode(
                decoder_held(*final(d)) + more,
            ).0, utf8_decode(decoder_held(*final(d)) + more).1),
{
    let mut text = String::new();
    d.decode(bytes, |piece| append_text(&mut text, piece));
    text
}

/// `Utf8Decoder::flush_incomplete`, collecting what it emits: U+FFFD in
/// place of a held incomplete character, nothing when none is held. The
/// decoder then holds nothing.
#[verifier::external_body]
pub(crate) fn flush_pending(d: &mut ansi::Utf8Decoder) -> (text: String)
    ensures
        text@ == if decoder_held(*old(d)).len() > 0 {
            seq![replacement_char()]
        } else {
            Seq::<char>::empty()
        },
        decoder_held(*final(d)) == Seq::<u8>::empty(),
{
    let mut text = String::new();
    d.flush_incomplete(|piece| append_text(&mut text, piece));
    text
}

} // verus!
