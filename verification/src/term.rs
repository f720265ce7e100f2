//! The terminal emulator: bytes in, a live [`ansi::Screen`] out.
//!
//! [`Term`] holds a primary and an alternate screen, the current style, a
//! scroll region, tab stops, a saved-cursor slot, the flags a VT100 tracks
//! (autowrap, cursor visibility, new-line mode and the pending-wrap latch at
//! the right edge), the last complete frame while a synchronized update is
//! open, and the tokenizer. Each operation is proved to do to the state what
//! the matching [`TermModel`] transition says.
//!
//! Coordinates are 0-based; CSI parameters are 1-based on the wire and
//! converted on the way in.

use vstd::prelude::*;
use crate::cell::{
    CellWidth, TextStyle, blank_cell, char_is_wide, default_style, replacement_char,
};
use crate::lex::{Event, Lexeme, byte_lexemes, event_lexemes, lexemes_of};
use crate::model::{
    Grid, TermModel, blank_grid_of, default_tab_stops, display_above, display_hit, fits,
    fresh_model, lemma_blank_compose, lemma_blank_nothing, lemma_blank_one, lemma_fits_bounds,
    lemma_print_all_append, lemma_same_blanking, lemma_scrolled_size, lemma_text_run_join,
    lemma_text_run_len, line_hit, param0, param1, partial_copy, resized_grid, run, run_bytes, run_held,
    span, tab_stop_from, text_run_len,
};
use crate::outside::{
    cell_model, copy_screen, cursor_of, decode_chunk, decoder_held, flush_pending,
    from_ansi_style, ground_lex, ground_rests, lex_chunk, parser_at_ground, parser_lex,
    parser_rests, put_cursor,
    rows_scrolled_down, rows_scrolled_up, screen_view, sgr_applied, to_ansi_cell, to_ansi_style,
    utf8_decode,
};

pub mod checkpoint;

verus! {

/// A minimal VT100/ECMA-48 terminal emulator over an [`ansi::Screen`].
pub struct Term {
    pub(crate) primary: ansi::Screen,
    pub(crate) alt: ansi::Screen,
    pub(crate) in_alt: bool,
    pub(crate) style: TextStyle,
    pub(crate) scroll_top: usize,
    pub(crate) scroll_bottom: usize,
    pub(crate) saved: Option<(usize, usize, TextStyle)>,
    pub(crate) tabs: Vec<bool>,
    pub(crate) wrap_pending: bool,
    pub(crate) autowrap: bool,
    pub(crate) cursor_visible: bool,
    pub(crate) sync_frame: Option<ansi::Screen>,
    pub(crate) newline_mode: bool,
    pub(crate) parser: ansi::Parser,
    pub(crate) decoder: ansi::Utf8Decoder,
}

/// The saved cursor as the model holds it.
pub open spec fn saved_model(s: Option<(usize, usize, TextStyle)>) -> Option<(nat, nat, TextStyle)> {
    match s {
        Some((r, c, st)) => Some((r as nat, c as nat, st)),
        None => None,
    }
}

/// A synchronized frame as the model holds it.
pub open spec fn frame_model(f: Option<ansi::Screen>) -> Option<Grid> {
    match f {
        Some(s) => Some(screen_view(s)),
        None => None,
    }
}

/// `t1` is `t0` after being fed `bytes`: its state is what `t0` makes of
/// them, and whatever follows lands on it as it would have on `t0` after
/// `bytes`. So the split between chunks leaves no trace.
pub open spec fn fed(t0: Term, bytes: Seq<u8>, t1: Term) -> bool {
    &&& t1@ == t0.after(bytes)
    &&& forall|more: Seq<u8>| #[trigger] t1.after(more) == t0.after(bytes + more)
    &&& forall|more: Seq<u8>| #[trigger] t1.rests_after(more) == t0.rests_after(bytes + more)
}

/// Feeding `a` and then `b` is feeding `a + b` at once: chunk boundaries,
/// wherever they fall (mid-escape, mid-UTF-8), do not change the result.
pub proof fn lemma_feed_in_chunks(t0: Term, t1: Term, t2: Term, a: Seq<u8>, b: Seq<u8>)
    requires
        fed(t0, a, t1),
        fed(t1, b, t2),
    ensures
        fed(t0, a + b, t2),
        t2@ == t0.after(a + b),
{
    assert forall|more: Seq<u8>| #[trigger] t2.after(more) == t0.after((a + b) + more) by {
        assert(t2.after(more) == t1.after(b + more));
        assert(t1.after(b + more) == t0.after(a + (b + more)));
        assert(a + (b + more) =~= (a + b) + more);
    }
    assert forall|more: Seq<u8>| #[trigger] t2.rests_after(more) == t0.rests_after((a + b) + more) by {
        assert(t2.rests_after(more) == t1.rests_after(b + more));
        assert(t1.rests_after(b + more) == t0.rests_after(a + (b + more)));
        assert(a + (b + more) =~= (a + b) + more);
    }
}

/// After a feed the tokenizer is at rest exactly when the terminal it was
/// fed from said it would be after those bytes.
pub proof fn lemma_at_rest_after_feed(t0: Term, bytes: Seq<u8>, t1: Term)
    requires
        t1.wf(),
        fed(t0, bytes, t1),
    ensures
        t1.at_rest() == t0.rests_after(bytes),
{
    assert(bytes + Seq::<u8>::empty() =~= bytes);
    assert(t1.rests_after(Seq::empty()) == t0.rests_after(bytes + Seq::empty()));
}

/// Feeding `a` and then `b` leaves the same state, and a tokenizer at rest
/// exactly when, as feeding `a + b` at once: so the two terminals show the
/// same screen and give the same checkpoint.
pub proof fn lemma_chunked_matches_whole(
    t0: Term,
    t1: Term,
    t2: Term,
    t3: Term,
    a: Seq<u8>,
    b: Seq<u8>,
)
    requires
        t2.wf(),
        t3.wf(),
        fed(t0, a, t1),
        fed(t1, b, t2),
        fed(t0, a + b, t3),
    ensures
        t2@ == t3@,
        t2.at_rest() == t3.at_rest(),
{
    lemma_feed_in_chunks(t0, t1, t2, a, b);
    lemma_at_rest_after_feed(t0, a + b, t2);
    lemma_at_rest_after_feed(t0, a + b, t3);
}

/// Two terminals in the same state with fresh tokenizers (two new ones, say)
/// take any input alike: the same state after it, and at rest alike.
pub proof fn lemma_fresh_alike(t: Term, u: Term)
    requires
        t.tokenizer_fresh(),
        u.tokenizer_fresh(),
        t@ == u@,
    ensures
        forall|x: Seq<u8>| #[trigger] t.after(x) == u.after(x),
        forall|x: Seq<u8>| #[trigger] t.rests_after(x) == u.rests_after(x),
{
    assert forall|x: Seq<u8>| #[trigger] t.after(x) == u.after(x) by {
        assert(parser_lex(t.parser, x) == parser_lex(u.parser, x));
        assert(decoder_held(t.decoder) =~= decoder_held(u.decoder));
    }
    assert forall|x: Seq<u8>| #[trigger] t.rests_after(x) == u.rests_after(x) by {
        assert(parser_lex(t.parser, x) == parser_lex(u.parser, x));
        assert(parser_rests(t.parser, x) == parser_rests(u.parser, x));
        assert(decoder_held(t.decoder) =~= decoder_held(u.decoder));
    }
}

/// A consistent terminal's state is consistent (see [`TermModel::wf`]):
/// both screens the same size, the cursor, scroll region and tab stops
/// within it.
pub proof fn lemma_wf_model(t: Term)
    requires
        t.wf(),
    ensures
        t@.wf(),
{
}

/// Feeding an empty chunk changes nothing.
pub proof fn lemma_feed_nothing(t0: Term, t1: Term)
    requires
        t0.wf(),
        fed(t0, Seq::empty(), t1),
    ensures
        t1@ == t0@,
{
}

impl View for Term {
    type V = TermModel;

    closed spec fn view(&self) -> TermModel {
        TermModel {
            primary: screen_view(self.primary),
            alt: screen_view(self.alt),
            in_alt: self.in_alt,
            style: self.style,
            scroll_top: self.scroll_top as nat,
            scroll_bottom: self.scroll_bottom as nat,
            saved: saved_model(self.saved),
            tabs: self.tabs@,
            wrap_pending: self.wrap_pending,
            autowrap: self.autowrap,
            cursor_visible: self.cursor_visible,
            sync_frame: frame_model(self.sync_frame),
            newline_mode: self.newline_mode,
        }
    }
}

/// The blank cell as an `ansi::Cell`.
pub(crate) fn ansi_blank() -> (c: ansi::Cell)
    ensures
        cell_model(c) == blank_cell(),
{
    let st = to_ansi_style(&default_style());
    to_ansi_cell(' ', st, CellWidth::Single)
}

/// Tab stops every 8 columns (the VT default), with a stop at column 0.
pub fn default_tabs(cols: usize) -> (tabs: Vec<bool>)
    ensures
        tabs@ == default_tab_stops(cols as nat),
{
    let mut tabs: Vec<bool> = Vec::new();
    let mut c: usize = 0;
    while c < cols
        invariant
            c <= cols,
            tabs@ == default_tab_stops(c as nat),
        decreases cols - c,
    {
        tabs.push(c % 8 == 0);
        c += 1;
        assert(tabs@ =~= default_tab_stops(c as nat));
    }
    tabs
}

/// Parameter `i`, with a missing or zero parameter read as 1 (the VT default
/// for motion counts and coordinates).
pub fn at1(params: &[u16], i: usize) -> (v: usize)
    ensures
        v == param1(params@, i as int),
        1 <= v <= 65535,
{
    if i < params.len() && params[i] != 0 {
        params[i] as usize
    } else {
        1
    }
}

/// Parameter `i`, with a missing parameter read as 0 (the VT default for
/// selectors).
pub fn at0(params: &[u16], i: usize) -> (v: u16)
    ensures
        v == param0(params@, i as int),
{
    if i < params.len() {
        params[i]
    } else {
        0
    }
}

/// Copy what fits of the top-left corner of `src` into the blank `dst`.
pub(crate) fn copy_top_left(src: &ansi::Screen, dst: &mut ansi::Screen)
    requires
        screen_view(*src).has_size(screen_view(*src).cells.len(), screen_view(*src).cols),
        screen_view(*old(dst)) == blank_grid_of(
            screen_view(*old(dst)).cells.len(),
            screen_view(*old(dst)).cols,
        ),
    ensures
        screen_view(*final(dst)) == (Grid {
            cells: resized_grid(
                screen_view(*src),
                screen_view(*old(dst)).cells.len(),
                screen_view(*old(dst)).cols,
            ).cells,
            ..screen_view(*old(dst))
        }),
{
    let ghost g = screen_view(*src);
    let ghost d0 = screen_view(*dst);
    let src_rows = src.rows();
    let src_cols = src.cols();
    let rows = dst.rows();
    let cols = dst.cols();
    let nr = if src_rows < rows { src_rows } else { rows };
    let nc = if src_cols < cols { src_cols } else { cols };
    proof {
        let a = partial_copy(g, rows as nat, cols as nat, 0, 0);
        assert forall|x: int| 0 <= x < rows implies #[trigger] a[x] =~= d0.cells[x] by {}
        assert(a =~= d0.cells);
    }
    let mut r: usize = 0;
    while r < nr
        invariant
            g == screen_view(*src),
            g.has_size(src_rows as nat, src_cols as nat),
            rows == d0.cells.len(),
            cols == d0.cols,
            nr <= rows,
            nr <= src_rows,
            nc <= cols,
            nc <= src_cols,
            nr == rows || nr == src_rows,
            nc == cols || nc == src_cols,
            r <= nr,
            screen_view(*dst) == (Grid { cells: partial_copy(g, rows as nat, cols as nat, r as int, 0), ..d0 }),
        decreases nr - r,
    {
        let mut c: usize = 0;
        while c < nc
            invariant
                g == screen_view(*src),
                g.has_size(src_rows as nat, src_cols as nat),
                rows == d0.cells.len(),
                cols == d0.cols,
                nr <= rows,
                nr <= src_rows,
                nc <= cols,
                nc <= src_cols,
                nc == cols || nc == src_cols,
                r < nr,
                c <= nc,
                screen_view(*dst) == (Grid {
                    cells: partial_copy(g, rows as nat, cols as nat, r as int, c as int),
                    ..d0
                }),
            decreases nc - c,
        {
            let cell = src.cell(r, c);
            dst.set(r, c, cell);
            proof {
                let want = partial_copy(g, rows as nat, cols as nat, r as int, c + 1);
                let before = partial_copy(g, rows as nat, cols as nat, r as int, c as int);
                let after = before.update(r as int, before[r as int].update(c as int, g.cells[r as int][c as int]));
                assert forall|x: int| 0 <= x < rows implies #[trigger] after[x] =~= want[x] by {}
                assert(after =~= want);
            }
            c += 1;
        }
        proof {
            let a = partial_copy(g, rows as nat, cols as nat, r as int, nc as int);
            let b = partial_copy(g, rows as nat, cols as nat, r + 1, 0);
            assert forall|x: int| 0 <= x < rows implies #[trigger] a[x] =~= b[x] by {}
            assert(a =~= b);
        }
        r += 1;
    }
    proof {
        let a = partial_copy(g, rows as nat, cols as nat, nr as int, 0);
        let b = resized_grid(g, rows as nat, cols as nat).cells;
        assert forall|x: int| 0 <= x < rows implies #[trigger] a[x] =~= b[x] by {}
        assert(a =~= b);
    }
}

impl Term {
    /// The state is consistent (see [`TermModel::wf`]), and the parser holds
    /// nothing back that it would report without further input.
    pub closed spec fn wf(&self) -> bool {
        &&& self@.wf()
        &&& parser_lex(self.parser, Seq::empty()) == Seq::<Lexeme>::empty()
        &&& parser_at_ground(self.parser) ==> forall|input: Seq<u8>| #[trigger]
            parser_lex(self.parser, input) == ground_lex(input)
        &&& parser_rests(self.parser, Seq::empty()) == parser_at_ground(self.parser)
        &&& parser_at_ground(self.parser) ==> forall|input: Seq<u8>| #[trigger]
            parser_rests(self.parser, input) == ground_rests(input)
    }

    /// A blank emulator of `rows x cols` (both clamped to at least 1), cursor
    /// at the origin, full-height scroll region, tab stops every 8 columns,
    /// autowrap on, cursor visible.
    pub fn new(rows: usize, cols: usize) -> (t: Term)
        requires
            fits(if rows == 0 { 1 } else { rows as nat }, if cols == 0 { 1 } else { cols as nat }),
        ensures
            t.wf(),
            t@ == fresh_model(
                if rows == 0 { 1 } else { rows as nat },
                if cols == 0 { 1 } else { cols as nat },
            ),
            t.tokenizer_fresh(),
            t.at_rest(),
    {
        let rows = if rows == 0 { 1 } else { rows };
        let cols = if cols == 0 { 1 } else { cols };
        proof {
            lemma_fits_bounds(rows as nat, cols as nat);
        }
        let t = Term {
            primary: ansi::Screen::new(rows, cols),
            alt: ansi::Screen::new(rows, cols),
            in_alt: false,
            style: default_style(),
            scroll_top: 0,
            scroll_bottom: rows - 1,
            saved: None,
            tabs: default_tabs(cols),
            wrap_pending: false,
            autowrap: true,
            cursor_visible: true,
            sync_frame: None,
            newline_mode: false,
            parser: ansi::Parser::new(),
            decoder: ansi::Utf8Decoder::new(),
        };
        assert(t@ =~= fresh_model(rows as nat, cols as nat));
        t
    }

    /// `self` and `other` hold the same tokenizer state.
    pub closed spec fn same_tokenizer(&self, other: Term) -> bool {
        self.parser == other.parser && self.decoder == other.decoder
    }

    /// The bytes of an incomplete UTF-8 character the decoder holds.
    pub closed spec fn held(&self) -> Seq<u8> {
        decoder_held(self.decoder)
    }

    /// `self` and `other` hold the same parser state.
    pub closed spec fn same_parser(&self, other: Term) -> bool {
        self.parser == other.parser
    }

    /// The tokenizer is as a fresh one: the parser in the ground state and no
    /// partial character held.
    pub closed spec fn tokenizer_fresh(&self) -> bool {
        &&& parser_at_ground(self.parser)
        &&& forall|input: Seq<u8>| #[trigger]
            parser_lex(self.parser, input) == ground_lex(input)
        &&& forall|input: Seq<u8>| #[trigger]
            parser_rests(self.parser, input) == ground_rests(input)
        &&& decoder_held(self.decoder) == Seq::<u8>::empty()
    }

    /// The tokenizer is between sequences and holds no half-decoded
    /// character: a fresh tokenizer would behave exactly as this one.
    pub closed spec fn at_rest(&self) -> bool {
        parser_at_ground(self.parser) && decoder_held(self.decoder).len() == 0
    }

    /// Whether the tokenizer would be at rest (the parser between sequences,
    /// no character half-decoded) after being fed `input` next.
    pub closed spec fn rests_after(&self, input: Seq<u8>) -> bool {
        &&& parser_rests(self.parser, input)
        &&& run_held(decoder_held(self.decoder), parser_lex(self.parser, input)).len() == 0
    }

    /// What the emulator's state would become on being fed `input` next: its
    /// parser's lexemes for `input` run from the present state, the decoder
    /// holding what it holds now.
    pub closed spec fn after(&self, input: Seq<u8>) -> TermModel {
        run(self@, decoder_held(self.decoder), parser_lex(self.parser, input))
    }

    // ---- access to the active screen ----------------------------------------

    pub(crate) fn rows(&self) -> (r: usize)
        requires
            self.wf(),
        ensures
            r == self@.rows(),
    {
        self.primary.rows()
    }

    pub(crate) fn cols(&self) -> (c: usize)
        requires
            self.wf(),
        ensures
            c == self@.cols(),
    {
        self.primary.cols()
    }

    /// The cursor, `(row, col)`.
    pub(crate) fn cursor(&self) -> (rc: (usize, usize))
        requires
            self.wf(),
        ensures
            rc.0 == self@.row(),
            rc.1 == self@.col(),
            rc.0 < self@.rows(),
            rc.1 < self@.cols(),
    {
        if self.in_alt {
            cursor_of(&self.alt)
        } else {
            cursor_of(&self.primary)
        }
    }

    /// Move the cursor to `(r, c)`, on the grid.
    pub(crate) fn goto(&mut self, r: usize, c: usize)
        requires
            old(self).wf(),
            r < old(self)@.rows(),
            c < old(self)@.cols(),
        ensures
            final(self).wf(),
            final(self)@.rows() == old(self)@.rows(),
            final(self)@.cols() == old(self)@.cols(),
            final(self)@ == old(self)@.goto(r as int, c as int),
            final(self).same_tokenizer(*old(self)),
    {
        if self.in_alt {
            put_cursor(&mut self.alt, r, c);
        } else {
            put_cursor(&mut self.primary, r, c);
        }
        assert(self@ =~= old(self)@.goto(r as int, c as int));
    }

    /// Replace the cell at `(r, c)` of the active screen.
    pub(crate) fn put(&mut self, r: usize, c: usize, cell: ansi::Cell)
        requires
            old(self).wf(),
            r < old(self)@.rows(),
            c < old(self)@.cols(),
        ensures
            final(self).wf(),
            final(self)@.rows() == old(self)@.rows(),
            final(self)@.cols() == old(self)@.cols(),
            final(self)@ == old(self)@.put(r as int, c as int, cell_model(cell)),
            final(self).same_tokenizer(*old(self)),
    {
        if self.in_alt {
            self.alt.set(r, c, cell);
        } else {
            self.primary.set(r, c, cell);
        }
        assert(self@ =~= old(self)@.put(r as int, c as int, cell_model(cell)));
    }

    /// The cell at `(r, c)` of the active screen.
    pub(crate) fn cell_at(&self, r: usize, c: usize) -> (cell: ansi::Cell)
        requires
            self.wf(),
            r < self@.rows(),
            c < self@.cols(),
        ensures
            cell_model(cell) == self@.active().cells[r as int][c as int],
    {
        if self.in_alt {
            self.alt.cell(r, c)
        } else {
            self.primary.cell(r, c)
        }
    }

    /// Scroll rows `top..=bottom` of the active screen up (or down) by `n`,
    /// blank lines coming in.
    pub(crate) fn scroll_active(&mut self, up: bool, top: usize, bottom: usize, n: usize)
        requires
            old(self).wf(),
            top <= bottom < old(self)@.rows(),
            n > 0,
        ensures
            final(self).wf(),
            final(self)@.rows() == old(self)@.rows(),
            final(self)@.cols() == old(self)@.cols(),
            final(self)@ == old(self)@.with_active(
                Grid {
                    cells: if up {
                        rows_scrolled_up(
                            old(self)@.active().cells,
                            old(self)@.cols(),
                            top as int,
                            bottom as int,
                            n as int,
                            blank_cell(),
                        )
                    } else {
                        rows_scrolled_down(
                            old(self)@.active().cells,
                            old(self)@.cols(),
                            top as int,
                            bottom as int,
                            n as int,
                            blank_cell(),
                        )
                    },
                    ..old(self)@.active()
                },
            ),
            final(self).same_tokenizer(*old(self)),
    {
        let fill = ansi_blank();
        proof {
            lemma_scrolled_size(
                old(self)@.active(),
                old(self)@.rows(),
                old(self)@.cols(),
                top as int,
                bottom as int,
                n as int,
                blank_cell(),
            );
        }
        if self.in_alt {
            if up {
                self.alt.scroll_rows_up(top, bottom, n, fill);
            } else {
                self.alt.scroll_rows_down(top, bottom, n, fill);
            }
        } else {
            if up {
                self.primary.scroll_rows_up(top, bottom, n, fill);
            } else {
                self.primary.scroll_rows_down(top, bottom, n, fill);
            }
        }
        assert(self@ =~= old(self)@.with_active(screen_view(if self.in_alt { self.alt } else { self.primary })));
    }

    /// Scroll the scroll region up `n` lines.
    pub(crate) fn scroll_up(&mut self, n: usize)
        requires
            old(self).wf(),
        ensures
            final(self).wf(),
            final(self)@.rows() == old(self)@.rows(),
            final(self)@.cols() == old(self)@.cols(),
            final(self)@ == old(self)@.scroll_up(n as int),
            final(self).same_tokenizer(*old(self)),
    {
        if n > 0 {
            let (top, bottom) = (self.scroll_top, self.scroll_bottom);
            self.scroll_active(true, top, bottom, n);
        }
    }

    /// Scroll the scroll region down `n` lines.
    pub(crate) fn scroll_down(&mut self, n: usize)
        requires
            old(self).wf(),
        ensures
            final(self).wf(),
            final(self)@.rows() == old(self)@.rows(),
            final(self)@.cols() == old(self)@.cols(),
            final(self)@ == old(self)@.scroll_down(n as int),
            final(self).same_tokenizer(*old(self)),
    {
        if n > 0 {
            let (top, bottom) = (self.scroll_top, self.scroll_bottom);
            self.scroll_active(false, top, bottom, n);
        }
    }

    /// Down one line; at the bottom margin the scroll region scrolls up.
    pub(crate) fn line_feed(&mut self)
        requires
            old(self).wf(),
        ensures
            final(self).wf(),
            final(self)@.rows() == old(self)@.rows(),
            final(self)@.cols() == old(self)@.cols(),
            final(self)@ == old(self)@.line_feed(),
            final(self).same_tokenizer(*old(self)),
    {
        let (r, c) = self.cursor();
        if r == self.scroll_bottom {
            self.scroll_up(1);
        } else if r + 1 < self.rows() {
            self.goto(r + 1, c);
        }
    }

    /// A single-width character at the cursor.
    pub(crate) fn print_narrow(&mut self, ch: char)
        requires
            old(self).wf(),
        ensures
            final(self).wf(),
            final(self)@.rows() == old(self)@.rows(),
            final(self)@.cols() == old(self)@.cols(),
            final(self)@ == old(self)@.print_narrow(ch),
            final(self).same_tokenizer(*old(self)),
    {
        let (r, c) = self.cursor();
        let cols = self.cols();
        let st = to_ansi_style(&self.style);
        let cell = to_ansi_cell(ch, st, CellWidth::Single);
        self.put(r, c, cell);
        if c + 1 >= cols {
            if self.autowrap {
                self.wrap_pending = true;
            }
        } else {
            self.goto(r, c + 1);
        }
    }

    /// At the last column, make room for a double-width character.
    pub(crate) fn room_for_wide(&mut self)
        requires
            old(self).wf(),
            old(self)@.cols() >= 2,
        ensures
            final(self).wf(),
            final(self)@.rows() == old(self)@.rows(),
            final(self)@.cols() == old(self)@.cols(),
            final(self)@ == old(self)@.room_for_wide(),
            final(self).same_tokenizer(*old(self)),
    {
        let cols = self.cols();
        let (r, c) = self.cursor();
        if c + 1 >= cols {
            if self.autowrap {
                self.goto(r, 0);
                self.line_feed();
            } else {
                self.goto(r, cols - 2);
            }
        }
    }

    /// The lead and continuation cells of a double-width character at the
    /// cursor, which has room for both.
    pub(crate) fn place_wide(&mut self, ch: char)
        requires
            old(self).wf(),
            old(self)@.col() + 1 < old(self)@.cols(),
        ensures
            final(self).wf(),
            final(self)@.rows() == old(self)@.rows(),
            final(self)@.cols() == old(self)@.cols(),
            final(self)@ == old(self)@.place_wide(ch),
            final(self).same_tokenizer(*old(self)),
    {
        let cols = self.cols();
        let (r, c) = self.cursor();
        let st = to_ansi_style(&self.style);
        let lead = to_ansi_cell(ch, st, CellWidth::Wide);
        let st2 = to_ansi_style(&self.style);
        let tail = to_ansi_cell(' ', st2, CellWidth::Continuation);
        self.put(r, c, lead);
        self.put(r, c + 1, tail);
        if c + 2 >= cols {
            self.goto(r, c + 1);
            if self.autowrap {
                self.wrap_pending = true;
            }
        } else {
            self.goto(r, c + 2);
        }
    }

    /// A double-width character: a lead cell and its continuation.
    pub(crate) fn print_wide(&mut self, ch: char)
        requires
            old(self).wf(),
            old(self)@.cols() >= 2,
        ensures
            final(self).wf(),
            final(self)@.rows() == old(self)@.rows(),
            final(self)@.cols() == old(self)@.cols(),
            final(self)@ == old(self)@.print_wide(ch),
            final(self).same_tokenizer(*old(self)),
    {
        self.room_for_wide();
        self.place_wide(ch);
    }

    /// Write one printable character at the cursor, honouring autowrap via
    /// the pending-wrap latch.
    pub fn print(&mut self, ch: char)
        requires
            old(self).wf(),
        ensures
            final(self).wf(),
            final(self)@.rows() == old(self)@.rows(),
            final(self)@.cols() == old(self)@.cols(),
            final(self)@ == old(self)@.print(ch),
            final(self).same_tokenizer(*old(self)),
    {
        if self.wrap_pending && self.autowrap {
            let (r, _c) = self.cursor();
            self.goto(r, 0);
            self.line_feed();
            self.wrap_pending = false;
        }
        if char_is_wide(ch) && self.cols() >= 2 {
            self.print_wide(ch);
        } else {
            self.print_narrow(ch);
        }
    }

    // ---- C0 controls and motion ---------------------------------------------

    /// The first tab stop right of the cursor, or the last column.
    pub(crate) fn next_tab_stop(&self) -> (t: usize)
        requires
            self.wf(),
        ensures
            t == tab_stop_from(self@.tabs, self@.col() + 1int, self@.cols() as int),
            t < self@.cols(),
    {
        let cols = self.cols();
        let (_r, col) = self.cursor();
        let mut c = col + 1;
        while c < cols
            invariant
                self.wf(),
                cols == self@.cols(),
                col == self@.col(),
                col + 1 <= c <= cols,
                tab_stop_from(self@.tabs, col + 1int, cols as int) == tab_stop_from(
                    self@.tabs,
                    c as int,
                    cols as int,
                ),
            decreases cols - c,
        {
            if self.tabs[c] {
                assert(self@.tabs[c as int]);
                return c;
            }
            c += 1;
        }
        cols - 1
    }

    /// Execute a C0 control: CR, LF/VT/FF (scrolling at the bottom margin,
    /// and returning the carriage in new-line mode), BS and HT; the others
    /// (BEL and the like) do nothing.
    #[verifier::rlimit(30)]
    pub fn control(&mut self, b: u8)
        requires
            old(self).wf(),
        ensures
            final(self).wf(),
            final(self)@.rows() == old(self)@.rows(),
            final(self)@.cols() == old(self)@.cols(),
            final(self)@ == old(self)@.control(b),
            final(self).same_tokenizer(*old(self)),
    {
        let (r, c) = self.cursor();
        if b == 0x0D {
            self.goto(r, 0);
            self.wrap_pending = false;
        } else if b == 0x0A || b == 0x0B || b == 0x0C {
            self.line_feed();
            if self.newline_mode {
                let (r2, _c2) = self.cursor();
                self.goto(r2, 0);
            }
            self.wrap_pending = false;
        } else if b == 0x08 {
            let nc = if c > 0 {
                c - 1
            } else {
                0
            };
            self.goto(r, nc);
            self.wrap_pending = false;
        } else if b == 0x09 {
            let t = self.next_tab_stop();
            self.goto(r, t);
            self.wrap_pending = false;
        }
    }

    /// CUP/HVP: the cursor to `(r, c)`, clamped onto the grid.
    pub(crate) fn move_to(&mut self, r: usize, c: usize)
        requires
            old(self).wf(),
        ensures
            final(self).wf(),
            final(self)@.rows() == old(self)@.rows(),
            final(self)@.cols() == old(self)@.cols(),
            final(self)@ == old(self)@.move_to(r as int, c as int),
            final(self).same_tokenizer(*old(self)),
    {
        let rows = self.rows();
        let cols = self.cols();
        let r2 = if r < rows - 1 { r } else { rows - 1 };
        let c2 = if c < cols - 1 { c } else { cols - 1 };
        self.goto(r2, c2);
        self.wrap_pending = false;
    }

    pub(crate) fn move_up(&mut self, n: usize)
        requires
            old(self).wf(),
        ensures
            final(self).wf(),
            final(self)@.rows() == old(self)@.rows(),
            final(self)@.cols() == old(self)@.cols(),
            final(self)@ == old(self)@.move_up(n as int),
            final(self).same_tokenizer(*old(self)),
    {
        let (r, c) = self.cursor();
        let r2 = if r >= n { r - n } else { 0 };
        self.goto(r2, c);
        self.wrap_pending = false;
    }

    pub(crate) fn move_down(&mut self, n: usize)
        requires
            old(self).wf(),
            n <= 65535,
        ensures
            final(self).wf(),
            final(self)@.rows() == old(self)@.rows(),
            final(self)@.cols() == old(self)@.cols(),
            final(self)@ == old(self)@.move_down(n as int),
            final(self).same_tokenizer(*old(self)),
    {
        let (r, c) = self.cursor();
        let rows = self.rows();
        let r2 = if n < rows - 1 - r { r + n } else { rows - 1 };
        self.goto(r2, c);
        self.wrap_pending = false;
    }

    pub(crate) fn move_right(&mut self, n: usize)
        requires
            old(self).wf(),
        ensures
            final(self).wf(),
            final(self)@.rows() == old(self)@.rows(),
            final(self)@.cols() == old(self)@.cols(),
            final(self)@ == old(self)@.move_right(n as int),
            final(self).same_tokenizer(*old(self)),
    {
        let (r, c) = self.cursor();
        let cols = self.cols();
        let c2 = if n < cols - 1 - c { c + n } else { cols - 1 };
        self.goto(r, c2);
        self.wrap_pending = false;
    }

    pub(crate) fn move_left(&mut self, n: usize)
        requires
            old(self).wf(),
        ensures
            final(self).wf(),
            final(self)@.rows() == old(self)@.rows(),
            final(self)@.cols() == old(self)@.cols(),
            final(self)@ == old(self)@.move_left(n as int),
            final(self).same_tokenizer(*old(self)),
    {
        let (r, c) = self.cursor();
        let c2 = if c >= n { c - n } else { 0 };
        self.goto(r, c2);
        self.wrap_pending = false;
    }

    // ---- erasing ----------------------------------------------------------------

    /// Blank columns `lo..hi` of row `r` of the active screen.
    pub(crate) fn blank_span(&mut self, r: usize, lo: usize, hi: usize)
        requires
            old(self).wf(),
            r < old(self)@.rows(),
            lo <= hi <= old(self)@.cols(),
        ensures
            final(self).wf(),
            final(self)@.rows() == old(self)@.rows(),
            final(self)@.cols() == old(self)@.cols(),
            final(self)@ == old(self)@.blank_where(span(r as int, lo as int, hi as int)),
            final(self).same_tokenizer(*old(self)),
    {
        let ghost m0 = self@;
        proof {
            lemma_blank_nothing(m0, span(r as int, lo as int, lo as int));
        }
        let mut c = lo;
        while c < hi
            invariant
                m0.wf(),
                r < m0.rows(),
                lo <= c <= hi <= m0.cols(),
                self.wf(),
                self@ == m0.blank_where(span(r as int, lo as int, c as int)),
                self.same_tokenizer(*old(self)),
            decreases hi - c,
        {
            let blank = ansi_blank();
            proof {
                let p = span(r as int, lo as int, c as int);
                lemma_blank_one(m0, p, r as int, c as int);
                let q = |rr: int, cc: int| p(rr, cc) || (rr == r && cc == c);
                assert forall|rr: int, cc: int|
                    0 <= rr < m0.rows() && 0 <= cc < m0.cols() implies #[trigger] q(rr, cc)
                    == span(r as int, lo as int, c + 1)(rr, cc) by {}
                lemma_same_blanking(m0, q, span(r as int, lo as int, c + 1));
            }
            self.put(r, c, blank);
            c += 1;
        }
    }

    /// ED (see [`TermModel::erase_display`]).
    pub(crate) fn erase_display(&mut self, mode: u16)
        requires
            old(self).wf(),
        ensures
            final(self).wf(),
            final(self)@.rows() == old(self)@.rows(),
            final(self)@.cols() == old(self)@.cols(),
            final(self)@ == old(self)@.erase_display(mode as int),
            final(self).same_tokenizer(*old(self)),
    {
        if mode > 2 {
            return;
        }
        let ghost m0 = self@;
        let rows = self.rows();
        let cols = self.cols();
        let (cr, cc) = self.cursor();
        let ghost md = mode as int;
        proof {
            lemma_blank_nothing(m0, display_above(md, cr as int, cc as int, 0));
        }
        let mut r: usize = 0;
        while r < rows
            invariant
                m0.wf(),
                rows == m0.rows(),
                cols == m0.cols(),
                cr == m0.row(),
                cc == m0.col(),
                cr < rows,
                cc < cols,
                md == mode as int,
                0 <= md <= 2,
                r <= rows,
                self.wf(),
                self@ == m0.blank_where(display_above(md, cr as int, cc as int, r as int)),
                self.same_tokenizer(*old(self)),
            decreases rows - r,
        {
            let lo: usize = if mode == 0 && r == cr { cc } else { 0 };
            let hi: usize = if mode == 0 {
                if r < cr { 0 } else { cols }
            } else if mode == 1 {
                if r < cr { cols } else if r == cr { cc + 1 } else { 0 }
            } else {
                cols
            };
            let lo2 = if lo <= hi { lo } else { hi };
            self.blank_span(r, lo2, hi);
            proof {
                let p = display_above(md, cr as int, cc as int, r as int);
                let q = span(r as int, lo2 as int, hi as int);
                lemma_blank_compose(m0, p, q);
                let u = |rr: int, c: int| p(rr, c) || q(rr, c);
                let t = display_above(md, cr as int, cc as int, r + 1);
                assert forall|rr: int, c: int|
                    0 <= rr < m0.rows() && 0 <= c < m0.cols() implies #[trigger] u(rr, c) == t(rr, c) by {}
                lemma_same_blanking(m0, u, t);
            }
            r += 1;
        }
        proof {
            let p = display_above(md, cr as int, cc as int, r as int);
            let t = |rr: int, c: int| display_hit(md, cr as int, cc as int, rr, c);
            assert forall|rr: int, c: int|
                0 <= rr < m0.rows() && 0 <= c < m0.cols() implies #[trigger] p(rr, c) == t(rr, c) by {}
            lemma_same_blanking(m0, p, t);
        }
    }

    /// EL (see [`TermModel::erase_line`]).
    pub(crate) fn erase_line(&mut self, mode: u16)
        requires
            old(self).wf(),
        ensures
            final(self).wf(),
            final(self)@.rows() == old(self)@.rows(),
            final(self)@.cols() == old(self)@.cols(),
            final(self)@ == old(self)@.erase_line(mode as int),
            final(self).same_tokenizer(*old(self)),
    {
        if mode > 2 {
            return;
        }
        let ghost m0 = self@;
        let cols = self.cols();
        let (cr, cc) = self.cursor();
        let (lo, hi) = if mode == 0 {
            (cc, cols)
        } else if mode == 1 {
            (0, cc + 1)
        } else {
            (0, cols)
        };
        self.blank_span(cr, lo, hi);
        proof {
            let p = span(cr as int, lo as int, hi as int);
            let t = |r: int, c: int| line_hit(mode as int, cr as int, cc as int, r, c);
            assert forall|rr: int, c: int|
                0 <= rr < m0.rows() && 0 <= c < m0.cols() implies #[trigger] p(rr, c) == t(rr, c) by {}
            lemma_same_blanking(m0, p, t);
        }
    }

    /// ECH: blank `n` cells from the cursor rightward.
    pub(crate) fn erase_chars(&mut self, n: usize)
        requires
            old(self).wf(),
        ensures
            final(self).wf(),
            final(self)@.rows() == old(self)@.rows(),
            final(self)@.cols() == old(self)@.cols(),
            final(self)@ == old(self)@.erase_chars(n as int),
            final(self).same_tokenizer(*old(self)),
    {
        let ghost m0 = self@;
        let cols = self.cols();
        let (cr, cc) = self.cursor();
        let hi = if n < cols - cc { cc + n } else { cols };
        self.blank_span(cr, cc, hi);
        proof {
            let p = span(cr as int, cc as int, hi as int);
            let t = |r: int, c: int| r == cr && cc <= c < cc + n;
            assert forall|rr: int, c: int|
                0 <= rr < m0.rows() && 0 <= c < m0.cols() implies #[trigger] p(rr, c) == t(rr, c) by {}
            lemma_same_blanking(m0, p, t);
        }
        self.wrap_pending = false;
    }

    // ---- lines and characters ---------------------------------------------------

    /// Replace row `r` of the active screen with `line`.
    pub(crate) fn set_row(&mut self, r: usize, line: &Vec<ansi::Cell>)
        requires
            old(self).wf(),
            r < old(self)@.rows(),
            line@.len() == old(self)@.cols(),
        ensures
            final(self).wf(),
            final(self)@.rows() == old(self)@.rows(),
            final(self)@.cols() == old(self)@.cols(),
            final(self)@ == old(self)@.with_active(
                Grid {
                    cells: old(self)@.active().cells.update(
                        r as int,
                        Seq::new(old(self)@.cols(), |x: int| cell_model(line@[x])),
                    ),
                    ..old(self)@.active()
                },
            ),
            final(self).same_tokenizer(*old(self)),
    {
        let ghost m0 = self@;
        let cols = self.cols();
        proof {
            let start = m0.with_active(
                Grid {
                    cells: m0.active().cells.update(
                        r as int,
                        Seq::new(
                            cols as nat,
                            |x: int|
                                if x < 0 {
                                    cell_model(line@[x])
                                } else {
                                    m0.active().cells[r as int][x]
                                },
                        ),
                    ),
                    ..m0.active()
                },
            );
            assert(start.active().cells[r as int] =~= m0.active().cells[r as int]);
            assert(start.active().cells =~= m0.active().cells);
            assert(start =~= m0);
        }
        let mut c: usize = 0;
        while c < cols
            invariant
                m0.wf(),
                r < m0.rows(),
                cols == m0.cols(),
                line@.len() == cols,
                c <= cols,
                self.wf(),
                self@ == m0.with_active(
                    Grid {
                        cells: m0.active().cells.update(
                            r as int,
                            Seq::new(
                                cols as nat,
                                |x: int|
                                    if x < c {
                                        cell_model(line@[x])
                                    } else {
                                        m0.active().cells[r as int][x]
                                    },
                            ),
                        ),
                        ..m0.active()
                    },
                ),
                self.same_tokenizer(*old(self)),
            decreases cols - c,
        {
            self.put(r, c, line[c]);
            proof {
                let want = m0.with_active(
                    Grid {
                        cells: m0.active().cells.update(
                            r as int,
                            Seq::new(
                                cols as nat,
                                |x: int|
                                    if x < c + 1 {
                                        cell_model(line@[x])
                                    } else {
                                        m0.active().cells[r as int][x]
                                    },
                            ),
                        ),
                        ..m0.active()
                    },
                );
                assert(self@.active().cells[r as int] =~= want.active().cells[r as int]);
                assert(self@.active().cells =~= want.active().cells);
                assert(self@ =~= want);
            }
            c += 1;
        }
        proof {
            let want = m0.with_active(
                Grid {
                    cells: m0.active().cells.update(
                        r as int,
                        Seq::new(m0.cols(), |x: int| cell_model(line@[x])),
                    ),
                    ..m0.active()
                },
            );
            assert(self@.active().cells[r as int] =~= want.active().cells[r as int]);
            assert(self@.active().cells =~= want.active().cells);
            assert(self@ =~= want);
        }
    }

    /// ICH: `n` blank cells at the cursor, the rest of the line moving right.
    pub(crate) fn insert_chars(&mut self, n: usize)
        requires
            old(self).wf(),
        ensures
            final(self).wf(),
            final(self)@.rows() == old(self)@.rows(),
            final(self)@.cols() == old(self)@.cols(),
            final(self)@ == old(self)@.insert_chars(n as int),
            final(self).same_tokenizer(*old(self)),
    {
        let ghost m0 = self@;
        let cols = self.cols();
        let (r, start) = self.cursor();
        let k = if n < cols - start { n } else { cols - start };
        let ghost old_line = m0.active().cells[r as int];
        let mut line: Vec<ansi::Cell> = Vec::new();
        let mut c: usize = 0;
        while c < cols
            invariant
                self@ == m0,
                self.wf(),
                cols == m0.cols(),
                r == m0.row(),
                start == m0.col(),
                start + k <= cols,
                old_line == m0.active().cells[r as int],
                c <= cols,
                line@.len() == c,
                forall|x: int|
                    0 <= x < c ==> #[trigger] cell_model(line@[x]) == if x < start {
                        old_line[x]
                    } else if x < start + k {
                        blank_cell()
                    } else {
                        old_line[x - k]
                    },
            decreases cols - c,
        {
            let cell = if c < start {
                self.cell_at(r, c)
            } else if c < start + k {
                ansi_blank()
            } else {
                self.cell_at(r, c - k)
            };
            line.push(cell);
            c += 1;
        }
        self.set_row(r, &line);
        self.wrap_pending = false;
        proof {
            let want = m0.insert_chars(n as int);
            assert(self@.active().cells[r as int] =~= want.active().cells[r as int]);
            assert(self@.active().cells =~= want.active().cells);
            assert(self@ =~= want);
        }
    }

    /// DCH: delete `n` cells at the cursor, the rest of the line moving left.
    pub(crate) fn delete_chars(&mut self, n: usize)
        requires
            old(self).wf(),
        ensures
            final(self).wf(),
            final(self)@.rows() == old(self)@.rows(),
            final(self)@.cols() == old(self)@.cols(),
            final(self)@ == old(self)@.delete_chars(n as int),
            final(self).same_tokenizer(*old(self)),
    {
        let ghost m0 = self@;
        let cols = self.cols();
        let (r, start) = self.cursor();
        let k = if n < cols - start { n } else { cols - start };
        let ghost old_line = m0.active().cells[r as int];
        let mut line: Vec<ansi::Cell> = Vec::new();
        let mut c: usize = 0;
        while c < cols
            invariant
                self@ == m0,
                self.wf(),
                cols == m0.cols(),
                r == m0.row(),
                start == m0.col(),
                start + k <= cols,
                old_line == m0.active().cells[r as int],
                c <= cols,
                line@.len() == c,
                forall|x: int|
                    0 <= x < c ==> #[trigger] cell_model(line@[x]) == if x < start {
                        old_line[x]
                    } else if x + k < cols {
                        old_line[x + k]
                    } else {
                        blank_cell()
                    },
            decreases cols - c,
        {
            let cell = if c < start {
                self.cell_at(r, c)
            } else if c + k < cols {
                self.cell_at(r, c + k)
            } else {
                ansi_blank()
            };
            line.push(cell);
            c += 1;
        }
        self.set_row(r, &line);
        self.wrap_pending = false;
        proof {
            let want = m0.delete_chars(n as int);
            assert(self@.active().cells[r as int] =~= want.active().cells[r as int]);
            assert(self@.active().cells =~= want.active().cells);
            assert(self@ =~= want);
        }
    }

    /// IL: `n` blank lines at the cursor row, inside the scroll region.
    pub(crate) fn insert_lines(&mut self, n: usize)
        requires
            old(self).wf(),
            n >= 1,
        ensures
            final(self).wf(),
            final(self)@.rows() == old(self)@.rows(),
            final(self)@.cols() == old(self)@.cols(),
            final(self)@ == old(self)@.insert_lines(n as int),
            final(self).same_tokenizer(*old(self)),
    {
        let (r, _c) = self.cursor();
        if r < self.scroll_top || r > self.scroll_bottom {
            return;
        }
        let bottom = self.scroll_bottom;
        self.scroll_active(false, r, bottom, n);
        self.goto(r, 0);
        self.wrap_pending = false;
    }

    /// DL: delete `n` lines at the cursor row, inside the scroll region.
    pub(crate) fn delete_lines(&mut self, n: usize)
        requires
            old(self).wf(),
            n >= 1,
        ensures
            final(self).wf(),
            final(self)@.rows() == old(self)@.rows(),
            final(self)@.cols() == old(self)@.cols(),
            final(self)@ == old(self)@.delete_lines(n as int),
            final(self).same_tokenizer(*old(self)),
    {
        let (r, _c) = self.cursor();
        if r < self.scroll_top || r > self.scroll_bottom {
            return;
        }
        let bottom = self.scroll_bottom;
        self.scroll_active(true, r, bottom, n);
        self.goto(r, 0);
        self.wrap_pending = false;
    }

    /// DECSTBM (see [`TermModel::set_scroll_region`]).
    pub(crate) fn set_scroll_region(&mut self, params: &[u16])
        requires
            old(self).wf(),
        ensures
            final(self).wf(),
            final(self)@.rows() == old(self)@.rows(),
            final(self)@.cols() == old(self)@.cols(),
            final(self)@ == old(self)@.set_scroll_region(params@),
            final(self).same_tokenizer(*old(self)),
    {
        let rows = self.rows();
        let top = at1(params, 0) - 1;
        let b = at0(params, 1);
        let bottom = if b == 0 {
            rows - 1
        } else {
            let b1 = (b as usize) - 1;
            if b1 < rows - 1 {
                b1
            } else {
                rows - 1
            }
        };
        if top < bottom {
            self.scroll_top = top;
            self.scroll_bottom = bottom;
        }
        self.goto(0, 0);
        self.wrap_pending = false;
    }

    // ---- save / restore, tabs, modes ---------------------------------------------

    pub(crate) fn save_cursor(&mut self)
        requires
            old(self).wf(),
        ensures
            final(self).wf(),
            final(self)@.rows() == old(self)@.rows(),
            final(self)@.cols() == old(self)@.cols(),
            final(self)@ == old(self)@.save_cursor(),
            final(self).same_tokenizer(*old(self)),
    {
        let (r, c) = self.cursor();
        self.saved = Some((r, c, self.style));
    }

    pub(crate) fn restore_cursor(&mut self)
        requires
            old(self).wf(),
        ensures
            final(self).wf(),
            final(self)@.rows() == old(self)@.rows(),
            final(self)@.cols() == old(self)@.cols(),
            final(self)@ == old(self)@.restore_cursor(),
            final(self).same_tokenizer(*old(self)),
    {
        if let Some((r, c, st)) = self.saved {
            self.move_to(r, c);
            self.style = st;
        }
        self.wrap_pending = false;
    }

    /// HTS: a tab stop at the cursor column.
    pub(crate) fn set_tab_stop(&mut self)
        requires
            old(self).wf(),
        ensures
            final(self).wf(),
            final(self)@.rows() == old(self)@.rows(),
            final(self)@.cols() == old(self)@.cols(),
            final(self)@ == old(self)@.set_tab_stop(),
            final(self).same_tokenizer(*old(self)),
    {
        let (_r, c) = self.cursor();
        self.tabs.set(c, true);
    }

    /// TBC: 0 clears the stop at the cursor column, 3 clears all.
    pub(crate) fn clear_tab_stops(&mut self, mode: u16)
        requires
            old(self).wf(),
        ensures
            final(self).wf(),
            final(self)@.rows() == old(self)@.rows(),
            final(self)@.cols() == old(self)@.cols(),
            final(self)@ == old(self)@.clear_tab_stops(mode as int),
            final(self).same_tokenizer(*old(self)),
    {
        let (_r, col) = self.cursor();
        if mode == 0 {
            self.tabs.set(col, false);
        } else if mode == 3 {
            let cols = self.tabs.len();
            let mut cleared: Vec<bool> = Vec::new();
            let mut c: usize = 0;
            while c < cols
                invariant
                    c <= cols,
                    cleared@ == Seq::new(c as nat, |x: int| false),
                decreases cols - c,
            {
                cleared.push(false);
                c += 1;
                assert(cleared@ =~= Seq::new(c as nat, |x: int| false));
            }
            self.tabs = cleared;
        }
        assert(self@ =~= old(self)@.clear_tab_stops(mode as int));
    }

    /// Enter (a cleared) or leave the alternate screen, the cursor moving
    /// with the switch.
    pub(crate) fn set_alt(&mut self, enter: bool)
        requires
            old(self).wf(),
        ensures
            final(self).wf(),
            final(self)@.rows() == old(self)@.rows(),
            final(self)@.cols() == old(self)@.cols(),
            final(self)@ == old(self)@.set_alt(enter),
            final(self).same_tokenizer(*old(self)),
    {
        if enter && !self.in_alt {
            let (r, c) = self.cursor();
            let rows = self.rows();
            let cols = self.cols();
            let mut fresh = ansi::Screen::new(rows, cols);
            put_cursor(&mut fresh, r, c);
            self.alt = fresh;
            self.in_alt = true;
        } else if !enter && self.in_alt {
            let (r, c) = cursor_of(&self.alt);
            put_cursor(&mut self.primary, r, c);
            self.in_alt = false;
        }
        self.wrap_pending = false;
        assert(self@ =~= old(self)@.set_alt(enter));
    }

    /// Open a synchronized update (snapshotting the active screen, unless one
    /// is open already) or close it.
    pub(crate) fn set_sync(&mut self, on: bool)
        requires
            old(self).wf(),
        ensures
            final(self).wf(),
            final(self)@.rows() == old(self)@.rows(),
            final(self)@.cols() == old(self)@.cols(),
            final(self)@ == old(self)@.set_sync(on),
            final(self).same_tokenizer(*old(self)),
    {
        if on {
            if self.sync_frame.is_none() {
                let f = if self.in_alt {
                    copy_screen(&self.alt)
                } else {
                    copy_screen(&self.primary)
                };
                self.sync_frame = Some(f);
            }
        } else {
            self.sync_frame = None;
        }
        assert(self@ =~= old(self)@.set_sync(on));
    }

    /// One DEC private mode.
    pub(crate) fn set_private_mode(&mut self, p: u16, on: bool)
        requires
            old(self).wf(),
        ensures
            final(self).wf(),
            final(self)@.rows() == old(self)@.rows(),
            final(self)@.cols() == old(self)@.cols(),
            final(self)@ == old(self)@.set_private_mode(p, on),
            final(self).same_tokenizer(*old(self)),
    {
        if p == 25 {
            self.cursor_visible = on;
        } else if p == 7 {
            self.autowrap = on;
        } else if p == 47 || p == 1047 || p == 1049 {
            self.set_alt(on);
        } else if p == 2026 {
            self.set_sync(on);
        }
    }

    /// DEC private modes, in order.
    pub(crate) fn set_private_modes(&mut self, params: &[u16], on: bool)
        requires
            old(self).wf(),
        ensures
            final(self).wf(),
            final(self)@.rows() == old(self)@.rows(),
            final(self)@.cols() == old(self)@.cols(),
            final(self)@ == old(self)@.set_private_modes(params@, on),
            final(self).same_tokenizer(*old(self)),
    {
        let ghost m0 = self@;
        let mut i: usize = 0;
        while i < params.len()
            invariant
                i <= params@.len(),
                self.wf(),
                self@ == m0.set_private_modes(params@.take(i as int), on),
                self@.rows() == m0.rows(),
                self@.cols() == m0.cols(),
                self.same_tokenizer(*old(self)),
            decreases params@.len() - i,
        {
            self.set_private_mode(params[i], on);
            assert(params@.take(i + 1).drop_last() =~= params@.take(i as int));
            i += 1;
        }
        assert(params@.take(i as int) =~= params@);
    }

    /// ANSI modes: 20 is new-line mode.
    pub(crate) fn set_ansi_modes(&mut self, params: &[u16], on: bool)
        requires
            old(self).wf(),
        ensures
            final(self).wf(),
            final(self)@.rows() == old(self)@.rows(),
            final(self)@.cols() == old(self)@.cols(),
            final(self)@ == old(self)@.set_ansi_modes(params@, on),
            final(self).same_tokenizer(*old(self)),
    {
        let ghost m0 = self@;
        let mut i: usize = 0;
        while i < params.len()
            invariant
                i <= params@.len(),
                self.wf(),
                self@ == m0.set_ansi_modes(params@.take(i as int), on),
                self@.rows() == m0.rows(),
                self@.cols() == m0.cols(),
                self.same_tokenizer(*old(self)),
            decreases params@.len() - i,
        {
            if params[i] == 20 {
                self.newline_mode = on;
            }
            assert(params@.take(i + 1).drop_last() =~= params@.take(i as int));
            i += 1;
        }
        assert(params@.take(i as int) =~= params@);
    }

    /// SGR: apply the parameters to the current style.
    pub(crate) fn apply_sgr(&mut self, params: &[u16])
        requires
            old(self).wf(),
        ensures
            final(self).wf(),
            final(self)@.rows() == old(self)@.rows(),
            final(self)@.cols() == old(self)@.cols(),
            final(self)@ == (TermModel { style: sgr_applied(old(self)@.style, params@), ..old(self)@ }),
            final(self).same_tokenizer(*old(self)),
    {
        let mut st = to_ansi_style(&self.style);
        st.apply_sgr(params);
        self.style = from_ansi_style(st);
    }

    // ---- dispatch ---------------------------------------------------------------

    /// Apply a CSI sequence: private marker, parameters and final byte (see
    /// [`TermModel::csi`] for what each final byte does). Unknown sequences
    /// are ignored.
    pub fn csi(&mut self, private: Option<u8>, params: &[u16], final_byte: u8)
        requires
            old(self).wf(),
        ensures
            final(self).wf(),
            final(self)@.rows() == old(self)@.rows(),
            final(self)@.cols() == old(self)@.cols(),
            final(self)@ == old(self)@.csi(private, params@, final_byte),
            final(self).same_tokenizer(*old(self)),
    {
        if private == Some(0x3Fu8) {
            if final_byte == 0x68 {
                self.set_private_modes(params, true);
            } else if final_byte == 0x6C {
                self.set_private_modes(params, false);
            }
            return;
        }
        if private.is_some() {
            return;
        }
        let n = at1(params, 0);
        let f = final_byte;
        if f == 0x48 || f == 0x66 {
            let r = at1(params, 0) - 1;
            let c = at1(params, 1) - 1;
            self.move_to(r, c);
        } else if f == 0x41 {
            self.move_up(n);
        } else if f == 0x42 {
            self.move_down(n);
        } else if f == 0x43 {
            self.move_right(n);
        } else if f == 0x44 {
            self.move_left(n);
        } else if f == 0x45 || f == 0x46 {
            if f == 0x45 {
                self.move_down(n);
            } else {
                self.move_up(n);
            }
            let (r, _c) = self.cursor();
            self.goto(r, 0);
        } else if f == 0x47 {
            let (r, _c) = self.cursor();
            let cols = self.cols();
            let c = if n - 1 < cols - 1 { n - 1 } else { cols - 1 };
            self.goto(r, c);
            self.wrap_pending = false;
        } else if f == 0x64 {
            let (_r, c) = self.cursor();
            let rows = self.rows();
            let r = if n - 1 < rows - 1 { n - 1 } else { rows - 1 };
            self.goto(r, c);
            self.wrap_pending = false;
        } else if f == 0x4A {
            self.erase_display(at0(params, 0));
        } else if f == 0x4B {
            self.erase_line(at0(params, 0));
        } else if f == 0x6D {
            self.apply_sgr(params);
        } else if f == 0x72 {
            self.set_scroll_region(params);
        } else if f == 0x4C {
            self.insert_lines(n);
        } else if f == 0x4D {
            self.delete_lines(n);
        } else if f == 0x40 {
            self.insert_chars(n);
        } else if f == 0x50 {
            self.delete_chars(n);
        } else if f == 0x58 {
            self.erase_chars(n);
        } else if f == 0x53 {
            self.scroll_up(n);
        } else if f == 0x54 {
            self.scroll_down(n);
        } else if f == 0x67 {
            self.clear_tab_stops(at0(params, 0));
        } else if f == 0x68 {
            self.set_ansi_modes(params, true);
        } else if f == 0x6C {
            self.set_ansi_modes(params, false);
        } else if f == 0x73 {
            self.save_cursor();
        } else if f == 0x75 {
            self.restore_cursor();
        }
    }

    /// Apply a non-CSI escape: `ESC 7` (DECSC), `ESC 8` (DECRC), `ESC H`
    /// (HTS); the rest, such as charset selection, are ignored.
    pub fn esc(&mut self, final_byte: u8)
        requires
            old(self).wf(),
        ensures
            final(self).wf(),
            final(self)@.rows() == old(self)@.rows(),
            final(self)@.cols() == old(self)@.cols(),
            final(self)@ == old(self)@.esc(final_byte),
            final(self).same_tokenizer(*old(self)),
    {
        if final_byte == 0x37 {
            self.save_cursor();
        } else if final_byte == 0x38 {
            self.restore_cursor();
        } else if final_byte == 0x48 {
            self.set_tab_stop();
        }
    }

    // ---- the public surface -------------------------------------------------------

    /// Resize to `rows x cols` (each clamped to at least 1). Both screens keep
    /// what fits of their top-left corner and their cursors are clamped; the
    /// scroll region becomes full height, tab stops are rebuilt, a pending
    /// wrap is cleared and an open synchronized update ends, revealing the
    /// live screen. A saved cursor is kept as it is; restoring it clamps it
    /// to the size at that time.
    pub fn resize(&mut self, rows: usize, cols: usize)
        requires
            old(self).wf(),
            fits(if rows == 0 { 1 } else { rows as nat }, if cols == 0 { 1 } else { cols as nat }),
        ensures
            final(self).wf(),
            final(self)@ == old(self)@.resize(
                if rows == 0 { 1 } else { rows as nat },
                if cols == 0 { 1 } else { cols as nat },
            ),
            final(self).same_tokenizer(*old(self)),
    {
        let rows = if rows == 0 { 1 } else { rows };
        let cols = if cols == 0 { 1 } else { cols };
        proof {
            lemma_fits_bounds(rows as nat, cols as nat);
        }
        let (pr, pc) = cursor_of(&self.primary);
        let mut np = ansi::Screen::new(rows, cols);
        copy_top_left(&self.primary, &mut np);
        put_cursor(&mut np, pr, pc);
        let (ar, ac) = cursor_of(&self.alt);
        let mut na = ansi::Screen::new(rows, cols);
        copy_top_left(&self.alt, &mut na);
        put_cursor(&mut na, ar, ac);
        self.primary = np;
        self.alt = na;
        if self.scroll_top > rows - 1 {
            self.scroll_top = rows - 1;
        }
        self.scroll_bottom = rows - 1;
        self.tabs = default_tabs(cols);
        self.wrap_pending = false;
        self.sync_frame = None;
        assert(self@ =~= old(self)@.resize(rows as nat, cols as nat));
    }

    /// The screen a host should show: the last complete frame while a
    /// synchronized update is open, else the active buffer (the alternate one
    /// in alt-screen mode), its cursor where the emulator's is.
    pub fn screen(&self) -> (s: &ansi::Screen)
        requires
            self.wf(),
        ensures
            screen_view(*s) == self@.shown(),
    {
        match &self.sync_frame {
            Some(f) => f,
            None => {
                if self.in_alt {
                    &self.alt
                } else {
                    &self.primary
                }
            },
        }
    }

    /// True while a synchronized update (`CSI ? 2026 h`) is open.
    pub fn in_sync(&self) -> (b: bool)
        ensures
            b == (self@.sync_frame is Some),
    {
        self.sync_frame.is_some()
    }

    /// Print each character of `text` in turn.
    pub fn print_text(&mut self, text: &str)
        requires
            old(self).wf(),
        ensures
            final(self).wf(),
            final(self)@.rows() == old(self)@.rows(),
            final(self)@.cols() == old(self)@.cols(),
            final(self)@ == old(self)@.print_all(text@),
            final(self).same_tokenizer(*old(self)),
    {
        broadcast use vstd::string::axiom_spec_iter;
        let ghost m0 = self@;
        assert(text@.take(0) =~= Seq::<char>::empty());
        for ch in it: text.chars()
            invariant
                self.wf(),
                it.seq() == text@,
                self@ == m0.print_all(text@.take(it.index())),
                self@.rows() == m0.rows(),
                self@.cols() == m0.cols(),
                self.same_tokenizer(*old(self)),
        {
            proof {
                assert(text@.take(it.index() + 1).drop_last() =~= text@.take(it.index()));
            }
            self.print(ch);
        }
        assert(text@.take(text@.len() as int) =~= text@);
    }

    /// Apply one parsed event: text is decoded (across chunk boundaries) and
    /// printed; anything else first abandons an incomplete character, printing
    /// U+FFFD for it, and then takes effect.
    pub fn apply_event(&mut self, e: &Event)
        requires
            old(self).wf(),
        ensures
            final(self).wf(),
            final(self)@.rows() == old(self)@.rows(),
            final(self)@.cols() == old(self)@.cols(),
            final(self).same_parser(*old(self)),
            forall|more: Seq<Lexeme>| #[trigger]
                run(old(self)@, old(self).held(), event_lexemes(*e) + more) == run(
                    final(self)@,
                    final(self).held(),
                    more,
                ),
            forall|more: Seq<Lexeme>| #[trigger]
                run_held(old(self).held(), event_lexemes(*e) + more) == run_held(
                    final(self).held(),
                    more,
                ),
    {
        let ghost m0 = self@;
        let ghost h0 = decoder_held(self.decoder);
        match e {
            Event::Text(b) => {
                if b.len() == 0 {
                    assert forall|more: Seq<Lexeme>| #[trigger]
                        run(m0, h0, event_lexemes(*e) + more) == run(self@, decoder_held(self.decoder), more) by {
                        assert(event_lexemes(*e) + more =~= more);
                    }
                    assert forall|more: Seq<Lexeme>| #[trigger]
                        run_held(h0, event_lexemes(*e) + more) == run_held(decoder_held(self.decoder), more) by {
                        assert(event_lexemes(*e) + more =~= more);
                    }
                    return;
                }
                let text = decode_chunk(&mut self.decoder, b.as_slice());
                let ghost h1 = decoder_held(self.decoder);
                let ghost m1 = m0.print_all(text@);
                self.print_text(text.as_str());
                proof {
                    assert forall|more: Seq<Lexeme>| #[trigger]
                        run(m0, h0, event_lexemes(*e) + more) == run(m1, h1, more) by {
                        let ls = byte_lexemes(b@) + more;
                        assert(event_lexemes(*e) == byte_lexemes(b@));
                        lemma_text_run_join(b@, more);
                        lemma_text_run_len(more);
                        let k2 = text_run_len(more);
                        let rb = run_bytes(more, k2);
                        assert(ls[0] is Byte);
                        if k2 == 0 {
                            assert(rb =~= Seq::<u8>::empty());
                            assert(h0 + (b@ + rb) =~= h0 + b@);
                            assert(more.skip(0) =~= more);
                        } else {
                            assert(h0 + (b@ + rb) =~= h0 + b@ + rb);
                            let x = utf8_decode(h1 + rb);
                            lemma_print_all_append(m0, text@, x.0);
                            assert(more[0] is Byte);
                        }
                    }
                    assert forall|more: Seq<Lexeme>| #[trigger]
                        run_held(h0, event_lexemes(*e) + more) == run_held(h1, more) by {
                        let ls = byte_lexemes(b@) + more;
                        assert(event_lexemes(*e) == byte_lexemes(b@));
                        lemma_text_run_join(b@, more);
                        lemma_text_run_len(more);
                        let k2 = text_run_len(more);
                        let rb = run_bytes(more, k2);
                        assert(ls[0] is Byte);
                        if k2 == 0 {
                            assert(rb =~= Seq::<u8>::empty());
                            assert(h0 + (b@ + rb) =~= h0 + b@);
                            assert(more.skip(0) =~= more);
                        } else {
                            assert(h0 + (b@ + rb) =~= h0 + b@ + rb);
                            assert(more[0] is Byte);
                        }
                    }
                }
            },
            _ => {
                let text = flush_pending(&mut self.decoder);
                self.print_text(text.as_str());
                proof {
                    if h0.len() > 0 {
                        assert(text@.drop_last() =~= Seq::<char>::empty());
                        assert(m0.print_all(Seq::<char>::empty()) == m0);
                        assert(text@.last() == replacement_char());
                        assert(m0.print_all(text@) == m0.print_all(text@.drop_last()).print(text@.last()));
                        assert(m0.print_all(text@) == m0.print(replacement_char()));
                    } else {
                        assert(m0.print_all(text@) == m0);
                    }
                }
                let ghost m1 = self@;
                match e {
                    Event::Control(b) => self.control(*b),
                    Event::Csi { private, params, final_byte } => self.csi(
                        *private,
                        params.as_slice(),
                        *final_byte,
                    ),
                    Event::Esc { final_byte } => self.esc(*final_byte),
                    _ => {},
                }
                proof {
                    let l = event_lexemes(*e)[0];
                    assert(event_lexemes(*e) =~= seq![l]);
                    assert(self@ == m1.apply_lexeme(l));
                    assert forall|more: Seq<Lexeme>| #[trigger]
                        run(m0, h0, event_lexemes(*e) + more) == run(self@, decoder_held(self.decoder), more) by {
                        assert((event_lexemes(*e) + more)[0] == l);
                        assert((event_lexemes(*e) + more).skip(1) =~= more);
                    }
                    assert forall|more: Seq<Lexeme>| #[trigger]
                        run_held(h0, event_lexemes(*e) + more) == run_held(decoder_held(self.decoder), more) by {
                        assert((event_lexemes(*e) + more)[0] == l);
                        assert((event_lexemes(*e) + more).skip(1) =~= more);
                    }
                }
            },
        }
    }

    /// Feed a chunk of child output. Chunks may split the stream at any byte
    /// (mid-escape, mid-UTF-8): the parser and decoder carry partial state
    /// across calls, so the final screen does not depend on the chunking.
    #[verifier::rlimit(30)]
    pub fn feed(&mut self, bytes: &[u8])
        requires
            old(self).wf(),
        ensures
            final(self).wf(),
            final(self)@.rows() == old(self)@.rows(),
            final(self)@.cols() == old(self)@.cols(),
            fed(*old(self), bytes@, *final(self)),
    {
        let ghost m0 = self@;
        let ghost h0 = decoder_held(self.decoder);
        let ghost p0 = self.parser;
        let events = lex_chunk(&mut self.parser, bytes);
        let ghost p1 = self.parser;
        assert(lexemes_of(events@.take(0)) + Seq::<Lexeme>::empty() =~= Seq::<Lexeme>::empty());
        let mut i: usize = 0;
        while i < events.len()
            invariant
                i <= events@.len(),
                self.wf(),
                self.parser == p1,
                self@.rows() == m0.rows(),
                self@.cols() == m0.cols(),
                forall|more: Seq<Lexeme>| #[trigger]
                    run(m0, h0, lexemes_of(events@.take(i as int)) + more) == run(
                        self@,
                        decoder_held(self.decoder),
                        more,
                    ),
                forall|more: Seq<Lexeme>| #[trigger]
                    run_held(h0, lexemes_of(events@.take(i as int)) + more) == run_held(
                        decoder_held(self.decoder),
                        more,
                    ),
            decreases events@.len() - i,
        {
            let ghost before = self@;
            let ghost hb = decoder_held(self.decoder);
            self.apply_event(&events[i]);
            proof {
                let prev = lexemes_of(events@.take(i as int));
                let ev = event_lexemes(events@[i as int]);
                assert(events@.take(i + 1).drop_last() =~= events@.take(i as int));
                assert(lexemes_of(events@.take(i + 1)) == prev + ev);
                assert forall|more: Seq<Lexeme>| #[trigger]
                    run(m0, h0, lexemes_of(events@.take(i + 1)) + more) == run(
                        self@,
                        decoder_held(self.decoder),
                        more,
                    ) by {
                    assert(prev + ev + more =~= prev + (ev + more));
                    assert(run(m0, h0, prev + (ev + more)) == run(before, hb, ev + more));
                    assert(run(before, hb, ev + more) == run(self@, decoder_held(self.decoder), more));
                }
                assert forall|more: Seq<Lexeme>| #[trigger]
                    run_held(h0, lexemes_of(events@.take(i + 1)) + more) == run_held(
                        decoder_held(self.decoder),
                        more,
                    ) by {
                    assert(prev + ev + more =~= prev + (ev + more));
                    assert(run_held(h0, prev + (ev + more)) == run_held(hb, ev + more));
                }
            }
            i += 1;
        }
        proof {
            assert(events@.take(events@.len() as int) =~= events@);
            let all = lexemes_of(events@);
            assert(bytes@ + Seq::<u8>::empty() =~= bytes@);
            assert(parser_lex(p0, bytes@) == all + parser_lex(p1, Seq::empty()));
            assert(all + Seq::<Lexeme>::empty() =~= all);
            assert(run(m0, h0, all + Seq::<Lexeme>::empty()) == run(self@, decoder_held(self.decoder), Seq::empty()));
            assert forall|more: Seq<u8>| #[trigger] self.after(more) == old(self).after(bytes@ + more) by {
                assert(parser_lex(p0, bytes@ + more) == all + parser_lex(p1, more));
            }
            assert forall|more: Seq<u8>| #[trigger]
                self.rests_after(more) == old(self).rests_after(bytes@ + more) by {
                assert(parser_lex(p0, bytes@ + more) == all + parser_lex(p1, more));
                assert(run_held(h0, all + parser_lex(p1, more)) == run_held(
                    decoder_held(self.decoder),
                    parser_lex(p1, more),
                ));
            }
        }
    }
}

} // verus!
