//! Checkpoints: a [`Term`]'s whole state as bytes, and back.
//!
//! A terminal that keeps its history on disk rebuilds a pane by restoring
//! the nearest checkpoint and replaying the log after it. A checkpoint
//! therefore captures all state that affects how later bytes land: both
//! screens, the cursor, the current style, the scroll region, tab stops, the
//! saved cursor, the modes, and a synchronized update in progress.
//!
//! It does not capture the tokenizer. Checkpoints are only taken when the
//! tokenizer is idle ([`Term::can_checkpoint`]): no escape sequence open and
//! no UTF-8 character half-decoded. A fresh tokenizer then behaves exactly as
//! the running one, so there is nothing to save.
//!
//! Format (little-endian, versioned): magic `VTCK`, version, a flag byte,
//! then the fields below. Screens are run-length encoded in row-major order.
//! [`Term::restore`] validates everything and never panics on bad input.

use vstd::prelude::*;
use crate::cell::{CellWidth, Color, GridCell, TextStyle, blank_cell};
use crate::model::{Grid, TermModel, blank_grid_of};
use crate::outside::{
    cell_model, char_from_u32, cursor_of, decoder_held, from_ansi_cell, from_ansi_style,
    ground_lex, ground_rests, parser_lex, parser_rests, put_cursor, screen_view, to_ansi_cell,
    to_ansi_style,
};
use super::Term;

verus! {

/// Why a checkpoint could not be restored.
#[derive(Clone, Copy, Debug, PartialEq, Eq, Structural)]
pub enum RestoreError {
    /// The bytes do not start with the magic `VTCK`.
    NotACheckpoint,
    /// A version other than the one this library writes.
    UnsupportedVersion,
    /// The bytes end in the middle of a field.
    Truncated,
    /// A colour tag other than 0, 1 or 2.
    UnknownColour,
    /// A style attribute byte with a bit above the six defined ones.
    UnknownStyleAttribute,
    /// A cell's character code is not a Unicode scalar value.
    InvalidCharacter,
    /// A cell width code other than 0, 1 or 2.
    UnknownCellWidth,
    /// A screen with no cells, or more than [`MAX_CELLS`].
    ScreenSizeOutOfRange,
    /// A screen's cursor lies outside it.
    CursorOutsideScreen,
    /// A run of no cells, or of more cells than the screen has left.
    BadCellRun,
    /// Bytes follow the last field.
    TrailingBytes,
    /// The screens do not all have the primary screen's size.
    ScreensDisagree,
    /// There is not one tab stop flag per column.
    TabStopsMismatch,
    /// The scroll region is inverted or below the last row.
    ScrollRegionOutside,
    /// The saved cursor lies outside the screen.
    SavedCursorOutside,
    /// The flags disagree on whether a synchronized update is open.
    SyncWithoutFrame,
}

/// What each error says.
pub open spec fn reason_text(e: RestoreError) -> Seq<char> {
    match e {
        RestoreError::NotACheckpoint => "not a checkpoint"@,
        RestoreError::UnsupportedVersion => "unsupported version"@,
        RestoreError::Truncated => "truncated"@,
        RestoreError::UnknownColour => "unknown colour"@,
        RestoreError::UnknownStyleAttribute => "unknown style attribute"@,
        RestoreError::InvalidCharacter => "invalid character"@,
        RestoreError::UnknownCellWidth => "unknown cell width"@,
        RestoreError::ScreenSizeOutOfRange => "screen size out of range"@,
        RestoreError::CursorOutsideScreen => "cursor outside the screen"@,
        RestoreError::BadCellRun => "bad cell run"@,
        RestoreError::TrailingBytes => "trailing bytes"@,
        RestoreError::ScreensDisagree => "screens disagree on size"@,
        RestoreError::TabStopsMismatch => "tab stops do not match the width"@,
        RestoreError::ScrollRegionOutside => "scroll region outside the screen"@,
        RestoreError::SavedCursorOutside => "saved cursor outside the screen"@,
        RestoreError::SyncWithoutFrame => "synchronized update without its frame"@,
    }
}

impl RestoreError {
    /// What went wrong, in a few words.
    pub fn reason(&self) -> (r: &'static str)
        ensures
            r@ == reason_text(*self),
    {
        match self {
            RestoreError::NotACheckpoint => "not a checkpoint",
            RestoreError::UnsupportedVersion => "unsupported version",
            RestoreError::Truncated => "truncated",
            RestoreError::UnknownColour => "unknown colour",
            RestoreError::UnknownStyleAttribute => "unknown style attribute",
            RestoreError::InvalidCharacter => "invalid character",
            RestoreError::UnknownCellWidth => "unknown cell width",
            RestoreError::ScreenSizeOutOfRange => "screen size out of range",
            RestoreError::CursorOutsideScreen => "cursor outside the screen",
            RestoreError::BadCellRun => "bad cell run",
            RestoreError::TrailingBytes => "trailing bytes",
            RestoreError::ScreensDisagree => "screens disagree on size",
            RestoreError::TabStopsMismatch => "tab stops do not match the width",
            RestoreError::ScrollRegionOutside => "scroll region outside the screen",
            RestoreError::SavedCursorOutside => "saved cursor outside the screen",
            RestoreError::SyncWithoutFrame => "synchronized update without its frame",
        }
    }

    /// The error as a message: `invalid terminal checkpoint: ` and the reason.
    pub fn message(&self) -> (s: String)
        ensures
            s@ == "invalid terminal checkpoint: "@ + reason_text(*self),
    {
        let mut s = String::from_str("invalid terminal checkpoint: ");
        s.append(self.reason());
        s
    }
}

// ---- the encoding --------------------------------------------------------------

/// The magic bytes `VTCK` a checkpoint starts with.
pub open spec fn magic() -> Seq<u8> {
    seq![0x56u8, 0x54u8, 0x43u8, 0x4Bu8]
}

/// The format version written, and the only one read.
pub const VERSION: u16 = 1;

/// The most cells a restored screen may have.
pub const MAX_CELLS: usize = 16777216;

/// `v` as two little-endian bytes.
pub open spec fn le16(v: u16) -> Seq<u8> {
    seq![(v & 0xff) as u8, (v >> 8u16) as u8]
}

/// `v` as four little-endian bytes.
pub open spec fn le32(v: u32) -> Seq<u8> {
    seq![(v & 0xff) as u8, ((v >> 8u32) & 0xff) as u8, ((v >> 16u32) & 0xff) as u8, (v >> 24u32) as u8]
}

/// 1 for true, 0 for false.
pub open spec fn b2u(b: bool) -> u8 {
    if b {
        1
    } else {
        0
    }
}

/// A colour as four bytes: a tag (0 default, 1 indexed, 2 RGB) and its
/// components.
pub open spec fn color_bytes(c: Color) -> Seq<u8> {
    match c {
        Color::Default => seq![0u8, 0u8, 0u8, 0u8],
        Color::Indexed(i) => seq![1u8, i, 0u8, 0u8],
        Color::Rgb(r, g, b) => seq![2u8, r, g, b],
    }
}

/// The attribute bits of a style: bold, dim, italic, underline, reverse,
/// strike, from the lowest bit up.
pub open spec fn attr_byte(s: TextStyle) -> u8 {
    b2u(s.bold) | b2u(s.dim) << 1u8 | b2u(s.italic) << 2u8 | b2u(s.underline) << 3u8 | b2u(
        s.reverse,
    ) << 4u8 | b2u(s.strike) << 5u8
}

/// A style: foreground, background, attribute byte.
pub open spec fn style_bytes(s: TextStyle) -> Seq<u8> {
    color_bytes(s.fg) + color_bytes(s.bg) + seq![attr_byte(s)]
}

/// A cell width's code: 0 continuation, 1 single, 2 wide.
pub open spec fn width_code(w: CellWidth) -> u8 {
    match w {
        CellWidth::Continuation => 0,
        CellWidth::Single => 1,
        CellWidth::Wide => 2,
    }
}

/// A cell: its character's code, its width code and its style.
pub open spec fn cell_bytes(c: GridCell) -> Seq<u8> {
    le32(c.ch as u32) + seq![width_code(c.width)] + style_bytes(c.style)
}

/// The rows of a grid laid end to end.
pub open spec fn flat(rows: Seq<Seq<GridCell>>) -> Seq<GridCell>
    decreases rows.len(),
{
    if rows.len() == 0 {
        Seq::empty()
    } else {
        flat(rows.drop_last()) + rows.last()
    }
}

/// The runs of equal cells in `cells`, in order, each as its length and the
/// cell; neighbouring runs differ.
pub open spec fn runs(cells: Seq<GridCell>) -> Seq<(nat, GridCell)>
    decreases cells.len(),
{
    if cells.len() == 0 {
        Seq::empty()
    } else {
        let prev = runs(cells.drop_last());
        let x = cells.last();
        if prev.len() > 0 && prev.last().1 == x {
            prev.update(prev.len() - 1, ((prev.last().0 + 1) as nat, x))
        } else {
            prev.push((1nat, x))
        }
    }
}

/// Runs as bytes: each a 32-bit count followed by the cell.
pub open spec fn runs_bytes(rs: Seq<(nat, GridCell)>) -> Seq<u8>
    decreases rs.len(),
{
    if rs.len() == 0 {
        Seq::empty()
    } else {
        runs_bytes(rs.drop_last()) + le32(rs.last().0 as u32) + cell_bytes(rs.last().1)
    }
}

/// A screen: rows, columns, cursor row and column, then its cells as runs.
pub open spec fn grid_bytes(g: Grid) -> Seq<u8> {
    le32(g.cells.len() as u32) + le32(g.cols as u32) + le32(g.row as u32) + le32(g.col as u32)
        + runs_bytes(runs(flat(g.cells)))
}

/// 1 if column `j` has a tab stop, else 0.
pub open spec fn tab_bit(tabs: Seq<bool>, j: int) -> u8 {
    b2u(0 <= j < tabs.len() && tabs[j])
}

/// The tab stops of columns `k..k + 8` as the bits of a byte, lowest first.
pub open spec fn tab_byte(tabs: Seq<bool>, k: int) -> u8 {
    tab_bit(tabs, k) | tab_bit(tabs, k + 1) << 1u8 | tab_bit(tabs, k + 2) << 2u8 | tab_bit(
        tabs,
        k + 3,
    ) << 3u8 | tab_bit(tabs, k + 4) << 4u8 | tab_bit(tabs, k + 5) << 5u8 | tab_bit(tabs, k + 6)
        << 6u8 | tab_bit(tabs, k + 7) << 7u8
}

/// Tab stops packed eight to a byte.
pub open spec fn tab_bytes(tabs: Seq<bool>) -> Seq<u8> {
    Seq::new(((tabs.len() + 7) / 8) as nat, |i: int| tab_byte(tabs, 8 * i))
}

/// The flag byte: alternate screen, pending wrap, autowrap, cursor visible,
/// synchronized update open, saved cursor present, synchronized frame
/// present, new-line mode, from the lowest bit up.
pub open spec fn flag_byte(m: TermModel) -> u8 {
    b2u(m.in_alt) | b2u(m.wrap_pending) << 1u8 | b2u(m.autowrap) << 2u8 | b2u(m.cursor_visible)
        << 3u8 | b2u(m.sync_frame is Some) << 4u8 | b2u(m.saved is Some) << 5u8 | b2u(
        m.sync_frame is Some,
    ) << 6u8 | b2u(m.newline_mode) << 7u8
}

/// The saved cursor, if any: row, column, style.
pub open spec fn saved_bytes(s: Option<(nat, nat, TextStyle)>) -> Seq<u8> {
    match s {
        Some((r, c, st)) => le32(r as u32) + le32(c as u32) + style_bytes(st),
        None => Seq::empty(),
    }
}

/// The synchronized frame, if any.
pub open spec fn frame_bytes(f: Option<Grid>) -> Seq<u8> {
    match f {
        Some(g) => grid_bytes(g),
        None => Seq::empty(),
    }
}

/// The checkpoint of state `m`.
pub open spec fn checkpoint_bytes(m: TermModel) -> Seq<u8> {
    magic() + le16(VERSION) + seq![flag_byte(m)] + style_bytes(m.style) + le32(
        m.scroll_top as u32,
    ) + le32(m.scroll_bottom as u32) + saved_bytes(m.saved) + le32(m.tabs.len() as u32)
        + tab_bytes(m.tabs) + grid_bytes(m.primary) + grid_bytes(m.alt) + frame_bytes(
        m.sync_frame,
    )
}

// ---- writing ---------------------------------------------------------------------

/// Append `v` as two little-endian bytes.
pub fn put_u16(w: &mut Vec<u8>, v: u16)
    ensures
        final(w)@ == old(w)@ + le16(v),
{
    w.push((v & 0xff) as u8);
    w.push((v >> 8u16) as u8);
    assert(final(w)@ =~= old(w)@ + le16(v));
}

/// Append `v` as four little-endian bytes.
pub fn put_u32(w: &mut Vec<u8>, v: u32)
    ensures
        final(w)@ == old(w)@ + le32(v),
{
    w.push((v & 0xff) as u8);
    w.push(((v >> 8u32) & 0xff) as u8);
    w.push(((v >> 16u32) & 0xff) as u8);
    w.push((v >> 24u32) as u8);
    assert(final(w)@ =~= old(w)@ + le32(v));
}

fn bit(b: bool) -> (r: u8)
    ensures
        r == b2u(b),
{
    if b {
        1
    } else {
        0
    }
}

fn put_color(w: &mut Vec<u8>, c: Color)
    ensures
        final(w)@ == old(w)@ + color_bytes(c),
{
    match c {
        Color::Default => {
            w.push(0);
            w.push(0);
            w.push(0);
            w.push(0);
        },
        Color::Indexed(i) => {
            w.push(1);
            w.push(i);
            w.push(0);
            w.push(0);
        },
        Color::Rgb(r, g, b) => {
            w.push(2);
            w.push(r);
            w.push(g);
            w.push(b);
        },
    }
    assert(final(w)@ =~= old(w)@ + color_bytes(c));
}

/// Append a style: foreground, background, attribute byte.
pub fn put_style(w: &mut Vec<u8>, s: &TextStyle)
    ensures
        final(w)@ == old(w)@ + style_bytes(*s),
{
    put_color(w, s.fg);
    put_color(w, s.bg);
    let a = bit(s.bold) | bit(s.dim) << 1u8 | bit(s.italic) << 2u8 | bit(s.underline) << 3u8 | bit(
        s.reverse,
    ) << 4u8 | bit(s.strike) << 5u8;
    w.push(a);
    assert(final(w)@ =~= old(w)@ + style_bytes(*s));
}

fn put_cell(w: &mut Vec<u8>, c: &GridCell)
    ensures
        final(w)@ == old(w)@ + cell_bytes(*c),
{
    put_u32(w, c.ch as u32);
    let code: u8 = match c.width {
        CellWidth::Continuation => 0,
        CellWidth::Single => 1,
        CellWidth::Wide => 2,
    };
    w.push(code);
    put_style(w, &c.style);
    assert(final(w)@ =~= old(w)@ + cell_bytes(*c));
}

/// An `ansi::Cell` as the library's cell.
fn grid_cell(c: ansi::Cell) -> (r: GridCell)
    ensures
        r == cell_model(c),
{
    let (ch, st, width) = from_ansi_cell(c);
    GridCell { ch, style: from_ansi_style(st), width }
}

/// The runs of a sequence with one more cell: the last run grows, or a new
/// run starts.
proof fn lemma_runs_push(p: Seq<GridCell>, x: GridCell)
    ensures
        runs(p.push(x)) == (if runs(p).len() > 0 && runs(p).last().1 == x {
            runs(p).update(runs(p).len() - 1, ((runs(p).last().0 + 1) as nat, x))
        } else {
            runs(p).push((1nat, x))
        }),
{
    assert(p.push(x).drop_last() =~= p);
}

/// A non-empty sequence has runs, the last no longer than the sequence.
proof fn lemma_runs_last(p: Seq<GridCell>)
    ensures
        p.len() > 0 ==> runs(p).len() > 0,
        runs(p).len() > 0 ==> 1 <= runs(p).last().0 <= p.len(),
    decreases p.len(),
{
    if p.len() > 0 {
        lemma_runs_last(p.drop_last());
    }
}

/// The bytes of one more run.
proof fn lemma_runs_bytes_push(rs: Seq<(nat, GridCell)>, y: (nat, GridCell))
    ensures
        runs_bytes(rs.push(y)) == runs_bytes(rs) + le32(y.0 as u32) + cell_bytes(y.1),
{
    assert(rs.push(y).drop_last() =~= rs);
}

/// All runs but the last, which is still growing.
pub open spec fn closed_runs(rs: Seq<(nat, GridCell)>) -> Seq<(nat, GridCell)> {
    if rs.len() > 0 {
        rs.drop_last()
    } else {
        rs
    }
}

/// Append a screen: dimensions, cursor, then runs of equal cells in
/// row-major order.
pub fn put_screen(w: &mut Vec<u8>, s: &ansi::Screen)
    requires
        screen_view(*s).has_size(screen_view(*s).cells.len(), screen_view(*s).cols),
        screen_view(*s).cells.len() >= 1,
        screen_view(*s).cols >= 1,
        screen_view(*s).cells.len() * screen_view(*s).cols <= u32::MAX,
    ensures
        final(w)@ == old(w)@ + grid_bytes(screen_view(*s)),
{
    let ghost g = screen_view(*s);
    let rows = s.rows();
    let cols = s.cols();
    let (crow, ccol) = cursor_of(s);
    proof {
        assert(rows <= rows * cols) by (nonlinear_arith)
            requires
                cols >= 1,
        ;
        assert(cols <= rows * cols) by (nonlinear_arith)
            requires
                rows >= 1,
        ;
    }
    put_u32(w, rows as u32);
    put_u32(w, cols as u32);
    put_u32(w, crow as u32);
    put_u32(w, ccol as u32);
    let ghost head = w@;
    let mut run: Option<(GridCell, u32)> = None;
    let mut r: usize = 0;
    assert(flat(g.cells.take(0)) =~= Seq::<GridCell>::empty());
    while r < rows
        invariant
            g == screen_view(*s),
            g.has_size(rows as nat, cols as nat),
            rows * cols <= u32::MAX,
            r <= rows,
            flat(g.cells.take(r as int)).len() == r * cols,
            w@ == head + runs_bytes(closed_runs(runs(flat(g.cells.take(r as int))))),
            match run {
                Some((c, n)) => runs(flat(g.cells.take(r as int))).len() > 0 && runs(
                    flat(g.cells.take(r as int)),
                ).last() == (n as nat, c),
                None => runs(flat(g.cells.take(r as int))).len() == 0,
            },
        decreases rows - r,
    {
        let ghost base = flat(g.cells.take(r as int));
        let ghost line = g.cells[r as int];
        assert(line.take(0) =~= Seq::<GridCell>::empty());
        assert(base + line.take(0) =~= base);
        proof {
            assert((r + 1) * cols == r * cols + cols) by (nonlinear_arith);
            assert((r + 1) * cols <= rows * cols) by (nonlinear_arith)
                requires
                    r + 1 <= rows,
            ;
        }
        let mut c: usize = 0;
        while c < cols
            invariant
                g == screen_view(*s),
                g.has_size(rows as nat, cols as nat),
                rows * cols <= u32::MAX,
                r < rows,
                c <= cols,
                base == flat(g.cells.take(r as int)),
                line == g.cells[r as int],
                base.len() == r * cols,
                (r + 1) * cols <= rows * cols,
                (r + 1) * cols == r * cols + cols,
                w@ == head + runs_bytes(closed_runs(runs(base + line.take(c as int)))),
                match run {
                    Some((x, n)) => runs(base + line.take(c as int)).len() > 0 && runs(
                        base + line.take(c as int),
                    ).last() == (n as nat, x),
                    None => runs(base + line.take(c as int)).len() == 0,
                },
            decreases cols - c,
        {
            let cell = grid_cell(s.cell(r, c));
            let ghost p = base + line.take(c as int);
            proof {
                assert(base + line.take(c + 1) =~= p.push(cell));
                lemma_runs_push(p, cell);
                lemma_runs_last(p);
            }
            match run {
                Some((x, n)) => {
                    if x == cell {
                        proof {
                            assert(n + 1 <= p.len() + 1);
                            assert(p.len() + 1 <= rows * cols);
                            let rs = runs(p);
                            assert(closed_runs(rs.update(rs.len() - 1, ((rs.last().0 + 1) as nat, cell))) =~= closed_runs(rs));
                        }
                        run = Some((x, n + 1));
                    } else {
                        put_u32(w, n);
                        put_cell(w, &x);
                        proof {
                            let rs = runs(p);
                            lemma_runs_bytes_push(rs.drop_last(), rs.last());
                            assert(rs.drop_last().push(rs.last()) =~= rs);
                            assert(closed_runs(rs.push((1nat, cell))) =~= rs);
                        }
                        run = Some((cell, 1));
                    }
                },
                None => {
                    proof {
                        let rs = runs(p);
                        assert(closed_runs(rs.push((1nat, cell))) =~= rs);
                    }
                    run = Some((cell, 1));
                },
            }
            c += 1;
        }
        proof {
            assert(line.take(cols as int) =~= line);
            assert(g.cells.take(r + 1).drop_last() =~= g.cells.take(r as int));
            assert(flat(g.cells.take(r + 1)) == base + line);
        }
        r += 1;
    }
    proof {
        assert(g.cells.take(rows as int) =~= g.cells);
    }
    if let Some((x, n)) = run {
        put_u32(w, n);
        put_cell(w, &x);
        proof {
            let rs = runs(flat(g.cells));
            lemma_runs_bytes_push(rs.drop_last(), rs.last());
            assert(rs.drop_last().push(rs.last()) =~= rs);
        }
    }
    assert(final(w)@ =~= old(w)@ + grid_bytes(g));
}

/// Append the tab stops, eight to a byte.
fn put_tabs(w: &mut Vec<u8>, tabs: &Vec<bool>)
    ensures
        final(w)@ == old(w)@ + tab_bytes(tabs@),
{
    let ghost w0 = w@;
    let n = tabs.len();
    let nbytes = n / 8 + if n % 8 != 0 { 1 } else { 0 };
    assert(nbytes == (n + 7) / 8);
    let mut i: usize = 0;
    while i < nbytes
        invariant
            n == tabs@.len(),
            nbytes == (n + 7) / 8,
            i <= nbytes,
            w@ == w0 + tab_bytes(tabs@).take(i as int),
        decreases nbytes - i,
    {
        let k = 8 * i;
        let b = tab_flag(tabs, k) | tab_flag(tabs, k + 1) << 1u8 | tab_flag(tabs, k + 2) << 2u8
            | tab_flag(tabs, k + 3) << 3u8 | tab_flag(tabs, k + 4) << 4u8 | tab_flag(tabs, k + 5)
            << 5u8 | tab_flag(tabs, k + 6) << 6u8 | tab_flag(tabs, k + 7) << 7u8;
        w.push(b);
        assert(tab_bytes(tabs@).take(i + 1) =~= tab_bytes(tabs@).take(i as int).push(b));
        i += 1;
    }
    assert(tab_bytes(tabs@).take(nbytes as int) =~= tab_bytes(tabs@));
}

/// 1 if column `j` has a tab stop.
fn tab_flag(tabs: &Vec<bool>, j: usize) -> (r: u8)
    ensures
        r == tab_bit(tabs@, j as int),
{
    if j < tabs.len() && tabs[j] {
        1
    } else {
        0
    }
}

impl Term {
    /// True when a checkpoint can be taken now: the tokenizer is between
    /// sequences and no UTF-8 character is half-decoded.
    pub fn can_checkpoint(&self) -> (b: bool)
        ensures
            b == self.at_rest(),
    {
        self.parser.is_ground() && !self.decoder.is_pending()
    }

    /// The emulator's whole state as bytes, or `None` if a sequence or
    /// character is in progress ([`can_checkpoint`](Term::can_checkpoint)).
    /// Deterministic: equal states give equal bytes.
    pub fn checkpoint(&self) -> (r: Option<Vec<u8>>)
        requires
            self.wf(),
            self@.rows() * self@.cols() <= u32::MAX,
        ensures
            r is Some <==> self.at_rest(),
            r matches Some(b) ==> b@ == checkpoint_bytes(self@),
    {
        if !self.can_checkpoint() {
            return None;
        }
        let ghost m = self@;
        proof {
            assert(m.rows() <= m.rows() * m.cols()) by (nonlinear_arith)
                requires
                    m.cols() >= 1,
            ;
            assert(m.cols() <= m.rows() * m.cols()) by (nonlinear_arith)
                requires
                    m.rows() >= 1,
            ;
        }
        let mut w: Vec<u8> = Vec::new();
        w.push(0x56);
        w.push(0x54);
        w.push(0x43);
        w.push(0x4B);
        put_u16(&mut w, VERSION);
        let flags = bit(self.in_alt) | bit(self.wrap_pending) << 1u8 | bit(self.autowrap) << 2u8
            | bit(self.cursor_visible) << 3u8 | bit(self.sync_frame.is_some()) << 4u8 | bit(
            self.saved.is_some(),
        ) << 5u8 | bit(self.sync_frame.is_some()) << 6u8 | bit(self.newline_mode) << 7u8;
        assert(flags == flag_byte(m));
        w.push(flags);
        put_style(&mut w, &self.style);
        put_u32(&mut w, self.scroll_top as u32);
        put_u32(&mut w, self.scroll_bottom as u32);
        let ghost w1 = w@;
        assert(w1 =~= magic() + le16(VERSION) + seq![flag_byte(m)] + style_bytes(m.style) + le32(
            m.scroll_top as u32,
        ) + le32(m.scroll_bottom as u32));
        if let Some((r, c, st)) = &self.saved {
            put_u32(&mut w, *r as u32);
            put_u32(&mut w, *c as u32);
            put_style(&mut w, st);
        }
        assert(w@ =~= w1 + saved_bytes(m.saved));
        let ghost w2 = w@;
        put_u32(&mut w, self.tabs.len() as u32);
        put_tabs(&mut w, &self.tabs);
        assert(w@ =~= w2 + le32(m.tabs.len() as u32) + tab_bytes(m.tabs));
        let ghost w3 = w@;
        put_screen(&mut w, &self.primary);
        put_screen(&mut w, &self.alt);
        if let Some(f) = &self.sync_frame {
            put_screen(&mut w, f);
        }
        assert(w@ =~= w3 + grid_bytes(m.primary) + grid_bytes(m.alt) + frame_bytes(m.sync_frame));
        assert(w@ =~= checkpoint_bytes(m));
        Some(w)
    }
}

// ---- reading ---------------------------------------------------------------------

/// The two bytes `b0, b1` as a little-endian number.
pub open spec fn from_le16(b0: u8, b1: u8) -> u16 {
    (b0 as u16) | (b1 as u16) << 8u16
}

/// The four bytes `b0..b3` as a little-endian number.
pub open spec fn from_le32(b0: u8, b1: u8, b2: u8, b3: u8) -> u32 {
    (b0 as u32) | (b1 as u32) << 8u32 | (b2 as u32) << 16u32 | (b3 as u32) << 24u32
}

/// The first `n` bytes of `s` and what follows them.
pub open spec fn rd_take(s: Seq<u8>, n: int) -> Result<(Seq<u8>, Seq<u8>), RestoreError> {
    if 0 <= n <= s.len() {
        Ok((s.take(n), s.skip(n)))
    } else {
        Err(RestoreError::Truncated)
    }
}

/// One byte.
pub open spec fn rd_u8(s: Seq<u8>) -> Result<(u8, Seq<u8>), RestoreError> {
    if s.len() >= 1 {
        Ok((s[0], s.skip(1)))
    } else {
        Err(RestoreError::Truncated)
    }
}

/// A little-endian `u16`.
pub open spec fn rd_u16(s: Seq<u8>) -> Result<(u16, Seq<u8>), RestoreError> {
    if s.len() >= 2 {
        Ok((from_le16(s[0], s[1]), s.skip(2)))
    } else {
        Err(RestoreError::Truncated)
    }
}

/// A little-endian `u32`.
pub open spec fn rd_u32(s: Seq<u8>) -> Result<(u32, Seq<u8>), RestoreError> {
    if s.len() >= 4 {
        Ok((from_le32(s[0], s[1], s[2], s[3]), s.skip(4)))
    } else {
        Err(RestoreError::Truncated)
    }
}

/// A colour: four bytes, the tag first.
pub open spec fn rd_color(s: Seq<u8>) -> Result<(Color, Seq<u8>), RestoreError> {
    if s.len() < 4 {
        Err(RestoreError::Truncated)
    } else if s[0] == 0 {
        Ok((Color::Default, s.skip(4)))
    } else if s[0] == 1 {
        Ok((Color::Indexed(s[1]), s.skip(4)))
    } else if s[0] == 2 {
        Ok((Color::Rgb(s[1], s[2], s[3]), s.skip(4)))
    } else {
        Err(RestoreError::UnknownColour)
    }
}

/// The style with colours `fg`, `bg` and the attribute bits of `a`.
pub open spec fn style_of(fg: Color, bg: Color, a: u8) -> TextStyle {
    TextStyle {
        fg,
        bg,
        bold: a & 1 != 0,
        dim: a & 2 != 0,
        italic: a & 4 != 0,
        underline: a & 8 != 0,
        reverse: a & 16 != 0,
        strike: a & 32 != 0,
    }
}

/// A style: two colours and an attribute byte with no bit above the sixth.
#[verifier::opaque]
pub open spec fn rd_style(s: Seq<u8>) -> Result<(TextStyle, Seq<u8>), RestoreError> {
    match rd_color(s) {
        Err(e) => Err(e),
        Ok((fg, s1)) => match rd_color(s1) {
            Err(e) => Err(e),
            Ok((bg, s2)) => match rd_u8(s2) {
                Err(e) => Err(e),
                Ok((a, s3)) => if a >> 6u8 != 0 {
                    Err(RestoreError::UnknownStyleAttribute)
                } else {
                    Ok((style_of(fg, bg, a), s3))
                },
            },
        },
    }
}

/// Whether `v` is a Unicode scalar value.
pub open spec fn is_scalar(v: u32) -> bool {
    v < 0xD800 || (0xE000 <= v && v < 0x110000)
}

/// The cell width with code `w` (0, 1 or 2).
pub open spec fn width_of(w: u8) -> CellWidth {
    if w == 0 {
        CellWidth::Continuation
    } else if w == 1 {
        CellWidth::Single
    } else {
        CellWidth::Wide
    }
}

/// A cell: a character code, a width code and a style.
#[verifier::opaque]
pub open spec fn rd_cell(s: Seq<u8>) -> Result<(GridCell, Seq<u8>), RestoreError> {
    match rd_u32(s) {
        Err(e) => Err(e),
        Ok((v, s1)) => if !is_scalar(v) {
            Err(RestoreError::InvalidCharacter)
        } else {
            match rd_u8(s1) {
                Err(e) => Err(e),
                Ok((w, s2)) => if w > 2 {
                    Err(RestoreError::UnknownCellWidth)
                } else {
                    match rd_style(s2) {
                        Err(e) => Err(e),
                        Ok((st, s3)) => Ok((GridCell { ch: v as char, style: st, width: width_of(w) }, s3)),
                    }
                },
            }
        },
    }
}

/// Runs of cells covering exactly `left` cells: each a count (at least one,
/// at most what is left) and a cell.
#[verifier::opaque]
pub open spec fn rd_runs(s: Seq<u8>, left: nat) -> Result<(Seq<GridCell>, Seq<u8>), RestoreError>
    decreases left,
{
    if left == 0 {
        Ok((Seq::empty(), s))
    } else {
        match rd_u32(s) {
            Err(e) => Err(e),
            Ok((n, s1)) => if n == 0 || n > left {
                Err(RestoreError::BadCellRun)
            } else {
                match rd_cell(s1) {
                    Err(e) => Err(e),
                    Ok((c, s2)) => match rd_runs(s2, (left - n) as nat) {
                        Err(e) => Err(e),
                        Ok((rest, s3)) => Ok((Seq::new(n as nat, |i: int| c) + rest, s3)),
                    },
                }
            },
        }
    }
}

/// Cells laid out row by row as a `rows x cols` grid.
pub open spec fn unflat(e: Seq<GridCell>, rows: nat, cols: nat) -> Seq<Seq<GridCell>> {
    Seq::new(rows, |r: int| Seq::new(cols, |c: int| e[r * cols + c]))
}

/// A screen: rows and columns (at least one cell, at most [`MAX_CELLS`]),
/// the cursor (on the screen), then runs covering every cell.
#[verifier::opaque]
pub open spec fn rd_screen(s: Seq<u8>) -> Result<(Grid, Seq<u8>), RestoreError> {
    match rd_u32(s) {
        Err(e) => Err(e),
        Ok((rows, s1)) => match rd_u32(s1) {
            Err(e) => Err(e),
            Ok((cols, s2)) => if rows * cols == 0 || rows * cols > MAX_CELLS {
                Err(RestoreError::ScreenSizeOutOfRange)
            } else {
                match rd_u32(s2) {
                    Err(e) => Err(e),
                    Ok((crow, s3)) => match rd_u32(s3) {
                        Err(e) => Err(e),
                        Ok((ccol, s4)) => if crow >= rows || ccol >= cols {
                            Err(RestoreError::CursorOutsideScreen)
                        } else {
                            match rd_runs(s4, (rows * cols) as nat) {
                                Err(e) => Err(e),
                                Ok((e, s5)) => Ok((
                                    Grid {
                                        cells: unflat(e, rows as nat, cols as nat),
                                        cols: cols as nat,
                                        row: crow as nat,
                                        col: ccol as nat,
                                    },
                                    s5,
                                )),
                            }
                        },
                    },
                }
            },
        },
    }
}

/// Whether bit `i` of `flags` is set.
pub open spec fn flag(flags: u8, i: u8) -> bool {
    flags & (1u8 << i) != 0
}

/// The saved cursor, read only when `present`.
pub open spec fn rd_saved(s: Seq<u8>, present: bool) -> Result<
    (Option<(nat, nat, TextStyle)>, Seq<u8>),
    RestoreError,
> {
    if !present {
        Ok((None, s))
    } else {
        match rd_u32(s) {
            Err(e) => Err(e),
            Ok((r, s1)) => match rd_u32(s1) {
                Err(e) => Err(e),
                Ok((c, s2)) => match rd_style(s2) {
                    Err(e) => Err(e),
                    Ok((st, s3)) => Ok((Some((r as nat, c as nat, st)), s3)),
                },
            },
        }
    }
}

/// The tab stops: a count, then the flags packed eight to a byte.
#[verifier::opaque]
pub open spec fn rd_tabs(s: Seq<u8>) -> Result<(Seq<bool>, Seq<u8>), RestoreError> {
    match rd_u32(s) {
        Err(e) => Err(e),
        Ok((n, s1)) => match rd_take(s1, (n + 7) / 8) {
            Err(e) => Err(e),
            Ok((tb, s2)) => Ok((Seq::new(n as nat, |i: int| tb[i / 8] & (1u8 << (i % 8) as u8) != 0), s2)),
        },
    }
}

/// The synchronized frame, read only when `present`.
pub open spec fn rd_frame(s: Seq<u8>, present: bool) -> Result<(Option<Grid>, Seq<u8>), RestoreError> {
    if !present {
        Ok((None, s))
    } else {
        match rd_screen(s) {
            Err(e) => Err(e),
            Ok((g, s1)) => Ok((Some(g), s1)),
        }
    }
}

/// What the fields of a checkpoint say, read in order.
pub struct Fields {
    pub flags: u8,
    pub style: TextStyle,
    pub top: u32,
    pub bottom: u32,
    pub saved: Option<(nat, nat, TextStyle)>,
    pub tabs: Seq<bool>,
    pub primary: Grid,
    pub alt: Grid,
    pub frame: Option<Grid>,
}

/// Read the fields of a checkpoint, or say which one is damaged. Trailing
/// bytes are an error.
#[verifier::opaque]
pub open spec fn rd_fields(b: Seq<u8>) -> Result<Fields, RestoreError> {
    match rd_take(b, 4) {
        Err(e) => Err(e),
        Ok((mg, s1)) => if mg != magic() {
            Err(RestoreError::NotACheckpoint)
        } else {
            match rd_u16(s1) {
                Err(e) => Err(e),
                Ok((v, s2)) => if v != VERSION {
                    Err(RestoreError::UnsupportedVersion)
                } else {
                    match rd_u8(s2) {
                        Err(e) => Err(e),
                        Ok((flags, s3)) => rd_body(s3, flags),
                    }
                },
            }
        },
    }
}

/// The fields after the flag byte.
#[verifier::opaque]
pub open spec fn rd_body(s3: Seq<u8>, flags: u8) -> Result<Fields, RestoreError> {
    match rd_style(s3) {
        Err(e) => Err(e),
        Ok((style, s4)) => match rd_u32(s4) {
            Err(e) => Err(e),
            Ok((top, s5)) => match rd_u32(s5) {
                Err(e) => Err(e),
                Ok((bottom, s6)) => match rd_saved(s6, flag(flags, 5)) {
                    Err(e) => Err(e),
                    Ok((saved, s7)) => match rd_tabs(s7) {
                        Err(e) => Err(e),
                        Ok((tabs, s8)) => match rd_screens(s8, flag(flags, 6)) {
                            Err(e) => Err(e),
                            Ok((primary, alt, frame)) => Ok(
                                Fields { flags, style, top, bottom, saved, tabs, primary, alt, frame },
                            ),
                        },
                    },
                },
            },
        },
    }
}

/// The primary and alternate screens and, when `with_frame`, the
/// synchronized frame; then the end of the bytes.
pub open spec fn rd_screens(s8: Seq<u8>, with_frame: bool) -> Result<(Grid, Grid, Option<Grid>), RestoreError> {
    match rd_screen(s8) {
        Err(e) => Err(e),
        Ok((primary, s9)) => match rd_screen(s9) {
            Err(e) => Err(e),
            Ok((alt, s10)) => match rd_frame(s10, with_frame) {
                Err(e) => Err(e),
                Ok((frame, s11)) => if s11.len() != 0 {
                    Err(RestoreError::TrailingBytes)
                } else {
                    Ok((primary, alt, frame))
                },
            },
        },
    }
}

/// The state a checkpoint's fields describe, if they fit together: every
/// screen the primary screen's size, a tab flag per column, the scroll
/// region and the saved cursor on the screen, and the synchronized-update
/// flag matching the frame.
pub open spec fn validate(f: Fields) -> Result<TermModel, RestoreError> {
    let rows = f.primary.cells.len();
    let cols = f.primary.cols;
    let same = |g: Grid| g.cells.len() == rows && g.cols == cols;
    if !same(f.alt) || (f.frame matches Some(g) && !same(g)) {
        Err(RestoreError::ScreensDisagree)
    } else if f.tabs.len() != cols {
        Err(RestoreError::TabStopsMismatch)
    } else if f.top > f.bottom || f.bottom >= rows {
        Err(RestoreError::ScrollRegionOutside)
    } else if f.saved matches Some((r, c, _)) && (r >= rows || c >= cols) {
        Err(RestoreError::SavedCursorOutside)
    } else if flag(f.flags, 4) != (f.frame is Some) {
        Err(RestoreError::SyncWithoutFrame)
    } else {
        Ok(
            TermModel {
                primary: f.primary,
                alt: f.alt,
                in_alt: flag(f.flags, 0),
                style: f.style,
                scroll_top: f.top as nat,
                scroll_bottom: f.bottom as nat,
                saved: f.saved,
                tabs: f.tabs,
                wrap_pending: flag(f.flags, 1),
                autowrap: flag(f.flags, 2),
                cursor_visible: flag(f.flags, 3),
                sync_frame: f.frame,
                newline_mode: flag(f.flags, 7),
            },
        )
    }
}

/// What [`Term::restore`] makes of `b`: the state it describes, or the first
/// thing wrong with it.
pub open spec fn decode(b: Seq<u8>) -> Result<TermModel, RestoreError> {
    match rd_fields(b) {
        Err(e) => Err(e),
        Ok(f) => validate(f),
    }
}

/// A cursor over checkpoint bytes. Each read consumes what it reads, or
/// fails with the reason and consumes nothing.
pub struct Reader<'a> {
    bytes: &'a [u8],
    at: usize,
}

impl<'a> View for Reader<'a> {
    /// The bytes not yet read.
    type V = Seq<u8>;

    closed spec fn view(&self) -> Seq<u8> {
        self.bytes@.skip(self.at as int)
    }
}

impl<'a> Reader<'a> {
    /// The position lies within the bytes.
    pub closed spec fn wf(&self) -> bool {
        self.at <= self.bytes@.len()
    }

    /// A reader at the start of `bytes`.
    pub fn new(bytes: &'a [u8]) -> (r: Reader<'a>)
        ensures
            r.wf(),
            r@ == bytes@,
    {
        let r = Reader { bytes, at: 0 };
        assert(r@ =~= bytes@);
        r
    }

    /// True when every byte has been read.
    pub fn at_end(&self) -> (b: bool)
        requires
            self.wf(),
        ensures
            b == (self@.len() == 0),
    {
        self.at == self.bytes.len()
    }

    /// The next `n` bytes.
    pub fn take(&mut self, n: usize) -> (r: Result<&'a [u8], RestoreError>)
        requires
            old(self).wf(),
        ensures
            final(self).wf(),
            rd_take(old(self)@, n as int) == match r {
                Ok(s) => Ok((s@, final(self)@)),
                Err(e) => Err(e),
            },
            r is Err ==> final(self)@ == old(self)@,
    {
        if n > self.bytes.len() - self.at {
            return Err(RestoreError::Truncated);
        }
        let end = self.at + n;
        let s = &self.bytes[self.at..end];
        let ghost before = self@;
        self.at = end;
        assert(s@ =~= before.take(n as int));
        assert(self@ =~= before.skip(n as int));
        Ok(s)
    }

    /// The next byte.
    pub fn u8(&mut self) -> (r: Result<u8, RestoreError>)
        requires
            old(self).wf(),
        ensures
            final(self).wf(),
            rd_u8(old(self)@) == match r {
                Ok(v) => Ok((v, final(self)@)),
                Err(e) => Err(e),
            },
            r is Err ==> final(self)@ == old(self)@,
    {
        let b = self.take(1)?;
        Ok(b[0])
    }

    /// The next two bytes, little-endian.
    pub fn u16(&mut self) -> (r: Result<u16, RestoreError>)
        requires
            old(self).wf(),
        ensures
            final(self).wf(),
            rd_u16(old(self)@) == match r {
                Ok(v) => Ok((v, final(self)@)),
                Err(e) => Err(e),
            },
            r is Err ==> final(self)@ == old(self)@,
    {
        let b = self.take(2)?;
        Ok((b[0] as u16) | (b[1] as u16) << 8u16)
    }

    /// The next four bytes, little-endian.
    pub fn u32(&mut self) -> (r: Result<u32, RestoreError>)
        requires
            old(self).wf(),
        ensures
            final(self).wf(),
            rd_u32(old(self)@) == match r {
                Ok(v) => Ok((v, final(self)@)),
                Err(e) => Err(e),
            },
            r is Err ==> final(self)@ == old(self)@,
    {
        let b = self.take(4)?;
        Ok((b[0] as u32) | (b[1] as u32) << 8u32 | (b[2] as u32) << 16u32 | (b[3] as u32) << 24u32)
    }

    /// A colour.
    pub fn color(&mut self) -> (r: Result<Color, RestoreError>)
        requires
            old(self).wf(),
        ensures
            final(self).wf(),
            rd_color(old(self)@) == match r {
                Ok(v) => Ok((v, final(self)@)),
                Err(e) => Err(e),
            },
    {
        let b = self.take(4)?;
        if b[0] == 0 {
            Ok(Color::Default)
        } else if b[0] == 1 {
            Ok(Color::Indexed(b[1]))
        } else if b[0] == 2 {
            Ok(Color::Rgb(b[1], b[2], b[3]))
        } else {
            Err(RestoreError::UnknownColour)
        }
    }

    /// A style.
    pub fn style(&mut self) -> (r: Result<TextStyle, RestoreError>)
        requires
            old(self).wf(),
        ensures
            final(self).wf(),
            rd_style(old(self)@) == match r {
                Ok(v) => Ok((v, final(self)@)),
                Err(e) => Err(e),
            },
    {
        reveal(rd_style);
        let fg = self.color()?;
        let bg = self.color()?;
        let a = self.u8()?;
        if a >> 6u8 != 0 {
            return Err(RestoreError::UnknownStyleAttribute);
        }
        Ok(
            TextStyle {
                fg,
                bg,
                bold: a & 1 != 0,
                dim: a & 2 != 0,
                italic: a & 4 != 0,
                underline: a & 8 != 0,
                reverse: a & 16 != 0,
                strike: a & 32 != 0,
            },
        )
    }

    /// A cell.
    pub fn cell(&mut self) -> (r: Result<GridCell, RestoreError>)
        requires
            old(self).wf(),
        ensures
            final(self).wf(),
            rd_cell(old(self)@) == match r {
                Ok(v) => Ok((v, final(self)@)),
                Err(e) => Err(e),
            },
    {
        reveal(rd_cell);
        let v = self.u32()?;
        let ch = match char_from_u32(v) {
            Some(ch) => ch,
            None => {
                return Err(RestoreError::InvalidCharacter);
            },
        };
        let w = self.u8()?;
        let width = if w == 0 {
            CellWidth::Continuation
        } else if w == 1 {
            CellWidth::Single
        } else if w == 2 {
            CellWidth::Wide
        } else {
            return Err(RestoreError::UnknownCellWidth);
        };
        let style = self.style()?;
        Ok(GridCell { ch, style, width })
    }
}

/// Runs that read successfully cover exactly the cells asked for.
proof fn lemma_rd_runs_len(s: Seq<u8>, left: nat)
    ensures
        rd_runs(s, left) matches Ok((cells, _)) ==> cells.len() == left,
    decreases left,
{
    reveal(rd_runs);
    if left > 0 {
        if let Ok((n, s1)) = rd_u32(s) {
            if !(n == 0 || n > left) {
                if let Ok((c, s2)) = rd_cell(s1) {
                    lemma_rd_runs_len(s2, (left - n) as nat);
                }
            }
        }
    }
}

/// `cells` joined to what `rest` reads, or its error.
pub open spec fn prepend(
    cells: Seq<GridCell>,
    rest: Result<(Seq<GridCell>, Seq<u8>), RestoreError>,
) -> Result<(Seq<GridCell>, Seq<u8>), RestoreError> {
    match rest {
        Ok((more, s)) => Ok((cells + more, s)),
        Err(e) => Err(e),
    }
}

/// Read runs covering exactly `total` cells.
fn read_runs(r: &mut Reader, total: usize) -> (res: Result<Vec<GridCell>, RestoreError>)
    requires
        old(r).wf(),
    ensures
        final(r).wf(),
        rd_runs(old(r)@, total as nat) == match res {
            Ok(v) => Ok((v@, final(r)@)),
            Err(e) => Err(e),
        },
{
    reveal(rd_runs);
    let ghost r0 = r@;
    let mut cells: Vec<GridCell> = Vec::new();
    let mut filled: usize = 0;
    assert(prepend(cells@, rd_runs(r@, total as nat)) =~= rd_runs(r0, total as nat)) by {
        match rd_runs(r0, total as nat) {
            Ok((more, s)) => {
                assert(cells@ + more =~= more);
            },
            Err(e) => {},
        }
    }
    while filled < total
        invariant
            r.wf(),
            r0 == old(r)@,
            filled <= total,
            cells@.len() == filled,
            rd_runs(r0, total as nat) == prepend(cells@, rd_runs(r@, (total - filled) as nat)),
        decreases total - filled,
    {
        let left = total - filled;
        let ghost cur = r@;
        reveal(rd_runs);
        assert(rd_runs(cur, left as nat) == match rd_u32(cur) {
            Err(e) => Err(e),
            Ok((n, s1)) => if n == 0 || n > left {
                Err(RestoreError::BadCellRun)
            } else {
                match rd_cell(s1) {
                    Err(e) => Err(e),
                    Ok((c, s2)) => match rd_runs(s2, (left - n) as nat) {
                        Err(e) => Err(e),
                        Ok((rest, s3)) => Ok((Seq::new(n as nat, |i: int| c) + rest, s3)),
                    },
                }
            },
        });
        let n = match r.u32() {
            Ok(n) => n,
            Err(e) => {
                return Err(e);
            },
        };
        if n == 0 || n as usize > left {
            return Err(RestoreError::BadCellRun);
        }
        let cell = match r.cell() {
            Ok(c) => c,
            Err(e) => {
                return Err(e);
            },
        };
        let ghost base = cells@;
        let mut i: u32 = 0;
        while i < n
            invariant
                i <= n,
                cells@ == base + Seq::new(i as nat, |j: int| cell),
            decreases n - i,
        {
            cells.push(cell);
            i += 1;
            assert(cells@ =~= base + Seq::new(i as nat, |j: int| cell));
        }
        proof {
            let rep = Seq::new(n as nat, |j: int| cell);
            match rd_runs(r@, (left - n) as nat) {
                Ok((rest, s3)) => {
                    assert(base + (rep + rest) =~= base + rep + rest);
                },
                Err(e) => {},
            }
        }
        filled = filled + n as usize;
    }
    proof {
        assert(cells@ + Seq::<GridCell>::empty() =~= cells@);
    }
    Ok(cells)
}

/// The cells of a `rows x cols` grid filled from `e` up to (not including)
/// column `c` of row `r`, the rest blank.
pub open spec fn partial_fill(e: Seq<GridCell>, rows: nat, cols: nat, r: int, c: int) -> Seq<Seq<GridCell>> {
    Seq::new(
        rows,
        |rr: int|
            Seq::new(
                cols,
                |cc: int|
                    if rr < r || (rr == r && cc < c) {
                        e[rr * cols + cc]
                    } else {
                        blank_cell()
                    },
            ),
    )
}

/// A screen holding the cells `e`, row by row, the cursor at the origin.
fn fill_screen(rows: usize, cols: usize, e: &Vec<GridCell>) -> (s: ansi::Screen)
    requires
        rows >= 1,
        cols >= 1,
        rows * cols <= MAX_CELLS,
        e@.len() == rows * cols,
    ensures
        screen_view(s) == (Grid { cells: unflat(e@, rows as nat, cols as nat), cols: cols as nat, row: 0, col: 0 }),
{
    let mut s = ansi::Screen::new(rows, cols);
    let ghost g0 = screen_view(s);
    proof {
        let a = partial_fill(e@, rows as nat, cols as nat, 0, 0);
        assert forall|x: int| 0 <= x < rows implies #[trigger] a[x] =~= g0.cells[x] by {}
        assert(a =~= g0.cells);
    }
    let mut k: usize = 0;
    let mut r: usize = 0;
    while r < rows
        invariant
            rows * cols <= MAX_CELLS,
            e@.len() == rows * cols,
            r <= rows,
            k == r * cols,
            screen_view(s) == (Grid { cells: partial_fill(e@, rows as nat, cols as nat, r as int, 0), ..g0 }),
            g0 == blank_grid_of(rows as nat, cols as nat),
        decreases rows - r,
    {
        proof {
            assert((r + 1) * cols == r * cols + cols) by (nonlinear_arith);
            assert((r + 1) * cols <= rows * cols) by (nonlinear_arith)
                requires
                    r + 1 <= rows,
            ;
        }
        let mut c: usize = 0;
        while c < cols
            invariant
                rows * cols <= MAX_CELLS,
                e@.len() == rows * cols,
                r < rows,
                c <= cols,
                k == r * cols + c,
                (r + 1) * cols <= rows * cols,
                (r + 1) * cols == r * cols + cols,
                screen_view(s) == (Grid {
                    cells: partial_fill(e@, rows as nat, cols as nat, r as int, c as int),
                    ..g0
                }),
                g0 == blank_grid_of(rows as nat, cols as nat),
            decreases cols - c,
        {
            let x = e[k];
            let st = to_ansi_style(&x.style);
            let cell = to_ansi_cell(x.ch, st, x.width);
            s.set(r, c, cell);
            proof {
                let before = partial_fill(e@, rows as nat, cols as nat, r as int, c as int);
                let want = partial_fill(e@, rows as nat, cols as nat, r as int, c + 1);
                let after = before.update(r as int, before[r as int].update(c as int, x));
                assert forall|y: int| 0 <= y < rows implies #[trigger] after[y] =~= want[y] by {}
                assert(after =~= want);
            }
            c += 1;
            k += 1;
        }
        proof {
            let a = partial_fill(e@, rows as nat, cols as nat, r as int, cols as int);
            let b = partial_fill(e@, rows as nat, cols as nat, r + 1, 0);
            assert forall|y: int| 0 <= y < rows implies #[trigger] a[y] =~= b[y] by {}
            assert(a =~= b);
        }
        r += 1;
    }
    proof {
        let a = partial_fill(e@, rows as nat, cols as nat, rows as int, 0);
        let b = unflat(e@, rows as nat, cols as nat);
        assert forall|y: int| 0 <= y < rows implies #[trigger] a[y] =~= b[y] by {}
        assert(a =~= b);
    }
    s
}

/// A restored screen: every row as wide as the screen, the cursor on it, and
/// between one and [`MAX_CELLS`] cells.
pub open spec fn screen_ok(s: ansi::Screen) -> bool {
    let g = screen_view(s);
    &&& g.has_size(g.cells.len(), g.cols)
    &&& 1 <= g.cells.len() * g.cols <= MAX_CELLS
}

impl<'a> Reader<'a> {
    /// A screen: its size, its cursor, then runs of cells covering it.
    pub fn screen(&mut self) -> (res: Result<ansi::Screen, RestoreError>)
        requires
            old(self).wf(),
        ensures
            final(self).wf(),
            res matches Ok(s) ==> screen_ok(s),
            rd_screen(old(self)@) == match res {
                Ok(s) => Ok((screen_view(s), final(self)@)),
                Err(e) => Err(e),
            },
    {
        reveal(rd_screen);
        let rows = self.u32()?;
        let cols = self.u32()?;
        assert((rows as u64) * (cols as u64) <= u64::MAX) by (nonlinear_arith)
            requires
                rows <= u32::MAX,
                cols <= u32::MAX,
        ;
        let total = (rows as u64) * (cols as u64);
        if total == 0 || total > MAX_CELLS as u64 {
            return Err(RestoreError::ScreenSizeOutOfRange);
        }
        let crow = self.u32()?;
        let ccol = self.u32()?;
        if crow >= rows || ccol >= cols {
            return Err(RestoreError::CursorOutsideScreen);
        }
        let ghost s4 = self@;
        let cells = read_runs(self, total as usize)?;
        proof {
            lemma_rd_runs_len(s4, total as nat);
        }
        let mut screen = fill_screen(rows as usize, cols as usize, &cells);
        put_cursor(&mut screen, crow as usize, ccol as usize);
        Ok(screen)
    }
}

/// Read the tab stops.
fn read_tabs(r: &mut Reader) -> (res: Result<Vec<bool>, RestoreError>)
    requires
        old(r).wf(),
    ensures
        final(r).wf(),
        rd_tabs(old(r)@) == match res {
            Ok(v) => Ok((v@, final(r)@)),
            Err(e) => Err(e),
        },
{
    reveal(rd_tabs);
    let n = r.u32()?;
    let nbytes = n / 8 + if n % 8 != 0 { 1 } else { 0 };
    assert(nbytes == (n + 7) / 8);
    let tb = r.take(nbytes as usize)?;
    let mut tabs: Vec<bool> = Vec::new();
    let mut i: u32 = 0;
    while i < n
        invariant
            i <= n,
            tb@.len() == (n + 7) / 8,
            tabs@ == Seq::new(i as nat, |j: int| tb@[j / 8] & (1u8 << (j % 8) as u8) != 0),
        decreases n - i,
    {
        let byte = tb[(i / 8) as usize];
        tabs.push(byte & (1u8 << (i % 8) as u8) != 0);
        i += 1;
        assert(tabs@ =~= Seq::new(i as nat, |j: int| tb@[j / 8] & (1u8 << (j % 8) as u8) != 0));
    }
    Ok(tabs)
}

impl Term {
    /// Rebuild an emulator from [`checkpoint`](Term::checkpoint) bytes, with a
    /// fresh tokenizer. Bad input is an error, never a panic: the first field
    /// that is damaged, in reading order, or else the first inconsistency
    /// between fields (see [`decode`]).
    pub fn restore(bytes: &[u8]) -> (res: Result<Term, RestoreError>)
        ensures
            match res {
                Ok(t) => decode(bytes@) == Ok::<TermModel, RestoreError>(t@) && t.wf() && t.tokenizer_fresh()
                    && t.at_rest(),
                Err(e) => decode(bytes@) == Err::<TermModel, RestoreError>(e),
            },
    {
        match read_fields(bytes) {
            Err(e) => Err(e),
            Ok((flags, (style, top, bottom, saved, tabs, primary, alt, frame))) => {
                finish(flags, style, top, bottom, saved, tabs, primary, alt, frame)
            },
        }
    }
}

/// The fields after the flag byte, as read.
pub type Body = (TextStyle, u32, u32, Option<(u32, u32, TextStyle)>, Vec<bool>, ansi::Screen, ansi::Screen, Option<ansi::Screen>);

/// The fields the exec side read, as the spec reads them.
pub open spec fn body_fields(flags: u8, b: Body) -> Fields {
    body_model(
        flags,
        b.0,
        b.1,
        b.2,
        b.3,
        b.4@,
        screen_view(b.5),
        screen_view(b.6),
        match b.7 {
            Some(f) => Some(screen_view(f)),
            None => None,
        },
    )
}

/// Read the magic, the version, the flag byte and the rest of the fields.
fn read_fields(bytes: &[u8]) -> (res: Result<(u8, Body), RestoreError>)
    ensures
        rd_fields(bytes@) == match res {
            Ok((flags, b)) => Ok(body_fields(flags, b)),
            Err(e) => Err(e),
        },
        res matches Ok((flags, b)) ==> screen_ok(b.5) && screen_ok(b.6) && (b.7 matches Some(f) ==> screen_ok(f)),
{
    reveal(rd_fields);
    let mut r = Reader::new(bytes);
    let mg = r.take(4)?;
    if !(mg[0] == 0x56 && mg[1] == 0x54 && mg[2] == 0x43 && mg[3] == 0x4B) {
        assert(mg@ != magic()) by {
            if mg@ == magic() {
                assert(mg@[0] == 0x56 && mg@[1] == 0x54 && mg@[2] == 0x43 && mg@[3] == 0x4B);
            }
        }
        return Err(RestoreError::NotACheckpoint);
    }
    assert(mg@ =~= magic());
    let version = r.u16()?;
    if version != VERSION {
        return Err(RestoreError::UnsupportedVersion);
    }
    let flags = r.u8()?;
    let b = read_body(&mut r, flags)?;
    Ok((flags, b))
}

/// What the exec side reads after the flag byte.
pub open spec fn body_model(
    flags: u8,
    style: TextStyle,
    top: u32,
    bottom: u32,
    saved: Option<(u32, u32, TextStyle)>,
    tabs: Seq<bool>,
    primary: Grid,
    alt: Grid,
    frame: Option<Grid>,
) -> Fields {
    Fields {
        flags,
        style,
        top,
        bottom,
        saved: match saved {
            Some((r, c, st)) => Some((r as nat, c as nat, st)),
            None => None,
        },
        tabs,
        primary,
        alt,
        frame,
    }
}

/// Read everything after the flag byte, up to the end of the bytes.
fn read_body(r: &mut Reader, flags: u8) -> (res: Result<Body, RestoreError>)
    requires
        old(r).wf(),
    ensures
        rd_body(old(r)@, flags) == match res {
            Ok(b) => Ok(body_fields(flags, b)),
            Err(e) => Err(e),
        },
        res matches Ok(b) ==> screen_ok(b.5) && screen_ok(b.6) && (b.7 matches Some(f) ==> screen_ok(f)),
{
    reveal(rd_body);
    let style = r.style()?;
    let top = r.u32()?;
    let bottom = r.u32()?;
    let ghost s6 = r@;
    let saved = if flags & (1u8 << 5u8) != 0 {
        let row = r.u32()?;
        let col = r.u32()?;
        let st = r.style()?;
        Some((row, col, st))
    } else {
        None
    };
    assert(rd_saved(s6, flag(flags, 5)) == Ok::<(Option<(nat, nat, TextStyle)>, Seq<u8>), RestoreError>((
        match saved {
            Some((a, b, st)) => Some((a as nat, b as nat, st)),
            None => None,
        },
        r@,
    )));
    let tabs = read_tabs(r)?;
    let primary = r.screen()?;
    let alt = r.screen()?;
    let frame = if flags & (1u8 << 6u8) != 0 {
        let f = r.screen()?;
        Some(f)
    } else {
        None
    };
    if !r.at_end() {
        return Err(RestoreError::TrailingBytes);
    }
    Ok((style, top, bottom, saved, tabs, primary, alt, frame))
}

/// Check that the fields fit together and build the emulator.
fn finish(
    flags: u8,
    style: TextStyle,
    top: u32,
    bottom: u32,
    saved: Option<(u32, u32, TextStyle)>,
    tabs: Vec<bool>,
    primary: ansi::Screen,
    alt: ansi::Screen,
    frame: Option<ansi::Screen>,
) -> (res: Result<Term, RestoreError>)
    requires
        screen_view(primary).has_size(screen_view(primary).cells.len(), screen_view(primary).cols),
        1 <= screen_view(primary).cells.len() * screen_view(primary).cols <= MAX_CELLS,
        screen_view(alt).has_size(screen_view(alt).cells.len(), screen_view(alt).cols),
        frame matches Some(f) ==> screen_view(f).has_size(screen_view(f).cells.len(), screen_view(f).cols),
    ensures
        match res {
            Ok(t) => validate(
                body_model(
                    flags,
                    style,
                    top,
                    bottom,
                    saved,
                    tabs@,
                    screen_view(primary),
                    screen_view(alt),
                    match frame {
                        Some(f) => Some(screen_view(f)),
                        None => None,
                    },
                ),
            ) == Ok::<TermModel, RestoreError>(t@) && t.wf() && t.tokenizer_fresh(),
            Err(e) => validate(
                body_model(
                    flags,
                    style,
                    top,
                    bottom,
                    saved,
                    tabs@,
                    screen_view(primary),
                    screen_view(alt),
                    match frame {
                        Some(f) => Some(screen_view(f)),
                        None => None,
                    },
                ),
            ) == Err::<TermModel, RestoreError>(e),
        },
{
    let rows = primary.rows();
    let cols = primary.cols();
    let frame_ok = match &frame {
        Some(f) => f.rows() == rows && f.cols() == cols,
        None => true,
    };
    if !(alt.rows() == rows && alt.cols() == cols) || !frame_ok {
        return Err(RestoreError::ScreensDisagree);
    }
    if tabs.len() != cols {
        return Err(RestoreError::TabStopsMismatch);
    }
    if top > bottom || bottom as usize >= rows {
        return Err(RestoreError::ScrollRegionOutside);
    }
    if let Some((sr, sc, _)) = &saved {
        if *sr as usize >= rows || *sc as usize >= cols {
            return Err(RestoreError::SavedCursorOutside);
        }
    }
    let in_sync = flags & (1u8 << 4u8) != 0;
    if in_sync != frame.is_some() {
        return Err(RestoreError::SyncWithoutFrame);
    }
    let saved = match saved {
        Some((sr, sc, st)) => Some((sr as usize, sc as usize, st)),
        None => None,
    };
    proof {
        let (nr, nc) = (rows as nat, cols as nat);
        assert(nr * nc * 32 <= isize::MAX) by (nonlinear_arith)
            requires
                nr * nc <= MAX_CELLS,
        ;
        assert(nr <= nr * nc) by (nonlinear_arith)
            requires
                nc >= 1,
        ;
        assert(nc <= nr * nc) by (nonlinear_arith)
            requires
                nr >= 1,
        ;
    }
    let t = Term {
        primary,
        alt,
        in_alt: flags & 1u8 != 0,
        style,
        scroll_top: top as usize,
        scroll_bottom: bottom as usize,
        saved,
        tabs,
        wrap_pending: flags & (1u8 << 1u8) != 0,
        autowrap: flags & (1u8 << 2u8) != 0,
        cursor_visible: flags & (1u8 << 3u8) != 0,
        sync_frame: frame,
        newline_mode: flags & (1u8 << 7u8) != 0,
        parser: ansi::Parser::new(),
        decoder: ansi::Utf8Decoder::new(),
    };
    proof {
        assert(flag(flags, 0) == (flags & 1u8 != 0)) by (bit_vector);
    }
    Ok(t)
}

// ---- reading back what was written ------------------------------------------------

proof fn lemma_le16(v: u16)
    ensures
        from_le16((v & 0xff) as u8, (v >> 8u16) as u8) == v,
{
    assert(((((v & 0xff) as u8) as u16) | (((v >> 8u16) as u8) as u16) << 8u16) == v) by (bit_vector);
}

proof fn lemma_le32(v: u32)
    ensures
        from_le32((v & 0xff) as u8, ((v >> 8u32) & 0xff) as u8, ((v >> 16u32) & 0xff) as u8, (v >> 24u32) as u8)
            == v,
{
    assert(((((v & 0xff) as u8) as u32) | ((((v >> 8u32) & 0xff) as u8) as u32) << 8u32 | ((((v
        >> 16u32) & 0xff) as u8) as u32) << 16u32 | (((v >> 24u32) as u8) as u32) << 24u32) == v)
        by (bit_vector);
}

/// Reading a `u16` back.
proof fn lemma_rd_u16(v: u16, rest: Seq<u8>)
    ensures
        rd_u16(le16(v) + rest) == Ok::<(u16, Seq<u8>), RestoreError>((v, rest)),
{
    lemma_le16(v);
    assert((le16(v) + rest).skip(2) =~= rest);
}

/// Reading a `u32` back.
proof fn lemma_rd_u32(v: u32, rest: Seq<u8>)
    ensures
        rd_u32(le32(v) + rest) == Ok::<(u32, Seq<u8>), RestoreError>((v, rest)),
{
    lemma_le32(v);
    assert((le32(v) + rest).skip(4) =~= rest);
}

/// Reading a byte back.
proof fn lemma_rd_u8(v: u8, rest: Seq<u8>)
    ensures
        rd_u8(seq![v] + rest) == Ok::<(u8, Seq<u8>), RestoreError>((v, rest)),
{
    assert((seq![v] + rest).skip(1) =~= rest);
}

/// Reading a colour back.
proof fn lemma_rd_color(c: Color, rest: Seq<u8>)
    ensures
        rd_color(color_bytes(c) + rest) == Ok::<(Color, Seq<u8>), RestoreError>((c, rest)),
{
    assert((color_bytes(c) + rest).skip(4) =~= rest);
}

/// The attribute byte reads back as the attributes it was made of.
proof fn lemma_attr(s: TextStyle)
    ensures
        attr_byte(s) >> 6u8 == 0,
        style_of(s.fg, s.bg, attr_byte(s)) == s,
{
    let (a, b, c, d, e, f) = (b2u(s.bold), b2u(s.dim), b2u(s.italic), b2u(s.underline), b2u(s.reverse), b2u(s.strike));
    let x = attr_byte(s);
    assert(x == a | b << 1u8 | c << 2u8 | d << 3u8 | e << 4u8 | f << 5u8);
    assert(a <= 1 && b <= 1 && c <= 1 && d <= 1 && e <= 1 && f <= 1);
    assert(x >> 6u8 == 0 && (x & 1 != 0) == (a == 1) && (x & 2 != 0) == (b == 1) && (x & 4 != 0) == (c == 1)
        && (x & 8 != 0) == (d == 1) && (x & 16 != 0) == (e == 1) && (x & 32 != 0) == (f == 1)) by (bit_vector)
        requires
            x == a | b << 1u8 | c << 2u8 | d << 3u8 | e << 4u8 | f << 5u8,
            a <= 1 && b <= 1 && c <= 1 && d <= 1 && e <= 1 && f <= 1,
    ;
}

/// A style written by [`put_style`] reads back as itself, and reading
/// stops right after its nine bytes.
pub proof fn lemma_rd_style(s: TextStyle, rest: Seq<u8>)
    ensures
        rd_style(style_bytes(s) + rest) == Ok::<(TextStyle, Seq<u8>), RestoreError>((s, rest)),
{
    reveal(rd_style);
    let b = style_bytes(s) + rest;
    assert(b =~= color_bytes(s.fg) + (color_bytes(s.bg) + (seq![attr_byte(s)] + rest)));
    lemma_rd_color(s.fg, color_bytes(s.bg) + (seq![attr_byte(s)] + rest));
    lemma_rd_color(s.bg, seq![attr_byte(s)] + rest);
    lemma_rd_u8(attr_byte(s), rest);
    lemma_attr(s);
}

/// Reading a cell back.
proof fn lemma_rd_cell(c: GridCell, rest: Seq<u8>)
    ensures
        rd_cell(cell_bytes(c) + rest) == Ok::<(GridCell, Seq<u8>), RestoreError>((c, rest)),
{
    reveal(rd_cell);
    let v = c.ch as u32;
    let b = cell_bytes(c) + rest;
    assert(b =~= le32(v) + (seq![width_code(c.width)] + (style_bytes(c.style) + rest)));
    lemma_rd_u32(v, seq![width_code(c.width)] + (style_bytes(c.style) + rest));
    lemma_rd_u8(width_code(c.width), style_bytes(c.style) + rest);
    lemma_rd_style(c.style, rest);
    assert(is_scalar(v));
    assert(v as char == c.ch);
    assert(width_of(width_code(c.width)) == c.width);
}

/// The cells that runs stand for, in order.
pub open spec fn expand(rs: Seq<(nat, GridCell)>) -> Seq<GridCell>
    decreases rs.len(),
{
    if rs.len() == 0 {
        Seq::empty()
    } else {
        expand(rs.drop_last()) + Seq::new(rs.last().0, |i: int| rs.last().1)
    }
}

/// Runs stand for the cells they were made of, each run at least one cell
/// and at most all of them.
proof fn lemma_expand_runs(cells: Seq<GridCell>)
    ensures
        expand(runs(cells)) == cells,
        forall|i: int| 0 <= i < runs(cells).len() ==> 1 <= #[trigger] runs(cells)[i].0 <= cells.len(),
    decreases cells.len(),
{
    if cells.len() > 0 {
        let p = cells.drop_last();
        let x = cells.last();
        lemma_expand_runs(p);
        let prev = runs(p);
        assert(p.push(x) =~= cells);
        if prev.len() > 0 && prev.last().1 == x {
            let rs = prev.update(prev.len() - 1, ((prev.last().0 + 1) as nat, x));
            assert(rs.drop_last() =~= prev.drop_last());
            assert(expand(prev) == expand(prev.drop_last()) + Seq::new(prev.last().0, |i: int| x));
            assert(Seq::new(prev.last().0 + 1, |i: int| x) =~= Seq::new(prev.last().0, |i: int| x).push(x));
            assert(expand(rs) =~= cells);
        } else {
            let rs = prev.push((1nat, x));
            assert(rs.drop_last() =~= prev);
            assert(Seq::new(1nat, |i: int| x) =~= seq![x]);
            assert(expand(rs) =~= cells);
        }
    }
}

/// The first run's bytes, then the rest.
proof fn lemma_runs_bytes_front(rs: Seq<(nat, GridCell)>)
    requires
        rs.len() > 0,
    ensures
        runs_bytes(rs) == le32(rs[0].0 as u32) + cell_bytes(rs[0].1) + runs_bytes(rs.drop_first()),
        expand(rs) == Seq::new(rs[0].0, |i: int| rs[0].1) + expand(rs.drop_first()),
    decreases rs.len(),
{
    if rs.len() == 1 {
        assert(rs.drop_last() =~= Seq::<(nat, GridCell)>::empty());
        assert(rs.drop_first() =~= Seq::<(nat, GridCell)>::empty());
        assert(runs_bytes(rs) =~= le32(rs[0].0 as u32) + cell_bytes(rs[0].1) + runs_bytes(rs.drop_first()));
        assert(expand(rs) =~= Seq::new(rs[0].0, |i: int| rs[0].1) + expand(rs.drop_first()));
    } else {
        lemma_runs_bytes_front(rs.drop_last());
        assert(rs.drop_last().drop_first() =~= rs.drop_first().drop_last());
        assert(rs.drop_first().last() == rs.last());
        assert(rs.drop_last()[0] == rs[0]);
        assert(runs_bytes(rs) =~= le32(rs[0].0 as u32) + cell_bytes(rs[0].1) + runs_bytes(rs.drop_first()));
        assert(expand(rs) =~= Seq::new(rs[0].0, |i: int| rs[0].1) + expand(rs.drop_first()));
    }
}

/// Reading runs back: the cells they stand for.
#[verifier::rlimit(30)]
proof fn lemma_rd_runs(rs: Seq<(nat, GridCell)>, rest: Seq<u8>)
    requires
        forall|i: int| 0 <= i < rs.len() ==> 1 <= #[trigger] rs[i].0 <= u32::MAX,
    ensures
        rd_runs(runs_bytes(rs) + rest, expand(rs).len()) == Ok::<(Seq<GridCell>, Seq<u8>), RestoreError>((expand(rs), rest)),
    decreases rs.len(),
{
    reveal(rd_runs);
    if rs.len() == 0 {
        assert(runs_bytes(rs) + rest =~= rest);
    } else {
        lemma_runs_bytes_front(rs);
        let (n, c) = rs[0];
        let tail = rs.drop_first();
        assert forall|i: int| 0 <= i < tail.len() implies 1 <= #[trigger] tail[i].0 <= u32::MAX by {
            assert(tail[i] == rs[i + 1]);
        }
        lemma_rd_runs(tail, rest);
        let b = runs_bytes(rs) + rest;
        assert(b =~= le32(n as u32) + (cell_bytes(c) + (runs_bytes(tail) + rest)));
        let s1 = cell_bytes(c) + (runs_bytes(tail) + rest);
        let s2 = runs_bytes(tail) + rest;
        lemma_rd_u32(n as u32, s1);
        lemma_rd_cell(c, s2);
        let total = expand(rs).len();
        assert(total == n + expand(tail).len());
        assert((total - n) as nat == expand(tail).len());
        assert(rd_u32(b) == Ok::<(u32, Seq<u8>), RestoreError>((n as u32, s1)));
        assert(rd_cell(s1) == Ok::<(GridCell, Seq<u8>), RestoreError>((c, s2)));
        assert(rd_runs(s2, (total - n) as nat) == Ok::<(Seq<GridCell>, Seq<u8>), RestoreError>((expand(tail), rest)));
        assert(rd_runs(b, total) == Ok::<(Seq<GridCell>, Seq<u8>), RestoreError>((Seq::new(n, |i: int| c) + expand(tail), rest)));
    }
}

/// A grid's rows laid end to end hold `rows * cols` cells, the cell at
/// `(r, c)` at `r * cols + c`.
proof fn lemma_flat(cells: Seq<Seq<GridCell>>, cols: nat)
    requires
        forall|r: int| 0 <= r < cells.len() ==> #[trigger] cells[r].len() == cols,
    ensures
        flat(cells).len() == cells.len() * cols,
        forall|r: int, c: int|
            0 <= r < cells.len() && 0 <= c < cols ==> #[trigger] flat(cells)[r * cols + c] == cells[r][c],
    decreases cells.len(),
{
    if cells.len() > 0 {
        let p = cells.drop_last();
        lemma_flat(p, cols);
        let n = cells.len() as int;
        assert(flat(cells).len() == p.len() * cols + cols);
        assert(p.len() * cols + cols == n * cols) by (nonlinear_arith)
            requires
                p.len() == n - 1,
        ;
        assert forall|r: int, c: int| 0 <= r < cells.len() && 0 <= c < cols implies #[trigger] flat(cells)[r * cols + c] == cells[r][c] by {
            if r < n - 1 {
                assert(r * cols + c < (n - 1) * cols) by (nonlinear_arith)
                    requires
                        0 <= r < n - 1,
                        0 <= c < cols,
                ;
                assert(p[r] == cells[r]);
            } else {
                assert(r * cols == (n - 1) * cols);
            }
        }
    }
}

/// A screen written by [`put_screen`] reads back ([`Reader::screen`]) as
/// the same size, cells and cursor, and reading stops right after it.
#[verifier::rlimit(30)]
pub proof fn lemma_rd_screen(g: Grid, rest: Seq<u8>)
    requires
        g.has_size(g.cells.len(), g.cols),
        1 <= g.cells.len() * g.cols <= MAX_CELLS,
    ensures
        rd_screen(grid_bytes(g) + rest) == Ok::<(Grid, Seq<u8>), RestoreError>((g, rest)),
{
    reveal(rd_screen);
    let rows = g.cells.len();
    let cols = g.cols;
    assert(rows <= rows * cols && cols <= rows * cols) by (nonlinear_arith)
        requires
            rows * cols >= 1,
    ;
    let cells = flat(g.cells);
    lemma_flat(g.cells, cols);
    lemma_expand_runs(cells);
    let rs = runs(cells);
    assert forall|i: int| 0 <= i < rs.len() implies 1 <= #[trigger] rs[i].0 <= u32::MAX by {}
    lemma_rd_runs(rs, rest);
    let tail = runs_bytes(rs) + rest;
    let b = grid_bytes(g) + rest;
    assert(b =~= le32(rows as u32) + (le32(cols as u32) + (le32(g.row as u32) + (le32(g.col as u32) + tail))));
    lemma_rd_u32(rows as u32, le32(cols as u32) + (le32(g.row as u32) + (le32(g.col as u32) + tail)));
    lemma_rd_u32(cols as u32, le32(g.row as u32) + (le32(g.col as u32) + tail));
    lemma_rd_u32(g.row as u32, le32(g.col as u32) + tail);
    lemma_rd_u32(g.col as u32, tail);
    let u = unflat(cells, rows, cols);
    assert forall|r: int| 0 <= r < rows implies #[trigger] u[r] =~= g.cells[r] by {}
    assert(u =~= g.cells);
    let s1 = le32(cols as u32) + (le32(g.row as u32) + (le32(g.col as u32) + tail));
    let s2 = le32(g.row as u32) + (le32(g.col as u32) + tail);
    let s3 = le32(g.col as u32) + tail;
    assert(rd_u32(b) == Ok::<(u32, Seq<u8>), RestoreError>((rows as u32, s1)));
    assert(rd_u32(s1) == Ok::<(u32, Seq<u8>), RestoreError>((cols as u32, s2)));
    assert(rd_u32(s2) == Ok::<(u32, Seq<u8>), RestoreError>((g.row as u32, s3)));
    assert(rd_u32(s3) == Ok::<(u32, Seq<u8>), RestoreError>((g.col as u32, tail)));
    assert(rd_runs(tail, rows * cols) == Ok::<(Seq<GridCell>, Seq<u8>), RestoreError>((cells, rest)));
}

/// The eight bits of a byte made of eight 0/1 values.
proof fn lemma_bits(x: u8, x0: u8, x1: u8, x2: u8, x3: u8, x4: u8, x5: u8, x6: u8, x7: u8)
    requires
        x == x0 | x1 << 1u8 | x2 << 2u8 | x3 << 3u8 | x4 << 4u8 | x5 << 5u8 | x6 << 6u8 | x7 << 7u8,
        x0 <= 1 && x1 <= 1 && x2 <= 1 && x3 <= 1 && x4 <= 1 && x5 <= 1 && x6 <= 1 && x7 <= 1,
    ensures
        (x & (1u8 << 0u8) != 0) == (x0 == 1),
        (x & (1u8 << 1u8) != 0) == (x1 == 1),
        (x & (1u8 << 2u8) != 0) == (x2 == 1),
        (x & (1u8 << 3u8) != 0) == (x3 == 1),
        (x & (1u8 << 4u8) != 0) == (x4 == 1),
        (x & (1u8 << 5u8) != 0) == (x5 == 1),
        (x & (1u8 << 6u8) != 0) == (x6 == 1),
        (x & (1u8 << 7u8) != 0) == (x7 == 1),
{
    assert((x & (1u8 << 0u8) != 0) == (x0 == 1) && (x & (1u8 << 1u8) != 0) == (x1 == 1) && (x & (1u8
        << 2u8) != 0) == (x2 == 1) && (x & (1u8 << 3u8) != 0) == (x3 == 1) && (x & (1u8 << 4u8) != 0)
        == (x4 == 1) && (x & (1u8 << 5u8) != 0) == (x5 == 1) && (x & (1u8 << 6u8) != 0) == (x6 == 1)
        && (x & (1u8 << 7u8) != 0) == (x7 == 1)) by (bit_vector)
        requires
            x == x0 | x1 << 1u8 | x2 << 2u8 | x3 << 3u8 | x4 << 4u8 | x5 << 5u8 | x6 << 6u8 | x7 << 7u8,
            x0 <= 1 && x1 <= 1 && x2 <= 1 && x3 <= 1 && x4 <= 1 && x5 <= 1 && x6 <= 1 && x7 <= 1,
    ;
}

/// Bit `j` of the byte for columns `k..k + 8` is the tab stop at `k + j`.
proof fn lemma_tab_byte(tabs: Seq<bool>, k: int, j: int)
    requires
        0 <= j < 8,
    ensures
        (tab_byte(tabs, k) & (1u8 << j as u8) != 0) == (0 <= k + j < tabs.len() && tabs[k + j]),
{
    lemma_bits(
        tab_byte(tabs, k),
        tab_bit(tabs, k),
        tab_bit(tabs, k + 1),
        tab_bit(tabs, k + 2),
        tab_bit(tabs, k + 3),
        tab_bit(tabs, k + 4),
        tab_bit(tabs, k + 5),
        tab_bit(tabs, k + 6),
        tab_bit(tabs, k + 7),
    );
}

/// Reading tab stops back.
proof fn lemma_rd_tabs(tabs: Seq<bool>, rest: Seq<u8>)
    requires
        tabs.len() <= u32::MAX,
    ensures
        rd_tabs(le32(tabs.len() as u32) + tab_bytes(tabs) + rest) == Ok::<(Seq<bool>, Seq<u8>), RestoreError>((tabs, rest)),
{
    reveal(rd_tabs);
    let n = tabs.len() as u32;
    let tb = tab_bytes(tabs);
    let s1 = tb + rest;
    assert(le32(n) + tb + rest =~= le32(n) + s1);
    lemma_rd_u32(n, s1);
    assert(s1.take(tb.len() as int) =~= tb);
    assert(s1.skip(tb.len() as int) =~= rest);
    let got = Seq::new(n as nat, |i: int| tb[i / 8] & (1u8 << (i % 8) as u8) != 0);
    assert forall|i: int| 0 <= i < n implies #[trigger] got[i] == tabs[i] by {
        let q = i / 8;
        let j = i % 8;
        assert(8 * q + j == i);
        assert(0 <= q < tb.len());
        assert(tb[q] == tab_byte(tabs, 8 * q));
        lemma_tab_byte(tabs, 8 * q, j);
    }
    assert(got =~= tabs);
}

/// The flag byte reads back as the flags it was made of.
proof fn lemma_flags(m: TermModel)
    ensures
        flag(flag_byte(m), 0) == m.in_alt,
        flag(flag_byte(m), 1) == m.wrap_pending,
        flag(flag_byte(m), 2) == m.autowrap,
        flag(flag_byte(m), 3) == m.cursor_visible,
        flag(flag_byte(m), 4) == (m.sync_frame is Some),
        flag(flag_byte(m), 5) == (m.saved is Some),
        flag(flag_byte(m), 6) == (m.sync_frame is Some),
        flag(flag_byte(m), 7) == m.newline_mode,
{
    lemma_bits(
        flag_byte(m),
        b2u(m.in_alt),
        b2u(m.wrap_pending),
        b2u(m.autowrap),
        b2u(m.cursor_visible),
        b2u(m.sync_frame is Some),
        b2u(m.saved is Some),
        b2u(m.sync_frame is Some),
        b2u(m.newline_mode),
    );
}

/// The saved cursor as its checkpoint reads back: each coordinate as the
/// 32-bit number written for it.
pub open spec fn saved_read(s: Option<(nat, nat, TextStyle)>) -> Option<(nat, nat, TextStyle)> {
    match s {
        Some((r, c, st)) => Some(((r as u32) as nat, (c as u32) as nat, st)),
        None => None,
    }
}

/// The saved cursor, if any, lies on the screen.
pub open spec fn saved_inside(m: TermModel) -> bool {
    m.saved matches Some((r, c, _)) ==> r < m.rows() && c < m.cols()
}

/// The fields a checkpoint of `m` holds.
pub open spec fn fields_of(m: TermModel) -> Fields {
    Fields {
        flags: flag_byte(m),
        style: m.style,
        top: m.scroll_top as u32,
        bottom: m.scroll_bottom as u32,
        saved: saved_read(m.saved),
        tabs: m.tabs,
        primary: m.primary,
        alt: m.alt,
        frame: m.sync_frame,
    }
}

/// The screens of a checkpoint of `m`, then what follows them.
pub open spec fn screens_bytes(m: TermModel) -> Seq<u8> {
    grid_bytes(m.primary) + (grid_bytes(m.alt) + frame_bytes(m.sync_frame))
}

/// What follows the flag byte of a checkpoint of `m`.
pub open spec fn body_bytes(m: TermModel) -> Seq<u8> {
    style_bytes(m.style) + (le32(m.scroll_top as u32) + (le32(m.scroll_bottom as u32) + (
    saved_bytes(m.saved) + (le32(m.tabs.len() as u32) + (tab_bytes(m.tabs) + screens_bytes(m))))))
}

/// The screens of a checkpoint of `m` read back.
#[verifier::rlimit(30)]
proof fn lemma_rd_screens(m: TermModel)
    requires
        m.wf(),
        m.rows() * m.cols() <= MAX_CELLS,
    ensures
        rd_screens(screens_bytes(m), m.sync_frame is Some) == Ok::<
            (Grid, Grid, Option<Grid>),
            RestoreError,
        >((m.primary, m.alt, m.sync_frame)),
{
    let tf = frame_bytes(m.sync_frame);
    assert(m.rows() * m.cols() >= 1) by (nonlinear_arith)
        requires
            m.rows() >= 1,
            m.cols() >= 1,
    ;
    lemma_rd_screen(m.primary, grid_bytes(m.alt) + tf);
    lemma_rd_screen(m.alt, tf);
    match m.sync_frame {
        Some(f) => {
            assert(grid_bytes(f) + Seq::<u8>::empty() =~= grid_bytes(f));
            lemma_rd_screen(f, Seq::empty());
        },
        None => {},
    }
}

/// Screens of more than [`MAX_CELLS`] cells are refused as out of range.
proof fn lemma_rd_screens_big(m: TermModel)
    requires
        m.wf(),
        MAX_CELLS < m.rows() * m.cols() <= u32::MAX,
    ensures
        rd_screens(screens_bytes(m), m.sync_frame is Some) == Err::<
            (Grid, Grid, Option<Grid>),
            RestoreError,
        >(RestoreError::ScreenSizeOutOfRange),
{
    reveal(rd_screen);
    let g = m.primary;
    let rows = m.rows();
    let cols = m.cols();
    assert(rows <= rows * cols && cols <= rows * cols) by (nonlinear_arith)
        requires
            rows >= 1,
            cols >= 1,
    ;
    let rest = grid_bytes(m.alt) + frame_bytes(m.sync_frame);
    let tail = runs_bytes(runs(flat(g.cells))) + rest;
    let b = grid_bytes(g) + rest;
    let s1 = le32(cols as u32) + (le32(g.row as u32) + (le32(g.col as u32) + tail));
    let s2 = le32(g.row as u32) + (le32(g.col as u32) + tail);
    assert(b =~= le32(rows as u32) + s1);
    lemma_rd_u32(rows as u32, s1);
    lemma_rd_u32(cols as u32, s2);
    assert(rd_screen(b) == Err::<(Grid, Seq<u8>), RestoreError>(RestoreError::ScreenSizeOutOfRange));
}

/// What follows the flag byte of a checkpoint of `m` reads back as its
/// fields up to the screens, and then as what the screens read as.
#[verifier::rlimit(40)]
proof fn lemma_rd_body(m: TermModel)
    requires
        m.wf(),
        m.rows() * m.cols() <= u32::MAX,
    ensures
        rd_body(body_bytes(m), flag_byte(m)) == match rd_screens(screens_bytes(m), m.sync_frame is Some) {
            Err(e) => Err(e),
            Ok((primary, alt, frame)) => Ok(Fields { primary, alt, frame, ..fields_of(m) }),
        },
{
    reveal(rd_body);
    let rows = m.rows();
    let cols = m.cols();
    assert(rows <= rows * cols && cols <= rows * cols) by (nonlinear_arith)
        requires
            rows >= 1,
            cols >= 1,
    ;
    lemma_flags(m);
    let t10 = screens_bytes(m);
    let t8 = le32(m.tabs.len() as u32) + (tab_bytes(m.tabs) + t10);
    let t7 = saved_bytes(m.saved) + t8;
    let t6 = le32(m.scroll_bottom as u32) + t7;
    let t5 = le32(m.scroll_top as u32) + t6;
    lemma_rd_style(m.style, t5);
    lemma_rd_u32(m.scroll_top as u32, t6);
    lemma_rd_u32(m.scroll_bottom as u32, t7);
    match m.saved {
        Some((r, c, st)) => {
            assert(t7 =~= le32(r as u32) + (le32(c as u32) + (style_bytes(st) + t8)));
            lemma_rd_u32(r as u32, le32(c as u32) + (style_bytes(st) + t8));
            lemma_rd_u32(c as u32, style_bytes(st) + t8);
            lemma_rd_style(st, t8);
            assert(rd_saved(t7, true) == Ok::<(Option<(nat, nat, TextStyle)>, Seq<u8>), RestoreError>(
                (saved_read(m.saved), t8),
            ));
        },
        None => {
            assert(t7 =~= t8);
        },
    }
    assert(le32(m.tabs.len() as u32) + tab_bytes(m.tabs) + t10 =~= t8);
    lemma_rd_tabs(m.tabs, t10);
}

/// The bytes of a checkpoint of `m` read up to the flag byte, which leaves
/// what follows it.
#[verifier::rlimit(40)]
proof fn lemma_rd_fields(m: TermModel)
    ensures
        rd_fields(checkpoint_bytes(m)) == rd_body(body_bytes(m), flag_byte(m)),
{
    reveal(rd_fields);
    let t4 = body_bytes(m);
    let t3 = seq![flag_byte(m)] + t4;
    let t2 = le16(VERSION) + t3;
    let b = checkpoint_bytes(m);
    assert(b =~= magic() + t2);
    assert(b.take(4) =~= magic());
    assert(b.skip(4) =~= t2);
    lemma_rd_u16(VERSION, t3);
    lemma_rd_u8(flag_byte(m), t4);
}

/// Restoring a checkpoint gives back exactly the state it was taken of:
/// whenever the state is consistent, each screen has at most [`MAX_CELLS`]
/// cells and a saved cursor lies on the screen, reading its checkpoint
/// succeeds and yields it.
pub proof fn lemma_checkpoint_roundtrip(m: TermModel)
    requires
        m.wf(),
        m.rows() * m.cols() <= MAX_CELLS,
        saved_inside(m),
    ensures
        decode(checkpoint_bytes(m)) == Ok::<TermModel, RestoreError>(m),
{
    lemma_rd_fields(m);
    lemma_rd_body(m);
    lemma_rd_screens(m);
    lemma_flags(m);
    let rows = m.rows();
    let cols = m.cols();
    assert(rows <= rows * cols && cols <= rows * cols) by (nonlinear_arith)
        requires
            rows >= 1,
            cols >= 1,
    ;
    assert(saved_read(m.saved) == m.saved);
    assert(rd_fields(checkpoint_bytes(m)) == Ok::<Fields, RestoreError>(fields_of(m)));
    assert(validate(fields_of(m)) =~= Ok::<TermModel, RestoreError>(m));
}

/// Reading a checkpoint never ends in trailing bytes: it either succeeds or
/// stops at a field or check before the end.
proof fn lemma_checkpoint_not_trailing(m: TermModel)
    requires
        m.wf(),
        m.rows() * m.cols() <= u32::MAX,
    ensures
        decode(checkpoint_bytes(m)) != Err::<TermModel, RestoreError>(RestoreError::TrailingBytes),
{
    lemma_rd_fields(m);
    lemma_rd_body(m);
    if m.rows() * m.cols() <= MAX_CELLS {
        lemma_rd_screens(m);
        assert(rd_fields(checkpoint_bytes(m)) == Ok::<Fields, RestoreError>(fields_of(m)));
    } else {
        lemma_rd_screens_big(m);
    }
}

/// A restored checkpoint resumes exactly: if `t` was checkpointed (its
/// tokenizer at rest, each screen at most [`MAX_CELLS`] cells, a saved
/// cursor on the screen) and `r` was
/// restored from those bytes ([`Term::restore`] returned it), then `r` holds
/// the same state, checkpoints to the same bytes, and whatever is fed next
/// lands on `r` exactly as on `t`.
pub proof fn lemma_checkpoint_resumes(t: Term, r: Term)
    requires
        t.wf(),
        t.at_rest(),
        t@.rows() * t@.cols() <= MAX_CELLS,
        saved_inside(t@),
        decode(checkpoint_bytes(t@)) == Ok::<TermModel, RestoreError>(r@),
        r.tokenizer_fresh(),
    ensures
        r@ == t@,
        r.at_rest(),
        checkpoint_bytes(r@) == checkpoint_bytes(t@),
        forall|more: Seq<u8>| #[trigger] r.after(more) == t.after(more),
        forall|more: Seq<u8>| #[trigger] r.rests_after(more) == t.rests_after(more),
{
    lemma_checkpoint_roundtrip(t@);
    assert forall|more: Seq<u8>| #[trigger] r.after(more) == t.after(more) by {
        assert(parser_lex(t.parser, more) == ground_lex(more));
        assert(parser_lex(r.parser, more) == ground_lex(more));
        assert(decoder_held(t.decoder) =~= decoder_held(r.decoder));
    }
    assert forall|more: Seq<u8>| #[trigger] r.rests_after(more) == t.rests_after(more) by {
        assert(parser_lex(t.parser, more) == ground_lex(more));
        assert(parser_lex(r.parser, more) == ground_lex(more));
        assert(parser_rests(t.parser, more) == ground_rests(more));
        assert(parser_rests(r.parser, more) == ground_rests(more));
        assert(decoder_held(t.decoder) =~= decoder_held(r.decoder));
    }
}

// ---- reading is not changed by what follows ----------------------------------------

/// Bytes appended after what a read consumed only follow its rest.
proof fn lemma_split(s: Seq<u8>, t: Seq<u8>, n: int)
    requires
        0 <= n <= s.len(),
    ensures
        (s + t).take(n) == s.take(n),
        (s + t).skip(n) == s.skip(n) + t,
{
    assert((s + t).take(n) =~= s.take(n));
    assert((s + t).skip(n) =~= s.skip(n) + t);
}

proof fn lemma_ext_u32(s: Seq<u8>, t: Seq<u8>)
    ensures
        rd_u32(s) matches Ok((v, rest)) ==> rd_u32(s + t) == Ok::<(u32, Seq<u8>), RestoreError>((v, rest + t)),
{
    if s.len() >= 4 {
        lemma_split(s, t, 4);
    }
}

proof fn lemma_ext_u8(s: Seq<u8>, t: Seq<u8>)
    ensures
        rd_u8(s) matches Ok((v, rest)) ==> rd_u8(s + t) == Ok::<(u8, Seq<u8>), RestoreError>((v, rest + t)),
{
    if s.len() >= 1 {
        lemma_split(s, t, 1);
    }
}

proof fn lemma_ext_u16(s: Seq<u8>, t: Seq<u8>)
    ensures
        rd_u16(s) matches Ok((v, rest)) ==> rd_u16(s + t) == Ok::<(u16, Seq<u8>), RestoreError>((v, rest + t)),
{
    if s.len() >= 2 {
        lemma_split(s, t, 2);
    }
}

proof fn lemma_ext_take(s: Seq<u8>, t: Seq<u8>, n: int)
    ensures
        rd_take(s, n) matches Ok((v, rest)) ==> rd_take(s + t, n) == Ok::<(Seq<u8>, Seq<u8>), RestoreError>((v, rest + t)),
{
    if 0 <= n <= s.len() {
        lemma_split(s, t, n);
    }
}

proof fn lemma_ext_color(s: Seq<u8>, t: Seq<u8>)
    ensures
        rd_color(s) matches Ok((v, rest)) ==> rd_color(s + t) == Ok::<(Color, Seq<u8>), RestoreError>((v, rest + t)),
{
    if s.len() >= 4 {
        lemma_split(s, t, 4);
    }
}

proof fn lemma_ext_style(s: Seq<u8>, t: Seq<u8>)
    ensures
        rd_style(s) matches Ok((v, rest)) ==> rd_style(s + t) == Ok::<(TextStyle, Seq<u8>), RestoreError>((v, rest + t)),
{
    reveal(rd_style);
    lemma_ext_color(s, t);
    if let Ok((fg, s1)) = rd_color(s) {
        lemma_ext_color(s1, t);
        if let Ok((bg, s2)) = rd_color(s1) {
            lemma_ext_u8(s2, t);
        }
    }
}

proof fn lemma_ext_cell(s: Seq<u8>, t: Seq<u8>)
    ensures
        rd_cell(s) matches Ok((v, rest)) ==> rd_cell(s + t) == Ok::<(GridCell, Seq<u8>), RestoreError>((v, rest + t)),
{
    reveal(rd_cell);
    lemma_ext_u32(s, t);
    if let Ok((v, s1)) = rd_u32(s) {
        lemma_ext_u8(s1, t);
        if let Ok((w, s2)) = rd_u8(s1) {
            lemma_ext_style(s2, t);
        }
    }
}

proof fn lemma_ext_runs(s: Seq<u8>, t: Seq<u8>, left: nat)
    ensures
        rd_runs(s, left) matches Ok((v, rest)) ==> rd_runs(s + t, left) == Ok::<(Seq<GridCell>, Seq<u8>), RestoreError>((v, rest + t)),
    decreases left,
{
    reveal(rd_runs);
    if left > 0 {
        lemma_ext_u32(s, t);
        if let Ok((n, s1)) = rd_u32(s) {
            if !(n == 0 || n > left) {
                lemma_ext_cell(s1, t);
                if let Ok((c, s2)) = rd_cell(s1) {
                    lemma_ext_runs(s2, t, (left - n) as nat);
                }
            }
        }
    }
}

proof fn lemma_ext_screen(s: Seq<u8>, t: Seq<u8>)
    ensures
        rd_screen(s) matches Ok((v, rest)) ==> rd_screen(s + t) == Ok::<(Grid, Seq<u8>), RestoreError>((v, rest + t)),
{
    reveal(rd_screen);
    lemma_ext_u32(s, t);
    if let Ok((rows, s1)) = rd_u32(s) {
        lemma_ext_u32(s1, t);
        if let Ok((cols, s2)) = rd_u32(s1) {
            lemma_ext_u32(s2, t);
            if let Ok((crow, s3)) = rd_u32(s2) {
                lemma_ext_u32(s3, t);
                if let Ok((ccol, s4)) = rd_u32(s3) {
                    lemma_ext_runs(s4, t, (rows * cols) as nat);
                }
            }
        }
    }
}

proof fn lemma_ext_saved(s: Seq<u8>, t: Seq<u8>, present: bool)
    ensures
        rd_saved(s, present) matches Ok((v, rest)) ==> rd_saved(s + t, present) == Ok::<
            (Option<(nat, nat, TextStyle)>, Seq<u8>),
            RestoreError,
        >((v, rest + t)),
{
    lemma_ext_u32(s, t);
    if let Ok((r, s1)) = rd_u32(s) {
        lemma_ext_u32(s1, t);
        if let Ok((c, s2)) = rd_u32(s1) {
            lemma_ext_style(s2, t);
        }
    }
}

proof fn lemma_ext_tabs(s: Seq<u8>, t: Seq<u8>)
    ensures
        rd_tabs(s) matches Ok((v, rest)) ==> rd_tabs(s + t) == Ok::<(Seq<bool>, Seq<u8>), RestoreError>((v, rest + t)),
{
    reveal(rd_tabs);
    lemma_ext_u32(s, t);
    if let Ok((n, s1)) = rd_u32(s) {
        lemma_ext_take(s1, t, (n + 7) / 8);
    }
}

/// Bytes after a complete body are trailing bytes.
proof fn lemma_ext_screens(s: Seq<u8>, t: Seq<u8>, with_frame: bool)
    requires
        t.len() > 0,
    ensures
        rd_screens(s, with_frame) is Ok ==> rd_screens(s + t, with_frame) == Err::<
            (Grid, Grid, Option<Grid>),
            RestoreError,
        >(RestoreError::TrailingBytes),
{
    lemma_ext_screen(s, t);
    if let Ok((p, s9)) = rd_screen(s) {
        lemma_ext_screen(s9, t);
        if let Ok((a, s10)) = rd_screen(s9) {
            lemma_ext_screen(s10, t);
            if let Ok((f, s11)) = rd_frame(s10, with_frame) {
                if s11.len() == 0 {
                    assert((s11 + t).len() != 0);
                }
            }
        }
    }
}

proof fn lemma_ext_body(s: Seq<u8>, t: Seq<u8>, flags: u8)
    requires
        t.len() > 0,
    ensures
        rd_body(s, flags) is Ok ==> rd_body(s + t, flags) == Err::<Fields, RestoreError>(
            RestoreError::TrailingBytes,
        ),
{
    reveal(rd_body);
    lemma_ext_style(s, t);
    if let Ok((style, s4)) = rd_style(s) {
        lemma_ext_u32(s4, t);
        if let Ok((top, s5)) = rd_u32(s4) {
            lemma_ext_u32(s5, t);
            if let Ok((bottom, s6)) = rd_u32(s5) {
                lemma_ext_saved(s6, t, flag(flags, 5));
                if let Ok((saved, s7)) = rd_saved(s6, flag(flags, 5)) {
                    lemma_ext_tabs(s7, t);
                    if let Ok((tabs, s8)) = rd_tabs(s7) {
                        lemma_ext_screens(s8, t, flag(flags, 6));
                    }
                }
            }
        }
    }
}

/// Bytes after a complete checkpoint make it unreadable: it is rejected as
/// having trailing bytes.
pub proof fn lemma_decode_trailing(b: Seq<u8>, t: Seq<u8>)
    requires
        t.len() > 0,
        decode(b) is Ok,
    ensures
        decode(b + t) == Err::<TermModel, RestoreError>(RestoreError::TrailingBytes),
{
    reveal(rd_fields);
    lemma_ext_take(b, t, 4);
    if let Ok((mg, s1)) = rd_take(b, 4) {
        lemma_ext_u16(s1, t);
        if let Ok((v, s2)) = rd_u16(s1) {
            lemma_ext_u8(s2, t);
            if let Ok((flags, s3)) = rd_u8(s2) {
                lemma_ext_body(s3, t, flags);
            }
        }
    }
}

/// Every proper prefix of a checkpoint, the empty one included, is
/// rejected: a checkpoint cut short never restores.
pub proof fn lemma_checkpoint_prefix_rejected(m: TermModel, len: int)
    requires
        m.wf(),
        m.rows() * m.cols() <= u32::MAX,
        0 <= len < checkpoint_bytes(m).len(),
    ensures
        decode(checkpoint_bytes(m).take(len)) is Err,
{
    let ck = checkpoint_bytes(m);
    lemma_checkpoint_not_trailing(m);
    if decode(ck.take(len)) is Ok {
        lemma_decode_trailing(ck.take(len), ck.skip(len));
        assert(ck.take(len) + ck.skip(len) =~= ck);
    }
}

/// A style whose first colour tag, or whose second, is above 2 is an unknown
/// colour; with both tags known, an attribute byte with a bit above the
/// sixth is an unknown attribute.
pub proof fn lemma_rd_style_rejects(s: Seq<u8>)
    requires
        s.len() >= 9,
    ensures
        s[0] > 2 ==> rd_style(s) == Err::<(TextStyle, Seq<u8>), RestoreError>(RestoreError::UnknownColour),
        s[0] <= 2 && s[4] > 2 ==> rd_style(s) == Err::<(TextStyle, Seq<u8>), RestoreError>(
            RestoreError::UnknownColour,
        ),
        s[0] <= 2 && s[4] <= 2 && s[8] >> 6u8 != 0 ==> rd_style(s) == Err::<(TextStyle, Seq<u8>), RestoreError>(
            RestoreError::UnknownStyleAttribute,
        ),
{
    reveal(rd_style);
    let s1 = s.skip(4);
    let s2 = s1.skip(4);
    assert(s1[0] == s[4]);
    assert(s2[0] == s[8]);
}

} // verus!
