//! The emulator as mathematics: what a terminal's state is, and what each
//! printed character, control byte and escape sequence does to it.
//!
//! [`TermModel`] is the state; its methods are the transitions. The
//! executable [`crate::Term`] is proved to follow them step for step.

use vstd::prelude::*;
use crate::cell::{GridCell, CellWidth, TextStyle, blank_cell, is_wide, replacement_char};
use crate::lex::{Lexeme, byte_lexemes};
use crate::outside::{rows_scrolled_down, rows_scrolled_up, sgr_applied, utf8_decode};

verus! {

/// A screen as the contracts see it: cells row by row, the width, and the
/// cursor.
pub struct Grid {
    pub cells: Seq<Seq<GridCell>>,
    pub cols: nat,
    pub row: nat,
    pub col: nat,
}

impl Grid {
    /// `rows x cols` cells, every row `cols` long, the cursor on the grid.
    pub open spec fn has_size(self, rows: nat, cols: nat) -> bool {
        &&& self.cells.len() == rows
        &&& self.cols == cols
        &&& forall|r: int| 0 <= r < rows ==> #[trigger] self.cells[r].len() == cols
        &&& self.row < rows
        &&& self.col < cols
    }

    /// The grid with the cell at `(r, c)` replaced.
    pub open spec fn put(self, r: int, c: int, cell: GridCell) -> Grid {
        Grid { cells: self.cells.update(r, self.cells[r].update(c, cell)), ..self }
    }

    /// The grid with the cursor at `(r, c)`.
    pub open spec fn at(self, r: nat, c: nat) -> Grid {
        Grid { row: r, col: c, ..self }
    }
}

/// A blank `rows x cols` grid with the cursor at the origin.
pub open spec fn blank_grid_of(rows: nat, cols: nat) -> Grid {
    Grid {
        cells: Seq::new(rows, |r: int| Seq::new(cols, |c: int| blank_cell())),
        cols,
        row: 0,
        col: 0,
    }
}

/// Tab stops every 8 columns, starting at column 0.
pub open spec fn default_tab_stops(cols: nat) -> Seq<bool> {
    Seq::new(cols, |c: int| c % 8 == 0)
}

/// The smaller of two integers.
pub open spec fn min(a: int, b: int) -> int {
    if a < b {
        a
    } else {
        b
    }
}

/// Parameter `i`, where a missing parameter or a 0 reads as 1 (the VT
/// default for motion counts and coordinates).
pub open spec fn param1(params: Seq<u16>, i: int) -> int {
    if 0 <= i < params.len() && params[i] != 0 {
        params[i] as int
    } else {
        1
    }
}

/// Parameter `i`, where a missing parameter reads as 0 (the VT default for
/// selectors).
pub open spec fn param0(params: Seq<u16>, i: int) -> int {
    if 0 <= i < params.len() {
        params[i] as int
    } else {
        0
    }
}

/// The first tab stop at or after column `from`, or the last column.
pub open spec fn tab_stop_from(tabs: Seq<bool>, from: int, cols: int) -> int
    decreases cols - from,
{
    if from >= cols {
        cols - 1
    } else if from >= 0 && from < tabs.len() && tabs[from] {
        from
    } else {
        tab_stop_from(tabs, from + 1, cols)
    }
}

/// Whether ED with selector `mode` (0, 1 or 2), the cursor at `(cr, cc)`,
/// erases the cell at `(r, c)`.
pub open spec fn display_hit(mode: int, cr: int, cc: int, r: int, c: int) -> bool {
    if mode == 0 {
        (r == cr && c >= cc) || r > cr
    } else if mode == 1 {
        r < cr || (r == cr && c <= cc)
    } else {
        true
    }
}

/// Whether EL with selector `mode` (0, 1 or 2), the cursor at `(cr, cc)`,
/// erases the cell at `(r, c)`.
pub open spec fn line_hit(mode: int, cr: int, cc: int, r: int, c: int) -> bool {
    r == cr && if mode == 0 {
        c >= cc
    } else if mode == 1 {
        c <= cc
    } else {
        true
    }
}

/// The cells `lo <= c < hi` of row `r`.
pub open spec fn span(r: int, lo: int, hi: int) -> spec_fn(int, int) -> bool {
    |rr: int, cc: int| rr == r && lo <= cc < hi
}

/// The cells ED with selector `mode` erases above row `below`.
pub open spec fn display_above(mode: int, cr: int, cc: int, below: int) -> spec_fn(int, int) -> bool {
    |r: int, c: int| display_hit(mode, cr, cc, r, c) && r < below
}

/// The whole state of a terminal emulator apart from its tokenizer.
pub struct TermModel {
    /// The normal screen.
    pub primary: Grid,
    /// The alternate screen.
    pub alt: Grid,
    /// The alternate screen is the active one.
    pub in_alt: bool,
    /// The style newly written cells take.
    pub style: TextStyle,
    /// The scroll region, rows `scroll_top..=scroll_bottom`.
    pub scroll_top: nat,
    pub scroll_bottom: nat,
    /// The saved cursor: row, column and style.
    pub saved: Option<(nat, nat, TextStyle)>,
    /// Tab stops, one flag per column.
    pub tabs: Seq<bool>,
    /// The last column was just written: the next printable wraps first.
    pub wrap_pending: bool,
    /// Autowrap (DECAWM).
    pub autowrap: bool,
    /// Cursor visibility (DECTCEM), tracked for the host.
    pub cursor_visible: bool,
    /// The last complete frame, shown while a synchronized update is open.
    pub sync_frame: Option<Grid>,
    /// Line feed also returns the carriage (LNM).
    pub newline_mode: bool,
}

/// A fresh emulator of `rows x cols`: blank screens, cursor at the origin,
/// full-height scroll region, tab stops every 8 columns, autowrap on, cursor
/// visible.
pub open spec fn fresh_model(rows: nat, cols: nat) -> TermModel {
    TermModel {
        primary: blank_grid_of(rows, cols),
        alt: blank_grid_of(rows, cols),
        in_alt: false,
        style: crate::cell::plain_style(),
        scroll_top: 0,
        scroll_bottom: (rows - 1) as nat,
        saved: None,
        tabs: default_tab_stops(cols),
        wrap_pending: false,
        autowrap: true,
        cursor_visible: true,
        sync_frame: None,
        newline_mode: false,
    }
}

/// The largest grid, in cells, that the emulator will hold: the cells must
/// fit in memory.
pub open spec fn fits(rows: nat, cols: nat) -> bool {
    rows * cols * 32 <= isize::MAX
}

/// `g` resized to `rows x cols`: what fits of its top-left corner stays, the
/// rest is blank, and the cursor is clamped onto the new grid.
pub open spec fn resized_grid(g: Grid, rows: nat, cols: nat) -> Grid {
    Grid {
        cells: Seq::new(
            rows,
            |r: int|
                Seq::new(
                    cols,
                    |c: int|
                        if r < g.cells.len() && c < g.cols {
                            g.cells[r][c]
                        } else {
                            blank_cell()
                        },
                ),
        ),
        cols,
        row: min(g.row as int, rows - 1) as nat,
        col: min(g.col as int, cols - 1) as nat,
    }
}

/// The cells of a `rows x cols` grid into which the cells of `src` have
/// been copied, row by row, up to (not including) column `j` of row `i`,
/// within what the two grids share; the rest blank.
pub open spec fn partial_copy(src: Grid, rows: nat, cols: nat, i: int, j: int) -> Seq<Seq<GridCell>> {
    Seq::new(
        rows,
        |r: int|
            Seq::new(
                cols,
                |c: int|
                    if (r < i || (r == i && c < j)) && r < src.cells.len() && c < src.cols {
                        src.cells[r][c]
                    } else {
                        blank_cell()
                    },
            ),
    )
}

impl TermModel {
    pub open spec fn rows(self) -> nat {
        self.primary.cells.len()
    }

    pub open spec fn cols(self) -> nat {
        self.primary.cols
    }

    /// A consistent state: both screens (and a synchronized frame) the same
    /// size, the scroll region and tab stops within it. (A saved cursor may
    /// lie outside the screen after a resize; restoring it clamps it.)
    pub open spec fn wf(self) -> bool {
        &&& self.rows() >= 1
        &&& self.cols() >= 1
        &&& fits(self.rows(), self.cols())
        &&& self.rows() <= isize::MAX
        &&& self.cols() <= isize::MAX
        &&& self.primary.has_size(self.rows(), self.cols())
        &&& self.alt.has_size(self.rows(), self.cols())
        &&& self.scroll_top <= self.scroll_bottom < self.rows()
        &&& self.tabs.len() == self.cols()
        &&& (self.sync_frame matches Some(f) ==> f.has_size(self.rows(), self.cols()))
    }

    /// The screen being written: the alternate one in alt-screen mode.
    pub open spec fn active(self) -> Grid {
        if self.in_alt {
            self.alt
        } else {
            self.primary
        }
    }

    /// The screen a host should show: the synchronized frame while an update
    /// is open, else the active screen.
    pub open spec fn shown(self) -> Grid {
        match self.sync_frame {
            Some(f) => f,
            None => self.active(),
        }
    }

    pub open spec fn with_active(self, g: Grid) -> TermModel {
        if self.in_alt {
            TermModel { alt: g, ..self }
        } else {
            TermModel { primary: g, ..self }
        }
    }

    pub open spec fn row(self) -> nat {
        self.active().row
    }

    pub open spec fn col(self) -> nat {
        self.active().col
    }

    /// The cursor moved to `(r, c)`.
    pub open spec fn goto(self, r: int, c: int) -> TermModel {
        self.with_active(self.active().at(r as nat, c as nat))
    }

    /// The active screen with the cell at `(r, c)` replaced.
    pub open spec fn put(self, r: int, c: int, cell: GridCell) -> TermModel {
        self.with_active(self.active().put(r, c, cell))
    }

    pub open spec fn nowrap(self) -> TermModel {
        TermModel { wrap_pending: false, ..self }
    }

    // ---- scrolling --------------------------------------------------------

    /// The scroll region moved up `n` lines, blank lines coming in at the
    /// bottom margin.
    pub open spec fn scroll_up(self, n: int) -> TermModel {
        if n == 0 {
            self
        } else {
            self.with_active(
                Grid {
                    cells: rows_scrolled_up(
                        self.active().cells,
                        self.active().cols,
                        self.scroll_top as int,
                        self.scroll_bottom as int,
                        n,
                        blank_cell(),
                    ),
                    ..self.active()
                },
            )
        }
    }

    /// The scroll region moved down `n` lines, blank lines coming in at the
    /// top margin.
    pub open spec fn scroll_down(self, n: int) -> TermModel {
        if n == 0 {
            self
        } else {
            self.with_active(
                Grid {
                    cells: rows_scrolled_down(
                        self.active().cells,
                        self.active().cols,
                        self.scroll_top as int,
                        self.scroll_bottom as int,
                        n,
                        blank_cell(),
                    ),
                    ..self.active()
                },
            )
        }
    }

    /// Down one line; at the bottom margin the region scrolls up instead.
    pub open spec fn line_feed(self) -> TermModel {
        if self.row() == self.scroll_bottom {
            self.scroll_up(1)
        } else if self.row() + 1 < self.rows() {
            self.goto(self.row() + 1int, self.col() as int)
        } else {
            self
        }
    }

    // ---- printing ----------------------------------------------------------

    /// Write `ch` at the cursor, honouring autowrap through the pending-wrap
    /// latch; a wide character takes two cells.
    pub open spec fn print(self, ch: char) -> TermModel {
        let m = if self.wrap_pending && self.autowrap {
            self.goto(self.row() as int, 0).line_feed().nowrap()
        } else {
            self
        };
        if is_wide(ch) && self.cols() >= 2 {
            m.print_wide(ch)
        } else {
            m.print_narrow(ch)
        }
    }

    /// A single-width character at the cursor. At the right edge the cursor
    /// stays and (with autowrap) latches a pending wrap.
    pub open spec fn print_narrow(self, ch: char) -> TermModel {
        let (r, c) = (self.row() as int, self.col() as int);
        let m = self.put(r, c, GridCell { ch, style: self.style, width: CellWidth::Single });
        if c + 1 >= self.cols() {
            if self.autowrap {
                TermModel { wrap_pending: true, ..m }
            } else {
                m
            }
        } else {
            m.goto(r, c + 1)
        }
    }

    /// A double-width character: a lead cell and its continuation. With no
    /// room at the last column it first wraps (autowrap) or steps back a
    /// column (no autowrap).
    pub open spec fn print_wide(self, ch: char) -> TermModel {
        self.room_for_wide().place_wide(ch)
    }

    /// At the last column, make room for a double-width character: wrap to
    /// the next line (autowrap) or step back a column.
    pub open spec fn room_for_wide(self) -> TermModel {
        if self.col() + 1 >= self.cols() {
            if self.autowrap {
                self.goto(self.row() as int, 0).line_feed()
            } else {
                self.goto(self.row() as int, self.cols() - 2)
            }
        } else {
            self
        }
    }

    /// The lead and continuation cells at the cursor, then the cursor past
    /// them (or, at the edge, on the continuation with a pending wrap).
    pub open spec fn place_wide(self, ch: char) -> TermModel {
        let (r, c) = (self.row() as int, self.col() as int);
        let m = self.put(r, c, GridCell { ch, style: self.style, width: CellWidth::Wide }).put(
            r,
            c + 1,
            GridCell { ch: ' ', style: self.style, width: CellWidth::Continuation },
        );
        if c + 2 >= self.cols() {
            let m2 = m.goto(r, c + 1);
            if self.autowrap {
                TermModel { wrap_pending: true, ..m2 }
            } else {
                m2
            }
        } else {
            m.goto(r, c + 2)
        }
    }

    // ---- C0 controls -------------------------------------------------------

    /// CR, LF/VT/FF, BS and HT; other controls do nothing.
    pub open spec fn control(self, b: u8) -> TermModel {
        if b == 0x0D {
            self.goto(self.row() as int, 0).nowrap()
        } else if b == 0x0A || b == 0x0B || b == 0x0C {
            let m = self.line_feed();
            if self.newline_mode {
                m.goto(m.row() as int, 0).nowrap()
            } else {
                m.nowrap()
            }
        } else if b == 0x08 {
            let c = if self.col() > 0 {
                self.col() - 1
            } else {
                0
            };
            self.goto(self.row() as int, c).nowrap()
        } else if b == 0x09 {
            self.goto(
                self.row() as int,
                tab_stop_from(self.tabs, self.col() + 1int, self.cols() as int),
            ).nowrap()
        } else {
            self
        }
    }

    // ---- cursor motion -----------------------------------------------------

    pub open spec fn move_to(self, r: int, c: int) -> TermModel {
        self.goto(min(r, self.rows() - 1), min(c, self.cols() - 1)).nowrap()
    }

    pub open spec fn move_up(self, n: int) -> TermModel {
        let r = if self.row() >= n {
            self.row() - n
        } else {
            0
        };
        self.goto(r, self.col() as int).nowrap()
    }

    pub open spec fn move_down(self, n: int) -> TermModel {
        self.goto(min(self.row() + n, self.rows() - 1), self.col() as int).nowrap()
    }

    pub open spec fn move_right(self, n: int) -> TermModel {
        self.goto(self.row() as int, min(self.col() + n, self.cols() - 1)).nowrap()
    }

    pub open spec fn move_left(self, n: int) -> TermModel {
        let c = if self.col() >= n {
            self.col() - n
        } else {
            0
        };
        self.goto(self.row() as int, c).nowrap()
    }

    // ---- erasing -----------------------------------------------------------

    /// The active screen with every cell for which `hit(r, c)` holds blanked.
    pub open spec fn blank_where(self, hit: spec_fn(int, int) -> bool) -> TermModel {
        let g = self.active();
        self.with_active(
            Grid {
                cells: Seq::new(
                    g.cells.len(),
                    |r: int|
                        Seq::new(
                            g.cells[r].len(),
                            |c: int|
                                if hit(r, c) {
                                    blank_cell()
                                } else {
                                    g.cells[r][c]
                                },
                        ),
                ),
                ..g
            },
        )
    }

    /// ED: 0 = cursor to end of screen, 1 = start of screen to cursor, 2 =
    /// all; other selectors do nothing.
    pub open spec fn erase_display(self, mode: int) -> TermModel {
        let (cr, cc) = (self.row() as int, self.col() as int);
        if 0 <= mode <= 2 {
            self.blank_where(|r: int, c: int| display_hit(mode, cr, cc, r, c))
        } else {
            self
        }
    }

    /// EL: 0 = cursor to end of line, 1 = start of line to cursor, 2 = the
    /// whole line; other selectors do nothing.
    pub open spec fn erase_line(self, mode: int) -> TermModel {
        let (cr, cc) = (self.row() as int, self.col() as int);
        if 0 <= mode <= 2 {
            self.blank_where(|r: int, c: int| line_hit(mode, cr, cc, r, c))
        } else {
            self
        }
    }

    /// ECH: blank `n` cells from the cursor rightward; nothing moves.
    pub open spec fn erase_chars(self, n: int) -> TermModel {
        let (cr, cc) = (self.row() as int, self.col() as int);
        self.blank_where(|r: int, c: int| r == cr && cc <= c < cc + n).nowrap()
    }

    // ---- scroll region, lines and characters --------------------------------

    /// DECSTBM: the scroll region `top;bottom` (1-based; a missing or 0
    /// bottom is the last row). An inverted or empty region is ignored. The
    /// cursor goes to the origin either way.
    pub open spec fn set_scroll_region(self, params: Seq<u16>) -> TermModel {
        let top = param1(params, 0) - 1;
        let bottom = if param0(params, 1) == 0 {
            self.rows() - 1
        } else {
            min(param0(params, 1) - 1, self.rows() - 1)
        };
        let m = if top < bottom {
            TermModel { scroll_top: top as nat, scroll_bottom: bottom as nat, ..self }
        } else {
            self
        };
        m.goto(0, 0).nowrap()
    }

    /// IL: `n` blank lines at the cursor row, inside the scroll region; the
    /// lines below move down and fall off the bottom margin. Outside the
    /// region nothing happens.
    pub open spec fn insert_lines(self, n: int) -> TermModel {
        if self.row() < self.scroll_top || self.row() > self.scroll_bottom {
            self
        } else {
            let g = self.active();
            self.with_active(
                Grid {
                    cells: rows_scrolled_down(
                        g.cells,
                        g.cols,
                        self.row() as int,
                        self.scroll_bottom as int,
                        n,
                        blank_cell(),
                    ),
                    ..g
                },
            ).goto(self.row() as int, 0).nowrap()
        }
    }

    /// DL: delete `n` lines at the cursor row, inside the scroll region; the
    /// lines below move up and blanks fill the bottom margin.
    pub open spec fn delete_lines(self, n: int) -> TermModel {
        if self.row() < self.scroll_top || self.row() > self.scroll_bottom {
            self
        } else {
            let g = self.active();
            self.with_active(
                Grid {
                    cells: rows_scrolled_up(
                        g.cells,
                        g.cols,
                        self.row() as int,
                        self.scroll_bottom as int,
                        n,
                        blank_cell(),
                    ),
                    ..g
                },
            ).goto(self.row() as int, 0).nowrap()
        }
    }

    /// The cursor row replaced by `f(c)` at each column `c`.
    pub open spec fn map_row(self, f: spec_fn(int) -> GridCell) -> TermModel {
        let g = self.active();
        let r = self.row() as int;
        self.with_active(Grid { cells: g.cells.update(r, Seq::new(g.cols, f)), ..g })
    }

    /// ICH: `n` blank cells at the cursor; the rest of the line moves right
    /// and off the edge.
    pub open spec fn insert_chars(self, n: int) -> TermModel {
        let line = self.active().cells[self.row() as int];
        let start = self.col() as int;
        let k = min(n, self.cols() - start);
        self.map_row(
            |c: int|
                if c < start {
                    line[c]
                } else if c < start + k {
                    blank_cell()
                } else {
                    line[c - k]
                },
        ).nowrap()
    }

    /// DCH: delete `n` cells at the cursor; the rest of the line moves left
    /// and blanks fill the end.
    pub open spec fn delete_chars(self, n: int) -> TermModel {
        let line = self.active().cells[self.row() as int];
        let start = self.col() as int;
        let k = min(n, self.cols() - start);
        self.map_row(
            |c: int|
                if c < start {
                    line[c]
                } else if c + k < self.cols() {
                    line[c + k]
                } else {
                    blank_cell()
                },
        ).nowrap()
    }

    // ---- save / restore, tabs, modes ---------------------------------------

    pub open spec fn save_cursor(self) -> TermModel {
        TermModel { saved: Some((self.row(), self.col(), self.style)), ..self }
    }

    /// Back to the saved cursor (clamped) and style; with nothing saved only
    /// the pending wrap is cleared.
    pub open spec fn restore_cursor(self) -> TermModel {
        match self.saved {
            Some((r, c, s)) => TermModel {
                style: s,
                ..self.goto(min(r as int, self.rows() - 1), min(c as int, self.cols() - 1))
            }.nowrap(),
            None => self.nowrap(),
        }
    }

    /// HTS: a tab stop at the cursor column.
    pub open spec fn set_tab_stop(self) -> TermModel {
        TermModel { tabs: self.tabs.update(self.col() as int, true), ..self }
    }

    /// TBC: 0 clears the tab stop at the cursor column, 3 clears them all.
    pub open spec fn clear_tab_stops(self, mode: int) -> TermModel {
        if mode == 0 {
            TermModel { tabs: self.tabs.update(self.col() as int, false), ..self }
        } else if mode == 3 {
            TermModel { tabs: Seq::new(self.tabs.len(), |c: int| false), ..self }
        } else {
            self
        }
    }

    /// Enter (a cleared) or leave the alternate screen. The cursor moves with
    /// the switch: the newly active screen takes the position it had.
    pub open spec fn set_alt(self, enter: bool) -> TermModel {
        if enter && !self.in_alt {
            TermModel {
                alt: blank_grid_of(self.rows(), self.cols()).at(self.row(), self.col()),
                in_alt: true,
                wrap_pending: false,
                ..self
            }
        } else if !enter && self.in_alt {
            TermModel {
                primary: self.primary.at(self.alt.row, self.alt.col),
                in_alt: false,
                wrap_pending: false,
                ..self
            }
        } else {
            self.nowrap()
        }
    }

    /// Open a synchronized update (keeping the first frame if one is open
    /// already), or close it.
    pub open spec fn set_sync(self, on: bool) -> TermModel {
        if on {
            if self.sync_frame is Some {
                self
            } else {
                TermModel { sync_frame: Some(self.active()), ..self }
            }
        } else {
            TermModel { sync_frame: None, ..self }
        }
    }

    /// One DEC private mode (`CSI ? p h` / `CSI ? p l`): 25 cursor
    /// visibility, 7 autowrap, 47/1047/1049 alternate screen, 2026
    /// synchronized update; others are ignored.
    pub open spec fn set_private_mode(self, p: u16, on: bool) -> TermModel {
        if p == 25 {
            TermModel { cursor_visible: on, ..self }
        } else if p == 7 {
            TermModel { autowrap: on, ..self }
        } else if p == 47 || p == 1047 || p == 1049 {
            self.set_alt(on)
        } else if p == 2026 {
            self.set_sync(on)
        } else {
            self
        }
    }

    /// Each mode of `ps`, in order.
    pub open spec fn set_private_modes(self, ps: Seq<u16>, on: bool) -> TermModel
        decreases ps.len(),
    {
        if ps.len() == 0 {
            self
        } else {
            self.set_private_modes(ps.drop_last(), on).set_private_mode(ps.last(), on)
        }
    }

    /// ANSI modes (`CSI p h` / `CSI p l`): 20 is new-line mode; others are
    /// ignored.
    pub open spec fn set_ansi_modes(self, ps: Seq<u16>, on: bool) -> TermModel
        decreases ps.len(),
    {
        if ps.len() == 0 {
            self
        } else {
            let m = self.set_ansi_modes(ps.drop_last(), on);
            if ps.last() == 20 {
                TermModel { newline_mode: on, ..m }
            } else {
                m
            }
        }
    }

    // ---- dispatch ----------------------------------------------------------

    /// A CSI sequence with private marker `private`, parameters `params` and
    /// final byte `f`.
    pub open spec fn csi(self, private: Option<u8>, params: Seq<u16>, f: u8) -> TermModel {
        let n = param1(params, 0);
        if private == Some(0x3Fu8) {
            if f == 0x68 {
                self.set_private_modes(params, true)
            } else if f == 0x6C {
                self.set_private_modes(params, false)
            } else {
                self
            }
        } else if private is Some {
            self
        } else if f == 0x48 || f == 0x66 {
            self.move_to(param1(params, 0) - 1, param1(params, 1) - 1)
        } else if f == 0x41 {
            self.move_up(n)
        } else if f == 0x42 {
            self.move_down(n)
        } else if f == 0x43 {
            self.move_right(n)
        } else if f == 0x44 {
            self.move_left(n)
        } else if f == 0x45 {
            let m = self.move_down(n);
            m.goto(m.row() as int, 0)
        } else if f == 0x46 {
            let m = self.move_up(n);
            m.goto(m.row() as int, 0)
        } else if f == 0x47 {
            self.goto(self.row() as int, min(n - 1, self.cols() - 1)).nowrap()
        } else if f == 0x64 {
            self.goto(min(n - 1, self.rows() - 1), self.col() as int).nowrap()
        } else if f == 0x4A {
            self.erase_display(param0(params, 0))
        } else if f == 0x4B {
            self.erase_line(param0(params, 0))
        } else if f == 0x6D {
            TermModel { style: sgr_applied(self.style, params), ..self }
        } else if f == 0x72 {
            self.set_scroll_region(params)
        } else if f == 0x4C {
            self.insert_lines(n)
        } else if f == 0x4D {
            self.delete_lines(n)
        } else if f == 0x40 {
            self.insert_chars(n)
        } else if f == 0x50 {
            self.delete_chars(n)
        } else if f == 0x58 {
            self.erase_chars(n)
        } else if f == 0x53 {
            self.scroll_up(n)
        } else if f == 0x54 {
            self.scroll_down(n)
        } else if f == 0x67 {
            self.clear_tab_stops(param0(params, 0))
        } else if f == 0x68 {
            self.set_ansi_modes(params, true)
        } else if f == 0x6C {
            self.set_ansi_modes(params, false)
        } else if f == 0x73 {
            self.save_cursor()
        } else if f == 0x75 {
            self.restore_cursor()
        } else {
            self
        }
    }

    /// A non-CSI escape: `ESC 7` saves the cursor, `ESC 8` restores it,
    /// `ESC H` sets a tab stop; the rest (charset selection and the like) are
    /// ignored.
    pub open spec fn esc(self, f: u8) -> TermModel {
        if f == 0x37 {
            self.save_cursor()
        } else if f == 0x38 {
            self.restore_cursor()
        } else if f == 0x48 {
            self.set_tab_stop()
        } else {
            self
        }
    }

    /// Resize to `rows x cols`: both screens keep what fits of their top-left
    /// corner, cursors are clamped, the scroll region becomes full height
    /// (its top clamped), tab stops are rebuilt, a pending wrap is dropped
    /// and an open synchronized update ends. The saved cursor is kept as it
    /// is (restoring it clamps it to the size then).
    pub open spec fn resize(self, rows: nat, cols: nat) -> TermModel {
        TermModel {
            primary: resized_grid(self.primary, rows, cols),
            alt: resized_grid(self.alt, rows, cols),
            scroll_top: min(self.scroll_top as int, rows - 1) as nat,
            scroll_bottom: (rows - 1) as nat,
            tabs: default_tab_stops(cols),
            wrap_pending: false,
            sync_frame: None,
            ..self
        }
    }
}


/// Swapping in a grid of the right size for the active screen keeps the
/// state consistent.
pub proof fn lemma_with_active_wf(m: TermModel, g: Grid)
    requires
        m.wf(),
        g.has_size(m.rows(), m.cols()),
    ensures
        m.with_active(g).wf(),
        m.with_active(g).rows() == m.rows(),
        m.with_active(g).cols() == m.cols(),
        m.with_active(g).active() == g,
{
}

/// Scrolling a region of a grid keeps its size.
pub proof fn lemma_scrolled_size(g: Grid, rows: nat, cols: nat, top: int, bottom: int, n: int, fill: GridCell)
    requires
        g.has_size(rows, cols),
        0 <= top <= bottom < rows,
        n > 0,
    ensures
        (Grid { cells: rows_scrolled_up(g.cells, cols, top, bottom, n, fill), ..g }).has_size(rows, cols),
        (Grid { cells: rows_scrolled_down(g.cells, cols, top, bottom, n, fill), ..g }).has_size(rows, cols),
{
    let up = rows_scrolled_up(g.cells, cols, top, bottom, n, fill);
    let down = rows_scrolled_down(g.cells, cols, top, bottom, n, fill);
    let k = if n < bottom - top + 1 { n } else { bottom - top + 1 };
    assert forall|r: int| 0 <= r < rows implies #[trigger] up[r].len() == cols by {
        if top <= r <= bottom && r + k <= bottom {
            assert(g.cells[r + k].len() == cols);
        }
    }
    assert forall|r: int| 0 <= r < rows implies #[trigger] down[r].len() == cols by {
        if top <= r <= bottom && r >= top + k {
            assert(g.cells[r - k].len() == cols);
        }
    }
}


/// A grid that fits has fewer rows and columns than `isize::MAX`.
pub proof fn lemma_fits_bounds(rows: nat, cols: nat)
    requires
        rows >= 1,
        cols >= 1,
        fits(rows, cols),
    ensures
        rows <= isize::MAX,
        cols <= isize::MAX,
{
    assert(rows * cols * 32 >= rows) by (nonlinear_arith)
        requires
            cols >= 1,
    ;
    assert(rows * cols * 32 >= cols) by (nonlinear_arith)
        requires
            rows >= 1,
    ;
}


/// Blanking cells by two predicates in turn is blanking by either.
pub proof fn lemma_blank_compose(m: TermModel, p: spec_fn(int, int) -> bool, q: spec_fn(int, int) -> bool)
    requires
        m.wf(),
    ensures
        m.blank_where(p).blank_where(q) == m.blank_where(|r: int, c: int| p(r, c) || q(r, c)),
        m.blank_where(p).wf(),
{
    let g = m.active();
    let g1 = m.blank_where(p).active();
    let g2 = m.blank_where(p).blank_where(q).active();
    let g3 = m.blank_where(|r: int, c: int| p(r, c) || q(r, c)).active();
    assert forall|r: int| 0 <= r < g.cells.len() implies #[trigger] g2.cells[r] =~= g3.cells[r] by {
        assert(g.cells[r].len() == m.cols());
    }
    assert(g2.cells =~= g3.cells);
    assert(g1.has_size(m.rows(), m.cols()));
    lemma_with_active_wf(m, g1);
    assert(m.blank_where(p).blank_where(q) =~= m.blank_where(|r: int, c: int| p(r, c) || q(r, c)));
}

/// Blanking by predicates that agree on the grid gives the same state.
pub proof fn lemma_same_blanking(m: TermModel, p: spec_fn(int, int) -> bool, q: spec_fn(int, int) -> bool)
    requires
        m.wf(),
        forall|r: int, c: int| 0 <= r < m.rows() && 0 <= c < m.cols() ==> #[trigger] p(r, c) == q(r, c),
    ensures
        m.blank_where(p) == m.blank_where(q),
        m.blank_where(p).wf(),
{
    let g = m.active();
    let g1 = m.blank_where(p).active();
    let g2 = m.blank_where(q).active();
    assert forall|r: int| 0 <= r < g.cells.len() implies #[trigger] g1.cells[r] =~= g2.cells[r] by {
        assert(g.cells[r].len() == m.cols());
    }
    assert(g1.cells =~= g2.cells);
    assert(g1.has_size(m.rows(), m.cols()));
    lemma_with_active_wf(m, g1);
    assert(m.blank_where(p) =~= m.blank_where(q));
}

/// Blanking by a predicate false everywhere on the grid changes nothing.
pub proof fn lemma_blank_nothing(m: TermModel, p: spec_fn(int, int) -> bool)
    requires
        m.wf(),
        forall|r: int, c: int| 0 <= r < m.rows() && 0 <= c < m.cols() ==> !#[trigger] p(r, c),
    ensures
        m.blank_where(p) == m,
{
    let g = m.active();
    let g1 = m.blank_where(p).active();
    assert forall|r: int| 0 <= r < g.cells.len() implies #[trigger] g1.cells[r] =~= g.cells[r] by {
        assert(g.cells[r].len() == m.cols());
    }
    assert(g1.cells =~= g.cells);
    assert(g1 =~= g);
    assert(m.blank_where(p) =~= m);
}

/// Writing a blank cell is blanking that one cell.
pub proof fn lemma_blank_one(m: TermModel, p: spec_fn(int, int) -> bool, r0: int, c0: int)
    requires
        m.wf(),
        0 <= r0 < m.rows(),
        0 <= c0 < m.cols(),
    ensures
        m.blank_where(p).put(r0, c0, blank_cell()) == m.blank_where(
            |r: int, c: int| p(r, c) || (r == r0 && c == c0),
        ),
        m.blank_where(p).wf(),
{
    let g = m.active();
    let g1 = m.blank_where(p).active();
    let g2 = m.blank_where(p).put(r0, c0, blank_cell()).active();
    let g3 = m.blank_where(|r: int, c: int| p(r, c) || (r == r0 && c == c0)).active();
    assert(g1.has_size(m.rows(), m.cols()));
    lemma_with_active_wf(m, g1);
    assert forall|r: int| 0 <= r < g.cells.len() implies #[trigger] g2.cells[r] =~= g3.cells[r] by {
        assert(g.cells[r].len() == m.cols());
    }
    assert(g2.cells =~= g3.cells);
    assert(m.blank_where(p).put(r0, c0, blank_cell()) =~= m.blank_where(
        |r: int, c: int| p(r, c) || (r == r0 && c == c0),
    ));
}


// ---- the byte stream ------------------------------------------------------------

impl TermModel {
    /// Each character of `chars` printed in turn.
    pub open spec fn print_all(self, chars: Seq<char>) -> TermModel
        decreases chars.len(),
    {
        if chars.len() == 0 {
            self
        } else {
            self.print_all(chars.drop_last()).print(chars.last())
        }
    }

    /// What a lexeme other than a text byte does: controls, CSI and escape
    /// sequences as above; OSC and DCS-like strings are ignored.
    pub open spec fn apply_lexeme(self, l: Lexeme) -> TermModel {
        match l {
            Lexeme::Byte(_) => self,
            Lexeme::Control(b) => self.control(b),
            Lexeme::Csi { private, params, final_byte, .. } => self.csi(private, params, final_byte),
            Lexeme::Esc { final_byte, .. } => self.esc(final_byte),
            Lexeme::Osc => self,
            Lexeme::Other => self,
        }
    }
}

/// The number of text bytes `ls` starts with.
pub open spec fn text_run_len(ls: Seq<Lexeme>) -> nat
    decreases ls.len(),
{
    if ls.len() > 0 && ls[0] is Byte {
        1 + text_run_len(ls.drop_first())
    } else {
        0
    }
}

/// The first `k` lexemes' bytes (all text bytes, for `k` up to
/// [`text_run_len`]).
pub open spec fn run_bytes(ls: Seq<Lexeme>, k: nat) -> Seq<u8> {
    Seq::new(k, |i: int| ls[i]->Byte_0)
}

/// A run of text bytes is never longer than the lexemes it starts.
pub proof fn lemma_text_run_len(ls: Seq<Lexeme>)
    ensures
        text_run_len(ls) <= ls.len(),
        ls.len() > 0 && ls[0] is Byte ==> text_run_len(ls) >= 1,
        forall|i: int| 0 <= i < text_run_len(ls) ==> #[trigger] ls[i] is Byte,
        text_run_len(ls) < ls.len() ==> !(ls[text_run_len(ls) as int] is Byte),
    decreases ls.len(),
{
    if ls.len() > 0 && ls[0] is Byte {
        lemma_text_run_len(ls.drop_first());
        assert forall|i: int| 0 <= i < text_run_len(ls) implies #[trigger] ls[i] is Byte by {
            if i > 0 {
                assert(ls[i] == ls.drop_first()[i - 1]);
            }
        }
        if text_run_len(ls) < ls.len() {
            assert(ls[text_run_len(ls) as int] == ls.drop_first()[text_run_len(ls.drop_first()) as int]);
        }
    }
}

/// What the emulator in state `m`, its decoder holding the bytes `held` of an
/// incomplete character, makes of the lexemes `ls`. Each run of text bytes
/// is decoded as UTF-8 in one piece, after the held bytes, and its characters
/// printed; a final incomplete character is held for what follows. Anything
/// else first abandons a held character, printing U+FFFD in its place, and
/// then takes effect.
pub open spec fn run(m: TermModel, held: Seq<u8>, ls: Seq<Lexeme>) -> TermModel
    decreases ls.len(),
{
    if ls.len() == 0 {
        m
    } else if ls[0] is Byte {
        let k = text_run_len(ls);
        proof {
            lemma_text_run_len(ls);
        }
        let d = utf8_decode(held + run_bytes(ls, k));
        run(m.print_all(d.0), d.1, ls.skip(k as int))
    } else {
        let m1 = if held.len() > 0 {
            m.print(replacement_char())
        } else {
            m
        };
        run(m1.apply_lexeme(ls[0]), Seq::empty(), ls.skip(1))
    }
}

/// The bytes of an incomplete character the decoder holds after the lexemes
/// `ls`, having held `held` before them (see [`run`]).
pub open spec fn run_held(held: Seq<u8>, ls: Seq<Lexeme>) -> Seq<u8>
    decreases ls.len(),
{
    if ls.len() == 0 {
        held
    } else if ls[0] is Byte {
        let k = text_run_len(ls);
        proof {
            lemma_text_run_len(ls);
        }
        run_held(utf8_decode(held + run_bytes(ls, k)).1, ls.skip(k as int))
    } else {
        run_held(Seq::empty(), ls.skip(1))
    }
}

/// Printing two strings in turn is printing them joined.
pub proof fn lemma_print_all_append(m: TermModel, a: Seq<char>, b: Seq<char>)
    ensures
        m.print_all(a + b) == m.print_all(a).print_all(b),
    decreases b.len(),
{
    if b.len() == 0 {
        assert(a + b =~= a);
    } else {
        lemma_print_all_append(m, a, b.drop_last());
        assert((a + b).drop_last() =~= a + b.drop_last());
        assert((a + b).last() == b.last());
    }
}


/// A text run of bytes `b` followed by `more`: the run is `b` joined to the
/// run `more` starts with.
pub proof fn lemma_text_run_join(b: Seq<u8>, more: Seq<Lexeme>)
    ensures
        text_run_len(byte_lexemes(b) + more) == b.len() + text_run_len(more),
        run_bytes(byte_lexemes(b) + more, b.len() + text_run_len(more)) == b + run_bytes(
            more,
            text_run_len(more),
        ),
        (byte_lexemes(b) + more).skip(b.len() + text_run_len(more) as int) == more.skip(
            text_run_len(more) as int,
        ),
    decreases b.len(),
{
    let ls = byte_lexemes(b) + more;
    let k = text_run_len(more);
    lemma_text_run_len(more);
    if b.len() == 0 {
        assert(ls =~= more);
    } else {
        lemma_text_run_join(b.drop_first(), more);
        assert(ls.drop_first() =~= byte_lexemes(b.drop_first()) + more);
        assert(ls[0] is Byte);
    }
    let rb = run_bytes(ls, b.len() + k);
    let want = b + run_bytes(more, k);
    assert forall|i: int| 0 <= i < b.len() + k implies #[trigger] rb[i] == want[i] by {
        if i >= b.len() {
            assert(ls[i] == more[i - b.len()]);
        }
    }
    assert(rb =~= want);
    assert(ls.skip(b.len() + k as int) =~= more.skip(k as int));
}


/// In the alternate screen, printing never touches the primary screen.
pub proof fn lemma_alt_print_keeps_primary(m: TermModel, cs: Seq<char>)
    requires
        m.in_alt,
    ensures
        m.print_all(cs).primary == m.primary,
        m.print_all(cs).in_alt,
    decreases cs.len(),
{
    if cs.len() > 0 {
        lemma_alt_print_keeps_primary(m, cs.drop_last());
    }
}

/// A full-screen program run in the alternate screen leaves the primary
/// screen's contents as they were: enter the alternate screen, print
/// anything, leave, and the primary screen shows the same cells.
pub proof fn lemma_alt_screen_round_trip(m: TermModel, cs: Seq<char>)
    requires
        !m.in_alt,
    ensures
        m.set_alt(true).print_all(cs).set_alt(false).primary.cells == m.primary.cells,
        !m.set_alt(true).print_all(cs).set_alt(false).in_alt,
{
    lemma_alt_print_keeps_primary(m.set_alt(true), cs);
}

} // verus!
