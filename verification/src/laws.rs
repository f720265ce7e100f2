//! What the emulator's operations do, stated cell by cell and coordinate by
//! coordinate over every state and every parameter, from the outside: the
//! cells a control erases, moves or keeps, where the cursor goes, and what
//! the scroll region becomes.

use vstd::prelude::*;
use crate::cell::{GridCell, blank_cell};
use crate::model::TermModel;

verus! {

/// The cell at row `r`, column `c` of the active screen.
pub open spec fn cell_at(m: TermModel, r: int, c: int) -> GridCell {
    m.active().cells[r][c]
}

/// `(r, c)` lies on the screen.
pub open spec fn on_grid(m: TermModel, r: int, c: int) -> bool {
    0 <= r < m.rows() && 0 <= c < m.cols()
}

/// The first parameter, 0 when missing.
pub open spec fn sel(params: Seq<u16>) -> int {
    if params.len() > 0 {
        params[0] as int
    } else {
        0
    }
}

/// The first parameter as a count: a missing or zero one counts 1.
pub open spec fn count(params: Seq<u16>) -> int {
    if params.len() > 0 && params[0] != 0 {
        params[0] as int
    } else {
        1
    }
}

/// The screen size, the cursor, which screen is active and the other screen
/// are as they were.
pub open spec fn only_cells_change(m: TermModel, m2: TermModel) -> bool {
    &&& m2.rows() == m.rows()
    &&& m2.cols() == m.cols()
    &&& m2.row() == m.row()
    &&& m2.col() == m.col()
    &&& m2.in_alt == m.in_alt
    &&& (if m.in_alt { m2.primary == m.primary } else { m2.alt == m.alt })
}

/// ED 0 (`CSI J`, `CSI 0 J`) erases from the cursor to the end of the
/// screen: the rest of the cursor row and every row below it are blank;
/// everything before the cursor is kept; the cursor stays.
pub proof fn law_erase_below(m: TermModel, params: Seq<u16>)
    requires
        m.wf(),
        sel(params) == 0,
    ensures
        only_cells_change(m, m.csi(None, params, 0x4A)),
        forall|r: int, c: int|
            on_grid(m, r, c) && (r > m.row() || (r == m.row() && c >= m.col())) ==> #[trigger] cell_at(
                m.csi(None, params, 0x4A),
                r,
                c,
            ) == blank_cell(),
        forall|r: int, c: int|
            on_grid(m, r, c) && (r < m.row() || (r == m.row() && c < m.col())) ==> #[trigger] cell_at(
                m.csi(None, params, 0x4A),
                r,
                c,
            ) == cell_at(m, r, c),
{
}

/// The second parameter as a count: a missing or zero one counts 1.
pub open spec fn count2(params: Seq<u16>) -> int {
    if params.len() > 1 && params[1] != 0 {
        params[1] as int
    } else {
        1
    }
}

/// ED 1 (`CSI 1 J`) erases from the start of the screen to the cursor, the
/// cursor's cell included; everything after it is kept.
pub proof fn law_erase_above(m: TermModel, params: Seq<u16>)
    requires
        m.wf(),
        sel(params) == 1,
    ensures
        only_cells_change(m, m.csi(None, params, 0x4A)),
        forall|r: int, c: int|
            on_grid(m, r, c) && (r < m.row() || (r == m.row() && c <= m.col())) ==> #[trigger] cell_at(
                m.csi(None, params, 0x4A),
                r,
                c,
            ) == blank_cell(),
        forall|r: int, c: int|
            on_grid(m, r, c) && (r > m.row() || (r == m.row() && c > m.col())) ==> #[trigger] cell_at(
                m.csi(None, params, 0x4A),
                r,
                c,
            ) == cell_at(m, r, c),
{
}

/// ED 2 (`CSI 2 J`) erases the whole screen; the cursor stays.
pub proof fn law_erase_screen(m: TermModel, params: Seq<u16>)
    requires
        m.wf(),
        sel(params) == 2,
    ensures
        only_cells_change(m, m.csi(None, params, 0x4A)),
        forall|r: int, c: int| on_grid(m, r, c) ==> #[trigger] cell_at(m.csi(None, params, 0x4A), r, c) == blank_cell(),
{
}

/// EL (`CSI K`): 0 erases from the cursor to the end of its row, 1 from the
/// start of the row to the cursor, 2 the whole row. Other rows are kept.
pub proof fn law_erase_line(m: TermModel, params: Seq<u16>)
    requires
        m.wf(),
        0 <= sel(params) <= 2,
    ensures
        only_cells_change(m, m.csi(None, params, 0x4B)),
        forall|r: int, c: int|
            on_grid(m, r, c) && r != m.row() ==> #[trigger] cell_at(m.csi(None, params, 0x4B), r, c)
                == cell_at(m, r, c),
        forall|c: int|
            0 <= c < m.cols() ==> #[trigger] cell_at(m.csi(None, params, 0x4B), m.row() as int, c) == if (
            sel(params) == 0 && c >= m.col()) || (sel(params) == 1 && c <= m.col()) || sel(params) == 2 {
                blank_cell()
            } else {
                cell_at(m, m.row() as int, c)
            },
{
}

/// ECH (`CSI n X`) blanks `n` cells from the cursor rightward (up to the end
/// of the row); nothing moves.
pub proof fn law_erase_chars(m: TermModel, params: Seq<u16>)
    requires
        m.wf(),
    ensures
        only_cells_change(m, m.csi(None, params, 0x58)),
        forall|r: int, c: int|
            on_grid(m, r, c) ==> #[trigger] cell_at(m.csi(None, params, 0x58), r, c) == if r == m.row() && m.col()
                <= c < m.col() + count(params) {
                blank_cell()
            } else {
                cell_at(m, r, c)
            },
{
}

/// DECSTBM (`CSI t ; b r`): the top margin is row `t` (1-based; missing or 0
/// is the first row), the bottom margin row `b`, clamped to the screen, a
/// missing or 0 bottom being the last row whatever the region was. An
/// inverted or empty region is ignored. The cursor goes home; no cell
/// changes.
pub proof fn law_set_scroll_region(m: TermModel, params: Seq<u16>)
    requires
        m.wf(),
    ensures
        ({
            let m2 = m.csi(None, params, 0x72);
            let top = count(params) - 1;
            let bottom = if params.len() > 1 && params[1] != 0 {
                if params[1] - 1 < m.rows() - 1 {
                    params[1] - 1
                } else {
                    m.rows() - 1
                }
            } else {
                m.rows() - 1
            };
            &&& top < bottom ==> m2.scroll_top == top && m2.scroll_bottom == bottom
            &&& top >= bottom ==> m2.scroll_top == m.scroll_top && m2.scroll_bottom == m.scroll_bottom
            &&& m2.row() == 0 && m2.col() == 0
            &&& m2.active().cells == m.active().cells
            &&& m2.rows() == m.rows() && m2.cols() == m.cols()
        }),
        (params.len() <= 1 || params[1] == 0) && count(params) < m.rows() ==> m.csi(
            None,
            params,
            0x72,
        ).scroll_bottom == m.rows() - 1,
{
}

/// The smaller of two integers.
pub open spec fn least(a: int, b: int) -> int {
    if a < b {
        a
    } else {
        b
    }
}

/// A line feed at the bottom margin scrolls the region up one line: each
/// row of the region takes the row below it, the bottom margin comes in
/// blank, rows outside the region are kept and the cursor row stays.
/// Elsewhere above the last row it moves the cursor down one row and changes
/// no cell.
pub proof fn law_line_feed(m: TermModel)
    requires
        m.wf(),
    ensures
        ({
            let m2 = m.control(0x0A);
            &&& m2.rows() == m.rows() && m2.cols() == m.cols() && m2.in_alt == m.in_alt
            &&& m.row() == m.scroll_bottom ==> {
                &&& m2.row() == m.row()
                &&& forall|r: int, c: int|
                    on_grid(m, r, c) ==> #[trigger] cell_at(m2, r, c) == if m.scroll_top <= r
                        < m.scroll_bottom {
                        cell_at(m, r + 1, c)
                    } else if r == m.scroll_bottom {
                        blank_cell()
                    } else {
                        cell_at(m, r, c)
                    }
            }
            &&& m.row() != m.scroll_bottom && m.row() + 1 < m.rows() ==> {
                &&& m2.row() == m.row() + 1
                &&& m2.active().cells == m.active().cells
            }
            &&& m2.col() == if m.newline_mode { 0 } else { m.col() as int }
        }),
{
}

/// SU (`CSI n S`) scrolls the region up `n` lines (at most its height):
/// row `r` of the region takes row `r + n`, the last `n` rows come in blank;
/// rows outside the region and the cursor are kept.
pub proof fn law_scroll_up(m: TermModel, params: Seq<u16>)
    requires
        m.wf(),
    ensures
        only_cells_change(m, m.csi(None, params, 0x53)),
        forall|r: int, c: int|
            on_grid(m, r, c) ==> #[trigger] cell_at(m.csi(None, params, 0x53), r, c) == if m.scroll_top <= r
                <= m.scroll_bottom {
                if r + count(params) <= m.scroll_bottom {
                    cell_at(m, r + count(params), c)
                } else {
                    blank_cell()
                }
            } else {
                cell_at(m, r, c)
            },
{
}

/// SD (`CSI n T`) scrolls the region down `n` lines: row `r` of the region
/// takes row `r - n`, the first `n` rows come in blank; rows outside the
/// region and the cursor are kept.
pub proof fn law_scroll_down(m: TermModel, params: Seq<u16>)
    requires
        m.wf(),
    ensures
        only_cells_change(m, m.csi(None, params, 0x54)),
        forall|r: int, c: int|
            on_grid(m, r, c) ==> #[trigger] cell_at(m.csi(None, params, 0x54), r, c) == if m.scroll_top <= r
                <= m.scroll_bottom {
                if r - count(params) >= m.scroll_top {
                    cell_at(m, r - count(params), c)
                } else {
                    blank_cell()
                }
            } else {
                cell_at(m, r, c)
            },
{
}

/// IL (`CSI n L`) with the cursor inside the scroll region inserts `n`
/// blank lines at the cursor row: rows from the cursor row to the bottom
/// margin move down `n` (those pushed past the margin are lost), `n` blank
/// rows take their place, rows outside the region are kept, and the cursor
/// goes to column 0. Outside the region nothing happens.
pub proof fn law_insert_lines(m: TermModel, params: Seq<u16>)
    requires
        m.wf(),
    ensures
        ({
            let m2 = m.csi(None, params, 0x4C);
            let (row, n) = (m.row() as int, count(params));
            &&& m2.rows() == m.rows() && m2.cols() == m.cols() && m2.in_alt == m.in_alt
            &&& m.scroll_top <= row <= m.scroll_bottom ==> {
                &&& m2.row() == row && m2.col() == 0
                &&& forall|r: int, c: int|
                    on_grid(m, r, c) ==> #[trigger] cell_at(m2, r, c) == if row <= r
                        <= m.scroll_bottom {
                        if r < row + n {
                            blank_cell()
                        } else {
                            cell_at(m, r - n, c)
                        }
                    } else {
                        cell_at(m, r, c)
                    }
            }
            &&& !(m.scroll_top <= row <= m.scroll_bottom) ==> m2 == m
        }),
{
}

/// DL (`CSI n M`) with the cursor inside the scroll region deletes `n`
/// lines at the cursor row: rows below move up `n`, blank rows come in at
/// the bottom margin, rows outside the region are kept, and the cursor goes
/// to column 0. Outside the region nothing happens.
pub proof fn law_delete_lines(m: TermModel, params: Seq<u16>)
    requires
        m.wf(),
    ensures
        ({
            let m2 = m.csi(None, params, 0x4D);
            let (row, n) = (m.row() as int, count(params));
            &&& m2.rows() == m.rows() && m2.cols() == m.cols() && m2.in_alt == m.in_alt
            &&& m.scroll_top <= row <= m.scroll_bottom ==> {
                &&& m2.row() == row && m2.col() == 0
                &&& forall|r: int, c: int|
                    on_grid(m, r, c) ==> #[trigger] cell_at(m2, r, c) == if row <= r
                        <= m.scroll_bottom {
                        if r + n <= m.scroll_bottom {
                            cell_at(m, r + n, c)
                        } else {
                            blank_cell()
                        }
                    } else {
                        cell_at(m, r, c)
                    }
            }
            &&& !(m.scroll_top <= row <= m.scroll_bottom) ==> m2 == m
        }),
{
}

/// ICH (`CSI n @`) inserts `n` blank cells at the cursor: the cells from
/// the cursor on move right `n` (those past the edge are lost); cells left
/// of the cursor and other rows are kept; the cursor stays.
pub proof fn law_insert_chars(m: TermModel, params: Seq<u16>)
    requires
        m.wf(),
    ensures
        only_cells_change(m, m.csi(None, params, 0x40)),
        forall|r: int, c: int|
            on_grid(m, r, c) ==> #[trigger] cell_at(m.csi(None, params, 0x40), r, c) == if r == m.row() && c
                >= m.col() {
                if c < m.col() + count(params) {
                    blank_cell()
                } else {
                    cell_at(m, r, c - count(params))
                }
            } else {
                cell_at(m, r, c)
            },
{
}

/// DCH (`CSI n P`) deletes `n` cells at the cursor: the cells right of them
/// move left `n`, blanks come in at the end of the row; cells left of the
/// cursor and other rows are kept; the cursor stays.
pub proof fn law_delete_chars(m: TermModel, params: Seq<u16>)
    requires
        m.wf(),
    ensures
        only_cells_change(m, m.csi(None, params, 0x50)),
        forall|r: int, c: int|
            on_grid(m, r, c) ==> #[trigger] cell_at(m.csi(None, params, 0x50), r, c) == if r == m.row() && c
                >= m.col() {
                if c + count(params) < m.cols() {
                    cell_at(m, r, c + count(params))
                } else {
                    blank_cell()
                }
            } else {
                cell_at(m, r, c)
            },
{
}

/// After a resize to `rows x cols` each screen keeps what fits of its
/// top-left corner and is blank elsewhere; its cursor is clamped onto the new
/// size; the scroll region is full height (the bottom margin the last row,
/// whatever it was, the top margin clamped); tab stops are every 8 columns;
/// no synchronized update is open.
pub proof fn law_resize(m: TermModel, rows: nat, cols: nat)
    requires
        m.wf(),
        rows >= 1,
        cols >= 1,
    ensures
        ({
            let m2 = m.resize(rows, cols);
            &&& m2.rows() == rows && m2.cols() == cols
            &&& m2.scroll_bottom == rows - 1
            &&& m2.scroll_top == least(m.scroll_top as int, rows - 1)
            &&& m2.in_alt == m.in_alt
            &&& m2.sync_frame is None
            &&& m2.saved == m.saved
            &&& forall|c: int| 0 <= c < cols ==> #[trigger] m2.tabs[c] == (c % 8 == 0)
            &&& m2.tabs.len() == cols
            &&& m2.primary.row == least(m.primary.row as int, rows - 1)
            &&& m2.primary.col == least(m.primary.col as int, cols - 1)
            &&& m2.alt.row == least(m.alt.row as int, rows - 1)
            &&& m2.alt.col == least(m.alt.col as int, cols - 1)
            &&& forall|r: int, c: int|
                0 <= r < rows && 0 <= c < cols ==> #[trigger] m2.primary.cells[r][c] == if r < m.rows() && c
                    < m.cols() {
                    m.primary.cells[r][c]
                } else {
                    blank_cell()
                }
            &&& forall|r: int, c: int|
                0 <= r < rows && 0 <= c < cols ==> #[trigger] m2.alt.cells[r][c] == if r < m.rows() && c
                    < m.cols() {
                    m.alt.cells[r][c]
                } else {
                    blank_cell()
                }
        }),
{
}

/// The cursor motions change no cell and clear a pending wrap.
pub open spec fn moved_to(m: TermModel, m2: TermModel, r: int, c: int) -> bool {
    &&& m2.row() == r && m2.col() == c
    &&& m2.active().cells == m.active().cells
    &&& m2.in_alt == m.in_alt
    &&& !m2.wrap_pending
}

/// CUP/HVP (`CSI r ; c H`, `CSI r ; c f`): to row `r`, column `c` (1-based,
/// missing or 0 meaning 1), clamped onto the screen.
pub proof fn law_cursor_position(m: TermModel, params: Seq<u16>)
    requires
        m.wf(),
    ensures
        moved_to(
            m,
            m.csi(None, params, 0x48),
            least(count(params) - 1, m.rows() - 1),
            least(count2(params) - 1, m.cols() - 1),
        ),
        m.csi(None, params, 0x66) == m.csi(None, params, 0x48),
{
}

/// CUU, CUD, CUF, CUB (`CSI n A/B/C/D`): `n` rows up or down, or columns
/// right or left (missing or 0 meaning 1), stopping at the edge of the
/// screen; the other coordinate is kept.
pub proof fn law_cursor_moves(m: TermModel, params: Seq<u16>)
    requires
        m.wf(),
    ensures
        moved_to(
            m,
            m.csi(None, params, 0x41),
            if m.row() >= count(params) { m.row() - count(params) } else { 0 },
            m.col() as int,
        ),
        moved_to(m, m.csi(None, params, 0x42), least(m.row() + count(params), m.rows() - 1), m.col() as int),
        moved_to(m, m.csi(None, params, 0x43), m.row() as int, least(m.col() + count(params), m.cols() - 1)),
        moved_to(
            m,
            m.csi(None, params, 0x44),
            m.row() as int,
            if m.col() >= count(params) { m.col() - count(params) } else { 0 },
        ),
{
}

/// CNL, CPL (`CSI n E/F`): `n` rows down or up, stopping at the edge, to
/// column 0. CHA (`CSI n G`): to column `n` of the row; VPA (`CSI n d`): to
/// row `n` of the column (1-based, clamped).
pub proof fn law_cursor_lines(m: TermModel, params: Seq<u16>)
    requires
        m.wf(),
    ensures
        moved_to(m, m.csi(None, params, 0x45), least(m.row() + count(params), m.rows() - 1), 0),
        moved_to(m, m.csi(None, params, 0x46), if m.row() >= count(params) { m.row() - count(params) } else { 0 }, 0),
        moved_to(m, m.csi(None, params, 0x47), m.row() as int, least(count(params) - 1, m.cols() - 1)),
        moved_to(m, m.csi(None, params, 0x64), least(count(params) - 1, m.rows() - 1), m.col() as int),
{
}

/// CR goes to column 0; BS one column left, stopping at column 0; HT right
/// to the next tab stop, or the last column when there is none. None of them
/// changes a cell or the row.
pub proof fn law_cursor_controls(m: TermModel)
    requires
        m.wf(),
    ensures
        moved_to(m, m.control(0x0D), m.row() as int, 0),
        moved_to(m, m.control(0x08), m.row() as int, if m.col() >= 1 { m.col() - 1 } else { 0 }),
        ({
            let t = m.control(0x09).col();
            &&& m.control(0x09).row() == m.row()
            &&& m.control(0x09).active().cells == m.active().cells
            &&& m.col() < m.cols() - 1 ==> m.col() < t
            &&& t < m.cols()
            &&& t == m.cols() - 1 || m.tabs[t as int]
            &&& forall|c: int| m.col() < c < t ==> !#[trigger] m.tabs[c]
        }),
{
    lemma_tab_stop(m.tabs, m.col() + 1int, m.cols() as int);
}

/// The first tab stop at or after `from`: strictly before it there is none,
/// and it is a stop or the last column.
proof fn lemma_tab_stop(tabs: Seq<bool>, from: int, cols: int)
    requires
        tabs.len() == cols,
        1 <= from <= cols,
    ensures
        from <= crate::model::tab_stop_from(tabs, from, cols) < cols || (from == cols
            && crate::model::tab_stop_from(tabs, from, cols) == cols - 1),
        crate::model::tab_stop_from(tabs, from, cols) < cols,
        crate::model::tab_stop_from(tabs, from, cols) == cols - 1 || tabs[crate::model::tab_stop_from(tabs, from, cols)],
        forall|c: int| from <= c < crate::model::tab_stop_from(tabs, from, cols) ==> !#[trigger] tabs[c],
    decreases cols - from,
{
    if from < cols && !tabs[from] {
        lemma_tab_stop(tabs, from + 1, cols);
    }
}

/// DECSC then DECRC (`ESC 7`, `ESC 8`) brings back the cursor and style as
/// they were at the save, whatever happens between to the cursor and style.
pub proof fn law_save_restore(m: TermModel, r: nat, c: nat, st: crate::cell::TextStyle)
    requires
        m.wf(),
        r < m.rows(),
        c < m.cols(),
    ensures
        ({
            let saved = m.esc(0x37);
            let moved = crate::model::TermModel { style: st, ..saved.goto(r as int, c as int) };
            let back = moved.esc(0x38);
            &&& back.row() == m.row() && back.col() == m.col()
            &&& back.style == m.style
            &&& back.active().cells == m.active().cells
        }),
{
}

/// Printing a single-width character with no wrap pending writes it, in the
/// current style, at the cursor and changes no other cell. Short of the last
/// column the cursor moves one right; at the last column it stays, and with
/// autowrap a wrap is left pending.
pub proof fn law_print_narrow(m: TermModel, ch: char)
    requires
        m.wf(),
        !m.wrap_pending,
        !crate::cell::is_wide(ch) || m.cols() < 2,
    ensures
        ({
            let m2 = m.print(ch);
            &&& m2.rows() == m.rows() && m2.cols() == m.cols() && m2.in_alt == m.in_alt
            &&& forall|r: int, c: int|
                on_grid(m, r, c) ==> #[trigger] cell_at(m2, r, c) == if r == m.row() && c == m.col() {
                    GridCell { ch, style: m.style, width: crate::cell::CellWidth::Single }
                } else {
                    cell_at(m, r, c)
                }
            &&& m2.row() == m.row()
            &&& m.col() + 1 < m.cols() ==> m2.col() == m.col() + 1 && !m2.wrap_pending
            &&& m.col() + 1 == m.cols() ==> m2.col() == m.col() && m2.wrap_pending == m.autowrap
        }),
{
}

/// With a wrap pending and autowrap on, the next character goes to the
/// start of the next line (scrolling the region at the bottom margin), not
/// over the last column.
pub proof fn law_print_wraps(m: TermModel, ch: char)
    requires
        m.wf(),
        m.wrap_pending,
        m.autowrap,
        m.row() + 1 < m.rows(),
        m.row() != m.scroll_bottom,
        !crate::cell::is_wide(ch),
    ensures
        ({
            let m2 = m.print(ch);
            &&& cell_at(m2, m.row() + 1int, 0) == GridCell { ch, style: m.style, width: crate::cell::CellWidth::Single }
            &&& m2.row() == m.row() + 1
            &&& forall|r: int, c: int|
                on_grid(m, r, c) && !(r == m.row() + 1 && c == 0) ==> #[trigger] cell_at(m2, r, c)
                    == cell_at(m, r, c)
        }),
{
}

/// A double-width character with room for it takes two cells: its lead at
/// the cursor and a continuation right of it; the cursor moves past both
/// (or, filling the row, rests on the continuation).
pub proof fn law_print_wide(m: TermModel, ch: char)
    requires
        m.wf(),
        !m.wrap_pending,
        crate::cell::is_wide(ch),
        m.col() + 1 < m.cols(),
    ensures
        ({
            let m2 = m.print(ch);
            let (row, col) = (m.row() as int, m.col() as int);
            &&& cell_at(m2, row, col) == GridCell { ch, style: m.style, width: crate::cell::CellWidth::Wide }
            &&& cell_at(m2, row, col + 1) == GridCell {
                ch: ' ',
                style: m.style,
                width: crate::cell::CellWidth::Continuation,
            }
            &&& forall|r: int, c: int|
                on_grid(m, r, c) && !(r == row && (c == col || c == col + 1)) ==> #[trigger] cell_at(m2, r, c)
                    == cell_at(m, r, c)
            &&& m2.row() == row
            &&& m2.col() == least(col + 2, m.cols() - 1)
        }),
{
}

/// HTS (`ESC H`) sets a tab stop at the cursor column and no other; TBC 0
/// (`CSI g`) clears the one at the cursor column; TBC 3 clears them all.
pub proof fn law_tab_stops(m: TermModel, params: Seq<u16>)
    requires
        m.wf(),
    ensures
        forall|c: int|
            0 <= c < m.cols() ==> #[trigger] m.esc(0x48).tabs[c] == (c == m.col() || m.tabs[c]),
        sel(params) == 0 ==> forall|c: int|
            0 <= c < m.cols() ==> #[trigger] m.csi(None, params, 0x67).tabs[c] == (c != m.col() && m.tabs[c]),
        sel(params) == 3 ==> forall|c: int| 0 <= c < m.cols() ==> !#[trigger] m.csi(None, params, 0x67).tabs[c],
        m.csi(None, params, 0x67).tabs.len() == m.tabs.len(),
{
}

/// Entering the alternate screen (`CSI ? 1049 h`) shows a blank screen with
/// the cursor where it was, and leaves the primary screen as it was.
pub proof fn law_enter_alt(m: TermModel)
    requires
        m.wf(),
        !m.in_alt,
    ensures
        ({
            let m2 = m.csi(Some(0x3Fu8), seq![1049u16], 0x68);
            &&& m2.in_alt
            &&& m2.primary == m.primary
            &&& m2.row() == m.row() && m2.col() == m.col()
            &&& forall|r: int, c: int| on_grid(m, r, c) ==> #[trigger] cell_at(m2, r, c) == blank_cell()
        }),
{
    let ps = seq![1049u16];
    assert(ps.drop_last() =~= Seq::<u16>::empty());
    assert(m.set_private_modes(ps.drop_last(), true) == m);
    assert(m.set_private_modes(ps, true) == m.set_private_mode(1049, true));
    assert(m.csi(Some(0x3Fu8), ps, 0x68) == m.set_alt(true));
}

/// While a synchronized update is open (`CSI ? 2026 h`) the screen shown is
/// the one at the moment it opened, whatever is written after; closing it
/// (`CSI ? 2026 l`) shows the live screen.
pub proof fn law_sync(m: TermModel, ch: char)
    requires
        m.wf(),
        m.sync_frame is None,
    ensures
        ({
            let open = m.csi(Some(0x3Fu8), seq![2026u16], 0x68);
            &&& open.shown() == m.active()
            &&& open.print(ch).shown() == m.active()
            &&& open.print(ch).csi(Some(0x3Fu8), seq![2026u16], 0x6C).shown() == open.print(ch).active()
        }),
{
    let ps = seq![2026u16];
    assert(ps.drop_last() =~= Seq::<u16>::empty());
    let open = m.csi(Some(0x3Fu8), ps, 0x68);
    assert(m.set_private_modes(ps.drop_last(), true) == m);
    assert(open == m.set_sync(true));
    let p = open.print(ch);
    assert(p.sync_frame == open.sync_frame);
    assert(p.set_private_modes(ps.drop_last(), false) == p);
    assert(p.csi(Some(0x3Fu8), ps, 0x6C) == p.set_sync(false));
}

/// In new-line mode (`CSI 20 h`) a line feed also returns to column 0;
/// without it (`CSI 20 l`) the column is kept.
pub proof fn law_new_line_mode(m: TermModel)
    requires
        m.wf(),
    ensures
        m.csi(None, seq![20u16], 0x68).control(0x0A).col() == 0,
        m.csi(None, seq![20u16], 0x6C).control(0x0A).col() == m.col(),
{
    let ps = seq![20u16];
    assert(ps.drop_last() =~= Seq::<u16>::empty());
    assert(m.set_ansi_modes(ps.drop_last(), true) == m);
    assert(m.set_ansi_modes(ps.drop_last(), false) == m);
    assert(m.csi(None, ps, 0x68) == TermModel { newline_mode: true, ..m });
    assert(m.csi(None, ps, 0x6C) == TermModel { newline_mode: false, ..m });
}

} // verus!
