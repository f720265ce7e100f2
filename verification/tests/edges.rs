//! Edge cases, the later controls (ECH, SU/SD, tab set/clear, LNM,
//! synchronized output, wide characters, UTF-8 decoding), the checkpoint
//! format byte by byte, and each way a restore can fail.

use vterm::cell::CellWidth;
use vterm::lex::Event;
use vterm::term::checkpoint::{put_u16, put_u32, Reader};
use vterm::term::{at0, at1, default_tabs};
use vterm::{RestoreError, Term};

fn run(rows: usize, cols: usize, bytes: &[u8]) -> Term {
    let mut t = Term::new(rows, cols);
    t.feed(bytes);
    t
}

fn row_text(t: &Term, row: usize) -> String {
    let s = t.screen();
    (0..s.cols()).map(|c| s.cell(row, c).ch).collect()
}

fn same_screen(a: &Term, b: &Term) -> bool {
    a.screen() == b.screen()
}

// --- parameter helpers and tab stops ------------------------------------------

#[test]
fn parameter_defaults() {
    assert_eq!(at1(&[], 0), 1);
    assert_eq!(at1(&[0], 0), 1);
    assert_eq!(at1(&[5, 7], 1), 7);
    assert_eq!(at1(&[5], 3), 1);
    assert_eq!(at0(&[], 0), 0);
    assert_eq!(at0(&[3, 9], 1), 9);
    assert_eq!(at0(&[3], 1), 0);
}

#[test]
fn default_tab_stops_every_eight_columns() {
    let t = default_tabs(18);
    assert_eq!(t.len(), 18);
    for (c, &stop) in t.iter().enumerate() {
        assert_eq!(stop, c % 8 == 0, "column {c}");
    }
    assert!(default_tabs(0).is_empty());
}

#[test]
fn zero_size_is_clamped_to_one() {
    let t = Term::new(0, 0);
    assert_eq!(t.screen().rows(), 1);
    assert_eq!(t.screen().cols(), 1);
}

// --- later controls ---------------------------------------------------------------

#[test]
fn ech_blanks_without_moving() {
    let mut t = run(1, 5, b"ABCDE");
    t.feed(b"\x1b[1;2H\x1b[2X");
    assert_eq!(row_text(&t, 0), "A  DE");
    assert_eq!(t.screen().cursor(), ansi::Cursor::new(0, 1));
    // A count past the edge stops at the edge.
    t.feed(b"\x1b[9X");
    assert_eq!(row_text(&t, 0), "A    ");
}

#[test]
fn su_and_sd_scroll_the_region() {
    let mut t = run(3, 3, b"A\r\nB\r\nC");
    t.feed(b"\x1b[S");
    assert_eq!(t.screen().cell(0, 0).ch, 'B');
    assert_eq!(t.screen().cell(1, 0).ch, 'C');
    assert_eq!(t.screen().cell(2, 0).ch, ' ');
    assert_eq!(t.screen().cursor(), ansi::Cursor::new(2, 1));
    t.feed(b"\x1b[2T");
    assert_eq!(t.screen().cell(0, 0).ch, ' ');
    assert_eq!(t.screen().cell(1, 0).ch, ' ');
    assert_eq!(t.screen().cell(2, 0).ch, 'B');
}

#[test]
fn tab_stops_cleared_and_set() {
    let mut t = Term::new(1, 20);
    t.feed(b"\x1b[3g\tX");
    assert_eq!(t.screen().cell(0, 19).ch, 'X');
    t.feed(b"\x1b[1;5H\x1bH\r\tY");
    assert_eq!(t.screen().cell(0, 4).ch, 'Y');
    t.feed(b"\x1b[1;5H\x1b[g\r\tZ");
    assert_eq!(t.screen().cell(0, 19).ch, 'Z');
}

#[test]
fn new_line_mode_returns_the_carriage() {
    let t = run(3, 10, b"\x1b[20hab\ncd");
    assert_eq!(t.screen().cell(1, 0).ch, 'c');
    let t = run(3, 10, b"\x1b[20h\x1b[20lab\ncd");
    assert_eq!(t.screen().cell(1, 2).ch, 'c');
}

#[test]
fn synchronized_update_shows_the_last_complete_frame() {
    let mut t = run(2, 5, b"old");
    assert!(!t.in_sync());
    t.feed(b"\x1b[?2026h\x1b[Hnew");
    assert!(t.in_sync());
    assert_eq!(row_text(&t, 0), "old  ");
    assert_eq!(t.screen().cursor(), ansi::Cursor::new(0, 3));
    // A nested open keeps the first snapshot.
    t.feed(b"\x1b[?2026h");
    assert_eq!(row_text(&t, 0), "old  ");
    t.feed(b"\x1b[?2026l");
    assert!(!t.in_sync());
    assert_eq!(row_text(&t, 0), "new  ");
}

#[test]
fn resize_ends_a_synchronized_update() {
    let mut t = run(2, 5, b"old\x1b[?2026h\x1b[Hnew");
    t.resize(2, 5);
    assert!(!t.in_sync());
    assert_eq!(row_text(&t, 0), "new  ");
}

#[test]
fn alt_switch_carries_the_cursor_into_the_snapshot() {
    let t = run(4, 10, b"\x1b[3;4H\x1b[?1049;2026h");
    assert_eq!(t.screen().cursor(), ansi::Cursor::new(2, 3));
    assert_eq!(t.screen().cell(0, 0).ch, ' ');
}

#[test]
fn alternate_screen_leaves_primary_untouched() {
    let mut t = run(2, 4, b"keep");
    t.feed(b"\x1b[?1049h\x1b[2Jscribble\x1b[H\x1b[K");
    t.feed(b"\x1b[?1049l");
    assert_eq!(row_text(&t, 0), "keep");
}

#[test]
fn resize_grows_with_blanks_and_keeps_content() {
    let mut t = run(2, 2, b"ab\r\ncd");
    t.resize(3, 4);
    assert_eq!(row_text(&t, 0), "ab  ");
    assert_eq!(row_text(&t, 1), "cd  ");
    assert_eq!(row_text(&t, 2), "    ");
    assert_eq!(t.screen().cursor(), ansi::Cursor::new(1, 1));
}

// --- characters ----------------------------------------------------------------

#[test]
fn wide_characters_take_two_cells() {
    let t = run(2, 4, "中".as_bytes());
    let s = t.screen();
    assert_eq!(s.cell(0, 0).ch, '中');
    assert_eq!(s.cell(0, 0).width, ansi::CellWidth::Wide);
    assert_eq!(s.cell(0, 1).width, ansi::CellWidth::Continuation);
    assert_eq!(s.cursor(), ansi::Cursor::new(0, 2));
    // The second fills the row and latches a wrap; the third wraps.
    let t = run(2, 4, "中文字".as_bytes());
    let s = t.screen();
    assert_eq!(s.cell(0, 2).ch, '文');
    assert_eq!(s.cell(1, 0).ch, '字');
    assert_eq!(s.cell(1, 1).width, ansi::CellWidth::Continuation);
    assert_eq!(s.cursor(), ansi::Cursor::new(1, 2));
}

#[test]
fn wide_character_at_the_last_column_wraps_first() {
    let t = run(2, 3, "ab中".as_bytes());
    assert_eq!(row_text(&t, 0), "ab ");
    assert_eq!(t.screen().cell(1, 0).ch, '中');
}

#[test]
fn invalid_bytes_show_as_replacement() {
    let t = run(1, 5, b"a\xffb");
    assert_eq!(row_text(&t, 0), "a\u{FFFD}b  ");
}

#[test]
fn incomplete_character_before_a_control_shows_as_replacement() {
    let t = run(1, 5, b"x\xc3\r");
    assert_eq!(row_text(&t, 0), "x\u{FFFD}   ");
    assert_eq!(t.screen().cursor(), ansi::Cursor::new(0, 0));
}

#[test]
fn character_split_across_chunks_is_joined() {
    let mut t = Term::new(1, 6);
    t.feed(b"caf\xc3");
    assert!(!t.can_checkpoint());
    t.feed(b"\xa9!");
    assert_eq!(row_text(&t, 0), "caf\u{e9}! ");
    assert!(t.can_checkpoint());
}

#[test]
fn escape_split_across_chunks_is_joined() {
    let whole = run(3, 6, b"\x1b[2;3HX\x1b[1mY");
    let mut parts = Term::new(3, 6);
    for piece in [&b"\x1b["[..], b"2;", b"3H", b"X\x1b", b"[1", b"mY"] {
        parts.feed(piece);
    }
    assert!(same_screen(&whole, &parts));
    assert_eq!(parts.screen().cell(1, 3).ch, 'Y');
    assert!(parts.screen().cell(1, 3).style.bold);
}

#[test]
fn feeding_nothing_changes_nothing() {
    let mut t = run(2, 4, b"ab");
    let before = t.checkpoint().unwrap();
    t.feed(b"");
    assert_eq!(t.checkpoint().unwrap(), before);
}

// --- the operations one by one ----------------------------------------------------

#[test]
fn operations_called_directly() {
    let mut t = Term::new(3, 4);
    t.print('P');
    t.control(b'\n');
    t.print('Q');
    assert_eq!(t.screen().cell(0, 0).ch, 'P');
    assert_eq!(t.screen().cell(1, 1).ch, 'Q');
    t.csi(None, &[3, 4], b'H');
    assert_eq!(t.screen().cursor(), ansi::Cursor::new(2, 3));
    t.esc(b'7');
    t.csi(None, &[], b'H');
    t.esc(b'8');
    assert_eq!(t.screen().cursor(), ansi::Cursor::new(2, 3));
    t.csi(Some(b'?'), &[7], b'l');
    t.print('x');
    t.print('y');
    assert_eq!(t.screen().cell(2, 3).ch, 'y');
    assert_eq!(t.screen().cursor(), ansi::Cursor::new(2, 3));
    // Unknown sequences are ignored.
    let before = t.checkpoint().unwrap();
    t.csi(Some(b'>'), &[1], b'c');
    t.csi(None, &[1], b'z');
    t.esc(b'(');
    assert_eq!(t.checkpoint().unwrap(), before);
}

#[test]
fn events_applied_directly() {
    let mut t = Term::new(2, 6);
    t.apply_event(&Event::Text(b"ab".to_vec()));
    t.apply_event(&Event::Csi { private: None, params: vec![1], final_byte: b'm' });
    t.apply_event(&Event::Text(b"c".to_vec()));
    t.apply_event(&Event::Control(b'\r'));
    t.apply_event(&Event::Osc);
    t.apply_event(&Event::Text(b"Z".to_vec()));
    assert_eq!(row_text(&t, 0), "Zbc   ");
    assert!(t.screen().cell(0, 2).style.bold);
    assert!(!t.screen().cell(0, 1).style.bold);
}

#[test]
fn printing_text_directly() {
    let mut t = Term::new(1, 4);
    t.print_text("hé!");
    assert_eq!(row_text(&t, 0), "hé! ");
}

#[test]
fn wide_helper_matches_the_ranges() {
    assert!(vterm::cell::char_is_wide('中'));
    assert!(vterm::cell::char_is_wide('\u{1F600}'));
    assert!(!vterm::cell::char_is_wide('a'));
    assert!(!vterm::cell::char_is_wide('\u{FFFD}'));
    assert_eq!(vterm::cell::blank().width, CellWidth::Single);
}

// --- the checkpoint format ----------------------------------------------------------

#[test]
fn little_endian_writers() {
    let mut w = vec![9u8];
    put_u16(&mut w, 0x1234);
    put_u32(&mut w, 0x1234_5678);
    assert_eq!(w, vec![9, 0x34, 0x12, 0x78, 0x56, 0x34, 0x12]);
}

#[test]
fn reader_reads_in_order_and_stops_at_the_end() {
    let bytes = [1u8, 2, 3, 4, 5, 6, 7];
    let mut r = Reader::new(&bytes);
    assert_eq!(r.u8(), Ok(1));
    assert_eq!(r.u16(), Ok(0x0302));
    assert_eq!(r.u32(), Ok(0x0706_0504));
    assert!(r.at_end());
    assert_eq!(r.take(1), Err(RestoreError::Truncated));
    assert_eq!(r.u32(), Err(RestoreError::Truncated));
    let mut r = Reader::new(&bytes);
    assert_eq!(r.take(3), Ok(&bytes[..3]));
    assert_eq!(r.take(5), Err(RestoreError::Truncated));
    assert_eq!(r.take(4), Ok(&bytes[3..]));
}

#[test]
fn fresh_checkpoint_layout() {
    let ck = Term::new(1, 1).checkpoint().unwrap();
    assert_eq!(&ck[..7], b"VTCK\x01\x00\x0c");
    assert_eq!(ck.len(), 97);
    // Scroll region 0..=0, one tab flag set for the one column.
    assert_eq!(&ck[16..29], &[0, 0, 0, 0, 0, 0, 0, 0, 1, 0, 0, 0, 1]);
    // The primary screen: 1x1, cursor at the origin, one run of one blank.
    assert_eq!(&ck[29..49], &[1, 0, 0, 0, 1, 0, 0, 0, 0, 0, 0, 0, 0, 0, 0, 0, 1, 0, 0, 0]);
    assert_eq!(&ck[49..54], &[b' ', 0, 0, 0, 1]);
}

#[test]
fn equal_states_give_equal_checkpoints() {
    let a = run(3, 7, b"hello\r\nworld");
    let mut b = Term::new(3, 7);
    b.feed(b"hel");
    b.feed(b"lo\r\nwor");
    b.feed(b"ld");
    assert_eq!(a.checkpoint(), b.checkpoint());
}

#[test]
fn restored_checkpoint_round_trips() {
    let t = run(4, 9, b"\x1b[1;32mgreen\x1b[0m\x1b7\x1b[2;3r\x1b[?1049habc\x1b[?2026hdef");
    let ck = t.checkpoint().unwrap();
    let r = Term::restore(&ck).unwrap();
    assert_eq!(r.checkpoint().unwrap(), ck);
    assert!(r.in_sync());
    assert_eq!(r.screen(), t.screen());
}

fn fresh_1x1() -> Vec<u8> {
    Term::new(1, 1).checkpoint().unwrap()
}

fn with_byte(mut ck: Vec<u8>, at: usize, v: u8) -> Vec<u8> {
    ck[at] = v;
    ck
}

#[test]
fn each_damage_has_its_reason() {
    assert_eq!(Term::restore(b"VT").err(), Some(RestoreError::Truncated));
    assert_eq!(Term::restore(b"XXXXXXXX").err(), Some(RestoreError::NotACheckpoint));
    assert_eq!(Term::restore(b"VTCK\x02\x00").err(), Some(RestoreError::UnsupportedVersion));
    let ck = fresh_1x1();
    assert!(Term::restore(&ck).is_ok());
    assert_eq!(Term::restore(&with_byte(ck.clone(), 7, 3)).err(), Some(RestoreError::UnknownColour));
    assert_eq!(
        Term::restore(&with_byte(ck.clone(), 15, 0x40)).err(),
        Some(RestoreError::UnknownStyleAttribute)
    );
    assert_eq!(
        Term::restore(&with_byte(ck.clone(), 50, 0xD8)).err(),
        Some(RestoreError::InvalidCharacter)
    );
    assert_eq!(Term::restore(&with_byte(ck.clone(), 53, 3)).err(), Some(RestoreError::UnknownCellWidth));
    assert_eq!(
        Term::restore(&with_byte(ck.clone(), 29, 0)).err(),
        Some(RestoreError::ScreenSizeOutOfRange)
    );
    assert_eq!(
        Term::restore(&with_byte(ck.clone(), 37, 1)).err(),
        Some(RestoreError::CursorOutsideScreen)
    );
    assert_eq!(Term::restore(&with_byte(ck.clone(), 45, 2)).err(), Some(RestoreError::BadCellRun));
    assert_eq!(Term::restore(&with_byte(ck.clone(), 45, 0)).err(), Some(RestoreError::BadCellRun));
    let mut longer = ck.clone();
    longer.push(0);
    assert_eq!(Term::restore(&longer).err(), Some(RestoreError::TrailingBytes));
    let tall = Term::new(2, 1).checkpoint().unwrap();
    let mut mixed = ck[..63].to_vec();
    mixed.extend_from_slice(&tall[tall.len() - 34..]);
    assert_eq!(Term::restore(&mixed).err(), Some(RestoreError::ScreensDisagree));
    assert_eq!(Term::restore(&with_byte(ck.clone(), 24, 2)).err(), Some(RestoreError::TabStopsMismatch));
    assert_eq!(Term::restore(&with_byte(ck.clone(), 20, 1)).err(), Some(RestoreError::ScrollRegionOutside));
    assert_eq!(Term::restore(&with_byte(ck.clone(), 6, 0x1c)).err(), Some(RestoreError::SyncWithoutFrame));
    let saved = run(1, 1, b"\x1b7").checkpoint().unwrap();
    assert!(Term::restore(&saved).is_ok());
    assert_eq!(Term::restore(&with_byte(saved, 24, 1)).err(), Some(RestoreError::SavedCursorOutside));
}

#[test]
fn restore_error_messages() {
    assert_eq!(RestoreError::Truncated.reason(), "truncated");
    assert_eq!(
        RestoreError::SyncWithoutFrame.message(),
        "invalid terminal checkpoint: synchronized update without its frame"
    );
    assert_eq!(RestoreError::NotACheckpoint.message(), "invalid terminal checkpoint: not a checkpoint");
}

#[test]
fn new_and_restored_terminals_are_at_rest() {
    let t = Term::new(3, 3);
    assert!(t.can_checkpoint());
    let ck = t.checkpoint().unwrap();
    let r = Term::restore(&ck).unwrap();
    assert!(r.can_checkpoint());
    assert_eq!(r.checkpoint(), Some(ck.clone()));
    for len in 0..ck.len() {
        assert!(Term::restore(&ck[..len]).is_err(), "prefix {len}");
    }
}

#[test]
fn chunked_and_whole_feeding_agree_on_checkpoints() {
    let bytes = b"ab\x1b[1;3Hc\xc3\xa9\x1b[?25l";
    let whole = run(3, 6, bytes);
    for cut in 0..=bytes.len() {
        let mut t = Term::new(3, 6);
        t.feed(&bytes[..cut]);
        t.feed(&bytes[cut..]);
        assert_eq!(t.checkpoint(), whole.checkpoint(), "cut at {cut}");
    }
}

#[test]
fn resize_keeps_the_saved_cursor() {
    let mut t = run(10, 10, b"\x1b[9;9H\x1b7");
    t.resize(5, 5);
    t.feed(b"\x1b8");
    assert_eq!(t.screen().cursor(), ansi::Cursor::new(4, 4));
    t.resize(10, 10);
    t.feed(b"\x1b[H\x1b8");
    assert_eq!(t.screen().cursor(), ansi::Cursor::new(8, 8));
    // While the saved cursor lies off a smaller screen, its checkpoint is
    // refused on restore.
    t.resize(5, 5);
    let ck = t.checkpoint().unwrap();
    assert_eq!(Term::restore(&ck).err(), Some(RestoreError::SavedCursorOutside));
}
