# vterm

A terminal-emulator core: child VT output bytes in, a live `ansi::Screen`
out. `Term::feed` runs the bytes through the `ansi` crate's parser and UTF-8
decoder and applies each event (cursor motion, erase, scroll region, SGR
style, autowrap, tab stops, new-line mode, alt screen, synchronized output,
wide characters) to a grid; `Term::screen` hands back what a host should show.
`Term::checkpoint` / `Term::restore` save and rebuild the whole state.

Every operation is verified with Verus against a mathematical model of the
emulator.

- `src/model.rs`: the model. `TermModel` is the state, its methods the
  transitions; `run` says what a stream of parsed events does.
- `src/term.rs`: `Term`, proved to follow the model step for step; `feed` is
  proved independent of how the input is split into chunks.
- `src/term/checkpoint.rs`: the checkpoint format as a spec
  (`checkpoint_bytes`, `decode`), the writer and reader proved against it, and
  the round trip proved.
- `src/cell.rs`, `src/lex.rs`: cells and styles as plain values; parsed events.
- `src/outside.rs`: the calls into `ansi` (and `char::from_u32`), each with
  the contract it is trusted to meet.
- `app/lib.rs`: `Display` and `std::error::Error` for restore errors.
