//! vterm: a minimal terminal-emulator core over the `ansi` crate.

pub mod cell;
pub mod laws;
pub mod lex;
pub mod model;
pub mod outside;
pub mod term;

pub use term::Term;
pub use term::checkpoint::RestoreError;
