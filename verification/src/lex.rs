//! What the tokenizer hands the emulator.
//!
//! [`Event`] is an owned unit of parsed output, one per event the `ansi`
//! parser reports. [`Lexeme`] is the same stream with every text run spread
//! out into its bytes: the form in which the order of events does not depend
//! on where the input was split into chunks.

use vstd::prelude::*;

verus! {

/// One parsed unit of terminal output, as far as the emulator reads it.
pub enum Event {
    /// A run of printable bytes, not yet decoded as UTF-8.
    Text(Vec<u8>),
    /// A C0 control byte (or DEL), executed on its own.
    Control(u8),
    /// `ESC [ ...`: private marker, numeric parameters and final byte (any
    /// intermediate bytes are not kept).
    Csi { private: Option<u8>, params: Vec<u16>, final_byte: u8 },
    /// `ESC` and a final byte (any intermediate bytes are not kept).
    Esc { final_byte: u8 },
    /// An OSC string (a title, say); its payload is not kept.
    Osc,
    /// A DCS, SOS, PM or APC string; its payload is not kept.
    Other,
}

/// One unit of the tokenizer's output with text spread out byte by byte.
pub enum Lexeme {
    Byte(u8),
    Control(u8),
    Csi { private: Option<u8>, params: Seq<u16>, final_byte: u8 },
    Esc { final_byte: u8 },
    Osc,
    Other,
}

/// The bytes of a text run as lexemes.
pub open spec fn byte_lexemes(bytes: Seq<u8>) -> Seq<Lexeme> {
    Seq::new(bytes.len(), |i: int| Lexeme::Byte(bytes[i]))
}

/// One event as lexemes.
pub open spec fn event_lexemes(e: Event) -> Seq<Lexeme> {
    match e {
        Event::Text(b) => byte_lexemes(b@),
        Event::Control(b) => seq![Lexeme::Control(b)],
        Event::Csi { private, params, final_byte } => seq![
            Lexeme::Csi { private, params: params@, final_byte },
        ],
        Event::Esc { final_byte } => seq![Lexeme::Esc { final_byte }],
        Event::Osc => seq![Lexeme::Osc],
        Event::Other => seq![Lexeme::Other],
    }
}

/// A sequence of events as lexemes, in order.
pub open spec fn lexemes_of(es: Seq<Event>) -> Seq<Lexeme>
    decreases es.len(),
{
    if es.len() == 0 {
        Seq::empty()
    } else {
        lexemes_of(es.drop_last()) + event_lexemes(es.last())
    }
}

} // verus!
