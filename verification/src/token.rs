//! The token grammar exchanged with an external structured-data codec,
//! and the decoder's error and key-classification types.

use vstd::prelude::*;

verus! {

/// One token of the structured-data grammar.
#[derive(Debug, PartialEq, Eq)]
pub enum Token {
    /// A boolean literal.
    Bool(bool),
    /// A signed 64-bit integer literal.
    I64(i64),
    /// An unsigned 64-bit integer literal.
    U64(u64),
    /// A 64-bit floating-point literal, carried as its IEEE-754 bit
    /// pattern.
    F64Bits(u64),
    /// A text literal: a string value, or an object key.
    Text(String),
    /// An absent optional value.
    Absent,
    /// A present optional value; the tokens of the wrapped value follow.
    Present,
    /// The unit value.
    Unit,
    /// Opens a sequence.
    SeqStart,
    /// Closes a sequence.
    SeqEnd,
    /// Opens a map.
    MapStart,
    /// Closes a map.
    MapEnd,
}

/// Model of a token; text is a character sequence.
pub enum TokV {
    Bool(bool),
    I64(i64),
    U64(u64),
    F64Bits(u64),
    Text(Seq<char>),
    Absent,
    Present,
    Unit,
    SeqStart,
    SeqEnd,
    MapStart,
    MapEnd,
}

impl View for Token {
    type V = TokV;

    open spec fn view(&self) -> TokV {
        match self {
            Token::Bool(b) => TokV::Bool(*b),
            Token::I64(x) => TokV::I64(*x),
            Token::U64(x) => TokV::U64(*x),
            Token::F64Bits(x) => TokV::F64Bits(*x),
            Token::Text(s) => TokV::Text(s@),
            Token::Absent => TokV::Absent,
            Token::Present => TokV::Present,
            Token::Unit => TokV::Unit,
            Token::SeqStart => TokV::SeqStart,
            Token::SeqEnd => TokV::SeqEnd,
            Token::MapStart => TokV::MapStart,
            Token::MapEnd => TokV::MapEnd,
        }
    }
}

/// Models of a token sequence, elementwise.
pub open spec fn toks_view(ts: Seq<Token>) -> Seq<TokV> {
    Seq::new(ts.len(), |i: int| ts[i]@)
}

/// Why a decode failed. The decoder performs no recovery: the first
/// error aborts the whole decode and no tree is returned.
#[derive(Clone, Copy, Debug, PartialEq, Eq, Structural)]
pub enum DecodeError {
    /// The token stream ended where a value, a key, or a closer was
    /// expected.
    EndOfInput,
    /// A sequence or map closer stood where a value was expected.
    UnexpectedToken,
    /// A map key was not a text token.
    KeyNotString,
    /// Tokens remained after the single decoded value.
    TrailingTokens,
}

/// How the decoder treats one object key.
pub enum KeyClass {
    /// An ordinary object key, carrying its text.
    Ordinary(String),
}

/// Classifies a candidate object key: every key is an ordinary key
/// carrying its text. (The reserved sentinel keys that trigger
/// extension decode paths are outside this core's scope; with none of
/// them present every key classifies as ordinary.)
pub fn classify_key(key: String) -> (r: KeyClass)
    ensures
        r == KeyClass::Ordinary(key),
{
    KeyClass::Ordinary(key)
}

} // verus!
