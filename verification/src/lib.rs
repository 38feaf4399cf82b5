//! A dynamically typed tree representation for structured data, with a
//! decoder from a generic token stream and an encoder back to the same
//! token grammar.
//!
//! The tree is a closed sum of seven kinds: string, 64-bit integer,
//! 64-bit float (carried as its IEEE-754 bit pattern), boolean, null,
//! array, and object. Objects keep their entries in strictly ascending
//! key order; inserting a key that is already present overwrites the
//! previous value.

pub mod decode;
pub mod encode;
pub mod order;
pub mod token;
pub mod value;
