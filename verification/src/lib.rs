//! JSON encoding and decoding for a PureScript runtime whose strings are
//! sequences of UTF-16 code units, as in JavaScript.
pub mod bigint;
pub mod decode;
pub mod grammar;
pub mod parser;
pub mod pretty;
pub mod revive;
pub mod roundtrip;
pub mod stringify;
pub mod text;
pub mod value;
