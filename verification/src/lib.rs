//! A zero-copy parser and serializer for HTTP/1.x header blocks.
//!
//! A header block is split on exact byte delimiters into a start line of three
//! tokens and a list of `name: value` fields. Every piece that comes out of a
//! parse borrows from the input buffer. Typed accessors validate a piece
//! against a lexical class each time they are called.
pub mod data;
pub mod error;
pub mod header;
pub mod laws;
pub mod message;
pub mod reader;
pub mod round_trip;
pub mod scan;
pub mod scan_lemmas;
