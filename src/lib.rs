//! Game records in a parenthesised, semicolon-delimited tree notation (as
//! used for Go kifu): a data model, a parser from text and a serializer back.
//!
//! - `types`: the record types, their mathematical models and invariants.
//! - `grammar`: what a text reads as, stated as spec functions, and the errors.
//! - `parser`: the recursive-descent parser, proved to read as `grammar` says.
//! - `serializer`: the serializer, proved to write what `ser_coll` describes.
//! - `laws`: the round trip between the two, and the parser's invariants.
//! - `text`: characters and whitespace.
//! - `pending`: the slot that hands a launch path over once.
pub mod types;
pub mod text;
pub mod serializer;
pub mod grammar;
pub mod parser;
pub mod laws;
pub mod pending;
