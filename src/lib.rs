//! Document-level parser for a round-trip-preserving configuration format:
//! every whitespace and comment character of the input is kept as decoration
//! in the tree, so that rendering the tree gives back the input exactly.
pub mod document;
pub mod error;
pub mod expr;
pub mod grammar;
pub mod key;
pub mod model;
pub mod parser;
pub mod trivia;
pub mod value;
