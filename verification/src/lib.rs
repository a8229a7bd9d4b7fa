//! A two-stage front end for documentation comments written in a
//! Doxygen-like annotation syntax: a lexer that segments raw text into
//! typed tokens, and a parser that turns the token stream into a sequence
//! of grammar items (notations, text runs, and group markers).

pub mod lexer;
pub mod parser;
