//! A lexical scanner for a small C-like language: it turns source text into
//! a sequence of tokens, one per request, ending with an end marker.
pub mod laws;
pub mod lexer;
pub mod repl;
pub mod scanning;
pub mod token;
