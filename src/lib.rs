//! Tokenizes JSON-like text and renders the token stream back without
//! formatting whitespace.
pub mod chars;
pub mod loose;
pub mod minify;
pub mod round_trip;
pub mod tokens;
