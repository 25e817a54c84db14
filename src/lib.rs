//! A streaming HTTP/1.1 request parser: a lexer that turns bytes into tokens,
//! and a parser that turns tokens into a request, both proved against a
//! byte-level model of the accepted grammar.
//!
//! Neither reads by itself: each step either makes progress on the bytes it
//! holds or says how many more bytes it wants, so the caller owns the I/O.
//! `parse` runs the whole pipeline over bytes in memory.

pub mod text;
pub mod headers;
pub mod request;
pub mod lex;
pub mod lexer;
pub mod source;
pub mod parse;
pub mod laws;

pub use headers::HeaderMap;
pub use lex::{LexStep, Token};
pub use lexer::Lexer;
pub use parse::{parse, ParseError, ParseStep, Parser};
pub use request::{HttpBody, HttpMethod, HttpRequest, HttpRequestBuilder};
pub use source::ByteSource;
