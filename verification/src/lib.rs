//! Push-based JSON parser and writer.
//!
//! - Incremental [`Parser::receive`] parsing: events are handed to a [`ContentHandler`] as
//!   tokens are recognized, and the bytes of an incomplete trailing token are kept for the
//!   next call and for [`Parser::close`].
//! - A symmetric [`Writer`] for encoding.

mod text;
pub mod number;
pub mod error;
pub mod keys;
pub mod limits;
pub mod locator;
pub mod grammar;
pub mod handler;
pub mod tokenizer;
pub mod parser;
pub mod writer;
pub mod streaming;
pub mod roundtrip;
pub mod document;
pub mod syntax;
pub mod acceptance;

pub use error::{ParseError, ParseResult, WriteError, WriteResult};
pub use handler::{ContentHandler, DefaultHandler};
pub use limits::ParserLimits;
pub use locator::Locator;
pub use number::{FloatLiteral, Number};
pub use parser::Parser;
pub use writer::{IndentConfig, Writer};
