//! A tokenizer for a line-oriented, block-structured markup dialect.
//!
//! A document is a run of sections, each opened by a `-- <keyword>` header,
//! followed by attribute lines and a body chosen by the keyword. The
//! tokenizer turns the text into a flat sequence of typed tokens with exact
//! byte spans, for an editor's semantic highlighting.
pub mod attribute;
pub mod document;
pub mod lexer;
pub mod paragraph;
pub mod section;
pub mod source;
pub mod token;

pub use source::Source;
pub use token::{NomToken, TokenKind};
pub use document::{Document, ParseError, nom_parse, tokenize};
pub use section::{BodyPolicy, ErrorKind};
