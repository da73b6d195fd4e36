//! A strict JSON reader: a tokenizer over UTF-8 text and a recursive-descent
//! parser that builds a value tree, both verified against their grammar.
//!
//! `grammar` says what a token is and `syntax` what a document is, as
//! mathematical functions; `lexer` and `parser` are the executable code that
//! is proved to compute them.

pub mod chars;
pub mod document;
pub mod grammar;
pub mod lexer;
pub mod literals;
pub mod parser;
pub mod stream;
pub mod syntax;
pub mod text;
pub mod value;

pub use lexer::{JsonLexer, LexError, Token};
pub use parser::{parse, JsonError, JsonParseError, JsonParser};
pub use value::{BooleanVal, Json, Pair, Value};
