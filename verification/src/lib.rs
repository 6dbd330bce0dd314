//! A front end for a small expression language over numbers, physical
//! quantities, dotted identifiers and function calls: a lexer, an
//! operator-precedence parser and the syntax tree they produce.

pub mod decimal;
pub mod lexer;
pub mod literal;
pub mod node;
pub mod numeral;
pub mod parser;
pub mod precedence;
pub mod reading;
pub mod render;
pub mod shape;
pub mod span;
pub mod text;
pub mod token;

pub use crate::decimal::Decimal;
pub use crate::lexer::lex;
pub use crate::node::{BinaryOperator, ParseNode, UnaryOperator};
pub use crate::parser::{parse, parse_tokens, ParseError, ParseErrorKind};
pub use crate::span::Span;
pub use crate::token::{LexingError, Token};
