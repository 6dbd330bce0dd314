//! The tokens of the expression language.

use crate::decimal::{render_number, Decimal, Number};
use crate::render::{push_integer, render_integer};
use crate::span::Span;
use vstd::prelude::*;
use vstd::string::*;
use vstd::std_specs::cmp::PartialEqSpecImpl;

verus! {

/// Why a stretch of the source text is not a token.
#[derive(Clone, Copy, Debug, PartialEq, Eq, Structural, Hash)]
pub enum LexingError {
    /// The text has the shape of a number with a fraction or an exponent,
    /// but spells none that can be held: a digit of it is no ASCII digit,
    /// or its power of ten is beyond what a decimal can hold.
    ParseFloatError,
    /// The text has the shape of an integer, but spells none that can be
    /// held: a digit of it is no ASCII digit, or its value does not fit in
    /// 64 bits.
    ParseIntError,
    /// The text has the shape of no token.
    InvalidToken,
}

impl LexingError {
    /// The name of the error.
    pub open spec fn name(self) -> Seq<char> {
        match self {
            LexingError::ParseFloatError => "ParseFloatError"@,
            LexingError::ParseIntError => "ParseIntError"@,
            LexingError::InvalidToken => "InvalidToken"@,
        }
    }

    /// The name of the error.
    pub fn to_string(&self) -> (text: String)
        ensures
            text@ == self.name(),
    {
        match self {
            LexingError::ParseFloatError => "ParseFloatError".to_owned(),
            LexingError::ParseIntError => "ParseIntError".to_owned(),
            LexingError::InvalidToken => "InvalidToken".to_owned(),
        }
    }
}

/// Where nothing more is known of an error, the text has the shape of no
/// token.
impl Default for LexingError {
    fn default() -> (r: LexingError)
        ensures
            r == LexingError::InvalidToken,
    {
        LexingError::InvalidToken
    }
}

/// A token of the expression language.
#[derive(Debug)]
pub enum Token {
    /// A stretch of text that is no token.
    Error(LexingError),
    /// An integer literal, sign included.
    Integer(i64),
    /// A numeric literal with a fraction or an exponent, sign included.
    Float(Decimal),
    /// A segment of an identifier, or the name of a unit.
    Name(String),
    Dot,
    Plus,
    Minus,
    Multiply,
    Divide,
    Power,
    LParen,
    RParen,
    Comma,
}

/// The mathematical value of a [`Token`].
pub enum Lexeme {
    Error(LexingError),
    Integer(i64),
    Float(Number),
    Name(Seq<char>),
    Dot,
    Plus,
    Minus,
    Multiply,
    Divide,
    Power,
    LParen,
    RParen,
    Comma,
}

impl Lexeme {
    /// The text that names the token: its kind and, in parentheses, what
    /// it holds.
    pub open spec fn describe(self) -> Seq<char> {
        match self {
            Lexeme::Error(e) => "Error("@ + e.name() + ")"@,
            Lexeme::Integer(v) => "Integer("@ + render_integer(v as int) + ")"@,
            Lexeme::Float(x) => "Float("@ + render_number(x) + ")"@,
            Lexeme::Name(n) => "Name("@ + n + ")"@,
            Lexeme::Dot => "Dot"@,
            Lexeme::Plus => "Plus"@,
            Lexeme::Minus => "Minus"@,
            Lexeme::Multiply => "Multiply"@,
            Lexeme::Divide => "Divide"@,
            Lexeme::Power => "Power"@,
            Lexeme::LParen => "LParen"@,
            Lexeme::RParen => "RParen"@,
            Lexeme::Comma => "Comma"@,
        }
    }

    /// Whether two lexemes are the same token: numbers count by value.
    pub open spec fn same(self, other: Lexeme) -> bool {
        match (self, other) {
            (Lexeme::Float(a), Lexeme::Float(b)) => a.same_value(b),
            _ => self == other,
        }
    }
}

impl View for Token {
    type V = Lexeme;

    open spec fn view(&self) -> Lexeme {
        match self {
            Token::Error(e) => Lexeme::Error(*e),
            Token::Integer(v) => Lexeme::Integer(*v),
            Token::Float(x) => Lexeme::Float(x@),
            Token::Name(n) => Lexeme::Name(n@),
            Token::Dot => Lexeme::Dot,
            Token::Plus => Lexeme::Plus,
            Token::Minus => Lexeme::Minus,
            Token::Multiply => Lexeme::Multiply,
            Token::Divide => Lexeme::Divide,
            Token::Power => Lexeme::Power,
            Token::LParen => Lexeme::LParen,
            Token::RParen => Lexeme::RParen,
            Token::Comma => Lexeme::Comma,
        }
    }
}

/// The mathematical values of a sequence of tokens, each with its span.
pub open spec fn lexemes(tokens: Seq<(Token, Span)>) -> Seq<(Lexeme, Span)> {
    Seq::new(tokens.len(), |i: int| (tokens[i].0@, tokens[i].1))
}

impl Token {
    /// The text that names the token: its kind and, in parentheses, what
    /// it holds.
    pub fn to_string(&self) -> (text: String)
        ensures
            text@ == self@.describe(),
    {
        match self {
            Token::Error(e) => {
                let mut text = "Error(".to_owned();
                text.append(e.to_string().as_str());
                text.append(")");
                text
            },
            Token::Integer(v) => {
                let mut text = "Integer(".to_owned();
                push_integer(&mut text, *v);
                text.append(")");
                text
            },
            Token::Float(x) => {
                let mut text = "Float(".to_owned();
                x.write_to(&mut text);
                text.append(")");
                text
            },
            Token::Name(n) => {
                let mut text = "Name(".to_owned();
                text.append(n.as_str());
                text.append(")");
                text
            },
            Token::Dot => "Dot".to_owned(),
            Token::Plus => "Plus".to_owned(),
            Token::Minus => "Minus".to_owned(),
            Token::Multiply => "Multiply".to_owned(),
            Token::Divide => "Divide".to_owned(),
            Token::Power => "Power".to_owned(),
            Token::LParen => "LParen".to_owned(),
            Token::RParen => "RParen".to_owned(),
            Token::Comma => "Comma".to_owned(),
        }
    }
}

/// A copy of a token is the same token.
impl Clone for Token {
    fn clone(&self) -> (r: Token)
        ensures
            r@ == self@,
    {
        match self {
            Token::Error(e) => Token::Error(*e),
            Token::Integer(v) => Token::Integer(*v),
            Token::Float(x) => Token::Float(x.clone()),
            Token::Name(n) => Token::Name(n.clone()),
            Token::Dot => Token::Dot,
            Token::Plus => Token::Plus,
            Token::Minus => Token::Minus,
            Token::Multiply => Token::Multiply,
            Token::Divide => Token::Divide,
            Token::Power => Token::Power,
            Token::LParen => Token::LParen,
            Token::RParen => Token::RParen,
            Token::Comma => Token::Comma,
        }
    }
}

/// Tokens are equal where they are of one kind and hold the same: numbers
/// count by value.
impl PartialEq for Token {
    fn eq(&self, other: &Token) -> (r: bool) {
        match (self, other) {
            (Token::Error(a), Token::Error(b)) => *a == *b,
            (Token::Integer(a), Token::Integer(b)) => *a == *b,
            (Token::Float(a), Token::Float(b)) => *a == *b,
            (Token::Name(a), Token::Name(b)) => *a == *b,
            (Token::Dot, Token::Dot) => true,
            (Token::Plus, Token::Plus) => true,
            (Token::Minus, Token::Minus) => true,
            (Token::Multiply, Token::Multiply) => true,
            (Token::Divide, Token::Divide) => true,
            (Token::Power, Token::Power) => true,
            (Token::LParen, Token::LParen) => true,
            (Token::RParen, Token::RParen) => true,
            (Token::Comma, Token::Comma) => true,
            _ => false,
        }
    }
}

impl PartialEqSpecImpl for Token {
    open spec fn obeys_eq_spec() -> bool {
        true
    }

    open spec fn eq_spec(&self, other: &Token) -> bool {
        self@.same(other@)
    }
}

} // verus!
