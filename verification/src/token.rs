//! The data the scanner and the parser hand around: tokens, values,
//! declarations, and the errors that end a parse.

use vstd::prelude::*;

use crate::model::SpecToken;
use crate::model::SpecValue;

verus! {

/// The kind of failure that ends a parse. Every error is terminal: the
/// first one encountered aborts the whole parse.
#[derive(Clone, Copy, Debug, PartialEq, Eq, Structural)]
pub enum ParseError {
    /// A numeric literal's text does not denote an integer or a
    /// floating-point number.
    InvalidLiteral,
    /// A `:` without `=` after it, or a declaration's name without the
    /// assignment marker after it.
    ExpectedEquals,
    /// A string literal's opening quote without a closing one.
    UnterminatedString,
    /// A character that opens no token.
    UnrecognizedChar,
    /// A declaration that opens with something other than a name.
    ExpectedName,
    /// A declaration whose assignment marker is not followed by a
    /// literal.
    ExpectedLiteral,
}

/// A token, the smallest lexical unit of a source text.
#[derive(Debug)]
pub enum Token {
    EOF,
    Assignment,
    Name(String),
    StringLiteral(String),
    IntLiteral(i64),
    FloatLiteral(String),
}

impl View for Token {
    type V = SpecToken;

    open spec fn view(&self) -> SpecToken {
        match self {
            Token::EOF => SpecToken::End,
            Token::Assignment => SpecToken::Assign,
            Token::Name(s) => SpecToken::Name(s@),
            Token::StringLiteral(s) => SpecToken::StrLit(s@),
            Token::IntLiteral(n) => SpecToken::IntLit(*n),
            Token::FloatLiteral(t) => SpecToken::FloatLit(t@),
        }
    }
}

/// A declared value: a string, a signed 64-bit integer, or a
/// floating-point number carried as its literal text, digits and one
/// decimal point after an optional sign.
#[derive(Debug)]
pub enum Value {
    String(String),
    Integer(i64),
    Float(String),
}

impl View for Value {
    type V = SpecValue;

    open spec fn view(&self) -> SpecValue {
        match self {
            Value::String(s) => SpecValue::Str(s@),
            Value::Integer(n) => SpecValue::Int(*n),
            Value::Float(t) => SpecValue::Float(t@),
        }
    }
}

/// One `name := literal` unit of a source text.
#[derive(Debug)]
pub struct Declaration {
    pub name: String,
    pub value: Value,
}

/// What reading one declaration yields: a declaration, the end of the
/// input, or a failure.
#[derive(Debug)]
pub enum ParseResult {
    Decl(Declaration),
    Fail(ParseError),
    EOF,
}

} // verus!
