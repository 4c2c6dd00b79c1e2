//! Lexical units of an arithmetic expression and their precedence levels.

use vstd::prelude::*;

verus! {

/// One lexical unit of an arithmetic expression: a numeric literal, an
/// operator symbol, a parenthesis, or the explicit end-of-input marker.
#[derive(Debug, Clone, Copy, PartialEq, Eq, Structural)]
pub enum Token {
    Add,
    Subtract,
    Multiply,
    Divide,
    Caret,
    LeftParen,
    RightParen,
    Num(u64),
    EOF,
}

/// Operator-precedence classes, a strict total order from the floor
/// (`DefaultZero`) up to unary negation (`Negative`), the tightest.
#[derive(Debug, Clone, Copy, PartialEq, Eq, Structural)]
pub enum OperPrec {
    DefaultZero,
    AddSub,
    MulDiv,
    Power,
    Negative,
}

/// The rank of a precedence class inside the total order.
pub open spec fn spec_level(p: OperPrec) -> int {
    match p {
        OperPrec::DefaultZero => 0,
        OperPrec::AddSub => 1,
        OperPrec::MulDiv => 2,
        OperPrec::Power => 3,
        OperPrec::Negative => 4,
    }
}

/// The precedence class of a token: binary operators map to their class,
/// every other token maps to the floor so the climbing loop stops on it.
pub open spec fn spec_prec_of(t: Token) -> OperPrec {
    match t {
        Token::Add | Token::Subtract => OperPrec::AddSub,
        Token::Multiply | Token::Divide => OperPrec::MulDiv,
        Token::Caret => OperPrec::Power,
        _ => OperPrec::DefaultZero,
    }
}

impl OperPrec {
    /// The rank of this precedence class, as an executable value.
    pub fn level(&self) -> (r: u8)
        ensures
            r as int == spec_level(*self),
    {
        match self {
            OperPrec::DefaultZero => 0,
            OperPrec::AddSub => 1,
            OperPrec::MulDiv => 2,
            OperPrec::Power => 3,
            OperPrec::Negative => 4,
        }
    }
}

impl Token {
    /// The precedence class this token binds with.
    pub fn get_oper_prec(&self) -> (r: OperPrec)
        ensures
            r == spec_prec_of(*self),
    {
        match self {
            Token::Add | Token::Subtract => OperPrec::AddSub,
            Token::Multiply | Token::Divide => OperPrec::MulDiv,
            Token::Caret => OperPrec::Power,
            _ => OperPrec::DefaultZero,
        }
    }
}

} // verus!
