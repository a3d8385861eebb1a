//! The precedence table: the binding power of each infix-capable token.
use crate::token::{Token, TokenV};
use vstd::prelude::*;

verus! {

pub const LOWEST: i32 = 0;

pub const EQUALS: i32 = 1;

pub const LESS_GREATER: i32 = 2;

pub const SUM: i32 = 3;

pub const PRODUCT: i32 = 4;

pub const PREFIX: i32 = 5;

pub const CALL: i32 = 6;

/// The binding power of a token in infix position; tokens that cannot stand
/// there bind lowest.
pub open spec fn spec_precedence(t: TokenV) -> int {
    match t {
        TokenV::Eq => 1,
        TokenV::NotEq => 1,
        TokenV::LessThan => 2,
        TokenV::GreaterThan => 2,
        TokenV::Plus => 3,
        TokenV::Minus => 3,
        TokenV::Star => 4,
        TokenV::Slash => 4,
        TokenV::LParen => 6,
        _ => 0,
    }
}

/// The binding power of a token, read without consuming it.
pub(crate) fn precedence_of(op: &Token) -> (p: i32)
    ensures
        p as int == spec_precedence(op@),
{
    match op {
        Token::Eq => EQUALS,
        Token::NotEq => EQUALS,
        Token::LessThan => LESS_GREATER,
        Token::GreaterThan => LESS_GREATER,
        Token::Plus => SUM,
        Token::Minus => SUM,
        Token::Star => PRODUCT,
        Token::Slash => PRODUCT,
        Token::LParen => CALL,
        _ => LOWEST,
    }
}

/// The binding power of a token in infix position.
pub fn get_precedence(op: Token) -> (p: i32)
    ensures
        p as int == spec_precedence(op@),
{
    precedence_of(&op)
}

} // verus!
