use crate::token::{Token, TokenV};
use vstd::prelude::*;

verus! {

/// An operator that precedes its single operand.
#[derive(Debug, Clone, Copy, PartialEq, Eq)]
pub enum PrefixOperator {
    Plus,
    Minus,
    Bang,
}

/// An operator that stands between its two operands.
#[derive(Debug, Clone, Copy, PartialEq, Eq)]
pub enum InfixOperator {
    Plus,
    Minus,
    Star,
    Slash,
    Eq,
    NotEq,
    LessThan,
    GreaterThan,
}

/// The prefix operator denoted by a token, if any.
pub open spec fn spec_lookup_prefix(t: TokenV) -> Option<PrefixOperator> {
    match t {
        TokenV::Plus => Some(PrefixOperator::Plus),
        TokenV::Minus => Some(PrefixOperator::Minus),
        TokenV::Bang => Some(PrefixOperator::Bang),
        _ => None,
    }
}

pub fn lookup_prefix(op: Token) -> (r: Option<PrefixOperator>)
    ensures
        r == spec_lookup_prefix(op@),
{
    match op {
        Token::Plus => Some(PrefixOperator::Plus),
        Token::Minus => Some(PrefixOperator::Minus),
        Token::Bang => Some(PrefixOperator::Bang),
        _ => None,
    }
}

/// The infix operator denoted by a token, if any.
pub open spec fn spec_lookup_infix(t: TokenV) -> Option<InfixOperator> {
    match t {
        TokenV::Eq => Some(InfixOperator::Eq),
        TokenV::NotEq => Some(InfixOperator::NotEq),
        TokenV::LessThan => Some(InfixOperator::LessThan),
        TokenV::GreaterThan => Some(InfixOperator::GreaterThan),
        TokenV::Plus => Some(InfixOperator::Plus),
        TokenV::Minus => Some(InfixOperator::Minus),
        TokenV::Star => Some(InfixOperator::Star),
        TokenV::Slash => Some(InfixOperator::Slash),
        _ => None,
    }
}

pub fn lookup_infix(op: Token) -> (r: Option<InfixOperator>)
    ensures
        r == spec_lookup_infix(op@),
{
    match op {
        Token::Eq => Some(InfixOperator::Eq),
        Token::NotEq => Some(InfixOperator::NotEq),
        Token::LessThan => Some(InfixOperator::LessThan),
        Token::GreaterThan => Some(InfixOperator::GreaterThan),
        Token::Plus => Some(InfixOperator::Plus),
        Token::Minus => Some(InfixOperator::Minus),
        Token::Star => Some(InfixOperator::Star),
        Token::Slash => Some(InfixOperator::Slash),
        _ => None,
    }
}

/// The textual symbol of a prefix operator.
pub open spec fn spec_prefix_symbol(op: PrefixOperator) -> Seq<char> {
    match op {
        PrefixOperator::Plus => "+"@,
        PrefixOperator::Minus => "-"@,
        PrefixOperator::Bang => "!"@,
    }
}

pub fn prefix_symbol(op: PrefixOperator) -> (s: &'static str)
    ensures
        s@ == spec_prefix_symbol(op),
{
    match op {
        PrefixOperator::Plus => "+",
        PrefixOperator::Minus => "-",
        PrefixOperator::Bang => "!",
    }
}

/// The textual symbol of an infix operator.
pub open spec fn spec_infix_symbol(op: InfixOperator) -> Seq<char> {
    match op {
        InfixOperator::Plus => "+"@,
        InfixOperator::Minus => "-"@,
        InfixOperator::Star => "*"@,
        InfixOperator::Slash => "/"@,
        InfixOperator::Eq => "=="@,
        InfixOperator::NotEq => "!="@,
        InfixOperator::LessThan => "<"@,
        InfixOperator::GreaterThan => ">"@,
    }
}

pub fn infix_symbol(op: InfixOperator) -> (s: &'static str)
    ensures
        s@ == spec_infix_symbol(op),
{
    match op {
        InfixOperator::Plus => "+",
        InfixOperator::Minus => "-",
        InfixOperator::Star => "*",
        InfixOperator::Slash => "/",
        InfixOperator::Eq => "==",
        InfixOperator::NotEq => "!=",
        InfixOperator::LessThan => "<",
        InfixOperator::GreaterThan => ">",
    }
}

} // verus!
