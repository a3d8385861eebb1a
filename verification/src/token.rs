//! The tokens of the language, and how words map to keywords.
use vstd::prelude::*;
use vstd::std_specs::iter::IteratorSpec;

verus! {

/// One lexical unit of the source text. `Ident` and `Int` carry the raw
/// characters they were read from; `Illegal` carries an unrecognized character.
#[derive(Debug, Clone, PartialEq, Eq)]
pub enum Token {
    Illegal(Vec<char>),
    EOF,
    Ident(Vec<char>),
    Int(Vec<char>),
    Assign,
    Plus,
    Minus,
    Star,
    Slash,
    Bang,
    LessThan,
    GreaterThan,
    Eq,
    NotEq,
    Comma,
    Semicolon,
    LParen,
    RParen,
    LBrace,
    RBrace,
    Func,
    Let,
    True,
    False,
    If,
    Else,
    Return,
}

/// The mathematical value of a `Token`: the same variants, with character
/// payloads abstracted to sequences.
pub enum TokenV {
    Illegal(Seq<char>),
    EOF,
    Ident(Seq<char>),
    Int(Seq<char>),
    Assign,
    Plus,
    Minus,
    Star,
    Slash,
    Bang,
    LessThan,
    GreaterThan,
    Eq,
    NotEq,
    Comma,
    Semicolon,
    LParen,
    RParen,
    LBrace,
    RBrace,
    Func,
    Let,
    True,
    False,
    If,
    Else,
    Return,
}

impl View for Token {
    type V = TokenV;

    open spec fn view(&self) -> TokenV {
        match self {
            Token::Illegal(v) => TokenV::Illegal(v@),
            Token::EOF => TokenV::EOF,
            Token::Ident(v) => TokenV::Ident(v@),
            Token::Int(v) => TokenV::Int(v@),
            Token::Assign => TokenV::Assign,
            Token::Plus => TokenV::Plus,
            Token::Minus => TokenV::Minus,
            Token::Star => TokenV::Star,
            Token::Slash => TokenV::Slash,
            Token::Bang => TokenV::Bang,
            Token::LessThan => TokenV::LessThan,
            Token::GreaterThan => TokenV::GreaterThan,
            Token::Eq => TokenV::Eq,
            Token::NotEq => TokenV::NotEq,
            Token::Comma => TokenV::Comma,
            Token::Semicolon => TokenV::Semicolon,
            Token::LParen => TokenV::LParen,
            Token::RParen => TokenV::RParen,
            Token::LBrace => TokenV::LBrace,
            Token::RBrace => TokenV::RBrace,
            Token::Func => TokenV::Func,
            Token::Let => TokenV::Let,
            Token::True => TokenV::True,
            Token::False => TokenV::False,
            Token::If => TokenV::If,
            Token::Else => TokenV::Else,
            Token::Return => TokenV::Return,
        }
    }
}

impl DeepView for Token {
    type V = TokenV;

    open spec fn deep_view(&self) -> TokenV {
        self.view()
    }
}

/// A number distinguishing the kind (variant) of a token, ignoring payloads.
pub open spec fn kind_id(t: TokenV) -> int {
    match t {
        TokenV::Illegal(_) => 0,
        TokenV::EOF => 1,
        TokenV::Ident(_) => 2,
        TokenV::Int(_) => 3,
        TokenV::Assign => 4,
        TokenV::Plus => 5,
        TokenV::Minus => 6,
        TokenV::Star => 7,
        TokenV::Slash => 8,
        TokenV::Bang => 9,
        TokenV::LessThan => 10,
        TokenV::GreaterThan => 11,
        TokenV::Eq => 12,
        TokenV::NotEq => 13,
        TokenV::Comma => 14,
        TokenV::Semicolon => 15,
        TokenV::LParen => 16,
        TokenV::RParen => 17,
        TokenV::LBrace => 18,
        TokenV::RBrace => 19,
        TokenV::Func => 20,
        TokenV::Let => 21,
        TokenV::True => 22,
        TokenV::False => 23,
        TokenV::If => 24,
        TokenV::Else => 25,
        TokenV::Return => 26,
    }
}

/// Two tokens are of the same kind when they are the same variant, whatever
/// their payloads.
pub open spec fn kinds_match(a: TokenV, b: TokenV) -> bool {
    kind_id(a) == kind_id(b)
}

impl Token {
    /// The kind (variant) of this token as a number, for kind comparisons.
    pub fn kind(&self) -> (k: u32)
        ensures
            k as int == kind_id(self@),
    {
        match self {
            Token::Illegal(_) => 0,
            Token::EOF => 1,
            Token::Ident(_) => 2,
            Token::Int(_) => 3,
            Token::Assign => 4,
            Token::Plus => 5,
            Token::Minus => 6,
            Token::Star => 7,
            Token::Slash => 8,
            Token::Bang => 9,
            Token::LessThan => 10,
            Token::GreaterThan => 11,
            Token::Eq => 12,
            Token::NotEq => 13,
            Token::Comma => 14,
            Token::Semicolon => 15,
            Token::LParen => 16,
            Token::RParen => 17,
            Token::LBrace => 18,
            Token::RBrace => 19,
            Token::Func => 20,
            Token::Let => 21,
            Token::True => 22,
            Token::False => 23,
            Token::If => 24,
            Token::Else => 25,
            Token::Return => 26,
        }
    }
}

/// The keyword token for a reserved word, or an identifier token carrying the
/// raw text for any other word.
pub open spec fn spec_lookup_ident(s: Seq<char>) -> TokenV {
    if s == "func"@ {
        TokenV::Func
    } else if s == "let"@ {
        TokenV::Let
    } else if s == "true"@ {
        TokenV::True
    } else if s == "false"@ {
        TokenV::False
    } else if s == "if"@ {
        TokenV::If
    } else if s == "else"@ {
        TokenV::Else
    } else if s == "return"@ {
        TokenV::Return
    } else {
        TokenV::Ident(s)
    }
}

/// Relies on `<str as PartialEq>::eq` of std: two string slices are equal
/// exactly when they consist of the same characters.
pub assume_specification[ <str as PartialEq<str>>::eq ](s: &str, other: &str) -> (r: bool)
    ensures
        r == (s@ == other@),
;

/// Builds the character sequence of a string slice.
pub fn chars_of_str(s: &str) -> (r: Vec<char>)
    ensures
        r@ == s@,
{
    broadcast use vstd::string::group_string_axioms;

    let mut it = s.chars();
    let mut r: Vec<char> = Vec::new();
    loop
        invariant
            it.obeys_prophetic_iter_laws(),
            it.decrease() is Some,
            r@ + it.remaining() == s@,
        ensures
            r@ == s@,
        decreases it.decrease()->0,
    {
        match it.next() {
            Some(c) => {
                r.push(c);
            },
            None => {
                proof {
                    assert(r@ =~= s@);
                }
                break ;
            },
        }
    }
    r
}

/// Relies on `String::from_iter` of std (via `Iterator::collect` on a
/// character iterator): the result consists of exactly the given characters.
#[verifier::external_body]
pub(crate) fn chars_to_string(v: &Vec<char>) -> (s: String)
    ensures
        s@ == v@,
{
    v.iter().collect()
}

/// Maps a word to its keyword token, or to an identifier token otherwise.
pub fn lookup_ident(ident: &str) -> (t: Token)
    ensures
        t@ == spec_lookup_ident(ident@),
{
    if ident.eq("func") {
        Token::Func
    } else if ident.eq("let") {
        Token::Let
    } else if ident.eq("true") {
        Token::True
    } else if ident.eq("false") {
        Token::False
    } else if ident.eq("if") {
        Token::If
    } else if ident.eq("else") {
        Token::Else
    } else if ident.eq("return") {
        Token::Return
    } else {
        Token::Ident(chars_of_str(ident))
    }
}

} // verus!
