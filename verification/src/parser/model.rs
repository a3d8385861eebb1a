//! The mathematical model of the parser: what each parsing step yields on
//! a token stream, as pure functions over stream positions.
use crate::ast::operators::{spec_lookup_infix, InfixOperator, PrefixOperator};
use crate::ast::{ExprV, StmtV};
use crate::lexer::{is_digit_ch, stream_from};
use crate::parser::precedence::spec_precedence;
use crate::token::{kind_id, TokenV};
use vstd::prelude::*;

verus! {

/// The token at position `i` of the stream; past the end the stream keeps
/// yielding the end-of-input token.
pub open spec fn tok_at(toks: Seq<TokenV>, i: int) -> TokenV {
    if 0 <= i < toks.len() {
        toks[i]
    } else {
        TokenV::EOF
    }
}

/// The position after pulling one token at `j`: the cursor stands still once
/// it rests on the end-of-input token.
pub open spec fn adv_at(toks: Seq<TokenV>, j: int) -> int {
    if tok_at(toks, j) is EOF {
        j
    } else {
        j + 1
    }
}

/// `i`, raised to `lo` if it lies below it.
pub open spec fn at_least(i: int, lo: int) -> int {
    if i < lo {
        lo
    } else {
        i
    }
}

/// How many stream positions lie at or after `i`: the termination measure of
/// the parsing functions.
pub open spec fn rem(toks: Seq<TokenV>, i: int) -> int {
    if i <= toks.len() {
        toks.len() - i
    } else {
        0
    }
}

/// Checking the token after `i` for an expected kind: on a match the cursor
/// moves onto it, otherwise it stays.
pub open spec fn spec_expect(toks: Seq<TokenV>, i: int, kid: int) -> (bool, int) {
    if kind_id(tok_at(toks, i + 1)) == kid {
        (true, i + 1)
    } else {
        (false, i)
    }
}

/// The numeric value of an ASCII digit.
pub open spec fn digit_of(c: char) -> int {
    c as u32 - '0' as u32
}

/// Every character of the sequence is an ASCII digit.
pub open spec fn is_digit_seq(s: Seq<char>) -> bool {
    forall|k: int| 0 <= k < s.len() ==> is_digit_ch(#[trigger] s[k])
}

/// The number denoted by a sequence of decimal digits.
pub open spec fn digits_val(s: Seq<char>) -> int
    decreases s.len(),
{
    if s.len() == 0 {
        0
    } else {
        digits_val(s.drop_last()) * 10 + digit_of(s.last())
    }
}

/// The prefix production for the token at `i`, and the position of the last
/// token of the production.
pub open spec fn spec_parse_prefix(toks: Seq<TokenV>, i: int) -> (Option<ExprV>, int)
    decreases rem(toks, i), 1int,
{
    match tok_at(toks, i) {
        TokenV::Ident(name) => (Some(ExprV::Ident(name)), i),
        TokenV::Int(digits) => {
            if digits.len() > 0 && is_digit_seq(digits) && digits_val(digits) <= i64::MAX as int {
                (Some(ExprV::Int(digits_val(digits) as i64)), i)
            } else {
                (None, i)
            }
        },
        TokenV::True => (Some(ExprV::Bool(true)), i),
        TokenV::False => (Some(ExprV::Bool(false)), i),
        TokenV::Minus => spec_parse_prefix_op(toks, i, PrefixOperator::Minus),
        TokenV::Plus => spec_parse_prefix_op(toks, i, PrefixOperator::Plus),
        TokenV::Bang => spec_parse_prefix_op(toks, i, PrefixOperator::Bang),
        TokenV::LParen => {
            let (e, i2) = spec_parse_expression(toks, i + 1, 0);
            match e {
                None => (None, i2),
                Some(v) => {
                    let (ok, i3) = spec_expect(toks, i2, kind_id(TokenV::RParen));
                    if ok {
                        (Some(v), i3)
                    } else {
                        (None, i3)
                    }
                },
            }
        },
        TokenV::Func => {
            let (ok1, i1) = spec_expect(toks, i, kind_id(TokenV::LParen));
            if !ok1 {
                (None, i1)
            } else {
                if tok_at(toks, i1 + 1) is RParen {
                    let (body, i3) = spec_parse_statement(toks, at_least(i1 + 2, i + 1));
                    match body {
                        Some(StmtV::Block(items)) => (
                            Some(
                                ExprV::Function(
                                    Seq::empty(),
                                    Box::new(StmtV::Block(items)),
                                ),
                            ),
                            i3,
                        ),
                        _ => (None, i3),
                    }
                } else {
                    match tok_at(toks, i1 + 1) {
                        TokenV::Ident(n0) => {
                            let (ps, i3) = spec_fn_params(toks, i1 + 1, seq![n0]);
                            let (ok2, i4) = spec_expect(toks, i3, kind_id(TokenV::RParen));
                            if !ok2 {
                                (None, i4)
                            } else {
                                let (body, i6) = spec_parse_statement(toks, at_least(i4 + 1, i + 1));
                                match body {
                                    Some(StmtV::Block(items)) => (
                                        Some(
                                            ExprV::Function(ps, Box::new(StmtV::Block(items))),
                                        ),
                                        i6,
                                    ),
                                    _ => (None, i6),
                                }
                            }
                        },
                        _ => (None, i1 + 1),
                    }
                }
            }
        },
        _ => (None, i),
    }
}

/// A prefix operator application: the operand is parsed just past the
/// operator token, at prefix binding power.
pub open spec fn spec_parse_prefix_op(toks: Seq<TokenV>, i: int, op: PrefixOperator) -> (
    Option<ExprV>,
    int,
)
    decreases rem(toks, i), 0int,
{
    if tok_at(toks, i) is EOF {
        (None, i)
    } else {
        let (e, i2) = spec_parse_expression(toks, i + 1, 5);
        match e {
            Some(v) => (Some(ExprV::Prefix(op, Box::new(v))), i2),
            None => (None, i2),
        }
    }
}

/// The comma-separated identifiers that continue a parameter list begun at
/// `j`; a non-identifier after a comma is passed over.
pub open spec fn spec_fn_params(toks: Seq<TokenV>, j: int, acc: Seq<Seq<char>>) -> (
    Seq<Seq<char>>,
    int,
)
    decreases rem(toks, j), 0int,
{
    if tok_at(toks, j + 1) is Comma {
        let acc2 = match tok_at(toks, j + 2) {
            TokenV::Ident(n) => acc.push(n),
            _ => acc,
        };
        spec_fn_params(toks, j + 2, acc2)
    } else {
        (acc, j)
    }
}

/// The infix production with the operator token at `j` and `left` already
/// parsed.
pub open spec fn spec_parse_infix(toks: Seq<TokenV>, j: int, left: ExprV) -> (Option<ExprV>, int)
    decreases rem(toks, j), 0int,
{
    match spec_lookup_infix(tok_at(toks, j)) {
        Some(op) => {
            let p = spec_precedence(tok_at(toks, j));
            let (r, j2) = spec_parse_expression(toks, j + 1, p);
            match r {
                Some(rv) => (Some(ExprV::Infix(Box::new(left), op, Box::new(rv))), j2),
                None => (None, j2),
            }
        },
        None => {
            if tok_at(toks, j) is LParen {
                if tok_at(toks, j + 1) is RParen {
                    (Some(ExprV::Call(Box::new(left), Seq::empty())), j + 1)
                } else {
                    let (a0, j2) = spec_parse_expression(toks, j + 1, 0);
                    match a0 {
                        None => (None, j2),
                        Some(a0v) => {
                            let (rest, j3) = spec_call_args(toks, at_least(j2, j + 1));
                            match rest {
                                None => (None, j3),
                                Some(vs) => {
                                    let (ok, j4) = spec_expect(toks, j3, kind_id(TokenV::RParen));
                                    if ok {
                                        (
                                            Some(
                                                ExprV::Call(Box::new(left), seq![a0v] + vs),
                                            ),
                                            j4,
                                        )
                                    } else {
                                        (None, j4)
                                    }
                                },
                            }
                        },
                    }
                }
            } else {
                (None, j)
            }
        },
    }
}

/// The comma-led call arguments that continue an argument list begun at `j`.
pub open spec fn spec_call_args(toks: Seq<TokenV>, j: int) -> (Option<Seq<ExprV>>, int)
    decreases rem(toks, j), 0int,
{
    if tok_at(toks, j + 1) is Comma {
        let (e, j2) = spec_parse_expression(toks, j + 2, 0);
        match e {
            None => (None, j2),
            Some(v) => {
                let (rest, j3) = spec_call_args(toks, at_least(j2, j + 2));
                match rest {
                    None => (None, j3),
                    Some(vs) => (Some(seq![v] + vs), j3),
                }
            },
        }
    } else {
        (Some(Seq::empty()), j)
    }
}

/// The binding-power climbing loop: extends `left` with infix productions
/// while the next token binds tighter than `minbp`.
pub open spec fn spec_climb(toks: Seq<TokenV>, i: int, left: Option<ExprV>, minbp: int) -> (
    Option<ExprV>,
    int,
)
    decreases rem(toks, i), 0int,
{
    if !(tok_at(toks, i + 1) is Semicolon) && minbp < spec_precedence(tok_at(toks, i + 1)) {
        match left {
            None => (None, i),
            Some(lv) => {
                if spec_lookup_infix(tok_at(toks, i + 1)) is Some || tok_at(toks, i + 1)
                    is LParen {
                    let (r, i2) = spec_parse_infix(toks, i + 1, lv);
                    match r {
                        None => (Some(lv), i2),
                        Some(nl) => spec_climb(toks, at_least(i2, i + 1), Some(nl), minbp),
                    }
                } else {
                    (Some(lv), adv_at(toks, i))
                }
            },
        }
    } else {
        (left, i)
    }
}

/// An expression at minimum binding power `minbp`, starting at `i`: a prefix
/// production extended by climbing.
pub open spec fn spec_parse_expression(toks: Seq<TokenV>, i: int, minbp: int) -> (
    Option<ExprV>,
    int,
)
    decreases rem(toks, i), 2int,
{
    let (left, i1) = spec_parse_prefix(toks, i);
    spec_climb(toks, at_least(i1, i), left, minbp)
}

/// One statement starting at `i`, and the position of its last token; `None`
/// when the statement is malformed, with the position where parsing stopped.
pub open spec fn spec_parse_statement(toks: Seq<TokenV>, i: int) -> (Option<StmtV>, int)
    decreases rem(toks, i), 3int,
{
    match tok_at(toks, i) {
        TokenV::EOF => (None, i),
        TokenV::Let => {
            let (ok1, i1) = spec_expect(toks, i, kind_id(TokenV::Ident(Seq::empty())));
            if !ok1 {
                (None, i1)
            } else {
                match tok_at(toks, i1) {
                    TokenV::Ident(name) => {
                        let (ok2, i2) = spec_expect(toks, i1, kind_id(TokenV::Assign));
                        if !ok2 {
                            (None, i2)
                        } else {
                            let (e, i4) = spec_parse_expression(toks, i2 + 1, 0);
                            match e {
                                None => (None, i4),
                                Some(v) => {
                                    let (ok3, i5) = spec_expect(
                                        toks,
                                        i4,
                                        kind_id(TokenV::Semicolon),
                                    );
                                    if ok3 || v is Function {
                                        (Some(StmtV::Let(name, v)), i5)
                                    } else {
                                        (None, i5)
                                    }
                                },
                            }
                        }
                    },
                    _ => (None, i1),
                }
            }
        },
        TokenV::Return => {
            let (e, i2) = spec_parse_expression(toks, i + 1, 0);
            match e {
                None => (None, i2),
                Some(v) => {
                    let (ok, i3) = spec_expect(toks, i2, kind_id(TokenV::Semicolon));
                    if ok {
                        (Some(StmtV::Return(v)), i3)
                    } else {
                        (None, i3)
                    }
                },
            }
        },
        TokenV::LBrace => {
            let (items, i2) = spec_block_items(toks, i + 1);
            (Some(StmtV::Block(items)), i2)
        },
        TokenV::If => {
            let (ok1, i1) = spec_expect(toks, i, kind_id(TokenV::LParen));
            if !ok1 {
                (None, i1)
            } else {
                let (c, i3) = spec_parse_expression(toks, i1 + 1, 0);
                match c {
                    None => (None, i3),
                    Some(cv) => {
                        let (ok2, i4) = spec_expect(toks, i3, kind_id(TokenV::RParen));
                        if !ok2 {
                            (None, i4)
                        } else {
                            let (ok3, i5) = spec_expect(toks, i4, kind_id(TokenV::LBrace));
                            if !ok3 {
                                (None, i5)
                            } else {
                                let (th, i6) = spec_parse_statement(toks, at_least(i5, i + 1));
                                match th {
                                    None => (None, i6),
                                    Some(tv) => {
                                        if !(tok_at(toks, i6 + 1) is Else) {
                                            (Some(StmtV::If(cv, Box::new(tv), None)), i6)
                                        } else {
                                            let (ok4, i8) = spec_expect(
                                                toks,
                                                i6 + 1,
                                                kind_id(TokenV::LBrace),
                                            );
                                            if !ok4 {
                                                (None, i8)
                                            } else {
                                                let (el, i9) = spec_parse_statement(
                                                    toks,
                                                    at_least(i8, i + 1),
                                                );
                                                match el {
                                                    None => (None, i9),
                                                    Some(ev) => (
                                                        Some(
                                                            StmtV::If(
                                                                cv,
                                                                Box::new(tv),
                                                                Some(Box::new(ev)),
                                                            ),
                                                        ),
                                                        i9,
                                                    ),
                                                }
                                            }
                                        }
                                    },
                                }
                            }
                        }
                    },
                }
            }
        },
        _ => {
            let (e, i1) = spec_parse_expression(toks, i, 0);
            match e {
                None => (None, i1),
                Some(v) => {
                    let (ok, i2) = spec_expect(toks, i1, kind_id(TokenV::Semicolon));
                    if ok {
                        (Some(StmtV::Expression(v)), i2)
                    } else {
                        (None, i2)
                    }
                },
            }
        },
    }
}

/// The statements of a block, read until a closing brace or the end of the
/// input; malformed statements are passed over.
pub open spec fn spec_block_items(toks: Seq<TokenV>, i: int) -> (Seq<StmtV>, int)
    decreases rem(toks, i), 4int,
{
    if tok_at(toks, i) is RBrace || tok_at(toks, i) is EOF {
        (Seq::empty(), i)
    } else {
        let (st, i1) = spec_parse_statement(toks, i);
        let i2 = at_least(adv_at(toks, i1), i + 1);
        let (rest, i3) = spec_block_items(toks, i2);
        (
            match st {
                Some(s) => seq![s] + rest,
                None => rest,
            },
            i3,
        )
    }
}

/// The statements of a whole program, read until the end of the input;
/// malformed statements are passed over.
pub open spec fn spec_program_items(toks: Seq<TokenV>, i: int) -> (Seq<StmtV>, int)
    decreases rem(toks, i), 5int,
{
    if tok_at(toks, i) is EOF {
        (Seq::empty(), i)
    } else {
        let (st, i1) = spec_parse_statement(toks, i);
        let i2 = at_least(adv_at(toks, i1), i + 1);
        let (rest, i3) = spec_program_items(toks, i2);
        (
            match st {
                Some(s) => seq![s] + rest,
                None => rest,
            },
            i3,
        )
    }
}

/// What parsing a source text yields: the statements of its best-effort
/// parse, in source order.
pub open spec fn spec_parse_program(src: Seq<char>) -> Seq<StmtV> {
    spec_program_items(stream_from(src, 0), 0).0
}

} // verus!
