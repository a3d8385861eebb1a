//! The parser: operator-precedence (binding-power climbing) expression
//! parsing and statement-level recursive descent with error recovery, each
//! function proved to return exactly what the model in `model` describes.
use crate::ast::ident::Ident;
use crate::ast::if_else::IfExpression;
use crate::ast::let_stat::Let;
use crate::ast::operators::{spec_lookup_infix, InfixOperator, PrefixOperator};
use crate::ast::return_stat::Return;
use crate::ast::{expr_view, exprs_view, idents_view, lemma_exprs_view_push,
    lemma_idents_view_push, lemma_stmts_view_push, stmt_view, stmts_view, Expr, ExprV, Program,
    Statement, StmtV};
use crate::lexer::{spec_token_at, stream_from, Lexer};
use crate::parser::precedence::{precedence_of, spec_precedence};
use crate::token::{kind_id, kinds_match, Token, TokenV};
use crate::parser::model::{adv_at, at_least, digit_of, digits_val, is_digit_seq, rem, spec_expect,
    spec_block_items, spec_call_args, spec_climb, spec_fn_params, spec_parse_expression,
    spec_parse_infix, spec_parse_prefix, spec_parse_prefix_op, spec_parse_program,
    spec_parse_statement, spec_program_items, tok_at};
use vstd::prelude::*;

pub mod model;
pub mod precedence;

verus! {

/// The value of an optional expression node.
pub open spec fn omap_expr(r: Option<Expr>) -> Option<ExprV> {
    match r {
        Some(e) => Some(expr_view(e)),
        None => None,
    }
}

/// The value of an optional statement node.
pub open spec fn omap_stmt(r: Option<Statement>) -> Option<StmtV> {
    match r {
        Some(s) => Some(stmt_view(s)),
        None => None,
    }
}

/// A copy of a character vector.
fn clone_chars(v: &Vec<char>) -> (r: Vec<char>)
    ensures
        r@ == v@,
{
    let mut r: Vec<char> = Vec::new();
    let mut k: usize = 0;
    while k < v.len()
        invariant
            k <= v@.len(),
            r@ == v@.subrange(0, k as int),
        decreases v@.len() - k,
    {
        r.push(v[k]);
        k = k + 1;
        proof {
            assert(r@ =~= v@.subrange(0, k as int));
        }
    }
    proof {
        assert(r@ =~= v@);
    }
    r
}

/// A copy of an expression tree, equal in value to the original.
#[verifier::loop_isolation(false)]
fn clone_expr(e: &Expr) -> (r: Expr)
    ensures
        expr_view(r) == expr_view(*e),
    decreases *e,
{
    match e {
        Expr::Ident(id) => Expr::Ident(Ident { name: id.name.clone() }),
        Expr::Int(n) => Expr::Int(*n),
        Expr::Bool(b) => Expr::Bool(*b),
        Expr::Illegal(s) => Expr::Illegal(s.clone()),
        Expr::Prefix(op, inner) => Expr::Prefix(*op, Box::new(clone_expr(&**inner))),
        Expr::Infix(l, op, r2) => Expr::Infix(
            Box::new(clone_expr(&**l)),
            *op,
            Box::new(clone_expr(&**r2)),
        ),
        Expr::Function(params, body) => {
            let mut ps: Vec<Ident> = Vec::new();
            let mut k: usize = 0;
            while k < params.len()
                invariant
                    k <= params@.len(),
                    idents_view(ps@) == idents_view(params@.subrange(0, k as int)),
                decreases params@.len() - k,
            {
                let ghost ps0 = ps@;
                ps.push(Ident { name: params[k].name.clone() });
                k = k + 1;
                proof {
                    let kk = k as int;
                    lemma_idents_view_push(ps0, ps@.last());
                    assert(ps@ =~= ps0.push(ps@.last()));
                    lemma_idents_view_push(params@.subrange(0, kk - 1), params@[kk - 1]);
                    assert(params@.subrange(0, kk) =~= params@.subrange(0, kk - 1).push(
                        params@[kk - 1],
                    ));
                    assert(idents_view(ps@) == idents_view(params@.subrange(0, kk)));
                }
            }
            proof {
                assert(params@.subrange(0, params@.len() as int) =~= params@);
                assert(idents_view(ps@) =~= idents_view(params@));
            }
            Expr::Function(ps, Box::new(clone_stmt(&**body)))
        },
        Expr::Call(f, args) => {
            let mut out: Vec<Expr> = Vec::new();
            let mut k: usize = 0;
            while k < args.len()
                invariant
                    k <= args@.len(),
                    exprs_view(out@) == exprs_view(args@.subrange(0, k as int)),
                decreases args@.len() - k,
            {
                proof {
                    assert(*e is Call);
                    assert(e->Call_1 == *args);
                    assert(decreases_to!(*e => e->Call_1));
                    assert(decreases_to!(*args => args@));
                    assert(decreases_to!(args@ => args@[k as int]));
                }
                let c = clone_expr(&args[k]);
                let ghost out0 = out@;
                out.push(c);
                k = k + 1;
                proof {
                    let kk = k as int;
                    lemma_exprs_view_push(out0, out@.last());
                    assert(out@ =~= out0.push(out@.last()));
                    lemma_exprs_view_push(args@.subrange(0, kk - 1), args@[kk - 1]);
                    assert(args@.subrange(0, kk) =~= args@.subrange(0, kk - 1).push(
                        args@[kk - 1],
                    ));
                    assert(exprs_view(out@) == exprs_view(args@.subrange(0, kk)));
                }
            }
            proof {
                assert(args@.subrange(0, args@.len() as int) =~= args@);
            }
            Expr::Call(Box::new(clone_expr(&**f)), out)
        },
    }
}

/// A copy of a statement tree, equal in value to the original.
#[verifier::loop_isolation(false)]
fn clone_stmt(s: &Statement) -> (r: Statement)
    ensures
        stmt_view(r) == stmt_view(*s),
    decreases *s,
{
    match s {
        Statement::Let(l) => Statement::Let(
            Let { ident: Ident { name: l.ident.name.clone() }, expr: clone_expr(&l.expr) },
        ),
        Statement::Return(r2) => Statement::Return(
            Return { return_expr: clone_expr(&r2.return_expr) },
        ),
        Statement::Expression(e) => Statement::Expression(clone_expr(e)),
        Statement::Illegal(t) => Statement::Illegal(t.clone()),
        Statement::BlockStatement(ss) => {
            let mut out: Vec<Statement> = Vec::new();
            let mut k: usize = 0;
            while k < ss.len()
                invariant
                    k <= ss@.len(),
                    stmts_view(out@) == stmts_view(ss@.subrange(0, k as int)),
                decreases ss@.len() - k,
            {
                proof {
                    assert(*s is BlockStatement);
                    assert(s->BlockStatement_0 == *ss);
                    assert(decreases_to!(*s => s->BlockStatement_0));
                    assert(decreases_to!(*ss => ss@));
                    assert(decreases_to!(ss@ => ss@[k as int]));
                }
                let c = clone_stmt(&ss[k]);
                let ghost out0 = out@;
                out.push(c);
                k = k + 1;
                proof {
                    let kk = k as int;
                    lemma_stmts_view_push(out0, out@.last());
                    assert(out@ =~= out0.push(out@.last()));
                    lemma_stmts_view_push(ss@.subrange(0, kk - 1), ss@[kk - 1]);
                    assert(ss@.subrange(0, kk) =~= ss@.subrange(0, kk - 1).push(ss@[kk - 1]));
                    assert(stmts_view(out@) == stmts_view(ss@.subrange(0, kk)));
                }
            }
            proof {
                assert(ss@.subrange(0, ss@.len() as int) =~= ss@);
            }
            Statement::BlockStatement(out)
        },
        Statement::IfExpression(c) => Statement::IfExpression(
            IfExpression {
                condition: clone_expr(&c.condition),
                then_branch: Box::new(clone_stmt(&*c.then_branch)),
                else_: match &c.else_ {
                    Some(e) => Some(Box::new(clone_stmt(&**e))),
                    None => None,
                },
            },
        ),
    }
}

proof fn lemma_digits_val_nonneg(s: Seq<char>)
    requires
        is_digit_seq(s),
    ensures
        digits_val(s) >= 0,
    decreases s.len(),
{
    if s.len() > 0 {
        assert(is_digit_seq(s.drop_last()));
        lemma_digits_val_nonneg(s.drop_last());
    }
}

proof fn lemma_digits_val_prefix(s: Seq<char>, k: int)
    requires
        is_digit_seq(s),
        0 <= k <= s.len(),
    ensures
        digits_val(s.subrange(0, k)) <= digits_val(s),
    decreases s.len(),
{
    if k == s.len() {
        assert(s.subrange(0, k) =~= s);
    } else {
        assert(is_digit_seq(s.drop_last()));
        assert(s.subrange(0, k) =~= s.drop_last().subrange(0, k));
        lemma_digits_val_prefix(s.drop_last(), k);
        lemma_digits_val_nonneg(s.drop_last());
        assert(digits_val(s) >= digits_val(s.drop_last())) by (nonlinear_arith)
            requires
                digits_val(s) == digits_val(s.drop_last()) * 10 + digit_of(s.last()),
                digits_val(s.drop_last()) >= 0,
                digit_of(s.last()) >= 0,
        ;
    }
}

/// The numeric value of a run of digit characters, or `None` when the text is
/// not all digits, is empty, or denotes a number too large for `i64`.
fn parse_int_digits(digits: &Vec<char>) -> (r: Option<i64>)
    ensures
        (r is Some) == (digits@.len() > 0 && is_digit_seq(digits@) && digits_val(digits@)
            <= i64::MAX as int),
        r matches Some(v) ==> v as int == digits_val(digits@),
{
    if digits.len() == 0 {
        return None;
    }
    let mut k: usize = 0;
    while k < digits.len()
        invariant
            k <= digits@.len(),
            is_digit_seq(digits@.subrange(0, k as int)),
        decreases digits@.len() - k,
    {
        if !crate::lexer::is_digit(digits[k]) {
            proof {
                assert(!is_digit_seq(digits@));
            }
            return None;
        }
        k = k + 1;
        proof {
            assert(digits@.subrange(0, k as int).drop_last() =~= digits@.subrange(
                0,
                k as int - 1,
            ));
            assert(is_digit_seq(digits@.subrange(0, k as int)));
        }
    }
    proof {
        assert(digits@.subrange(0, digits@.len() as int) =~= digits@);
    }
    let mut acc: i64 = 0;
    let mut j: usize = 0;
    while j < digits.len()
        invariant
            j <= digits@.len(),
            is_digit_seq(digits@),
            0 <= acc,
            acc as int == digits_val(digits@.subrange(0, j as int)),
        decreases digits@.len() - j,
    {
        let c = digits[j];
        let d: i64 = (c as u32 - '0' as u32) as i64;
        proof {
            assert(d as int == digit_of(digits@[j as int]));
            assert(0 <= d <= 9);
        }
        if acc > (i64::MAX - d) / 10 {
            proof {
                assert(acc as int * 10 + d as int > i64::MAX as int) by (nonlinear_arith)
                    requires
                        acc as int > (i64::MAX as int - d as int) / 10,
                        0 <= d <= 9,
                ;
                assert(digits@.subrange(0, j as int + 1).drop_last() =~= digits@.subrange(
                    0,
                    j as int,
                ));
                assert(digits_val(digits@.subrange(0, j as int + 1)) > i64::MAX as int);
                lemma_digits_val_prefix(digits@, j as int + 1);
            }
            return None;
        }
        proof {
            assert(acc as int * 10 + d as int <= i64::MAX as int) by (nonlinear_arith)
                requires
                    acc as int <= (i64::MAX as int - d as int) / 10,
                    0 <= acc,
                    0 <= d <= 9,
            ;
        }
        acc = acc * 10 + d;
        j = j + 1;
        proof {
            assert(digits@.subrange(0, j as int).drop_last() =~= digits@.subrange(
                0,
                j as int - 1,
            ));
            assert(digits@.subrange(0, j as int).last() == digits@[j as int - 1]);
        }
    }
    proof {
        assert(digits@.subrange(0, digits@.len() as int) =~= digits@);
    }
    Some(acc)
}

/// A recursive-descent parser over the token stream of one source text, with
/// a two-token lookahead window.
pub struct Parser {
    lexer: Lexer,
    current_token: Token,
    peek_token: Token,
    toks_g: Ghost<Seq<TokenV>>,
    pos_g: Ghost<int>,
}

impl Parser {
    /// The source text being parsed.
    pub closed spec fn src(&self) -> Seq<char> {
        self.lexer@.input
    }

    /// The token stream this parser reads, ending in the end-of-input token.
    pub closed spec fn toks(&self) -> Seq<TokenV> {
        self.toks_g@
    }

    /// The position in the token stream of the current token.
    pub closed spec fn at(&self) -> int {
        self.pos_g@
    }

    /// The current token.
    pub closed spec fn cur(&self) -> TokenV {
        self.current_token@
    }

    /// The peek token: the one just after the current token.
    pub closed spec fn pk(&self) -> TokenV {
        self.peek_token@
    }

    /// The parser state is consistent: the stream ends in the end-of-input
    /// token and holds it nowhere else, the lookahead window holds the tokens
    /// at the stream position, and the lexer stands just past the window.
    pub closed spec fn wf(&self) -> bool {
        &&& self.lexer.wf()
        &&& self.toks_g@.len() >= 1
        &&& self.toks_g@.last() is EOF
        &&& (forall|k: int|
            0 <= k < self.toks_g@.len() - 1 ==> !(#[trigger] self.toks_g@[k] is EOF))
        &&& 0 <= self.pos_g@ < self.toks_g@.len()
        &&& self.current_token@ == self.toks_g@[self.pos_g@]
        &&& self.peek_token@ == tok_at(self.toks_g@, self.pos_g@ + 1)
        &&& stream_from(self.lexer@.input, self.lexer@.pos) == self.toks_g@.skip(
            if self.pos_g@ + 2 < self.toks_g@.len() {
                self.pos_g@ + 2
            } else {
                self.toks_g@.len() - 1
            },
        )
    }
}

/// What a consistent parser state implies about the lookahead window.
proof fn lemma_wf_facts(p: Parser)
    requires
        p.wf(),
    ensures
        p.cur() == tok_at(p.toks(), p.at()),
        p.pk() == tok_at(p.toks(), p.at() + 1),
        p.cur() is EOF ==> p.at() == p.toks().len() - 1 && p.pk() is EOF,
        !(p.cur() is EOF) ==> p.at() + 1 < p.toks().len(),
        adv_at(p.toks(), p.at()) <= p.toks().len() - 1,
{
    if p.cur() is EOF {
        assert(p.at() == p.toks().len() - 1);
    }
}

/// One lexer pull from a consistent suffix yields the next stream token and
/// leaves the lexer on the following suffix.
proof fn lemma_stream_step(input: Seq<char>, pos: int, toks: Seq<TokenV>, j: int)
    requires
        0 <= pos <= input.len(),
        0 <= j < toks.len(),
        toks.last() is EOF,
        stream_from(input, pos) == toks.skip(j),
    ensures
        spec_token_at(input, pos).0 == toks[j],
        0 <= spec_token_at(input, pos).1 <= input.len(),
        toks[j] is EOF ==> j == toks.len() - 1,
        stream_from(input, spec_token_at(input, pos).1) == toks.skip(
            if j + 1 < toks.len() {
                j + 1
            } else {
                j
            },
        ),
{
    crate::lexer::lemma_token_at_bounds(input, pos);
    let (t, p) = spec_token_at(input, pos);
    assert(stream_from(input, pos)[0] == t);
    assert(toks.skip(j)[0] == toks[j]);
    if t is EOF {
        assert(stream_from(input, pos) =~= seq![t]);
        assert(toks.skip(j).len() == 1);
        assert(j == toks.len() - 1);
        assert(p == input.len());
        assert(stream_from(input, p) =~= seq![TokenV::EOF]);
        assert(stream_from(input, p) =~= toks.skip(j));
    } else {
        assert(stream_from(input, pos) == seq![t] + stream_from(input, p));
        assert(j + 1 < toks.len()) by {
            assert(stream_from(input, p).len() >= 1) by {
                crate::lexer::lemma_stream_wf(input, p);
            }
            assert(toks.skip(j).len() >= 2);
        }
        assert(stream_from(input, p) =~= toks.skip(j + 1)) by {
            assert(forall|k: int|
                0 <= k < stream_from(input, p).len() ==> stream_from(input, p)[k] == (seq![t]
                    + stream_from(input, p))[k + 1]);
        }
    }
}

impl Parser {
    /// A parser that reads the tokens the lexer has yet to yield.
    pub fn new(lexer: Lexer) -> (p: Parser)
        requires
            lexer.wf(),
        ensures
            p.wf(),
            p.src() == lexer@.input,
            p.toks() == stream_from(lexer@.input, lexer@.pos),
            p.at() == 0,
    {
        let ghost toks = stream_from(lexer@.input, lexer@.pos);
        proof {
            crate::lexer::lemma_stream_wf(lexer@.input, lexer@.pos);
            assert(toks.skip(0) =~= toks);
        }
        let mut lexer = lexer;
        let ghost input = lexer@.input;
        proof {
            lemma_stream_step(input, lexer@.pos, toks, 0);
        }
        let current_token = lexer.next_token();
        let ghost j1 = if 1 < toks.len() {
            1int
        } else {
            0int
        };
        proof {
            lemma_stream_step(input, lexer@.pos, toks, j1);
        }
        let peek_token = lexer.next_token();
        let p = Parser {
            lexer,
            current_token,
            peek_token,
            toks_g: Ghost(toks),
            pos_g: Ghost(0),
        };
        proof {
            assert(p.cur() == toks[0]);
            if toks.len() == 1 {
                assert(toks[0] is EOF);
                assert(p.pk() == toks[0]);
                assert(p.pk() == tok_at(toks, 1));
            } else {
                assert(p.pk() == toks[1]);
            }
        }
        p
    }

    /// Shifts the window one token: the peek token becomes current, and a
    /// fresh token is pulled from the lexer.
    pub fn next_token(&mut self)
        requires
            old(self).wf(),
        ensures
            final(self).wf(),
            final(self).src() == old(self).src(),
            final(self).toks() == old(self).toks(),
            final(self).at() == adv_at(old(self).toks(), old(self).at()),
            final(self).cur() == old(self).pk(),
            final(self).pk() == tok_at(old(self).toks(), final(self).at() + 1),
    {
        proof {
            lemma_wf_facts(*self);
        }
        let ghost toks = self.toks_g@;
        let ghost i = self.pos_g@;
        let ghost j = if i + 2 < toks.len() {
            i + 2
        } else {
            toks.len() - 1
        };
        proof {
            lemma_stream_step(self.lexer@.input, self.lexer@.pos, toks, j);
        }
        let t = self.lexer.next_token();
        core::mem::swap(&mut self.current_token, &mut self.peek_token);
        self.peek_token = t;
        proof {
            self.pos_g@ = adv_at(toks, i);
            let i2 = self.pos_g@;
            assert(i2 < toks.len());
            assert(self.current_token@ == toks[i2]);
            assert(t@ == toks[j]);
            if self.current_token@ is EOF {
                assert(i2 == toks.len() - 1);
                assert(j == toks.len() - 1);
                assert(self.peek_token@ == tok_at(toks, i2 + 1));
            } else {
                assert(i2 == i + 1);
                assert(i2 + 1 < toks.len());
                assert(j == if i2 + 1 < toks.len() - 1 {
                    i2 + 1
                } else {
                    toks.len() - 1
                });
                assert(self.peek_token@ == tok_at(toks, i2 + 1));
            }
        }
    }

    /// Tests whether the peek token is of the expected kind; on a match the
    /// window advances onto it.
    pub fn expect_peek(&mut self, token: Token) -> (r: bool)
        requires
            old(self).wf(),
        ensures
            final(self).wf(),
            final(self).src() == old(self).src(),
            final(self).toks() == old(self).toks(),
            r == kinds_match(old(self).pk(), token@),
            r ==> final(self).at() == adv_at(old(self).toks(), old(self).at()),
            r ==> final(self).cur() == old(self).pk(),
            r ==> final(self).pk() == tok_at(old(self).toks(), final(self).at() + 1),
            !r ==> final(self).at() == old(self).at(),
            !r ==> final(self).cur() == old(self).cur(),
            !r ==> final(self).pk() == old(self).pk(),
    {
        if self.peek_token.kind() == token.kind() {
            self.next_token();
            true
        } else {
            false
        }
    }
}

impl Parser {
    /// Parses statements until the end of the input, collecting those that
    /// parse; a malformed statement is dropped and parsing resumes at the
    /// next token.
    pub fn parse(&mut self) -> (prog: Program)
        requires
            old(self).wf(),
        ensures
            final(self).wf(),
            final(self).src() == old(self).src(),
            final(self).toks() == old(self).toks(),
            final(self).at() >= old(self).at(),
            prog@ == spec_program_items(old(self).toks(), old(self).at()).0,
            final(self).at() == spec_program_items(old(self).toks(), old(self).at()).1,
            old(self).at() == 0 && old(self).toks() == stream_from(old(self).src(), 0)
                ==> prog@ == spec_parse_program(old(self).src()),
    {
        let ghost t0 = self.toks();
        let ghost i0 = self.at();
        let ghost target = spec_program_items(t0, i0);
        let mut statements: Vec<Statement> = Vec::new();
        loop
            invariant
                self.wf(),
                self.toks() == t0,
                self.src() == old(self).src(),
                self.at() >= i0,
                target.0 == stmts_view(statements@) + spec_program_items(t0, self.at()).0,
                target.1 == spec_program_items(t0, self.at()).1,
            ensures
                self.cur() is EOF,
                self.toks() == t0,
                self.src() == old(self).src(),
                self.at() >= i0,
                target.0 == stmts_view(statements@) + spec_program_items(t0, self.at()).0,
                target.1 == spec_program_items(t0, self.at()).1,
            decreases rem(t0, self.at()),
        {
            if matches!(&self.current_token, Token::EOF) {
                break ;
            }
            let ghost ib = self.at();
            proof {
                lemma_wf_facts(*self);
            }
            let st = self.parse_statement();
            let ghost i1 = self.at();
            let ghost st_v = omap_stmt(st);
            match st {
                Some(stmt) => {
                    let ghost acc0 = statements@;
                    statements.push(stmt);
                    proof {
                        lemma_stmts_view_push(acc0, statements@.last());
                        assert(statements@ =~= acc0.push(statements@.last()));
                    }
                },
                None => {},
            }
            proof {
                lemma_wf_facts(*self);
            }
            self.next_token();
            proof {
                assert(self.at() == at_least(adv_at(t0, i1), ib + 1));
                assert(spec_program_items(t0, ib).1 == spec_program_items(t0, self.at()).1);
                assert(spec_program_items(t0, ib).0 == (match st_v {
                    Some(sv) => seq![sv] + spec_program_items(t0, self.at()).0,
                    None => spec_program_items(t0, self.at()).0,
                }));
                assert(target.0 =~= stmts_view(statements@) + spec_program_items(
                    t0,
                    self.at(),
                ).0);
            }
        }
        proof {
            assert(spec_program_items(t0, self.at()).0 =~= Seq::<StmtV>::empty());
            assert(target.0 =~= stmts_view(statements@));
        }
        Program { statements }
    }

    /// Parses one statement, dispatching on the current token; `None` when
    /// the statement is malformed, with the window left where parsing
    /// stopped.
    #[verifier::rlimit(100)]
    pub fn parse_statement(&mut self) -> (r: Option<Statement>)
        requires
            old(self).wf(),
        ensures
            final(self).wf(),
            final(self).src() == old(self).src(),
            final(self).toks() == old(self).toks(),
            final(self).at() >= old(self).at(),
            omap_stmt(r) == spec_parse_statement(old(self).toks(), old(self).at()).0,
            final(self).at() == spec_parse_statement(old(self).toks(), old(self).at()).1,
        decreases rem(old(self).toks(), old(self).at()), 3int,
    {
        let ghost t0 = self.toks();
        let ghost i0 = self.at();
        proof {
            lemma_wf_facts(*self);
        }
        match &self.current_token {
            Token::EOF => None,
            Token::Let => {
                if !self.expect_peek(Token::Ident(Vec::new())) {
                    return None;
                }
                proof {
                    lemma_wf_facts(*self);
                    assert(self.at() == i0 + 1);
                }
                let name: String = match &self.current_token {
                    Token::Ident(a) => crate::token::chars_to_string(a),
                    _ => String::new(),
                };
                if !self.expect_peek(Token::Assign) {
                    return None;
                }
                proof {
                    lemma_wf_facts(*self);
                    assert(self.at() == i0 + 2);
                }
                self.next_token();
                proof {
                    lemma_wf_facts(*self);
                    assert(self.at() == i0 + 3);
                }
                let value = match self.parse_expression(precedence::LOWEST) {
                    Some(v) => v,
                    None => {
                        return None;
                    },
                };
                proof {
                    lemma_wf_facts(*self);
                }
                let is_func = matches!(&value, Expr::Function(_, _));
                if !self.expect_peek(Token::Semicolon) && !is_func {
                    return None;
                }
                Some(Statement::Let(Let { ident: Ident { name }, expr: value }))
            },
            Token::Return => {
                self.next_token();
                proof {
                    lemma_wf_facts(*self);
                    assert(self.at() == i0 + 1);
                }
                let value = match self.parse_expression(precedence::LOWEST) {
                    Some(v) => v,
                    None => {
                        return None;
                    },
                };
                proof {
                    lemma_wf_facts(*self);
                }
                if !self.expect_peek(Token::Semicolon) {
                    return None;
                }
                Some(Statement::Return(Return { return_expr: value }))
            },
            Token::LBrace => {
                self.next_token();
                proof {
                    lemma_wf_facts(*self);
                    assert(self.at() == i0 + 1);
                }
                let ghost istart = self.at();
                let ghost btarget = spec_block_items(t0, istart);
                let mut statements: Vec<Statement> = Vec::new();
                loop
                    invariant
                        self.wf(),
                        self.toks() == t0,
                        t0 == old(self).toks(),
                        self.src() == old(self).src(),
                        self.at() >= istart,
                        rem(t0, self.at()) < rem(t0, old(self).at()),
                        btarget.0 == stmts_view(statements@) + spec_block_items(
                            t0,
                            self.at(),
                        ).0,
                        btarget.1 == spec_block_items(t0, self.at()).1,
                    ensures
                        self.cur() is RBrace || self.cur() is EOF,
                        self.toks() == t0,
                        self.src() == old(self).src(),
                        self.at() >= istart,
                        btarget.0 == stmts_view(statements@) + spec_block_items(
                            t0,
                            self.at(),
                        ).0,
                        btarget.1 == spec_block_items(t0, self.at()).1,
                    decreases rem(t0, self.at()),
                {
                    if matches!(&self.current_token, Token::RBrace | Token::EOF) {
                        break ;
                    }
                    let ghost ib = self.at();
                    proof {
                        lemma_wf_facts(*self);
                    }
                    let st = self.parse_statement();
                    let ghost i1 = self.at();
                    let ghost st_v = omap_stmt(st);
                    match st {
                        Some(stmt) => {
                            let ghost acc0 = statements@;
                            statements.push(stmt);
                            proof {
                                lemma_stmts_view_push(acc0, statements@.last());
                                assert(statements@ =~= acc0.push(statements@.last()));
                            }
                        },
                        None => {},
                    }
                    proof {
                        lemma_wf_facts(*self);
                    }
                    self.next_token();
                    proof {
                        assert(self.at() == at_least(adv_at(t0, i1), ib + 1));
                        assert(spec_block_items(t0, ib).1 == spec_block_items(t0, self.at()).1);
                        assert(spec_block_items(t0, ib).0 == (match st_v {
                            Some(sv) => seq![sv] + spec_block_items(t0, self.at()).0,
                            None => spec_block_items(t0, self.at()).0,
                        }));
                        assert(btarget.0 =~= stmts_view(statements@) + spec_block_items(
                            t0,
                            self.at(),
                        ).0);
                    }
                }
                proof {
                    assert(spec_block_items(t0, self.at()).0 =~= Seq::<StmtV>::empty());
                    assert(btarget.0 =~= stmts_view(statements@));
                }
                Some(Statement::BlockStatement(statements))
            },
            Token::If => {
                if !self.expect_peek(Token::LParen) {
                    return None;
                }
                proof {
                    lemma_wf_facts(*self);
                    assert(self.at() == i0 + 1);
                }
                self.next_token();
                proof {
                    lemma_wf_facts(*self);
                    assert(self.at() == i0 + 2);
                }
                let condition = match self.parse_expression(precedence::LOWEST) {
                    Some(v) => v,
                    None => {
                        return None;
                    },
                };
                proof {
                    lemma_wf_facts(*self);
                }
                if !self.expect_peek(Token::RParen) {
                    return None;
                }
                proof {
                    lemma_wf_facts(*self);
                }
                if !self.expect_peek(Token::LBrace) {
                    return None;
                }
                proof {
                    lemma_wf_facts(*self);
                }
                let ghost ith = self.at();
                let then_branch = match self.parse_statement() {
                    Some(st) => st,
                    None => {
                        return None;
                    },
                };
                proof {
                    lemma_wf_facts(*self);
                }
                if !matches!(&self.peek_token, Token::Else) {
                    return Some(
                        Statement::IfExpression(
                            IfExpression {
                                condition,
                                then_branch: Box::new(then_branch),
                                else_: None,
                            },
                        ),
                    );
                }
                self.next_token();
                proof {
                    lemma_wf_facts(*self);
                }
                if !self.expect_peek(Token::LBrace) {
                    return None;
                }
                proof {
                    lemma_wf_facts(*self);
                }
                let else_branch = match self.parse_statement() {
                    Some(st) => st,
                    None => {
                        return None;
                    },
                };
                Some(
                    Statement::IfExpression(
                        IfExpression {
                            condition,
                            then_branch: Box::new(then_branch),
                            else_: Some(Box::new(else_branch)),
                        },
                    ),
                )
            },
            _ => {
                let value = match self.parse_expression(precedence::LOWEST) {
                    Some(v) => v,
                    None => {
                        return None;
                    },
                };
                proof {
                    lemma_wf_facts(*self);
                }
                if !self.expect_peek(Token::Semicolon) {
                    return None;
                }
                Some(Statement::Expression(value))
            },
        }
    }

    /// Parses an expression at minimum binding power `prec`: a prefix
    /// production extended with infix productions that bind tighter.
    pub fn parse_expression(&mut self, prec: i32) -> (r: Option<Expr>)
        requires
            old(self).wf(),
        ensures
            final(self).wf(),
            final(self).src() == old(self).src(),
            final(self).toks() == old(self).toks(),
            final(self).at() >= old(self).at(),
            omap_expr(r) == spec_parse_expression(old(self).toks(), old(self).at(), prec as int).0,
            final(self).at() == spec_parse_expression(old(self).toks(), old(self).at(), prec as int).1,
        decreases rem(old(self).toks(), old(self).at()), 2int,
    {
        let ghost t0 = self.toks();
        let ghost i0 = self.at();
        let ghost target = spec_parse_expression(t0, i0, prec as int);
        let mut left = self.parse_prefix();
        proof {
            assert(at_least(self.at(), i0) == self.at());
            assert(target == spec_climb(t0, self.at(), omap_expr(left), prec as int));
        }
        loop
            invariant
                self.wf(),
                self.toks() == t0,
                t0 == old(self).toks(),
                i0 == old(self).at(),
                self.src() == old(self).src(),
                self.at() >= i0,
                target == spec_parse_expression(old(self).toks(), old(self).at(), prec as int),
                target == spec_climb(t0, self.at(), omap_expr(left), prec as int),
            ensures
                self.toks() == t0,
                self.src() == old(self).src(),
                self.at() >= i0,
                target == spec_climb(t0, self.at(), omap_expr(left), prec as int),
                self.pk() is Semicolon || prec as int >= spec_precedence(self.pk()),
            decreases rem(t0, self.at()),
        {
            let stop = matches!(&self.peek_token, Token::Semicolon) || prec >= precedence_of(
                &self.peek_token,
            );
            if stop {
                break ;
            }
            let ghost ib = self.at();
            proof {
                lemma_wf_facts(*self);
            }
            let l = match left {
                Some(l) => l,
                None => {
                    return None;
                },
            };
            let lc = clone_expr(&l);
            self.next_token();
            let ghost iop = self.at();
            proof {
                lemma_wf_facts(*self);
                assert(iop == adv_at(t0, ib));
            }
            let parsed = self.parse_infix(lc);
            match parsed {
                None => {
                    proof {
                        if spec_lookup_infix(tok_at(t0, ib + 1)) is Some || tok_at(t0, ib + 1)
                            is LParen {
                            assert(iop == ib + 1);
                            assert(target == (Some(expr_view(l)), self.at()));
                        } else {
                            assert(self.at() == iop);
                            assert(target == (Some(expr_view(l)), adv_at(t0, ib)));
                        }
                    }
                    return Some(l);
                },
                Some(nl) => {
                    proof {
                        assert(iop == ib + 1);
                        assert(self.at() >= ib + 1);
                        assert(at_least(self.at(), ib + 1) == self.at());
                    }
                    left = Some(nl);
                },
            }
        }
        proof {
            assert(target == (omap_expr(left), self.at()));
        }
        left
    }

    /// Parses the prefix production that the current token begins; `None`
    /// when no prefix production applies.
    #[verifier::rlimit(100)]
    pub fn parse_prefix(&mut self) -> (r: Option<Expr>)
        requires
            old(self).wf(),
        ensures
            final(self).wf(),
            final(self).src() == old(self).src(),
            final(self).toks() == old(self).toks(),
            final(self).at() >= old(self).at(),
            omap_expr(r) == spec_parse_prefix(old(self).toks(), old(self).at()).0,
            final(self).at() == spec_parse_prefix(old(self).toks(), old(self).at()).1,
        decreases rem(old(self).toks(), old(self).at()), 1int,
    {
        let ghost t0 = self.toks();
        let ghost i0 = self.at();
        proof {
            lemma_wf_facts(*self);
        }
        match &self.current_token {
            Token::Ident(a) => {
                let name = crate::token::chars_to_string(a);
                Some(Expr::Ident(Ident { name }))
            },
            Token::Int(a) => {
                match parse_int_digits(a) {
                    Some(n) => Some(Expr::Int(n)),
                    None => None,
                }
            },
            Token::True => Some(Expr::Bool(true)),
            Token::False => Some(Expr::Bool(false)),
            Token::Minus | Token::Plus | Token::Bang => {
                let op = match &self.current_token {
                    Token::Minus => PrefixOperator::Minus,
                    Token::Plus => PrefixOperator::Plus,
                    _ => PrefixOperator::Bang,
                };
                self.next_token();
                proof {
                    lemma_wf_facts(*self);
                    assert(self.at() == i0 + 1);
                }
                match self.parse_expression(precedence::PREFIX) {
                    Some(e) => Some(Expr::Prefix(op, Box::new(e))),
                    None => None,
                }
            },
            Token::LParen => {
                self.next_token();
                proof {
                    lemma_wf_facts(*self);
                    assert(self.at() == i0 + 1);
                }
                match self.parse_expression(precedence::LOWEST) {
                    Some(v) => {
                        proof {
                            lemma_wf_facts(*self);
                        }
                        if !self.expect_peek(Token::RParen) {
                            return None;
                        }
                        Some(v)
                    },
                    None => None,
                }
            },
            Token::Func => {
                if !self.expect_peek(Token::LParen) {
                    return None;
                }
                proof {
                    lemma_wf_facts(*self);
                    assert(self.at() == i0 + 1);
                }
                let ghost i1 = self.at();
                let params: Vec<Ident>;
                if matches!(&self.peek_token, Token::RParen) {
                    self.next_token();
                    proof {
                        lemma_wf_facts(*self);
                        assert(self.at() == i1 + 1);
                    }
                    params = Vec::new();
                    proof {
                        assert(idents_view(params@) =~= Seq::<Seq<char>>::empty());
                    }
                } else {
                    self.next_token();
                    proof {
                        lemma_wf_facts(*self);
                        assert(self.at() == i1 + 1);
                    }
                    let mut ps: Vec<Ident> = Vec::new();
                    match &self.current_token {
                        Token::Ident(a) => {
                            let name = crate::token::chars_to_string(a);
                            ps.push(Ident { name });
                        },
                        _ => {
                            return None;
                        },
                    }
                    let ghost jstart = self.at();
                    let ghost acc0 = idents_view(ps@);
                    let ghost ptarget = spec_fn_params(t0, jstart, acc0);
                    proof {
                        assert(acc0 =~= seq![self.cur()->Ident_0]);
                    }
                    loop
                        invariant
                            self.wf(),
                            self.toks() == t0,
                            self.src() == old(self).src(),
                            self.at() >= jstart,
                            ptarget == spec_fn_params(t0, self.at(), idents_view(ps@)),
                        ensures
                            self.toks() == t0,
                            self.src() == old(self).src(),
                            self.at() >= jstart,
                            ptarget == (idents_view(ps@), self.at()),
                        decreases rem(t0, self.at()),
                    {
                        if !matches!(&self.peek_token, Token::Comma) {
                            proof {
                                assert(spec_fn_params(t0, self.at(), idents_view(ps@)) == (
                                    idents_view(ps@),
                                    self.at(),
                                ));
                            }
                            break ;
                        }
                        let ghost jb = self.at();
                        proof {
                            lemma_wf_facts(*self);
                        }
                        self.next_token();
                        proof {
                            lemma_wf_facts(*self);
                            assert(self.at() == jb + 1);
                        }
                        self.next_token();
                        proof {
                            lemma_wf_facts(*self);
                            assert(self.at() == jb + 2);
                        }
                        if let Token::Ident(a) = &self.current_token {
                            let name = crate::token::chars_to_string(a);
                            let ghost ps0 = ps@;
                            ps.push(Ident { name });
                            proof {
                                lemma_idents_view_push(ps0, ps@.last());
                                assert(ps@ =~= ps0.push(ps@.last()));
                            }
                        }
                    }
                    proof {
                        lemma_wf_facts(*self);
                    }
                    if !self.expect_peek(Token::RParen) {
                        return None;
                    }
                    params = ps;
                }
                proof {
                    lemma_wf_facts(*self);
                }
                self.next_token();
                let body = match self.parse_statement() {
                    Some(Statement::BlockStatement(block)) => Statement::BlockStatement(block),
                    _ => {
                        return None;
                    },
                };
                Some(Expr::Function(params, Box::new(body)))
            },
            _ => None,
        }
    }

    /// Parses the infix production whose operator is the current token, with
    /// `left` as the already-parsed left operand; `None` when the current
    /// token starts no infix production.
    #[verifier::rlimit(100)]
    pub fn parse_infix(&mut self, left: Expr) -> (r: Option<Expr>)
        requires
            old(self).wf(),
        ensures
            final(self).wf(),
            final(self).src() == old(self).src(),
            final(self).toks() == old(self).toks(),
            final(self).at() >= old(self).at(),
            omap_expr(r) == spec_parse_infix(old(self).toks(), old(self).at(), expr_view(left)).0,
            final(self).at() == spec_parse_infix(old(self).toks(), old(self).at(), expr_view(left)).1,
        decreases rem(old(self).toks(), old(self).at()), 0int,
    {
        let ghost t0 = self.toks();
        let ghost i0 = self.at();
        let ghost lv = expr_view(left);
        proof {
            lemma_wf_facts(*self);
        }
        match &self.current_token {
            Token::Plus | Token::Minus | Token::Star | Token::Slash | Token::LessThan
                | Token::GreaterThan | Token::Eq | Token::NotEq => {
                let p = precedence_of(&self.current_token);
                let op = match &self.current_token {
                    Token::Plus => InfixOperator::Plus,
                    Token::Minus => InfixOperator::Minus,
                    Token::Star => InfixOperator::Star,
                    Token::Slash => InfixOperator::Slash,
                    Token::LessThan => InfixOperator::LessThan,
                    Token::GreaterThan => InfixOperator::GreaterThan,
                    Token::Eq => InfixOperator::Eq,
                    _ => InfixOperator::NotEq,
                };
                self.next_token();
                proof {
                    lemma_wf_facts(*self);
                    assert(self.at() == i0 + 1);
                }
                match self.parse_expression(p) {
                    Some(rv) => Some(Expr::Infix(Box::new(left), op, Box::new(rv))),
                    None => None,
                }
            },
            Token::LParen => {
                if matches!(&self.peek_token, Token::RParen) {
                    self.next_token();
                    proof {
                        lemma_wf_facts(*self);
                        assert(self.at() == i0 + 1);
                        assert(exprs_view(Seq::<Expr>::empty()) =~= Seq::<ExprV>::empty());
                    }
                    return Some(Expr::Call(Box::new(left), Vec::new()));
                }
                self.next_token();
                proof {
                    lemma_wf_facts(*self);
                    assert(self.at() == i0 + 1);
                }
                let first = match self.parse_expression(precedence::LOWEST) {
                    Some(e) => e,
                    None => {
                        return None;
                    },
                };
                let ghost a0v = expr_view(first);
                let mut params: Vec<Expr> = Vec::new();
                params.push(first);
                let ghost jstart = self.at();
                let ghost itarget = spec_parse_infix(t0, i0, lv);
                let mut gtail: Ghost<Seq<ExprV>> = Ghost(Seq::empty());
                proof {
                    assert(params@.drop_last() =~= Seq::<Expr>::empty());
                    assert(exprs_view(Seq::<Expr>::empty()) =~= Seq::<ExprV>::empty());
                    assert(exprs_view(params@) =~= seq![a0v] + gtail@);
                    assert(at_least(jstart, i0 + 1) == jstart);
                }
                loop
                    invariant
                        self.wf(),
                        self.toks() == t0,
                        t0 == old(self).toks(),
                        i0 == old(self).at(),
                        lv == expr_view(left),
                        self.src() == old(self).src(),
                        self.at() >= jstart,
                        self.at() >= i0 + 1,
                        rem(t0, self.at()) < rem(t0, old(self).at()),
                        exprs_view(params@) == seq![a0v] + gtail@,
                        itarget == spec_parse_infix(old(self).toks(), old(self).at(), lv),
                        itarget == ({
                            let (ro, jf) = spec_call_args(t0, self.at());
                            match ro {
                                None => (None::<ExprV>, jf),
                                Some(vs) => ({
                                    let (ok, j4) = spec_expect(t0, jf, kind_id(TokenV::RParen));
                                    if ok {
                                        (
                                            Some(
                                                ExprV::Call(
                                                    Box::new(lv),
                                                    seq![a0v] + (gtail@ + vs),
                                                ),
                                            ),
                                            j4,
                                        )
                                    } else {
                                        (None::<ExprV>, j4)
                                    }
                                }),
                            }
                        }),
                    ensures
                        self.toks() == t0,
                        self.src() == old(self).src(),
                        self.at() >= i0 + 1,
                        exprs_view(params@) == seq![a0v] + gtail@,
                        lv == expr_view(left),
                        itarget == ({
                            let (ok, j4) = spec_expect(t0, self.at(), kind_id(TokenV::RParen));
                            if ok {
                                (
                                    Some(ExprV::Call(Box::new(lv), seq![a0v] + gtail@)),
                                    j4,
                                )
                            } else {
                                (None::<ExprV>, j4)
                            }
                        }),
                    decreases rem(t0, self.at()),
                {
                    if !matches!(&self.peek_token, Token::Comma) {
                        proof {
                            lemma_wf_facts(*self);
                            assert(spec_call_args(t0, self.at()) == (
                                Some(Seq::<ExprV>::empty()),
                                self.at(),
                            ));
                            assert(gtail@ + Seq::<ExprV>::empty() =~= gtail@);
                            assert(seq![a0v] + (gtail@ + Seq::<ExprV>::empty()) =~= seq![a0v]
                                + gtail@);
                        }
                        break ;
                    }
                    let ghost jb = self.at();
                    proof {
                        lemma_wf_facts(*self);
                        assert(tok_at(t0, jb + 1) is Comma);
                    }
                    self.next_token();
                    proof {
                        lemma_wf_facts(*self);
                        assert(self.at() == jb + 1);
                    }
                    self.next_token();
                    proof {
                        lemma_wf_facts(*self);
                        assert(self.at() == jb + 2);
                    }
                    match self.parse_expression(precedence::LOWEST) {
                        Some(e) => {
                            proof {
                                assert(self.at() >= jb + 2);
                                assert(at_least(self.at(), jb + 2) == self.at());
                            }
                            let ghost ev = expr_view(e);
                            let ghost params0 = params@;
                            params.push(e);
                            proof {
                                lemma_exprs_view_push(params0, params@.last());
                                assert(params@ =~= params0.push(params@.last()));
                                let gt0 = gtail@;
                                gtail@ = gtail@.push(ev);
                                assert(gtail@.drop_last() =~= gt0);
                                assert(exprs_view(params@) =~= seq![a0v] + gtail@);
                                assert(spec_call_args(t0, jb).1 == spec_call_args(
                                    t0,
                                    self.at(),
                                ).1);
                                assert(spec_call_args(t0, jb).0 == (match spec_call_args(
                                    t0,
                                    self.at(),
                                ).0 {
                                    None => None::<Seq<ExprV>>,
                                    Some(vs) => Some(seq![ev] + vs),
                                }));
                                if spec_call_args(t0, self.at()).0 is Some {
                                    let vs = spec_call_args(t0, self.at()).0->0;
                                    assert(gt0 + (seq![ev] + vs) =~= gtail@ + vs);
                                    assert(seq![a0v] + (gt0 + (seq![ev] + vs)) =~= seq![a0v] + (
                                    gtail@ + vs));
                                }
                            }
                        },
                        None => {
                            return None;
                        },
                    }
                }
                proof {
                    lemma_wf_facts(*self);
                }
                if !self.expect_peek(Token::RParen) {
                    return None;
                }
                Some(Expr::Call(Box::new(left), params))
            },
            _ => None,
        }
    }
}


/// Parsing is deterministic: the tree a source text yields is a function of
/// the text alone, so parsing equal texts always yields structurally equal
/// trees. `Parser::parse` ensures its result equals `spec_parse_program` of
/// the source, so any two runs over equal sources return equal programs.
pub proof fn lemma_parse_deterministic(src1: Seq<char>, src2: Seq<char>)
    requires
        src1 == src2,
    ensures
        spec_parse_program(src1) == spec_parse_program(src2),
{
}


} // verus!
