//! The tree the parser builds: expression and statement nodes, their
//! mathematical values, and their canonical parenthesized rendering.
use self::ident::Ident;
use self::if_else::IfExpression;
use self::let_stat::Let;
use self::operators::{InfixOperator, PrefixOperator};
use self::operators::{spec_infix_symbol, spec_prefix_symbol};
use self::return_stat::Return;
use vstd::prelude::*;
use vstd::string::StringExecFns;

pub mod block;
pub mod ident;
pub mod if_else;
pub mod let_stat;
pub mod operators;
pub mod return_stat;

verus! {

/// An expression node of the tree.
#[derive(Debug, PartialEq, Eq)]
pub enum Expr {
    Ident(Ident),
    Int(i64),
    Bool(bool),
    Illegal(String),
    Prefix(PrefixOperator, Box<Expr>),
    Infix(Box<Expr>, InfixOperator, Box<Expr>),
    Function(Vec<Ident>, Box<Statement>),
    Call(Box<Expr>, Vec<Expr>),
}

/// A statement node of the tree.
#[derive(Debug, PartialEq, Eq)]
pub enum Statement {
    Let(Let),
    Return(Return),
    Expression(Expr),
    Illegal(String),
    BlockStatement(Vec<Statement>),
    IfExpression(IfExpression),
}

/// The parsed form of a whole source text: its statements in source order.
#[derive(Debug)]
pub struct Program {
    pub statements: Vec<Statement>,
}

/// The mathematical value of an expression node: names become character
/// sequences, child vectors become sequences.
pub enum ExprV {
    Ident(Seq<char>),
    Int(i64),
    Bool(bool),
    Illegal(Seq<char>),
    Prefix(PrefixOperator, Box<ExprV>),
    Infix(Box<ExprV>, InfixOperator, Box<ExprV>),
    Function(Seq<Seq<char>>, Box<StmtV>),
    Call(Box<ExprV>, Seq<ExprV>),
}

/// The mathematical value of a statement node.
pub enum StmtV {
    Let(Seq<char>, ExprV),
    Return(ExprV),
    Expression(ExprV),
    Illegal(Seq<char>),
    Block(Seq<StmtV>),
    If(ExprV, Box<StmtV>, Option<Box<StmtV>>),
}

/// The mathematical values of a sequence of expression nodes, elementwise.
pub open spec fn exprs_view(s: Seq<Expr>) -> Seq<ExprV>
    decreases s,
{
    if s.len() == 0 {
        Seq::empty()
    } else {
        exprs_view(s.drop_last()).push(expr_view(s.last()))
    }
}

/// The mathematical values of a sequence of statement nodes, elementwise.
pub open spec fn stmts_view(s: Seq<Statement>) -> Seq<StmtV>
    decreases s,
{
    if s.len() == 0 {
        Seq::empty()
    } else {
        stmts_view(s.drop_last()).push(stmt_view(s.last()))
    }
}

/// The names of a sequence of identifier nodes.
pub open spec fn idents_view(s: Seq<Ident>) -> Seq<Seq<char>> {
    Seq::new(s.len(), |k: int| s[k].name@)
}

pub proof fn lemma_exprs_view_push(s: Seq<Expr>, x: Expr)
    ensures
        exprs_view(s.push(x)) == exprs_view(s).push(expr_view(x)),
{
    assert(s.push(x).drop_last() =~= s);
    assert(s.push(x).last() == x);
}

pub proof fn lemma_stmts_view_push(s: Seq<Statement>, x: Statement)
    ensures
        stmts_view(s.push(x)) == stmts_view(s).push(stmt_view(x)),
{
    assert(s.push(x).drop_last() =~= s);
    assert(s.push(x).last() == x);
}

pub proof fn lemma_idents_view_push(s: Seq<Ident>, x: Ident)
    ensures
        idents_view(s.push(x)) == idents_view(s).push(x.name@),
{
    assert(idents_view(s.push(x)) =~= idents_view(s).push(x.name@));
}

/// The mathematical value of an expression node.
pub open spec fn expr_view(e: Expr) -> ExprV
    decreases e,
{
    match e {
        Expr::Ident(id) => ExprV::Ident(id.name@),
        Expr::Int(n) => ExprV::Int(n),
        Expr::Bool(b) => ExprV::Bool(b),
        Expr::Illegal(s) => ExprV::Illegal(s@),
        Expr::Prefix(op, inner) => ExprV::Prefix(op, Box::new(expr_view(*inner))),
        Expr::Infix(l, op, r) => ExprV::Infix(
            Box::new(expr_view(*l)),
            op,
            Box::new(expr_view(*r)),
        ),
        Expr::Function(params, body) => ExprV::Function(
            idents_view(params@),
            Box::new(stmt_view(*body)),
        ),
        Expr::Call(f, args) => ExprV::Call(Box::new(expr_view(*f)), exprs_view(args@)),
    }
}

/// The mathematical value of a statement node.
pub open spec fn stmt_view(s: Statement) -> StmtV
    decreases s,
{
    match s {
        Statement::Let(l) => StmtV::Let(l.ident.name@, expr_view(l.expr)),
        Statement::Return(r) => StmtV::Return(expr_view(r.return_expr)),
        Statement::Expression(e) => StmtV::Expression(expr_view(e)),
        Statement::Illegal(s) => StmtV::Illegal(s@),
        Statement::BlockStatement(ss) => StmtV::Block(stmts_view(ss@)),
        Statement::IfExpression(c) => StmtV::If(
            expr_view(c.condition),
            Box::new(stmt_view(*c.then_branch)),
            match c.else_ {
                Some(e) => Some(Box::new(stmt_view(*e))),
                None => None,
            },
        ),
    }
}

impl View for Expr {
    type V = ExprV;

    open spec fn view(&self) -> ExprV {
        expr_view(*self)
    }
}

impl DeepView for Expr {
    type V = ExprV;

    open spec fn deep_view(&self) -> ExprV {
        expr_view(*self)
    }
}

impl View for Statement {
    type V = StmtV;

    open spec fn view(&self) -> StmtV {
        stmt_view(*self)
    }
}

impl DeepView for Statement {
    type V = StmtV;

    open spec fn deep_view(&self) -> StmtV {
        stmt_view(*self)
    }
}

impl View for Program {
    type V = Seq<StmtV>;

    open spec fn view(&self) -> Seq<StmtV> {
        stmts_view(self.statements@)
    }
}

/// A node of the tree that can render itself as its canonical parenthesized
/// text.
pub trait Node {
    /// The canonical text of this node.
    spec fn rendered(&self) -> Seq<char>;

    /// Renders this node as its canonical text.
    fn literal(&self) -> (s: String)
        ensures
            s@ == self.rendered(),
    ;
}

/// The character for one decimal digit.
pub open spec fn digit_char(d: int) -> char {
    if d == 0 {
        '0'
    } else if d == 1 {
        '1'
    } else if d == 2 {
        '2'
    } else if d == 3 {
        '3'
    } else if d == 4 {
        '4'
    } else if d == 5 {
        '5'
    } else if d == 6 {
        '6'
    } else if d == 7 {
        '7'
    } else if d == 8 {
        '8'
    } else {
        '9'
    }
}

/// The decimal digits of a non-negative number.
pub open spec fn dec_str(n: int) -> Seq<char>
    decreases n,
{
    if n < 10 {
        seq![digit_char(n)]
    } else {
        dec_str(n / 10).push(digit_char(n % 10))
    }
}

/// The canonical text of an integer: its decimal digits, with a leading minus
/// sign when negative.
pub open spec fn render_int(n: int) -> Seq<char> {
    if n < 0 {
        seq!['-'] + dec_str(-n)
    } else {
        dec_str(n)
    }
}

/// The canonical text of an expression, with parentheses making grouping
/// explicit.
pub open spec fn render_expr(e: ExprV) -> Seq<char>
    decreases e,
{
    match e {
        ExprV::Ident(n) => n,
        ExprV::Int(v) => render_int(v as int),
        ExprV::Bool(b) => if b {
            "true"@
        } else {
            "false"@
        },
        ExprV::Illegal(s) => s,
        ExprV::Prefix(op, inner) => "("@ + spec_prefix_symbol(op) + render_expr(*inner) + ")"@,
        ExprV::Infix(l, op, r) => "("@ + render_expr(*l) + " "@ + spec_infix_symbol(op) + " "@
            + render_expr(*r) + ")"@,
        ExprV::Function(ps, body) => "Func"@ + render_names(ps) + " "@ + render_stmt(*body),
        ExprV::Call(f, args) => render_expr(*f) + "("@ + render_args(args) + ")"@,
    }
}

/// The comma-separated canonical texts of call arguments.
pub open spec fn render_args(s: Seq<ExprV>) -> Seq<char>
    decreases s,
{
    if s.len() == 0 {
        Seq::empty()
    } else if s.len() == 1 {
        render_expr(s[0])
    } else {
        render_args(s.drop_last()) + ","@ + render_expr(s.last())
    }
}

/// The comma-separated names of a parameter list.
pub open spec fn names_items(s: Seq<Seq<char>>) -> Seq<char>
    decreases s.len(),
{
    if s.len() == 0 {
        Seq::empty()
    } else if s.len() == 1 {
        s[0]
    } else {
        names_items(s.drop_last()) + ","@ + s.last()
    }
}

/// The canonical text of a parameter list.
pub open spec fn render_names(s: Seq<Seq<char>>) -> Seq<char> {
    "("@ + names_items(s) + ")"@
}

/// The canonical text of a statement.
pub open spec fn render_stmt(st: StmtV) -> Seq<char>
    decreases st,
{
    match st {
        StmtV::Let(name, e) => "Let("@ + name + ", "@ + render_expr(e) + ")"@,
        StmtV::Return(e) => "Return("@ + render_expr(e) + ")"@,
        StmtV::Expression(e) => render_expr(e),
        StmtV::Illegal(s) => s,
        StmtV::Block(ss) => "{ "@ + stmts_items(ss) + "}"@,
        StmtV::If(c, th, el) => match el {
            None => "If("@ + render_expr(c) + ", "@ + render_stmt(*th) + ")"@,
            Some(e) => "If("@ + render_expr(c) + ", "@ + render_stmt(*th) + ", "@ + render_stmt(
                *e,
            ) + ")"@,
        },
    }
}

/// The canonical texts of a block's statements, each closed by a semicolon.
pub open spec fn stmts_items(ss: Seq<StmtV>) -> Seq<char>
    decreases ss,
{
    if ss.len() == 0 {
        Seq::empty()
    } else {
        stmts_items(ss.drop_last()) + render_stmt(ss.last()) + "; "@
    }
}

/// The canonical texts of a program's statements, one indented line each.
pub open spec fn prog_items(ss: Seq<StmtV>) -> Seq<char>
    decreases ss,
{
    if ss.len() == 0 {
        Seq::empty()
    } else {
        prog_items(ss.drop_last()) + "    "@ + render_stmt(ss.last()) + ";\n"@
    }
}

/// The canonical text of a whole program.
pub open spec fn render_program(ss: Seq<StmtV>) -> Seq<char> {
    if ss.len() == 0 {
        "Program {}"@
    } else {
        "Program {\n"@ + prog_items(ss) + "}"@
    }
}

/// A fresh string holding the given text.
pub(crate) fn str_string(first: &str) -> (s: String)
    ensures
        s@ == first@,
{
    let mut s = String::new();
    s.append(first);
    proof {
        assert(s@ =~= first@);
    }
    s
}

fn digit_to_char(d: u64) -> (c: char)
    requires
        d < 10,
    ensures
        c == digit_char(d as int),
{
    match d {
        0 => '0',
        1 => '1',
        2 => '2',
        3 => '3',
        4 => '4',
        5 => '5',
        6 => '6',
        7 => '7',
        8 => '8',
        _ => '9',
    }
}

/// The decimal text of an integer, as characters.
fn int_chars(n: i64) -> (r: Vec<char>)
    ensures
        r@ == render_int(n as int),
{
    let neg = n < 0;
    let m0: u64 = if n < 0 {
        (-(n as i128)) as u64
    } else {
        n as u64
    };
    proof {
        assert(m0 as int == if n < 0 {
            -(n as int)
        } else {
            n as int
        });
    }
    let mut digits: Vec<char> = Vec::new();
    if m0 == 0 {
        digits.push('0');
        proof {
            assert(digits@ =~= dec_str(m0 as int));
        }
    } else {
        let mut m: u64 = m0;
        proof {
            assert(dec_str(m0 as int) =~= dec_str(m as int) + digits@);
        }
        while m > 0
            invariant
                m > 0 ==> dec_str(m0 as int) == dec_str(m as int) + digits@,
                m == 0 ==> dec_str(m0 as int) == digits@,
            decreases m,
        {
            let ghost mold = m as int;
            let d: u64 = m % 10;
            let ch: char = digit_to_char(d);
            let ghost dg0 = digits@;
            digits.insert(0, ch);
            proof {
                assert(digits@ =~= seq![ch] + dg0);
            }
            m = m / 10;
            proof {
                if m > 0 {
                    assert(mold >= 10);
                    assert(dec_str(mold) == dec_str(m as int).push(ch));
                    assert(dec_str(m as int).push(ch) + dg0 =~= dec_str(m as int) + (seq![ch]
                        + dg0));
                } else {
                    assert(mold < 10);
                    assert(dec_str(mold) == seq![ch]);
                    assert(seq![ch] + dg0 =~= digits@);
                }
            }
        }
    }
    if neg {
        let ghost dg = digits@;
        digits.insert(0, '-');
        proof {
            assert(digits@ =~= seq!['-'] + dg);
        }
    }
    digits
}

impl Expr {
    /// Renders this expression as its canonical parenthesized text.
    #[verifier::loop_isolation(false)]
    pub fn build_literal(&self) -> (s: String)
        ensures
            s@ == render_expr(expr_view(*self)),
        decreases *self,
    {
        match self {
            Expr::Ident(id) => id.name.clone(),
            Expr::Int(n) => {
                let v = int_chars(*n);
                crate::token::chars_to_string(&v)
            },
            Expr::Bool(b) => {
                if *b {
                    str_string("true")
                } else {
                    str_string("false")
                }
            },
            Expr::Illegal(s) => s.clone(),
            Expr::Prefix(op, inner) => {
                let mut out = str_string("(");
                out.append(operators::prefix_symbol(*op));
                let ins = inner.build_literal();
                out.append(ins.as_str());
                out.append(")");
                proof {
                    assert(out@ =~= "("@ + spec_prefix_symbol(*op) + render_expr(
                        expr_view(**inner),
                    ) + ")"@);
                }
                out
            },
            Expr::Infix(l, op, r) => {
                let mut out = str_string("(");
                let ls = l.build_literal();
                out.append(ls.as_str());
                out.append(" ");
                out.append(operators::infix_symbol(*op));
                out.append(" ");
                let rs = r.build_literal();
                out.append(rs.as_str());
                out.append(")");
                proof {
                    assert(out@ =~= "("@ + render_expr(expr_view(**l)) + " "@ + spec_infix_symbol(
                        *op,
                    ) + " "@ + render_expr(expr_view(**r)) + ")"@);
                }
                out
            },
            Expr::Function(params, body) => {
                let mut out = str_string("Func");
                let ps = params.literal();
                out.append(ps.as_str());
                out.append(" ");
                let bs = body.build_literal();
                out.append(bs.as_str());
                proof {
                    assert(out@ =~= "Func"@ + render_names(idents_view(params@)) + " "@
                        + render_stmt(stmt_view(**body)));
                }
                out
            },
            Expr::Call(f, args) => {
                let mut out = f.build_literal();
                out.append("(");
                if args.len() > 0 {
                    let s0 = args[0].build_literal();
                    out.append(s0.as_str());
                    proof {
                        assert(args@.subrange(0, 1) =~= Seq::<Expr>::empty().push(args@[0]));
                        lemma_exprs_view_push(Seq::<Expr>::empty(), args@[0]);
                        assert(exprs_view(Seq::<Expr>::empty()) =~= Seq::<ExprV>::empty());
                        assert(exprs_view(args@.subrange(0, 1)) =~= seq![expr_view(args@[0])]);
                    }
                    let mut k: usize = 1;
                    while k < args.len()
                        invariant
                            1 <= k <= args@.len(),
                            out@ == render_expr(expr_view(**f)) + "("@ + render_args(
                                exprs_view(args@.subrange(0, k as int)),
                            ),
                        decreases args@.len() - k,
                    {
                        out.append(",");
                        let sk = args[k].build_literal();
                        out.append(sk.as_str());
                        k = k + 1;
                        proof {
                            let kk = k as int;
                            assert(args@.subrange(0, kk) =~= args@.subrange(0, kk - 1).push(
                                args@[kk - 1],
                            ));
                            lemma_exprs_view_push(args@.subrange(0, kk - 1), args@[kk - 1]);
                            assert(exprs_view(args@.subrange(0, kk)).drop_last()
                                =~= exprs_view(args@.subrange(0, kk - 1)));
                        }
                    }
                    proof {
                        assert(args@.subrange(0, args@.len() as int) =~= args@);
                    }
                } else {
                    proof {
                        assert(exprs_view(args@) =~= Seq::<ExprV>::empty());
                        assert(render_args(exprs_view(args@)) =~= Seq::<char>::empty());
                    }
                }
                out.append(")");
                proof {
                    assert(out@ =~= render_expr(expr_view(**f)) + "("@ + render_args(
                        exprs_view(args@),
                    ) + ")"@);
                }
                out
            },
        }
    }
}

impl Statement {
    /// Renders this statement as its canonical parenthesized text.
    #[verifier::loop_isolation(false)]
    pub fn build_literal(&self) -> (s: String)
        ensures
            s@ == render_stmt(stmt_view(*self)),
        decreases *self,
    {
        match self {
            Statement::Let(l) => {
                let mut out = str_string("Let(");
                out.append(l.ident.name.as_str());
                out.append(", ");
                let es = l.expr.build_literal();
                out.append(es.as_str());
                out.append(")");
                out
            },
            Statement::Return(r) => {
                let mut out = str_string("Return(");
                let es = r.return_expr.build_literal();
                out.append(es.as_str());
                out.append(")");
                out
            },
            Statement::Expression(e) => e.build_literal(),
            Statement::Illegal(t) => t.clone(),
            Statement::BlockStatement(ss) => {
                let mut out = str_string("{ ");
                let mut k: usize = 0;
                while k < ss.len()
                    invariant
                        k <= ss@.len(),
                        out@ == "{ "@ + stmts_items(stmts_view(ss@.subrange(0, k as int))),
                    decreases ss@.len() - k,
                {
                    let sk = ss[k].build_literal();
                    out.append(sk.as_str());
                    out.append("; ");
                    k = k + 1;
                    proof {
                        let kk = k as int;
                        assert(ss@.subrange(0, kk) =~= ss@.subrange(0, kk - 1).push(
                            ss@[kk - 1],
                        ));
                        lemma_stmts_view_push(ss@.subrange(0, kk - 1), ss@[kk - 1]);
                        assert(stmts_view(ss@.subrange(0, kk)).drop_last() =~= stmts_view(
                            ss@.subrange(0, kk - 1),
                        ));
                    }
                }
                proof {
                    assert(ss@.subrange(0, ss@.len() as int) =~= ss@);
                }
                out.append("}");
                out
            },
            Statement::IfExpression(c) => {
                let mut out = str_string("If(");
                let cs = c.condition.build_literal();
                out.append(cs.as_str());
                out.append(", ");
                let ts = c.then_branch.build_literal();
                out.append(ts.as_str());
                match &c.else_ {
                    Some(e) => {
                        out.append(", ");
                        let es = e.build_literal();
                        out.append(es.as_str());
                    },
                    None => {},
                }
                out.append(")");
                out
            },
        }
    }
}

impl Node for Expr {
    open spec fn rendered(&self) -> Seq<char> {
        render_expr(expr_view(*self))
    }

    fn literal(&self) -> (s: String) {
        self.build_literal()
    }
}

impl Node for Statement {
    open spec fn rendered(&self) -> Seq<char> {
        render_stmt(stmt_view(*self))
    }

    fn literal(&self) -> (s: String) {
        self.build_literal()
    }
}

impl Node for Program {
    open spec fn rendered(&self) -> Seq<char> {
        render_program(stmts_view(self.statements@))
    }

    #[verifier::loop_isolation(false)]
    fn literal(&self) -> (s: String) {
        if self.statements.len() == 0 {
            proof {
                assert(stmts_view(self.statements@) =~= Seq::<StmtV>::empty());
            }
            return str_string("Program {}");
        }
        let mut out = str_string("Program {\n");
        {
            let ss = &self.statements;
            let mut k: usize = 0;
            while k < ss.len()
                invariant
                    k <= ss@.len(),
                    out@ == "Program {\n"@ + prog_items(stmts_view(ss@.subrange(0, k as int))),
                decreases ss@.len() - k,
            {
                out.append("    ");
                let sk = ss[k].build_literal();
                out.append(sk.as_str());
                out.append(";\n");
                k = k + 1;
                proof {
                    let kk = k as int;
                    assert(ss@.subrange(0, kk) =~= ss@.subrange(0, kk - 1).push(ss@[kk - 1]));
                    lemma_stmts_view_push(ss@.subrange(0, kk - 1), ss@[kk - 1]);
                    assert(stmts_view(ss@.subrange(0, kk)).drop_last() =~= stmts_view(
                        ss@.subrange(0, kk - 1),
                    ));
                }
            }
            proof {
                assert(ss@.subrange(0, ss@.len() as int) =~= ss@);
            }
        }
        out.append("}");
        out
    }
}


} // verus!
