use super::{expr_view, render_expr, render_stmt, stmt_view, Expr, Node, Statement};
use vstd::prelude::*;
use vstd::string::StringExecFns;

verus! {

/// A conditional: a condition, a "then" statement, and an optional "else"
/// statement; each arm is conventionally a block.
#[derive(Debug, PartialEq, Eq)]
pub struct IfExpression {
    pub condition: Expr,
    pub then_branch: Box<Statement>,
    pub else_: Option<Box<Statement>>,
}

impl Node for IfExpression {
    open spec fn rendered(&self) -> Seq<char> {
        match self.else_ {
            None => "If("@ + render_expr(expr_view(self.condition)) + ", "@ + render_stmt(
                stmt_view(*self.then_branch),
            ) + ")"@,
            Some(e) => "If("@ + render_expr(expr_view(self.condition)) + ", "@ + render_stmt(
                stmt_view(*self.then_branch),
            ) + ", "@ + render_stmt(stmt_view(*e)) + ")"@,
        }
    }

    fn literal(&self) -> (s: String) {
        let mut out = super::str_string("If(");
        let cs = self.condition.build_literal();
        out.append(cs.as_str());
        out.append(", ");
        let ts = self.then_branch.build_literal();
        out.append(ts.as_str());
        match &self.else_ {
            Some(e) => {
                out.append(", ");
                let es = e.build_literal();
                out.append(es.as_str());
            },
            None => {},
        }
        out.append(")");
        out
    }
}

} // verus!
