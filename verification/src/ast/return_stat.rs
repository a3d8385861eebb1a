use super::{expr_view, render_expr, Expr, Node};
use vstd::prelude::*;
use vstd::string::StringExecFns;

verus! {

/// A return statement wrapping the returned expression.
#[derive(Debug, PartialEq, Eq)]
pub struct Return {
    pub return_expr: Expr,
}

impl Node for Return {
    open spec fn rendered(&self) -> Seq<char> {
        "Return("@ + render_expr(expr_view(self.return_expr)) + ")"@
    }

    fn literal(&self) -> (s: String) {
        let mut out = super::str_string("Return(");
        let es = self.return_expr.build_literal();
        out.append(es.as_str());
        out.append(")");
        out
    }
}

} // verus!
