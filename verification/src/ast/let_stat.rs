use super::ident::Ident;
use super::{expr_view, render_expr, Expr, Node};
use vstd::prelude::*;
use vstd::string::StringExecFns;

verus! {

/// A let-binding: a name and the expression it is bound to.
#[derive(Debug, PartialEq, Eq)]
pub struct Let {
    pub ident: Ident,
    pub expr: Expr,
}

impl Node for Let {
    open spec fn rendered(&self) -> Seq<char> {
        "Let("@ + self.ident.name@ + ", "@ + render_expr(expr_view(self.expr)) + ")"@
    }

    fn literal(&self) -> (s: String) {
        let mut out = super::str_string("Let(");
        out.append(self.ident.name.as_str());
        out.append(", ");
        let es = self.expr.build_literal();
        out.append(es.as_str());
        out.append(")");
        out
    }
}

} // verus!
