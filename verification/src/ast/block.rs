use super::ident::Ident;
use super::{lemma_idents_view_push, lemma_stmts_view_push, idents_view, names_items,
    render_names, stmts_items, stmts_view, Node, Statement, StmtV};
use vstd::prelude::*;
use vstd::string::StringExecFns;

verus! {

impl Node for Vec<Statement> {
    open spec fn rendered(&self) -> Seq<char> {
        "{ "@ + stmts_items(stmts_view(self@)) + "}"@
    }

    /// Renders a block: each statement's text closed by a semicolon, between
    /// braces.
    #[verifier::loop_isolation(false)]
    fn literal(&self) -> (s: String) {
        let mut out = String::new();
        out.append("{ ");
        let mut k: usize = 0;
        while k < self.len()
            invariant
                k <= self@.len(),
                out@ == "{ "@ + stmts_items(stmts_view(self@.subrange(0, k as int))),
            decreases self@.len() - k,
        {
            let sk = self[k].build_literal();
            out.append(sk.as_str());
            out.append("; ");
            k = k + 1;
            proof {
                let kk = k as int;
                assert(self@.subrange(0, kk) =~= self@.subrange(0, kk - 1).push(
                    self@[kk - 1],
                ));
                lemma_stmts_view_push(self@.subrange(0, kk - 1), self@[kk - 1]);
                assert(stmts_view(self@.subrange(0, kk)).drop_last() =~= stmts_view(
                    self@.subrange(0, kk - 1),
                ));
            }
        }
        proof {
            assert(self@.subrange(0, self@.len() as int) =~= self@);
        }
        out.append("}");
        out
    }
}

impl Node for Vec<Ident> {
    open spec fn rendered(&self) -> Seq<char> {
        render_names(idents_view(self@))
    }

    /// Renders a parameter list: the names joined by commas, between
    /// parentheses.
    #[verifier::loop_isolation(false)]
    fn literal(&self) -> (s: String) {
        let mut out = String::new();
        out.append("(");
        if self.len() > 0 {
            out.append(self[0].name.as_str());
            let mut k: usize = 1;
            while k < self.len()
                invariant
                    1 <= k <= self@.len(),
                    out@ == "("@ + names_items(idents_view(self@.subrange(0, k as int))),
                decreases self@.len() - k,
            {
                out.append(",");
                out.append(self[k].name.as_str());
                k = k + 1;
                proof {
                    let kk = k as int;
                    assert(self@.subrange(0, kk) =~= self@.subrange(0, kk - 1).push(
                        self@[kk - 1],
                    ));
                    lemma_idents_view_push(self@.subrange(0, kk - 1), self@[kk - 1]);
                    assert(idents_view(self@.subrange(0, kk)).drop_last() =~= idents_view(
                        self@.subrange(0, kk - 1),
                    ));
                }
            }
            proof {
                assert(self@.subrange(0, self@.len() as int) =~= self@);
            }
        } else {
            proof {
                assert(idents_view(self@) =~= Seq::<Seq<char>>::empty());
            }
        }
        out.append(")");
        out
    }
}

} // verus!
