use super::Node;
use vstd::prelude::*;

verus! {

/// A name appearing in the source: a variable, binding or parameter.
#[derive(Debug, Clone, PartialEq, Eq)]
pub struct Ident {
    pub name: String,
}

impl View for Ident {
    type V = Seq<char>;

    open spec fn view(&self) -> Seq<char> {
        self.name@
    }
}

impl Node for Ident {
    open spec fn rendered(&self) -> Seq<char> {
        self.name@
    }

    fn literal(&self) -> (s: String) {
        self.name.clone()
    }
}

} // verus!
