//! Retrieval modes, and the fusion of ranked hit lists.
use vstd::prelude::*;

pub mod hybrid_retriever;

verus! {

/// Which retriever answers a query.
#[derive(Debug, Clone, Copy, PartialEq, Eq, Structural)]
pub enum RetrievalMode {
    Dense,
    Lexical,
    Hybrid,
}

impl RetrievalMode {
    /// The mode's display name.
    pub open spec fn spec_name(self) -> Seq<char> {
        match self {
            RetrievalMode::Dense => seq!['D', 'e', 'n', 's', 'e'],
            RetrievalMode::Lexical => seq!['L', 'e', 'x', 'i', 'c', 'a', 'l'],
            RetrievalMode::Hybrid => seq!['H', 'y', 'b', 'r', 'i', 'd'],
        }
    }

    /// The mode's display name: `Dense`, `Lexical` or `Hybrid`.
    pub fn name(&self) -> (s: String)
        ensures
            s@ == self.spec_name(),
    {
        let lit = match self {
            RetrievalMode::Dense => "Dense",
            RetrievalMode::Lexical => "Lexical",
            RetrievalMode::Hybrid => "Hybrid",
        };
        proof {
            reveal_strlit("Dense");
            reveal_strlit("Lexical");
            reveal_strlit("Hybrid");
        }
        let s = lit.to_owned();
        assert(s@ =~= self.spec_name());
        s
    }
}

} // verus!
