//! Inputs for the E5 embedding model family, which is trained with
//! asymmetric prefixes: `passage: ` for indexed text, `query: ` for queries.
use vstd::prelude::*;

use crate::text::concat;

verus! {

/// What a chunk's text is prefixed with before it is embedded.
pub open spec fn passage_prefix() -> Seq<char> {
    seq!['p', 'a', 's', 's', 'a', 'g', 'e', ':', ' ']
}

/// What a query is prefixed with before it is embedded.
pub open spec fn query_prefix() -> Seq<char> {
    seq!['q', 'u', 'e', 'r', 'y', ':', ' ']
}

/// The model input for a text to be indexed: `passage: {text}`.
pub fn passage_input(text: &str) -> (s: String)
    ensures
        s@ == passage_prefix() + text@,
{
    proof {
        reveal_strlit("passage: ");
    }
    let s = concat("passage: ", text);
    assert("passage: "@ =~= passage_prefix());
    s
}

/// The model input for a query: `query: {text}`.
pub fn query_input(text: &str) -> (s: String)
    ensures
        s@ == query_prefix() + text@,
{
    proof {
        reveal_strlit("query: ");
    }
    let s = concat("query: ", text);
    assert("query: "@ =~= query_prefix());
    s
}

} // verus!
