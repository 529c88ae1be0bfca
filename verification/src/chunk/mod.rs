//! Splitting documents into chunks small enough to embed.
//!
//! Token counts are approximated from character counts: a text containing a
//! CJK ideograph counts one token per three characters, any other text one
//! per four, rounded up.
use vstd::prelude::*;

use crate::source::SourceDoc;

pub mod chunk_builder;
pub mod structure;

verus! {

/// A piece of a page, with the page's metadata and a stable id
/// `{page_id}#{ordinal}`.
#[derive(Debug, Clone)]
pub struct Chunk {
    pub chunk_id: String,
    pub page_id: String,
    pub title: String,
    pub url: String,
    pub text: String,
}

/// Splits a document into chunks.
pub trait Chunker {
    fn chunk(&self, doc: &SourceDoc) -> Vec<Chunk>;
}

/// A CJK unified ideograph (the base block or extension A).
pub open spec fn cjk_ideograph(c: char) -> bool {
    ('\u{3400}' <= c && c <= '\u{4DBF}') || ('\u{4E00}' <= c && c <= '\u{9FFF}')
}

/// CJK ideographs are the code points U+3400..=U+4DBF and U+4E00..=U+9FFF.
pub proof fn lemma_cjk_code_points(c: char)
    ensures
        cjk_ideograph(c) <==> ((0x3400 <= (c as int) && (c as int) <= 0x4DBF) || (0x4E00 <= (c as int)
            && (c as int) <= 0x9FFF)),
{
}

/// The text holds a CJK ideograph.
pub open spec fn has_cjk(s: Seq<char>) -> bool {
    exists|i: int| 0 <= i < s.len() && #[trigger] cjk_ideograph(s[i])
}

/// Characters per token: 3 for text with CJK ideographs, 4 otherwise.
pub open spec fn divisor(s: Seq<char>) -> nat {
    if has_cjk(s) {
        3
    } else {
        4
    }
}

/// `n / d`, rounded up.
pub open spec fn ceil_div(n: nat, d: nat) -> nat {
    n / d + if n % d == 0 {
        0nat
    } else {
        1nat
    }
}

/// The approximate token count of a text.
pub open spec fn approx_token_count(s: Seq<char>) -> nat {
    ceil_div(s.len(), divisor(s))
}

/// The stable id of the `ordinal`-th chunk of a page: `{page_id}#{ordinal}`.
pub open spec fn chunk_id_for(page_id: Seq<char>, ordinal: nat) -> Seq<char> {
    page_id + seq!['#'] + crate::text::decimal(ordinal)
}

/// `c` is the chunk of `doc` with the given ordinal and text.
pub open spec fn is_chunk_of(c: Chunk, doc: SourceDoc, ordinal: nat, text: Seq<char>) -> bool {
    &&& c.chunk_id@ == chunk_id_for(doc.page_id@, ordinal)
    &&& c.page_id@ == doc.page_id@
    &&& c.title@ == doc.title@
    &&& c.url@ == doc.url@
    &&& c.text@ == text
}

/// The strings' characters.
pub open spec fn views(v: Seq<String>) -> Seq<Seq<char>> {
    v.map_values(|s: String| s@)
}

/// The chunks' texts.
pub open spec fn chunk_texts(v: Seq<Chunk>) -> Seq<Seq<char>> {
    v.map_values(|c: Chunk| c.text@)
}

/// A chunk id names one page and one ordinal: the page id is what comes
/// before the last `#`, and the ordinal's digits hold no `#`.
pub proof fn lemma_chunk_id_injective(p1: Seq<char>, i: nat, p2: Seq<char>, j: nat)
    requires
        chunk_id_for(p1, i) == chunk_id_for(p2, j),
    ensures
        p1 == p2,
        i == j,
{
    let a = chunk_id_for(p1, i);
    let b = chunk_id_for(p2, j);
    let d1 = crate::text::decimal(i);
    let d2 = crate::text::decimal(j);
    crate::text::lemma_decimal_shape(i);
    crate::text::lemma_decimal_shape(j);
    let n = a.len();
    if d1.len() < d2.len() {
        // The `#` after `p1` falls inside the digits of `j`.
        let k = n - d1.len() - 1;
        assert(a[k] == '#');
        assert(b[k] == d2[k - p2.len() - 1]);
    } else if d2.len() < d1.len() {
        let k = n - d2.len() - 1;
        assert(b[k] == '#');
        assert(a[k] == d1[k - p1.len() - 1]);
    }
    assert(p1 =~= a.take(p1.len() as int));
    assert(p2 =~= b.take(p2.len() as int));
    assert(d1 =~= a.skip(p1.len() as int + 1));
    assert(d2 =~= b.skip(p2.len() as int + 1));
    crate::text::lemma_decimal_injective(i, j);
}

/// A chunk id reads back as its page id, `#`, and the ordinal written in
/// base 10: the characters after the `#` are ASCII digits whose value is the
/// ordinal.
pub proof fn lemma_chunk_id_ordinal(page_id: Seq<char>, ordinal: nat)
    ensures
        chunk_id_for(page_id, ordinal).take(page_id.len() as int) == page_id,
        chunk_id_for(page_id, ordinal)[page_id.len() as int] == '#',
        crate::text::digits_value(chunk_id_for(page_id, ordinal).skip(page_id.len() as int + 1)) == ordinal,
{
    let id = chunk_id_for(page_id, ordinal);
    assert(id.take(page_id.len() as int) =~= page_id);
    assert(id.skip(page_id.len() as int + 1) =~= crate::text::decimal(ordinal));
    crate::text::lemma_decimal_value(ordinal);
}

/// Chunk ids of one page are distinct.
pub proof fn lemma_chunk_ids_distinct(page_id: Seq<char>, i: nat, j: nat)
    requires
        i != j,
    ensures
        chunk_id_for(page_id, i) != chunk_id_for(page_id, j),
{
    if chunk_id_for(page_id, i) == chunk_id_for(page_id, j) {
        lemma_chunk_id_injective(page_id, i, page_id, j);
    }
}

} // verus!
