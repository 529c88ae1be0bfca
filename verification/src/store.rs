//! Search hits, and the pure parts of talking to the vector store: SQL
//! predicates over page ids, the set of pages a batch touches, and the
//! dimension check of embedding vectors.
use vstd::prelude::*;

use crate::text::{
    lemma_seq_lt_irreflexive, lemma_seq_lt_total, lemma_seq_lt_transitive, quote_literal, quoted,
    seq_lt, str_lt,
};

verus! {

/// The length of every embedding vector in the store.
pub const EMBEDDING_DIMENSION: usize = 384;

/// Scores are fixed point: the score times `SCORE_SCALE`, rounded toward zero.
pub const SCORE_SCALE: i64 = 1_000_000_000;

/// A retrieved chunk with its relevance score (fixed point, see `SCORE_SCALE`).
#[derive(Debug, Clone)]
pub struct Hit {
    pub chunk_id: String,
    pub page_id: String,
    pub title: String,
    pub url: String,
    pub text: String,
    pub score: i64,
}

/// `a` and `b` are the same chunk with the same text and metadata; scores may differ.
pub open spec fn same_chunk(a: Hit, b: Hit) -> bool {
    &&& a.chunk_id == b.chunk_id
    &&& a.page_id == b.page_id
    &&& a.title == b.title
    &&& a.url == b.url
    &&& a.text == b.text
}

impl Hit {
    /// A copy of this hit with the given score.
    pub fn with_score(&self, score: i64) -> (h: Hit)
        ensures
            same_chunk(h, *self),
            h.score == score,
    {
        Hit {
            chunk_id: self.chunk_id.clone(),
            page_id: self.page_id.clone(),
            title: self.title.clone(),
            url: self.url.clone(),
            text: self.text.clone(),
            score,
        }
    }
}

/// Some string of `v` has the characters `s`.
pub open spec fn has_id(v: Seq<String>, s: Seq<char>) -> bool {
    exists|i: int| 0 <= i < v.len() && #[trigger] v[i]@ == s
}

/// Strictly increasing in the order of `str` comparison (so without repeats).
pub open spec fn strictly_sorted(v: Seq<Seq<char>>) -> bool {
    forall|i: int, j: int| 0 <= i < j < v.len() ==> seq_lt(#[trigger] v[i], #[trigger] v[j])
}

/// `s` lists the distinct values of `ids`, in increasing order (what a
/// `BTreeSet` of them iterates).
pub open spec fn sorted_set_of(s: Seq<Seq<char>>, ids: Seq<String>) -> bool {
    &&& strictly_sorted(s)
    &&& forall|x: Seq<char>| s.contains(x) <==> has_id(ids, x)
}

/// There is one sorted listing of a set of ids.
pub proof fn lemma_sorted_set_unique(s1: Seq<Seq<char>>, s2: Seq<Seq<char>>)
    requires
        strictly_sorted(s1),
        strictly_sorted(s2),
        forall|x: Seq<char>| s1.contains(x) <==> s2.contains(x),
    ensures
        s1 == s2,
    decreases s1.len(),
{
    if s1.len() == 0 {
        if s2.len() > 0 {
            assert(s2.contains(s2[0]));
        }
        assert(s1 =~= s2);
    } else {
        assert(s1.contains(s1[0]));
        assert(s2.len() > 0);
        assert(s2.contains(s2[0]));
        let j = choose|j: int| 0 <= j < s2.len() && s2[j] == s1[0];
        let k = choose|k: int| 0 <= k < s1.len() && s1[k] == s2[0];
        if s1[0] != s2[0] {
            if j > 0 {
                assert(seq_lt(s2[0], s2[j]));
            }
            if k > 0 {
                assert(seq_lt(s1[0], s1[k]));
            }
            assert(j > 0 && k > 0);
            lemma_seq_lt_transitive(s1[0], s2[0], s1[0]);
            lemma_seq_lt_irreflexive(s1[0]);
        }
        let r1 = s1.drop_first();
        let r2 = s2.drop_first();
        assert forall|i: int, m: int| 0 <= i < m < r1.len() implies seq_lt(#[trigger] r1[i], #[trigger] r1[m]) by {
            assert(seq_lt(s1[i + 1], s1[m + 1]));
        }
        assert forall|i: int, m: int| 0 <= i < m < r2.len() implies seq_lt(#[trigger] r2[i], #[trigger] r2[m]) by {
            assert(seq_lt(s2[i + 1], s2[m + 1]));
        }
        assert forall|x: Seq<char>| r1.contains(x) <==> r2.contains(x) by {
            if r1.contains(x) {
                let i = choose|i: int| 0 <= i < r1.len() && r1[i] == x;
                assert(s1.contains(x));
                assert(seq_lt(s1[0], s1[i + 1]));
                lemma_seq_lt_irreflexive(x);
                let m = choose|m: int| 0 <= m < s2.len() && s2[m] == x;
                assert(m != 0);
                assert(r2[m - 1] == x);
            }
            if r2.contains(x) {
                let i = choose|i: int| 0 <= i < r2.len() && r2[i] == x;
                assert(s2.contains(x));
                assert(seq_lt(s2[0], s2[i + 1]));
                lemma_seq_lt_irreflexive(x);
                let m = choose|m: int| 0 <= m < s1.len() && s1[m] == x;
                assert(m != 0);
                assert(r1[m - 1] == x);
            }
        }
        lemma_sorted_set_unique(r1, r2);
        assert(s1 =~= seq![s1[0]] + r1);
        assert(s2 =~= seq![s2[0]] + r2);
    }
}

/// The distinct ids, in increasing order.
pub fn distinct_sorted(ids: &Vec<String>) -> (out: Vec<String>)
    ensures
        sorted_set_of(crate::chunk::views(out@), ids@),
{
    let mut out: Vec<String> = Vec::new();
    let n = ids.len();
    for i in 0..n
        invariant
            n == ids@.len(),
            strictly_sorted(crate::chunk::views(out@)),
            forall|x: Seq<char>| crate::chunk::views(out@).contains(x) <==> has_id(ids@.take(i as int), x),
    {
        let id = &ids[i];
        let ghost v = crate::chunk::views(out@);
        // first position whose id is not below `id`
        let mut pos: usize = 0;
        while pos < out.len() && str_lt(out[pos].as_str(), id.as_str())
            invariant
                pos <= out@.len(),
                v == crate::chunk::views(out@),
                forall|q: int| 0 <= q < pos ==> seq_lt(#[trigger] v[q], id@),
            decreases out@.len() - pos,
        {
            pos = pos + 1;
        }
        assert forall|x: Seq<char>| has_id(ids@.take(i + 1), x) <==> (has_id(ids@.take(i as int), x) || x == id@) by {
            if has_id(ids@.take(i + 1), x) {
                let k = choose|k: int| 0 <= k < i + 1 && #[trigger] ids@.take(i + 1)[k]@ == x;
                if k < i {
                    assert(ids@.take(i as int)[k] == ids@.take(i + 1)[k]);
                }
            }
            if has_id(ids@.take(i as int), x) {
                let k = choose|k: int| 0 <= k < i && #[trigger] ids@.take(i as int)[k]@ == x;
                assert(ids@.take(i + 1)[k] == ids@.take(i as int)[k]);
            }
            if x == id@ {
                assert(ids@.take(i + 1)[i as int] == *id);
            }
        }
        if pos < out.len() && out[pos] == *id {
            assert(v.contains(id@)) by {
                assert(v[pos as int] == id@);
            }
        } else {
            proof {
                if pos < v.len() {
                    lemma_seq_lt_total(v[pos as int], id@);
                }
            }
            out.insert(pos, id.clone());
            proof {
                let w = crate::chunk::views(out@);
                assert(w =~= v.insert(pos as int, id@));
                assert forall|a: int, b: int| 0 <= a < b < w.len() implies seq_lt(#[trigger] w[a], #[trigger] w[b]) by {
                    if b < pos {
                        assert(w[a] == v[a] && w[b] == v[b]);
                    } else if b == pos {
                        assert(w[a] == v[a]);
                    } else if a == pos {
                        assert(w[b] == v[b - 1]);
                        if b - 1 > pos {
                            assert(seq_lt(v[pos as int], v[b - 1]));
                            lemma_seq_lt_transitive(id@, v[pos as int], v[b - 1]);
                        }
                    } else if a < pos {
                        assert(w[a] == v[a] && w[b] == v[b - 1]);
                        assert(seq_lt(v[a], id@));
                        assert(seq_lt(id@, v[pos as int]) || b - 1 == pos);
                        if b - 1 > pos {
                            lemma_seq_lt_transitive(id@, v[pos as int], v[b - 1]);
                        }
                        lemma_seq_lt_transitive(v[a], id@, v[b - 1]);
                    } else {
                        assert(w[a] == v[a - 1] && w[b] == v[b - 1]);
                    }
                }
                assert forall|x: Seq<char>| w.contains(x) <==> (v.contains(x) || x == id@) by {
                    if w.contains(x) {
                        let k = choose|k: int| 0 <= k < w.len() && w[k] == x;
                        if k < pos {
                            assert(v[k] == x);
                        } else if k > pos {
                            assert(v[k - 1] == x);
                        }
                    }
                    if v.contains(x) {
                        let k = choose|k: int| 0 <= k < v.len() && v[k] == x;
                        if k < pos {
                            assert(w[k] == x);
                        } else {
                            assert(w[k + 1] == x);
                        }
                    }
                    if x == id@ {
                        assert(w[pos as int] == x);
                    }
                }
            }
        }
    }
    assert(ids@.take(n as int) =~= ids@);
    out
}

/// How many distinct ids there are.
pub fn distinct_count(ids: &Vec<String>) -> (n: usize)
    ensures
        n == ids@.map_values(|s: String| s@).to_set().len(),
{
    let out = distinct_sorted(ids);
    let ghost v = crate::chunk::views(out@);
    proof {
        assert(v.no_duplicates()) by {
            assert forall|i: int, j: int| 0 <= i < v.len() && 0 <= j < v.len() && i != j implies v[i] != v[j] by {
                if i < j {
                    assert(seq_lt(v[i], v[j]));
                } else {
                    assert(seq_lt(v[j], v[i]));
                }
                lemma_seq_lt_irreflexive(v[i]);
            }
        }
        v.unique_seq_to_set();
        let ids_v = ids@.map_values(|s: String| s@);
        assert(v.to_set() =~= ids_v.to_set()) by {
            assert forall|x: Seq<char>| v.to_set().contains(x) <==> ids_v.to_set().contains(x) by {
                if has_id(ids@, x) {
                    let k = choose|k: int| 0 <= k < ids@.len() && #[trigger] ids@[k]@ == x;
                    assert(ids_v[k] == x);
                }
                if ids_v.contains(x) {
                    let k = choose|k: int| 0 <= k < ids_v.len() && ids_v[k] == x;
                    assert(ids@[k]@ == x);
                }
            }
        }
    }
    out.len()
}

/// Text of the form `a, b, c`: the parts with `sep` between them.
pub open spec fn joined(parts: Seq<Seq<char>>, sep: Seq<char>) -> Seq<char>
    decreases parts.len(),
{
    if parts.len() == 0 {
        seq![]
    } else if parts.len() == 1 {
        parts[0]
    } else {
        joined(parts.drop_last(), sep) + sep + parts.last()
    }
}

/// The SQL predicate selecting rows of the given pages:
/// `page_id IN ('a', 'b')`, the distinct ids in increasing order, each quoted.
pub open spec fn page_in_predicate(sorted_ids: Seq<Seq<char>>) -> Seq<char> {
    "page_id IN ("@ + joined(sorted_ids.map_values(|s: Seq<char>| quoted(s)), ", "@) + ")"@
}

/// The SQL predicate selecting the rows of one page: `page_id = 'id'`.
pub open spec fn page_eq_predicate(id: Seq<char>) -> Seq<char> {
    "page_id = "@ + quoted(id)
}

/// The predicate that scopes an upsert's orphan cleanup to the pages it rewrites.
pub fn page_in_filter(page_ids: &Vec<String>) -> (f: String)
    ensures
        exists|s: Seq<Seq<char>>| sorted_set_of(s, page_ids@) && f@ == page_in_predicate(s),
{
    let sorted = distinct_sorted(page_ids);
    let ghost s = crate::chunk::views(sorted@);
    let ghost parts = s.map_values(|x: Seq<char>| quoted(x));
    let mut f = "page_id IN (".to_owned();
    let ghost start = f@;
    let n = sorted.len();
    for i in 0..n
        invariant
            n == sorted@.len(),
            s == crate::chunk::views(sorted@),
            parts == s.map_values(|x: Seq<char>| quoted(x)),
            f@ == start + joined(parts.take(i as int), ", "@),
    {
        assert(parts.take(i + 1).drop_last() =~= parts.take(i as int));
        assert(parts.take(i + 1).last() == quoted(sorted@[i as int]@));
        if i > 0 {
            f.append(", ");
        }
        let q = quote_literal(sorted[i].as_str());
        f.append(q.as_str());
        proof {
            if i == 0 {
                assert(parts.take(1)[0] == quoted(sorted@[0]@));
                assert(joined(parts.take(0), ", "@) =~= Seq::<char>::empty());
                assert(f@ =~= start + joined(parts.take(1), ", "@));
            } else {
                assert(f@ =~= start + joined(parts.take(i + 1), ", "@));
            }
        }
    }
    f.append(")");
    assert(parts.take(n as int) =~= parts);
    proof {
        assert(start == "page_id IN ("@);
        assert(f@ =~= page_in_predicate(s));
        assert(sorted_set_of(s, page_ids@));
    }
    f
}

/// The predicate selecting the rows of one page.
pub fn page_eq_filter(page_id: &str) -> (f: String)
    ensures
        f@ == page_eq_predicate(page_id@),
{
    let mut f = "page_id = ".to_owned();
    let q = quote_literal(page_id);
    f.append(q.as_str());
    f
}

/// The first row whose vector does not have the expected length, if any.
pub fn first_dimension_mismatch(lengths: &[usize], expected: usize) -> (r: Option<usize>)
    ensures
        match r {
            Some(i) => i < lengths@.len() && lengths@[i as int] != expected && forall|j: int|
                0 <= j < i ==> lengths@[j] == expected,
            None => forall|j: int| 0 <= j < lengths@.len() ==> lengths@[j] == expected,
        },
{
    for i in 0..lengths.len()
        invariant
            forall|j: int| 0 <= j < i ==> lengths@[j] == expected,
    {
        if lengths[i] != expected {
            return Some(i);
        }
    }
    None
}

} // verus!
