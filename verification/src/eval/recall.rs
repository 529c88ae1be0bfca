//! Recall@k: whether a relevant chunk was retrieved for each gold question.
use vstd::prelude::*;

use super::GoldEntry;
use crate::retrieve::RetrievalMode;
use crate::store::Hit;
use crate::text::{chars_contain, chars_of, lowercase, occurs_in, to_lowercase};

verus! {

/// How one question fared.
#[derive(Debug, Clone, Copy, PartialEq, Eq, Structural)]
pub enum HitOutcome {
    /// A hit from a relevant page (holding the answer span, when there is one).
    Hit,
    /// No hit from a relevant page.
    PageMiss,
    /// Hits from a relevant page, none holding the answer span.
    SpanMiss,
}

/// One question's result.
pub struct QueryOutcome {
    pub query: String,
    pub outcome: HitOutcome,
    pub top_hits: Vec<Hit>,
    /// The entry had no answer span, so page-level relevance decided.
    pub used_loose_rule: bool,
}

/// One retrieval mode's results over the gold set.
pub struct ModeResult {
    pub mode: RetrievalMode,
    pub total: usize,
    pub hits: usize,
    pub per_query: Vec<QueryOutcome>,
}

/// `page` is one of the entry's relevant pages.
pub open spec fn is_relevant(entry: GoldEntry, page: Seq<char>) -> bool {
    exists|i: int| 0 <= i < entry.relevant_page_ids@.len() && #[trigger] entry.relevant_page_ids@[i]@ == page
}

/// Some hit comes from a relevant page.
pub open spec fn page_found(entry: GoldEntry, hits: Seq<Hit>) -> bool {
    exists|i: int| 0 <= i < hits.len() && is_relevant(entry, #[trigger] hits[i].page_id@)
}

/// Some hit from a relevant page holds `span` in its text, both compared
/// after case folding (`folded_texts[i]` is the folded text of `hits[i]`).
pub open spec fn span_found(
    entry: GoldEntry,
    hits: Seq<Hit>,
    folded_span: Seq<char>,
    folded_texts: Seq<Seq<char>>,
) -> bool {
    exists|i: int|
        0 <= i < hits.len() && is_relevant(entry, #[trigger] hits[i].page_id@) && occurs_in(
            folded_span,
            folded_texts[i],
        )
}

/// The outcome of a question, given the case-folded span (when the entry has
/// one) and the case-folded hit texts.
pub open spec fn outcome_of(
    entry: GoldEntry,
    hits: Seq<Hit>,
    folded_span: Option<Seq<char>>,
    folded_texts: Seq<Seq<char>>,
) -> HitOutcome {
    match folded_span {
        Some(span) => if span_found(entry, hits, span, folded_texts) {
            HitOutcome::Hit
        } else if page_found(entry, hits) {
            HitOutcome::SpanMiss
        } else {
            HitOutcome::PageMiss
        },
        None => if page_found(entry, hits) {
            HitOutcome::Hit
        } else {
            HitOutcome::PageMiss
        },
    }
}

/// The case-folded texts of the hits.
pub open spec fn folded_texts(hits: Seq<Hit>) -> Seq<Seq<char>> {
    hits.map_values(|h: Hit| lowercase(h.text@))
}

/// The case-folded answer span, when there is one.
pub open spec fn folded_span(entry: GoldEntry) -> Option<Seq<char>> {
    match entry.answer_span {
        Some(s) => Some(lowercase(s@)),
        None => None,
    }
}

/// Some hit comes from a page listed in the entry.
pub open spec fn listed_hit(entry: GoldEntry, hits: Seq<Hit>) -> bool {
    exists|i: int, j: int|
        0 <= i < hits.len() && 0 <= j < entry.relevant_page_ids@.len()
            && #[trigger] entry.relevant_page_ids@[j]@ == #[trigger] hits[i].page_id@
}

/// Some hit comes from a page listed in the entry and holds `span` in its
/// text, both compared in lowercase.
pub open spec fn listed_hit_with(entry: GoldEntry, hits: Seq<Hit>, span: Seq<char>) -> bool {
    exists|i: int, j: int|
        0 <= i < hits.len() && 0 <= j < entry.relevant_page_ids@.len()
            && #[trigger] entry.relevant_page_ids@[j]@ == #[trigger] hits[i].page_id@ && occurs_in(
            lowercase(span),
            lowercase(hits[i].text@),
        )
}

/// How a question fares, in terms of the hits themselves: with an answer
/// span, a hit from a listed page whose lowercased text holds the
/// lowercased span is a `Hit`; failing that, a hit from a listed page is a
/// `SpanMiss`; otherwise a `PageMiss`. Without a span a hit from a listed
/// page is a `Hit`. Both the span and each hit's text are lowercased.
pub proof fn lemma_evaluate_outcome(entry: GoldEntry, hits: Seq<Hit>)
    ensures
        outcome_of(entry, hits, folded_span(entry), folded_texts(hits)) == match entry.answer_span {
            Some(sp) => if listed_hit_with(entry, hits, sp@) {
                HitOutcome::Hit
            } else if listed_hit(entry, hits) {
                HitOutcome::SpanMiss
            } else {
                HitOutcome::PageMiss
            },
            None => if listed_hit(entry, hits) {
                HitOutcome::Hit
            } else {
                HitOutcome::PageMiss
            },
        },
{
    assert(page_found(entry, hits) == listed_hit(entry, hits)) by {
        if page_found(entry, hits) {
            let i = choose|i: int| 0 <= i < hits.len() && is_relevant(entry, #[trigger] hits[i].page_id@);
            let j = choose|j: int|
                0 <= j < entry.relevant_page_ids@.len() && #[trigger] entry.relevant_page_ids@[j]@
                    == hits[i].page_id@;
            assert(entry.relevant_page_ids@[j]@ == hits[i].page_id@);
        }
        if listed_hit(entry, hits) {
            let (i, j) = choose|i: int, j: int|
                0 <= i < hits.len() && 0 <= j < entry.relevant_page_ids@.len()
                    && #[trigger] entry.relevant_page_ids@[j]@ == #[trigger] hits[i].page_id@;
            assert(is_relevant(entry, hits[i].page_id@));
        }
    }
    if let Some(sp) = entry.answer_span {
        let ft = folded_texts(hits);
        assert(span_found(entry, hits, lowercase(sp@), ft) == listed_hit_with(entry, hits, sp@)) by {
            if span_found(entry, hits, lowercase(sp@), ft) {
                let i = choose|i: int|
                    0 <= i < hits.len() && is_relevant(entry, #[trigger] hits[i].page_id@) && occurs_in(
                        lowercase(sp@),
                        ft[i],
                    );
                let j = choose|j: int|
                    0 <= j < entry.relevant_page_ids@.len() && #[trigger] entry.relevant_page_ids@[j]@
                        == hits[i].page_id@;
                assert(ft[i] == lowercase(hits[i].text@));
                assert(entry.relevant_page_ids@[j]@ == hits[i].page_id@);
            }
            if listed_hit_with(entry, hits, sp@) {
                let (i, j) = choose|i: int, j: int|
                    0 <= i < hits.len() && 0 <= j < entry.relevant_page_ids@.len()
                        && #[trigger] entry.relevant_page_ids@[j]@ == #[trigger] hits[i].page_id@
                        && occurs_in(lowercase(sp@), lowercase(hits[i].text@));
                assert(ft[i] == lowercase(hits[i].text@));
                assert(is_relevant(entry, hits[i].page_id@));
            }
        }
    }
}

fn relevant(entry: &GoldEntry, page: &String) -> (r: bool)
    ensures
        r == is_relevant(*entry, page@),
{
    let n = entry.relevant_page_ids.len();
    for i in 0..n
        invariant
            n == entry.relevant_page_ids@.len(),
            forall|j: int| 0 <= j < i ==> #[trigger] entry.relevant_page_ids@[j]@ != page@,
    {
        if entry.relevant_page_ids[i] == *page {
            return true;
        }
    }
    false
}

/// The outcome of a question, given the case-folded span and hit texts.
pub fn outcome_for(
    entry: &GoldEntry,
    hits: &[Hit],
    folded_span: Option<&str>,
    folded_texts: &Vec<String>,
) -> (r: HitOutcome)
    requires
        folded_texts@.len() == hits@.len(),
    ensures
        r == outcome_of(
            *entry,
            hits@,
            match folded_span {
                Some(s) => Some(s@),
                None => None,
            },
            folded_texts@.map_values(|t: String| t@),
        ),
{
    let n = hits.len();
    let ghost texts = folded_texts@.map_values(|t: String| t@);
    let mut found_page = false;
    let mut found_span = false;
    let span_chars: Vec<char> = match folded_span {
        Some(s) => chars_of(s),
        None => Vec::new(),
    };
    for i in 0..n
        invariant
            n == hits@.len(),
            folded_texts@.len() == n,
            texts == folded_texts@.map_values(|t: String| t@),
            folded_span is Some ==> span_chars@ == folded_span.unwrap()@,
            found_page == exists|j: int| 0 <= j < i && is_relevant(*entry, #[trigger] hits@[j].page_id@),
            found_span == exists|j: int|
                0 <= j < i && is_relevant(*entry, #[trigger] hits@[j].page_id@) && occurs_in(
                    span_chars@,
                    texts[j],
                ),
    {
        if relevant(entry, &hits[i].page_id) {
            found_page = true;
            let text_chars = chars_of(folded_texts[i].as_str());
            assert(texts[i as int] == folded_texts@[i as int]@);
            if chars_contain(&text_chars, &span_chars) {
                found_span = true;
            }
        }
    }
    match folded_span {
        Some(_) => if found_span {
            HitOutcome::Hit
        } else if found_page {
            HitOutcome::SpanMiss
        } else {
            HitOutcome::PageMiss
        },
        None => if found_page {
            HitOutcome::Hit
        } else {
            HitOutcome::PageMiss
        },
    }
}

/// How a question fared, given its retrieved hits: with an answer span, a
/// hit needs a relevant page and the span in its text (case-insensitively);
/// without one, a relevant page suffices.
pub fn evaluate(entry: &GoldEntry, hits: &[Hit]) -> (r: HitOutcome)
    ensures
        r == outcome_of(*entry, hits@, folded_span(*entry), folded_texts(hits@)),
{
    let mut texts: Vec<String> = Vec::new();
    for i in 0..hits.len()
        invariant
            texts@.map_values(|t: String| t@) == folded_texts(hits@.take(i as int)),
    {
        let t = to_lowercase(hits[i].text.as_str());
        let ghost before = texts@;
        texts.push(t);
        assert(texts@.map_values(|t: String| t@) =~= before.map_values(|t: String| t@).push(t@));
        assert(hits@.take(i + 1) =~= hits@.take(i as int).push(hits@[i as int]));
        assert(texts@.map_values(|t: String| t@) =~= folded_texts(hits@.take(i + 1)));
    }
    assert(hits@.take(hits@.len() as int) =~= hits@);
    match &entry.answer_span {
        Some(span) => {
            let folded = to_lowercase(span.as_str());
            outcome_for(entry, hits, Some(folded.as_str()), &texts)
        },
        None => outcome_for(entry, hits, None, &texts),
    }
}

/// How many of the outcomes are `target`.
pub open spec fn count_outcomes(qs: Seq<QueryOutcome>, target: HitOutcome) -> nat
    decreases qs.len(),
{
    if qs.len() == 0 {
        0
    } else {
        count_outcomes(qs.drop_last(), target) + if qs.last().outcome == target {
            1nat
        } else {
            0nat
        }
    }
}

proof fn lemma_count_bounded(qs: Seq<QueryOutcome>, target: HitOutcome)
    ensures
        count_outcomes(qs, target) <= qs.len(),
    decreases qs.len(),
{
    if qs.len() > 0 {
        lemma_count_bounded(qs.drop_last(), target);
    }
}

impl ModeResult {
    /// A result for `mode` over `total` questions, none recorded yet.
    pub fn start(mode: RetrievalMode, total: usize) -> (r: ModeResult)
        ensures
            r.mode == mode,
            r.total == total,
            r.hits == 0,
            r.per_query@.len() == 0,
    {
        ModeResult { mode, total, hits: 0, per_query: Vec::new() }
    }

    /// `hits` counts the questions whose outcome is a hit.
    pub open spec fn hits_counted(&self) -> bool {
        self.hits == count_outcomes(self.per_query@, HitOutcome::Hit)
    }

    /// Records one question and the hits retrieved for it.
    pub fn record(&mut self, entry: &GoldEntry, top_hits: Vec<Hit>)
        requires
            old(self).hits_counted(),
        ensures
            final(self).hits_counted(),
            final(self).mode == old(self).mode,
            final(self).total == old(self).total,
            final(self).per_query@.len() == old(self).per_query@.len() + 1,
            forall|i: int|
                0 <= i < old(self).per_query@.len() ==> #[trigger] final(self).per_query@[i]
                    == old(self).per_query@[i],
            ({
                let q = final(self).per_query@.last();
                &&& q.query@ == entry.q@
                &&& q.outcome == outcome_of(*entry, top_hits@, folded_span(*entry), folded_texts(top_hits@))
                &&& q.top_hits@ == top_hits@
                &&& q.used_loose_rule == (entry.answer_span is None)
            }),
    {
        let outcome = evaluate(entry, top_hits.as_slice());
        let q = QueryOutcome {
            query: entry.q.clone(),
            outcome,
            top_hits,
            used_loose_rule: entry.answer_span.is_none(),
        };
        let ghost before = self.per_query@;
        self.per_query.push(q);
        assert(self.per_query@.drop_last() =~= before);
        let len = self.per_query.len();
        proof {
            lemma_count_bounded(before, HitOutcome::Hit);
        }
        if outcome == HitOutcome::Hit {
            self.hits = self.hits + 1;
        }
    }

    /// How many questions had the `target` outcome.
    pub fn count(&self, target: HitOutcome) -> (n: usize)
        ensures
            n == count_outcomes(self.per_query@, target),
    {
        let mut n: usize = 0;
        let len = self.per_query.len();
        for i in 0..len
            invariant
                len == self.per_query@.len(),
                n == count_outcomes(self.per_query@.take(i as int), target),
                n <= i,
        {
            assert(self.per_query@.take(i + 1).drop_last() =~= self.per_query@.take(i as int));
            if self.per_query[i].outcome == target {
                n = n + 1;
            }
        }
        assert(self.per_query@.take(len as int) =~= self.per_query@);
        n
    }
}

} // verus!
