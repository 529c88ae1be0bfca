//! The computing steps of ingestion: chunking every document, the chunk-size
//! statistics that are logged, and the batches in which chunks are embedded.
use vstd::prelude::*;
use vstd::multiset::Multiset;

use crate::chunk::structure::{structure_chunks, StructureChunker};
use crate::chunk::{
    chunk_id_for, chunk_texts, is_chunk_of, lemma_chunk_id_injective, lemma_chunk_ids_distinct, Chunk,
    Chunker,
};
use crate::source::SourceDoc;

verus! {

broadcast use vstd::seq_lib::group_to_multiset_ensures;

/// How many chunks are embedded in one call.
pub const EMBED_BATCH: usize = 32;

/// `chunks` are, in order, the chunks of each document in turn.
pub open spec fn chunks_of_docs(chunks: Seq<Chunk>, docs: Seq<SourceDoc>, target: nat) -> bool
    decreases docs.len(),
{
    if docs.len() == 0 {
        chunks.len() == 0
    } else {
        let last = docs.last();
        let texts = structure_chunks(last.blocks@, target);
        let start = chunks.len() - texts.len();
        &&& chunks.len() >= texts.len()
        &&& forall|i: int|
            0 <= i < texts.len() ==> is_chunk_of(#[trigger] chunks[start + i], last, i as nat, texts[i])
        &&& chunks_of_docs(chunks.take(start), docs.drop_last(), target)
    }
}

/// The chunks of all documents, document by document.
pub fn chunk_documents(chunker: &StructureChunker, docs: &Vec<SourceDoc>) -> (chunks: Vec<Chunk>)
    ensures
        chunks_of_docs(chunks@, docs@, chunker.target()),
{
    let mut chunks: Vec<Chunk> = Vec::new();
    let n = docs.len();
    for d in 0..n
        invariant
            n == docs@.len(),
            chunks_of_docs(chunks@, docs@.take(d as int), chunker.target()),
    {
        let ghost before = chunks@;
        let mut doc_chunks = chunker.chunk(&docs[d]);
        let ghost mine = doc_chunks@;
        chunks.append(&mut doc_chunks);
        proof {
            let docs2 = docs@.take(d + 1);
            assert(docs2.drop_last() =~= docs@.take(d as int));
            assert(docs2.last() == docs@[d as int]);
            let texts = structure_chunks(docs@[d as int].blocks@, chunker.target());
            assert(chunk_texts(mine) == texts);
            assert(mine.len() == texts.len());
            assert(chunks@.take(before.len() as int) =~= before);
            assert forall|i: int| 0 <= i < texts.len() implies is_chunk_of(
                #[trigger] chunks@[before.len() + i],
                docs2.last(),
                i as nat,
                texts[i],
            ) by {
                assert(chunks@[before.len() + i] == mine[i]);
                assert(chunk_texts(mine)[i] == mine[i].text@);
            }
        }
    }
    assert(docs@.take(n as int) =~= docs@);
    chunks
}

/// A chunk's fields, as plain values.
pub open spec fn chunk_view(c: Chunk) -> (Seq<char>, Seq<char>, Seq<char>, Seq<char>, Seq<char>) {
    (c.chunk_id@, c.page_id@, c.title@, c.url@, c.text@)
}

/// The chunks' fields, as plain values.
pub open spec fn chunk_views(cs: Seq<Chunk>) -> Seq<(Seq<char>, Seq<char>, Seq<char>, Seq<char>, Seq<char>)> {
    cs.map_values(|c: Chunk| chunk_view(c))
}

/// Chunking is reproducible: the same documents give the same chunks, ids
/// included, so a re-run of ingestion rewrites the rows it wrote before.
pub proof fn lemma_chunking_reproducible(docs: Seq<SourceDoc>, target: nat, a: Seq<Chunk>, b: Seq<Chunk>)
    requires
        chunks_of_docs(a, docs, target),
        chunks_of_docs(b, docs, target),
    ensures
        chunk_views(a) == chunk_views(b),
    decreases docs.len(),
{
    if docs.len() == 0 {
        assert(chunk_views(a) =~= chunk_views(b));
    } else {
        let last = docs.last();
        let texts = structure_chunks(last.blocks@, target);
        let sa = a.len() - texts.len();
        let sb = b.len() - texts.len();
        lemma_chunking_reproducible(docs.drop_last(), target, a.take(sa), b.take(sb));
        assert(chunk_views(a.take(sa)).len() == sa);
        assert(chunk_views(b.take(sb)).len() == sb);
        assert forall|i: int| 0 <= i < a.len() implies #[trigger] chunk_views(a)[i] == chunk_views(b)[i] by {
            if i < sa {
                assert(chunk_views(a.take(sa))[i] == chunk_views(a)[i]);
                assert(chunk_views(b.take(sb))[i] == chunk_views(b)[i]);
            } else {
                assert(is_chunk_of(a[sa + (i - sa)], last, (i - sa) as nat, texts[i - sa]));
                assert(is_chunk_of(b[sb + (i - sa)], last, (i - sa) as nat, texts[i - sa]));
            }
        }
        assert(chunk_views(a) =~= chunk_views(b));
    }
}

/// `c` is one of the chunks of the document `d`.
pub open spec fn chunk_of_doc(c: Chunk, d: SourceDoc) -> bool {
    &&& c.page_id@ == d.page_id@
    &&& exists|o: nat| #[trigger] chunk_id_for(d.page_id@, o) == c.chunk_id@
}

/// `c` is one of the chunks of one of `docs`.
pub open spec fn chunk_of_docs(c: Chunk, docs: Seq<SourceDoc>) -> bool {
    exists|k: int| 0 <= k < docs.len() && #[trigger] chunk_of_doc(c, docs[k])
}

proof fn lemma_chunks_belong(chunks: Seq<Chunk>, docs: Seq<SourceDoc>, target: nat)
    requires
        chunks_of_docs(chunks, docs, target),
    ensures
        forall|i: int| 0 <= i < chunks.len() ==> chunk_of_docs(#[trigger] chunks[i], docs),
    decreases docs.len(),
{
    if docs.len() == 0 {
        assert(chunks.len() == 0);
    } else {
        let last = docs.last();
        let texts = structure_chunks(last.blocks@, target);
        let start = chunks.len() - texts.len();
        let prefix = chunks.take(start);
        lemma_chunks_belong(prefix, docs.drop_last(), target);
        assert forall|i: int| 0 <= i < chunks.len() implies chunk_of_docs(#[trigger] chunks[i], docs) by {
            if i < start {
                assert(prefix[i] == chunks[i]);
                assert(chunk_of_docs(prefix[i], docs.drop_last()));
                let k = choose|k: int| 0 <= k < docs.len() - 1 && #[trigger] chunk_of_doc(prefix[i], docs.drop_last()[k]);
                assert(docs.drop_last()[k] == docs[k]);
                assert(chunk_of_doc(chunks[i], docs[k]));
            } else {
                let o = (i - start) as nat;
                assert(is_chunk_of(chunks[start + o], last, o, texts[o as int]));
                assert(chunk_id_for(last.page_id@, o) == chunks[i].chunk_id@);
                assert(chunk_of_doc(chunks[i], docs[docs.len() - 1]));
            }
        }
    }
}

/// When the documents' page ids are distinct, so are the ids of all the
/// chunks of an ingestion: the key on which the store merges rows never
/// repeats within one batch.
pub proof fn lemma_ingest_chunk_ids_unique(chunks: Seq<Chunk>, docs: Seq<SourceDoc>, target: nat)
    requires
        chunks_of_docs(chunks, docs, target),
        forall|a: int, b: int|
            0 <= a < docs.len() && 0 <= b < docs.len() && a != b ==> #[trigger] docs[a].page_id@
                != #[trigger] docs[b].page_id@,
    ensures
        forall|i: int, j: int|
            0 <= i < chunks.len() && 0 <= j < chunks.len() && i != j ==> #[trigger] chunks[i].chunk_id@
                != #[trigger] chunks[j].chunk_id@,
    decreases docs.len(),
{
    if docs.len() > 0 {
        let n = docs.len() - 1;
        let last = docs.last();
        let texts = structure_chunks(last.blocks@, target);
        let start = chunks.len() - texts.len();
        let prefix = chunks.take(start);
        let rest = docs.drop_last();
        assert forall|a: int, b: int|
            0 <= a < rest.len() && 0 <= b < rest.len() && a != b implies #[trigger] rest[a].page_id@
            != #[trigger] rest[b].page_id@ by {
            assert(rest[a] == docs[a] && rest[b] == docs[b]);
        }
        lemma_ingest_chunk_ids_unique(prefix, rest, target);
        lemma_chunks_belong(prefix, rest, target);
        // A chunk of an earlier document never takes the id of a chunk of the last one.
        assert forall|i: int, j: int| 0 <= i < start && start <= j < chunks.len() implies #[trigger] chunks[i].chunk_id@
            != #[trigger] chunks[j].chunk_id@ by {
            assert(prefix[i] == chunks[i]);
            assert(chunk_of_docs(prefix[i], rest));
            let k = choose|k: int| 0 <= k < rest.len() && #[trigger] chunk_of_doc(prefix[i], rest[k]);
            let o = choose|o: nat| #[trigger] chunk_id_for(rest[k].page_id@, o) == prefix[i].chunk_id@;
            let oj = (j - start) as nat;
            assert(is_chunk_of(chunks[start + oj], last, oj, texts[oj as int]));
            if chunks[i].chunk_id@ == chunks[j].chunk_id@ {
                lemma_chunk_id_injective(rest[k].page_id@, o, last.page_id@, oj);
                assert(rest[k] == docs[k]);
                assert(docs[k].page_id@ != docs[n].page_id@);
            }
        }
        assert forall|i: int, j: int|
            0 <= i < chunks.len() && 0 <= j < chunks.len() && i != j implies #[trigger] chunks[i].chunk_id@
            != #[trigger] chunks[j].chunk_id@ by {
            if i < start && j < start {
                assert(prefix[i] == chunks[i] && prefix[j] == chunks[j]);
            } else if start <= i && start <= j {
                let oi = (i - start) as nat;
                let oj = (j - start) as nat;
                assert(is_chunk_of(chunks[start + oi], last, oi, texts[oi as int]));
                assert(is_chunk_of(chunks[start + oj], last, oj, texts[oj as int]));
                lemma_chunk_ids_distinct(last.page_id@, oi, oj);
            } else if i < start {
                assert(chunks[i].chunk_id@ != chunks[j].chunk_id@);
            } else {
                assert(chunks[j].chunk_id@ != chunks[i].chunk_id@);
            }
        }
    }
}

/// Non-decreasing.
pub open spec fn sorted_counts(s: Seq<usize>) -> bool {
    forall|i: int, j: int| 0 <= i <= j < s.len() ==> s[i] <= s[j]
}

/// The character counts of the chunks' texts.
pub open spec fn char_counts(chunks: Seq<Chunk>) -> Seq<usize> {
    chunks.map_values(|c: Chunk| c.text@.len() as usize)
}

/// The smallest, median and largest character count of the chunks
/// (`(0, 0, 0)` when there are none); the median is the middle element of
/// the sorted counts, the upper one for an even count.
pub fn chunk_char_stats(chunks: &[Chunk]) -> (stats: (usize, usize, usize))
    ensures
        chunks@.len() == 0 ==> stats == (0usize, 0usize, 0usize),
        chunks@.len() > 0 ==> exists|s: Seq<usize>|
            sorted_counts(s) && s.to_multiset() == char_counts(chunks@).to_multiset() && stats == (
                s[0],
                s[(s.len() / 2) as int],
                s[s.len() - 1],
            ),
{
    if chunks.len() == 0 {
        return (0, 0, 0);
    }
    let ghost counts = char_counts(chunks@);
    let mut lens: Vec<usize> = Vec::new();
    let n = chunks.len();
    for i in 0..n
        invariant
            n == chunks@.len(),
            counts == char_counts(chunks@),
            sorted_counts(lens@),
            lens@.to_multiset() == counts.take(i as int).to_multiset(),
            lens@.len() == i,
    {
        let c = chunks[i].text.as_str().unicode_len();
        assert(c == counts[i as int]);
        let mut pos: usize = 0;
        while pos < lens.len() && lens[pos] <= c
            invariant
                pos <= lens@.len(),
                forall|q: int| 0 <= q < pos ==> lens@[q] <= c,
            decreases lens@.len() - pos,
        {
            pos = pos + 1;
        }
        let ghost before = lens@;
        lens.insert(pos, c);
        proof {
            assert(lens@ == before.insert(pos as int, c));
            assert forall|a: int, b: int| 0 <= a <= b < lens@.len() implies lens@[a] <= lens@[b] by {
                if a < pos && b < pos {
                    assert(lens@[a] == before[a] && lens@[b] == before[b]);
                } else if a < pos && b == pos {
                    assert(lens@[a] == before[a]);
                } else if a < pos {
                    assert(lens@[a] == before[a] && lens@[b] == before[b - 1]);
                    assert(before[a] <= c);
                    assert(pos < before.len() ==> before[pos as int] > c);
                    assert(before[pos as int] <= before[b - 1]);
                } else if a == pos && b > pos {
                    assert(lens@[b] == before[b - 1]);
                    assert(before[pos as int] > c);
                    assert(before[pos as int] <= before[b - 1]);
                } else if a > pos {
                    assert(lens@[a] == before[a - 1] && lens@[b] == before[b - 1]);
                }
            }
            assert(counts.take(i + 1) =~= counts.take(i as int).push(c));
        }
    }
    assert(counts.take(n as int) =~= counts);
    let m = lens.len() / 2;
    (lens[0], lens[m], lens[lens.len() - 1])
}

/// The start and end (exclusive) of each embedding batch over `n` chunks:
/// consecutive runs of `EMBED_BATCH`, the last one possibly shorter.
pub fn embed_batches(n: usize) -> (batches: Vec<(usize, usize)>)
    ensures
        forall|b: int|
            0 <= b < batches@.len() ==> {
                &&& (#[trigger] batches@[b]).0 == b * EMBED_BATCH
                &&& batches@[b].0 < batches@[b].1 <= n
                &&& batches@[b].1 - batches@[b].0 <= EMBED_BATCH
                &&& (b < batches@.len() - 1 ==> batches@[b].1 == batches@[b].0 + EMBED_BATCH)
            },
        batches@.len() == 0 <==> n == 0,
        batches@.len() > 0 ==> batches@.last().1 == n,
{
    let mut batches: Vec<(usize, usize)> = Vec::new();
    let mut start: usize = 0;
    while start < n
        invariant
            start <= n,
            start < n ==> start == batches@.len() * EMBED_BATCH,
            batches@.len() == 0 ==> start == 0,
            forall|b: int|
                0 <= b < batches@.len() ==> {
                    &&& (#[trigger] batches@[b]).0 == b * EMBED_BATCH
                    &&& batches@[b].0 < batches@[b].1 <= n
                    &&& batches@[b].1 - batches@[b].0 <= EMBED_BATCH
                    &&& (b < batches@.len() - 1 ==> batches@[b].1 == batches@[b].0 + EMBED_BATCH)
                },
            batches@.len() > 0 ==> batches@.last().1 == start,
        decreases n - start,
    {
        let end = if n - start > EMBED_BATCH {
            start + EMBED_BATCH
        } else {
            n
        };
        let ghost before = batches@;
        batches.push((start, end));
        assert forall|b: int| 0 <= b < batches@.len() - 1 implies (#[trigger] batches@[b]).1 == batches@[b].0 + EMBED_BATCH by {
            assert(batches@[b] == before[b]);
            if b == before.len() - 1 {
                assert(before.last().1 == start);
            }
        }
        assert((batches@.len() as int) * EMBED_BATCH == before.len() * EMBED_BATCH + EMBED_BATCH) by (nonlinear_arith)
            requires
                batches@.len() == before.len() + 1,
        ;
        start = end;
    }
    batches
}

} // verus!
