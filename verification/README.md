# rag_personal

Retrieval over personal Notion notes: crawl a Notion workspace, chunk each
page, index the chunks lexically (BM25) and densely (embeddings), and answer
queries by fusing both rankings with reciprocal rank fusion.

## Layout

- `src/` is the verified library (Verus). It holds the logic:
  - `source/`: Notion's API shapes, block-to-text conversion, and the crawl
    as a state machine (`Crawl`) that says which request to make next;
  - `chunk/`: token estimates, hard splitting and the structure-aware packer;
  - `retrieve/`: retrieval modes and `rrf_fuse`;
  - `store.rs`: hits, SQL predicates over page ids, the dimension check;
  - `eval/`: gold-set lines and Recall@k bookkeeping;
  - `pipeline.rs`, `config.rs`, `mcp.rs`, `embed.rs`, `text.rs`: the rest.
  Each public function states its result in its `ensures`; the laws of the
  chunker, the crawl, fusion and ingestion are proof functions next to them.
- `app/` is the program around it: HTTP, the on-disk indexes, the embedding
  model, the MCP server and the command line.
- `tests/` runs the library on concrete values.

Scores are fixed point (`SCORE_SCALE` units) so that fusion can be verified
exactly: each reciprocal-rank contribution is rounded down to the scale, and
hits are ranked by the summed fixed-point score, ties broken by chunk id.
Two different rank patterns whose exact sums are equal (ranks 12 and 30
against 20 and 20, say) can round to scores one unit apart and are then
ranked by score rather than by chunk id.

Collections: fusion merges hits by chunk id in a vector with a linear search,
and the distinct page ids of a batch are kept in a sorted vector, where a
`HashMap<String, _>` and a `BTreeSet<&str>` would be usual. Verus's
specifications of `HashMap` and `BTreeSet` speak of a key only for key types
that are known to obey their hashing or ordering model (integers, `bool` and
the like); for `String` keys nothing about lookups or membership can be
proved without an assumption, so the vector forms are used, with their
order and uniqueness stated and proved.
