use rag_personal::chunk::structure::StructureChunker;
use rag_personal::chunk::Chunk;
use rag_personal::pipeline::{chunk_char_stats, chunk_documents, embed_batches, EMBED_BATCH};
use rag_personal::source::{BlockKind, SourceDoc, TextBlock};

fn chunk(text: &str) -> Chunk {
    Chunk {
        chunk_id: "p#0".to_string(),
        page_id: "p".to_string(),
        title: "t".to_string(),
        url: "u".to_string(),
        text: text.to_string(),
    }
}

fn doc(id: &str, texts: &[&str]) -> SourceDoc {
    SourceDoc {
        page_id: id.to_string(),
        title: format!("title {id}"),
        url: format!("https://notion.so/{id}"),
        blocks: texts
            .iter()
            .map(|t| TextBlock {
                heading_path: vec![],
                text: t.to_string(),
                kind: BlockKind::Heading(1),
            })
            .collect(),
    }
}

#[test]
fn char_stats_are_min_median_max() {
    assert_eq!(chunk_char_stats(&[]), (0, 0, 0));
    let chunks = vec![chunk("aaaa"), chunk("a"), chunk("中文字"), chunk("aa")];
    // counts 4, 1, 3, 2 → sorted 1, 2, 3, 4 → median is the upper middle
    assert_eq!(chunk_char_stats(&chunks), (1, 3, 4));
    assert_eq!(chunk_char_stats(&[chunk("xyz")]), (3, 3, 3));
}

#[test]
fn batches_cover_all_chunks() {
    assert!(embed_batches(0).is_empty());
    assert_eq!(embed_batches(5), vec![(0, 5)]);
    assert_eq!(
        embed_batches(2 * EMBED_BATCH + 1),
        vec![(0, 32), (32, 64), (64, 65)]
    );
    assert_eq!(embed_batches(EMBED_BATCH), vec![(0, 32)]);
}

#[test]
fn documents_are_chunked_in_order() {
    let docs = vec![doc("a", &["A1", "A2"]), doc("b", &[]), doc("c", &["C1"])];
    let chunks = chunk_documents(&StructureChunker::new(384), &docs);
    let ids: Vec<&str> = chunks.iter().map(|c| c.chunk_id.as_str()).collect();
    assert_eq!(ids, vec!["a#0", "a#1", "c#0"]);
    assert_eq!(chunks[1].text, "A2");
    assert_eq!(chunks[2].url, "https://notion.so/c");
}

#[test]
fn chunk_ids_are_unique_across_documents() {
    let docs = vec![doc("a", &["x", "y"]), doc("a#1", &["z"]), doc("b", &["w"])];
    let chunks = chunk_documents(&StructureChunker::new(384), &docs);
    let mut ids: Vec<&str> = chunks.iter().map(|c| c.chunk_id.as_str()).collect();
    assert_eq!(ids, vec!["a#0", "a#1", "a#1#0", "b#0"]);
    ids.sort();
    ids.dedup();
    assert_eq!(ids.len(), 4);
}

#[test]
fn chunking_is_reproducible() {
    let docs = vec![doc("a", &["x", "y"]), doc("b", &["w"])];
    let chunker = StructureChunker::new(1);
    let first = chunk_documents(&chunker, &docs);
    let second = chunk_documents(&chunker, &docs);
    let view = |v: &Vec<Chunk>| {
        v.iter()
            .map(|c| (c.chunk_id.clone(), c.text.clone()))
            .collect::<Vec<_>>()
    };
    assert_eq!(view(&first), view(&second));
}
