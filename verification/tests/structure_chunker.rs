use rag_personal::chunk::chunk_builder::approx_tokens;
use rag_personal::chunk::structure::StructureChunker;
use rag_personal::chunk::Chunker;
use rag_personal::source::{BlockKind, SourceDoc, TextBlock};

fn doc(blocks: Vec<TextBlock>) -> SourceDoc {
    SourceDoc {
        page_id: "page-1".to_string(),
        title: "Test Page".to_string(),
        url: "https://notion.so/page-1".to_string(),
        blocks,
    }
}

fn paragraph(text: &str) -> TextBlock {
    TextBlock {
        heading_path: vec![],
        text: text.to_string(),
        kind: BlockKind::Paragraph,
    }
}

fn heading(level: u8, text: &str) -> TextBlock {
    TextBlock {
        heading_path: vec![],
        text: text.to_string(),
        kind: BlockKind::Heading(level),
    }
}

fn code(text: &str) -> TextBlock {
    TextBlock {
        heading_path: vec![],
        text: text.to_string(),
        kind: BlockKind::Code,
    }
}

#[test]
fn single_paragraph_produces_one_chunk() {
    let d = doc(vec![paragraph("hello world")]);
    let chunks = StructureChunker::new(384).chunk(&d);

    assert_eq!(chunks.len(), 1);
    assert_eq!(chunks[0].chunk_id, "page-1#0");
    assert_eq!(chunks[0].page_id, "page-1");
    assert_eq!(chunks[0].title, "Test Page");
    assert_eq!(chunks[0].url, "https://notion.so/page-1");
    assert_eq!(chunks[0].text, "hello world");
}

#[test]
fn multiple_paragraphs_split_when_target_exceeded() {
    // 30 characters are 8 tokens; two of them together exceed a target of 10.
    let d = doc(vec![
        paragraph(&"a".repeat(30)),
        paragraph(&"b".repeat(30)),
        paragraph(&"c".repeat(30)),
    ]);
    let chunks = StructureChunker::new(10).chunk(&d);

    assert_eq!(chunks.len(), 3);
    for (i, c) in chunks.iter().enumerate() {
        assert_eq!(c.chunk_id, format!("page-1#{i}"));
    }
}

#[test]
fn heading_forces_flush() {
    // Plenty of room: only the heading triggers the split.
    let d = doc(vec![
        paragraph("intro para"),
        heading(2, "Section A"),
        paragraph("section body"),
    ]);
    let chunks = StructureChunker::new(384).chunk(&d);

    assert_eq!(chunks.len(), 2);
    assert_eq!(chunks[0].text, "intro para");
    assert_eq!(chunks[1].text, "Section A\nsection body");
}

#[test]
fn no_overlap_between_chunks() {
    // An overflow flush between the two paragraphs: the a's and b's land in
    // different chunks with no carry-over.
    let d = doc(vec![paragraph(&"a".repeat(30)), paragraph(&"b".repeat(30))]);
    let chunks = StructureChunker::new(10).chunk(&d);

    assert_eq!(chunks.len(), 2);
    assert!(chunks[0].text.chars().all(|c| c == 'a'));
    assert!(chunks[1].text.chars().all(|c| c == 'b'));
}

#[test]
fn cjk_text_preserves_utf8() {
    // 6 chars x 20 = 120 CJK chars, about 40 tokens; target 10 tokens cuts
    // every 30 characters.
    let cjk = "中文測試文字".repeat(20);
    let d = doc(vec![paragraph(&cjk)]);
    let chunks = StructureChunker::new(10).chunk(&d);

    assert!(chunks.len() > 1, "expected hard-split");
    let joined: String = chunks.iter().map(|c| c.text.as_str()).collect();
    assert_eq!(joined, cjk, "hard_split must not lose or garble CJK chars");
}

#[test]
fn oversized_paragraph_is_hard_split() {
    let big = "x".repeat(150); // about 38 Latin tokens, target 10
    let d = doc(vec![paragraph(&big)]);
    let chunks = StructureChunker::new(10).chunk(&d);

    assert!(chunks.len() > 1);
    let joined: String = chunks.iter().map(|c| c.text.as_str()).collect();
    assert_eq!(joined, big);
}

#[test]
fn oversized_code_block_emitted_whole() {
    let big = "fn main() {}\n".repeat(50);
    let d = doc(vec![code(&big)]);
    let chunks = StructureChunker::new(10).chunk(&d);

    assert_eq!(chunks.len(), 1, "code block must not be split");
    assert_eq!(chunks[0].text, big);
}

#[test]
fn cjk_pieces_are_thirty_characters() {
    let cjk = "中文測試文字".repeat(20);
    let d = doc(vec![paragraph(&cjk)]);
    let chunks = StructureChunker::new(10).chunk(&d);
    assert_eq!(chunks.len(), 4);
    for c in &chunks {
        assert_eq!(c.text.chars().count(), 30);
    }
}

#[test]
fn latin_pieces_are_forty_characters() {
    let big = "x".repeat(150);
    let d = doc(vec![paragraph(&big)]);
    let chunks = StructureChunker::new(10).chunk(&d);
    let lens: Vec<usize> = chunks.iter().map(|c| c.text.chars().count()).collect();
    assert_eq!(lens, vec![40, 40, 40, 30]);
    let ids: Vec<&str> = chunks.iter().map(|c| c.chunk_id.as_str()).collect();
    assert_eq!(ids, vec!["page-1#0", "page-1#1", "page-1#2", "page-1#3"]);
}

#[test]
fn oversized_block_flushes_pending_buffer_first() {
    let d = doc(vec![paragraph("short"), paragraph(&"y".repeat(60))]);
    let chunks = StructureChunker::new(10).chunk(&d);
    let texts: Vec<&str> = chunks.iter().map(|c| c.text.as_str()).collect();
    assert_eq!(texts, vec!["short", &"y".repeat(40)[..], &"y".repeat(20)[..]]);
}

#[test]
fn small_blocks_are_joined_with_newlines() {
    let d = doc(vec![paragraph("one"), paragraph("two"), code("three")]);
    let chunks = StructureChunker::new(384).chunk(&d);
    assert_eq!(chunks.len(), 1);
    assert_eq!(chunks[0].text, "one\ntwo\nthree");
}

#[test]
fn empty_document_has_no_chunks() {
    let d = doc(vec![]);
    assert!(StructureChunker::new(384).chunk(&d).is_empty());
}

#[test]
fn heading_first_does_not_flush_empty_buffer() {
    let d = doc(vec![heading(1, "Title"), paragraph("body")]);
    let chunks = StructureChunker::new(384).chunk(&d);
    assert_eq!(chunks.len(), 1);
    assert_eq!(chunks[0].text, "Title\nbody");
}

#[test]
fn chunk_ids_count_past_nine() {
    let blocks: Vec<TextBlock> = (0..12).map(|i| heading(1, &format!("h{i}"))).collect();
    let chunks = StructureChunker::new(384).chunk(&doc(blocks));
    assert_eq!(chunks.len(), 12);
    assert_eq!(chunks[10].chunk_id, "page-1#10");
    assert_eq!(chunks[11].chunk_id, "page-1#11");
}

#[test]
fn joining_newline_counts_toward_the_target() {
    // Each paragraph estimates to one token, but joined they make 9
    // characters, 3 tokens, over a target of 2: they stay apart.
    let chunks = StructureChunker::new(2).chunk(&doc(vec![paragraph("aaaa"), paragraph("aaaa")]));
    let texts: Vec<&str> = chunks.iter().map(|c| c.text.as_str()).collect();
    assert_eq!(texts, vec!["aaaa", "aaaa"]);
    // With room for the newline they join.
    let chunks = StructureChunker::new(3).chunk(&doc(vec![paragraph("aaaa"), paragraph("aaaa")]));
    assert_eq!(chunks.len(), 1);
    assert_eq!(chunks[0].text, "aaaa\naaaa");
}

#[test]
fn every_chunk_is_within_the_target() {
    let blocks = || vec![
        paragraph("aaaaaaa"),
        paragraph("中文"),
        paragraph("bbbbbbbbbbbbbbbbbbbbbbbbbbbbbbbbbbbb"),
        heading(1, "T"),
        paragraph("cc"),
        paragraph("文字文字"),
    ];
    for target in 1..8 {
        for c in StructureChunker::new(target).chunk(&doc(blocks())) {
            assert!(approx_tokens(&c.text) <= target, "{:?} over {target}", c.text);
        }
    }
}

#[test]
fn oversized_code_block_is_a_chunk_of_its_own() {
    let big = "x".repeat(40);
    let chunks = StructureChunker::new(2).chunk(&doc(vec![
        paragraph("ab"),
        code(&big),
        paragraph("cd"),
    ]));
    let texts: Vec<&str> = chunks.iter().map(|c| c.text.as_str()).collect();
    assert_eq!(texts, vec!["ab", big.as_str(), "cd"]);
}

#[test]
fn heading_over_target_opens_a_chunk_of_its_own() {
    let chunks = StructureChunker::new(1).chunk(&doc(vec![paragraph("xy"), heading(1, "abcdefgh")]));
    let texts: Vec<&str> = chunks.iter().map(|c| c.text.as_str()).collect();
    assert_eq!(texts, vec!["xy", "abcd", "efgh"]);
}

#[test]
fn summed_estimates_also_close_a_chunk() {
    // "a" and "a" are one token each: together two, over a target of 1,
    // though "a\na" alone would estimate to one token.
    let chunks = StructureChunker::new(1).chunk(&doc(vec![paragraph("a"), paragraph("a")]));
    let texts: Vec<&str> = chunks.iter().map(|c| c.text.as_str()).collect();
    assert_eq!(texts, vec!["a", "a"]);
}
