use rag_personal::chunk::chunk_builder::{approx_tokens, hard_split, ChunkBuilder};
use rag_personal::source::SourceDoc;

fn doc() -> SourceDoc {
    SourceDoc {
        page_id: "p".to_string(),
        title: "T".to_string(),
        url: "u".to_string(),
        blocks: vec![],
    }
}

#[test]
fn approx_tokens_rounds_up() {
    assert_eq!(approx_tokens(""), 0);
    assert_eq!(approx_tokens("abcd"), 1);
    assert_eq!(approx_tokens("abcde"), 2);
    assert_eq!(approx_tokens("中文測"), 1);
    assert_eq!(approx_tokens("中文測試"), 2);
    // one CJK character switches the whole text to three characters per token
    assert_eq!(approx_tokens("abcdef中"), 3);
}

#[test]
fn hard_split_cuts_every_target_times_divisor() {
    let pieces = hard_split("abcdefghij", 1);
    assert_eq!(pieces, vec!["abcd", "efgh", "ij"]);
    assert!(hard_split("", 5).is_empty());
}

#[test]
fn hard_split_with_zero_target_leads_with_an_empty_piece() {
    let pieces = hard_split("abc", 0);
    assert_eq!(pieces, vec!["", "a", "b", "c"]);
}

#[test]
fn builder_joins_flushes_and_numbers() {
    let d = doc();
    let mut b = ChunkBuilder::new(&d, 1);
    b.append("one");
    b.append("two");
    assert_eq!(b.buffer_tokens(), 2);
    b.flush();
    b.flush();
    b.push_hard_split("abcdefgh");
    b.append("tail");
    let chunks = b.finish();
    let texts: Vec<&str> = chunks.iter().map(|c| c.text.as_str()).collect();
    assert_eq!(texts, vec!["one\ntwo", "abcd", "efgh", "tail"]);
    let ids: Vec<&str> = chunks.iter().map(|c| c.chunk_id.as_str()).collect();
    assert_eq!(ids, vec!["p#0", "p#1", "p#2", "p#3"]);
    assert!(chunks.iter().all(|c| c.page_id == "p" && c.title == "T" && c.url == "u"));
}

#[test]
fn hard_split_piece_count_rounds_up() {
    assert_eq!(hard_split(&"x".repeat(9), 2).len(), 2);
    assert_eq!(hard_split(&"x".repeat(8), 2).len(), 1);
    let cjk = "中".repeat(7);
    let pieces = hard_split(&cjk, 2);
    assert_eq!(pieces.len(), 2);
    assert_eq!(pieces[0].chars().count(), 6);
    assert_eq!(pieces[1].chars().count(), 1);
}
