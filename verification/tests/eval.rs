use rag_personal::eval::gold_lines;
use rag_personal::eval::recall::{evaluate, HitOutcome, ModeResult};
use rag_personal::eval::GoldEntry;
use rag_personal::retrieve::RetrievalMode;
use rag_personal::store::Hit;

fn hit(page_id: &str, text: &str) -> Hit {
    Hit {
        chunk_id: format!("{page_id}#0"),
        page_id: page_id.to_string(),
        title: "t".to_string(),
        url: "u".to_string(),
        text: text.to_string(),
        score: 0,
    }
}

fn entry(pages: &[&str], span: Option<&str>) -> GoldEntry {
    GoldEntry {
        q: "what is rag?".to_string(),
        relevant_page_ids: pages.iter().map(|p| p.to_string()).collect(),
        answer_span: span.map(|s| s.to_string()),
    }
}

#[test]
fn span_on_relevant_page_is_a_hit_case_insensitively() {
    let e = entry(&["p1"], Some("Retrieval AUGMENTED"));
    let hits = vec![hit("p2", "nothing"), hit("p1", "retrieval augmented generation")];
    assert_eq!(evaluate(&e, &hits), HitOutcome::Hit);
}

#[test]
fn span_elsewhere_than_relevant_page_is_a_span_miss() {
    let e = entry(&["p1"], Some("augmented"));
    let hits = vec![hit("p1", "other text"), hit("p2", "retrieval augmented generation")];
    assert_eq!(evaluate(&e, &hits), HitOutcome::SpanMiss);
}

#[test]
fn no_relevant_page_is_a_page_miss() {
    let e = entry(&["p1"], Some("augmented"));
    let hits = vec![hit("p2", "retrieval augmented generation")];
    assert_eq!(evaluate(&e, &hits), HitOutcome::PageMiss);
    let loose = entry(&["p1"], None);
    assert_eq!(evaluate(&loose, &hits), HitOutcome::PageMiss);
    assert_eq!(evaluate(&loose, &[]), HitOutcome::PageMiss);
}

#[test]
fn without_span_a_relevant_page_suffices() {
    let e = entry(&["p1", "p3"], None);
    let hits = vec![hit("p3", "anything")];
    assert_eq!(evaluate(&e, &hits), HitOutcome::Hit);
}

#[test]
fn mode_result_counts_outcomes() {
    let mut r = ModeResult::start(RetrievalMode::Hybrid, 3);
    r.record(&entry(&["p1"], None), vec![hit("p1", "x")]);
    r.record(&entry(&["p1"], Some("needle")), vec![hit("p1", "hay")]);
    r.record(&entry(&["p1"], Some("needle")), vec![hit("p2", "needle")]);
    assert_eq!(r.total, 3);
    assert_eq!(r.hits, 1);
    assert_eq!(r.per_query.len(), 3);
    assert_eq!(r.count(HitOutcome::Hit), 1);
    assert_eq!(r.count(HitOutcome::SpanMiss), 1);
    assert_eq!(r.count(HitOutcome::PageMiss), 1);
    assert!(r.per_query[0].used_loose_rule);
    assert!(!r.per_query[1].used_loose_rule);
    assert_eq!(r.per_query[2].query, "what is rag?");
    assert_eq!(r.per_query[2].outcome, HitOutcome::PageMiss);
    assert_eq!(r.per_query[2].top_hits.len(), 1);
}

#[test]
fn gold_lines_skip_blank_lines_and_keep_numbers() {
    let content = "{\"q\":\"a\"}\n\n   \n  {\"q\":\"b\"}  \r\n{\"q\":\"c\"}";
    let lines = gold_lines(content);
    assert_eq!(
        lines,
        vec![
            (1, "{\"q\":\"a\"}".to_string()),
            (4, "{\"q\":\"b\"}".to_string()),
            (5, "{\"q\":\"c\"}".to_string()),
        ]
    );
    assert!(gold_lines("").is_empty());
    assert!(gold_lines("\n\n").is_empty());
}
