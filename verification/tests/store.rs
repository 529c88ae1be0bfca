use rag_personal::store::{
    distinct_count, distinct_sorted, first_dimension_mismatch, page_eq_filter, page_in_filter, Hit,
    EMBEDDING_DIMENSION,
};

fn ids(v: &[&str]) -> Vec<String> {
    v.iter().map(|s| s.to_string()).collect()
}

#[test]
fn page_filter_lists_distinct_pages_in_order() {
    let f = page_in_filter(&ids(&["b", "a", "b", "c"]));
    assert_eq!(f, "page_id IN ('a', 'b', 'c')");
}

#[test]
fn page_filter_escapes_quotes() {
    assert_eq!(page_in_filter(&ids(&["o'neil"])), "page_id IN ('o''neil')");
    assert_eq!(page_eq_filter("it's"), "page_id = 'it''s'");
    assert_eq!(page_eq_filter("page-1"), "page_id = 'page-1'");
}

#[test]
fn distinct_pages_are_counted_once() {
    assert_eq!(distinct_count(&ids(&[])), 0);
    assert_eq!(distinct_count(&ids(&["p", "q", "p", "p"])), 2);
    assert_eq!(distinct_sorted(&ids(&["z", "é", "a", "z"])), ids(&["a", "z", "é"]));
}

#[test]
fn dimension_check_finds_the_first_bad_row() {
    let d = EMBEDDING_DIMENSION;
    assert_eq!(first_dimension_mismatch(&[d, d, d], d), None);
    assert_eq!(first_dimension_mismatch(&[d, 3, 5], d), Some(1));
    assert_eq!(first_dimension_mismatch(&[], d), None);
}

#[test]
fn with_score_keeps_the_chunk() {
    let h = Hit {
        chunk_id: "c".to_string(),
        page_id: "p".to_string(),
        title: "t".to_string(),
        url: "u".to_string(),
        text: "x".to_string(),
        score: 1,
    };
    let g = h.with_score(7);
    assert_eq!(g.score, 7);
    assert_eq!(g.chunk_id, "c");
    assert_eq!(g.text, "x");
}
