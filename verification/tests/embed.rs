use rag_personal::embed::{passage_input, query_input};

#[test]
fn passage_input_applies_passage_prefix() {
    assert_eq!(passage_input("hello"), "passage: hello");
}

#[test]
fn query_input_applies_query_prefix() {
    assert_eq!(query_input("what is RAG?"), "query: what is RAG?");
}

#[test]
fn prefixes_apply_to_empty_text() {
    assert_eq!(passage_input(""), "passage: ");
    assert_eq!(query_input(""), "query: ");
}
