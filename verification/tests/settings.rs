use rag_personal::config::{Config, CHUNK_TARGET_TOKENS};
use rag_personal::mcp::{clamp_top_k, default_top_k};
use rag_personal::retrieve::RetrievalMode;

#[test]
fn config_defaults_apply_when_unset() {
    let c = Config::from_values(None, None, None);
    assert_eq!(c.notion_token, None);
    assert_eq!(c.root_page_ids, vec!["10d8458c2798808bbffbd8696e0f7c37".to_string()]);
    assert_eq!(c.chunk_target_tokens, CHUNK_TARGET_TOKENS);
    assert_eq!(c.chunk_target_tokens, 384);
    assert_eq!(c.db_path, "./data/lancedb");
    assert_eq!(c.lexical_path, "./data/tantivy");
}

#[test]
fn config_takes_given_values() {
    let c = Config::from_values(
        Some("secret".to_string()),
        Some("/tmp/db".to_string()),
        Some("/tmp/lex".to_string()),
    );
    assert_eq!(c.notion_token.as_deref(), Some("secret"));
    assert_eq!(c.db_path, "/tmp/db");
    assert_eq!(c.lexical_path, "/tmp/lex");
}

#[test]
fn top_k_is_clamped() {
    assert_eq!(default_top_k(), 5);
    assert_eq!(clamp_top_k(0), 1);
    assert_eq!(clamp_top_k(1), 1);
    assert_eq!(clamp_top_k(7), 7);
    assert_eq!(clamp_top_k(20), 20);
    assert_eq!(clamp_top_k(500), 20);
}

#[test]
fn mode_names() {
    assert_eq!(RetrievalMode::Dense.name(), "Dense");
    assert_eq!(RetrievalMode::Lexical.name(), "Lexical");
    assert_eq!(RetrievalMode::Hybrid.name(), "Hybrid");
}
