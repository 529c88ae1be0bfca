//! Settings of a run, with their defaults.
use vstd::prelude::*;

verus! {

/// Where to crawl from, how to chunk, and where the indexes live.
pub struct Config {
    pub notion_token: Option<String>,
    pub root_page_ids: Vec<String>,
    pub chunk_target_tokens: usize,
    pub db_path: String,
    pub lexical_path: String,
}

/// The chunk size aimed at, in approximate tokens.
pub const CHUNK_TARGET_TOKENS: usize = 384;

/// The page the crawl starts from.
pub open spec fn default_root_page_id() -> Seq<char> {
    "10d8458c2798808bbffbd8696e0f7c37"@
}

/// Where the vector store lives when `RAG_DB_PATH` is unset.
pub open spec fn default_db_path() -> Seq<char> {
    "./data/lancedb"@
}

/// Where the lexical index lives when `RAG_LEXICAL_PATH` is unset.
pub open spec fn default_lexical_path() -> Seq<char> {
    "./data/tantivy"@
}

impl Config {
    /// The configuration given the values read from the environment
    /// (`NOTION_TOKEN`, `RAG_DB_PATH`, `RAG_LEXICAL_PATH`; `None` when unset):
    /// a missing path takes its default; the root page and the chunk size are fixed.
    pub fn from_values(
        notion_token: Option<String>,
        db_path: Option<String>,
        lexical_path: Option<String>,
    ) -> (c: Config)
        ensures
            c.notion_token == notion_token,
            c.root_page_ids@.len() == 1,
            c.root_page_ids@[0]@ == default_root_page_id(),
            c.chunk_target_tokens == CHUNK_TARGET_TOKENS,
            c.db_path@ == match db_path {
                Some(p) => p@,
                None => default_db_path(),
            },
            c.lexical_path@ == match lexical_path {
                Some(p) => p@,
                None => default_lexical_path(),
            },
    {
        let mut root_page_ids: Vec<String> = Vec::new();
        root_page_ids.push("10d8458c2798808bbffbd8696e0f7c37".to_owned());
        let db_path = match db_path {
            Some(p) => p,
            None => "./data/lancedb".to_owned(),
        };
        let lexical_path = match lexical_path {
            Some(p) => p,
            None => "./data/tantivy".to_owned(),
        };
        Config {
            notion_token,
            root_page_ids,
            chunk_target_tokens: CHUNK_TARGET_TOKENS,
            db_path,
            lexical_path,
        }
    }
}

} // verus!
