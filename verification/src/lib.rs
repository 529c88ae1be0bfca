pub mod text;
pub mod source;
pub mod chunk;
pub mod store;
pub mod retrieve;
pub mod embed;
pub mod mcp;
pub mod config;
pub mod eval;
pub mod pipeline;
