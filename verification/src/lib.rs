//! Commonplace: the verified core of a local-first Markdown notebook.
pub mod text;
pub mod sql;
pub mod links;
pub mod chunking;
pub mod hits;
pub mod sync;
pub mod edges;
pub mod vault;
pub mod engine;
pub mod json;
pub mod chat;
pub mod mcp;
