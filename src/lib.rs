//! A small offline knowledge-graph engine: text fragments, entity extraction
//! with a deterministic fallback, a deduplicating entity graph, label
//! propagation communities and similarity ranking.
pub mod text;
pub mod graph;
pub mod document;
pub mod llm;
pub mod extract;
pub mod community;
pub mod vector;
pub mod rag;
pub mod config;
