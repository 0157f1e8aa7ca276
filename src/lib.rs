//! Semantic search over a fixed corpus: the embedding store, its cache
//! format, the resolution policy over similarity scores, and the decisions of
//! the query server.
//!
//! Embedding components and similarity scores are IEEE-754 binary32 values
//! computed outside this library; here they are held as their bit patterns.

pub mod cache;
pub mod corpus;
pub mod engine;
pub mod logg;
pub mod score;
pub mod selfcheck;
pub mod server;
