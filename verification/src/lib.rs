//! An in-memory full-text search index with BM25-style ranked retrieval.
//!
//! Documents are ingested incrementally under caller-supplied string
//! identifiers; queries are tokenized with the same normalization as
//! documents and matched against an inverted index. Scores are computed
//! in fixed-point arithmetic (millionths), so ranking is deterministic
//! and every score is finite by construction.

use vstd::prelude::*;

pub mod alist;
pub mod index;
pub mod score;
pub mod tokenizer;

pub use index::KVIndex;
pub use tokenizer::tokenize;

verus! {

} // verus!
