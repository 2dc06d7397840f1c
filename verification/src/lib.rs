//! Core of a reranking inference orchestrator.
//!
//! Given a query and a list of candidate documents, a loaded model scores each
//! document's relevance to the query; the library validates the operating
//! mode, selects the execution graph, encodes the per-document input tensors,
//! decodes the model's output payloads into relevance scores, accumulates
//! token usage, and returns the documents sorted by descending relevance,
//! optionally truncated to the top N.
//!
//! The backend calls themselves (setting a tensor, running the computation,
//! reading the output) are performed by the embedding application, which feeds
//! each raw output back into this library; every decision and every data
//! transformation in between is verified here.

pub mod codec;
pub mod engine;
pub mod rank;
pub mod score;
pub mod usage;
