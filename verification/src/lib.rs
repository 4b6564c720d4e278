//! Reason Ready: an embedded retrieval-and-reasoning engine.
//!
//! The library holds what the engine decides and computes: text, keys and rows,
//! the inverted index and the payload index, what an upsert and a removal
//! write, how rankings are made and fused, the pending overlay, the flow, the
//! messages, and the harnesses. Storage, network, threads and floating point
//! lie around it.

pub mod order;
pub mod bytes;
pub mod text;
pub mod number;
pub mod strset;
pub mod score;

pub mod error;
pub mod json;
pub mod model;
pub mod dim;
pub mod keys;
pub mod census;
pub mod kv;

pub mod index;
pub mod store;
pub mod estate;
pub mod layout;
pub mod search;
pub mod filter;
pub mod pidx;
pub mod pending;
pub mod flat;

pub mod embedder;
pub mod reranker;
pub mod registry;
pub mod flow;
pub mod net;
pub mod node;
pub mod serve;
pub mod engine;

pub mod bench;
pub mod eval;
