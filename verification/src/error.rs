//! What can go wrong.

use vstd::prelude::*;

verus! {

/// `serde_json::Error`: why a text is no JSON, or not of the form asked for.
/// Nothing is claimed of what it holds.
#[verifier::external_type_specification]
#[verifier::external_body]
pub struct ExJsonError(serde_json::Error);

/// The error of the engine.
#[derive(Debug)]
pub enum RrfError {
    /// The embedder failed.
    Embed(String),
    /// The reranker failed.
    Rerank(String),
    /// The recall store failed.
    Recall(String),
    /// The network failed.
    Net(String),
    /// An embedding does not have the dimension of the store.
    DimMismatch { expected: usize, got: usize },
    /// A text is no JSON, or not of the form asked for.
    Json(serde_json::Error),
}

} // verus!
