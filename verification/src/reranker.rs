//! The DevPULSE (Nemotron) reranker plug-point.
//!
//! Cross-encoder relevance scoring of pairs of query and candidate. Until
//! weights are wired it reports honestly, and callers fall back to a lexical
//! reranker.

use vstd::prelude::*;
use vstd::string::StringExecFns;

use crate::embedder::NO_WEIGHTS;
use crate::error::RrfError;
use crate::model::{opt_text, Candidate};

verus! {

/// Spec for a DevPULSE reranker backbone.
#[derive(Debug)]
pub struct RerankSpec {
    /// Telemetry name, e.g. `devpulse-rerank-nemotron`.
    pub name: String,
    /// Path to the weights.
    pub weights_path: Option<String>,
}

/// The name of the default lineage.
pub const NEMOTRON: &'static str = "devpulse-rerank-nemotron";

impl RerankSpec {
    /// A Nemotron-family reranker spec (the DevPULSE default lineage).
    pub fn nemotron() -> (r: RerankSpec)
        ensures
            r.name@ == NEMOTRON@,
            r.weights_path is None,
    {
        RerankSpec { name: NEMOTRON.to_string(), weights_path: None }
    }
}

/// The DevPULSE reranker. Backbone: Nemotron; tuned in-house.
#[derive(Debug)]
pub struct DevPulseReranker {
    spec: RerankSpec,
    loaded: bool,
}

/// Why weights cannot be loaded.
pub const RERANK_NO_LOAD: &'static str = "DevPULSE reranker requires the `candle` feature and tuned weights; use LexicalReranker until they are wired";

/// Why nothing can be reranked, before the model's name.
pub const RERANK_NO_WEIGHTS: &'static str = "DevPULSE reranker `";

impl DevPulseReranker {
    /// What the reranker wraps.
    pub closed spec fn spec_name(&self) -> Seq<char> {
        self.spec.name@
    }

    /// Where the weights are.
    pub closed spec fn spec_weights(&self) -> Option<Seq<char>> {
        opt_text(self.spec.weights_path)
    }

    /// The weights are loaded.
    pub closed spec fn is_loaded(&self) -> bool {
        self.loaded
    }

    /// Declares a DevPULSE reranker from a spec. Does not load weights.
    pub fn new(spec: RerankSpec) -> (r: DevPulseReranker)
        ensures
            r.spec_name() == spec.name@,
            r.spec_weights() == opt_text(spec.weights_path),
            !r.is_loaded(),
    {
        DevPulseReranker { spec, loaded: false }
    }

    /// Loads the cross-encoder weights. No backbone is wired, so loading is
    /// unsupported.
    pub fn load(self) -> (r: Result<DevPulseReranker, RrfError>)
        ensures
            r matches Err(RrfError::Rerank(m)) && m@ == RERANK_NO_LOAD@,
    {
        Err(RrfError::Rerank(RERANK_NO_LOAD.to_string()))
    }

    /// Reranks candidates. Without weights it fails, and says which model has
    /// none.
    pub fn rerank(&self, query: &str, candidates: Vec<Candidate>, top_k: usize) -> (r: Result<
        Vec<Candidate>,
        RrfError,
    >)
        ensures
            r matches Err(RrfError::Rerank(m)) && m@ == RERANK_NO_WEIGHTS@ + self.spec_name()
                + NO_WEIGHTS@,
    {
        let mut m = RERANK_NO_WEIGHTS.to_string();
        m.append(self.spec.name.as_str());
        m.append(NO_WEIGHTS);
        Err(RrfError::Rerank(m))
    }

    /// The name of the model.
    pub fn model_name(&self) -> (r: &str)
        ensures
            r@ == self.spec_name(),
    {
        self.spec.name.as_str()
    }
}

} // verus!
