//! The DevPULSE (Qwen) embedder plug-point.
//!
//! This is the seam where the tuned in-house embedding model lands. Until
//! weights are wired, the type carries its spec and reports honestly at call
//! time.

use vstd::prelude::*;
use vstd::string::StringExecFns;

use crate::error::RrfError;
use crate::model::opt_text;

verus! {

/// Which backbone a DevPULSE embedder wraps.
#[derive(Debug)]
pub struct ModelSpec {
    /// Human/telemetry name, e.g. `devpulse-embed-qwen3-0.6b`.
    pub name: String,
    /// Output dimensionality of the model.
    pub dim: usize,
    /// Filesystem path to the weights (e.g. a `.safetensors` directory).
    pub weights_path: Option<String>,
}

/// The name of the default lineage.
pub const QWEN: &'static str = "devpulse-embed-qwen";

impl ModelSpec {
    /// A Qwen-family embedding backbone spec (the DevPULSE default lineage).
    pub fn qwen(dim: usize) -> (r: ModelSpec)
        ensures
            r.name@ == QWEN@,
            r.dim == dim,
            r.weights_path is None,
    {
        ModelSpec { name: QWEN.to_string(), dim, weights_path: None }
    }
}

/// The DevPULSE embedder. Backbone: Qwen; tuned in-house.
#[derive(Debug)]
pub struct DevPulseEmbedder {
    spec: ModelSpec,
    loaded: bool,
}

/// Why weights cannot be loaded.
pub const EMBED_NO_LOAD: &'static str = "DevPULSE embedder requires the `candle` feature and tuned weights; use DeterministicEmbedder until they are wired";

/// Why nothing can be embedded, before the model's name.
pub const EMBED_NO_WEIGHTS: &'static str = "DevPULSE embedder `";

/// Why nothing can be embedded, behind the model's name.
pub const NO_WEIGHTS: &'static str = "` has no weights loaded (build with --features candle)";

impl DevPulseEmbedder {
    /// What the embedder wraps.
    pub closed spec fn spec_name(&self) -> Seq<char> {
        self.spec.name@
    }

    /// The dimension of what the embedder wraps.
    pub closed spec fn spec_dim(&self) -> usize {
        self.spec.dim
    }

    /// Where the weights are.
    pub closed spec fn spec_weights(&self) -> Option<Seq<char>> {
        opt_text(self.spec.weights_path)
    }

    /// The weights are loaded.
    pub closed spec fn is_loaded(&self) -> bool {
        self.loaded
    }

    /// Declares a DevPULSE embedder from a model spec. Does not load weights.
    pub fn new(spec: ModelSpec) -> (r: DevPulseEmbedder)
        ensures
            r.spec_name() == spec.name@,
            r.spec_dim() == spec.dim,
            r.spec_weights() == opt_text(spec.weights_path),
            !r.is_loaded(),
    {
        DevPulseEmbedder { spec, loaded: false }
    }

    /// Loads the weights and prepares for inference. No backbone is wired, so
    /// loading is unsupported, and callers fall back to the deterministic
    /// embedder.
    pub fn load(self) -> (r: Result<DevPulseEmbedder, RrfError>)
        ensures
            r matches Err(RrfError::Embed(m)) && m@ == EMBED_NO_LOAD@,
    {
        Err(RrfError::Embed(EMBED_NO_LOAD.to_string()))
    }

    /// The dimension of the vectors.
    pub fn dim(&self) -> (r: usize)
        ensures
            r == self.spec_dim(),
    {
        self.spec.dim
    }

    /// Embeds texts. Without weights it fails, and says which model has none.
    pub fn embed(&self, texts: &Vec<String>) -> (r: Result<Vec<Vec<u32>>, RrfError>)
        ensures
            r matches Err(RrfError::Embed(m)) && m@ == EMBED_NO_WEIGHTS@ + self.spec_name()
                + NO_WEIGHTS@,
    {
        let mut m = EMBED_NO_WEIGHTS.to_string();
        m.append(self.spec.name.as_str());
        m.append(NO_WEIGHTS);
        Err(RrfError::Embed(m))
    }

    /// The name of the model.
    pub fn model_name(&self) -> (r: &str)
        ensures
            r@ == self.spec_name(),
    {
        self.spec.name.as_str()
    }
}

} // verus!
