//! The Reason Ready flow: the one pass that ties the components together.
//!
//! The components (embedder, recall store, reranker, classifier) answer in
//! their own time. What is decided between their answers is here: what each is
//! asked, and what comes of what it answered.

use vstd::prelude::*;

use crate::error::RrfError;
use crate::model::{
    candidate_views, copy_vec, record_views, Candidate, Document, RecordView, VectorRecord,
};
use crate::text::texts;

verus! {

/// How wide each stage runs.
#[derive(Debug, Clone, Copy, PartialEq, Eq, Structural)]
pub struct FlowConfig {
    /// Candidates pulled from recall (vector) before reranking.
    pub recall_k: usize,
    /// Candidates kept after reranking (and handed to the classifier).
    pub rerank_k: usize,
}

impl Default for FlowConfig {
    fn default() -> (r: FlowConfig)
        ensures
            r.recall_k == 20,
            r.rerank_k == 5,
    {
        FlowConfig { recall_k: 20, rerank_k: 5 }
    }
}

// ---- assembling ----------------------------------------------------------------------

/// The assembled engine: embedder, recall, reranker, classifier.
pub struct ReasonReadyFlow<E, R, K, C> {
    pub embedder: E,
    pub recall: R,
    pub reranker: K,
    pub classifier: C,
    pub config: FlowConfig,
}

/// Fluent builder for [`ReasonReadyFlow`]. Any component left unset falls back
/// to its default.
pub struct FlowBuilder<E, R, K, C> {
    embedder: Option<E>,
    recall: Option<R>,
    reranker: Option<K>,
    classifier: Option<C>,
    config: FlowConfig,
}

/// What a builder was given.
pub struct BuilderView<E, R, K, C> {
    pub embedder: Option<E>,
    pub recall: Option<R>,
    pub reranker: Option<K>,
    pub classifier: Option<C>,
    pub config: FlowConfig,
}

/// What was given, or the default.
pub open spec fn given_or<T>(given: Option<T>, default: T) -> T {
    match given {
        Some(x) => x,
        None => default,
    }
}

impl<E, R, K, C> View for FlowBuilder<E, R, K, C> {
    type V = BuilderView<E, R, K, C>;

    closed spec fn view(&self) -> BuilderView<E, R, K, C> {
        BuilderView {
            embedder: self.embedder,
            recall: self.recall,
            reranker: self.reranker,
            classifier: self.classifier,
            config: self.config,
        }
    }
}

impl<E, R, K, C> Default for FlowBuilder<E, R, K, C> {
    fn default() -> (r: FlowBuilder<E, R, K, C>)
        ensures
            r@.embedder is None,
            r@.recall is None,
            r@.reranker is None,
            r@.classifier is None,
            r@.config == (FlowConfig { recall_k: 20, rerank_k: 5 }),
    {
        FlowBuilder::new()
    }
}

impl<E, R, K, C> FlowBuilder<E, R, K, C> {
    /// A builder with all-default components.
    pub fn new() -> (r: FlowBuilder<E, R, K, C>)
        ensures
            r@.embedder is None,
            r@.recall is None,
            r@.reranker is None,
            r@.classifier is None,
            r@.config == (FlowConfig { recall_k: 20, rerank_k: 5 }),
    {
        FlowBuilder {
            embedder: None,
            recall: None,
            reranker: None,
            classifier: None,
            config: FlowConfig::default(),
        }
    }

    /// Overrides the embedder (e.g. the DevPULSE / Qwen model).
    pub fn embedder(self, e: E) -> (r: FlowBuilder<E, R, K, C>)
        ensures
            r@ == (BuilderView { embedder: Some(e), ..self@ }),
    {
        FlowBuilder {
            embedder: Some(e),
            recall: self.recall,
            reranker: self.reranker,
            classifier: self.classifier,
            config: self.config,
        }
    }

    /// Overrides the recall store.
    pub fn recall(self, r: R) -> (b: FlowBuilder<E, R, K, C>)
        ensures
            b@ == (BuilderView { recall: Some(r), ..self@ }),
    {
        FlowBuilder {
            embedder: self.embedder,
            recall: Some(r),
            reranker: self.reranker,
            classifier: self.classifier,
            config: self.config,
        }
    }

    /// Overrides the reranker (e.g. the DevPULSE / Nemotron model).
    pub fn reranker(self, k: K) -> (r: FlowBuilder<E, R, K, C>)
        ensures
            r@ == (BuilderView { reranker: Some(k), ..self@ }),
    {
        FlowBuilder {
            embedder: self.embedder,
            recall: self.recall,
            reranker: Some(k),
            classifier: self.classifier,
            config: self.config,
        }
    }

    /// Overrides the reason-ready classifier.
    pub fn classifier(self, c: C) -> (r: FlowBuilder<E, R, K, C>)
        ensures
            r@ == (BuilderView { classifier: Some(c), ..self@ }),
    {
        FlowBuilder {
            embedder: self.embedder,
            recall: self.recall,
            reranker: self.reranker,
            classifier: Some(c),
            config: self.config,
        }
    }

    /// Sets the flow widths.
    pub fn config(self, config: FlowConfig) -> (r: FlowBuilder<E, R, K, C>)
        ensures
            r@ == (BuilderView { config, ..self@ }),
    {
        FlowBuilder {
            embedder: self.embedder,
            recall: self.recall,
            reranker: self.reranker,
            classifier: self.classifier,
            config,
        }
    }

    /// Assembles the flow, filling any unset component with its default.
    pub fn build(self, embedder: E, recall: R, reranker: K, classifier: C) -> (r: ReasonReadyFlow<
        E,
        R,
        K,
        C,
    >)
        ensures
            r.embedder == given_or(self@.embedder, embedder),
            r.recall == given_or(self@.recall, recall),
            r.reranker == given_or(self@.reranker, reranker),
            r.classifier == given_or(self@.classifier, classifier),
            r.config == self@.config,
    {
        ReasonReadyFlow {
            embedder: match self.embedder {
                Some(x) => x,
                None => embedder,
            },
            recall: match self.recall {
                Some(x) => x,
                None => recall,
            },
            reranker: match self.reranker {
                Some(x) => x,
                None => reranker,
            },
            classifier: match self.classifier {
                Some(x) => x,
                None => classifier,
            },
            config: self.config,
        }
    }
}

/// The name under which the flow reports its recall stage.
pub const RECALL_NAME: &'static str = "flat-cosine";

impl<E, R, K, C> ReasonReadyFlow<E, R, K, C> {
    /// Starts building a flow.
    pub fn builder() -> (r: FlowBuilder<E, R, K, C>)
        ensures
            r@.embedder is None,
            r@.recall is None,
            r@.reranker is None,
            r@.classifier is None,
            r@.config == (FlowConfig { recall_k: 20, rerank_k: 5 }),
    {
        FlowBuilder::new()
    }

    /// The active configuration.
    pub fn config(&self) -> (r: &FlowConfig)
        ensures
            *r == self.config,
    {
        &self.config
    }
}

/// Names of the active component models by stage, for telemetry.
pub fn model_names(embedder: &str, reranker: &str, classifier: &str) -> (r: Vec<
    (&'static str, String),
>)
    ensures
        r@.len() == 4,
        r@[0].0@ == "embedder"@ && r@[0].1@ == embedder@,
        r@[1].0@ == "recall"@ && r@[1].1@ == RECALL_NAME@,
        r@[2].0@ == "reranker"@ && r@[2].1@ == reranker@,
        r@[3].0@ == "classifier"@ && r@[3].1@ == classifier@,
{
    let mut out: Vec<(&'static str, String)> = Vec::new();
    out.push(("embedder", embedder.to_string()));
    out.push(("recall", RECALL_NAME.to_string()));
    out.push(("reranker", reranker.to_string()));
    out.push(("classifier", classifier.to_string()));
    out
}

// ---- asking --------------------------------------------------------------------------

/// The outcome of a pass. `T` is what the classifier makes of the candidates.
#[derive(Debug)]
pub struct RecallResult<T> {
    pub query: String,
    pub candidates: Vec<Candidate>,
    pub readiness: T,
}

/// What a pass asks of a component.
#[derive(Debug)]
pub enum Request {
    /// The embedder: the vector of the query.
    Embed { query: String },
    /// The recall store: the best `top_k` by a hybrid search.
    Recall { query: String, vector: Vec<u32>, top_k: usize },
    /// The reranker: the best `top_k` of the candidates.
    Rerank { query: String, candidates: Vec<Candidate>, top_k: usize },
    /// The classifier: whether the candidates suffice.
    Classify { query: String, candidates: Vec<Candidate> },
}

/// What a component answered.
#[derive(Debug)]
pub enum Answer<T> {
    Embedded(Vec<u32>),
    Recalled(Vec<Candidate>),
    Reranked(Vec<Candidate>),
    Classified(T),
}

/// What comes of an answer: the next request, or the outcome.
#[derive(Debug)]
pub enum Next<T> {
    Ask(AskPass, Request),
    Done(RecallResult<T>),
}

/// Which answer a pass waits for. What was asked of the classifier is kept: the
/// outcome returns it.
#[derive(Debug)]
pub enum Stage {
    Embedding,
    Recalling,
    Reranking,
    Classifying(Vec<Candidate>),
}

/// One full pass for a query: embed, recall, rerank, classify.
#[derive(Debug)]
pub struct AskPass {
    query: String,
    config: FlowConfig,
    stage: Stage,
}

/// The answer is the one that the stage waits for.
pub open spec fn answers<T>(stage: Stage, a: Answer<T>) -> bool {
    match stage {
        Stage::Embedding => a is Embedded,
        Stage::Recalling => a is Recalled,
        Stage::Reranking => a is Reranked,
        Stage::Classifying(_) => a is Classified,
    }
}

fn copy_candidates(v: &Vec<Candidate>) -> (r: Vec<Candidate>)
    ensures
        candidate_views(r@) == candidate_views(v@),
{
    let mut out: Vec<Candidate> = Vec::new();
    let mut i: usize = 0;
    while i < v.len()
        invariant
            i <= v.len(),
            out@.len() == i,
            forall|j: int| 0 <= j < i ==> (#[trigger] out@[j])@ == v@[j]@,
        decreases v.len() - i,
    {
        out.push(
            Candidate {
                id: v[i].id.clone(),
                text: v[i].text.clone(),
                score: v[i].score,
                metadata: v[i].metadata.clone(),
            },
        );
        i = i + 1;
    }
    assert(candidate_views(out@) =~= candidate_views(v@));
    out
}

impl AskPass {
    /// The query of the pass.
    pub closed spec fn asks(&self) -> Seq<char> {
        self.query@
    }

    /// How wide each stage runs.
    pub closed spec fn widths(&self) -> FlowConfig {
        self.config
    }

    /// Which answer the pass waits for.
    pub closed spec fn waits_for(&self) -> Stage {
        self.stage
    }

    /// Starts a pass: the embedder is asked first.
    pub fn begin(query: &str, config: FlowConfig) -> (r: (AskPass, Request))
        ensures
            r.0.asks() == query@,
            r.0.widths() == config,
            r.0.waits_for() is Embedding,
            r.1 matches Request::Embed { query: q } && q@ == query@,
    {
        let pass = AskPass { query: query.to_string(), config, stage: Stage::Embedding };
        (pass, Request::Embed { query: query.to_string() })
    }

    /// Takes the answer that the pass waits for. A component that failed ends
    /// the pass with its error. Otherwise the vector goes to the recall store,
    /// what that recalled to the reranker, what that kept to the classifier,
    /// and what that found is the outcome.
    pub fn take<T>(self, answer: Result<Answer<T>, RrfError>) -> (r: Result<Next<T>, RrfError>)
        requires
            answer matches Ok(a) ==> answers(self.waits_for(), a),
        ensures
            match answer {
                Err(e) => r == Err::<Next<T>, RrfError>(e),
                Ok(Answer::Embedded(v)) => {
                    r matches Ok(Next::Ask(p, Request::Recall { query, vector, top_k })) && {
                        &&& p.asks() == self.asks() && p.widths() == self.widths()
                            && p.waits_for() is Recalling
                        &&& query@ == self.asks() && vector == v && top_k == self.widths().recall_k
                    }
                },
                Ok(Answer::Recalled(c)) => {
                    r matches Ok(Next::Ask(p, Request::Rerank { query, candidates, top_k })) && {
                        &&& p.asks() == self.asks() && p.widths() == self.widths()
                            && p.waits_for() is Reranking
                        &&& query@ == self.asks() && candidates == c && top_k
                            == self.widths().rerank_k
                    }
                },
                Ok(Answer::Reranked(c)) => {
                    r matches Ok(Next::Ask(p, Request::Classify { query, candidates })) && {
                        &&& p.asks() == self.asks() && p.widths() == self.widths()
                            && p.waits_for() == Stage::Classifying(c)
                        &&& query@ == self.asks() && candidate_views(candidates@)
                            == candidate_views(c@)
                    }
                },
                Ok(Answer::Classified(t)) => {
                    r matches Ok(Next::Done(out)) && {
                        &&& out.query@ == self.asks()
                        &&& Stage::Classifying(out.candidates) == self.waits_for()
                        &&& out.readiness == t
                    }
                },
            },
    {
        let a = match answer {
            Ok(a) => a,
            Err(e) => {
                return Err(e);
            },
        };
        match (self.stage, a) {
            (Stage::Embedding, Answer::Embedded(vector)) => {
                let request = Request::Recall {
                    query: self.query.clone(),
                    vector,
                    top_k: self.config.recall_k,
                };
                let pass = AskPass {
                    query: self.query,
                    config: self.config,
                    stage: Stage::Recalling,
                };
                Ok(Next::Ask(pass, request))
            },
            (Stage::Recalling, Answer::Recalled(candidates)) => {
                let request = Request::Rerank {
                    query: self.query.clone(),
                    candidates,
                    top_k: self.config.rerank_k,
                };
                let pass = AskPass {
                    query: self.query,
                    config: self.config,
                    stage: Stage::Reranking,
                };
                Ok(Next::Ask(pass, request))
            },
            (Stage::Reranking, Answer::Reranked(candidates)) => {
                let copy = copy_candidates(&candidates);
                let request = Request::Classify { query: self.query.clone(), candidates: copy };
                let pass = AskPass {
                    query: self.query,
                    config: self.config,
                    stage: Stage::Classifying(candidates),
                };
                Ok(Next::Ask(pass, request))
            },
            (Stage::Classifying(candidates), Answer::Classified(readiness)) => Ok(
                Next::Done(RecallResult { query: self.query, candidates, readiness }),
            ),
            _ => vstd::pervasive::unreached(),
        }
    }
}

// ---- indexing ------------------------------------------------------------------------

/// The texts that indexing embeds; none where there is nothing to index, and
/// only the record count is asked for.
pub fn texts_to_embed(docs: &Vec<Document>) -> (r: Option<Vec<String>>)
    ensures
        match r {
            None => docs@.len() == 0,
            Some(v) => docs@.len() > 0 && texts(v@) == docs@.map_values(|d: Document| d.text@),
        },
{
    if docs.len() == 0 {
        return None;
    }
    let mut out: Vec<String> = Vec::new();
    let mut i: usize = 0;
    while i < docs.len()
        invariant
            i <= docs.len(),
            out@.len() == i,
            forall|j: int| 0 <= j < i ==> (#[trigger] out@[j])@ == docs@[j].text@,
        decreases docs.len() - i,
    {
        out.push(docs[i].text.clone());
        i = i + 1;
    }
    assert(texts(out@) =~= docs@.map_values(|d: Document| d.text@));
    Some(out)
}

/// The record of a document with its vector.
pub open spec fn record_of(d: Document, embedding: Seq<u32>) -> RecordView {
    RecordView {
        id: d.id@,
        embedding,
        text: d.text@,
        metadata: d.metadata@,
        shape: d.shape@,
    }
}

/// The records that indexing upserts: each document with its vector, as far as
/// there are vectors.
pub fn records_to_upsert(docs: &Vec<Document>, embeddings: Vec<Vec<u32>>) -> (r: Vec<VectorRecord>)
    ensures
        record_views(r@) == Seq::new(
            if docs@.len() < embeddings@.len() {
                docs@.len()
            } else {
                embeddings@.len()
            },
            |i: int| record_of(docs@[i], embeddings@[i]@),
        ),
{
    let n: usize = if docs.len() < embeddings.len() {
        docs.len()
    } else {
        embeddings.len()
    };
    let mut out: Vec<VectorRecord> = Vec::new();
    let mut i: usize = 0;
    while i < n
        invariant
            i <= n <= docs.len(),
            n <= embeddings.len(),
            out@.len() == i,
            forall|j: int|
                0 <= j < i ==> (#[trigger] out@[j])@ == record_of(docs@[j], embeddings@[j]@),
        decreases n - i,
    {
        let d = &docs[i];
        out.push(
            VectorRecord {
                id: d.id.clone(),
                embedding: copy_vec(&embeddings[i]),
                text: d.text.clone(),
                metadata: d.metadata.clone(),
                shape: d.shape.clone(),
            },
        );
        i = i + 1;
    }
    proof {
        let want = Seq::new(
            if docs@.len() < embeddings@.len() {
                docs@.len()
            } else {
                embeddings@.len()
            },
            |i: int| record_of(docs@[i], embeddings@[i]@),
        );
        assert(record_views(out@) =~= want);
    }
    out
}

/// What is indexed of a document is the document: the record has its id, text,
/// metadata and shape, and the vector that was made for it.
pub proof fn law_records_are_their_documents(d: Document, embedding: Seq<u32>)
    ensures
        record_of(d, embedding).id == d.id@,
        record_of(d, embedding).text == d.text@,
        record_of(d, embedding).metadata == d.metadata@,
        record_of(d, embedding).shape == d.shape@,
        record_of(d, embedding).embedding == embedding,
{
}

/// A component that was given is used, whatever the default is; the default is
/// used where none was.
pub proof fn law_given_components_are_used<T>(given: T, default: T, other: T)
    ensures
        given_or(Some(given), default) == given,
        given_or(Some(given), default) == given_or(Some(given), other),
        given_or(None, default) == default,
{
}

/// Every stage takes the answer of its own component, and of no other.
pub proof fn law_stages_take_their_own_answers<T>(
    v: Vec<u32>,
    c: Vec<Candidate>,
    kept: Vec<Candidate>,
    t: T,
)
    ensures
        answers(Stage::Embedding, Answer::<T>::Embedded(v)),
        answers(Stage::Recalling, Answer::<T>::Recalled(c)),
        answers(Stage::Reranking, Answer::<T>::Reranked(c)),
        answers(Stage::Classifying(kept), Answer::Classified(t)),
        !answers(Stage::Embedding, Answer::<T>::Recalled(c)),
        !answers(Stage::Recalling, Answer::<T>::Embedded(v)),
        !answers(Stage::Recalling, Answer::<T>::Reranked(c)),
        !answers(Stage::Reranking, Answer::<T>::Recalled(c)),
        !answers(Stage::Reranking, Answer::Classified(t)),
        !answers(Stage::Classifying(kept), Answer::<T>::Reranked(c)),
{
}

} // verus!
