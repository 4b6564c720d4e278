//! The data that flows through the engine.
//!
//! A vector is a list of bit patterns of 32-bit floating-point numbers.
//! Metadata is carried as JSON text, and what the store reads of it, its
//! shape, stands beside it as a canonical key.

use vstd::prelude::*;

use crate::text::texts;

verus! {

/// A document to index.
#[derive(Debug)]
pub struct Document {
    pub id: String,
    pub text: String,
    /// JSON text.
    pub metadata: String,
    /// The canonical key of the metadata's shape.
    pub shape: String,
}

/// A document with its vector.
#[derive(Debug)]
pub struct VectorRecord {
    pub id: String,
    pub embedding: Vec<u32>,
    pub text: String,
    /// JSON text.
    pub metadata: String,
    /// The canonical key of the metadata's shape.
    pub shape: String,
}

/// A document with its vector.
pub struct RecordView {
    pub id: Seq<char>,
    pub embedding: Seq<u32>,
    pub text: Seq<char>,
    pub metadata: Seq<char>,
    pub shape: Seq<char>,
}

impl View for VectorRecord {
    type V = RecordView;

    open spec fn view(&self) -> RecordView {
        RecordView {
            id: self.id@,
            embedding: self.embedding@,
            text: self.text@,
            metadata: self.metadata@,
            shape: self.shape@,
        }
    }
}

/// The records of a list.
pub open spec fn record_views(v: Seq<VectorRecord>) -> Seq<RecordView> {
    v.map_values(|r: VectorRecord| r@)
}

/// A document as a search returns it.
#[derive(Debug)]
pub struct Candidate {
    pub id: String,
    pub text: String,
    /// The bit pattern of a 32-bit floating-point number.
    pub score: u32,
    /// JSON text.
    pub metadata: String,
}

/// A document as a search returns it.
pub struct CandidateView {
    pub id: Seq<char>,
    pub text: Seq<char>,
    pub score: u32,
    pub metadata: Seq<char>,
}

impl View for Candidate {
    type V = CandidateView;

    open spec fn view(&self) -> CandidateView {
        CandidateView {
            id: self.id@,
            text: self.text@,
            score: self.score,
            metadata: self.metadata@,
        }
    }
}

/// The candidates of a list.
pub open spec fn candidate_views(v: Seq<Candidate>) -> Seq<CandidateView> {
    v.map_values(|c: Candidate| c@)
}

/// What a candidate carries as metadata before any was fetched: an empty
/// JSON object.
pub const NO_METADATA: &'static str = "{}";

/// A candidate without metadata.
pub open spec fn plain_candidate(id: Seq<char>, text: Seq<char>, score: u32) -> CandidateView {
    CandidateView { id, text, score, metadata: NO_METADATA@ }
}

impl Candidate {
    /// A candidate without metadata.
    pub fn new(id: String, text: String, score: u32) -> (r: Candidate)
        ensures
            r@ == plain_candidate(id@, text@, score),
    {
        Candidate { id, text, score, metadata: NO_METADATA.to_string() }
    }
}

/// A document as it is stored.
#[derive(Debug)]
pub struct StoredDoc {
    pub id: String,
    pub text: String,
    /// JSON text.
    pub metadata: String,
    pub tags: Vec<String>,
    /// The canonical key of the metadata's shape.
    pub shape: String,
    /// How many content tokens the text has.
    pub token_len: u32,
    pub connector_id: Option<String>,
}

/// A document as it is stored.
pub struct DocView {
    pub id: Seq<char>,
    pub text: Seq<char>,
    pub metadata: Seq<char>,
    pub tags: Seq<Seq<char>>,
    pub shape: Seq<char>,
    pub token_len: u32,
    pub connector_id: Option<Seq<char>>,
}

/// The text of an optional string.
pub open spec fn opt_text(s: Option<String>) -> Option<Seq<char>> {
    match s {
        Some(x) => Some(x@),
        None => None,
    }
}

impl View for StoredDoc {
    type V = DocView;

    open spec fn view(&self) -> DocView {
        DocView {
            id: self.id@,
            text: self.text@,
            metadata: self.metadata@,
            tags: texts(self.tags@),
            shape: self.shape@,
            token_len: self.token_len,
            connector_id: opt_text(self.connector_id),
        }
    }
}

/// A document that may be there.
pub open spec fn opt_doc(d: Option<StoredDoc>) -> Option<DocView> {
    match d {
        Some(x) => Some(x@),
        None => None,
    }
}

/// Documents that may be there.
pub open spec fn opt_docs(v: Seq<Option<StoredDoc>>) -> Seq<Option<DocView>> {
    v.map_values(|d: Option<StoredDoc>| opt_doc(d))
}

/// The estate's own record.
#[derive(Debug)]
pub struct EstateInfo {
    pub name: String,
    /// The dimension of the vectors, once there are any.
    pub dim: Option<usize>,
}

/// A copy of a vector.
pub fn copy_vec(v: &Vec<u32>) -> (r: Vec<u32>)
    ensures
        r@ == v@,
{
    let mut out: Vec<u32> = Vec::new();
    let mut i: usize = 0;
    while i < v.len()
        invariant
            i <= v.len(),
            out@ == v@.take(i as int),
        decreases v.len() - i,
    {
        out.push(v[i]);
        assert(v@.take(i + 1) =~= v@.take(i as int).push(v@[i as int]));
        i = i + 1;
    }
    assert(v@.take(i as int) =~= v@);
    out
}

/// Nothing of a record, a candidate or a stored document is lost between what
/// is held and what is said of it.
pub proof fn law_views_hold_every_field(r: VectorRecord, c: Candidate, d: StoredDoc)
    ensures
        r@.id == r.id@,
        r@.embedding == r.embedding@,
        r@.text == r.text@,
        r@.metadata == r.metadata@,
        r@.shape == r.shape@,
        c@.id == c.id@,
        c@.text == c.text@,
        c@.score == c.score,
        c@.metadata == c.metadata@,
        d@.id == d.id@,
        d@.text == d.text@,
        d@.metadata == d.metadata@,
        d@.shape == d.shape@,
        d@.token_len == d.token_len,
        d@.tags.len() == d.tags@.len(),
        forall|i: int| 0 <= i < d.tags@.len() ==> d@.tags[i] == (#[trigger] d.tags@[i])@,
        d@.connector_id is Some <==> d.connector_id is Some,
        d.connector_id is Some ==> d@.connector_id->0 == d.connector_id->0@,
{
}

/// A list stands for its items, one for one and in order.
pub proof fn law_lists_hold_every_item(
    rs: Seq<VectorRecord>,
    cs: Seq<Candidate>,
    ds: Seq<Option<StoredDoc>>,
    i: int,
)
    ensures
        record_views(rs).len() == rs.len(),
        candidate_views(cs).len() == cs.len(),
        opt_docs(ds).len() == ds.len(),
        0 <= i < rs.len() ==> record_views(rs)[i] == rs[i]@,
        0 <= i < cs.len() ==> candidate_views(cs)[i] == cs[i]@,
        0 <= i < ds.len() ==> (opt_docs(ds)[i] is Some <==> ds[i] is Some),
        0 <= i < ds.len() && ds[i] is Some ==> opt_docs(ds)[i]->0 == ds[i]->0@,
{
}

/// A text that may be there is the text, or none.
pub proof fn law_optional_texts_are_their_texts(s: String)
    ensures
        opt_text(Some(s)) == Some(s@),
        opt_text(None) is None,
{
}

/// A candidate that was made without metadata has the id, the text and the score
/// it was made with, and an empty JSON object as metadata.
pub proof fn law_plain_candidates(id: Seq<char>, text: Seq<char>, score: u32)
    ensures
        plain_candidate(id, text, score).id == id,
        plain_candidate(id, text, score).text == text,
        plain_candidate(id, text, score).score == score,
        plain_candidate(id, text, score).metadata == seq!['{', '}'],
{
    reveal_strlit("{}");
    assert(NO_METADATA@ =~= seq!['{', '}']);
}

} // verus!
