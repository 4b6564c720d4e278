//! The persistent recall store: what an upsert and a removal write.
//!
//! A write goes to one row of the store. Postings are one row per term and
//! document, so that index writes never read what is there; the counters (how
//! many documents, how many tokens, how many of each shape) are read, changed
//! and written back.

use vstd::prelude::*;
use vstd::utf8::encode_utf8;

use crate::bytes::slice;
use crate::census::{count_of, counted, uncounted, Census};
use crate::dim::{dim_after, dim_error, first_misfit};
use crate::error::RrfError;
use crate::index::{is_counting, lemma_occurs, occurrences, term_counts, Posting};
use crate::keys::{
    law_posting_keys_are_distinct, law_posting_keys_are_term_and_id, lemma_text_of_utf8, no_sep,
    term_key, term_key_of, CF_DOCS, CF_META, CF_TERMS, CF_VECS, META_DOC_COUNT, META_SHAPES,
    META_TOTAL_TOKENS,
};
use crate::model::{
    copy_vec, opt_doc, opt_docs, record_views, DocView, EstateInfo, RecordView, StoredDoc,
    VectorRecord,
};
use crate::text::{content, content_tokens, texts};

verus! {

// ---- what the store holds ----------------------------------------------------------

/// What the store holds: documents and vectors by id, postings by term and id,
/// and the counters.
#[verifier::ext_equal]
pub struct EstateView {
    pub docs: Map<Seq<char>, DocView>,
    pub vecs: Map<Seq<char>, Seq<u32>>,
    pub postings: Map<(Seq<char>, Seq<char>), Posting>,
    pub doc_count: nat,
    pub total_tokens: nat,
    pub shapes: Map<Seq<char>, nat>,
}

/// One write to the store.
#[derive(Debug)]
pub enum Write {
    PutDoc { doc: StoredDoc },
    DeleteDoc { id: String },
    PutVec { id: String, embedding: Vec<u32> },
    DeleteVec { id: String },
    PutPosting { term: String, id: String, posting: Posting },
    DeletePosting { term: String, id: String },
    PutDocCount { count: u64 },
    PutTotalTokens { count: u64 },
    PutShapes { census: Census },
}

/// One write to the store.
pub enum WriteView {
    PutDoc { doc: DocView },
    DeleteDoc { id: Seq<char> },
    PutVec { id: Seq<char>, embedding: Seq<u32> },
    DeleteVec { id: Seq<char> },
    PutPosting { term: Seq<char>, id: Seq<char>, posting: Posting },
    DeletePosting { term: Seq<char>, id: Seq<char> },
    PutDocCount { count: nat },
    PutTotalTokens { count: nat },
    PutShapes { census: Map<Seq<char>, nat> },
}

impl View for Write {
    type V = WriteView;

    open spec fn view(&self) -> WriteView {
        match *self {
            Write::PutDoc { doc } => WriteView::PutDoc { doc: doc@ },
            Write::DeleteDoc { id } => WriteView::DeleteDoc { id: id@ },
            Write::PutVec { id, embedding } => WriteView::PutVec {
                id: id@,
                embedding: embedding@,
            },
            Write::DeleteVec { id } => WriteView::DeleteVec { id: id@ },
            Write::PutPosting { term, id, posting } => WriteView::PutPosting {
                term: term@,
                id: id@,
                posting,
            },
            Write::DeletePosting { term, id } => WriteView::DeletePosting { term: term@, id: id@ },
            Write::PutDocCount { count } => WriteView::PutDocCount { count: count as nat },
            Write::PutTotalTokens { count } => WriteView::PutTotalTokens { count: count as nat },
            Write::PutShapes { census } => WriteView::PutShapes { census: census@ },
        }
    }
}

/// The writes of a list.
pub open spec fn write_views(v: Seq<Write>) -> Seq<WriteView> {
    v.map_values(|w: Write| w@)
}

/// The store after a write.
pub open spec fn applied(s: EstateView, w: WriteView) -> EstateView {
    match w {
        WriteView::PutDoc { doc } => EstateView { docs: s.docs.insert(doc.id, doc), ..s },
        WriteView::DeleteDoc { id } => EstateView { docs: s.docs.remove(id), ..s },
        WriteView::PutVec { id, embedding } => EstateView {
            vecs: s.vecs.insert(id, embedding),
            ..s
        },
        WriteView::DeleteVec { id } => EstateView { vecs: s.vecs.remove(id), ..s },
        WriteView::PutPosting { term, id, posting } => EstateView {
            postings: s.postings.insert((term, id), posting),
            ..s
        },
        WriteView::DeletePosting { term, id } => EstateView {
            postings: s.postings.remove((term, id)),
            ..s
        },
        WriteView::PutDocCount { count } => EstateView { doc_count: count, ..s },
        WriteView::PutTotalTokens { count } => EstateView { total_tokens: count, ..s },
        WriteView::PutShapes { census } => EstateView { shapes: census, ..s },
    }
}

/// The store after writes, in order.
pub open spec fn applied_all(s: EstateView, ws: Seq<WriteView>) -> EstateView
    decreases ws.len(),
{
    if ws.len() == 0 {
        s
    } else {
        applied(applied_all(s, ws.drop_last()), ws.last())
    }
}

proof fn lemma_applied_push(ws: Seq<Write>, w: Write)
    ensures
        forall|s: EstateView| #[trigger]
            applied_all(s, write_views(ws.push(w))) == applied(applied_all(s, write_views(ws)), w@),
{
    assert(write_views(ws.push(w)).drop_last() =~= write_views(ws));
    assert(write_views(ws.push(w)).last() == w@);
}

// ---- what an upsert makes of it ------------------------------------------------------

/// The postings without those of these terms for the document.
pub open spec fn unindexed(
    postings: Map<(Seq<char>, Seq<char>), Posting>,
    id: Seq<char>,
    terms: Seq<Seq<char>>,
) -> Map<(Seq<char>, Seq<char>), Posting> {
    postings.remove_keys(
        Set::new(|k: (Seq<char>, Seq<char>)| k.1 == id && terms.contains(k.0)),
    )
}

/// The postings that a document's tokens make: one for each term, with how
/// often it occurs and how many tokens there are.
pub open spec fn postings_of(id: Seq<char>, tokens: Seq<Seq<char>>) -> Map<
    (Seq<char>, Seq<char>),
    Posting,
> {
    Map::new(
        |k: (Seq<char>, Seq<char>)| k.1 == id && tokens.contains(k.0),
        |k: (Seq<char>, Seq<char>)| posting_of(tokens, k.0),
    )
}

/// The posting of a term in a document with these tokens.
pub open spec fn posting_of(tokens: Seq<Seq<char>>, term: Seq<char>) -> Posting {
    Posting { tf: occurrences(tokens, term) as u32, len: tokens.len() as u32 }
}

/// The document that is stored of a record.
pub open spec fn stored_doc(r: RecordView) -> DocView {
    DocView {
        id: r.id,
        text: r.text,
        metadata: r.metadata,
        tags: seq![],
        shape: r.shape,
        token_len: content(r.text).len() as u32,
        connector_id: None,
    }
}

/// `a - b`, or zero where `b` is larger.
pub open spec fn minus(a: nat, b: nat) -> nat {
    if a >= b {
        (a - b) as nat
    } else {
        0
    }
}

/// The store without the postings of an old version of document `id`, and with
/// that version counted off.
pub open spec fn retracted(s: EstateView, id: Seq<char>, old: DocView) -> EstateView {
    EstateView {
        postings: unindexed(s.postings, id, content(old.text)),
        doc_count: minus(s.doc_count, 1),
        total_tokens: minus(s.total_tokens, old.token_len as nat),
        shapes: uncounted(s.shapes, old.shape),
        ..s
    }
}

/// The store with a record added and counted.
pub open spec fn recorded(s: EstateView, r: RecordView) -> EstateView {
    EstateView {
        docs: s.docs.insert(r.id, stored_doc(r)),
        vecs: s.vecs.insert(r.id, r.embedding),
        postings: s.postings.union_prefer_right(postings_of(r.id, content(r.text))),
        doc_count: s.doc_count + 1,
        total_tokens: s.total_tokens + content(r.text).len(),
        shapes: counted(s.shapes, r.shape),
    }
}

/// The store after one record of an upsert, where `old` is the version of the
/// document that was stored before.
pub open spec fn upserted_one(s: EstateView, old: Option<DocView>, r: RecordView) -> EstateView {
    match old {
        Some(d) => recorded(retracted(s, r.id, d), r),
        None => recorded(s, r),
    }
}

/// The store after an upsert, where `olds` are the versions that were stored
/// before, one for each record.
pub open spec fn upserted(
    s: EstateView,
    olds: Seq<Option<DocView>>,
    records: Seq<RecordView>,
) -> EstateView
    decreases records.len(),
{
    if records.len() == 0 {
        s
    } else {
        upserted_one(
            upserted(s, olds.drop_last(), records.drop_last()),
            olds.last(),
            records.last(),
        )
    }
}

/// How many content tokens the texts of the records have.
pub open spec fn token_total(records: Seq<RecordView>) -> nat
    decreases records.len(),
{
    if records.len() == 0 {
        0
    } else {
        token_total(records.drop_last()) + content(records.last().text).len()
    }
}

/// The counters have room for the records, and no text has more tokens than its
/// token count can say.
pub open spec fn fits(
    records: Seq<RecordView>,
    doc_count: nat,
    total_tokens: nat,
    shapes: Map<Seq<char>, nat>,
) -> bool {
    &&& forall|i: int|
        0 <= i < records.len() ==> content((#[trigger] records[i]).text).len() <= u32::MAX
    &&& doc_count + records.len() <= u64::MAX
    &&& total_tokens + token_total(records) <= u64::MAX
    &&& forall|k: Seq<char>|
        shapes.contains_key(k) ==> #[trigger] shapes[k] + records.len() <= u64::MAX
}

/// Whether the counters have room for the records, and no text has more tokens
/// than its token count can say.
pub fn upsert_fits(
    records: &Vec<VectorRecord>,
    doc_count: u64,
    total_tokens: u64,
    census: &Census,
) -> (r: bool)
    requires
        census.wf(),
    ensures
        r == fits(record_views(records@), doc_count as nat, total_tokens as nat, census@),
{
    let ghost v = record_views(records@);
    let n: u64 = records.len() as u64;
    if doc_count > u64::MAX - n {
        return false;
    }
    if !census.has_room(n) {
        return false;
    }
    let mut room: u64 = u64::MAX - total_tokens;
    let mut i: usize = 0;
    while i < records.len()
        invariant
            i <= records.len(),
            v == record_views(records@),
            room == u64::MAX - total_tokens - token_total(v.take(i as int)),
            forall|j: int| 0 <= j < i ==> content((#[trigger] v[j]).text).len() <= u32::MAX,
        decreases records.len() - i,
    {
        let tokens = content_tokens(records[i].text.as_str());
        let len: usize = tokens.len();
        proof {
            assert(len == texts(tokens@).len());
            assert(v[i as int].text == records@[i as int].text@);
            assert(v.take(i + 1).drop_last() =~= v.take(i as int));
            lemma_token_total_grows(v, i + 1);
        }
        if len as u64 > 0xffff_ffff {
            return false;
        }
        if len as u64 > room {
            return false;
        }
        room = room - len as u64;
        i = i + 1;
    }
    assert(v.take(i as int) =~= v);
    true
}

proof fn lemma_token_total_grows(v: Seq<RecordView>, n: int)
    requires
        0 <= n <= v.len(),
    ensures
        token_total(v.take(n)) <= token_total(v),
    decreases v.len(),
{
    if n < v.len() {
        lemma_token_total_grows(v.drop_last(), n);
        assert(v.drop_last().take(n) =~= v.take(n));
    } else {
        assert(v.take(n) =~= v);
    }
}

// ---- the dimension guard -------------------------------------------------------------

/// What becomes of the estate's record, and of the upsert, before anything
/// else is read or written.
#[derive(Debug)]
pub struct Guarded {
    /// The estate's record as it is to be stored now, if it changes.
    pub info: Option<EstateInfo>,
    /// Whether the upsert goes on.
    pub verdict: Result<(), RrfError>,
}

/// What an upsert answers where the estate was never initialized.
pub const NOT_INITIALIZED: &'static str = "estate not initialized";

/// Decides whether an upsert goes on: the dimension of the vectors is fixed by
/// the first upsert, even one that then fails, and enforced ever after.
#[verifier::loop_isolation(false)]
pub fn guard_dim(info: Option<EstateInfo>, records: &Vec<VectorRecord>) -> (r: Guarded)
    requires
        records.len() > 0,
    ensures
        match info {
            None => r.info is None && (r.verdict matches Err(RrfError::Recall(m)) && m@
                == NOT_INITIALIZED@),
            Some(i) => {
                let v = record_views(records@);
                &&& match i.dim {
                    None => r.info matches Some(n) && n.name@ == i.name@ && n.dim == dim_after(
                        i.dim,
                        v,
                    ),
                    Some(_) => r.info is None,
                }
                &&& match dim_error(i.dim, v) {
                    Some((expected, got)) => r.verdict == Err::<(), RrfError>(
                        RrfError::DimMismatch { expected, got },
                    ),
                    None => r.verdict == Ok::<(), RrfError>(()),
                }
            },
        },
{
    let given = match info {
        None => {
            return Guarded {
                info: None,
                verdict: Err(RrfError::Recall(NOT_INITIALIZED.to_string())),
            };
        },
        Some(i) => i,
    };
    let dim: usize = records[0].embedding.len();
    let next = match given.dim {
        None => Some(EstateInfo { name: given.name, dim: Some(dim) }),
        Some(expected) => {
            if expected != dim {
                return Guarded {
                    info: None,
                    verdict: Err(RrfError::DimMismatch { expected, got: dim }),
                };
            }
            None
        },
    };
    let ghost v = record_views(records@);
    let mut i: usize = 0;
    assert(v.skip(0) =~= v);
    while i < records.len()
        invariant
            i <= records.len(),
            v == record_views(records@),
            first_misfit(v, dim as nat) == i + first_misfit(v.skip(i as int), dim as nat),
        decreases records.len() - i,
    {
        let got: usize = records[i].embedding.len();
        assert(v.skip(i as int)[0] == v[i as int]);
        assert(v[i as int] == records@[i as int]@);
        if got != dim {
            return Guarded {
                info: next,
                verdict: Err(RrfError::DimMismatch { expected: dim, got }),
            };
        }
        assert(v.skip(i as int).drop_first() =~= v.skip(i + 1));
        i = i + 1;
    }
    Guarded { info: next, verdict: Ok(()) }
}

// ---- what an upsert writes -----------------------------------------------------------

/// The store with the postings of `terms` for the document gone.
spec fn without_terms(s: EstateView, id: Seq<char>, terms: Seq<Seq<char>>) -> EstateView {
    EstateView { postings: unindexed(s.postings, id, terms), ..s }
}

/// Deletes the postings of a text for a document.
fn retract(ws: &mut Vec<Write>, id: &str, text: &str)
    ensures
        forall|s: EstateView| #[trigger]
            applied_all(s, write_views(final(ws)@)) == without_terms(
                applied_all(s, write_views(old(ws)@)),
                id@,
                content(text@),
            ),
{
    let terms = content_tokens(text);
    let ghost tv = texts(terms@);
    let ghost before = ws@;
    let mut i: usize = 0;
    proof {
        assert forall|s: EstateView| #[trigger]
            applied_all(s, write_views(ws@)) == without_terms(
                applied_all(s, write_views(before)),
                id@,
                tv.take(0),
            ) by {
            let b = applied_all(s, write_views(before));
            assert(unindexed(b.postings, id@, tv.take(0)) =~= b.postings);
        }
    }
    while i < terms.len()
        invariant
            i <= terms.len(),
            tv == texts(terms@),
            forall|s: EstateView| #[trigger]
                applied_all(s, write_views(ws@)) == without_terms(
                    applied_all(s, write_views(before)),
                    id@,
                    tv.take(i as int),
                ),
        decreases terms.len() - i,
    {
        let ghost so_far = ws@;
        let w = Write::DeletePosting { term: terms[i].clone(), id: id.to_string() };
        let ghost wv = w;
        ws.push(w);
        proof {
            lemma_applied_push(so_far, wv);
            assert(tv.take(i + 1) =~= tv.take(i as int).push(tv[i as int]));
            assert forall|s: EstateView| #[trigger]
                applied_all(s, write_views(ws@)) == without_terms(
                    applied_all(s, write_views(before)),
                    id@,
                    tv.take(i + 1),
                ) by {
                let b = applied_all(s, write_views(before));
                let a = applied_all(s, write_views(so_far));
                lemma_contains_push(tv.take(i as int), tv[i as int]);
                assert(a.postings.remove((tv[i as int], id@)) =~= unindexed(
                    b.postings,
                    id@,
                    tv.take(i + 1),
                ));
            }
        }
        i = i + 1;
    }
    assert(tv.take(i as int) =~= tv);
}

proof fn lemma_contains_push(s: Seq<Seq<char>>, x: Seq<char>)
    ensures
        forall|y: Seq<char>| #[trigger] s.push(x).contains(y) <==> s.contains(y) || y == x,
{
    assert forall|y: Seq<char>| #[trigger] s.push(x).contains(y) <==> s.contains(y) || y == x by {
        if s.contains(y) {
            let i = choose|i: int| 0 <= i < s.len() && s[i] == y;
            assert(s.push(x)[i] == y);
        }
        if y == x {
            assert(s.push(x)[s.len() as int] == y);
        }
        if s.push(x).contains(y) && y != x {
            let i = choose|i: int| 0 <= i < s.push(x).len() && s.push(x)[i] == y;
            assert(s[i] == y);
        }
    }
}

/// The postings with those of counted terms put.
spec fn with_counts(
    postings: Map<(Seq<char>, Seq<char>), Posting>,
    id: Seq<char>,
    counts: Seq<(String, u32)>,
    len: u32,
) -> Map<(Seq<char>, Seq<char>), Posting>
    decreases counts.len(),
{
    if counts.len() == 0 {
        postings
    } else {
        with_counts(postings, id, counts.drop_last(), len).insert(
            (counts.last().0@, id),
            Posting { tf: counts.last().1, len },
        )
    }
}

proof fn lemma_with_counts(
    postings: Map<(Seq<char>, Seq<char>), Posting>,
    id: Seq<char>,
    counts: Seq<(String, u32)>,
    len: u32,
    k: (Seq<char>, Seq<char>),
)
    requires
        forall|i: int, j: int|
            0 <= i < j < counts.len() ==> #[trigger] counts[i].0@ != #[trigger] counts[j].0@,
    ensures
        with_counts(postings, id, counts, len).contains_key(k) <==> postings.contains_key(k) || (
        k.1 == id && exists|i: int| 0 <= i < counts.len() && #[trigger] counts[i].0@ == k.0),
        forall|i: int|
            0 <= i < counts.len() && k == (#[trigger] counts[i].0@, id) ==> with_counts(
                postings,
                id,
                counts,
                len,
            )[k] == (Posting { tf: counts[i].1, len }),
        !(k.1 == id && exists|i: int| 0 <= i < counts.len() && #[trigger] counts[i].0@ == k.0)
            && postings.contains_key(k) ==> with_counts(postings, id, counts, len)[k]
            == postings[k],
    decreases counts.len(),
{
    if counts.len() > 0 {
        let rest = counts.drop_last();
        let last = (counts.last().0@, id);
        assert forall|i: int, j: int| 0 <= i < j < rest.len() implies #[trigger] rest[i].0@
            != #[trigger] rest[j].0@ by {
            assert(counts[i].0@ != counts[j].0@);
        }
        lemma_with_counts(postings, id, rest, len, k);
        assert(counts[counts.len() - 1].0@ == last.0);
        if exists|i: int| 0 <= i < rest.len() && #[trigger] rest[i].0@ == k.0 {
            let i = choose|i: int| 0 <= i < rest.len() && #[trigger] rest[i].0@ == k.0;
            assert(counts[i].0@ == k.0);
        }
        if exists|i: int| 0 <= i < counts.len() && #[trigger] counts[i].0@ == k.0 {
            let i = choose|i: int| 0 <= i < counts.len() && #[trigger] counts[i].0@ == k.0;
            if i < rest.len() {
                assert(rest[i].0@ == k.0);
            }
        }
        assert forall|i: int|
            0 <= i < counts.len() && k == (#[trigger] counts[i].0@, id) implies with_counts(
            postings,
            id,
            counts,
            len,
        )[k] == (Posting { tf: counts[i].1, len }) by {
            if i < rest.len() {
                assert(rest[i].0@ == k.0);
                assert(counts[i].0@ != counts[counts.len() - 1].0@);
            }
        }
    }
}

proof fn lemma_counts_are_postings(
    postings: Map<(Seq<char>, Seq<char>), Posting>,
    id: Seq<char>,
    tokens: Seq<Seq<char>>,
    counts: Seq<(String, u32)>,
)
    requires
        is_counting(tokens, counts),
        tokens.len() <= u32::MAX,
    ensures
        with_counts(postings, id, counts, tokens.len() as u32) == postings.union_prefer_right(
            postings_of(id, tokens),
        ),
{
    let len = tokens.len() as u32;
    let a = with_counts(postings, id, counts, len);
    let b = postings.union_prefer_right(postings_of(id, tokens));
    assert forall|k: (Seq<char>, Seq<char>)| a.contains_key(k) <==> b.contains_key(k) by {
        lemma_with_counts(postings, id, counts, len, k);
        if k.1 == id && tokens.contains(k.0) {
            let i = choose|i: int| 0 <= i < counts.len() && #[trigger] counts[i].0@ == k.0;
            assert(counts[i].0@ == k.0);
        }
    }
    assert forall|k: (Seq<char>, Seq<char>)| a.contains_key(k) implies a[k] == b[k] by {
        lemma_with_counts(postings, id, counts, len, k);
        lemma_occurs(tokens, k.0);
        if k.1 == id && tokens.contains(k.0) {
            let i = choose|i: int| 0 <= i < counts.len() && #[trigger] counts[i].0@ == k.0;
            assert(k == (counts[i].0@, id));
            assert(counts[i].1 == occurrences(tokens, counts[i].0@));
        }
    }
    assert(a =~= b);
}

/// The store with the postings of a text put.
spec fn with_text(s: EstateView, id: Seq<char>, text: Seq<char>) -> EstateView {
    EstateView {
        postings: s.postings.union_prefer_right(postings_of(id, content(text))),
        ..s
    }
}

/// Puts the postings of a text for a document; returns how many tokens it has.
fn post(ws: &mut Vec<Write>, id: &str, text: &str) -> (len: u32)
    requires
        content(text@).len() <= u32::MAX,
    ensures
        len == content(text@).len(),
        forall|s: EstateView| #[trigger]
            applied_all(s, write_views(final(ws)@)) == with_text(
                applied_all(s, write_views(old(ws)@)),
                id@,
                text@,
            ),
{
    let tokens = content_tokens(text);
    let ghost tv = texts(tokens@);
    assert(tokens@.len() == tv.len());
    let len: u32 = tokens.len() as u32;
    let counts = term_counts(tokens);
    let ghost before = ws@;
    let mut i: usize = 0;
    assert(counts@.take(0) =~= Seq::<(String, u32)>::empty());
    while i < counts.len()
        invariant
            i <= counts.len(),
            forall|s: EstateView| #[trigger]
                applied_all(s, write_views(ws@)) == (EstateView {
                    postings: with_counts(
                        applied_all(s, write_views(before)).postings,
                        id@,
                        counts@.take(i as int),
                        len,
                    ),
                    ..applied_all(s, write_views(before))
                }),
        decreases counts.len() - i,
    {
        let ghost so_far = ws@;
        let w = Write::PutPosting {
            term: counts[i].0.clone(),
            id: id.to_string(),
            posting: Posting { tf: counts[i].1, len },
        };
        let ghost wv = w;
        ws.push(w);
        proof {
            lemma_applied_push(so_far, wv);
            assert(counts@.take(i + 1).drop_last() =~= counts@.take(i as int));
            assert(counts@.take(i + 1).last() == counts@[i as int]);
        }
        i = i + 1;
    }
    proof {
        assert(counts@.take(i as int) =~= counts@);
        assert forall|s: EstateView| #[trigger]
            applied_all(s, write_views(ws@)) == with_text(
                applied_all(s, write_views(before)),
                id@,
                text@,
            ) by {
            lemma_counts_are_postings(
                applied_all(s, write_views(before)).postings,
                id@,
                tv,
                counts@,
            );
        }
    }
    len
}

/// The store with the counters of another.
spec fn with_counters(s: EstateView, c: EstateView) -> EstateView {
    EstateView { doc_count: c.doc_count, total_tokens: c.total_tokens, shapes: c.shapes, ..s }
}

/// The store before an upsert has the counters that were read.
pub open spec fn counters_are(
    s: EstateView,
    doc_count: u64,
    total_tokens: u64,
    shapes: Map<Seq<char>, nat>,
) -> bool {
    s.doc_count == doc_count && s.total_tokens == total_tokens && s.shapes == shapes
}

/// How far the counters of an upsert can be after some of its records.
spec fn counters_bounded(
    s: EstateView,
    t: EstateView,
    records: Seq<RecordView>,
) -> bool {
    &&& t.doc_count <= s.doc_count + records.len()
    &&& t.total_tokens <= s.total_tokens + token_total(records)
    &&& forall|k: Seq<char>| #[trigger]
        count_of(t.shapes, k) <= count_of(s.shapes, k) + records.len()
}

proof fn lemma_counters_bounded(
    s: EstateView,
    olds: Seq<Option<DocView>>,
    records: Seq<RecordView>,
)
    requires
        olds.len() == records.len(),
    ensures
        counters_bounded(s, upserted(s, olds, records), records),
    decreases records.len(),
{
    if records.len() > 0 {
        lemma_counters_bounded(s, olds.drop_last(), records.drop_last());
        let t = upserted(s, olds.drop_last(), records.drop_last());
        let u = upserted(s, olds, records);
        assert forall|k: Seq<char>| #[trigger]
            count_of(u.shapes, k) <= count_of(s.shapes, k) + records.len() by {
            assert(count_of(t.shapes, k) <= count_of(s.shapes, k) + records.len() - 1);
        }
    }
}

/// What an upsert writes, as one atomic batch. `olds` are the versions of the
/// documents that are stored, one for each record; the counters are those that
/// are stored. An old version's postings are deleted and it is counted off;
/// then the record's postings, document and vector are put and it is counted.
///
/// What was stored before is all that is retracted, once for each record: of two
/// records with the same id in one upsert both are counted, the later one's
/// document and vector stay, and the postings of both.
pub fn plan_upsert(
    records: Vec<VectorRecord>,
    olds: &Vec<Option<StoredDoc>>,
    doc_count: u64,
    total_tokens: u64,
    census: Census,
) -> (r: Vec<Write>)
    requires
        records.len() == olds.len(),
        census.wf(),
        fits(record_views(records@), doc_count as nat, total_tokens as nat, census@),
    ensures
        forall|s: EstateView|
            counters_are(s, doc_count, total_tokens, census@) ==> #[trigger] applied_all(
                s,
                write_views(r@),
            ) == upserted(s, opt_docs(olds@), record_views(records@)),
{
    let ghost rv = record_views(records@);
    let ghost ov = opt_docs(olds@);
    let ghost start = EstateView {
        docs: Map::empty(),
        vecs: Map::empty(),
        postings: Map::empty(),
        doc_count: doc_count as nat,
        total_tokens: total_tokens as nat,
        shapes: census@,
    };
    let mut ws: Vec<Write> = Vec::new();
    let mut count: u64 = doc_count;
    let mut tokens: u64 = total_tokens;
    let mut shapes: Census = census;
    let mut i: usize = 0;
    proof {
        assert(write_views(ws@) =~= Seq::<WriteView>::empty());
        assert(rv.take(0) =~= Seq::<RecordView>::empty());
    }
    while i < records.len()
        invariant
            i <= records.len(),
            records.len() == olds.len(),
            rv == record_views(records@),
            ov == opt_docs(olds@),
            fits(rv, start.doc_count, start.total_tokens, start.shapes),
            shapes.wf(),
            counters_are(
                upserted(start, ov.take(i as int), rv.take(i as int)),
                count,
                tokens,
                shapes@,
            ),
            forall|s: EstateView| #[trigger]
                applied_all(s, write_views(ws@)) == with_counters(
                    upserted(s, ov.take(i as int), rv.take(i as int)),
                    s,
                ),
        decreases records.len() - i,
    {
        let r = &records[i];
        let ghost done_r = rv.take(i as int);
        let ghost done_o = ov.take(i as int);
        let ghost before = ws@;
        let ghost mid0 = upserted(start, done_o, done_r);
        proof {
            assert(rv.take(i + 1).drop_last() =~= done_r);
            assert(ov.take(i + 1).drop_last() =~= done_o);
            assert(rv.take(i + 1).last() == r@);
            assert(ov.take(i + 1).last() == opt_doc(olds@[i as int]));
            lemma_counters_bounded(start, done_o, done_r);
            lemma_token_total_grows(rv, i + 1);
            assert(content(rv[i as int].text).len() <= u32::MAX);
        }
        match &olds[i] {
            Some(d) => {
                retract(&mut ws, r.id.as_str(), d.text.as_str());
                tokens = tokens.saturating_sub(d.token_len as u64);
                shapes.uncount(d.shape.as_str());
                count = count.saturating_sub(1);
            },
            None => {},
        }
        let len: u32 = post(&mut ws, r.id.as_str(), r.text.as_str());
        proof {
            assert(count_of(mid0.shapes, r.shape@) <= count_of(start.shapes, r.shape@) + i);
            if start.shapes.contains_key(r.shape@) {
                assert(start.shapes[r.shape@] + rv.len() <= u64::MAX);
            }
        }
        shapes.count(r.shape.as_str());
        count = count + 1;
        tokens = tokens + len as u64;
        let ghost posted = ws@;
        let doc = StoredDoc {
            id: r.id.clone(),
            text: r.text.clone(),
            metadata: r.metadata.clone(),
            tags: Vec::new(),
            shape: r.shape.clone(),
            token_len: len,
            connector_id: None,
        };
        let put_doc = Write::PutDoc { doc };
        let ghost put_doc_view = put_doc;
        ws.push(put_doc);
        let ghost doc_put = ws@;
        let embedding = copy_vec(&r.embedding);
        let put_vec = Write::PutVec { id: r.id.clone(), embedding };
        let ghost put_vec_view = put_vec;
        ws.push(put_vec);
        proof {
            lemma_applied_push(posted, put_doc_view);
            lemma_applied_push(doc_put, put_vec_view);
            assert(texts(Seq::<String>::empty()) =~= Seq::<Seq<char>>::empty());
            assert(put_doc_view@ == (WriteView::PutDoc { doc: stored_doc(r@) }));
            assert forall|s: EstateView| #[trigger]
                applied_all(s, write_views(ws@)) == with_counters(
                    upserted(s, ov.take(i + 1), rv.take(i + 1)),
                    s,
                ) by {
                let b = applied_all(s, write_views(before));
                let p = applied_all(s, write_views(posted));
                assert(applied_all(s, write_views(doc_put)) == applied(p, put_doc_view@));
                assert(applied_all(s, write_views(ws@)) == applied(
                    applied(p, put_doc_view@),
                    put_vec_view@,
                ));
            }
        }
        i = i + 1;
    }
    let ghost body = ws@;
    let w1 = Write::PutDocCount { count };
    let ghost w1v = w1;
    ws.push(w1);
    let ghost ws1 = ws@;
    let w2 = Write::PutTotalTokens { count: tokens };
    let ghost w2v = w2;
    ws.push(w2);
    let ghost ws2 = ws@;
    let w3 = Write::PutShapes { census: shapes };
    let ghost w3v = w3;
    ws.push(w3);
    proof {
        assert(rv.take(rv.len() as int) =~= rv);
        assert(ov.take(ov.len() as int) =~= ov);
        lemma_applied_push(body, w1v);
        lemma_applied_push(ws1, w2v);
        lemma_applied_push(ws2, w3v);
        assert forall|s: EstateView|
            counters_are(s, doc_count, total_tokens, census@) implies #[trigger] applied_all(
            s,
            write_views(ws@),
        ) == upserted(s, ov, rv) by {
            lemma_counters_alone(start, s, ov, rv);
            let b = applied_all(s, write_views(body));
            assert(applied_all(s, write_views(ws1)) == applied(b, w1v@));
            assert(applied_all(s, write_views(ws2)) == applied(applied(b, w1v@), w2v@));
            assert(applied_all(s, write_views(ws@)) == applied(
                applied(applied(b, w1v@), w2v@),
                w3v@,
            ));
        }
    }
    ws
}

/// What an upsert writes, as one atomic batch; none where the counters have no
/// room for the records, or a text has more tokens than its token count can say.
pub fn plan_upsert_that_fits(
    records: Vec<VectorRecord>,
    olds: &Vec<Option<StoredDoc>>,
    doc_count: u64,
    total_tokens: u64,
    census: Census,
) -> (r: Option<Vec<Write>>)
    requires
        records.len() == olds.len(),
        census.wf(),
    ensures
        match r {
            Some(ws) => {
                &&& fits(record_views(records@), doc_count as nat, total_tokens as nat, census@)
                &&& forall|s: EstateView|
                    counters_are(s, doc_count, total_tokens, census@) ==> #[trigger] applied_all(
                        s,
                        write_views(ws@),
                    ) == upserted(s, opt_docs(olds@), record_views(records@))
            },
            None => !fits(
                record_views(records@),
                doc_count as nat,
                total_tokens as nat,
                census@,
            ),
        },
{
    if upsert_fits(&records, doc_count, total_tokens, &census) {
        Some(plan_upsert(records, olds, doc_count, total_tokens, census))
    } else {
        None
    }
}

/// The counters after an upsert depend on the counters before alone.
proof fn lemma_counters_alone(
    a: EstateView,
    b: EstateView,
    olds: Seq<Option<DocView>>,
    records: Seq<RecordView>,
)
    requires
        olds.len() == records.len(),
        with_counters(a, b) == a,
    ensures
        with_counters(upserted(a, olds, records), upserted(b, olds, records)) == upserted(
            a,
            olds,
            records,
        ),
    decreases records.len(),
{
    if records.len() > 0 {
        lemma_counters_alone(a, b, olds.drop_last(), records.drop_last());
    }
}

// ---- what a removal writes -----------------------------------------------------------

/// The store after a removal, where `old` is the document that is stored.
pub open spec fn removed(s: EstateView, id: Seq<char>, old: Option<DocView>) -> EstateView {
    match old {
        None => s,
        Some(d) => EstateView {
            docs: s.docs.remove(id),
            vecs: s.vecs.remove(id),
            ..retracted(s, id, d)
        },
    }
}

/// What a removal writes, as one atomic batch: nothing where the document is
/// not there; otherwise its postings, document and vector are deleted, and it
/// is counted off.
pub fn plan_remove(
    id: &str,
    old: Option<&StoredDoc>,
    doc_count: u64,
    total_tokens: u64,
    census: Census,
) -> (r: Vec<Write>)
    requires
        census.wf(),
    ensures
        old is None ==> r@.len() == 0,
        forall|s: EstateView|
            counters_are(s, doc_count, total_tokens, census@) ==> #[trigger] applied_all(
                s,
                write_views(r@),
            ) == removed(
                s,
                id@,
                match old {
                    Some(d) => Some(d@),
                    None => None,
                },
            ),
{
    let mut ws: Vec<Write> = Vec::new();
    assert(write_views(ws@) =~= Seq::<WriteView>::empty());
    let d = match old {
        None => {
            return ws;
        },
        Some(d) => d,
    };
    retract(&mut ws, id, d.text.as_str());
    let ghost ws0 = ws@;
    let w1 = Write::DeleteDoc { id: id.to_string() };
    let ghost w1v = w1;
    ws.push(w1);
    let ghost ws1 = ws@;
    let w2 = Write::DeleteVec { id: id.to_string() };
    let ghost w2v = w2;
    ws.push(w2);
    let ghost ws2 = ws@;
    let mut shapes = census;
    shapes.uncount(d.shape.as_str());
    let w3 = Write::PutDocCount { count: doc_count.saturating_sub(1) };
    let ghost w3v = w3;
    ws.push(w3);
    let ghost ws3 = ws@;
    let w4 = Write::PutTotalTokens { count: total_tokens.saturating_sub(d.token_len as u64) };
    let ghost w4v = w4;
    ws.push(w4);
    let ghost ws4 = ws@;
    let w5 = Write::PutShapes { census: shapes };
    let ghost w5v = w5;
    ws.push(w5);
    proof {
        lemma_applied_push(ws0, w1v);
        lemma_applied_push(ws1, w2v);
        lemma_applied_push(ws2, w3v);
        lemma_applied_push(ws3, w4v);
        lemma_applied_push(ws4, w5v);
        assert forall|s: EstateView|
            counters_are(s, doc_count, total_tokens, census@) implies #[trigger] applied_all(
            s,
            write_views(ws@),
        ) == removed(s, id@, Some(d@)) by {
            let b = applied_all(s, write_views(ws0));
            assert(applied_all(s, write_views(ws1)) == applied(b, w1v@));
            assert(applied_all(s, write_views(ws2)) == applied(applied(b, w1v@), w2v@));
            assert(applied_all(s, write_views(ws3)) == applied(
                applied(applied(b, w1v@), w2v@),
                w3v@,
            ));
            assert(applied_all(s, write_views(ws4)) == applied(
                applied(applied(applied(b, w1v@), w2v@), w3v@),
                w4v@,
            ));
        }
    }
    ws
}

// ---- where writes go -------------------------------------------------------------------

/// A row of the store.
pub enum Row {
    Doc { id: Seq<char> },
    Vector { id: Seq<char> },
    Posting { term: Seq<char>, id: Seq<char> },
    DocCount,
    TotalTokens,
    Shapes,
}

/// The row that a write goes to.
pub open spec fn row_of(w: WriteView) -> Row {
    match w {
        WriteView::PutDoc { doc } => Row::Doc { id: doc.id },
        WriteView::DeleteDoc { id } => Row::Doc { id },
        WriteView::PutVec { id, embedding } => Row::Vector { id },
        WriteView::DeleteVec { id } => Row::Vector { id },
        WriteView::PutPosting { term, id, posting } => Row::Posting { term, id },
        WriteView::DeletePosting { term, id } => Row::Posting { term, id },
        WriteView::PutDocCount { count } => Row::DocCount,
        WriteView::PutTotalTokens { count } => Row::TotalTokens,
        WriteView::PutShapes { census } => Row::Shapes,
    }
}

/// The column family of a row.
pub open spec fn row_cf(r: Row) -> Seq<char> {
    match r {
        Row::Doc { id } => CF_DOCS@,
        Row::Vector { id } => CF_VECS@,
        Row::Posting { term, id } => CF_TERMS@,
        _ => CF_META@,
    }
}

/// The key of a row.
pub open spec fn row_key(r: Row) -> Seq<u8> {
    match r {
        Row::Doc { id } => encode_utf8(id),
        Row::Vector { id } => encode_utf8(id),
        Row::Posting { term, id } => term_key_of(term, id),
        Row::DocCount => encode_utf8(META_DOC_COUNT@),
        Row::TotalTokens => encode_utf8(META_TOTAL_TOKENS@),
        Row::Shapes => encode_utf8(META_SHAPES@),
    }
}

fn text_key(s: &str) -> (r: Vec<u8>)
    ensures
        r@ == encode_utf8(s@),
{
    let b = s.as_bytes();
    let r = slice(b, 0, b.len());
    assert(r@ =~= b@);
    r
}

impl Write {
    /// The column family that the write goes to.
    pub fn cf(&self) -> (r: &'static str)
        ensures
            r@ == row_cf(row_of(self@)),
    {
        match self {
            Write::PutDoc { doc } => CF_DOCS,
            Write::DeleteDoc { id } => CF_DOCS,
            Write::PutVec { id, embedding } => CF_VECS,
            Write::DeleteVec { id } => CF_VECS,
            Write::PutPosting { term, id, posting } => CF_TERMS,
            Write::DeletePosting { term, id } => CF_TERMS,
            Write::PutDocCount { count } => CF_META,
            Write::PutTotalTokens { count } => CF_META,
            Write::PutShapes { census } => CF_META,
        }
    }

    /// The key that the write goes to.
    pub fn key(&self) -> (r: Vec<u8>)
        ensures
            r@ == row_key(row_of(self@)),
    {
        match self {
            Write::PutDoc { doc } => text_key(doc.id.as_str()),
            Write::DeleteDoc { id } => text_key(id.as_str()),
            Write::PutVec { id, embedding } => text_key(id.as_str()),
            Write::DeleteVec { id } => text_key(id.as_str()),
            Write::PutPosting { term, id, posting } => term_key(term.as_str(), id.as_str()),
            Write::DeletePosting { term, id } => term_key(term.as_str(), id.as_str()),
            Write::PutDocCount { count } => text_key(META_DOC_COUNT),
            Write::PutTotalTokens { count } => text_key(META_TOTAL_TOKENS),
            Write::PutShapes { census } => text_key(META_SHAPES),
        }
    }
}

/// Rows do not collide: a column family and a key belong to one row only.
pub proof fn law_rows_do_not_collide(a: Row, b: Row)
    requires
        a matches Row::Posting { term, id } ==> no_sep(term),
        b matches Row::Posting { term, id } ==> no_sep(term),
    ensures
        row_cf(a) == row_cf(b) && row_key(a) == row_key(b) <==> a == b,
{
    reveal_strlit("docs");
    reveal_strlit("vecs");
    reveal_strlit("terms");
    reveal_strlit("meta");
    reveal_strlit("doc_count");
    reveal_strlit("total_tokens");
    reveal_strlit("shapes");
    assert(CF_DOCS@[0] != CF_VECS@[0]);
    assert(CF_DOCS@[0] != CF_META@[0]);
    assert(CF_VECS@[0] != CF_META@[0]);
    assert(CF_TERMS@.len() == 5);
    lemma_text_of_utf8(META_DOC_COUNT@);
    lemma_text_of_utf8(META_TOTAL_TOKENS@);
    lemma_text_of_utf8(META_SHAPES@);
    match (a, b) {
        (Row::Doc { id: x }, Row::Doc { id: y }) => {
            lemma_text_of_utf8(x);
            lemma_text_of_utf8(y);
        },
        (Row::Vector { id: x }, Row::Vector { id: y }) => {
            lemma_text_of_utf8(x);
            lemma_text_of_utf8(y);
        },
        (Row::Posting { term: t1, id: d1 }, Row::Posting { term: t2, id: d2 }) => {
            law_posting_keys_are_distinct(t1, d1, t2, d2);
        },
        _ => {},
    }
}

/// Where rows stand, by name: documents and vectors under their ids, postings
/// under their terms and ids, the counters and the census under their names.
pub proof fn law_rows_have_their_places(id: Seq<char>, term: Seq<char>)
    ensures
        row_cf(Row::Doc { id }) == "docs"@,
        row_cf(Row::Vector { id }) == "vecs"@,
        row_cf(Row::Posting { term, id }) == "terms"@,
        row_cf(Row::DocCount) == "meta"@,
        row_cf(Row::TotalTokens) == "meta"@,
        row_cf(Row::Shapes) == "meta"@,
        row_key(Row::Doc { id }) == encode_utf8(id),
        row_key(Row::Vector { id }) == encode_utf8(id),
        row_key(Row::Posting { term, id }) == encode_utf8(term) + seq![0u8] + encode_utf8(id),
        row_key(Row::DocCount) == encode_utf8("doc_count"@),
        row_key(Row::TotalTokens) == encode_utf8("total_tokens"@),
        row_key(Row::Shapes) == encode_utf8("shapes"@),
{
    law_posting_keys_are_term_and_id(term, id);
}

/// Writes have their views, in order.
pub proof fn law_write_lists_hold_every_write(v: Seq<Write>, i: int)
    ensures
        write_views(v).len() == v.len(),
        0 <= i < v.len() ==> write_views(v)[i] == v[i]@,
{
}

/// The token total is the sum over the records.
pub proof fn law_tokens_add_up(records: Seq<RecordView>, r: RecordView)
    ensures
        token_total(Seq::empty()) == 0,
        token_total(records.push(r)) == token_total(records) + content(r.text).len(),
{
    assert(records.push(r).drop_last() =~= records);
}

} // verus!
