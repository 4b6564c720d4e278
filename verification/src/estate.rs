//! What holds of an estate: its postings and counters agree with its documents,
//! whatever was upserted and removed, as long as no upsert repeats an id.

use vstd::prelude::*;
use vstd::set_lib::{lemma_int_range, lemma_len_subset, set_int_range};

use crate::census::count_of;
use crate::index::{law_occurrences_are_positions, Posting};
use crate::model::{DocView, RecordView, StoredDoc};
use crate::store::{
    applied, applied_all, fits, posting_of, removed, retracted, stored_doc, token_total, upserted,
    upserted_one, EstateView, Write, WriteView,
};
use crate::text::content;

verus! {

/// The sum of what the documents weigh.
pub open spec fn weigh(docs: Map<Seq<char>, DocView>, weight: spec_fn(DocView) -> nat) -> nat
    decreases docs.dom().len(),
    when docs.dom().finite()
{
    if docs.dom().len() == 0 {
        0
    } else {
        let id = docs.dom().choose();
        weight(docs[id]) + weigh(docs.remove(id), weight)
    }
}

/// Every document counts as one.
pub open spec fn one() -> spec_fn(DocView) -> nat {
    |d: DocView| 1nat
}

/// Every document counts as its tokens.
pub open spec fn token_count() -> spec_fn(DocView) -> nat {
    |d: DocView| d.token_len as nat
}

/// A document counts as one if it has the shape.
pub open spec fn of_shape(shape: Seq<char>) -> spec_fn(DocView) -> nat {
    |d: DocView|
        if d.shape == shape {
            1nat
        } else {
            0nat
        }
}

/// The document that is stored under `id`.
pub open spec fn doc_at(docs: Map<Seq<char>, DocView>, id: Seq<char>) -> Option<DocView> {
    if docs.contains_key(id) {
        Some(docs[id])
    } else {
        None
    }
}

/// The postings are those of the documents: a document has a posting for each
/// of its terms and for no other, with how often the term occurs in it.
pub open spec fn postings_agree(s: EstateView) -> bool {
    forall|t: Seq<char>, id: Seq<char>|
        {
            &&& #[trigger] s.postings.contains_key((t, id)) <==> s.docs.contains_key(id) && content(
                s.docs[id].text,
            ).contains(t)
            &&& s.postings.contains_key((t, id)) ==> s.postings[(t, id)] == posting_of(
                content(s.docs[id].text),
                t,
            )
        }
}

/// The counters are those of the documents.
pub open spec fn counters_agree(s: EstateView) -> bool {
    &&& s.doc_count == weigh(s.docs, one())
    &&& s.total_tokens == weigh(s.docs, token_count())
    &&& forall|shape: Seq<char>| #[trigger]
        count_of(s.shapes, shape) == weigh(s.docs, of_shape(shape))
}

/// What an estate holds fits together.
pub open spec fn consistent(s: EstateView) -> bool {
    &&& s.docs.dom().finite()
    &&& forall|id: Seq<char>| #[trigger]
        s.docs.contains_key(id) ==> s.docs[id].id == id && s.docs[id].token_len == content(
            s.docs[id].text,
        ).len()
    &&& s.vecs.dom() == s.docs.dom()
    &&& postings_agree(s)
    &&& counters_agree(s)
}

/// An estate that holds nothing.
pub open spec fn empty_estate() -> EstateView {
    EstateView {
        docs: Map::empty(),
        vecs: Map::empty(),
        postings: Map::empty(),
        doc_count: 0,
        total_tokens: 0,
        shapes: Map::empty(),
    }
}

/// An estate starts out consistent.
pub proof fn law_empty_estate_is_consistent()
    ensures
        consistent(empty_estate()),
{
    let s = empty_estate();
    assert(s.docs.dom() =~= Set::<Seq<char>>::empty());
    assert(s.vecs.dom() =~= s.docs.dom());
}

proof fn lemma_weigh_remove(docs: Map<Seq<char>, DocView>, id: Seq<char>, w: spec_fn(DocView) -> nat)
    requires
        docs.dom().finite(),
        docs.contains_key(id),
    ensures
        weigh(docs, w) == w(docs[id]) + weigh(docs.remove(id), w),
    decreases docs.dom().len(),
{
    let c = docs.dom().choose();
    assert(docs.dom().contains(id));
    if c != id {
        let a = docs.remove(c);
        let b = docs.remove(id);
        assert(a.dom().contains(id));
        assert(b.dom().contains(c));
        lemma_weigh_remove(a, id, w);
        lemma_weigh_remove(b, c, w);
        assert(a.remove(id) =~= b.remove(c));
    }
}

proof fn lemma_weigh_insert(
    docs: Map<Seq<char>, DocView>,
    id: Seq<char>,
    d: DocView,
    w: spec_fn(DocView) -> nat,
)
    requires
        docs.dom().finite(),
    ensures
        weigh(docs.insert(id, d), w) == w(d) + weigh(docs.remove(id), w),
{
    let next = docs.insert(id, d);
    lemma_weigh_remove(next, id, w);
    assert(next.remove(id) =~= docs.remove(id));
}

/// The document counter says how many documents there are.
pub proof fn law_document_counter_is_exact(s: EstateView)
    requires
        consistent(s),
    ensures
        s.doc_count == s.docs.dom().len(),
{
    lemma_weigh_ones(s.docs);
}

proof fn lemma_weigh_ones(docs: Map<Seq<char>, DocView>)
    requires
        docs.dom().finite(),
    ensures
        weigh(docs, one()) == docs.dom().len(),
    decreases docs.dom().len(),
{
    if docs.dom().len() > 0 {
        let id = docs.dom().choose();
        assert(docs.dom().contains(id));
        lemma_weigh_ones(docs.remove(id));
        assert(docs.remove(id).dom() =~= docs.dom().remove(id));
    }
}

proof fn lemma_retracted(s: EstateView, id: Seq<char>)
    requires
        consistent(s),
        s.docs.contains_key(id),
    ensures
        forall|t: Seq<char>, x: Seq<char>|
            #![trigger retracted(s, id, s.docs[id]).postings.contains_key((t, x))]
            {
                let p = retracted(s, id, s.docs[id]).postings;
                &&& p.contains_key((t, x)) <==> x != id && s.postings.contains_key((t, x))
                &&& p.contains_key((t, x)) ==> p[(t, x)] == s.postings[(t, x)]
            },
        retracted(s, id, s.docs[id]).doc_count == weigh(s.docs.remove(id), one()),
        retracted(s, id, s.docs[id]).total_tokens == weigh(s.docs.remove(id), token_count()),
        forall|shape: Seq<char>| #[trigger]
            count_of(retracted(s, id, s.docs[id]).shapes, shape) == weigh(
                s.docs.remove(id),
                of_shape(shape),
            ),
{
    let d = s.docs[id];
    let r = retracted(s, id, d);
    lemma_weigh_remove(s.docs, id, one());
    lemma_weigh_remove(s.docs, id, token_count());
    assert forall|shape: Seq<char>| #[trigger]
        count_of(r.shapes, shape) == weigh(s.docs.remove(id), of_shape(shape)) by {
        lemma_weigh_remove(s.docs, id, of_shape(shape));
        assert(count_of(s.shapes, shape) == weigh(s.docs, of_shape(shape)));
    }
    assert forall|t: Seq<char>, x: Seq<char>|
        #![trigger r.postings.contains_key((t, x))]
        {
            &&& r.postings.contains_key((t, x)) <==> x != id && s.postings.contains_key((t, x))
            &&& r.postings.contains_key((t, x)) ==> r.postings[(t, x)] == s.postings[(t, x)]
        } by {
        assert(s.postings.contains_key((t, x)) <==> s.docs.contains_key(x) && content(
            s.docs[x].text,
        ).contains(t));
    }
}

/// Upserting one record keeps an estate consistent, where the version of the
/// document that is stored is the one that is retracted.
pub proof fn lemma_upserted_one_is_consistent(s: EstateView, r: RecordView)
    requires
        consistent(s),
        content(r.text).len() <= u32::MAX,
    ensures
        consistent(upserted_one(s, doc_at(s.docs, r.id), r)),
{
    let old = doc_at(s.docs, r.id);
    let base = match old {
        Some(d) => retracted(s, r.id, d),
        None => s,
    };
    let n = upserted_one(s, old, r);
    let d = stored_doc(r);
    let toks = content(r.text);
    if s.docs.contains_key(r.id) {
        lemma_retracted(s, r.id);
    } else {
        assert(s.docs.remove(r.id) =~= s.docs);
    }
    assert(n.docs == s.docs.insert(r.id, d));
    assert(n.vecs.dom() =~= n.docs.dom());
    lemma_weigh_insert(s.docs, r.id, d, one());
    lemma_weigh_insert(s.docs, r.id, d, token_count());
    assert forall|shape: Seq<char>| #[trigger]
        count_of(n.shapes, shape) == weigh(n.docs, of_shape(shape)) by {
        lemma_weigh_insert(s.docs, r.id, d, of_shape(shape));
        assert(count_of(base.shapes, shape) == weigh(s.docs.remove(r.id), of_shape(shape)));
    }
    assert forall|t: Seq<char>, id: Seq<char>|
        {
            &&& #[trigger] n.postings.contains_key((t, id)) <==> n.docs.contains_key(id) && content(
                n.docs[id].text,
            ).contains(t)
            &&& n.postings.contains_key((t, id)) ==> n.postings[(t, id)] == posting_of(
                content(n.docs[id].text),
                t,
            )
        } by {
        assert(s.postings.contains_key((t, id)) <==> s.docs.contains_key(id) && content(
            s.docs[id].text,
        ).contains(t));
        assert(base.postings.contains_key((t, id)) <==> id != r.id && s.postings.contains_key(
            (t, id),
        ));
    }
}

/// No id occurs twice.
pub open spec fn distinct_ids(records: Seq<RecordView>) -> bool {
    forall|i: int, j: int|
        0 <= i < j < records.len() ==> (#[trigger] records[i]).id != (#[trigger] records[j]).id
}

/// The documents that are stored under the ids of the records.
pub open spec fn stored_versions(
    docs: Map<Seq<char>, DocView>,
    records: Seq<RecordView>,
) -> Seq<Option<DocView>> {
    records.map_values(|r: RecordView| doc_at(docs, r.id))
}

proof fn lemma_others_stay(
    s: EstateView,
    olds: Seq<Option<DocView>>,
    records: Seq<RecordView>,
    id: Seq<char>,
)
    requires
        olds.len() == records.len(),
        forall|i: int| 0 <= i < records.len() ==> (#[trigger] records[i]).id != id,
    ensures
        doc_at(upserted(s, olds, records).docs, id) == doc_at(s.docs, id),
        upserted(s, olds, records).vecs.contains_key(id) == s.vecs.contains_key(id),
        upserted(s, olds, records).vecs[id] == s.vecs[id],
        forall|t: Seq<char>|
            {
                &&& #[trigger] upserted(s, olds, records).postings.contains_key((t, id))
                    == s.postings.contains_key((t, id))
                &&& s.postings.contains_key((t, id)) ==> upserted(s, olds, records).postings[(t, id)]
                    == s.postings[(t, id)]
            },
    decreases records.len(),
{
    if records.len() > 0 {
        let rest = records.drop_last();
        assert forall|i: int| 0 <= i < rest.len() implies (#[trigger] rest[i]).id != id by {
            assert(records[i].id != id);
        }
        lemma_others_stay(s, olds.drop_last(), rest, id);
        assert(records[records.len() - 1].id != id);
        let m = upserted(s, olds.drop_last(), rest);
        let n = upserted(s, olds, records);
        assert forall|t: Seq<char>|
            {
                &&& #[trigger] n.postings.contains_key((t, id)) == s.postings.contains_key((t, id))
                &&& s.postings.contains_key((t, id)) ==> n.postings[(t, id)] == s.postings[(t, id)]
            } by {
            assert(m.postings.contains_key((t, id)) == s.postings.contains_key((t, id)));
        }
    }
}

/// An upsert that repeats no id keeps an estate consistent: its postings and
/// counters agree with its documents before and after, documents that are
/// overwritten included.
pub proof fn law_upsert_keeps_estate_consistent(s: EstateView, records: Seq<RecordView>)
    requires
        consistent(s),
        distinct_ids(records),
        forall|i: int|
            0 <= i < records.len() ==> content((#[trigger] records[i]).text).len() <= u32::MAX,
    ensures
        consistent(upserted(s, stored_versions(s.docs, records), records)),
    decreases records.len(),
{
    if records.len() > 0 {
        let rest = records.drop_last();
        let olds = stored_versions(s.docs, records);
        assert(olds.drop_last() =~= stored_versions(s.docs, rest));
        assert forall|i: int, j: int| 0 <= i < j < rest.len() implies (#[trigger] rest[i]).id != (
        #[trigger] rest[j]).id by {
            assert(records[i].id != records[j].id);
        }
        assert forall|i: int| 0 <= i < rest.len() implies content((#[trigger] rest[i]).text).len()
            <= u32::MAX by {
            assert(content(records[i].text).len() <= u32::MAX);
        }
        law_upsert_keeps_estate_consistent(s, rest);
        let m = upserted(s, olds.drop_last(), rest);
        let r = records.last();
        assert forall|i: int| 0 <= i < rest.len() implies (#[trigger] rest[i]).id != r.id by {
            assert(records[i].id != records[records.len() - 1].id);
        }
        lemma_others_stay(s, olds.drop_last(), rest, r.id);
        assert(olds.last() == doc_at(m.docs, r.id));
        assert(content(records[records.len() - 1].text).len() <= u32::MAX);
        lemma_upserted_one_is_consistent(m, r);
    }
}

/// A removal keeps an estate consistent.
pub proof fn law_removal_keeps_estate_consistent(s: EstateView, id: Seq<char>)
    requires
        consistent(s),
    ensures
        consistent(removed(s, id, doc_at(s.docs, id))),
        !removed(s, id, doc_at(s.docs, id)).docs.contains_key(id),
        !removed(s, id, doc_at(s.docs, id)).vecs.contains_key(id),
{
    let n = removed(s, id, doc_at(s.docs, id));
    if s.docs.contains_key(id) {
        lemma_retracted(s, id);
        let r = retracted(s, id, s.docs[id]);
        assert(n.docs == s.docs.remove(id));
        assert(n.vecs.dom() =~= n.docs.dom());
        assert forall|shape: Seq<char>| #[trigger]
            count_of(n.shapes, shape) == weigh(n.docs, of_shape(shape)) by {
            assert(count_of(r.shapes, shape) == weigh(s.docs.remove(id), of_shape(shape)));
        }
        assert forall|t: Seq<char>, x: Seq<char>|
            {
                &&& #[trigger] n.postings.contains_key((t, x)) <==> n.docs.contains_key(x)
                    && content(n.docs[x].text).contains(t)
                &&& n.postings.contains_key((t, x)) ==> n.postings[(t, x)] == posting_of(
                    content(n.docs[x].text),
                    t,
                )
            } by {
            assert(r.postings.contains_key((t, x)) <==> x != id && s.postings.contains_key((t, x)));
            assert(s.postings.contains_key((t, x)) <==> s.docs.contains_key(x) && content(
                s.docs[x].text,
            ).contains(t));
        }
    } else {
        assert(!s.vecs.dom().contains(id));
    }
}

/// What was upserted is read back: under the id of a record stand its document
/// and its vector, unless a later record of the same upsert has the id; under
/// an id of no record stands what stood there before, postings included; and
/// there are documents under the ids of before and those of the records, and
/// under no others.
pub proof fn law_upserts_are_read_back(
    s: EstateView,
    olds: Seq<Option<DocView>>,
    records: Seq<RecordView>,
    i: int,
    id: Seq<char>,
)
    requires
        olds.len() == records.len(),
    ensures
        0 <= i < records.len() && (forall|j: int|
            i < j < records.len() ==> (#[trigger] records[j]).id != records[i].id) ==> {
            let n = upserted(s, olds, records);
            &&& doc_at(n.docs, records[i].id) == Some(stored_doc(records[i]))
            &&& n.vecs.contains_key(records[i].id)
            &&& n.vecs[records[i].id] == records[i].embedding
        },
        (forall|j: int| 0 <= j < records.len() ==> (#[trigger] records[j]).id != id) ==> {
            let n = upserted(s, olds, records);
            &&& doc_at(n.docs, id) == doc_at(s.docs, id)
            &&& n.vecs.contains_key(id) == s.vecs.contains_key(id)
            &&& n.vecs[id] == s.vecs[id]
            &&& forall|t: Seq<char>|
                {
                    &&& #[trigger] n.postings.contains_key((t, id)) == s.postings.contains_key(
                        (t, id),
                    )
                    &&& s.postings.contains_key((t, id)) ==> n.postings[(t, id)] == s.postings[(
                        t,
                        id,
                    )]
                }
        },
        upserted(s, olds, records).docs.contains_key(id) <==> s.docs.contains_key(id) || exists|
            j: int,
        |
            0 <= j < records.len() && (#[trigger] records[j]).id == id,
    decreases records.len(),
{
    lemma_upserted_ids(s, olds, records, id);
    if forall|j: int| 0 <= j < records.len() ==> (#[trigger] records[j]).id != id {
        lemma_others_stay(s, olds, records, id);
    }
    if 0 <= i < records.len() && (forall|j: int|
        i < j < records.len() ==> (#[trigger] records[j]).id != records[i].id) {
        if i < records.len() - 1 {
            let rest = records.drop_last();
            assert forall|j: int| i < j < rest.len() implies (#[trigger] rest[j]).id
                != rest[i].id by {
                assert(records[j].id != records[i].id);
            }
            law_upserts_are_read_back(s, olds.drop_last(), rest, i, id);
            assert(records[records.len() - 1].id != records[i].id);
        }
    }
}

proof fn lemma_upserted_ids(
    s: EstateView,
    olds: Seq<Option<DocView>>,
    records: Seq<RecordView>,
    id: Seq<char>,
)
    requires
        olds.len() == records.len(),
    ensures
        upserted(s, olds, records).docs.contains_key(id) <==> s.docs.contains_key(id) || exists|
            j: int,
        |
            0 <= j < records.len() && (#[trigger] records[j]).id == id,
    decreases records.len(),
{
    if records.len() > 0 {
        let rest = records.drop_last();
        let last = records.len() - 1;
        lemma_upserted_ids(s, olds.drop_last(), rest, id);
        if exists|j: int| 0 <= j < rest.len() && (#[trigger] rest[j]).id == id {
            let j = choose|j: int| 0 <= j < rest.len() && (#[trigger] rest[j]).id == id;
            assert(records[j].id == id);
        }
        if exists|j: int| 0 <= j < records.len() && (#[trigger] records[j]).id == id {
            let j = choose|j: int| 0 <= j < records.len() && (#[trigger] records[j]).id == id;
            if j < last {
                assert(rest[j].id == id);
            }
        }
        if records.last().id == id {
            assert(records[last].id == id);
        }
    }
}

/// Overwriting a document with itself changes nothing.
pub proof fn law_upsert_twice_is_upsert_once(s: EstateView, old: Option<DocView>, r: RecordView)
    requires
        content(r.text).len() <= u32::MAX,
    ensures
        upserted_one(upserted_one(s, old, r), Some(stored_doc(r)), r) == upserted_one(s, old, r),
{
    let t = upserted_one(s, old, r);
    let u = upserted_one(t, Some(stored_doc(r)), r);
    assert(u.docs =~= t.docs);
    assert(u.vecs =~= t.vecs);
    assert(u.postings =~= t.postings);
    assert(u.shapes =~= t.shapes);
}

/// A removal undoes an upsert of a document that was not there: what is stored
/// is what was stored before, and so are the counts. A second removal changes
/// nothing.
pub proof fn law_removal_undoes_upsert(s: EstateView, r: RecordView)
    requires
        consistent(s),
        !s.docs.contains_key(r.id),
        content(r.text).len() <= u32::MAX,
    ensures
        ({
            let t = removed(upserted_one(s, None, r), r.id, Some(stored_doc(r)));
            &&& t.docs == s.docs
            &&& t.vecs == s.vecs
            &&& t.postings == s.postings
            &&& t.doc_count == s.doc_count
            &&& t.total_tokens == s.total_tokens
            &&& forall|shape: Seq<char>| #[trigger]
                count_of(t.shapes, shape) == count_of(s.shapes, shape)
            &&& removed(t, r.id, doc_at(t.docs, r.id)) == t
        }),
{
    let n = upserted_one(s, None, r);
    let t = removed(n, r.id, Some(stored_doc(r)));
    assert(!s.vecs.dom().contains(r.id));
    assert(t.docs =~= s.docs);
    assert(t.vecs =~= s.vecs);
    assert forall|k: (Seq<char>, Seq<char>)| t.postings.contains_key(k)
        <==> s.postings.contains_key(k) by {
        assert(s.postings.contains_key((k.0, k.1)) <==> s.docs.contains_key(k.1) && content(
            s.docs[k.1].text,
        ).contains(k.0));
    }
    assert(t.postings =~= s.postings);
}

// ---- field by field --------------------------------------------------------------------

/// What is stored of a record is the record: after an upsert the document under
/// the id of a record, the last with that id, has the record's id, text,
/// metadata and shape, how many content tokens its text has, no tags and no
/// connector; and the vector under the id is the record's.
pub proof fn law_stored_documents_are_their_records(
    s: EstateView,
    olds: Seq<Option<DocView>>,
    records: Seq<RecordView>,
    i: int,
)
    requires
        olds.len() == records.len(),
        0 <= i < records.len(),
        forall|j: int| i < j < records.len() ==> (#[trigger] records[j]).id != records[i].id,
    ensures
        ({
            let r = records[i];
            let n = upserted(s, olds, records);
            let d = n.docs[r.id];
            &&& n.docs.contains_key(r.id)
            &&& d.id == r.id
            &&& d.text == r.text
            &&& d.metadata == r.metadata
            &&& d.shape == r.shape
            &&& content(r.text).len() <= u32::MAX ==> d.token_len == content(r.text).len()
            &&& d.tags.len() == 0
            &&& d.connector_id is None
            &&& n.vecs.contains_key(r.id)
            &&& n.vecs[r.id] == r.embedding
        }),
{
    law_upserts_are_read_back(s, olds, records, i, records[i].id);
}

/// A new document counts: one document more, as many tokens more as its text
/// has content tokens, one more of its shape and of no other.
pub proof fn law_new_documents_are_counted(s: EstateView, r: RecordView, shape: Seq<char>)
    ensures
        ({
            let n = upserted_one(s, None, r);
            &&& n.doc_count == s.doc_count + 1
            &&& n.total_tokens == s.total_tokens + content(r.text).len()
            &&& shape == r.shape ==> count_of(n.shapes, shape) == count_of(s.shapes, shape) + 1
            &&& shape != r.shape ==> count_of(n.shapes, shape) == count_of(s.shapes, shape)
        }),
{
}

/// An overwritten document counts once: as many documents as before, the tokens
/// of the old version taken off and those of the new one added, one less of the
/// old shape and one more of the new.
pub proof fn law_overwritten_documents_count_once(
    s: EstateView,
    old: DocView,
    r: RecordView,
    shape: Seq<char>,
)
    requires
        s.doc_count > 0,
        s.total_tokens >= old.token_len,
        count_of(s.shapes, old.shape) > 0,
    ensures
        ({
            let n = upserted_one(s, Some(old), r);
            &&& n.doc_count == s.doc_count
            &&& n.total_tokens == s.total_tokens - old.token_len + content(r.text).len()
            &&& count_of(n.shapes, shape) == count_of(s.shapes, shape) - (if shape == old.shape {
                1int
            } else {
                0
            }) + (if shape == r.shape {
                1int
            } else {
                0
            })
        }),
{
}

/// The postings after one record: the document's new terms each have one, with
/// at how many positions the term stands and how many tokens there are; the old
/// version's terms have none unless they are new ones; and the postings of
/// other documents stay.
pub proof fn law_postings_are_positions(
    s: EstateView,
    old: Option<DocView>,
    r: RecordView,
    t: Seq<char>,
    other: Seq<char>,
)
    requires
        content(r.text).len() <= u32::MAX,
        other != r.id,
    ensures
        ({
            let n = upserted_one(s, old, r);
            let c = content(r.text);
            let at = (t, r.id);
            let else_at = (t, other);
            &&& c.contains(t) ==> {
                &&& n.postings.contains_key(at)
                &&& n.postings[at].tf == Set::new(|i: int| 0 <= i < c.len() && c[i] == t).len()
                &&& n.postings[at].len == c.len()
            }
            &&& !c.contains(t) && (old matches Some(d) && content(d.text).contains(t))
                ==> !n.postings.contains_key(at)
            &&& !c.contains(t) && !(old matches Some(d) && content(d.text).contains(t)) ==> (
            n.postings.contains_key(at) <==> s.postings.contains_key(at))
            &&& n.postings.contains_key(else_at) <==> s.postings.contains_key(else_at)
            &&& s.postings.contains_key(else_at) ==> n.postings[else_at] == s.postings[else_at]
        }),
{
    let c = content(r.text);
    law_occurrences_are_positions(c, t);
    let places = Set::new(|i: int| 0 <= i < c.len() && c[i] == t);
    lemma_int_range(0, c.len() as int);
    lemma_len_subset(places, set_int_range(0, c.len() as int));
}

/// An upsert of several records is an upsert of each, one after the other.
pub proof fn law_records_are_upserted_in_turn(
    s: EstateView,
    olds: Seq<Option<DocView>>,
    records: Seq<RecordView>,
    old: Option<DocView>,
    r: RecordView,
)
    requires
        olds.len() == records.len(),
    ensures
        upserted(s, olds.push(old), records.push(r)) == upserted_one(
            upserted(s, olds, records),
            old,
            r,
        ),
        upserted(s, seq![], seq![]) == s,
{
    assert(olds.push(old).drop_last() =~= olds);
    assert(records.push(r).drop_last() =~= records);
}

/// A removal takes the document, its vector and the postings of its terms, and
/// nothing of another document; it counts one document less, the document's
/// tokens and one of its shape. Where there is no document, nothing changes.
pub proof fn law_removal_takes_one_document(
    s: EstateView,
    id: Seq<char>,
    d: DocView,
    t: Seq<char>,
    other: Seq<char>,
    shape: Seq<char>,
)
    requires
        other != id,
        s.doc_count > 0,
        s.total_tokens >= d.token_len,
        count_of(s.shapes, d.shape) > 0,
    ensures
        ({
            let n = removed(s, id, Some(d));
            let at = (t, id);
            let else_at = (t, other);
            &&& !n.docs.contains_key(id)
            &&& !n.vecs.contains_key(id)
            &&& content(d.text).contains(t) ==> !n.postings.contains_key(at)
            &&& n.docs.contains_key(other) <==> s.docs.contains_key(other)
            &&& s.docs.contains_key(other) ==> n.docs[other] == s.docs[other]
            &&& n.vecs.contains_key(other) <==> s.vecs.contains_key(other)
            &&& s.vecs.contains_key(other) ==> n.vecs[other] == s.vecs[other]
            &&& n.postings.contains_key(else_at) <==> s.postings.contains_key(else_at)
            &&& s.postings.contains_key(else_at) ==> n.postings[else_at] == s.postings[else_at]
            &&& n.doc_count == s.doc_count - 1
            &&& n.total_tokens == s.total_tokens - d.token_len
            &&& count_of(n.shapes, shape) == count_of(s.shapes, shape) - (if shape == d.shape {
                1int
            } else {
                0
            })
        }),
        removed(s, id, None) == s,
{
}

/// Counters never fall below zero.
pub proof fn law_counters_stop_at_zero(s: EstateView, id: Seq<char>, d: DocView)
    ensures
        s.doc_count == 0 ==> removed(s, id, Some(d)).doc_count == 0,
        s.total_tokens <= d.token_len ==> removed(s, id, Some(d)).total_tokens == 0,
        count_of(s.shapes, d.shape) == 0 ==> count_of(removed(s, id, Some(d)).shapes, d.shape) == 0,
{
}

/// A write does to the store what it says, and nothing else.
pub proof fn law_writes_do_what_they_say(
    s: EstateView,
    doc: DocView,
    id: Seq<char>,
    v: Seq<u32>,
    term: Seq<char>,
    p: Posting,
    n: nat,
    m: Map<Seq<char>, nat>,
)
    ensures
        applied(s, WriteView::PutDoc { doc }) == (EstateView {
            docs: s.docs.insert(doc.id, doc),
            ..s
        }),
        applied(s, WriteView::DeleteDoc { id }) == (EstateView { docs: s.docs.remove(id), ..s }),
        applied(s, WriteView::PutVec { id, embedding: v }) == (EstateView {
            vecs: s.vecs.insert(id, v),
            ..s
        }),
        applied(s, WriteView::DeleteVec { id }) == (EstateView { vecs: s.vecs.remove(id), ..s }),
        applied(s, WriteView::PutPosting { term, id, posting: p }) == (EstateView {
            postings: s.postings.insert((term, id), p),
            ..s
        }),
        applied(s, WriteView::DeletePosting { term, id }) == (EstateView {
            postings: s.postings.remove((term, id)),
            ..s
        }),
        applied(s, WriteView::PutDocCount { count: n }) == (EstateView { doc_count: n, ..s }),
        applied(s, WriteView::PutTotalTokens { count: n }) == (EstateView {
            total_tokens: n,
            ..s
        }),
        applied(s, WriteView::PutShapes { census: m }) == (EstateView { shapes: m, ..s }),
        forall|ws: Seq<WriteView>, w: WriteView| #[trigger]
            applied_all(s, ws.push(w)) == applied(applied_all(s, ws), w),
        applied_all(s, seq![]) == s,
{
    assert forall|ws: Seq<WriteView>, w: WriteView| #[trigger]
        applied_all(s, ws.push(w)) == applied(applied_all(s, ws), w) by {
        assert(ws.push(w).drop_last() =~= ws);
    }
}

/// A write says all that it holds.
pub proof fn law_writes_hold_every_field(
    doc: StoredDoc,
    id: String,
    v: Vec<u32>,
    term: String,
    p: Posting,
    n: u64,
)
    ensures
        (Write::PutDoc { doc })@ == (WriteView::PutDoc { doc: doc@ }),
        (Write::DeleteDoc { id })@ == (WriteView::DeleteDoc { id: id@ }),
        (Write::PutVec { id, embedding: v })@ == (WriteView::PutVec { id: id@, embedding: v@ }),
        (Write::DeleteVec { id })@ == (WriteView::DeleteVec { id: id@ }),
        (Write::PutPosting { term, id, posting: p })@ == (WriteView::PutPosting {
            term: term@,
            id: id@,
            posting: p,
        }),
        (Write::DeletePosting { term, id })@ == (WriteView::DeletePosting { term: term@, id: id@ }),
        (Write::PutDocCount { count: n })@ == (WriteView::PutDocCount { count: n as nat }),
        (Write::PutTotalTokens { count: n })@ == (WriteView::PutTotalTokens { count: n as nat }),
{
}

/// An upsert is refused for want of room only where a counter could overflow or
/// a text has more tokens than are counted.
pub proof fn law_upserts_with_room_fit(
    records: Seq<RecordView>,
    doc_count: nat,
    total_tokens: nat,
    shapes: Map<Seq<char>, nat>,
    most: nat,
)
    requires
        most <= u32::MAX,
        forall|i: int|
            0 <= i < records.len() ==> content((#[trigger] records[i]).text).len() <= most,
        doc_count + records.len() <= u64::MAX,
        total_tokens + most * records.len() <= u64::MAX,
        forall|k: Seq<char>| #[trigger] count_of(shapes, k) + records.len() <= u64::MAX,
    ensures
        fits(records, doc_count, total_tokens, shapes),
{
    lemma_token_total_bound(records, most);
    assert forall|k: Seq<char>| shapes.contains_key(k) implies #[trigger] shapes[k]
        + records.len() <= u64::MAX by {
        assert(count_of(shapes, k) + records.len() <= u64::MAX);
    }
}

proof fn lemma_token_total_bound(records: Seq<RecordView>, most: nat)
    requires
        forall|i: int|
            0 <= i < records.len() ==> content((#[trigger] records[i]).text).len() <= most,
    ensures
        token_total(records) <= most * records.len(),
    decreases records.len(),
{
    if records.len() > 0 {
        let rest = records.drop_last();
        assert forall|i: int| 0 <= i < rest.len() implies content((#[trigger] rest[i]).text).len()
            <= most by {
            assert(content(records[i].text).len() <= most);
        }
        lemma_token_total_bound(rest, most);
        assert(content(records[records.len() - 1].text).len() <= most);
        assert(most * rest.len() + most == most * records.len()) by (nonlinear_arith)
            requires
                records.len() == rest.len() + 1,
        ;
    }
}

} // verus!
