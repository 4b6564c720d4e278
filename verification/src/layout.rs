//! How what an estate holds stands in the key/value store, and that writes keep
//! it so.
//!
//! Documents, postings and the census are stored as JSON. What is said here
//! holds whatever bytes stand for a value, as long as the same always do.

use vstd::prelude::*;
use vstd::utf8::encode_utf8;

use crate::bytes::{le_bytes, le_value};
use crate::index::Posting;
use crate::keys::{
    law_components_are_four_bytes, law_vectors_are_read_back, no_sep, vec_bytes, vec_of_bytes,
};
use crate::kv::{
    kv_after, kv_after_all, law_unsigned_counters_are_read_back, stored_at, KvOpView, KvView,
    Place,
};
use crate::model::DocView;
use crate::store::{
    applied, applied_all, law_rows_do_not_collide, law_rows_have_their_places, row_cf, row_key,
    row_of, EstateView, Row, WriteView,
};

verus! {

/// The bytes that stand for values.
pub struct Encoding {
    pub doc: spec_fn(DocView) -> Seq<u8>,
    pub posting: spec_fn(Posting) -> Seq<u8>,
    pub census: spec_fn(Map<Seq<char>, nat>) -> Seq<u8>,
}

/// Where a row stands.
pub open spec fn place_of_row(r: Row) -> Place {
    (row_cf(r), row_key(r))
}

/// The write as a put or a delete of bytes.
pub open spec fn op_of(w: WriteView, e: Encoding) -> KvOpView {
    let at = place_of_row(row_of(w));
    match w {
        WriteView::PutDoc { doc } => KvOpView::Put { at, value: (e.doc)(doc) },
        WriteView::PutVec { id, embedding } => KvOpView::Put { at, value: vec_bytes(embedding) },
        WriteView::PutPosting { term, id, posting } => KvOpView::Put {
            at,
            value: (e.posting)(posting),
        },
        WriteView::PutDocCount { count } => KvOpView::Put { at, value: le_bytes(count, 8) },
        WriteView::PutTotalTokens { count } => KvOpView::Put { at, value: le_bytes(count, 8) },
        WriteView::PutShapes { census } => KvOpView::Put { at, value: (e.census)(census) },
        _ => KvOpView::Delete { at },
    }
}

/// The writes as puts and deletes of bytes.
pub open spec fn ops_of(ws: Seq<WriteView>, e: Encoding) -> Seq<KvOpView> {
    ws.map_values(|w: WriteView| op_of(w, e))
}

/// The unsigned counter that is stored, zero where none is.
pub open spec fn stored_count(b: Option<Seq<u8>>) -> nat {
    match b {
        Some(x) => le_value(x.take(8)),
        None => 0,
    }
}

/// The row holds what the estate does.
pub open spec fn row_holds(kv: KvView, s: EstateView, e: Encoding, r: Row) -> bool {
    let b = stored_at(kv, place_of_row(r));
    match r {
        Row::Doc { id } => b == (if s.docs.contains_key(id) {
            Some((e.doc)(s.docs[id]))
        } else {
            None
        }),
        Row::Vector { id } => b == (if s.vecs.contains_key(id) {
            Some(vec_bytes(s.vecs[id]))
        } else {
            None
        }),
        Row::Posting { term, id } => b == (if s.postings.contains_key((term, id)) {
            Some((e.posting)(s.postings[(term, id)]))
        } else {
            None
        }),
        Row::DocCount => stored_count(b) == s.doc_count,
        Row::TotalTokens => stored_count(b) == s.total_tokens,
        Row::Shapes => match b {
            Some(x) => x == (e.census)(s.shapes),
            None => s.shapes == Map::<Seq<char>, nat>::empty(),
        },
    }
}

/// The row can be told from every other by its key.
pub open spec fn proper(r: Row) -> bool {
    r matches Row::Posting { term, id } ==> no_sep(term)
}

/// The store's rows hold what the estate does.
pub open spec fn represents(kv: KvView, s: EstateView, e: Encoding) -> bool {
    forall|r: Row| proper(r) ==> #[trigger] row_holds(kv, s, e, r)
}

/// The write goes to a proper row, and its count fits eight bytes.
pub open spec fn proper_write(w: WriteView) -> bool {
    &&& proper(row_of(w))
    &&& w matches WriteView::PutDocCount { count } ==> count <= u64::MAX
    &&& w matches WriteView::PutTotalTokens { count } ==> count <= u64::MAX
}

proof fn lemma_write_is_represented(kv: KvView, s: EstateView, e: Encoding, w: WriteView)
    requires
        represents(kv, s, e),
        proper_write(w),
    ensures
        represents(kv_after(kv, op_of(w, e)), applied(s, w), e),
{
    let kv1 = kv_after(kv, op_of(w, e));
    let s1 = applied(s, w);
    assert forall|r: Row| proper(r) implies #[trigger] row_holds(kv1, s1, e, r) by {
        assert(row_holds(kv, s, e, r));
        law_rows_do_not_collide(r, row_of(w));
        match w {
            WriteView::PutDocCount { count } => {
                law_unsigned_counters_are_read_back(count as u64);
            },
            WriteView::PutTotalTokens { count } => {
                law_unsigned_counters_are_read_back(count as u64);
            },
            _ => {},
        }
        if r != row_of(w) {
            assert(stored_at(kv1, place_of_row(r)) == stored_at(kv, place_of_row(r)));
        }
    }
}

/// Writes keep the rows and the estate together: after the puts and deletes
/// that a batch of writes stands for, the rows hold what the estate does after
/// the writes.
pub proof fn law_writes_are_represented(
    kv: KvView,
    s: EstateView,
    e: Encoding,
    ws: Seq<WriteView>,
)
    requires
        represents(kv, s, e),
        forall|i: int| 0 <= i < ws.len() ==> proper_write(#[trigger] ws[i]),
    ensures
        represents(kv_after_all(kv, ops_of(ws, e)), applied_all(s, ws), e),
    decreases ws.len(),
{
    if ws.len() > 0 {
        let rest = ws.drop_last();
        assert forall|i: int| 0 <= i < rest.len() implies proper_write(#[trigger] rest[i]) by {
            assert(proper_write(ws[i]));
        }
        law_writes_are_represented(kv, s, e, rest);
        assert(ops_of(ws, e).drop_last() =~= ops_of(rest, e));
        assert(proper_write(ws[ws.len() - 1]));
        lemma_write_is_represented(
            kv_after_all(kv, ops_of(rest, e)),
            applied_all(s, rest),
            e,
            ws.last(),
        );
    }
}

/// What each write puts, and where: a document, a posting and the census as the
/// bytes that stand for them, a vector as four bytes for each component, a
/// counter as eight bytes that hold it.
pub proof fn law_writes_are_their_bytes(
    e: Encoding,
    doc: DocView,
    id: Seq<char>,
    term: Seq<char>,
    embedding: Seq<u32>,
    posting: Posting,
    count: u64,
    census: Map<Seq<char>, nat>,
)
    ensures
        op_of(WriteView::PutDoc { doc }, e) == (KvOpView::Put {
            at: ("docs"@, encode_utf8(doc.id)),
            value: (e.doc)(doc),
        }),
        op_of(WriteView::DeleteDoc { id }, e) == (KvOpView::Delete { at: ("docs"@, encode_utf8(id)) }),
        op_of(WriteView::DeleteVec { id }, e) == (KvOpView::Delete { at: ("vecs"@, encode_utf8(id)) }),
        op_of(WriteView::PutVec { id, embedding }, e) matches KvOpView::Put { at, value } && at == (
            "vecs"@,
            encode_utf8(id),
        ) && value.len() == 4 * embedding.len() && vec_of_bytes(value) == embedding,
        op_of(WriteView::PutPosting { term, id, posting }, e) == (KvOpView::Put {
            at: ("terms"@, encode_utf8(term) + seq![0u8] + encode_utf8(id)),
            value: (e.posting)(posting),
        }),
        op_of(WriteView::DeletePosting { term, id }, e) == (KvOpView::Delete {
            at: ("terms"@, encode_utf8(term) + seq![0u8] + encode_utf8(id)),
        }),
        op_of(WriteView::PutDocCount { count: count as nat }, e) matches KvOpView::Put { at, value }
            && at == ("meta"@, encode_utf8("doc_count"@)) && value.len() == 8 && le_value(value)
            == count,
        op_of(WriteView::PutTotalTokens { count: count as nat }, e) matches KvOpView::Put {
            at,
            value,
        } && at == ("meta"@, encode_utf8("total_tokens"@)) && value.len() == 8 && le_value(value)
            == count,
        op_of(WriteView::PutShapes { census }, e) == (KvOpView::Put {
            at: ("meta"@, encode_utf8("shapes"@)),
            value: (e.census)(census),
        }),
{
    law_rows_have_their_places(id, term);
    law_rows_have_their_places(doc.id, term);
    law_vectors_are_read_back(embedding);
    if embedding.len() > 0 {
        law_components_are_four_bytes(embedding, 0);
    }
    law_unsigned_counters_are_read_back(count);
    assert(le_bytes(count as nat, 8).take(8) =~= le_bytes(count as nat, 8));
}

/// The writes of a list are put or deleted one by one, in order.
pub proof fn law_writes_keep_their_order(ws: Seq<WriteView>, e: Encoding, i: int)
    ensures
        ops_of(ws, e).len() == ws.len(),
        0 <= i < ws.len() ==> ops_of(ws, e)[i] == op_of(ws[i], e),
{
}

/// A counter that is not stored is zero, and one that is has the value of its
/// eight bytes.
pub proof fn law_missing_counters_are_zero(n: u64)
    ensures
        stored_count(None) == 0,
        stored_count(Some(le_bytes(n as nat, 8))) == n,
{
    law_unsigned_counters_are_read_back(n);
}

} // verus!
