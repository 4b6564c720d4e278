//! Key layouts: which row stands where in the key/value store.

use vstd::prelude::*;
use vstd::utf8::*;

use crate::bytes::{
    append, be_bytes, be_value, from_be, from_le, law_bytes_weigh_by_place, le_bytes, le_value,
    lemma_be_round_trip, lemma_le_bytes_len, lemma_le_round_trip, lemma_le_value_bound,
    lemma_pow256_values, slice, to_be, to_le,
};
use crate::order::has_prefix;
use crate::score::{f64_rank, rank_f64, unrank_f64};

verus! {

/// Document payloads, by id.
pub const CF_DOCS: &'static str = "docs";

/// Dense vectors, by id.
pub const CF_VECS: &'static str = "vecs";

/// Named vectors.
pub const CF_NVECS: &'static str = "nvecs";

/// Multi-vectors.
pub const CF_MVECS: &'static str = "mvecs";

/// Estate counters and settings.
pub const CF_META: &'static str = "meta";

/// Nodes of the estate map.
pub const CF_NODES: &'static str = "nodes";

/// Connectors.
pub const CF_CONNS: &'static str = "conns";

/// Collections.
pub const CF_COLL: &'static str = "coll";

/// Document frequencies, by term.
pub const CF_TDF: &'static str = "tdf";

/// Postings: one row per term and document.
pub const CF_TERMS: &'static str = "terms";

/// Payload index: one row per field, value and document.
pub const CF_PIDX: &'static str = "pidx";

/// Every column family.
pub const COLUMN_FAMILIES: [&'static str; 11] = [
    CF_DOCS, CF_VECS, CF_NVECS, CF_MVECS, CF_META, CF_NODES, CF_CONNS, CF_COLL, CF_TDF, CF_TERMS,
    CF_PIDX,
];

/// Where the estate's own record stands in [`CF_META`].
pub const META_ESTATE: &'static str = "estate";

/// Where the number of documents stands in [`CF_META`].
pub const META_DOC_COUNT: &'static str = "doc_count";

/// Where the number of tokens stands in [`CF_META`].
pub const META_TOTAL_TOKENS: &'static str = "total_tokens";

/// Where the shape census stands in [`CF_META`].
pub const META_SHAPES: &'static str = "shapes";

/// Where the list of payload-indexed fields stands in [`CF_META`].
pub const META_PIDX: &'static str = "pidx";

/// What separates the parts of a key.
pub const SEP: u8 = 0;

/// What marks a number among the values of a field.
pub const TAG_NUMBER: u8 = 0x6e;

/// What marks a text among the values of a field.
pub const TAG_TEXT: u8 = 0x73;

/// What marks a truth value among the values of a field.
pub const TAG_BOOL: u8 = 0x62;

/// What marks an empty value among the values of a field.
pub const TAG_NULL: u8 = 0x7a;

/// The value of a payload field. A number is the bit pattern of a 64-bit
/// floating-point number.
#[derive(Debug)]
pub enum FieldValue {
    Null,
    Bool(bool),
    Number(u64),
    Text(String),
}

/// The value of a payload field.
pub enum FieldView {
    Null,
    Bool(bool),
    Number(u64),
    Text(Seq<char>),
}

impl View for FieldValue {
    type V = FieldView;

    open spec fn view(&self) -> FieldView {
        match *self {
            FieldValue::Null => FieldView::Null,
            FieldValue::Bool(b) => FieldView::Bool(b),
            FieldValue::Number(n) => FieldView::Number(n),
            FieldValue::Text(s) => FieldView::Text(s@),
        }
    }
}

// ---- texts without the separator ------------------------------------------------

/// The text does not hold the separator.
pub open spec fn no_sep(s: Seq<char>) -> bool {
    !s.contains('\0')
}

/// No byte is the separator.
pub open spec fn no_sep_bytes(b: Seq<u8>) -> bool {
    forall|i: int| 0 <= i < b.len() ==> #[trigger] b[i] != SEP
}

proof fn lemma_scalar_bytes(v: u32)
    by (bit_vector)
    ensures
        (0 < v && v <= 0x7f) ==> ((v & 0x7F) as u8) != 0,
        (0xC0u8 | ((v >> 6) & 0x1F) as u8) != 0,
        (0xE0u8 | ((v >> 12) & 0x0F) as u8) != 0,
        (0xF0u8 | ((v >> 18) & 0x7) as u8) != 0,
        (0x80u8 | (v & 0x3F) as u8) != 0,
        (0x80u8 | ((v >> 6) & 0x3F) as u8) != 0,
        (0x80u8 | ((v >> 12) & 0x3F) as u8) != 0,
{
}

/// A text without the separator has no separator among its bytes.
pub proof fn lemma_no_sep_bytes(s: Seq<char>)
    requires
        no_sep(s),
    ensures
        no_sep_bytes(encode_utf8(s)),
    decreases s.len(),
{
    if s.len() > 0 {
        let rest = s.drop_first();
        assert(no_sep(rest)) by {
            if rest.contains('\0') {
                let i = choose|i: int| 0 <= i < rest.len() && rest[i] == '\0';
                assert(s[i + 1] == '\0');
            }
        }
        lemma_no_sep_bytes(rest);
        let v = s[0] as u32;
        char_is_scalar(s[0]);
        assert(s[0] != '\0') by {
            if s[0] == '\0' {
                assert(s.contains('\0'));
            }
        }
        lemma_scalar_bytes(v);
        let head = encode_scalar(v);
        let tail = encode_utf8(rest);
        char_u32_cast(s[0], v);
        char_u32_cast('\0', 0);
        assert(no_sep_bytes(head));
        assert forall|i: int| 0 <= i < encode_utf8(s).len() implies #[trigger] encode_utf8(s)[i]
            != SEP by {
            if i < head.len() {
                assert(encode_utf8(s)[i] == head[i]);
            } else {
                assert(encode_utf8(s)[i] == tail[i - head.len()]);
            }
        }
    }
}

/// The first separator of a key tells where its first part ends.
pub proof fn lemma_first_part(a: Seq<u8>, b: Seq<u8>, rest: Seq<u8>)
    requires
        no_sep_bytes(a),
        no_sep_bytes(b),
        has_prefix(a.push(SEP) + rest, b.push(SEP)),
    ensures
        a == b,
{
    let key = a.push(SEP) + rest;
    let p = b.push(SEP);
    assert forall|i: int| 0 <= i < p.len() implies key[i] == p[i] by {
        assert(key.take(p.len() as int)[i] == p[i]);
    }
    if a.len() < b.len() {
        assert(key[a.len() as int] == SEP);
        assert(p[a.len() as int] == b[a.len() as int]);
    } else if b.len() < a.len() {
        assert(p[b.len() as int] == SEP);
        assert(key[b.len() as int] == a[b.len() as int]);
    } else {
        assert forall|i: int| 0 <= i < a.len() implies a[i] == b[i] by {
            assert(key[i] == p[i]);
        }
        assert(a =~= b);
    }
}

/// A longer prefix holds the shorter one.
pub proof fn lemma_prefix_of_prefix(key: Seq<u8>, long: Seq<u8>, short: Seq<u8>)
    requires
        has_prefix(key, long),
        has_prefix(long, short),
    ensures
        has_prefix(key, short),
{
    assert(key.take(short.len() as int) =~= long.take(short.len() as int)) by {
        assert forall|i: int| 0 <= i < short.len() implies key[i] == long[i] by {
            assert(key.take(long.len() as int)[i] == long[i]);
        }
    }
}

/// What is put together begins with its first part.
pub proof fn lemma_prefix_of_sum(a: Seq<u8>, b: Seq<u8>)
    ensures
        has_prefix(a + b, a),
        (a + b).skip(a.len() as int) == b,
{
    assert((a + b).take(a.len() as int) =~= a);
    assert((a + b).skip(a.len() as int) =~= b);
}

/// The text that the bytes of a text encode is that text.
pub proof fn lemma_text_of_utf8(s: Seq<char>)
    ensures
        valid_utf8(encode_utf8(s)),
        decode_utf8(encode_utf8(s)) == s,
{
    encode_utf8_valid_utf8(s);
    encode_utf8_decode_utf8(s);
}

// ---- postings --------------------------------------------------------------------

/// What all keys of a term's postings begin with: the term and the separator.
pub open spec fn term_prefix_of(term: Seq<char>) -> Seq<u8> {
    encode_utf8(term).push(SEP)
}

/// The key of a term's posting for a document: the term, the separator, the id.
pub open spec fn term_key_of(term: Seq<char>, id: Seq<char>) -> Seq<u8> {
    term_prefix_of(term) + encode_utf8(id)
}

/// What all keys of a term's postings begin with.
pub fn term_prefix(term: &str) -> (r: Vec<u8>)
    ensures
        r@ == term_prefix_of(term@),
{
    let mut out: Vec<u8> = Vec::new();
    append(&mut out, term.as_bytes());
    assert(out@ =~= encode_utf8(term@));
    out.push(SEP);
    out
}

/// The key of a term's posting for a document.
pub fn term_key(term: &str, id: &str) -> (r: Vec<u8>)
    ensures
        r@ == term_key_of(term@, id@),
{
    let mut out = term_prefix(term);
    append(&mut out, id.as_bytes());
    out
}

/// Where the first separator of `key` stands; its length where there is none.
pub open spec fn first_sep(key: Seq<u8>) -> nat
    decreases key.len(),
{
    if key.len() == 0 || key[0] == SEP {
        0
    } else {
        1 + first_sep(key.drop_first())
    }
}

/// What a prefix filter on the postings goes by: everything up to and with
/// the first separator, or all of a key that has none.
pub open spec fn term_prefix_in(key: Seq<u8>) -> Seq<u8> {
    if first_sep(key) < key.len() {
        key.take(first_sep(key) as int + 1)
    } else {
        key
    }
}

proof fn lemma_first_sep(key: Seq<u8>, n: int)
    requires
        0 <= n <= key.len(),
        no_sep_bytes(key.take(n)),
        n < key.len() ==> key[n] == SEP,
    ensures
        first_sep(key) == n,
    decreases key.len(),
{
    if n > 0 {
        assert(key.take(n)[0] == key[0]);
        let rest = key.drop_first();
        assert forall|i: int| 0 <= i < n - 1 implies #[trigger] rest.take(n - 1)[i] != SEP by {
            assert(key.take(n)[i + 1] != SEP);
        }
        lemma_first_sep(rest, n - 1);
    }
}

/// What a prefix filter on the postings goes by.
pub fn extract_term_prefix(key: &[u8]) -> (r: Vec<u8>)
    ensures
        r@ == term_prefix_in(key@),
{
    let mut i: usize = 0;
    while i < key.len() && key[i] != SEP
        invariant
            i <= key.len(),
            no_sep_bytes(key@.take(i as int)),
        decreases key.len() - i,
    {
        assert forall|j: int| 0 <= j < i + 1 implies #[trigger] key@.take(i + 1)[j] != SEP by {
            if j < i {
                assert(key@.take(i as int)[j] != SEP);
            }
        }
        i = i + 1;
    }
    proof {
        lemma_first_sep(key@, i as int);
    }
    if i < key.len() {
        let r = slice(key, 0, i + 1);
        assert(r@ =~= key@.take(i + 1));
        r
    } else {
        let r = slice(key, 0, i);
        assert(r@ =~= key@);
        r
    }
}

/// Whether a prefix filter can answer for `key`: it holds a separator.
pub fn has_term_prefix(key: &[u8]) -> (r: bool)
    ensures
        r == key@.contains(SEP),
{
    let mut i: usize = 0;
    while i < key.len()
        invariant
            i <= key.len(),
            forall|j: int| 0 <= j < i ==> key@[j] != SEP,
        decreases key.len() - i,
    {
        if key[i] == SEP {
            assert(key@[i as int] == SEP);
            return true;
        }
        i = i + 1;
    }
    false
}

/// The prefix filter on the postings goes by the term: what it takes of a
/// posting's key is the prefix that a scan of the term's postings seeks.
pub proof fn law_prefix_filter_goes_by_term(term: Seq<char>, id: Seq<char>)
    requires
        no_sep(term),
    ensures
        term_prefix_in(term_key_of(term, id)) == term_prefix_of(term),
        term_prefix_in(term_prefix_of(term)) == term_prefix_of(term),
{
    let t = encode_utf8(term);
    let key = term_key_of(term, id);
    lemma_no_sep_bytes(term);
    assert(key.take(t.len() as int) =~= t);
    lemma_first_sep(key, t.len() as int);
    assert(key.take(t.len() as int + 1) =~= term_prefix_of(term));
    assert(term_prefix_of(term).take(t.len() as int) =~= t);
    lemma_first_sep(term_prefix_of(term), t.len() as int);
    assert(term_prefix_of(term).take(t.len() as int + 1) =~= term_prefix_of(term));
}

/// A posting's key tells its term and its document: no two postings share one.
pub proof fn law_posting_keys_are_distinct(t1: Seq<char>, d1: Seq<char>, t2: Seq<char>, d2: Seq<char>)
    requires
        no_sep(t1),
        no_sep(t2),
    ensures
        term_key_of(t1, d1) == term_key_of(t2, d2) <==> t1 == t2 && d1 == d2,
        has_prefix(term_key_of(t1, d1), term_prefix_of(t2)) <==> t1 == t2,
{
    let k1 = term_key_of(t1, d1);
    let k2 = term_key_of(t2, d2);
    lemma_no_sep_bytes(t1);
    lemma_no_sep_bytes(t2);
    lemma_text_of_utf8(t1);
    lemma_text_of_utf8(t2);
    lemma_text_of_utf8(d1);
    lemma_text_of_utf8(d2);
    lemma_prefix_of_sum(term_prefix_of(t1), encode_utf8(d1));
    lemma_prefix_of_sum(term_prefix_of(t2), encode_utf8(d2));
    if has_prefix(k1, term_prefix_of(t2)) {
        lemma_first_part(encode_utf8(t1), encode_utf8(t2), encode_utf8(d1));
    }
}

// ---- vectors ---------------------------------------------------------------------

/// A vector as bytes: four per component, least significant first. A component
/// is the bit pattern of a 32-bit floating-point number.
pub open spec fn vec_bytes(v: Seq<u32>) -> Seq<u8>
    decreases v.len(),
{
    if v.len() == 0 {
        seq![]
    } else {
        vec_bytes(v.drop_last()) + le_bytes(v.last() as nat, 4)
    }
}

/// The vector that bytes hold: a component for every four bytes.
pub open spec fn vec_of_bytes(b: Seq<u8>) -> Seq<u32> {
    Seq::new(b.len() / 4, |i: int| le_value(b.subrange(4 * i, 4 * i + 4)) as u32)
}

/// A vector as bytes.
pub fn encode_vec(v: &Vec<u32>) -> (r: Vec<u8>)
    ensures
        r@ == vec_bytes(v@),
{
    let mut out: Vec<u8> = Vec::new();
    let mut i: usize = 0;
    assert(out@ =~= vec_bytes(v@.take(0)));
    while i < v.len()
        invariant
            i <= v.len(),
            out@ == vec_bytes(v@.take(i as int)),
        decreases v.len() - i,
    {
        let four = to_le(v[i] as u64, 4);
        append(&mut out, four.as_slice());
        assert(v@.take(i + 1).drop_last() =~= v@.take(i as int));
        i = i + 1;
    }
    assert(v@.take(i as int) =~= v@);
    out
}

/// The vector that bytes hold.
pub fn decode_vec(b: &[u8]) -> (r: Vec<u32>)
    ensures
        r@ == vec_of_bytes(b@),
{
    let n: usize = b.len() / 4;
    let mut out: Vec<u32> = Vec::new();
    let mut i: usize = 0;
    while i < n
        invariant
            i <= n,
            n == b.len() / 4,
            out@.len() == i,
            forall|j: int| 0 <= j < i ==> #[trigger] out@[j] == vec_of_bytes(b@)[j],
        decreases n - i,
    {
        let four = slice(b, 4 * i, 4 * i + 4);
        proof {
            lemma_le_value_bound(four@);
            lemma_pow256_values();
        }
        out.push(from_le(four.as_slice()) as u32);
        i = i + 1;
    }
    assert(out@ =~= vec_of_bytes(b@));
    out
}

proof fn lemma_vec_bytes(v: Seq<u32>)
    ensures
        vec_bytes(v).len() == 4 * v.len(),
        vec_of_bytes(vec_bytes(v)) == v,
    decreases v.len(),
{
    if v.len() > 0 {
        let rest = v.drop_last();
        lemma_vec_bytes(rest);
        lemma_le_bytes_len(v.last() as nat, 4);
        let b = vec_bytes(v);
        let head = vec_bytes(rest);
        assert forall|i: int| 0 <= i < v.len() implies vec_of_bytes(b)[i] == v[i] by {
            if i < rest.len() {
                assert(b.subrange(4 * i, 4 * i + 4) =~= head.subrange(4 * i, 4 * i + 4));
                assert(vec_of_bytes(head)[i] == rest[i]);
            } else {
                assert(b.subrange(4 * i, 4 * i + 4) =~= le_bytes(v.last() as nat, 4));
                lemma_pow256_values();
                lemma_le_round_trip(v.last() as nat, 4);
            }
        }
        assert(vec_of_bytes(b) =~= v);
    } else {
        assert(vec_of_bytes(vec_bytes(v)) =~= v);
    }
}

/// A stored vector is read back as it was written.
pub proof fn law_vectors_are_read_back(v: Seq<u32>)
    ensures
        vec_of_bytes(vec_bytes(v)) == v,
{
    lemma_vec_bytes(v);
}

// ---- payload index ---------------------------------------------------------------

/// Where a number stands among all numbers. Both zeros stand in one place.
pub open spec fn number_rank(bits: u64) -> nat {
    if bits == 0x8000_0000_0000_0000 {
        f64_rank(0) as nat
    } else {
        f64_rank(bits) as nat
    }
}

/// A number as eight bytes that are ordered as the numbers are.
pub fn encode_f64_sortable(bits: u64) -> (r: Vec<u8>)
    ensures
        r@ == be_bytes(number_rank(bits), 8),
        r@.len() == 8,
{
    let rank: u64 = if bits == 0x8000_0000_0000_0000 {
        rank_f64(0)
    } else {
        rank_f64(bits)
    };
    to_be(rank)
}

/// The number that eight bytes hold.
pub fn decode_f64_sortable(b: &[u8]) -> (r: u64)
    requires
        b.len() <= 8,
    ensures
        f64_rank(r) == be_value(b@),
{
    unrank_f64(from_be(b))
}

/// A number that was encoded is decoded again, a negative zero as zero.
pub proof fn law_numbers_are_read_back(bits: u64, back: u64)
    requires
        f64_rank(back) == be_value(be_bytes(number_rank(bits), 8)),
    ensures
        back == (if bits == 0x8000_0000_0000_0000 {
            0
        } else {
            bits
        }),
{
    lemma_pow256_values();
    lemma_be_round_trip(number_rank(bits), 8);
}

/// What all rows of a field begin with: the field and the separator.
pub open spec fn field_prefix_of(field: Seq<char>) -> Seq<u8> {
    encode_utf8(field).push(SEP)
}

/// What all rows of a field's numbers begin with.
pub open spec fn num_prefix_of(field: Seq<char>) -> Seq<u8> {
    field_prefix_of(field).push(TAG_NUMBER)
}

/// A value as it stands in a row, behind its mark.
pub open spec fn value_part(value: FieldView) -> Seq<u8> {
    match value {
        FieldView::Null => seq![],
        FieldView::Bool(b) => seq![if b {
            1u8
        } else {
            2u8
        }],
        FieldView::Number(n) => be_bytes(number_rank(n), 8),
        FieldView::Text(s) => encode_utf8(s),
    }
}

/// The mark of a value.
pub open spec fn value_tag(value: FieldView) -> u8 {
    match value {
        FieldView::Null => TAG_NULL,
        FieldView::Bool(b) => TAG_BOOL,
        FieldView::Number(n) => TAG_NUMBER,
        FieldView::Text(s) => TAG_TEXT,
    }
}

/// What all rows of a value of a field begin with: the field, the separator,
/// the value's mark, the value, the separator.
pub open spec fn value_prefix_of(field: Seq<char>, value: FieldView) -> Seq<u8> {
    (field_prefix_of(field).push(value_tag(value)) + value_part(value)).push(SEP)
}

/// The row of a field's value in a document.
pub open spec fn pidx_key_of(field: Seq<char>, value: FieldView, id: Seq<char>) -> Seq<u8> {
    value_prefix_of(field, value) + encode_utf8(id)
}

/// What all rows of a field begin with.
pub fn pidx_field_prefix(field: &str) -> (r: Vec<u8>)
    ensures
        r@ == field_prefix_of(field@),
{
    let mut out: Vec<u8> = Vec::new();
    append(&mut out, field.as_bytes());
    assert(out@ =~= encode_utf8(field@));
    out.push(SEP);
    out
}

/// What all rows of a field's numbers begin with.
pub fn pidx_num_prefix(field: &str) -> (r: Vec<u8>)
    ensures
        r@ == num_prefix_of(field@),
{
    let mut out = pidx_field_prefix(field);
    out.push(TAG_NUMBER);
    out
}

/// What all rows of a value of a field begin with.
pub fn pidx_value_prefix(field: &str, value: &FieldValue) -> (r: Vec<u8>)
    ensures
        r@ == value_prefix_of(field@, value@),
{
    let mut out = pidx_field_prefix(field);
    let ghost start = out@;
    match value {
        FieldValue::Null => {
            out.push(TAG_NULL);
            assert(out@ =~= start.push(TAG_NULL) + value_part(value@));
        },
        FieldValue::Bool(b) => {
            out.push(TAG_BOOL);
            out.push(
                if *b {
                    1
                } else {
                    2
                },
            );
            assert(out@ =~= start.push(TAG_BOOL) + value_part(value@));
        },
        FieldValue::Number(n) => {
            out.push(TAG_NUMBER);
            let eight = encode_f64_sortable(*n);
            append(&mut out, eight.as_slice());
        },
        FieldValue::Text(s) => {
            out.push(TAG_TEXT);
            append(&mut out, s.as_str().as_bytes());
        },
    }
    out.push(SEP);
    out
}

/// The row of a field's value in a document.
pub fn pidx_key(field: &str, value: &FieldValue, id: &str) -> (r: Vec<u8>)
    ensures
        r@ == pidx_key_of(field@, value@, id@),
{
    let mut out = pidx_value_prefix(field, value);
    append(&mut out, id.as_bytes());
    out
}

/// A vector takes four bytes for each component, in order, each with the least
/// significant byte first.
pub proof fn law_components_are_four_bytes(v: Seq<u32>, i: int)
    requires
        0 <= i < v.len(),
    ensures
        vec_bytes(v).len() == 4 * v.len(),
        vec_bytes(v)[4 * i] + 0x100 * vec_bytes(v)[4 * i + 1] + 0x10000 * vec_bytes(v)[4 * i + 2]
            + 0x1000000 * vec_bytes(v)[4 * i + 3] == v[i],
{
    let b = vec_bytes(v);
    lemma_vec_bytes(v);
    assert(vec_of_bytes(b)[i] == v[i]);
    let w = b.subrange(4 * i, 4 * i + 4);
    assert(w =~= seq![b[4 * i], b[4 * i + 1], b[4 * i + 2], b[4 * i + 3]]);
    law_bytes_weigh_by_place(b[4 * i], b[4 * i + 1], b[4 * i + 2], b[4 * i + 3], Seq::empty());
}

/// Bytes hold a component for each four of them, and what is left over at the
/// end holds none.
pub proof fn law_four_bytes_are_a_component(b: Seq<u8>, i: int)
    requires
        0 <= i < b.len() / 4,
    ensures
        vec_of_bytes(b).len() == b.len() / 4,
        vec_of_bytes(b)[i] == b[4 * i] + 0x100 * b[4 * i + 1] + 0x10000 * b[4 * i + 2] + 0x1000000
            * b[4 * i + 3],
{
    let w = b.subrange(4 * i, 4 * i + 4);
    assert(w =~= seq![b[4 * i], b[4 * i + 1], b[4 * i + 2], b[4 * i + 3]]);
    law_bytes_weigh_by_place(b[4 * i], b[4 * i + 1], b[4 * i + 2], b[4 * i + 3], Seq::empty());
}

/// The key of a posting is the term, a zero byte, and the id.
pub proof fn law_posting_keys_are_term_and_id(term: Seq<char>, id: Seq<char>)
    ensures
        term_prefix_of(term) == encode_utf8(term) + seq![0u8],
        term_key_of(term, id) == encode_utf8(term) + seq![0u8] + encode_utf8(id),
{
    assert(term_prefix_of(term) =~= encode_utf8(term) + seq![0u8]);
}

/// The row of a field's value in a document, byte by byte: the field, a zero
/// byte, a mark for the kind of the value, the value, a zero byte, and the id. A
/// truth value is one byte, a number eight that are ordered as numbers are.
pub proof fn law_payload_rows_are_field_value_and_id(
    field: Seq<char>,
    s: Seq<char>,
    n: u64,
    id: Seq<char>,
)
    ensures
        field_prefix_of(field) == encode_utf8(field) + seq![0u8],
        num_prefix_of(field) == encode_utf8(field) + seq![0u8, 0x6eu8],
        pidx_key_of(field, FieldView::Null, id) == encode_utf8(field) + seq![0u8, 0x7au8, 0u8]
            + encode_utf8(id),
        pidx_key_of(field, FieldView::Bool(true), id) == encode_utf8(field) + seq![
            0u8,
            0x62u8,
            1u8,
            0u8,
        ] + encode_utf8(id),
        pidx_key_of(field, FieldView::Bool(false), id) == encode_utf8(field) + seq![
            0u8,
            0x62u8,
            2u8,
            0u8,
        ] + encode_utf8(id),
        pidx_key_of(field, FieldView::Number(n), id) == encode_utf8(field) + seq![0u8, 0x6eu8]
            + be_bytes(number_rank(n), 8) + seq![0u8] + encode_utf8(id),
        pidx_key_of(field, FieldView::Text(s), id) == encode_utf8(field) + seq![0u8, 0x73u8]
            + encode_utf8(s) + seq![0u8] + encode_utf8(id),
{
    assert(field_prefix_of(field) =~= encode_utf8(field) + seq![0u8]);
    assert(num_prefix_of(field) =~= encode_utf8(field) + seq![0u8, 0x6eu8]);
    assert(pidx_key_of(field, FieldView::Null, id) =~= encode_utf8(field) + seq![0u8, 0x7au8, 0u8]
        + encode_utf8(id));
    assert(pidx_key_of(field, FieldView::Bool(true), id) =~= encode_utf8(field) + seq![
        0u8,
        0x62u8,
        1u8,
        0u8,
    ] + encode_utf8(id));
    assert(pidx_key_of(field, FieldView::Bool(false), id) =~= encode_utf8(field) + seq![
        0u8,
        0x62u8,
        2u8,
        0u8,
    ] + encode_utf8(id));
    assert(pidx_key_of(field, FieldView::Number(n), id) =~= encode_utf8(field) + seq![0u8, 0x6eu8]
        + be_bytes(number_rank(n), 8) + seq![0u8] + encode_utf8(id));
    assert(pidx_key_of(field, FieldView::Text(s), id) =~= encode_utf8(field) + seq![0u8, 0x73u8]
        + encode_utf8(s) + seq![0u8] + encode_utf8(id));
}

/// A value's view is the value.
pub proof fn law_field_views_are_their_values(b: bool, n: u64, s: String)
    ensures
        FieldValue::Null@ == FieldView::Null,
        FieldValue::Bool(b)@ == FieldView::Bool(b),
        FieldValue::Number(n)@ == FieldView::Number(n),
        FieldValue::Text(s)@ == FieldView::Text(s@),
{
}

} // verus!
