//! What the payload index holds, and that filters are answered from it exactly.

use vstd::prelude::*;
use vstd::utf8::*;

use crate::bytes::{
    be_bytes, be_value, lemma_be_bytes_are_ordered, lemma_be_round_trip, lemma_pow256_values,
};
use crate::filter::{
    above, after_last_sep, cond_ids, filter_keys_in, in_all, in_any, is_nan, key_of, lower_of,
    matching, number_in_row, number_le, number_lt, number_order, passes, rows_sorted, scanned,
    scans_of, start_of, step_of, walked, Bounds, CondView, FilterView, ScanView, StepView,
};
use crate::keys::{
    field_prefix_of, lemma_first_part, lemma_no_sep_bytes, lemma_prefix_of_prefix,
    lemma_prefix_of_sum, lemma_text_of_utf8, no_sep, no_sep_bytes, num_prefix_of, number_rank,
    pidx_key_of, value_part, value_prefix_of, value_tag, FieldView, SEP, TAG_NUMBER,
};
use crate::order::{
    has_prefix, lemma_lex_asymmetric, lemma_lex_transitive, lemma_prefix_is_contiguous,
    lemma_prefix_is_lower_bound, lex_le, lex_lt,
};
use crate::text::lossy_text;

verus! {

/// A field's value in a document.
pub struct Entry {
    pub field: Seq<char>,
    pub value: FieldView,
    pub id: Seq<char>,
}

/// The row of an entry.
pub open spec fn entry_key(e: Entry) -> Seq<u8> {
    pidx_key_of(e.field, e.value, e.id)
}

/// The value can be told apart in a row: a text without the separator, a
/// number that is one.
pub open spec fn clean_value(v: FieldView) -> bool {
    match v {
        FieldView::Text(s) => no_sep(s),
        FieldView::Number(n) => !is_nan(n),
        _ => true,
    }
}

/// The parts of the entry can be told apart in its row.
pub open spec fn clean_entry(e: Entry) -> bool {
    no_sep(e.field) && clean_value(e.value) && no_sep(e.id)
}

/// `rows` are the rows of the entries, in key order.
pub open spec fn is_index(entries: Set<Entry>, rows: Seq<Seq<u8>>) -> bool {
    &&& rows_sorted(rows)
    &&& forall|i: int|
        0 <= i < rows.len() ==> exists|e: Entry|
            entries.contains(e) && #[trigger] entry_key(e) == #[trigger] rows[i]
    &&& forall|e: Entry| #[trigger] entries.contains(e) ==> rows.contains(entry_key(e))
    &&& forall|e: Entry| #[trigger] entries.contains(e) ==> clean_entry(e)
}

/// The values are the same; both zeros are.
pub open spec fn same_value(a: FieldView, b: FieldView) -> bool {
    match (a, b) {
        (FieldView::Number(x), FieldView::Number(y)) => number_rank(x) == number_rank(y),
        _ => a == b,
    }
}

/// The number lies within the bounds.
pub open spec fn within(b: Bounds, x: u64) -> bool {
    &&& b.gt matches Some(y) ==> number_lt(y, x)
    &&& b.gte matches Some(y) ==> number_le(y, x)
    &&& b.lt matches Some(y) ==> number_lt(x, y)
    &&& b.lte matches Some(y) ==> number_le(x, y)
}

/// The bounds are numbers.
pub open spec fn clean_bounds(b: Bounds) -> bool {
    &&& b.gt matches Some(y) ==> !is_nan(y)
    &&& b.gte matches Some(y) ==> !is_nan(y)
    &&& b.lt matches Some(y) ==> !is_nan(y)
    &&& b.lte matches Some(y) ==> !is_nan(y)
}

/// What the condition asks for can be told apart in a row.
pub open spec fn clean_cond(c: CondView) -> bool {
    match c {
        CondView::Eq { key, value } => no_sep(key) && clean_value(value),
        CondView::Any { key, values } => no_sep(key) && forall|i: int|
            0 <= i < values.len() ==> clean_value(#[trigger] values[i]),
        CondView::Range { key, bounds } => no_sep(key) && clean_bounds(bounds),
        CondView::Exists { key } => no_sep(key),
    }
}

/// The entry is what the condition asks for.
pub open spec fn meets(e: Entry, c: CondView) -> bool {
    match c {
        CondView::Eq { key, value } => e.field == key && same_value(e.value, value),
        CondView::Any { key, values } => e.field == key && exists|i: int|
            0 <= i < values.len() && same_value(e.value, #[trigger] values[i]),
        CondView::Range { key, bounds } => e.field == key && (e.value matches FieldView::Number(x)
            && within(bounds, x)),
        CondView::Exists { key } => e.field == key,
    }
}

/// The documents that have an entry that the condition asks for.
pub open spec fn holders(entries: Set<Entry>, c: CondView) -> Set<Seq<char>> {
    Set::new(
        |id: Seq<char>|
            exists|e: Entry| #[trigger] entries.contains(e) && e.id == id && meets(e, c),
    )
}

// ---- rows ------------------------------------------------------------------------

proof fn lemma_strip(a: Seq<u8>, x: Seq<u8>, y: Seq<u8>)
    ensures
        has_prefix(a + x, a + y) <==> has_prefix(x, y),
{
    let n = a.len() as int;
    if has_prefix(a + x, a + y) {
        assert(x.take(y.len() as int) =~= y) by {
            assert forall|i: int| 0 <= i < y.len() implies x[i] == y[i] by {
                assert((a + x).take((a + y).len() as int)[n + i] == (a + y)[n + i]);
            }
        }
    }
    if has_prefix(x, y) {
        assert((a + x).take((a + y).len() as int) =~= a + y) by {
            assert forall|i: int| 0 <= i < y.len() implies x[i] == y[i] by {
                assert(x.take(y.len() as int)[i] == y[i]);
            }
        }
    }
}

/// What stands behind the field in the row of an entry.
spec fn tail_of(e: Entry) -> Seq<u8> {
    (seq![value_tag(e.value)] + value_part(e.value)).push(SEP) + encode_utf8(e.id)
}

proof fn lemma_entry_key(e: Entry)
    ensures
        entry_key(e) == field_prefix_of(e.field) + tail_of(e),
        entry_key(e) == field_prefix_of(e.field).push(value_tag(e.value)) + (value_part(
            e.value,
        ).push(SEP) + encode_utf8(e.id)),
{
    assert(entry_key(e) =~= field_prefix_of(e.field) + tail_of(e));
    assert(entry_key(e) =~= field_prefix_of(e.field).push(value_tag(e.value)) + (value_part(
        e.value,
    ).push(SEP) + encode_utf8(e.id)));
}

proof fn lemma_utf8_injective(a: Seq<char>, b: Seq<char>)
    requires
        encode_utf8(a) == encode_utf8(b),
    ensures
        a == b,
{
    lemma_text_of_utf8(a);
    lemma_text_of_utf8(b);
}

proof fn lemma_field_rows(e: Entry, field: Seq<char>)
    requires
        clean_entry(e),
        no_sep(field),
    ensures
        has_prefix(entry_key(e), field_prefix_of(field)) <==> e.field == field,
{
    lemma_entry_key(e);
    lemma_no_sep_bytes(e.field);
    lemma_no_sep_bytes(field);
    lemma_prefix_of_sum(field_prefix_of(e.field), tail_of(e));
    if has_prefix(entry_key(e), field_prefix_of(field)) {
        lemma_first_part(encode_utf8(e.field), encode_utf8(field), tail_of(e));
        lemma_utf8_injective(e.field, field);
    }
}

proof fn lemma_number_rows(e: Entry, field: Seq<char>)
    requires
        clean_entry(e),
        no_sep(field),
    ensures
        has_prefix(entry_key(e), num_prefix_of(field)) <==> e.field == field && e.value is Number,
{
    let key = entry_key(e);
    let p = num_prefix_of(field);
    lemma_entry_key(e);
    lemma_field_rows(e, field);
    assert(p =~= field_prefix_of(field) + seq![TAG_NUMBER]);
    if has_prefix(key, p) {
        lemma_prefix_of_sum(field_prefix_of(field), seq![TAG_NUMBER]);
        lemma_prefix_of_prefix(key, p, field_prefix_of(field));
        assert(key.take(p.len() as int)[p.len() - 1] == TAG_NUMBER);
        assert(key[p.len() - 1] == value_tag(e.value));
    }
    if e.field == field && e.value is Number {
        lemma_prefix_of_sum(
            field_prefix_of(field).push(TAG_NUMBER),
            value_part(e.value).push(SEP) + encode_utf8(e.id),
        );
    }
}

proof fn lemma_number_part(n: u64)
    ensures
        value_part(FieldView::Number(n)).len() == 8,
        be_value(value_part(FieldView::Number(n))) == number_rank(n),
{
    lemma_pow256_values();
    lemma_be_round_trip(number_rank(n), 8);
}

proof fn lemma_value_rows(e: Entry, field: Seq<char>, v: FieldView)
    requires
        clean_entry(e),
        no_sep(field),
        clean_value(v),
    ensures
        has_prefix(entry_key(e), value_prefix_of(field, v)) <==> e.field == field && same_value(
            e.value,
            v,
        ),
        has_prefix(entry_key(e), value_prefix_of(field, v)) ==> entry_key(e).skip(
            value_prefix_of(field, v).len() as int,
        ) == encode_utf8(e.id),
{
    let key = entry_key(e);
    let p = value_prefix_of(field, v);
    let f = field_prefix_of(field);
    lemma_entry_key(e);
    lemma_field_rows(e, field);
    let rest = (seq![value_tag(v)] + value_part(v)).push(SEP);
    assert(p =~= f + rest);
    if e.field == field && same_value(e.value, v) {
        assert(value_prefix_of(e.field, e.value) == p);
        lemma_prefix_of_sum(p, encode_utf8(e.id));
    }
    if has_prefix(key, p) {
        lemma_prefix_of_sum(f, rest);
        lemma_prefix_of_prefix(key, p, f);
        lemma_strip(f, tail_of(e), rest);
        let t = tail_of(e);
        assert(t.take(rest.len() as int) == rest);
        assert(t.take(rest.len() as int)[0] == value_tag(v));
        assert(t[0] == value_tag(e.value));
        let te = value_part(e.value).push(SEP) + encode_utf8(e.id);
        let tv = value_part(v).push(SEP);
        let tag = seq![value_tag(v)];
        assert(t =~= tag + te);
        assert(rest =~= tag + tv);
        lemma_strip(tag, te, tv);
        match (e.value, v) {
            (FieldView::Text(a), FieldView::Text(b)) => {
                lemma_no_sep_bytes(a);
                lemma_no_sep_bytes(b);
                lemma_first_part(encode_utf8(a), encode_utf8(b), encode_utf8(e.id));
                lemma_utf8_injective(a, b);
            },
            (FieldView::Number(a), FieldView::Number(b)) => {
                lemma_number_part(a);
                lemma_number_part(b);
                assert(value_part(e.value) =~= value_part(v)) by {
                    assert forall|i: int| 0 <= i < 8 implies value_part(e.value)[i] == value_part(
                        v,
                    )[i] by {
                        assert(te.take(tv.len() as int)[i] == tv[i]);
                    }
                }
            },
            (FieldView::Bool(a), FieldView::Bool(b)) => {
                assert(te.take(tv.len() as int)[0] == tv[0]);
            },
            _ => {},
        }
    }
}

proof fn lemma_last_sep(a: Seq<u8>, b: Seq<u8>)
    requires
        no_sep_bytes(b),
    ensures
        after_last_sep(a.push(SEP) + b) == a.len() + 1,
    decreases b.len(),
{
    let k = a.push(SEP) + b;
    if b.len() == 0 {
        assert(k.last() == SEP);
    } else {
        assert(k.last() == b.last());
        assert(b.last() != SEP) by {
            assert(b[b.len() - 1] != SEP);
        }
        assert(k.drop_last() =~= a.push(SEP) + b.drop_last());
        assert(no_sep_bytes(b.drop_last())) by {
            assert forall|i: int| 0 <= i < b.drop_last().len() implies #[trigger] b.drop_last()[i]
                != SEP by {
                assert(b[i] != SEP);
            }
        }
        lemma_last_sep(a, b.drop_last());
    }
}

proof fn lemma_id_of_row(e: Entry)
    requires
        clean_entry(e),
    ensures
        after_last_sep(entry_key(e)) > 0,
        lossy_text(entry_key(e).skip(after_last_sep(entry_key(e)) as int)) == e.id,
        lossy_text(encode_utf8(e.id)) == e.id,
{
    let p = value_prefix_of(e.field, e.value);
    let head = field_prefix_of(e.field).push(value_tag(e.value)) + value_part(e.value);
    lemma_no_sep_bytes(e.id);
    lemma_last_sep(head, encode_utf8(e.id));
    lemma_prefix_of_sum(p, encode_utf8(e.id));
    lemma_text_of_utf8(e.id);
}

// ---- walks -----------------------------------------------------------------------

proof fn lemma_row_order(rows: Seq<Seq<u8>>, i: int, j: int)
    requires
        rows_sorted(rows),
        0 <= i <= j < rows.len(),
    ensures
        lex_le(rows[i], rows[j]),
{
}

proof fn lemma_le_transitive(a: Seq<u8>, b: Seq<u8>, c: Seq<u8>)
    requires
        lex_le(a, b),
        lex_le(b, c),
    ensures
        lex_le(a, c),
{
    if a != b && b != c {
        lemma_lex_transitive(a, b, c);
    }
}

/// A walk over the rows with a prefix comes to just the rows that have it.
pub proof fn law_prefix_walk_is_exact(rows: Seq<Seq<u8>>, prefix: Seq<u8>, j: int)
    requires
        rows_sorted(rows),
    ensures
        walked(rows, ScanView::Value { prefix }, j) <==> 0 <= j < rows.len() && has_prefix(
            rows[j],
            prefix,
        ),
        walked(rows, ScanView::Field { prefix }, j) <==> 0 <= j < rows.len() && has_prefix(
            rows[j],
            prefix,
        ),
{
    if 0 <= j < rows.len() && has_prefix(rows[j], prefix) {
        lemma_prefix_is_lower_bound(prefix, rows[j]);
        assert forall|i: int| 0 <= i <= j && lex_le(prefix, #[trigger] rows[i]) implies has_prefix(
            rows[i],
            prefix,
        ) by {
            lemma_row_order(rows, i, j);
            lemma_prefix_is_contiguous(prefix, rows[i], rows[j]);
        }
    }
}

proof fn lemma_row_of(entries: Set<Entry>, rows: Seq<Seq<u8>>, e: Entry) -> (j: int)
    requires
        is_index(entries, rows),
        entries.contains(e),
    ensures
        0 <= j < rows.len(),
        rows[j] == entry_key(e),
{
    assert(rows.contains(entry_key(e)));
    choose|j: int| 0 <= j < rows.len() && rows[j] == entry_key(e)
}

proof fn lemma_entry_of(entries: Set<Entry>, rows: Seq<Seq<u8>>, j: int) -> (e: Entry)
    requires
        is_index(entries, rows),
        0 <= j < rows.len(),
    ensures
        entries.contains(e),
        entry_key(e) == rows[j],
        clean_entry(e),
{
    let e = choose|e: Entry| entries.contains(e) && #[trigger] entry_key(e) == rows[j];
    assert(entry_key(e) == rows[j]);
    e
}

proof fn lemma_value_scan(
    entries: Set<Entry>,
    rows: Seq<Seq<u8>>,
    field: Seq<char>,
    v: FieldView,
    id: Seq<char>,
)
    requires
        is_index(entries, rows),
        no_sep(field),
        clean_value(v),
    ensures
        scanned(rows, ScanView::Value { prefix: value_prefix_of(field, v) }).contains(id) <==> exists|
            e: Entry,
        | #[trigger]
            entries.contains(e) && e.id == id && e.field == field && same_value(e.value, v),
{
    let p = value_prefix_of(field, v);
    let scan = ScanView::Value { prefix: p };
    if scanned(rows, scan).contains(id) {
        let j = choose|j: int|
            #[trigger] walked(rows, scan, j) && step_of(scan, rows[j]) == StepView::Take(id);
        law_prefix_walk_is_exact(rows, p, j);
        let e = lemma_entry_of(entries, rows, j);
        lemma_value_rows(e, field, v);
        lemma_id_of_row(e);
        assert(entries.contains(e));
    }
    if exists|e: Entry| #[trigger]
        entries.contains(e) && e.id == id && e.field == field && same_value(e.value, v) {
        let e = choose|e: Entry| #[trigger]
            entries.contains(e) && e.id == id && e.field == field && same_value(e.value, v);
        let j = lemma_row_of(entries, rows, e);
        lemma_value_rows(e, field, v);
        lemma_id_of_row(e);
        law_prefix_walk_is_exact(rows, p, j);
        assert(walked(rows, scan, j));
    }
}

proof fn lemma_field_scan(
    entries: Set<Entry>,
    rows: Seq<Seq<u8>>,
    field: Seq<char>,
    id: Seq<char>,
)
    requires
        is_index(entries, rows),
        no_sep(field),
    ensures
        scanned(rows, ScanView::Field { prefix: field_prefix_of(field) }).contains(id) <==> exists|
            e: Entry,
        | #[trigger]
            entries.contains(e) && e.id == id && e.field == field,
{
    let p = field_prefix_of(field);
    let scan = ScanView::Field { prefix: p };
    if scanned(rows, scan).contains(id) {
        let j = choose|j: int|
            #[trigger] walked(rows, scan, j) && step_of(scan, rows[j]) == StepView::Take(id);
        law_prefix_walk_is_exact(rows, p, j);
        let e = lemma_entry_of(entries, rows, j);
        lemma_field_rows(e, field);
        lemma_id_of_row(e);
        assert(entries.contains(e));
    }
    if exists|e: Entry| #[trigger] entries.contains(e) && e.id == id && e.field == field {
        let e = choose|e: Entry| #[trigger] entries.contains(e) && e.id == id && e.field == field;
        let j = lemma_row_of(entries, rows, e);
        lemma_field_rows(e, field);
        lemma_id_of_row(e);
        law_prefix_walk_is_exact(rows, p, j);
        assert(walked(rows, scan, j));
    }
}

// ---- ranges ----------------------------------------------------------------------

/// Numbers are ordered as their places among all numbers are.
pub proof fn law_ranks_order_numbers(a: u64, b: u64)
    requires
        !is_nan(a),
        !is_nan(b),
    ensures
        number_rank(a) <= number_rank(b) <==> number_le(a, b),
        number_rank(a) < number_rank(b) <==> number_lt(a, b),
{
}

proof fn lemma_lex_common(a: Seq<u8>, x: Seq<u8>, y: Seq<u8>)
    ensures
        lex_lt(a + x, a + y) <==> lex_lt(x, y),
    decreases a.len(),
{
    if a.len() == 0 {
        assert(a + x =~= x);
        assert(a + y =~= y);
    } else {
        assert((a + x).drop_first() =~= a.drop_first() + x);
        assert((a + y).drop_first() =~= a.drop_first() + y);
        lemma_lex_common(a.drop_first(), x, y);
    }
}

proof fn lemma_lex_extend(x: Seq<u8>, y: Seq<u8>, u: Seq<u8>, z: Seq<u8>)
    requires
        x.len() == y.len(),
        lex_lt(x, y),
    ensures
        lex_lt(x + u, y + z),
    decreases x.len(),
{
    if x[0] == y[0] {
        assert((x + u).drop_first() =~= x.drop_first() + u);
        assert((y + z).drop_first() =~= y.drop_first() + z);
        lemma_lex_extend(x.drop_first(), y.drop_first(), u, z);
    }
}

/// What a row of a number holds behind the prefix of the field's numbers.
proof fn lemma_number_row(e: Entry, field: Seq<char>, x: u64)
    requires
        clean_entry(e),
        e.field == field,
        e.value == FieldView::Number(x),
    ensures
        entry_key(e) == num_prefix_of(field) + (be_bytes(number_rank(x), 8) + (seq![SEP]
            + encode_utf8(e.id))),
        be_bytes(number_rank(x), 8).len() == 8,
        entry_key(e).len() > num_prefix_of(field).len() + 8,
        entry_key(e)[num_prefix_of(field).len() as int + 8] == SEP,
        entry_key(e).skip(num_prefix_of(field).len() as int + 9) == encode_utf8(e.id),
        number_order(number_in_row(entry_key(e), num_prefix_of(field).len() as int))
            == number_order(x),
        !is_nan(number_in_row(entry_key(e), num_prefix_of(field).len() as int)),
{
    let key = entry_key(e);
    let p = num_prefix_of(field);
    let n = p.len() as int;
    let eight = be_bytes(number_rank(x), 8);
    lemma_number_part(x);
    lemma_entry_key(e);
    assert(key =~= p + (eight + (seq![SEP] + encode_utf8(e.id))));
    assert(key.subrange(n, n + 8) =~= eight);
    assert(key.skip(n + 9) =~= encode_utf8(e.id));
}

proof fn lemma_range_scan_takes(
    entries: Set<Entry>,
    rows: Seq<Seq<u8>>,
    field: Seq<char>,
    b: Bounds,
    e: Entry,
    x: u64,
)
    requires
        is_index(entries, rows),
        no_sep(field),
        clean_bounds(b),
        entries.contains(e),
        e.field == field,
        e.value == FieldView::Number(x),
        within(b, x),
    ensures
        scanned(rows, ScanView::Range { prefix: num_prefix_of(field), bounds: b }).contains(e.id),
{
    let p = num_prefix_of(field);
    let scan = ScanView::Range { prefix: p, bounds: b };
    let j = lemma_row_of(entries, rows, e);
    let key = rows[j];
    lemma_number_row(e, field, x);
    lemma_number_rows(e, field);
    lemma_id_of_row(e);
    lemma_pow256_values();
    let lo = be_bytes(number_rank(lower_of(b)), 8);
    let mid = be_bytes(number_rank(x), 8);
    let rest = seq![SEP] + encode_utf8(e.id);
    lemma_be_round_trip(number_rank(lower_of(b)), 8);
    lemma_be_bytes_are_ordered(number_rank(lower_of(b)), number_rank(x), 8);
    law_ranks_order_numbers(lower_of(b), x);
    assert(number_rank(lower_of(b)) <= number_rank(x));
    assert(lex_le(start_of(scan), key)) by {
        if lo == mid {
            assert(key =~= start_of(scan) + rest);
            lemma_prefix_of_sum(start_of(scan), rest);
            lemma_prefix_is_lower_bound(start_of(scan), key);
        } else {
            lemma_lex_extend(lo, mid, seq![], rest);
            assert(lo + Seq::<u8>::empty() =~= lo);
            lemma_lex_common(p, lo, mid + rest);
        }
    }
    assert forall|i: int| 0 <= i <= j && lex_le(start_of(scan), #[trigger] rows[i]) implies !(
    step_of(scan, rows[i]) is Stop) by {
        lemma_row_order(rows, i, j);
        lemma_prefix_of_sum(p, lo);
        lemma_prefix_is_lower_bound(p, start_of(scan));
        lemma_le_transitive(p, start_of(scan), rows[i]);
        lemma_prefix_is_contiguous(p, rows[i], key);
        let ei = lemma_entry_of(entries, rows, i);
        lemma_number_rows(ei, field);
        let xi = ei.value->Number_0;
        lemma_number_row(ei, field, xi);
        lemma_be_bytes_are_ordered(number_rank(x), number_rank(xi), 8);
        law_ranks_order_numbers(x, xi);
        if number_rank(x) < number_rank(xi) {
            let resti = seq![SEP] + encode_utf8(ei.id);
            lemma_lex_extend(mid, be_bytes(number_rank(xi), 8), rest, resti);
            lemma_lex_common(p, mid + rest, be_bytes(number_rank(xi), 8) + resti);
            lemma_lex_asymmetric(key, rows[i]);
            assert(false);
        }
        assert(number_order(xi) <= number_order(x));
        assert(!above(b, number_in_row(rows[i], p.len() as int)));
    }
    assert(walked(rows, scan, j));
    assert(step_of(scan, rows[j]) == StepView::Take(e.id));
}

proof fn lemma_range_scan(
    entries: Set<Entry>,
    rows: Seq<Seq<u8>>,
    field: Seq<char>,
    b: Bounds,
    id: Seq<char>,
)
    requires
        is_index(entries, rows),
        no_sep(field),
        clean_bounds(b),
    ensures
        scanned(rows, ScanView::Range { prefix: num_prefix_of(field), bounds: b }).contains(id)
            <==> exists|e: Entry| #[trigger]
            entries.contains(e) && e.id == id && e.field == field && (
            e.value matches FieldView::Number(x) && within(b, x)),
{
    let p = num_prefix_of(field);
    let scan = ScanView::Range { prefix: p, bounds: b };
    if scanned(rows, scan).contains(id) {
        let j = choose|j: int|
            #[trigger] walked(rows, scan, j) && step_of(scan, rows[j]) == StepView::Take(id);
        assert(lex_le(start_of(scan), rows[j]));
        let e = lemma_entry_of(entries, rows, j);
        lemma_number_rows(e, field);
        let x = e.value->Number_0;
        lemma_number_row(e, field, x);
        lemma_id_of_row(e);
        assert(within(b, x));
        assert(entries.contains(e));
    }
    if exists|e: Entry| #[trigger]
        entries.contains(e) && e.id == id && e.field == field && (e.value matches FieldView::Number(
            x,
        ) && within(b, x)) {
        let e = choose|e: Entry| #[trigger]
            entries.contains(e) && e.id == id && e.field == field && (
            e.value matches FieldView::Number(x) && within(b, x));
        lemma_range_scan_takes(entries, rows, field, b, e, e.value->Number_0);
    }
}

// ---- conditions and filters --------------------------------------------------------

/// A condition is answered from the index exactly: the ids are those of the
/// documents that have what it asks for.
pub proof fn law_condition_is_exact(entries: Set<Entry>, rows: Seq<Seq<u8>>, c: CondView)
    requires
        is_index(entries, rows),
        clean_cond(c),
    ensures
        cond_ids(rows, c) == holders(entries, c),
{
    let scans = scans_of(c);
    assert forall|id: Seq<char>| cond_ids(rows, c).contains(id) <==> holders(entries, c).contains(
        id,
    ) by {
        match c {
            CondView::Eq { key, value } => {
                lemma_value_scan(entries, rows, key, value, id);
                assert(scans[0] == (ScanView::Value { prefix: value_prefix_of(key, value) }));
            },
            CondView::Any { key, values } => {
                if cond_ids(rows, c).contains(id) {
                    let i = choose|i: int|
                        0 <= i < scans.len() && scanned(rows, #[trigger] scans[i]).contains(id);
                    lemma_value_scan(entries, rows, key, values[i], id);
                    let e = choose|e: Entry| #[trigger]
                        entries.contains(e) && e.id == id && e.field == key && same_value(
                            e.value,
                            values[i],
                        );
                    assert(meets(e, c));
                }
                if holders(entries, c).contains(id) {
                    let e = choose|e: Entry| #[trigger]
                        entries.contains(e) && e.id == id && meets(e, c);
                    let i = choose|i: int|
                        0 <= i < values.len() && same_value(e.value, #[trigger] values[i]);
                    lemma_value_scan(entries, rows, key, values[i], id);
                    assert(scanned(rows, scans[i]).contains(id));
                }
            },
            CondView::Range { key, bounds } => {
                lemma_range_scan(entries, rows, key, bounds, id);
                assert(scans[0] == (ScanView::Range { prefix: num_prefix_of(key), bounds }));
            },
            CondView::Exists { key } => {
                lemma_field_scan(entries, rows, key, id);
                assert(scans[0] == (ScanView::Field { prefix: field_prefix_of(key) }));
            },
        }
    }
    assert(cond_ids(rows, c) =~= holders(entries, c));
}

/// Every condition of the filter can be told apart in a row.
pub open spec fn clean_filter(f: FilterView) -> bool {
    &&& forall|i: int| 0 <= i < f.must.len() ==> clean_cond(#[trigger] f.must[i])
    &&& forall|i: int| 0 <= i < f.should.len() ==> clean_cond(#[trigger] f.should[i])
    &&& forall|i: int| 0 <= i < f.must_not.len() ==> clean_cond(#[trigger] f.must_not[i])
}

/// A filter is answered from the index exactly: the ids are those of the
/// documents that have what all of `must` ask for, what one of `should` asks
/// for if there are any, and nothing that `must_not` asks for.
pub proof fn law_filter_is_exact(entries: Set<Entry>, rows: Seq<Seq<u8>>, f: FilterView)
    requires
        is_index(entries, rows),
        clean_filter(f),
    ensures
        matching(f, |c: CondView| cond_ids(rows, c)) == matching(
            f,
            |c: CondView| holders(entries, c),
        ),
{
    let scan_ids = |c: CondView| cond_ids(rows, c);
    let true_ids = |c: CondView| holders(entries, c);
    assert forall|i: int| 0 <= i < f.must.len() implies scan_ids(#[trigger] f.must[i]) == true_ids(
        f.must[i],
    ) by {
        law_condition_is_exact(entries, rows, f.must[i]);
    }
    assert forall|i: int| 0 <= i < f.should.len() implies scan_ids(#[trigger] f.should[i])
        == true_ids(f.should[i]) by {
        law_condition_is_exact(entries, rows, f.should[i]);
    }
    assert forall|i: int| 0 <= i < f.must_not.len() implies scan_ids(#[trigger] f.must_not[i])
        == true_ids(f.must_not[i]) by {
        law_condition_is_exact(entries, rows, f.must_not[i]);
    }
    assert forall|id: Seq<char>| passes(f, scan_ids, id) <==> passes(f, true_ids, id) by {}
    assert(matching(f, scan_ids) =~= matching(f, true_ids));
}

/// What a filter answers, written out. The ids are those of the documents that
/// have, for every `must` condition, an entry that meets it; for some `should`
/// condition, if there are any, an entry that meets it; and for no `must_not`
/// condition, whichever it is, an entry that meets it.
pub proof fn law_filter_answers(
    entries: Set<Entry>,
    rows: Seq<Seq<u8>>,
    f: FilterView,
    id: Seq<char>,
)
    requires
        is_index(entries, rows),
        clean_filter(f),
    ensures
        matching(f, |c: CondView| cond_ids(rows, c)).contains(id) <==> {
            &&& forall|c: CondView| #[trigger]
                f.must.contains(c) ==> exists|e: Entry| #[trigger]
                    entries.contains(e) && e.id == id && meets(e, c)
            &&& f.should.len() > 0 ==> exists|i: int, e: Entry|
                0 <= i < f.should.len() && #[trigger] entries.contains(e) && e.id == id && meets(
                    e,
                    #[trigger] f.should[i],
                )
            &&& forall|i: int, e: Entry|
                0 <= i < f.must_not.len() && #[trigger] entries.contains(e) && e.id == id
                    ==> !meets(e, #[trigger] f.must_not[i])
        },
{
    let ids = |c: CondView| cond_ids(rows, c);
    assert forall|i: int| 0 <= i < f.must.len() implies ids(#[trigger] f.must[i]) == holders(
        entries,
        f.must[i],
    ) by {
        law_condition_is_exact(entries, rows, f.must[i]);
    }
    assert forall|i: int| 0 <= i < f.should.len() implies ids(#[trigger] f.should[i]) == holders(
        entries,
        f.should[i],
    ) by {
        law_condition_is_exact(entries, rows, f.should[i]);
    }
    assert forall|i: int| 0 <= i < f.must_not.len() implies ids(#[trigger] f.must_not[i])
        == holders(entries, f.must_not[i]) by {
        law_condition_is_exact(entries, rows, f.must_not[i]);
    }
    let all = forall|c: CondView| #[trigger]
        f.must.contains(c) ==> exists|e: Entry| #[trigger]
            entries.contains(e) && e.id == id && meets(e, c);
    let some = f.should.len() > 0 ==> exists|i: int, e: Entry|
        0 <= i < f.should.len() && #[trigger] entries.contains(e) && e.id == id && meets(
            e,
            #[trigger] f.should[i],
        );
    let none = forall|i: int, e: Entry|
        0 <= i < f.must_not.len() && #[trigger] entries.contains(e) && e.id == id ==> !meets(
            e,
            #[trigger] f.must_not[i],
        );
    if matching(f, ids).contains(id) {
        assert(all) by {
            assert forall|c: CondView| #[trigger] f.must.contains(c) implies exists|e: Entry|
                #[trigger] entries.contains(e) && e.id == id && meets(e, c) by {
                let i = choose|i: int| 0 <= i < f.must.len() && f.must[i] == c;
                assert(ids(f.must[i]).contains(id));
                assert(holders(entries, f.must[i]).contains(id));
            }
        }
        assert(some) by {
            if f.should.len() > 0 {
                let i = choose|i: int|
                    0 <= i < f.should.len() && ids(#[trigger] f.should[i]).contains(id);
                assert(holders(entries, f.should[i]).contains(id));
                let e = choose|e: Entry| #[trigger]
                    entries.contains(e) && e.id == id && meets(e, f.should[i]);
                assert(entries.contains(e));
            }
        }
        assert(none) by {
            assert forall|i: int, e: Entry|
                0 <= i < f.must_not.len() && #[trigger] entries.contains(e) && e.id
                    == id implies !meets(e, #[trigger] f.must_not[i]) by {
                if meets(e, f.must_not[i]) {
                    assert(holders(entries, f.must_not[i]).contains(id));
                    assert(ids(f.must_not[i]).contains(id));
                }
            }
        }
    }
    if all && some && none {
        assert forall|i: int| 0 <= i < f.must.len() implies ids(#[trigger] f.must[i]).contains(
            id,
        ) by {
            assert(f.must.contains(f.must[i]));
            assert(holders(entries, f.must[i]).contains(id));
        }
        if f.should.len() > 0 {
            let (i, e) = choose|i: int, e: Entry|
                0 <= i < f.should.len() && #[trigger] entries.contains(e) && e.id == id && meets(
                    e,
                    #[trigger] f.should[i],
                );
            assert(holders(entries, f.should[i]).contains(id));
            assert(ids(f.should[i]).contains(id));
        }
        assert forall|i: int| 0 <= i < f.must_not.len() implies !ids(
            #[trigger] f.must_not[i],
        ).contains(id) by {
            if holders(entries, f.must_not[i]).contains(id) {
                let e = choose|e: Entry| #[trigger]
                    entries.contains(e) && e.id == id && meets(e, f.must_not[i]);
                assert(!meets(e, f.must_not[i]));
            }
        }
        assert(passes(f, ids, id));
    }
}

/// A filter only gets narrower with another `must_not` condition: what is left
/// is what was left before, without the ids that the condition matches. The same
/// holds of another `must` condition, with the ids that it does not match.
pub proof fn law_more_conditions_narrow(
    f: FilterView,
    ids: spec_fn(CondView) -> Set<Seq<char>>,
    c: CondView,
    id: Seq<char>,
)
    ensures
        matching((FilterView { must_not: f.must_not.push(c), ..f }), ids).contains(id) <==> matching(
            f,
            ids,
        ).contains(id) && !ids(c).contains(id),
        matching((FilterView { must: f.must.push(c), ..f }), ids).contains(id) <==> matching(
            f,
            ids,
        ).contains(id) && ids(c).contains(id),
        f.should.len() > 0 ==> (matching(
            (FilterView { should: f.should.push(c), ..f }),
            ids,
        ).contains(id) <==> matching(f, ids).contains(id) || (ids(c).contains(id) && matching(
            (FilterView { should: seq![], ..f }),
            ids,
        ).contains(id))),
{
    lemma_all_push(f.must, c, ids, id);
    lemma_any_push(f.should, c, ids, id);
    lemma_any_push(f.must_not, c, ids, id);
}

proof fn lemma_all_push(
    conds: Seq<CondView>,
    c: CondView,
    ids: spec_fn(CondView) -> Set<Seq<char>>,
    id: Seq<char>,
)
    ensures
        in_all(conds.push(c), ids, id) <==> in_all(conds, ids, id) && ids(c).contains(id),
{
    let more = conds.push(c);
    if in_all(more, ids, id) {
        assert(ids(more[conds.len() as int]).contains(id));
        assert forall|i: int| 0 <= i < conds.len() implies ids(#[trigger] conds[i]).contains(
            id,
        ) by {
            assert(ids(more[i]).contains(id));
        }
    }
}

proof fn lemma_any_push(
    conds: Seq<CondView>,
    c: CondView,
    ids: spec_fn(CondView) -> Set<Seq<char>>,
    id: Seq<char>,
)
    ensures
        in_any(conds.push(c), ids, id) <==> in_any(conds, ids, id) || ids(c).contains(id),
{
    let more = conds.push(c);
    if in_any(conds, ids, id) {
        let i = choose|i: int| 0 <= i < conds.len() && ids(#[trigger] conds[i]).contains(id);
        assert(ids(more[i]).contains(id));
    }
    if ids(c).contains(id) {
        assert(ids(more[conds.len() as int]).contains(id));
    }
    if in_any(more, ids, id) && !ids(c).contains(id) {
        let i = choose|i: int| 0 <= i < more.len() && ids(#[trigger] more[i]).contains(id);
        assert(ids(conds[i]).contains(id));
    }
}

/// A text, a truth value or a missing value is found just where it stands.
pub proof fn law_values_are_found(
    entries: Set<Entry>,
    rows: Seq<Seq<u8>>,
    key: Seq<char>,
    value: FieldView,
    id: Seq<char>,
)
    requires
        is_index(entries, rows),
        no_sep(key),
        clean_value(value),
        !(value is Number),
    ensures
        cond_ids(rows, CondView::Eq { key, value }).contains(id) <==> exists|e: Entry| #[trigger]
            entries.contains(e) && e.id == id && e.field == key && e.value == value,
{
    law_condition_is_exact(entries, rows, CondView::Eq { key, value });
    let c = CondView::Eq { key, value };
    if holders(entries, c).contains(id) {
        let e = choose|e: Entry| #[trigger] entries.contains(e) && e.id == id && meets(e, c);
        assert(entries.contains(e) && e.value == value);
    }
    if exists|e: Entry| #[trigger]
        entries.contains(e) && e.id == id && e.field == key && e.value == value {
        let e = choose|e: Entry| #[trigger]
            entries.contains(e) && e.id == id && e.field == key && e.value == value;
        assert(meets(e, c));
    }
}

/// A number is found just where an equal number stands: one that is neither
/// below nor above it.
pub proof fn law_numbers_are_found(
    entries: Set<Entry>,
    rows: Seq<Seq<u8>>,
    key: Seq<char>,
    x: u64,
    id: Seq<char>,
)
    requires
        is_index(entries, rows),
        no_sep(key),
        !is_nan(x),
    ensures
        cond_ids(rows, CondView::Eq { key, value: FieldView::Number(x) }).contains(id) <==> exists|
            e: Entry,
        | #[trigger]
            entries.contains(e) && e.id == id && e.field == key && (
            e.value matches FieldView::Number(y) && number_le(x, y) && number_le(y, x)),
{
    let c = CondView::Eq { key, value: FieldView::Number(x) };
    law_condition_is_exact(entries, rows, c);
    if holders(entries, c).contains(id) {
        let e = choose|e: Entry| #[trigger] entries.contains(e) && e.id == id && meets(e, c);
        assert(clean_entry(e));
        let y = e.value->Number_0;
        law_ranks_order_numbers(x, y);
        law_ranks_order_numbers(y, x);
        assert(entries.contains(e));
    }
    if exists|e: Entry| #[trigger]
        entries.contains(e) && e.id == id && e.field == key && (e.value matches FieldView::Number(y)
            && number_le(x, y) && number_le(y, x)) {
        let e = choose|e: Entry| #[trigger]
            entries.contains(e) && e.id == id && e.field == key && (
            e.value matches FieldView::Number(y) && number_le(x, y) && number_le(y, x));
        let y = e.value->Number_0;
        law_ranks_order_numbers(x, y);
        law_ranks_order_numbers(y, x);
        assert(meets(e, c));
    }
}

/// Any of several values is found just where one of them is.
pub proof fn law_any_value_is_one_of_them(
    rows: Seq<Seq<u8>>,
    key: Seq<char>,
    values: Seq<FieldView>,
    id: Seq<char>,
)
    ensures
        cond_ids(rows, CondView::Any { key, values }).contains(id) <==> exists|i: int|
            0 <= i < values.len() && cond_ids(
                rows,
                CondView::Eq { key, value: #[trigger] values[i] },
            ).contains(id),
{
    let c = CondView::Any { key, values };
    let scans = scans_of(c);
    assert forall|i: int| 0 <= i < values.len() implies (cond_ids(
        rows,
        CondView::Eq { key, value: #[trigger] values[i] },
    ).contains(id) <==> scanned(rows, scans[i]).contains(id)) by {
        let one = CondView::Eq { key, value: values[i] };
        assert(scans_of(one).len() == 1);
        assert(scans_of(one)[0] == scans[i]);
        if cond_ids(rows, one).contains(id) {
            let k = choose|k: int|
                0 <= k < scans_of(one).len() && scanned(rows, #[trigger] scans_of(one)[k]).contains(
                    id,
                );
            assert(k == 0);
        }
    }
    if cond_ids(rows, c).contains(id) {
        let i = choose|i: int|
            0 <= i < scans.len() && scanned(rows, #[trigger] scans[i]).contains(id);
        assert(cond_ids(rows, CondView::Eq { key, value: values[i] }).contains(id));
    }
    if exists|i: int|
        0 <= i < values.len() && cond_ids(
            rows,
            CondView::Eq { key, value: #[trigger] values[i] },
        ).contains(id) {
        let i = choose|i: int|
            0 <= i < values.len() && cond_ids(
                rows,
                CondView::Eq { key, value: #[trigger] values[i] },
            ).contains(id);
        assert(scanned(rows, scans[i]).contains(id));
    }
}

/// A field exists just where it has an entry, whatever the value.
pub proof fn law_fields_exist_where_they_stand(
    entries: Set<Entry>,
    rows: Seq<Seq<u8>>,
    key: Seq<char>,
    id: Seq<char>,
)
    requires
        is_index(entries, rows),
        no_sep(key),
    ensures
        cond_ids(rows, CondView::Exists { key }).contains(id) <==> exists|e: Entry| #[trigger]
            entries.contains(e) && e.id == id && e.field == key,
{
    let c = CondView::Exists { key };
    law_condition_is_exact(entries, rows, c);
    if holders(entries, c).contains(id) {
        let e = choose|e: Entry| #[trigger] entries.contains(e) && e.id == id && meets(e, c);
        assert(entries.contains(e) && e.field == key);
    }
    if exists|e: Entry| #[trigger] entries.contains(e) && e.id == id && e.field == key {
        let e = choose|e: Entry| #[trigger] entries.contains(e) && e.id == id && e.field == key;
        assert(meets(e, c));
    }
}

/// A range holds just the numbers of the field that every bound admits: above
/// `gt`, not below `gte`, below `lt`, not above `lte`.
pub proof fn law_ranges_hold_their_numbers(
    entries: Set<Entry>,
    rows: Seq<Seq<u8>>,
    key: Seq<char>,
    b: Bounds,
    id: Seq<char>,
)
    requires
        is_index(entries, rows),
        no_sep(key),
        clean_bounds(b),
    ensures
        cond_ids(rows, CondView::Range { key, bounds: b }).contains(id) <==> exists|e: Entry| #[trigger]
            entries.contains(e) && e.id == id && e.field == key && (e.value matches
                FieldView::Number(x) && (b.gt is Some ==> number_lt(b.gt->0, x)) && (b.gte is Some
                ==> number_le(b.gte->0, x)) && (b.lt is Some ==> number_lt(x, b.lt->0)) && (
            b.lte is Some ==> number_le(x, b.lte->0))),
{
    let c = CondView::Range { key, bounds: b };
    law_condition_is_exact(entries, rows, c);
    if holders(entries, c).contains(id) {
        let e = choose|e: Entry| #[trigger] entries.contains(e) && e.id == id && meets(e, c);
        let x = e.value->Number_0;
        assert(entries.contains(e) && e.value == FieldView::Number(x));
    }
    if exists|e: Entry| #[trigger]
            entries.contains(e) && e.id == id && e.field == key && (e.value matches
                FieldView::Number(x) && (b.gt is Some ==> number_lt(b.gt->0, x)) && (b.gte is Some
                ==> number_le(b.gte->0, x)) && (b.lt is Some ==> number_lt(x, b.lt->0)) && (
            b.lte is Some ==> number_le(x, b.lte->0))) {
        let e = choose|e: Entry| #[trigger]
            entries.contains(e) && e.id == id && e.field == key && (e.value matches
                FieldView::Number(x) && (b.gt is Some ==> number_lt(b.gt->0, x)) && (b.gte is Some
                ==> number_le(b.gte->0, x)) && (b.lt is Some ==> number_lt(x, b.lt->0)) && (
            b.lte is Some ==> number_le(x, b.lte->0)));
        assert(meets(e, c));
    }
}

/// Numbers compare as floating-point numbers do: by magnitude where neither is
/// negative, the other way round where both are, the negative one below the
/// other; both zeros are equal, and what is no number is below and above none.
pub proof fn law_numbers_compare_by_sign_and_magnitude(a: u64, b: u64)
    ensures
        is_nan(a) || is_nan(b) ==> !number_lt(a, b) && !number_le(a, b),
        a < 0x8000_0000_0000_0000 ==> (is_nan(a) <==> a > 0x7ff0_0000_0000_0000),
        a >= 0x8000_0000_0000_0000 ==> (is_nan(a) <==> a > 0xfff0_0000_0000_0000),
        !is_nan(a) && !is_nan(b) ==> {
            &&& a < 0x8000_0000_0000_0000 && b < 0x8000_0000_0000_0000 ==> (number_lt(a, b) <==> a
                < b)
            &&& a >= 0x8000_0000_0000_0000 && b >= 0x8000_0000_0000_0000 ==> (number_lt(a, b)
                <==> a > b)
            &&& a > 0x8000_0000_0000_0000 && b < 0x8000_0000_0000_0000 ==> number_lt(a, b)
            &&& a < 0x8000_0000_0000_0000 && b >= 0x8000_0000_0000_0000 ==> !number_lt(a, b)
            &&& a == 0x8000_0000_0000_0000 && b < 0x8000_0000_0000_0000 ==> (number_lt(a, b)
                <==> b > 0)
            &&& number_le(a, b) <==> !number_lt(b, a)
        },
{
}

/// A filter can be answered just where every field that a condition names is
/// indexed, in whichever list the condition stands.
pub proof fn law_every_named_field_must_be_indexed(f: FilterView, fields: Seq<Seq<char>>)
    ensures
        filter_keys_in(f, fields) <==> {
            &&& forall|i: int|
                0 <= i < f.must.len() ==> fields.contains(key_of(#[trigger] f.must[i]))
            &&& forall|i: int|
                0 <= i < f.should.len() ==> fields.contains(key_of(#[trigger] f.should[i]))
            &&& forall|i: int|
                0 <= i < f.must_not.len() ==> fields.contains(key_of(#[trigger] f.must_not[i]))
        },
{
}

/// A condition is about the field that it names.
pub proof fn law_conditions_name_their_fields(
    key: Seq<char>,
    value: FieldView,
    values: Seq<FieldView>,
    bounds: Bounds,
)
    ensures
        key_of(CondView::Eq { key, value }) == key,
        key_of(CondView::Any { key, values }) == key,
        key_of(CondView::Range { key, bounds }) == key,
        key_of(CondView::Exists { key }) == key,
{
}

} // verus!
