//! Filters, and how they are answered from the payload index.
//!
//! A filter is answered from sorted index rows where every field that it
//! refers to is indexed: the exact set of matching ids is resolved from the
//! rows, condition by condition. Otherwise it cannot be answered here.

use vstd::prelude::*;
use vstd::utf8::*;

use crate::bytes::{append, be_bytes, be_value, lemma_be_bytes_of_value, lemma_pow256_values, slice};
use crate::error::RrfError;
use crate::json::{json_strings, strings_of_json};
use crate::keys::{
    decode_f64_sortable, encode_f64_sortable, field_prefix_of, num_prefix_of, number_rank,
    pidx_field_prefix, pidx_num_prefix, pidx_value_prefix, value_prefix_of, FieldValue, FieldView,
    SEP,
};
use crate::order::{
    has_prefix, lemma_lex_asymmetric, lemma_lex_transitive, lex_le, lex_lt, relate_bytes,
    starts_with, Rel,
};
use crate::strset::{str_set, strictly_sorted, StrSet};
use crate::text::{lossy_text, text_of_bytes, texts};

verus! {

// ---- numbers ---------------------------------------------------------------------

/// The bit pattern is none of a number.
pub open spec fn is_nan(bits: u64) -> bool {
    if bits >= 0x8000_0000_0000_0000 {
        bits - 0x8000_0000_0000_0000 > 0x7ff0_0000_0000_0000
    } else {
        bits > 0x7ff0_0000_0000_0000
    }
}

/// An integer that is ordered as the number is; both zeros have the same.
pub open spec fn number_order(bits: u64) -> int {
    if bits >= 0x8000_0000_0000_0000 {
        0x8000_0000_0000_0000 - bits
    } else {
        bits as int
    }
}

/// `a < b`, as floating-point numbers compare.
pub open spec fn number_lt(a: u64, b: u64) -> bool {
    !is_nan(a) && !is_nan(b) && number_order(a) < number_order(b)
}

/// `a <= b`, as floating-point numbers compare.
pub open spec fn number_le(a: u64, b: u64) -> bool {
    !is_nan(a) && !is_nan(b) && number_order(a) <= number_order(b)
}

/// The bit pattern of negative infinity.
pub const NEG_INFINITY: u64 = 0xfff0_0000_0000_0000;

fn not_a_number(bits: u64) -> (r: bool)
    ensures
        r == is_nan(bits),
{
    if bits >= 0x8000_0000_0000_0000 {
        bits - 0x8000_0000_0000_0000 > 0x7ff0_0000_0000_0000
    } else {
        bits > 0x7ff0_0000_0000_0000
    }
}

/// Whether `a < b`, as floating-point numbers compare.
pub fn less(a: u64, b: u64) -> (r: bool)
    ensures
        r == number_lt(a, b),
{
    if not_a_number(a) || not_a_number(b) {
        return false;
    }
    if a >= 0x8000_0000_0000_0000 {
        if b >= 0x8000_0000_0000_0000 {
            b < a
        } else {
            a > 0x8000_0000_0000_0000 || b > 0
        }
    } else {
        b < 0x8000_0000_0000_0000 && a < b
    }
}

/// Whether `a <= b`, as floating-point numbers compare.
pub fn at_most(a: u64, b: u64) -> (r: bool)
    ensures
        r == number_le(a, b),
{
    !not_a_number(a) && !not_a_number(b) && !less(b, a)
}

/// The bounds of a range, each a bit pattern of a 64-bit floating-point number.
#[derive(Debug, Clone, Copy, PartialEq, Eq, Structural)]
pub struct Bounds {
    pub gt: Option<u64>,
    pub gte: Option<u64>,
    pub lt: Option<u64>,
    pub lte: Option<u64>,
}

/// The number lies above the range.
pub open spec fn above(b: Bounds, x: u64) -> bool {
    ||| (b.lt matches Some(y) && number_le(y, x))
    ||| (b.lte matches Some(y) && number_lt(y, x))
}

/// The number lies below the range.
pub open spec fn below(b: Bounds, x: u64) -> bool {
    ||| (b.gt matches Some(y) && number_le(x, y))
    ||| (b.gte matches Some(y) && number_lt(x, y))
}

/// Where a walk over the range starts.
pub open spec fn lower_of(b: Bounds) -> u64 {
    match b.gte {
        Some(y) => y,
        None => match b.gt {
            Some(y) => y,
            None => NEG_INFINITY,
        },
    }
}

fn is_above(b: Bounds, x: u64) -> (r: bool)
    ensures
        r == above(b, x),
{
    if let Some(y) = b.lt {
        if at_most(y, x) {
            return true;
        }
    }
    if let Some(y) = b.lte {
        if less(y, x) {
            return true;
        }
    }
    false
}

fn is_below(b: Bounds, x: u64) -> (r: bool)
    ensures
        r == below(b, x),
{
    if let Some(y) = b.gt {
        if at_most(x, y) {
            return true;
        }
    }
    if let Some(y) = b.gte {
        if less(x, y) {
            return true;
        }
    }
    false
}

fn lower(b: Bounds) -> (r: u64)
    ensures
        r == lower_of(b),
{
    match b.gte {
        Some(y) => y,
        None => match b.gt {
            Some(y) => y,
            None => NEG_INFINITY,
        },
    }
}

// ---- walks over the index rows -----------------------------------------------------

/// A walk over the rows of the payload index, from a start key upward.
#[derive(Debug)]
pub enum Scan {
    /// The rows of one value: what they begin with.
    Value { prefix: Vec<u8> },
    /// The rows of a field: what they begin with.
    Field { prefix: Vec<u8> },
    /// The rows of a field's numbers between bounds: what the field's numbers
    /// begin with.
    Range { prefix: Vec<u8>, bounds: Bounds },
}

/// A walk over the rows of the payload index.
pub enum ScanView {
    Value { prefix: Seq<u8> },
    Field { prefix: Seq<u8> },
    Range { prefix: Seq<u8>, bounds: Bounds },
}

impl View for Scan {
    type V = ScanView;

    open spec fn view(&self) -> ScanView {
        match *self {
            Scan::Value { prefix } => ScanView::Value { prefix: prefix@ },
            Scan::Field { prefix } => ScanView::Field { prefix: prefix@ },
            Scan::Range { prefix, bounds } => ScanView::Range { prefix: prefix@, bounds },
        }
    }
}

/// What a walk does with a row: it ends there, passes over it, or takes the id.
#[derive(Debug)]
pub enum Step {
    Stop,
    Skip,
    Take(String),
}

/// What a walk does with a row.
pub enum StepView {
    Stop,
    Skip,
    Take(Seq<char>),
}

impl View for Step {
    type V = StepView;

    open spec fn view(&self) -> StepView {
        match *self {
            Step::Stop => StepView::Stop,
            Step::Skip => StepView::Skip,
            Step::Take(id) => StepView::Take(id@),
        }
    }
}

/// The key from which a walk starts.
pub open spec fn start_of(scan: ScanView) -> Seq<u8> {
    match scan {
        ScanView::Value { prefix } => prefix,
        ScanView::Field { prefix } => prefix,
        ScanView::Range { prefix, bounds } => prefix + be_bytes(number_rank(lower_of(bounds)), 8),
    }
}

/// Where the last separator of a key stands, counted from one; zero where
/// there is none.
pub open spec fn after_last_sep(key: Seq<u8>) -> nat
    decreases key.len(),
{
    if key.len() == 0 {
        0
    } else if key.last() == SEP {
        key.len()
    } else {
        after_last_sep(key.drop_last())
    }
}

/// The number whose place among all numbers is `rank`.
pub open spec fn number_at(rank: nat) -> u64 {
    if rank >= 0x8000_0000_0000_0000 {
        (rank - 0x8000_0000_0000_0000) as u64
    } else {
        (0xffff_ffff_ffff_ffff - rank) as u64
    }
}

/// The number in a row of a field's numbers, behind the prefix of length `n`.
pub open spec fn number_in_row(key: Seq<u8>, n: int) -> u64 {
    number_at(be_value(key.subrange(n, n + 8)))
}

/// What a walk does with the row `key`.
pub open spec fn step_of(scan: ScanView, key: Seq<u8>) -> StepView {
    match scan {
        ScanView::Value { prefix } => if !has_prefix(key, prefix) {
            StepView::Stop
        } else {
            StepView::Take(lossy_text(key.skip(prefix.len() as int)))
        },
        ScanView::Field { prefix } => if !has_prefix(key, prefix) {
            StepView::Stop
        } else if after_last_sep(key) == 0 {
            StepView::Skip
        } else {
            StepView::Take(lossy_text(key.skip(after_last_sep(key) as int)))
        },
        ScanView::Range { prefix, bounds } => {
            let n = prefix.len() as int;
            if !has_prefix(key, prefix) {
                StepView::Stop
            } else if key.len() < n + 8 {
                StepView::Skip
            } else if above(bounds, number_in_row(key, n)) {
                StepView::Stop
            } else if below(bounds, number_in_row(key, n)) {
                StepView::Skip
            } else if key.len() == n + 8 || key[n + 8] != SEP {
                StepView::Skip
            } else {
                StepView::Take(lossy_text(key.skip(n + 9)))
            }
        },
    }
}

/// The walk comes to row `j`: the row is not before the start, and the walk
/// ends at none of the rows up to there.
pub open spec fn walked(rows: Seq<Seq<u8>>, scan: ScanView, j: int) -> bool {
    &&& 0 <= j < rows.len()
    &&& lex_le(start_of(scan), rows[j])
    &&& forall|i: int|
        0 <= i <= j && lex_le(start_of(scan), #[trigger] rows[i]) ==> !(step_of(scan, rows[i])
            is Stop)
}

/// The ids that a walk takes.
pub open spec fn scanned(rows: Seq<Seq<u8>>, scan: ScanView) -> Set<Seq<char>> {
    Set::new(
        |id: Seq<char>|
            exists|j: int|
                #[trigger] walked(rows, scan, j) && step_of(scan, rows[j]) == StepView::Take(id),
    )
}

/// The rows as byte strings.
pub open spec fn row_views(rows: Seq<Vec<u8>>) -> Seq<Seq<u8>> {
    rows.map_values(|k: Vec<u8>| k@)
}

/// The rows stand in key order, none twice: as a store walks them.
pub open spec fn rows_sorted(rows: Seq<Seq<u8>>) -> bool {
    forall|i: int, j: int| 0 <= i < j < rows.len() ==> lex_lt(#[trigger] rows[i], #[trigger] rows[j])
}

impl Scan {
    /// The key from which the walk starts.
    pub fn start(&self) -> (r: Vec<u8>)
        ensures
            r@ == start_of(self@),
    {
        match self {
            Scan::Value { prefix } => slice(prefix.as_slice(), 0, prefix.len()),
            Scan::Field { prefix } => slice(prefix.as_slice(), 0, prefix.len()),
            Scan::Range { prefix, bounds } => {
                let mut out = slice(prefix.as_slice(), 0, prefix.len());
                let eight = encode_f64_sortable(lower(*bounds));
                assert(out@ =~= prefix@);
                append(&mut out, eight.as_slice());
                out
            },
        }
    }

    /// What the walk does with the row `key`.
    pub fn step(&self, key: &[u8]) -> (r: Step)
        ensures
            r@ == step_of(self@, key@),
    {
        match self {
            Scan::Value { prefix } => {
                if !starts_with(key, prefix.as_slice()) {
                    return Step::Stop;
                }
                let id = slice(key, prefix.len(), key.len());
                assert(id@ =~= key@.skip(prefix@.len() as int));
                Step::Take(text_of_bytes(id.as_slice()))
            },
            Scan::Field { prefix } => {
                if !starts_with(key, prefix.as_slice()) {
                    return Step::Stop;
                }
                let at = last_sep(key);
                if at == 0 {
                    return Step::Skip;
                }
                let id = slice(key, at, key.len());
                assert(id@ =~= key@.skip(at as int));
                Step::Take(text_of_bytes(id.as_slice()))
            },
            Scan::Range { prefix, bounds } => {
                let n: usize = prefix.len();
                if !starts_with(key, prefix.as_slice()) {
                    return Step::Stop;
                }
                if key.len() - n < 8 {
                    return Step::Skip;
                }
                let eight = slice(key, n, n + 8);
                let x: u64 = decode_f64_sortable(eight.as_slice());
                proof {
                    lemma_be_bytes_of_value(eight@);
                    lemma_pow256_values();
                    assert(x == number_in_row(key@, n as int));
                }
                if is_above(*bounds, x) {
                    return Step::Stop;
                }
                if is_below(*bounds, x) {
                    return Step::Skip;
                }
                if key.len() - n == 8 || key[n + 8] != SEP {
                    return Step::Skip;
                }
                let id = slice(key, n + 9, key.len());
                assert(id@ =~= key@.skip(n + 9));
                Step::Take(text_of_bytes(id.as_slice()))
            },
        }
    }
}

fn last_sep(key: &[u8]) -> (r: usize)
    ensures
        r == after_last_sep(key@),
        r <= key.len(),
{
    let mut i: usize = key.len();
    assert(key@.take(i as int) =~= key@);
    while i > 0
        invariant
            i <= key.len(),
            after_last_sep(key@) == after_last_sep(key@.take(i as int)),
        decreases i,
    {
        if key[i - 1] == SEP {
            assert(key@.take(i as int).last() == SEP);
            return i;
        }
        assert(key@.take(i as int).drop_last() =~= key@.take(i - 1));
        i = i - 1;
    }
    0
}

/// The position of the first row that is not before `start`.
fn seek(rows: &Vec<Vec<u8>>, start: &[u8]) -> (pos: usize)
    requires
        rows_sorted(row_views(rows@)),
    ensures
        pos <= rows.len(),
        forall|i: int| 0 <= i < pos ==> lex_lt(#[trigger] rows@[i]@, start@),
        forall|i: int| pos <= i < rows.len() ==> lex_le(start@, #[trigger] rows@[i]@),
{
    let ghost v = row_views(rows@);
    let mut lo: usize = 0;
    let mut hi: usize = rows.len();
    while lo < hi
        invariant
            v == row_views(rows@),
            rows_sorted(v),
            lo <= hi <= rows.len(),
            forall|i: int| 0 <= i < lo ==> lex_lt(#[trigger] rows@[i]@, start@),
            forall|i: int| hi <= i < rows.len() ==> lex_le(start@, #[trigger] rows@[i]@),
        decreases hi - lo,
    {
        let mid: usize = lo + (hi - lo) / 2;
        match relate_bytes(rows[mid].as_slice(), start) {
            Rel::Less => {
                proof {
                    assert forall|i: int| 0 <= i < mid + 1 implies lex_lt(
                        #[trigger] rows@[i]@,
                        start@,
                    ) by {
                        if i < mid {
                            assert(lex_lt(v[i], v[mid as int]));
                            lemma_lex_transitive(v[i], v[mid as int], start@);
                        }
                    }
                }
                lo = mid + 1;
            },
            _ => {
                proof {
                    assert forall|i: int| mid <= i < rows.len() implies lex_le(
                        start@,
                        #[trigger] rows@[i]@,
                    ) by {
                        if i > mid {
                            assert(lex_lt(v[mid as int], v[i]));
                            if start@ != v[mid as int] {
                                lemma_lex_transitive(start@, v[mid as int], v[i]);
                            }
                        }
                    }
                }
                hi = mid;
            },
        }
    }
    lo
}

/// Walks over the rows, and gathers the ids that the walk takes.
pub fn scan(rows: &Vec<Vec<u8>>, walk: &Scan) -> (r: StrSet)
    requires
        rows_sorted(row_views(rows@)),
    ensures
        r.wf(),
        r@ == scanned(row_views(rows@), walk@),
{
    let ghost v = row_views(rows@);
    let start = walk.start();
    let mut i: usize = seek(rows, start.as_slice());
    let ghost first = i;
    let mut out = StrSet::new();
    proof {
        assert forall|k: int| 0 <= k < first implies !lex_le(start@, #[trigger] v[k]) by {
            assert(lex_lt(rows@[k]@, start@));
            lemma_lex_asymmetric(v[k], start@);
        }
        assert forall|k: int| first <= k < v.len() implies lex_le(start@, #[trigger] v[k]) by {
            assert(lex_le(start@, rows@[k]@));
        }
    }
    while i < rows.len()
        invariant
            first <= i <= rows.len(),
            v == row_views(rows@),
            start@ == start_of(walk@),
            forall|k: int| 0 <= k < first ==> !lex_le(start@, #[trigger] v[k]),
            forall|k: int| first <= k < v.len() ==> lex_le(start@, #[trigger] v[k]),
            forall|k: int| first <= k < i ==> !(step_of(walk@, #[trigger] v[k]) is Stop),
            out.wf(),
            forall|id: Seq<char>| #[trigger]
                out@.contains(id) <==> exists|k: int|
                    first <= k < i && step_of(walk@, #[trigger] v[k]) == StepView::Take(id),
        decreases rows.len() - i,
    {
        let ghost before = out@;
        match walk.step(rows[i].as_slice()) {
            Step::Stop => {
                proof {
                    assert(step_of(walk@, v[i as int]) is Stop);
                    lemma_scanned(v, walk@, first as int, i as int, out@);
                }
                return out;
            },
            Step::Skip => {
                assert(step_of(walk@, v[i as int]) is Skip);
                assert forall|id: Seq<char>| #[trigger] out@.contains(id) <==> exists|k: int|
                    first <= k < i + 1 && step_of(walk@, #[trigger] v[k]) == StepView::Take(id) by {
                    if exists|k: int|
                        first <= k < i + 1 && step_of(walk@, #[trigger] v[k]) == StepView::Take(
                            id,
                        ) {
                        let k = choose|k: int|
                            first <= k < i + 1 && step_of(walk@, #[trigger] v[k]) == StepView::Take(
                                id,
                            );
                        assert(k < i);
                    }
                }
            },
            Step::Take(id) => {
                let ghost taken = id@;
                assert(step_of(walk@, v[i as int]) == StepView::Take(taken));
                out.insert(id);
                assert forall|x: Seq<char>| #[trigger] out@.contains(x) <==> exists|k: int|
                    first <= k < i + 1 && step_of(walk@, #[trigger] v[k]) == StepView::Take(x) by {
                    if exists|k: int|
                        first <= k < i + 1 && step_of(walk@, #[trigger] v[k]) == StepView::Take(x) {
                        let k = choose|k: int|
                            first <= k < i + 1 && step_of(walk@, #[trigger] v[k]) == StepView::Take(
                                x,
                            );
                        if k < i {
                            assert(before.contains(x));
                        }
                    }
                    if before.contains(x) {
                        let k = choose|k: int|
                            first <= k < i && step_of(walk@, #[trigger] v[k]) == StepView::Take(x);
                        assert(step_of(walk@, v[k]) == StepView::Take(x));
                    }
                }
            },
        }
        i = i + 1;
    }
    proof {
        lemma_scanned(v, walk@, first as int, i as int, out@);
    }
    out
}

proof fn lemma_scanned(
    v: Seq<Seq<u8>>,
    walk: ScanView,
    first: int,
    end: int,
    out: Set<Seq<char>>,
)
    requires
        0 <= first <= end <= v.len(),
        forall|k: int| 0 <= k < first ==> !lex_le(start_of(walk), #[trigger] v[k]),
        forall|k: int| first <= k < v.len() ==> lex_le(start_of(walk), #[trigger] v[k]),
        forall|k: int| first <= k < end ==> !(step_of(walk, #[trigger] v[k]) is Stop),
        end == v.len() || step_of(walk, v[end]) is Stop,
        forall|id: Seq<char>| #[trigger]
            out.contains(id) <==> exists|k: int|
                first <= k < end && step_of(walk, #[trigger] v[k]) == StepView::Take(id),
    ensures
        out == scanned(v, walk),
{
    assert forall|id: Seq<char>| out.contains(id) <==> scanned(v, walk).contains(id) by {
        if out.contains(id) {
            let k = choose|k: int|
                first <= k < end && step_of(walk, #[trigger] v[k]) == StepView::Take(id);
            assert(walked(v, walk, k));
        }
        if scanned(v, walk).contains(id) {
            let k = choose|k: int|
                #[trigger] walked(v, walk, k) && step_of(walk, v[k]) == StepView::Take(id);
            if k >= end {
                assert(lex_le(start_of(walk), v[end]));
            }
            assert(first <= k < end);
        }
    }
    assert(out =~= scanned(v, walk));
}

// ---- conditions --------------------------------------------------------------------

/// What a filter asks of one field.
#[derive(Debug)]
pub enum Condition {
    /// The field has this value.
    Eq { key: String, value: FieldValue },
    /// The field has one of these values.
    Any { key: String, values: Vec<FieldValue> },
    /// The field has a number between these bounds.
    Range { key: String, bounds: Bounds },
    /// The field has a value.
    Exists { key: String },
}

/// What a filter asks of one field.
pub enum CondView {
    Eq { key: Seq<char>, value: FieldView },
    Any { key: Seq<char>, values: Seq<FieldView> },
    Range { key: Seq<char>, bounds: Bounds },
    Exists { key: Seq<char> },
}

/// The values of a list.
pub open spec fn value_views(v: Seq<FieldValue>) -> Seq<FieldView> {
    v.map_values(|x: FieldValue| x@)
}

impl View for Condition {
    type V = CondView;

    open spec fn view(&self) -> CondView {
        match *self {
            Condition::Eq { key, value } => CondView::Eq { key: key@, value: value@ },
            Condition::Any { key, values } => CondView::Any {
                key: key@,
                values: value_views(values@),
            },
            Condition::Range { key, bounds } => CondView::Range { key: key@, bounds },
            Condition::Exists { key } => CondView::Exists { key: key@ },
        }
    }
}

/// The field that a condition is about.
pub open spec fn key_of(c: CondView) -> Seq<char> {
    match c {
        CondView::Eq { key, value } => key,
        CondView::Any { key, values } => key,
        CondView::Range { key, bounds } => key,
        CondView::Exists { key } => key,
    }
}

/// The walks that answer a condition.
pub open spec fn scans_of(c: CondView) -> Seq<ScanView> {
    match c {
        CondView::Eq { key, value } => seq![ScanView::Value { prefix: value_prefix_of(key, value) }],
        CondView::Any { key, values } => values.map_values(
            |v: FieldView| ScanView::Value { prefix: value_prefix_of(key, v) },
        ),
        CondView::Range { key, bounds } => seq![
            ScanView::Range { prefix: num_prefix_of(key), bounds },
        ],
        CondView::Exists { key } => seq![ScanView::Field { prefix: field_prefix_of(key) }],
    }
}

/// The ids that match a condition: those that any of its walks takes.
pub open spec fn cond_ids(rows: Seq<Seq<u8>>, c: CondView) -> Set<Seq<char>> {
    Set::new(
        |id: Seq<char>|
            exists|i: int|
                0 <= i < scans_of(c).len() && scanned(rows, #[trigger] scans_of(c)[i]).contains(id),
    )
}

/// The walks of a list.
pub open spec fn scan_views(v: Seq<Scan>) -> Seq<ScanView> {
    v.map_values(|s: Scan| s@)
}

impl Condition {
    /// The field that the condition is about.
    pub fn key(&self) -> (r: &str)
        ensures
            r@ == key_of(self@),
    {
        match self {
            Condition::Eq { key, value } => key.as_str(),
            Condition::Any { key, values } => key.as_str(),
            Condition::Range { key, bounds } => key.as_str(),
            Condition::Exists { key } => key.as_str(),
        }
    }

    /// The walks that answer the condition.
    pub fn scans(&self) -> (r: Vec<Scan>)
        ensures
            scan_views(r@) == scans_of(self@),
    {
        let mut out: Vec<Scan> = Vec::new();
        match self {
            Condition::Eq { key, value } => {
                out.push(Scan::Value { prefix: pidx_value_prefix(key.as_str(), value) });
            },
            Condition::Any { key, values } => {
                let mut i: usize = 0;
                while i < values.len()
                    invariant
                        i <= values.len(),
                        out@.len() == i,
                        forall|j: int|
                            0 <= j < i ==> (#[trigger] out@[j])@ == (ScanView::Value {
                                prefix: value_prefix_of(key@, values@[j]@),
                            }),
                    decreases values.len() - i,
                {
                    out.push(Scan::Value { prefix: pidx_value_prefix(key.as_str(), &values[i]) });
                    i = i + 1;
                }
            },
            Condition::Range { key, bounds } => {
                out.push(Scan::Range { prefix: pidx_num_prefix(key.as_str()), bounds: *bounds });
            },
            Condition::Exists { key } => {
                out.push(Scan::Field { prefix: pidx_field_prefix(key.as_str()) });
            },
        }
        assert(scan_views(out@) =~= scans_of(self@));
        out
    }
}

/// All ids that match one condition, from its field's index rows.
pub fn ids_for_condition(rows: &Vec<Vec<u8>>, c: &Condition) -> (r: StrSet)
    requires
        rows_sorted(row_views(rows@)),
    ensures
        r.wf(),
        r@ == cond_ids(row_views(rows@), c@),
{
    let ghost v = row_views(rows@);
    let scans = c.scans();
    let ghost all = scans_of(c@);
    let mut out = StrSet::new();
    let mut i: usize = 0;
    while i < scans.len()
        invariant
            rows_sorted(row_views(rows@)),
            v == row_views(rows@),
            all == scan_views(scans@),
            i <= scans.len(),
            out.wf(),
            forall|id: Seq<char>| #[trigger]
                out@.contains(id) <==> exists|k: int|
                    0 <= k < i && scanned(v, #[trigger] all[k]).contains(id),
        decreases scans.len() - i,
    {
        let ghost before = out@;
        let more = scan(rows, &scans[i]);
        out.extend(&more);
        assert(more@ == scanned(v, all[i as int]));
        assert forall|id: Seq<char>| #[trigger] out@.contains(id) <==> exists|k: int|
            0 <= k < i + 1 && scanned(v, #[trigger] all[k]).contains(id) by {
            if before.contains(id) {
                let k = choose|k: int| 0 <= k < i && scanned(v, #[trigger] all[k]).contains(id);
                assert(scanned(v, all[k]).contains(id));
            }
            if exists|k: int| 0 <= k < i + 1 && scanned(v, #[trigger] all[k]).contains(id) {
                let k = choose|k: int| 0 <= k < i + 1 && scanned(v, #[trigger] all[k]).contains(id);
                if k < i {
                    assert(before.contains(id));
                }
            }
        }
        i = i + 1;
    }
    assert(out@ =~= cond_ids(v, c@));
    out
}

// ---- filters -----------------------------------------------------------------------

/// What a search asks of payloads: all of `must`, one of `should` if there are
/// any, none of `must_not`.
#[derive(Debug)]
pub struct Filter {
    pub must: Vec<Condition>,
    pub should: Vec<Condition>,
    pub must_not: Vec<Condition>,
}

/// What a search asks of payloads.
pub struct FilterView {
    pub must: Seq<CondView>,
    pub should: Seq<CondView>,
    pub must_not: Seq<CondView>,
}

/// The conditions of a list.
pub open spec fn cond_views(v: Seq<Condition>) -> Seq<CondView> {
    v.map_values(|c: Condition| c@)
}

impl View for Filter {
    type V = FilterView;

    open spec fn view(&self) -> FilterView {
        FilterView {
            must: cond_views(self.must@),
            should: cond_views(self.should@),
            must_not: cond_views(self.must_not@),
        }
    }
}

/// Every condition is about one of `fields`.
pub open spec fn keys_in(conds: Seq<CondView>, fields: Seq<Seq<char>>) -> bool {
    forall|i: int| 0 <= i < conds.len() ==> fields.contains(key_of(#[trigger] conds[i]))
}

/// Every field that the filter refers to is one of `fields`.
pub open spec fn filter_keys_in(f: FilterView, fields: Seq<Seq<char>>) -> bool {
    keys_in(f.must, fields) && keys_in(f.should, fields) && keys_in(f.must_not, fields)
}

/// `id` matches each of `conds`, given the ids that match a condition.
pub open spec fn in_all(
    conds: Seq<CondView>,
    ids: spec_fn(CondView) -> Set<Seq<char>>,
    id: Seq<char>,
) -> bool {
    forall|i: int| 0 <= i < conds.len() ==> ids(#[trigger] conds[i]).contains(id)
}

/// `id` matches one of `conds`, given the ids that match a condition.
pub open spec fn in_any(
    conds: Seq<CondView>,
    ids: spec_fn(CondView) -> Set<Seq<char>>,
    id: Seq<char>,
) -> bool {
    exists|i: int| 0 <= i < conds.len() && ids(#[trigger] conds[i]).contains(id)
}

/// `id` matches the filter, given the ids that match a condition.
pub open spec fn passes(
    f: FilterView,
    ids: spec_fn(CondView) -> Set<Seq<char>>,
    id: Seq<char>,
) -> bool {
    &&& in_all(f.must, ids, id)
    &&& f.should.len() > 0 ==> in_any(f.should, ids, id)
    &&& !in_any(f.must_not, ids, id)
}

/// The ids that match the filter, given the ids that match a condition.
pub open spec fn matching(f: FilterView, ids: spec_fn(CondView) -> Set<Seq<char>>) -> Set<
    Seq<char>,
> {
    Set::new(|id: Seq<char>| passes(f, ids, id))
}

/// The field names that are stored as indexed; none where nothing is stored.
pub open spec fn stored_fields(stored: Option<Seq<u8>>) -> Option<Seq<Seq<char>>> {
    match stored {
        Some(b) => json_strings(b),
        None => Some(seq![]),
    }
}

/// The bytes that may be stored.
pub open spec fn opt_bytes(b: Option<&[u8]>) -> Option<Seq<u8>> {
    match b {
        Some(x) => Some(x@),
        None => None,
    }
}

/// The estate's payload-indexed field names, from the bytes they are stored as.
pub fn indexed_fields(stored: Option<&[u8]>) -> (r: Result<Vec<String>, RrfError>)
    ensures
        match stored_fields(opt_bytes(stored)) {
            Some(fields) => r matches Ok(v) && texts(v@) == fields,
            None => r matches Err(RrfError::Json(_)),
        },
{
    match stored {
        None => {
            let r: Vec<String> = Vec::new();
            assert(texts(r@) =~= Seq::<Seq<char>>::empty());
            Ok(r)
        },
        Some(b) => match strings_of_json(b) {
            Ok(v) => Ok(v),
            Err(e) => Err(RrfError::Json(e)),
        },
    }
}

fn is_one_of(key: &str, fields: &Vec<String>) -> (r: bool)
    ensures
        r == texts(fields@).contains(key@),
{
    let ghost all = texts(fields@);
    let mut i: usize = 0;
    while i < fields.len()
        invariant
            i <= fields.len(),
            all == texts(fields@),
            forall|j: int| 0 <= j < i ==> all[j] != key@,
        decreases fields.len() - i,
    {
        assert(all[i as int] == fields@[i as int]@);
        match relate_bytes(fields[i].as_str().as_bytes(), key.as_bytes()) {
            Rel::Equal => {
                proof {
                    encode_utf8_decode_utf8(key@);
                    encode_utf8_decode_utf8(all[i as int]);
                }
                return true;
            },
            _ => {},
        }
        i = i + 1;
    }
    false
}

fn all_keys_in(conds: &Vec<Condition>, fields: &Vec<String>) -> (r: bool)
    ensures
        r == keys_in(cond_views(conds@), texts(fields@)),
{
    let ghost v = cond_views(conds@);
    let mut i: usize = 0;
    while i < conds.len()
        invariant
            i <= conds.len(),
            v == cond_views(conds@),
            forall|j: int| 0 <= j < i ==> texts(fields@).contains(key_of(#[trigger] v[j])),
        decreases conds.len() - i,
    {
        assert(v[i as int] == conds@[i as int]@);
        if !is_one_of(conds[i].key(), fields) {
            assert(!texts(fields@).contains(key_of(v[i as int])));
            return false;
        }
        i = i + 1;
    }
    true
}

/// Which of a filter's lists is being asked for.
#[derive(Debug, Clone, Copy, PartialEq, Eq, Structural)]
enum Phase {
    Must,
    Should,
    MustNot,
}

/// The state of a filter that is being resolved, condition by condition: which
/// condition is asked for next, and the ids that are left.
#[derive(Debug)]
pub struct Resolver {
    filter: Filter,
    phase: Phase,
    /// How many conditions of the list have been answered.
    pos: usize,
    /// The ids that are left, once a condition has been answered.
    acc: StrSet,
    /// The ids that match one of the `should` conditions answered so far.
    union: StrSet,
    /// No id is left, and nothing more is asked.
    empty: bool,
}

proof fn lemma_all_grows(
    conds: Seq<CondView>,
    n: int,
    ids: spec_fn(CondView) -> Set<Seq<char>>,
    id: Seq<char>,
)
    requires
        0 <= n < conds.len(),
    ensures
        in_all(conds.take(n + 1), ids, id) <==> in_all(conds.take(n), ids, id) && ids(
            conds[n],
        ).contains(id),
{
    let short = conds.take(n);
    let long = conds.take(n + 1);
    assert(long[n] == conds[n]);
    if in_all(long, ids, id) {
        assert(ids(long[n]).contains(id));
        assert forall|i: int| 0 <= i < short.len() implies ids(#[trigger] short[i]).contains(id) by {
            assert(ids(long[i]).contains(id));
        }
    }
    if in_all(short, ids, id) && ids(conds[n]).contains(id) {
        assert forall|i: int| 0 <= i < long.len() implies ids(#[trigger] long[i]).contains(id) by {
            if i < n {
                assert(ids(short[i]).contains(id));
            }
        }
    }
}

proof fn lemma_any_grows(
    conds: Seq<CondView>,
    n: int,
    ids: spec_fn(CondView) -> Set<Seq<char>>,
    id: Seq<char>,
)
    requires
        0 <= n < conds.len(),
    ensures
        in_any(conds.take(n + 1), ids, id) <==> in_any(conds.take(n), ids, id) || ids(
            conds[n],
        ).contains(id),
{
    let short = conds.take(n);
    let long = conds.take(n + 1);
    assert(long[n] == conds[n]);
    if in_any(short, ids, id) {
        let i = choose|i: int| 0 <= i < short.len() && ids(#[trigger] short[i]).contains(id);
        assert(ids(long[i]).contains(id));
    }
    if ids(conds[n]).contains(id) {
        assert(ids(long[n]).contains(id));
    }
    if in_any(long, ids, id) {
        let i = choose|i: int| 0 <= i < long.len() && ids(#[trigger] long[i]).contains(id);
        if i < n {
            assert(ids(short[i]).contains(id));
        }
    }
}

impl Resolver {
    /// The filter that is resolved.
    pub closed spec fn filter(&self) -> FilterView {
        self.filter@
    }

    /// There is something to resolve, and the state is one that it can be in.
    pub closed spec fn wf(&self) -> bool {
        &&& self.acc.wf()
        &&& self.union.wf()
        &&& !self.empty ==> match self.phase {
            Phase::Must => self.pos < self.filter@.must.len() && self.union@ == Set::<
                Seq<char>,
            >::empty(),
            Phase::Should => self.pos < self.filter@.should.len() && (self.pos == 0 ==> self.union@
                == Set::<Seq<char>>::empty()),
            Phase::MustNot => self.pos <= self.filter@.must_not.len(),
        }
    }

    /// The condition that is asked for next.
    pub closed spec fn asked(&self) -> Option<CondView> {
        if self.empty {
            None
        } else {
            match self.phase {
                Phase::Must => Some(self.filter@.must[self.pos as int]),
                Phase::Should => Some(self.filter@.should[self.pos as int]),
                Phase::MustNot => if self.pos < self.filter@.must_not.len() {
                    Some(self.filter@.must_not[self.pos as int])
                } else {
                    None
                },
            }
        }
    }

    /// How many conditions may still be asked for.
    pub closed spec fn left(&self) -> nat {
        let f = self.filter@;
        if self.empty {
            0
        } else {
            match self.phase {
                Phase::Must => (f.must.len() + f.should.len() + f.must_not.len() - self.pos) as nat,
                Phase::Should => (f.should.len() + f.must_not.len() - self.pos) as nat,
                Phase::MustNot => (f.must_not.len() - self.pos) as nat,
            }
        }
    }

    /// The state is what the answers so far make it, where `ids` gives the ids
    /// that match a condition.
    pub closed spec fn agrees(&self, ids: spec_fn(CondView) -> Set<Seq<char>>) -> bool {
        let f = self.filter@;
        if self.empty {
            self.acc@ == Set::<Seq<char>>::empty() && matching(f, ids) == Set::<Seq<char>>::empty()
        } else {
            match self.phase {
                Phase::Must => self.pos > 0 ==> forall|id: Seq<char>| #[trigger]
                    self.acc@.contains(id) <==> in_all(f.must.take(self.pos as int), ids, id),
                Phase::Should => {
                    &&& f.must.len() > 0 ==> forall|id: Seq<char>| #[trigger]
                        self.acc@.contains(id) <==> in_all(f.must, ids, id)
                    &&& forall|id: Seq<char>| #[trigger]
                        self.union@.contains(id) <==> in_any(
                            f.should.take(self.pos as int),
                            ids,
                            id,
                        )
                },
                Phase::MustNot => forall|id: Seq<char>| #[trigger]
                    self.acc@.contains(id) <==> in_all(f.must, ids, id) && (f.should.len() > 0
                        ==> in_any(f.should, ids, id)) && !in_any(
                        f.must_not.take(self.pos as int),
                        ids,
                        id,
                    ),
            }
        }
    }

    /// Starts to resolve a filter. One that has only `must_not` conditions
    /// cannot be resolved: what does not match is not enumerable from an index.
    pub fn begin(filter: Filter) -> (r: Option<Resolver>)
        ensures
            r is None <==> filter@.must.len() == 0 && filter@.should.len() == 0,
            r matches Some(s) ==> s.wf() && s.filter() == filter@ && forall|
                ids: spec_fn(CondView) -> Set<Seq<char>>,
            | #[trigger]
                s.agrees(ids),
    {
        if filter.must.len() == 0 && filter.should.len() == 0 {
            return None;
        }
        let phase = if filter.must.len() > 0 {
            Phase::Must
        } else {
            Phase::Should
        };
        let r = Resolver {
            filter,
            phase,
            pos: 0,
            acc: StrSet::new(),
            union: StrSet::new(),
            empty: false,
        };
        Some(r)
    }

    /// The condition that is asked for next; none when all is answered.
    pub fn next(&self) -> (r: Option<&Condition>)
        requires
            self.wf(),
        ensures
            match r {
                Some(c) => self.asked() == Some(c@),
                None => self.asked() is None,
            },
    {
        if self.empty {
            return None;
        }
        match self.phase {
            Phase::Must => Some(&self.filter.must[self.pos]),
            Phase::Should => Some(&self.filter.should[self.pos]),
            Phase::MustNot => if self.pos < self.filter.must_not.len() {
                Some(&self.filter.must_not[self.pos])
            } else {
                None
            },
        }
    }

    /// Takes the ids that match the condition asked for.
    pub fn feed(&mut self, answer: StrSet)
        requires
            old(self).wf(),
            old(self).asked() is Some,
            answer.wf(),
        ensures
            final(self).wf(),
            final(self).filter() == old(self).filter(),
            final(self).left() < old(self).left(),
            forall|ids: spec_fn(CondView) -> Set<Seq<char>>| #[trigger]
                old(self).agrees(ids) && answer@ == ids(old(self).asked()->0)
                    ==> final(self).agrees(ids),
    {
        let ghost before = *self;
        let ghost f = self.filter@;
        let ghost n = self.pos as int;
        match self.phase {
            Phase::Must => {
                assert(self.pos < self.filter.must.len());
                if self.pos == 0 {
                    self.acc = answer;
                } else {
                    self.acc = self.acc.intersect(&answer);
                }
                self.pos = self.pos + 1;
                proof {
                    assert forall|ids: spec_fn(CondView) -> Set<Seq<char>>, id: Seq<char>|
                        before.agrees(ids) && answer@ == ids(before.asked()->0) implies (
                    self.acc@.contains(id) <==> #[trigger] in_all(f.must.take(n + 1), ids, id)) by {
                        lemma_all_grows(f.must, n, ids, id);
                    }
                    assert(f.must.take(f.must.len() as int) =~= f.must);
                }
                if self.acc.is_empty() {
                    self.empty = true;
                    proof {
                        assert forall|ids: spec_fn(CondView) -> Set<Seq<char>>| #[trigger]
                            before.agrees(ids) && answer@ == ids(
                                before.asked()->0,
                            ) implies self.agrees(ids) by {
                            assert forall|id: Seq<char>| !matching(f, ids).contains(id) by {
                                if in_all(f.must, ids, id) {
                                    let part = f.must.take(n + 1);
                                    assert forall|i: int| 0 <= i < part.len() implies ids(
                                        #[trigger] part[i],
                                    ).contains(id) by {
                                        assert(ids(f.must[i]).contains(id));
                                    }
                                    assert(in_all(f.must.take(n + 1), ids, id));
                                    assert(self.acc@.contains(id));
                                }
                            }
                            assert(matching(f, ids) =~= Set::<Seq<char>>::empty());
                        }
                    }
                    return ;
                }
                if self.pos == self.filter.must.len() {
                    self.pos = 0;
                    if self.filter.should.len() > 0 {
                        self.phase = Phase::Should;
                        assert(f.should.take(0) =~= Seq::<CondView>::empty());
                    } else {
                        self.phase = Phase::MustNot;
                        assert(f.must_not.take(0) =~= Seq::<CondView>::empty());
                    }
                }
            },
            Phase::Should => {
                assert(self.pos < self.filter.should.len());
                self.union.extend(&answer);
                self.pos = self.pos + 1;
                proof {
                    assert forall|ids: spec_fn(CondView) -> Set<Seq<char>>, id: Seq<char>|
                        before.agrees(ids) && answer@ == ids(before.asked()->0) implies (
                    self.union@.contains(id) <==> #[trigger] in_any(
                        f.should.take(n + 1),
                        ids,
                        id,
                    )) by {
                        lemma_any_grows(f.should, n, ids, id);
                    }
                    assert(f.should.take(f.should.len() as int) =~= f.should);
                }
                if self.pos == self.filter.should.len() {
                    if self.filter.must.len() > 0 {
                        self.acc = self.acc.intersect(&self.union);
                    } else {
                        let mut all = StrSet::new();
                        all.extend(&self.union);
                        self.acc = all;
                    }
                    self.phase = Phase::MustNot;
                    self.pos = 0;
                    assert(f.must_not.take(0) =~= Seq::<CondView>::empty());
                }
            },
            Phase::MustNot => {
                assert(self.pos < self.filter.must_not.len());
                self.acc.subtract(&answer);
                self.pos = self.pos + 1;
                proof {
                    assert forall|ids: spec_fn(CondView) -> Set<Seq<char>>, id: Seq<char>|
                        before.agrees(ids) && answer@ == ids(before.asked()->0) implies (
                    in_any(f.must_not.take(n), ids, id) || answer@.contains(id) <==> #[trigger] in_any(
                        f.must_not.take(n + 1),
                        ids,
                        id,
                    )) by {
                        lemma_any_grows(f.must_not, n, ids, id);
                    }
                }
            },
        }
    }

    /// The ids that match the filter, in order.
    pub fn finish(self) -> (r: Vec<String>)
        requires
            self.wf(),
            self.asked() is None,
        ensures
            strictly_sorted(r@),
            forall|ids: spec_fn(CondView) -> Set<Seq<char>>| #[trigger]
                self.agrees(ids) ==> str_set(r@) == matching(self.filter(), ids),
    {
        proof {
            let f = self.filter@;
            assert(f.must_not.take(f.must_not.len() as int) =~= f.must_not);
            assert forall|ids: spec_fn(CondView) -> Set<Seq<char>>| #[trigger]
                self.agrees(ids) implies self.acc@ == matching(f, ids) by {
                assert(self.acc@ =~= matching(f, ids));
            }
        }
        self.acc.into_sorted()
    }
}

/// Starts to resolve a filter against an estate whose payload-indexed fields
/// are stored as given. There is nothing to resolve where the filter refers to
/// another field, or has only `must_not` conditions.
pub fn resolve(filter: Filter, stored: Option<&[u8]>) -> (r: Result<Option<Resolver>, RrfError>)
    ensures
        filter@.must.len() == 0 && filter@.should.len() == 0 ==> r matches Ok(None),
        filter@.must.len() > 0 || filter@.should.len() > 0 ==> match stored_fields(
            opt_bytes(stored),
        ) {
            None => r matches Err(RrfError::Json(_)),
            Some(fields) => if filter_keys_in(filter@, fields) {
                r matches Ok(Some(s)) && s.wf() && s.filter() == filter@ && forall|
                    ids: spec_fn(CondView) -> Set<Seq<char>>,
                | #[trigger]
                    s.agrees(ids)
            } else {
                r matches Ok(None)
            },
        },
{
    if filter.must.len() == 0 && filter.should.len() == 0 {
        return Ok(None);
    }
    let fields = match indexed_fields(stored) {
        Ok(v) => v,
        Err(e) => {
            return Err(e);
        },
    };
    if !all_keys_in(&filter.must, &fields) || !all_keys_in(&filter.should, &fields)
        || !all_keys_in(&filter.must_not, &fields) {
        return Ok(None);
    }
    Ok(Resolver::begin(filter))
}

/// Resolves the exact set of ids that match `filter`, in order, from the rows
/// of the payload index. There is no answer where the filter refers to a field
/// that is not indexed, or has only `must_not` conditions.
pub fn ids_where(rows: &Vec<Vec<u8>>, stored: Option<&[u8]>, filter: Filter) -> (r: Result<
    Option<Vec<String>>,
    RrfError,
>)
    requires
        rows_sorted(row_views(rows@)),
    ensures
        filter@.must.len() == 0 && filter@.should.len() == 0 ==> r matches Ok(None),
        filter@.must.len() > 0 || filter@.should.len() > 0 ==> match stored_fields(
            opt_bytes(stored),
        ) {
            None => r matches Err(RrfError::Json(_)),
            Some(fields) => if filter_keys_in(filter@, fields) {
                r matches Ok(Some(v)) && strictly_sorted(v@) && str_set(v@) == matching(
                    filter@,
                    |c: CondView| cond_ids(row_views(rows@), c),
                )
            } else {
                r matches Ok(None)
            },
        },
{
    let ghost f = filter@;
    let ghost ids = |c: CondView| cond_ids(row_views(rows@), c);
    let mut s = match resolve(filter, stored) {
        Err(e) => {
            return Err(e);
        },
        Ok(None) => {
            return Ok(None);
        },
        Ok(Some(s)) => s,
    };
    loop
        invariant
            rows_sorted(row_views(rows@)),
            s.wf(),
            s.filter() == f,
            s.agrees(ids),
            ids == (|c: CondView| cond_ids(row_views(rows@), c)),
        ensures
            s.wf(),
            s.filter() == f,
            s.agrees(ids),
            s.asked() is None,
        decreases s.left(),
    {
        let answer = match s.next() {
            None => {
                break ;
            },
            Some(c) => ids_for_condition(rows, c),
        };
        s.feed(answer);
    }
    Ok(Some(s.finish()))
}

// ---- filters, condition by condition -------------------------------------------------

/// A condition's view has the field, and the value, the values in order or the
/// bounds that it is about.
pub proof fn law_condition_views_hold_every_field(
    key: String,
    value: FieldValue,
    values: Vec<FieldValue>,
    bounds: Bounds,
    i: int,
)
    ensures
        (Condition::Eq { key, value })@ == (CondView::Eq { key: key@, value: value@ }),
        (Condition::Range { key, bounds })@ == (CondView::Range { key: key@, bounds }),
        (Condition::Exists { key })@ == (CondView::Exists { key: key@ }),
        (Condition::Any { key, values })@ == (CondView::Any {
            key: key@,
            values: value_views(values@),
        }),
        value_views(values@).len() == values@.len(),
        0 <= i < values@.len() ==> value_views(values@)[i] == values@[i]@,
{
}

/// A filter's view has every condition of each list, in order.
pub proof fn law_filter_views_hold_every_condition(f: Filter, i: int)
    ensures
        f@.must.len() == f.must@.len(),
        f@.should.len() == f.should@.len(),
        f@.must_not.len() == f.must_not@.len(),
        0 <= i < f.must@.len() ==> f@.must[i] == f.must@[i]@,
        0 <= i < f.should@.len() ==> f@.should[i] == f.should@[i]@,
        0 <= i < f.must_not@.len() ==> f@.must_not[i] == f.must_not@[i]@,
{
}

/// The ids that a filter matches are those that every `must` condition matches,
/// that some `should` condition matches if there are any, and that no
/// `must_not` condition matches.
pub proof fn law_filters_join_their_conditions(
    f: FilterView,
    ids: spec_fn(CondView) -> Set<Seq<char>>,
    id: Seq<char>,
)
    ensures
        matching(f, ids).contains(id) <==> {
            &&& forall|i: int| 0 <= i < f.must.len() ==> ids(#[trigger] f.must[i]).contains(id)
            &&& f.should.len() > 0 ==> exists|i: int|
                0 <= i < f.should.len() && ids(#[trigger] f.should[i]).contains(id)
            &&& forall|i: int|
                0 <= i < f.must_not.len() ==> !ids(#[trigger] f.must_not[i]).contains(id)
        },
{
}

/// Where nothing is stored no field is indexed, so that no condition is about
/// an indexed one.
pub proof fn law_nothing_stored_is_no_field(f: FilterView)
    ensures
        stored_fields(None) == Some(Seq::<Seq<char>>::empty()),
        filter_keys_in(f, Seq::empty()) <==> f.must.len() == 0 && f.should.len() == 0
            && f.must_not.len() == 0,
{
    let none = Seq::<Seq<char>>::empty();
    if filter_keys_in(f, none) {
        assert(f.must.len() > 0 ==> none.contains(key_of(f.must[0])));
        assert(f.should.len() > 0 ==> none.contains(key_of(f.should[0])));
        assert(f.must_not.len() > 0 ==> none.contains(key_of(f.must_not[0])));
    }
}

/// Rows and walks have their bytes and bounds, in order.
pub proof fn law_walk_views_hold_every_field(
    rows: Seq<Vec<u8>>,
    scans: Seq<Scan>,
    prefix: Vec<u8>,
    bounds: Bounds,
    id: String,
    i: int,
)
    ensures
        row_views(rows).len() == rows.len(),
        0 <= i < rows.len() ==> row_views(rows)[i] == rows[i]@,
        scan_views(scans).len() == scans.len(),
        0 <= i < scans.len() ==> scan_views(scans)[i] == scans[i]@,
        (Scan::Value { prefix })@ == (ScanView::Value { prefix: prefix@ }),
        (Scan::Field { prefix })@ == (ScanView::Field { prefix: prefix@ }),
        (Scan::Range { prefix, bounds })@ == (ScanView::Range { prefix: prefix@, bounds }),
        Step::Take(id)@ == StepView::Take(id@),
        Step::Skip@ == StepView::Skip,
        Step::Stop@ == StepView::Stop,
{
}

} // verus!
