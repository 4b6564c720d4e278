//! The key/value seam: batches, counters, and how column families are tuned.
//!
//! A batch is a backend-neutral log of writes. A backend without a merge
//! operator commits counter deltas as read-modify-writes: deltas to one counter
//! are composed, the counter is read once against the committed store, and the
//! sum is put. A counter is eight bytes, least significant first, whichever
//! backend wrote it.

use vstd::prelude::*;

use crate::bytes::{
    from_le, law_bytes_weigh_by_place, le_bytes, le_value, lemma_le_bytes_len,
    lemma_le_round_trip, lemma_le_value_bound, lemma_pow256_grows, lemma_pow256_values, signed,
    slice, to_le, to_signed, to_unsigned, unsigned64,
};
use crate::keys::{
    CF_COLL, CF_CONNS, CF_DOCS, CF_META, CF_MVECS, CF_NODES, CF_NVECS, CF_TDF, CF_TERMS, CF_VECS,
};
use crate::order::{
    lemma_lex_irreflexive, lemma_lex_total, lemma_lex_transitive, lemma_str_total, lex_lt,
    relate_bytes, relate_strs, same_text, str_lt, Rel,
};
use crate::strset::{lemma_str_irreflexive, lemma_str_transitive};

verus! {

// ---- counters ------------------------------------------------------------------------

/// The first eight of some bytes, or all if there are fewer.
pub open spec fn first_eight(b: Seq<u8>) -> Seq<u8> {
    if b.len() < 8 {
        b
    } else {
        b.take(8)
    }
}

/// The counter that bytes hold; bytes that are missing count as zero.
pub open spec fn counter_in(b: Seq<u8>) -> int {
    signed(le_value(first_eight(b)))
}

/// The counter that is stored, zero where nothing is.
pub open spec fn counter_at(stored: Option<Seq<u8>>) -> int {
    match stored {
        Some(b) => counter_in(b),
        None => 0,
    }
}

/// A counter as bytes.
pub open spec fn counter_bytes(n: int) -> Seq<u8> {
    le_bytes(unsigned64(n), 8)
}

proof fn lemma_first_eight(b: Seq<u8>)
    ensures
        first_eight(b).len() <= 8,
        le_value(first_eight(b)) <= u64::MAX,
{
    lemma_le_value_bound(first_eight(b));
    lemma_pow256_grows(first_eight(b).len(), 8);
    lemma_pow256_values();
}

/// Reads a counter, tolerant of short buffers.
pub fn read_i64(b: &[u8]) -> (r: i64)
    ensures
        r == counter_in(b@),
{
    proof {
        lemma_first_eight(b@);
    }
    let n: usize = if b.len() < 8 {
        b.len()
    } else {
        8
    };
    let eight = slice(b, 0, n);
    assert(eight@ =~= first_eight(b@));
    to_signed(from_le(eight.as_slice()))
}

/// Writes a counter.
pub fn write_i64(n: i64) -> (r: Vec<u8>)
    ensures
        r@ == counter_bytes(n as int),
        r@.len() == 8,
{
    to_le(to_unsigned(n), 8)
}

/// A counter is read back as it was written.
pub proof fn law_counters_are_read_back(n: i64)
    ensures
        counter_bytes(n as int).len() == 8,
        counter_in(counter_bytes(n as int)) == n,
{
    lemma_pow256_values();
    lemma_le_bytes_len(unsigned64(n as int), 8);
    lemma_le_round_trip(unsigned64(n as int), 8);
    assert(counter_bytes(n as int).take(8) =~= counter_bytes(n as int));
}

/// Reads an unsigned counter, zero where none is stored. What is stored has at
/// least eight bytes.
pub fn get_u64(stored: Option<&[u8]>) -> (r: u64)
    requires
        stored matches Some(b) ==> b@.len() >= 8,
    ensures
        r == (match stored {
            Some(b) => le_value(b@.take(8)),
            None => 0,
        }),
{
    match stored {
        None => 0,
        Some(b) => {
            let eight = slice(b, 0, 8);
            assert(eight@ =~= b@.take(8));
            from_le(eight.as_slice())
        },
    }
}

/// An unsigned counter is read back as it was written.
pub proof fn law_unsigned_counters_are_read_back(n: u64)
    ensures
        le_bytes(n as nat, 8).len() == 8,
        le_value(le_bytes(n as nat, 8).take(8)) == n,
{
    lemma_pow256_values();
    lemma_le_bytes_len(n as nat, 8);
    lemma_le_round_trip(n as nat, 8);
    assert(le_bytes(n as nat, 8).take(8) =~= le_bytes(n as nat, 8));
}

// ---- the merge operator --------------------------------------------------------------

/// The sum of what operands hold.
pub open spec fn operand_sum(operands: Seq<Vec<u8>>) -> int
    decreases operands.len(),
{
    if operands.len() == 0 {
        0
    } else {
        operand_sum(operands.drop_last()) + counter_in(operands.last()@)
    }
}

/// No sum on the way leaves the range of a counter.
pub open spec fn operands_fit(existing: Option<Seq<u8>>, operands: Seq<Vec<u8>>) -> bool {
    forall|n: int|
        0 <= n <= operands.len() ==> i64::MIN <= counter_at(existing) + operand_sum(
            #[trigger] operands.take(n),
        ) <= i64::MAX
}

/// Associative merge: what exists plus the sum of the operands.
pub fn merge_i64_add(existing: Option<&[u8]>, operands: &Vec<Vec<u8>>) -> (r: Vec<u8>)
    requires
        operands_fit(
            match existing {
                Some(b) => Some(b@),
                None => None,
            },
            operands@,
        ),
    ensures
        r@ == counter_bytes(
            counter_at(
                match existing {
                    Some(b) => Some(b@),
                    None => None,
                },
            ) + operand_sum(operands@),
        ),
{
    let start: i64 = match existing {
        Some(b) => read_i64(b),
        None => 0,
    };
    let mut acc: i64 = start;
    let mut i: usize = 0;
    let ghost ex: Option<Seq<u8>> = match existing {
        Some(b) => Some(b@),
        None => None,
    };
    assert(operands@.take(0) =~= Seq::<Vec<u8>>::empty());
    while i < operands.len()
        invariant
            i <= operands.len(),
            operands_fit(ex, operands@),
            start == counter_at(ex),
            acc == start + operand_sum(operands@.take(i as int)),
        decreases operands.len() - i,
    {
        let d: i64 = read_i64(operands[i].as_slice());
        proof {
            assert(operands@.take(i + 1).drop_last() =~= operands@.take(i as int));
            assert(operands@.take(i + 1).last() == operands@[i as int]);
            let next = operands@.take(i + 1);
            assert(i64::MIN <= counter_at(ex) + operand_sum(next) <= i64::MAX);
        }
        acc = acc + d;
        i = i + 1;
    }
    assert(operands@.take(i as int) =~= operands@);
    write_i64(acc)
}

// ---- batches -------------------------------------------------------------------------

/// One staged write.
#[derive(Debug)]
pub enum KvOp {
    Put { cf: &'static str, key: Vec<u8>, value: Vec<u8> },
    Delete { cf: &'static str, key: Vec<u8> },
    /// A delta to a counter.
    MergeDf { cf: &'static str, key: Vec<u8>, delta: i64 },
}

/// Where a row stands: its column family and its key.
pub type Place = (Seq<char>, Seq<u8>);

/// One staged write.
pub enum KvOpView {
    Put { at: Place, value: Seq<u8> },
    Delete { at: Place },
    MergeDf { at: Place, delta: int },
}

impl View for KvOp {
    type V = KvOpView;

    open spec fn view(&self) -> KvOpView {
        match *self {
            KvOp::Put { cf, key, value } => KvOpView::Put { at: (cf@, key@), value: value@ },
            KvOp::Delete { cf, key } => KvOpView::Delete { at: (cf@, key@) },
            KvOp::MergeDf { cf, key, delta } => KvOpView::MergeDf {
                at: (cf@, key@),
                delta: delta as int,
            },
        }
    }
}

/// The writes of a list.
pub open spec fn kv_op_views(v: Seq<KvOp>) -> Seq<KvOpView> {
    v.map_values(|op: KvOp| op@)
}

/// What a store holds.
pub type KvView = Map<Place, Seq<u8>>;

/// The store after a put or a delete; a delta changes nothing by itself.
pub open spec fn kv_after(s: KvView, op: KvOpView) -> KvView {
    match op {
        KvOpView::Put { at, value } => s.insert(at, value),
        KvOpView::Delete { at } => s.remove(at),
        KvOpView::MergeDf { at, delta } => s,
    }
}

/// The store after the puts and deletes among writes, in order.
pub open spec fn kv_after_all(s: KvView, ops: Seq<KvOpView>) -> KvView
    decreases ops.len(),
{
    if ops.len() == 0 {
        s
    } else {
        kv_after(kv_after_all(s, ops.drop_last()), ops.last())
    }
}

/// The sum of the deltas to a counter.
pub open spec fn delta_sum(ops: Seq<KvOpView>, at: Place) -> int
    decreases ops.len(),
{
    if ops.len() == 0 {
        0
    } else {
        delta_sum(ops.drop_last(), at) + (match ops.last() {
            KvOpView::MergeDf { at: place, delta } if place == at => delta,
            _ => 0,
        })
    }
}

/// Some delta goes to the counter.
pub open spec fn has_delta(ops: Seq<KvOpView>, at: Place) -> bool {
    exists|i: int| 0 <= i < ops.len() && is_delta(#[trigger] ops[i], at)
}

/// The write is a delta to the counter.
pub open spec fn is_delta(op: KvOpView, at: Place) -> bool {
    op matches KvOpView::MergeDf { at: place, delta } && place == at
}

/// What is stored at a place.
pub open spec fn stored_at(s: KvView, at: Place) -> Option<Seq<u8>> {
    if s.contains_key(at) {
        Some(s[at])
    } else {
        None
    }
}

/// The store after a batch: the puts and deletes, and every counter with a
/// delta is what it was before the batch plus the sum of its deltas.
pub open spec fn committed(s: KvView, ops: Seq<KvOpView>) -> KvView {
    let plain = kv_after_all(s, ops);
    Map::new(
        |at: Place| plain.contains_key(at) || has_delta(ops, at),
        |at: Place|
            if has_delta(ops, at) {
                counter_bytes(counter_at(stored_at(s, at)) + delta_sum(ops, at))
            } else {
                plain[at]
            },
    )
}

/// An accumulating atomic write.
#[derive(Debug)]
pub struct Batch {
    ops: Vec<KvOp>,
}

impl View for Batch {
    type V = Seq<KvOpView>;

    closed spec fn view(&self) -> Seq<KvOpView> {
        kv_op_views(self.ops@)
    }
}

/// A counter with the sum of its deltas.
#[derive(Debug)]
pub struct Counter {
    pub cf: &'static str,
    pub key: Vec<u8>,
    pub delta: i64,
}

/// Where a counter stands.
pub open spec fn place_of(c: Counter) -> Place {
    (c.cf@, c.key@)
}

/// The order of places: by column family, then by key.
pub open spec fn place_lt(a: Place, b: Place) -> bool {
    str_lt(a.0, b.0) || (a.0 == b.0 && lex_lt(a.1, b.1))
}

/// `counters` are the counters with a delta, in order, each with the sum of
/// its deltas.
pub open spec fn are_totals(ops: Seq<KvOpView>, counters: Seq<Counter>) -> bool {
    &&& forall|i: int, j: int|
        0 <= i < j < counters.len() ==> place_lt(
            place_of(#[trigger] counters[i]),
            place_of(#[trigger] counters[j]),
        )
    &&& forall|i: int|
        0 <= i < counters.len() ==> has_delta(ops, place_of(#[trigger] counters[i]))
            && counters[i].delta == delta_sum(ops, place_of(counters[i]))
    &&& forall|at: Place| #[trigger]
        has_delta(ops, at) ==> exists|i: int|
            0 <= i < counters.len() && place_of(#[trigger] counters[i]) == at
}

/// No sum of deltas leaves the range of a counter on the way.
pub open spec fn deltas_fit(ops: Seq<KvOpView>) -> bool {
    forall|n: int, at: Place|
        0 <= n <= ops.len() ==> i64::MIN <= #[trigger] delta_sum(ops.take(n), at) <= i64::MAX
}

proof fn lemma_place_total(a: Place, b: Place)
    ensures
        a == b || place_lt(a, b) || place_lt(b, a),
{
    lemma_str_total(a.0, b.0);
    lemma_lex_total(a.1, b.1);
}

proof fn lemma_place_irreflexive(a: Place)
    ensures
        !place_lt(a, a),
{
    lemma_str_irreflexive(a.0);
    lemma_lex_irreflexive(a.1);
}

proof fn lemma_place_transitive(a: Place, b: Place, c: Place)
    requires
        place_lt(a, b),
        place_lt(b, c),
    ensures
        place_lt(a, c),
{
    if str_lt(a.0, b.0) && str_lt(b.0, c.0) {
        lemma_str_transitive(a.0, b.0, c.0);
    }
    lemma_str_irreflexive(a.0);
    if a.0 == b.0 && b.0 == c.0 {
        lemma_lex_transitive(a.1, b.1, c.1);
    }
}

proof fn lemma_place_asymmetric(a: Place, b: Place)
    requires
        place_lt(a, b),
    ensures
        !place_lt(b, a),
        a != b,
{
    lemma_place_irreflexive(a);
    if place_lt(b, a) {
        lemma_place_transitive(a, b, a);
    }
}

fn relate_places(cf_a: &str, key_a: &[u8], cf_b: &str, key_b: &[u8]) -> (r: Rel)
    ensures
        r == Rel::Less <==> place_lt((cf_a@, key_a@), (cf_b@, key_b@)),
        r == Rel::Equal <==> cf_a@ == cf_b@ && key_a@ == key_b@,
        r == Rel::Greater <==> place_lt((cf_b@, key_b@), (cf_a@, key_a@)),
{
    proof {
        lemma_str_irreflexive(cf_a@);
    }
    match relate_strs(cf_a, cf_b) {
        Rel::Less => {
            proof {
                lemma_place_asymmetric((cf_a@, key_a@), (cf_b@, key_b@));
            }
            Rel::Less
        },
        Rel::Greater => {
            proof {
                lemma_place_asymmetric((cf_b@, key_b@), (cf_a@, key_a@));
            }
            Rel::Greater
        },
        Rel::Equal => relate_bytes(key_a, key_b),
    }
}

proof fn lemma_delta_push(ops: Seq<KvOpView>, op: KvOpView, at: Place)
    ensures
        has_delta(ops.push(op), at) <==> has_delta(ops, at) || is_delta(op, at),
        delta_sum(ops.push(op), at) == delta_sum(ops, at) + (match op {
            KvOpView::MergeDf { at: place, delta } if place == at => delta,
            _ => 0,
        }),
{
    let next = ops.push(op);
    assert(next.drop_last() =~= ops);
    if has_delta(ops, at) {
        let i = choose|i: int| 0 <= i < ops.len() && is_delta(#[trigger] ops[i], at);
        assert(is_delta(next[i], at));
    }
    if is_delta(op, at) {
        assert(is_delta(next[ops.len() as int], at));
    }
    if has_delta(next, at) && !is_delta(op, at) {
        let i = choose|i: int| 0 <= i < next.len() && is_delta(#[trigger] next[i], at);
        assert(is_delta(ops[i], at));
    }
}

proof fn lemma_no_delta(ops: Seq<KvOpView>, at: Place)
    requires
        !has_delta(ops, at),
    ensures
        delta_sum(ops, at) == 0,
    decreases ops.len(),
{
    if ops.len() > 0 {
        let rest = ops.drop_last();
        assert(rest.push(ops.last()) =~= ops);
        lemma_delta_push(rest, ops.last(), at);
        lemma_no_delta(rest, at);
    }
}

impl Batch {
    /// An empty batch.
    pub fn new() -> (r: Batch)
        ensures
            r@ == Seq::<KvOpView>::empty(),
    {
        let r = Batch { ops: Vec::new() };
        assert(r@ =~= Seq::<KvOpView>::empty());
        r
    }

    /// Stages a put.
    pub fn put_cf(&mut self, cf: &'static str, key: Vec<u8>, value: Vec<u8>)
        ensures
            final(self)@ == old(self)@.push(KvOpView::Put { at: (cf@, key@), value: value@ }),
    {
        let ghost before = self@;
        self.ops.push(KvOp::Put { cf, key, value });
        assert(self@ =~= before.push(KvOpView::Put { at: (cf@, key@), value: value@ }));
    }

    /// Stages a delete.
    pub fn delete_cf(&mut self, cf: &'static str, key: Vec<u8>)
        ensures
            final(self)@ == old(self)@.push(KvOpView::Delete { at: (cf@, key@) }),
    {
        let ghost before = self@;
        self.ops.push(KvOp::Delete { cf, key });
        assert(self@ =~= before.push(KvOpView::Delete { at: (cf@, key@) }));
    }

    /// Stages a delta to a counter.
    pub fn merge_df(&mut self, cf: &'static str, key: Vec<u8>, delta: i64)
        ensures
            final(self)@ == old(self)@.push(
                KvOpView::MergeDf { at: (cf@, key@), delta: delta as int },
            ),
    {
        let ghost before = self@;
        self.ops.push(KvOp::MergeDf { cf, key, delta });
        assert(self@ =~= before.push(KvOpView::MergeDf { at: (cf@, key@), delta: delta as int }));
    }

    /// The staged writes, in order: for a store that has a merge operator.
    pub fn into_ops(self) -> (r: Vec<KvOp>)
        ensures
            kv_op_views(r@) == self@,
    {
        self.ops
    }

    /// Composes the deltas of the batch: each counter with a delta, in order,
    /// with the sum of its deltas; none where a sum leaves the range of a
    /// counter.
    pub fn totals(&self) -> (r: Option<Vec<Counter>>)
        ensures
            match r {
                Some(v) => deltas_fit(self@) && are_totals(self@, v@),
                None => !deltas_fit(self@),
            },
    {
        let ghost all = self@;
        let mut out: Vec<Counter> = Vec::new();
        let mut i: usize = 0;
        assert(all.take(0) =~= Seq::<KvOpView>::empty());
        assert(forall|n: int| 0 <= n <= 0 ==> #[trigger] all.take(0).take(n) =~= all.take(0));
        while i < self.ops.len()
            invariant
                i <= self.ops.len(),
                all == kv_op_views(self.ops@),
                all == self@,
                deltas_fit(all.take(i as int)),
                are_totals(all.take(i as int), out@),
            decreases self.ops.len() - i,
        {
            let ghost done = all.take(i as int);
            let ghost op = all[i as int];
            proof {
                assert(all.take(i + 1) =~= done.push(op));
                assert forall|at: Place|
                    #![trigger has_delta(done.push(op), at)]
                    #![trigger delta_sum(done.push(op), at)]
                    {
                        &&& has_delta(done.push(op), at) <==> has_delta(done, at) || is_delta(
                            op,
                            at,
                        )
                        &&& delta_sum(done.push(op), at) == delta_sum(done, at) + (match op {
                            KvOpView::MergeDf { at: place, delta } if place == at => delta,
                            _ => 0,
                        })
                    } by {
                    lemma_delta_push(done, op, at);
                }
            }
            match &self.ops[i] {
                KvOp::MergeDf { cf, key, delta } => {
                    assert(op == (KvOpView::MergeDf { at: (cf@, key@), delta: *delta as int }));
                    if !add_delta(&mut out, *cf, key, *delta, Ghost(done), Ghost(op)) {
                        assert(!deltas_fit(all)) by {
                            let sum = delta_sum(all.take(i + 1), (cf@, key@));
                            assert(!(i64::MIN <= sum <= i64::MAX));
                        }
                        return None;
                    }
                },
                KvOp::Put { cf, key, value } => {
                    assert(forall|at: Place| !is_delta(op, at));
                    assert(are_totals(done.push(op), out@));
                },
                KvOp::Delete { cf, key } => {
                    assert(forall|at: Place| !is_delta(op, at));
                    assert(are_totals(done.push(op), out@));
                },
            }
            proof {
                let next = all.take(i + 1);
                assert forall|n: int, at: Place| 0 <= n <= next.len() implies i64::MIN
                    <= #[trigger] delta_sum(next.take(n), at) <= i64::MAX by {
                    if n <= i {
                        assert(next.take(n) =~= done.take(n));
                        assert(i64::MIN <= delta_sum(done.take(n), at) <= i64::MAX);
                    } else {
                        assert(next.take(n) =~= done.push(op));
                        lemma_total_fits(done.push(op), out@, at);
                    }
                }
            }
            i = i + 1;
        }
        assert(all.take(i as int) =~= all);
        Some(out)
    }

    /// The puts and deletes that commit the batch on a store without a merge
    /// operator. `counters` are the counters with a delta, and `current` what
    /// is stored there before the batch.
    pub fn resolve(self, counters: &Vec<Counter>, current: &Vec<Option<Vec<u8>>>) -> (r: Vec<KvOp>)
        requires
            are_totals(self@, counters@),
            counters.len() == current.len(),
            forall|i: int|
                0 <= i < counters.len() ==> i64::MIN <= counter_at(opt_bytes(current@[i]))
                    + #[trigger] counters@[i].delta <= i64::MAX,
        ensures
            forall|i: int| 0 <= i < r@.len() ==> !((#[trigger] r@[i]) is MergeDf),
            forall|s: KvView|
                (forall|i: int|
                    0 <= i < counters.len() ==> stored_at(s, place_of(#[trigger] counters@[i]))
                        == opt_bytes(current@[i])) ==> #[trigger] kv_after_all(
                    s,
                    kv_op_views(r@),
                ) == committed(s, self@),
    {
        let ghost all = self@;
        let mut out: Vec<KvOp> = Vec::new();
        let mut rest: Vec<KvOp> = self.ops;
        // The writes are taken from the front, in order.
        let mut i: usize = 0;
        let n: usize = rest.len();
        assert(all.take(0) =~= Seq::<KvOpView>::empty());
        assert(kv_op_views(out@) =~= Seq::<KvOpView>::empty());
        while i < n
            invariant
                i <= n,
                n == all.len(),
                kv_op_views(rest@) == all,
                forall|k: int| 0 <= k < out@.len() ==> !((#[trigger] out@[k]) is MergeDf),
                forall|s: KvView| #[trigger]
                    kv_after_all(s, kv_op_views(out@)) == kv_after_all(s, all.take(i as int)),
            decreases n - i,
        {
            let ghost before = out@;
            proof {
                assert(all.take(i + 1).drop_last() =~= all.take(i as int));
                assert(all.take(i + 1).last() == all[i as int]);
                assert(all[i as int] == rest@[i as int]@);
            }
            let op = copy_kv_op(&rest[i]);
            let keep = match op {
                KvOp::MergeDf { .. } => false,
                _ => true,
            };
            if keep {
                let ghost opv = op;
                out.push(op);
                proof {
                    assert(kv_op_views(out@).drop_last() =~= kv_op_views(before));
                    assert(kv_op_views(out@).last() == opv@);
                    assert forall|s: KvView| #[trigger]
                        kv_after_all(s, kv_op_views(out@)) == kv_after_all(
                            s,
                            all.take(i + 1),
                        ) by {
                        assert(kv_after_all(s, kv_op_views(before)) == kv_after_all(
                            s,
                            all.take(i as int),
                        ));
                    }
                }
            } else {
                proof {
                    assert forall|s: KvView| #[trigger]
                        kv_after_all(s, kv_op_views(out@)) == kv_after_all(
                            s,
                            all.take(i + 1),
                        ) by {}
                }
            }
            i = i + 1;
        }
        assert(all.take(n as int) =~= all);
        let ghost plain = out@;
        let mut k: usize = 0;
        while k < counters.len()
            invariant
                k <= counters.len(),
                are_totals(all, counters@),
                counters.len() == current.len(),
                forall|i: int|
                    0 <= i < counters.len() ==> i64::MIN <= counter_at(opt_bytes(current@[i]))
                        + #[trigger] counters@[i].delta <= i64::MAX,
                forall|j: int| 0 <= j < out@.len() ==> !((#[trigger] out@[j]) is MergeDf),
                forall|s: KvView, at: Place|
                    #![trigger kv_after_all(s, kv_op_views(out@)).contains_key(at)]
                    #![trigger kv_after_all(s, kv_op_views(out@))[at]]
                    settled_to(
                        kv_after_all(s, kv_op_views(out@)),
                        kv_after_all(s, all),
                        counters@,
                        current@,
                        k as int,
                        at,
                    ),
            decreases counters.len() - k,
        {
            let now: i64 = match &current[k] {
                Some(b) => read_i64(b.as_slice()),
                None => 0,
            };
            assert(i64::MIN <= counter_at(opt_bytes(current@[k as int]))
                + counters@[k as int].delta <= i64::MAX);
            let next: i64 = now + counters[k].delta;
            let c = &counters[k];
            let ghost before = out@;
            let key = slice(c.key.as_slice(), 0, c.key.len());
            assert(key@ =~= c.key@);
            let value = write_i64(next);
            let op = KvOp::Put { cf: c.cf, key, value };
            let ghost opv = op;
            out.push(op);
            proof {
                assert(kv_op_views(out@).drop_last() =~= kv_op_views(before));
                assert(kv_op_views(out@).last() == opv@);
                assert forall|s: KvView, at: Place|
                    #![trigger kv_after_all(s, kv_op_views(out@)).contains_key(at)]
                    #![trigger kv_after_all(s, kv_op_views(out@))[at]]
                    settled_to(
                        kv_after_all(s, kv_op_views(out@)),
                        kv_after_all(s, all),
                        counters@,
                        current@,
                        k + 1,
                        at,
                    ) by {
                    let b = kv_after_all(s, kv_op_views(before));
                    let a = kv_after_all(s, kv_op_views(out@));
                    assert(a == b.insert(place_of(*c), value@));
                    assert(b.contains_key(at) || !b.contains_key(at));
                    lemma_settle_step(
                        a,
                        b,
                        kv_after_all(s, all),
                        counters@,
                        current@,
                        k as int,
                        at,
                        value@,
                    );
                }
            }
            k = k + 1;
        }
        proof {
            assert forall|s: KvView|
                (forall|i: int|
                    0 <= i < counters.len() ==> stored_at(s, place_of(#[trigger] counters@[i]))
                        == opt_bytes(current@[i])) implies #[trigger] kv_after_all(
                s,
                kv_op_views(out@),
            ) == committed(s, all) by {
                let a = kv_after_all(s, kv_op_views(out@));
                let c = committed(s, all);
                let p = kv_after_all(s, all);
                assert forall|at: Place| a.contains_key(at) <==> c.contains_key(at) by {
                    assert(settled_to(a, p, counters@, current@, counters@.len() as int, at));
                    lemma_counter_listed(all, counters@, at);
                }
                assert forall|at: Place| a.contains_key(at) implies a[at] == c[at] by {
                    assert(settled_to(a, p, counters@, current@, counters@.len() as int, at));
                    lemma_counter_listed(all, counters@, at);
                }
                assert(a =~= c);
            }
        }
        out
    }
}

/// Bytes that may be there.
pub open spec fn opt_bytes(b: Option<Vec<u8>>) -> Option<Seq<u8>> {
    match b {
        Some(x) => Some(x@),
        None => None,
    }
}

/// The counter at `at` is one of the first `k`.
spec fn among(counters: Seq<Counter>, k: int, at: Place) -> bool {
    exists|i: int| 0 <= i < k && place_of(#[trigger] counters[i]) == at
}

/// `a` is `plain` with the first `k` counters put.
spec fn settled_to(
    a: KvView,
    plain: KvView,
    counters: Seq<Counter>,
    current: Seq<Option<Vec<u8>>>,
    k: int,
    at: Place,
) -> bool {
    if among(counters, k, at) {
        a.contains_key(at) && forall|i: int|
            0 <= i < k && place_of(#[trigger] counters[i]) == at ==> a[at] == counter_bytes(
                counter_at(opt_bytes(current[i])) + counters[i].delta,
            )
    } else {
        a.contains_key(at) == plain.contains_key(at) && a[at] == plain[at]
    }
}

proof fn lemma_settle_step(
    a: KvView,
    b: KvView,
    plain: KvView,
    counters: Seq<Counter>,
    current: Seq<Option<Vec<u8>>>,
    k: int,
    at: Place,
    value: Seq<u8>,
)
    requires
        0 <= k < counters.len(),
        forall|i: int, j: int|
            0 <= i < j < counters.len() ==> place_lt(
                place_of(#[trigger] counters[i]),
                place_of(#[trigger] counters[j]),
            ),
        settled_to(b, plain, counters, current, k, at),
        a == b.insert(place_of(counters[k]), value),
        value == counter_bytes(counter_at(opt_bytes(current[k])) + counters[k].delta),
    ensures
        settled_to(a, plain, counters, current, k + 1, at),
{
    let here = place_of(counters[k]);
    if at == here {
        assert(place_of(counters[k]) == at);
        assert(among(counters, k + 1, at));
        assert forall|i: int|
            0 <= i < k + 1 && place_of(#[trigger] counters[i]) == at implies a[at] == counter_bytes(
            counter_at(opt_bytes(current[i])) + counters[i].delta,
        ) by {
            if i < k {
                assert(place_lt(place_of(counters[i]), place_of(counters[k])));
                lemma_place_irreflexive(at);
            }
        }
    } else {
        if among(counters, k, at) {
            let i = choose|i: int| 0 <= i < k && place_of(#[trigger] counters[i]) == at;
            assert(place_of(counters[i]) == at);
            assert(among(counters, k + 1, at));
        }
        if among(counters, k + 1, at) {
            let i = choose|i: int| 0 <= i < k + 1 && place_of(#[trigger] counters[i]) == at;
            assert(i < k);
            assert(among(counters, k, at));
        }
    }
}

proof fn lemma_counter_listed(ops: Seq<KvOpView>, counters: Seq<Counter>, at: Place)
    requires
        are_totals(ops, counters),
    ensures
        has_delta(ops, at) <==> among(counters, counters.len() as int, at),
        forall|i: int|
            0 <= i < counters.len() && place_of(#[trigger] counters[i]) == at ==> counters[i].delta
                == delta_sum(ops, at),
{
    if has_delta(ops, at) {
        let i = choose|i: int| 0 <= i < counters.len() && place_of(#[trigger] counters[i]) == at;
        assert(place_of(counters[i]) == at);
    }
}

fn copy_kv_op(op: &KvOp) -> (r: KvOp)
    ensures
        r@ == op@,
        r is MergeDf <==> op is MergeDf,
{
    match op {
        KvOp::Put { cf, key, value } => {
            let k = slice(key.as_slice(), 0, key.len());
            let v = slice(value.as_slice(), 0, value.len());
            assert(k@ =~= key@);
            assert(v@ =~= value@);
            KvOp::Put { cf: *cf, key: k, value: v }
        },
        KvOp::Delete { cf, key } => {
            let k = slice(key.as_slice(), 0, key.len());
            assert(k@ =~= key@);
            KvOp::Delete { cf: *cf, key: k }
        },
        KvOp::MergeDf { cf, key, delta } => {
            let k = slice(key.as_slice(), 0, key.len());
            assert(k@ =~= key@);
            KvOp::MergeDf { cf: *cf, key: k, delta: *delta }
        },
    }
}

proof fn lemma_total_fits(ops: Seq<KvOpView>, counters: Seq<Counter>, at: Place)
    requires
        are_totals(ops, counters),
    ensures
        i64::MIN <= delta_sum(ops, at) <= i64::MAX,
{
    if has_delta(ops, at) {
        let i = choose|i: int| 0 <= i < counters.len() && place_of(#[trigger] counters[i]) == at;
        assert(counters[i].delta == delta_sum(ops, place_of(counters[i])));
    } else {
        lemma_no_delta(ops, at);
    }
}

/// Adds a delta to the counters that `done` makes, unless its sum leaves the
/// range of a counter.
fn add_delta(
    out: &mut Vec<Counter>,
    cf: &'static str,
    key: &Vec<u8>,
    delta: i64,
    Ghost(done): Ghost<Seq<KvOpView>>,
    Ghost(op): Ghost<KvOpView>,
) -> (r: bool)
    requires
        are_totals(done, old(out)@),
        op == (KvOpView::MergeDf { at: (cf@, key@), delta: delta as int }),
    ensures
        r == (i64::MIN <= delta_sum(done.push(op), (cf@, key@)) <= i64::MAX),
        r ==> are_totals(done.push(op), final(out)@),
{
    let ghost before = out@;
    let ghost at: Place = (cf@, key@);
    let ghost next = done.push(op);
    proof {
        assert forall|x: Place|
            #![trigger has_delta(next, x)]
            #![trigger delta_sum(next, x)]
            {
                &&& has_delta(next, x) <==> has_delta(done, x) || x == at
                &&& delta_sum(next, x) == delta_sum(done, x) + (if x == at {
                    delta as int
                } else {
                    0
                })
            } by {
            lemma_delta_push(done, op, x);
        }
    }
    let mut pos: usize = 0;
    while pos < out.len()
        invariant_except_break
            pos <= out.len(),
            out@ == before,
            at == (cf@, key@),
            forall|i: int| 0 <= i < pos ==> place_lt(place_of(#[trigger] before[i]), at),
        ensures
            pos <= out.len(),
            out@ == before,
            forall|i: int| 0 <= i < pos ==> place_lt(place_of(#[trigger] before[i]), at),
            pos < out.len() ==> !place_lt(place_of(before[pos as int]), at),
        decreases out.len() - pos,
    {
        match relate_places(out[pos].cf, out[pos].key.as_slice(), cf, key.as_slice()) {
            Rel::Less => {},
            _ => {
                break ;
            },
        }
        pos = pos + 1;
    }
    if pos < out.len() {
        match relate_places(out[pos].cf, out[pos].key.as_slice(), cf, key.as_slice()) {
            Rel::Equal => {
                proof {
                    assert(place_of(before[pos as int]) == at);
                    assert(has_delta(done, at));
                }
                let sum: i64 = match out[pos].delta.checked_add(delta) {
                    Some(sum) => sum,
                    None => {
                        return false;
                    },
                };
                out[pos].delta = sum;
                proof {
                    assert forall|i: int| 0 <= i < out@.len() implies place_of(#[trigger] out@[i])
                        == place_of(before[i]) by {}
                    assert forall|i: int, j: int| 0 <= i < j < out@.len() implies place_lt(
                        place_of(#[trigger] out@[i]),
                        place_of(#[trigger] out@[j]),
                    ) by {
                        assert(place_lt(place_of(before[i]), place_of(before[j])));
                    }
                    assert forall|i: int| 0 <= i < out@.len() implies has_delta(
                        next,
                        place_of(#[trigger] out@[i]),
                    ) && out@[i].delta == delta_sum(next, place_of(out@[i])) by {
                        assert(has_delta(done, place_of(before[i])));
                        if i != pos {
                            lemma_place_irreflexive(at);
                            if i < pos {
                                assert(place_lt(place_of(before[i]), place_of(before[pos as int])));
                            } else {
                                assert(place_lt(place_of(before[pos as int]), place_of(before[i])));
                            }
                        }
                    }
                    assert forall|x: Place| #[trigger] has_delta(next, x) implies exists|i: int|
                        0 <= i < out@.len() && place_of(#[trigger] out@[i]) == x by {
                        if x == at {
                            assert(place_of(out@[pos as int]) == x);
                        } else {
                            assert(has_delta(done, x));
                            let i = choose|i: int|
                                0 <= i < before.len() && place_of(#[trigger] before[i]) == x;
                            assert(place_of(out@[i]) == x);
                        }
                    }
                }
                return true;
            },
            _ => {},
        }
    }
    proof {
        assert forall|i: int| pos <= i < before.len() implies place_lt(
            at,
            place_of(#[trigger] before[i]),
        ) by {
            lemma_place_total(place_of(before[pos as int]), at);
            if i > pos {
                assert(place_lt(place_of(before[pos as int]), place_of(before[i])));
                lemma_place_transitive(at, place_of(before[pos as int]), place_of(before[i]));
            }
        }
        if has_delta(done, at) {
            let i = choose|i: int| 0 <= i < before.len() && place_of(#[trigger] before[i]) == at;
            lemma_place_irreflexive(at);
            assert(false);
        }
        lemma_no_delta(done, at);
    }
    let copied = slice(key.as_slice(), 0, key.len());
    assert(copied@ =~= key@);
    let c = Counter { cf, key: copied, delta };
    let ghost cg = c;
    out.insert(pos, c);
    proof {
        assert(out@ == before.insert(pos as int, cg));
        assert forall|i: int, j: int| 0 <= i < j < out@.len() implies place_lt(
            place_of(#[trigger] out@[i]),
            place_of(#[trigger] out@[j]),
        ) by {
            let i0 = if i < pos { i } else { i - 1 };
            let j0 = if j < pos { j } else { j - 1 };
            if i != pos && j != pos {
                assert(place_lt(place_of(before[i0]), place_of(before[j0])));
            } else if i == pos {
                assert(out@[j] == before[j0]);
            } else {
                assert(out@[i] == before[i0]);
            }
        }
        assert forall|i: int| 0 <= i < out@.len() implies has_delta(
            next,
            place_of(#[trigger] out@[i]),
        ) && out@[i].delta == delta_sum(next, place_of(out@[i])) by {
            if i != pos {
                let i0 = if i < pos { i } else { i - 1 };
                assert(out@[i] == before[i0]);
                assert(has_delta(done, place_of(before[i0])));
            }
        }
        assert forall|x: Place| #[trigger] has_delta(next, x) implies exists|i: int|
            0 <= i < out@.len() && place_of(#[trigger] out@[i]) == x by {
            if x == at {
                assert(place_of(out@[pos as int]) == x);
            } else {
                assert(has_delta(done, x));
                let i = choose|i: int|
                    0 <= i < before.len() && place_of(#[trigger] before[i]) == x;
                let i1 = if i < pos { i } else { i + 1 };
                assert(place_of(out@[i1]) == x);
            }
        }
    }
    true
}

/// The operands that a batch hands to a merge operator for a counter.
pub open spec fn operands_of(ops: Seq<KvOpView>, at: Place) -> Seq<Seq<u8>>
    decreases ops.len(),
{
    if ops.len() == 0 {
        seq![]
    } else {
        let rest = operands_of(ops.drop_last(), at);
        match ops.last() {
            KvOpView::MergeDf { at: place, delta } if place == at => rest.push(
                counter_bytes(delta),
            ),
            _ => rest,
        }
    }
}

/// The deltas of a batch are in the range of a counter.
pub open spec fn deltas_are_counters(ops: Seq<KvOpView>) -> bool {
    forall|i: int|
        0 <= i < ops.len() ==> ((#[trigger] ops[i]) matches KvOpView::MergeDf { at, delta }
            ==> i64::MIN <= delta <= i64::MAX)
}

proof fn lemma_operands(ops: Seq<KvOpView>, at: Place, operands: Seq<Vec<u8>>)
    requires
        deltas_are_counters(ops),
        operands.map_values(|v: Vec<u8>| v@) == operands_of(ops, at),
    ensures
        operand_sum(operands) == delta_sum(ops, at),
    decreases ops.len(),
{
    let views = operands.map_values(|v: Vec<u8>| v@);
    if ops.len() == 0 {
        assert(operands.len() == views.len());
    } else {
        let rest = ops.drop_last();
        assert(deltas_are_counters(rest)) by {
            assert forall|i: int| 0 <= i < rest.len() implies ((
            #[trigger] rest[i]) matches KvOpView::MergeDf { at, delta } ==> i64::MIN <= delta
                <= i64::MAX) by {
                assert(ops[i] == rest[i]);
            }
        }
        if is_delta(ops.last(), at) {
            let short = operands.drop_last();
            let delta = ops.last()->MergeDf_delta;
            assert(ops[ops.len() - 1] == ops.last());
            assert(views == operands_of(rest, at).push(counter_bytes(delta)));
            assert(operands.len() == views.len());
            assert(short.map_values(|v: Vec<u8>| v@) =~= operands_of(rest, at)) by {
                assert forall|i: int| 0 <= i < short.len() implies short[i]@ == operands_of(
                    rest,
                    at,
                )[i] by {
                    assert(views[i] == operands[i]@);
                }
            }
            lemma_operands(rest, at, short);
            assert(operands.last()@ == counter_bytes(delta)) by {
                assert(views[views.len() - 1] == operands[operands.len() - 1]@);
            }
            law_counters_are_read_back(delta as i64);
        } else {
            lemma_operands(rest, at, operands);
        }
    }
}

/// Both ways to commit deltas agree byte for byte: the read-modify-write puts
/// what a merge operator makes of what exists and the same deltas.
pub proof fn law_backends_agree_on_counters(
    s: KvView,
    ops: Seq<KvOpView>,
    at: Place,
    operands: Seq<Vec<u8>>,
)
    requires
        deltas_are_counters(ops),
        has_delta(ops, at),
        operands.map_values(|v: Vec<u8>| v@) == operands_of(ops, at),
    ensures
        committed(s, ops).contains_key(at),
        committed(s, ops)[at] == counter_bytes(
            counter_at(stored_at(s, at)) + operand_sum(operands),
        ),
{
    lemma_operands(ops, at, operands);
}

// ---- how column families are tuned -----------------------------------------------------

/// How a column family's data is compressed.
#[derive(Debug, Clone, Copy, PartialEq, Eq, Structural)]
pub enum Compression {
    Off,
    Lz4,
}

/// How a keyspace is opened.
#[derive(Debug, Clone, Copy, PartialEq, Eq, Structural)]
pub struct KeyspaceOptions {
    /// How large the write buffer grows.
    pub max_memtable_size: u64,
    /// Reads are expected to find their key.
    pub expect_point_read_hits: bool,
    /// Bits per key of the bloom filter, if there is one.
    pub bloom_bits: Option<u32>,
    pub compression: Compression,
    /// Values from this size on are kept apart from the keys, if any are.
    pub separation_threshold: Option<u32>,
}

/// Bits per key of a bloom filter: about one false positive in a hundred.
pub const BLOOM_BITS: u32 = 10;

/// Values from this size on are kept apart from the keys. A dense vector is as
/// large; the keys around it are not, so compaction moves pointers, not vectors.
pub const KV_SEPARATION_THRESHOLD: u32 = 4096;

/// The column family is read by exact key.
pub open spec fn is_point_lookup(name: Seq<char>) -> bool {
    ||| name == CF_DOCS@
    ||| name == CF_VECS@
    ||| name == CF_NVECS@
    ||| name == CF_MVECS@
    ||| name == CF_META@
    ||| name == CF_NODES@
    ||| name == CF_CONNS@
    ||| name == CF_COLL@
    ||| name == CF_TDF@
}

/// The column family holds dense vectors.
pub open spec fn is_vector(name: Seq<char>) -> bool {
    ||| name == CF_VECS@
    ||| name == CF_NVECS@
    ||| name == CF_MVECS@
}

/// Whether the column family is read by exact key.
pub fn point_lookup(name: &str) -> (r: bool)
    ensures
        r == is_point_lookup(name@),
{
    same_text(name, CF_DOCS) || same_text(name, CF_VECS) || same_text(name, CF_NVECS)
        || same_text(name, CF_MVECS) || same_text(name, CF_META) || same_text(name, CF_NODES)
        || same_text(name, CF_CONNS) || same_text(name, CF_COLL) || same_text(name, CF_TDF)
}

/// Whether the column family holds dense vectors.
pub fn vector_family(name: &str) -> (r: bool)
    ensures
        r == is_vector(name@),
{
    same_text(name, CF_VECS) || same_text(name, CF_NVECS) || same_text(name, CF_MVECS)
}

/// How a keyspace is opened. One that is read by exact key gets a bloom filter;
/// a filter cannot answer a scan, so others have none. Dense vectors do not
/// compress, and are kept apart from their keys.
pub fn keyspace_options(name: &str, memtable_bytes: u64) -> (r: KeyspaceOptions)
    ensures
        r == (KeyspaceOptions {
            max_memtable_size: memtable_bytes,
            expect_point_read_hits: is_point_lookup(name@),
            bloom_bits: if is_point_lookup(name@) {
                Some(BLOOM_BITS)
            } else {
                None
            },
            compression: if is_vector(name@) {
                Compression::Off
            } else {
                Compression::Lz4
            },
            separation_threshold: if is_vector(name@) {
                Some(KV_SEPARATION_THRESHOLD)
            } else {
                None
            },
        }),
{
    let lookup = point_lookup(name);
    let vector = vector_family(name);
    KeyspaceOptions {
        max_memtable_size: memtable_bytes,
        expect_point_read_hits: lookup,
        bloom_bits: if lookup {
            Some(BLOOM_BITS)
        } else {
            None
        },
        compression: if vector {
            Compression::Off
        } else {
            Compression::Lz4
        },
        separation_threshold: if vector {
            Some(KV_SEPARATION_THRESHOLD)
        } else {
            None
        },
    }
}

/// How a column family is opened on a store with column families.
#[derive(Debug, Clone, Copy, PartialEq, Eq, Structural)]
pub struct FamilyOptions {
    /// Bits per key of the bloom filter, if there is one.
    pub bloom_bits: Option<u32>,
    /// How large a block is.
    pub block_size: u32,
    pub compression: Compression,
    /// Values from this size on go to blob files, which are collected, if any do.
    pub min_blob_size: Option<u32>,
    /// Keys are filtered by the term they begin with.
    pub term_prefix_filter: bool,
    /// Counter deltas are merged, not written back.
    pub counter_merge: bool,
    /// How large the write buffer grows.
    pub write_buffer_size: usize,
}

/// How large a block is.
pub const BLOCK_SIZE: u32 = 16384;

/// How a column family is opened on a store with column families: tuned as a
/// keyspace is, with a prefix filter on the postings and a merge operator on
/// the document frequencies.
pub fn family_options(name: &str, write_buffer_bytes: usize) -> (r: FamilyOptions)
    ensures
        r == (FamilyOptions {
            bloom_bits: if is_point_lookup(name@) {
                Some(BLOOM_BITS)
            } else {
                None
            },
            block_size: BLOCK_SIZE,
            compression: if is_vector(name@) {
                Compression::Off
            } else {
                Compression::Lz4
            },
            min_blob_size: if is_vector(name@) {
                Some(KV_SEPARATION_THRESHOLD)
            } else {
                None
            },
            term_prefix_filter: name@ == CF_TERMS@,
            counter_merge: name@ == CF_TDF@,
            write_buffer_size: write_buffer_bytes,
        }),
{
    let base = keyspace_options(name, write_buffer_bytes as u64);
    FamilyOptions {
        bloom_bits: base.bloom_bits,
        block_size: BLOCK_SIZE,
        compression: base.compression,
        min_blob_size: base.separation_threshold,
        term_prefix_filter: same_text(name, CF_TERMS),
        counter_merge: same_text(name, CF_TDF),
        write_buffer_size: write_buffer_bytes,
    }
}

/// How an estate's store is sized.
#[derive(Debug, Clone, Copy, PartialEq, Eq, Structural)]
pub struct EstateConfig {
    pub block_cache_bytes: usize,
    pub background_jobs: usize,
    pub write_buffer_bytes: usize,
    pub fsync_writes: bool,
}

/// How an estate's store is opened.
#[derive(Debug, Clone, Copy, PartialEq, Eq, Structural)]
pub struct OpenPlan {
    /// The block cache that all column families share.
    pub cache_bytes: u64,
    /// Background workers, at least one.
    pub worker_threads: usize,
    /// How large the write buffer of a column family grows.
    pub write_buffer_bytes: u64,
    /// A ceiling on all write buffers together.
    pub memtable_budget: u64,
    pub fsync: bool,
}

/// How many write buffers of a column family are live at once.
pub const MAX_WRITE_BUFFERS: u64 = 2;

/// A ceiling on all write buffers together: what each column family may have
/// live, times the column families.
pub open spec fn budget_of(write_buffer_bytes: usize, families: usize) -> int {
    write_buffer_bytes * MAX_WRITE_BUFFERS * families
}

/// Plans how an estate's store with that many column families is opened.
pub fn open_plan(config: &EstateConfig, families: usize) -> (r: OpenPlan)
    requires
        budget_of(config.write_buffer_bytes, families) <= u64::MAX,
        config.write_buffer_bytes * MAX_WRITE_BUFFERS <= u64::MAX,
    ensures
        r == (OpenPlan {
            cache_bytes: config.block_cache_bytes as u64,
            worker_threads: if config.background_jobs > 0 {
                config.background_jobs
            } else {
                1
            },
            write_buffer_bytes: config.write_buffer_bytes as u64,
            memtable_budget: budget_of(config.write_buffer_bytes, families) as u64,
            fsync: config.fsync_writes,
        }),
{
    let per_family: u64 = config.write_buffer_bytes as u64 * MAX_WRITE_BUFFERS;
    OpenPlan {
        cache_bytes: config.block_cache_bytes as u64,
        worker_threads: if config.background_jobs > 0 {
            config.background_jobs
        } else {
            1
        },
        write_buffer_bytes: config.write_buffer_bytes as u64,
        memtable_budget: per_family * families as u64,
        fsync: config.fsync_writes,
    }
}

// ---- batches, place by place -----------------------------------------------------------

/// A write's view has its column family and its key as its place, and what it
/// writes.
pub proof fn law_write_views_hold_every_field(
    cf: &'static str,
    key: Vec<u8>,
    value: Vec<u8>,
    delta: i64,
    v: Seq<KvOp>,
    i: int,
)
    ensures
        (KvOp::Put { cf, key, value })@ == (KvOpView::Put { at: (cf@, key@), value: value@ }),
        (KvOp::Delete { cf, key })@ == (KvOpView::Delete { at: (cf@, key@) }),
        (KvOp::MergeDf { cf, key, delta })@ == (KvOpView::MergeDf {
            at: (cf@, key@),
            delta: delta as int,
        }),
        kv_op_views(v).len() == v.len(),
        0 <= i < v.len() ==> kv_op_views(v)[i] == v[i]@,
{
}

/// The write is a put or a delete at the place.
pub open spec fn is_plain_at(op: KvOpView, at: Place) -> bool {
    match op {
        KvOpView::Put { at: place, value } => place == at,
        KvOpView::Delete { at: place } => place == at,
        KvOpView::MergeDf { at: place, delta } => false,
    }
}

proof fn lemma_plain_place(s: KvView, ops: Seq<KvOpView>, at: Place, i: int)
    requires
        -1 <= i < ops.len(),
        i >= 0 ==> is_plain_at(ops[i], at),
        forall|j: int| i < j < ops.len() ==> !is_plain_at(#[trigger] ops[j], at),
    ensures
        i < 0 ==> (kv_after_all(s, ops).contains_key(at) <==> s.contains_key(at)) && kv_after_all(
            s,
            ops,
        )[at] == s[at],
        i >= 0 && ops[i] is Delete ==> !kv_after_all(s, ops).contains_key(at),
        i >= 0 ==> (ops[i] matches KvOpView::Put { at: place, value } ==> kv_after_all(
            s,
            ops,
        ).contains_key(at) && kv_after_all(s, ops)[at] == value),
    decreases ops.len(),
{
    if ops.len() > 0 {
        let rest = ops.drop_last();
        if i < rest.len() {
            assert(!is_plain_at(ops[ops.len() - 1], at));
            assert forall|j: int| i < j < rest.len() implies !is_plain_at(
                #[trigger] rest[j],
                at,
            ) by {
                assert(!is_plain_at(ops[j], at));
            }
            lemma_plain_place(s, rest, at, i);
        }
    }
}

/// What a batch leaves at a place to which no delta goes: what the last put or
/// delete at the place, the one at `i`, leaves there; and what was there before
/// where the batch has none.
pub proof fn law_last_write_stands(s: KvView, ops: Seq<KvOpView>, at: Place, i: int)
    requires
        -1 <= i < ops.len(),
        i >= 0 ==> is_plain_at(ops[i], at),
        forall|j: int| i < j < ops.len() ==> !is_plain_at(#[trigger] ops[j], at),
        forall|j: int|
            0 <= j < ops.len() ==> ((#[trigger] ops[j]) matches KvOpView::MergeDf {
                at: place,
                delta,
            } ==> place != at),
    ensures
        i < 0 ==> (committed(s, ops).contains_key(at) <==> s.contains_key(at)),
        i < 0 && s.contains_key(at) ==> committed(s, ops)[at] == s[at],
        i >= 0 && ops[i] is Delete ==> !committed(s, ops).contains_key(at),
        i >= 0 ==> (ops[i] matches KvOpView::Put { at: place, value } ==> committed(
            s,
            ops,
        ).contains_key(at) && committed(s, ops)[at] == value),
{
    lemma_plain_place(s, ops, at, i);
    assert(!has_delta(ops, at));
}

/// A counter with a delta holds, after the batch, what it held before it and
/// the sum of its deltas: a delta counts at its own place, and a put or a delete
/// counts nowhere.
pub proof fn law_deltas_add_up(
    s: KvView,
    ops: Seq<KvOpView>,
    at: Place,
    other: Place,
    n: int,
    value: Seq<u8>,
)
    ensures
        delta_sum(Seq::empty(), at) == 0,
        delta_sum(ops.push(KvOpView::MergeDf { at, delta: n }), at) == delta_sum(ops, at) + n,
        other != at ==> delta_sum(ops.push(KvOpView::MergeDf { at: other, delta: n }), at)
            == delta_sum(ops, at),
        delta_sum(ops.push(KvOpView::Put { at: other, value }), at) == delta_sum(ops, at),
        delta_sum(ops.push(KvOpView::Delete { at: other }), at) == delta_sum(ops, at),
        ({
            let after = committed(s, ops.push(KvOpView::MergeDf { at, delta: n }));
            &&& after.contains_key(at)
            &&& s.contains_key(at) ==> after[at] == counter_bytes(
                counter_in(s[at]) + delta_sum(ops, at) + n,
            )
            &&& !s.contains_key(at) ==> after[at] == counter_bytes(delta_sum(ops, at) + n)
        }),
{
    let more = ops.push(KvOpView::MergeDf { at, delta: n });
    assert(more.drop_last() =~= ops);
    assert(ops.push(KvOpView::MergeDf { at: other, delta: n }).drop_last() =~= ops);
    assert(ops.push(KvOpView::Put { at: other, value }).drop_last() =~= ops);
    assert(ops.push(KvOpView::Delete { at: other }).drop_last() =~= ops);
    assert(is_delta(more[ops.len() as int], at));
}

/// Bytes that are missing from a counter count as zero, and those behind the
/// eighth do not count.
pub proof fn law_counters_are_eight_bytes(b: Seq<u8>)
    ensures
        b.len() < 8 ==> counter_in(b.push(0)) == counter_in(b),
        b.len() >= 8 ==> counter_in(b) == counter_in(b.take(8)),
        counter_in(Seq::empty()) == 0,
{
    law_bytes_weigh_by_place(0, 0, 0, 0, b);
    assert(b.len() < 8 ==> b.push(0).take(8) =~= b.push(0) || b.push(0).len() < 8);
    if b.len() >= 8 {
        assert(b.take(8).take(8) =~= b.take(8));
    }
}

/// The operands of a merge count one by one.
pub proof fn law_operands_add_up(operands: Seq<Vec<u8>>, v: Vec<u8>)
    ensures
        operand_sum(Seq::empty()) == 0,
        operand_sum(operands.push(v)) == operand_sum(operands) + counter_in(v@),
{
    assert(operands.push(v).drop_last() =~= operands);
}

/// The ceiling on the write buffers is two for every column family.
pub proof fn law_budget_is_two_buffers_each(bytes: usize, families: usize)
    ensures
        budget_of(bytes, families) == 2 * bytes * families,
{
    assert(bytes * 2 == 2 * bytes);
}

/// The column families that are read by exact key, and those that hold
/// vectors, by name.
pub proof fn law_families_are_named(name: Seq<char>)
    ensures
        is_vector(name) <==> name == "vecs"@ || name == "nvecs"@ || name == "mvecs"@,
        is_point_lookup(name) <==> is_vector(name) || name == "docs"@ || name == "meta"@ || name
            == "nodes"@ || name == "conns"@ || name == "coll"@ || name == "tdf"@,
{
}

/// Counters are listed by column family, then by key: of two the one comes first
/// whose family does, and in one family the one whose key does; none comes
/// before itself.
pub proof fn law_places_are_ordered_by_family_then_key(a: Place, b: Place)
    ensures
        a.0 == b.0 ==> (place_lt(a, b) <==> lex_lt(a.1, b.1)),
        a.0 != b.0 ==> (place_lt(a, b) <==> str_lt(a.0, b.0)),
        !place_lt(a, a),
        a != b ==> place_lt(a, b) || place_lt(b, a),
{
    lemma_str_irreflexive(a.0);
    lemma_place_irreflexive(a);
    lemma_place_total(a, b);
}

} // verus!
