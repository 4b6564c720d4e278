//! Scores as bit patterns, and rankings by score.
//!
//! A floating-point score is carried as its IEEE 754 bit pattern. The total
//! order of floating-point numbers is an order of those patterns, so a ranking
//! needs no floating-point arithmetic.

use vstd::prelude::*;

use crate::order::{
    lemma_lex_asymmetric, lemma_lex_irreflexive, lemma_lex_transitive, lemma_str_total,
    relate_strs, str_lt, Rel,
};

verus! {

/// Where a 32-bit floating-point number stands in the total order of all of
/// them, from its bit pattern: negative numbers come first, the larger
/// magnitude before the smaller; then the others, by magnitude.
pub open spec fn f32_rank(bits: u32) -> int {
    if bits >= 0x8000_0000 {
        0xffff_ffff - bits
    } else {
        bits + 0x8000_0000
    }
}

/// Where a 64-bit floating-point number stands in the total order of all of
/// them, from its bit pattern.
pub open spec fn f64_rank(bits: u64) -> int {
    if bits >= 0x8000_0000_0000_0000 {
        0xffff_ffff_ffff_ffff - bits
    } else {
        bits + 0x8000_0000_0000_0000
    }
}

/// The place of a 32-bit floating-point number in the total order.
pub fn rank_f32(bits: u32) -> (r: u32)
    ensures
        r == f32_rank(bits),
{
    if bits >= 0x8000_0000 {
        0xffff_ffff - bits
    } else {
        bits + 0x8000_0000
    }
}

/// The place of a 64-bit floating-point number in the total order.
pub fn rank_f64(bits: u64) -> (r: u64)
    ensures
        r == f64_rank(bits),
{
    if bits >= 0x8000_0000_0000_0000 {
        0xffff_ffff_ffff_ffff - bits
    } else {
        bits + 0x8000_0000_0000_0000
    }
}

/// The number at a given place in the total order.
pub fn unrank_f64(rank: u64) -> (r: u64)
    ensures
        f64_rank(r) == rank,
{
    if rank >= 0x8000_0000_0000_0000 {
        rank - 0x8000_0000_0000_0000
    } else {
        0xffff_ffff_ffff_ffff - rank
    }
}

/// The total order tells any two bit patterns apart.
pub proof fn law_ranks_are_distinct(a: u32, b: u32, c: u64, d: u64)
    ensures
        f32_rank(a) == f32_rank(b) <==> a == b,
        f64_rank(c) == f64_rank(d) <==> c == d,
{
}

// ---- ordering items by key -----------------------------------------------------

/// What an item is ordered by: a number, then a text.
pub type KeyView = (int, Seq<char>);

/// What an item is ordered by: `major` upward, then `minor` in string order.
#[derive(Debug)]
pub struct SortKey {
    pub major: u64,
    pub minor: String,
}

impl View for SortKey {
    type V = KeyView;

    open spec fn view(&self) -> KeyView {
        (self.major as int, self.minor@)
    }
}

/// The key `a` comes before the key `b`.
pub open spec fn key_before(a: KeyView, b: KeyView) -> bool {
    a.0 < b.0 || (a.0 == b.0 && str_lt(a.1, b.1))
}

/// The item at `i` comes before the item at `j`: by their keys, and where
/// those are the same by where the items stand.
pub open spec fn precedes(keys: Seq<KeyView>, i: int, j: int) -> bool {
    key_before(keys[i], keys[j]) || (keys[i] == keys[j] && i < j)
}

/// The views of a list of keys.
pub open spec fn key_views(keys: Seq<SortKey>) -> Seq<KeyView> {
    keys.map_values(|k: SortKey| k@)
}

/// `run` lists the positions from `lo` to `hi`, each once, in key order.
pub open spec fn is_run(keys: Seq<KeyView>, run: Seq<usize>, lo: int, hi: int) -> bool {
    &&& run.len() == hi - lo
    &&& forall|i: int| 0 <= i < run.len() ==> lo <= #[trigger] run[i] < hi
    &&& forall|i: int, j: int|
        0 <= i < j < run.len() ==> precedes(keys, #[trigger] run[i] as int, #[trigger] run[j] as int)
    &&& forall|k: usize| lo <= k < hi ==> #[trigger] run.contains(k)
}

/// `order` lists every position of `keys` once, in key order.
pub open spec fn is_order(keys: Seq<KeyView>, order: Seq<usize>) -> bool {
    is_run(keys, order, 0, keys.len() as int)
}

/// The positions of `keys`, in key order. Positions with the same key keep
/// their order.
pub open spec fn ordering(keys: Seq<KeyView>) -> Seq<usize> {
    choose|order: Seq<usize>| is_order(keys, order)
}

/// The first `k` of `items` in the order of `keys`.
pub open spec fn first_by<T>(items: Seq<T>, keys: Seq<KeyView>, k: nat) -> Seq<T> {
    Seq::new(
        if k < items.len() {
            k
        } else {
            items.len()
        },
        |i: int| items[ordering(keys)[i] as int],
    )
}

pub proof fn lemma_key_total(a: KeyView, b: KeyView)
    ensures
        a == b || key_before(a, b) || key_before(b, a),
{
    lemma_str_total(a.1, b.1);
}

pub proof fn lemma_key_asymmetric(a: KeyView, b: KeyView)
    requires
        key_before(a, b),
    ensures
        !key_before(b, a),
        a != b,
{
    if a.0 == b.0 {
        lemma_lex_asymmetric(vstd::utf8::encode_utf8(a.1), vstd::utf8::encode_utf8(b.1));
    }
}

pub proof fn lemma_precedes_transitive(keys: Seq<KeyView>, i: int, j: int, k: int)
    requires
        precedes(keys, i, j),
        precedes(keys, j, k),
    ensures
        precedes(keys, i, k),
{
    let a = keys[i];
    let b = keys[j];
    let c = keys[k];
    if key_before(a, b) && key_before(b, c) && a.0 == b.0 && b.0 == c.0 {
        lemma_lex_transitive(
            vstd::utf8::encode_utf8(a.1),
            vstd::utf8::encode_utf8(b.1),
            vstd::utf8::encode_utf8(c.1),
        );
    }
}

pub proof fn lemma_precedes_asymmetric(keys: Seq<KeyView>, i: int, j: int)
    requires
        precedes(keys, i, j),
    ensures
        !precedes(keys, j, i),
        i != j,
{
    if key_before(keys[i], keys[j]) {
        lemma_key_asymmetric(keys[i], keys[j]);
    } else {
        lemma_lex_irreflexive(vstd::utf8::encode_utf8(keys[i].1));
    }
}

pub proof fn lemma_precedes_total(keys: Seq<KeyView>, i: int, j: int)
    requires
        i != j,
    ensures
        precedes(keys, i, j) || precedes(keys, j, i),
{
    lemma_key_total(keys[i], keys[j]);
}

proof fn lemma_order_agrees(keys: Seq<KeyView>, a: Seq<usize>, b: Seq<usize>, n: int)
    requires
        is_order(keys, a),
        is_order(keys, b),
        0 <= n <= a.len(),
    ensures
        a.take(n) == b.take(n),
    decreases n,
{
    if n == 0 {
        assert(a.take(0) =~= b.take(0));
    } else {
        lemma_order_agrees(keys, a, b, n - 1);
        let i = n - 1;
        if a[i] != b[i] {
            assert(b.contains(a[i]));
            assert(a.contains(b[i]));
            let j = choose|j: int| 0 <= j < b.len() && b[j] == a[i];
            let k = choose|k: int| 0 <= k < a.len() && a[k] == b[i];
            if j < i {
                assert(a.take(i)[j] == b.take(i)[j]);
                assert(precedes(keys, a[j] as int, a[i] as int));
                lemma_precedes_asymmetric(keys, a[j] as int, a[i] as int);
            }
            if k < i {
                assert(a.take(i)[k] == b.take(i)[k]);
                assert(precedes(keys, b[k] as int, b[i] as int));
                lemma_precedes_asymmetric(keys, b[k] as int, b[i] as int);
            }
            assert(precedes(keys, b[i] as int, b[j] as int));
            assert(precedes(keys, a[i] as int, a[k] as int));
            lemma_precedes_asymmetric(keys, a[i] as int, b[i] as int);
        }
        assert(a.take(n) =~= a.take(i).push(a[i]));
        assert(b.take(n) =~= b.take(i).push(b[i]));
    }
}

/// There is one order of the positions only.
pub proof fn lemma_order_is_unique(keys: Seq<KeyView>, order: Seq<usize>)
    requires
        is_order(keys, order),
    ensures
        order == ordering(keys),
{
    let other = ordering(keys);
    assert(is_order(keys, other));
    lemma_order_agrees(keys, order, other, keys.len() as int);
    assert(order.take(keys.len() as int) =~= order);
    assert(other.take(keys.len() as int) =~= other);
}

fn comes_before(keys: &Vec<SortKey>, i: usize, j: usize) -> (r: bool)
    requires
        i < keys.len(),
        j < keys.len(),
    ensures
        r == precedes(key_views(keys@), i as int, j as int),
{
    let a = &keys[i];
    let b = &keys[j];
    if a.major < b.major {
        return true;
    }
    if b.major < a.major {
        return false;
    }
    match relate_strs(a.minor.as_str(), b.minor.as_str()) {
        Rel::Less => true,
        Rel::Greater => {
            proof {
                lemma_key_asymmetric(b@, a@);
            }
            false
        },
        Rel::Equal => {
            proof {
                lemma_lex_irreflexive(vstd::utf8::encode_utf8(a.minor@));
            }
            i < j
        },
    }
}

fn merge(keys: &Vec<SortKey>, a: Vec<usize>, b: Vec<usize>, lo: usize, mid: usize, hi: usize) -> (r:
    Vec<usize>)
    requires
        lo <= mid <= hi <= keys.len(),
        is_run(key_views(keys@), a@, lo as int, mid as int),
        is_run(key_views(keys@), b@, mid as int, hi as int),
    ensures
        is_run(key_views(keys@), r@, lo as int, hi as int),
{
    let ghost kv = key_views(keys@);
    let mut out: Vec<usize> = Vec::new();
    let mut i: usize = 0;
    let mut j: usize = 0;
    while i < a.len() || j < b.len()
        invariant
            lo <= mid <= hi <= keys.len(),
            kv == key_views(keys@),
            is_run(kv, a@, lo as int, mid as int),
            is_run(kv, b@, mid as int, hi as int),
            i <= a.len(),
            j <= b.len(),
            out@.len() == i + j,
            forall|p: int| 0 <= p < out@.len() ==> lo <= #[trigger] out@[p] < hi,
            forall|p: int, q: int|
                0 <= p < q < out@.len() ==> precedes(
                    kv,
                    #[trigger] out@[p] as int,
                    #[trigger] out@[q] as int,
                ),
            forall|p: int, q: int|
                0 <= p < out@.len() && i <= q < a.len() ==> precedes(
                    kv,
                    #[trigger] out@[p] as int,
                    #[trigger] a@[q] as int,
                ),
            forall|p: int, q: int|
                0 <= p < out@.len() && j <= q < b.len() ==> precedes(
                    kv,
                    #[trigger] out@[p] as int,
                    #[trigger] b@[q] as int,
                ),
            forall|q: int| 0 <= q < i ==> out@.contains(#[trigger] a@[q]),
            forall|q: int| 0 <= q < j ==> out@.contains(#[trigger] b@[q]),
        decreases a.len() + b.len() - i - j,
    {
        let from_a: bool = if i == a.len() {
            false
        } else if j == b.len() {
            true
        } else {
            comes_before(keys, a[i], b[j])
        };
        let ghost before = out@;
        if from_a {
            let x: usize = a[i];
            proof {
                assert forall|q: int| j <= q < b.len() implies precedes(
                    kv,
                    x as int,
                    #[trigger] b@[q] as int,
                ) by {
                    if q > j {
                        lemma_precedes_transitive(kv, x as int, b@[j as int] as int, b@[q] as int);
                    }
                }
            }
            out.push(x);
            proof {
                lemma_push_contains(before, x);
            }
            i = i + 1;
        } else {
            let x: usize = b[j];
            proof {
                assert forall|q: int| i <= q < a.len() implies precedes(
                    kv,
                    x as int,
                    #[trigger] a@[q] as int,
                ) by {
                    lemma_precedes_total(kv, a@[i as int] as int, x as int);
                    if q > i {
                        lemma_precedes_transitive(kv, x as int, a@[i as int] as int, a@[q] as int);
                    }
                }
            }
            out.push(x);
            proof {
                lemma_push_contains(before, x);
            }
            j = j + 1;
        }
    }
    proof {
        assert forall|k: usize| lo <= k < hi implies #[trigger] out@.contains(k) by {
            if k < mid {
                assert(a@.contains(k));
                let q = choose|q: int| 0 <= q < a@.len() && a@[q] == k;
                assert(out@.contains(a@[q]));
            } else {
                assert(b@.contains(k));
                let q = choose|q: int| 0 <= q < b@.len() && b@[q] == k;
                assert(out@.contains(b@[q]));
            }
        }
    }
    out
}

proof fn lemma_push_contains(s: Seq<usize>, x: usize)
    ensures
        s.push(x).contains(x),
        forall|y: usize| s.contains(y) ==> #[trigger] s.push(x).contains(y),
{
    assert(s.push(x)[s.len() as int] == x);
    assert forall|y: usize| s.contains(y) implies #[trigger] s.push(x).contains(y) by {
        let i = choose|i: int| 0 <= i < s.len() && s[i] == y;
        assert(s.push(x)[i] == y);
    }
}

fn sort_range(keys: &Vec<SortKey>, lo: usize, hi: usize) -> (r: Vec<usize>)
    requires
        lo <= hi <= keys.len(),
    ensures
        is_run(key_views(keys@), r@, lo as int, hi as int),
    decreases hi - lo,
{
    let mut out: Vec<usize> = Vec::new();
    if lo == hi {
        return out;
    }
    if hi - lo == 1 {
        out.push(lo);
        proof {
            assert(out@[0] == lo);
            assert forall|k: usize| lo <= k < hi implies #[trigger] out@.contains(k) by {
                assert(out@[0] == k);
            }
        }
        return out;
    }
    let mid: usize = lo + (hi - lo) / 2;
    let left = sort_range(keys, lo, mid);
    let right = sort_range(keys, mid, hi);
    merge(keys, left, right, lo, mid, hi)
}

/// The positions of `keys`, in key order.
pub fn order_by(keys: &Vec<SortKey>) -> (r: Vec<usize>)
    ensures
        is_order(key_views(keys@), r@),
        r@ == ordering(key_views(keys@)),
{
    let r = sort_range(keys, 0, keys.len());
    proof {
        lemma_order_is_unique(key_views(keys@), r@);
    }
    r
}

// ---- rankings --------------------------------------------------------------------

/// A document and the bit pattern of its 32-bit score.
pub type ScoredView = (Seq<char>, u32);

/// A document and the bit pattern of its 32-bit score.
#[derive(Debug)]
pub struct Scored {
    pub id: String,
    pub score: u32,
}

impl View for Scored {
    type V = ScoredView;

    open spec fn view(&self) -> ScoredView {
        (self.id@, self.score)
    }
}

/// The views of a list of scored documents.
pub open spec fn scored_views(v: Seq<Scored>) -> Seq<ScoredView> {
    v.map_values(|s: Scored| s@)
}

/// Higher scores come first; among equal scores the smaller id does.
pub open spec fn rank_key(s: ScoredView) -> KeyView {
    (0xffff_ffff - f32_rank(s.1), s.0)
}

/// What a list of scored documents is ranked by.
pub open spec fn rank_keys(v: Seq<ScoredView>) -> Seq<KeyView> {
    v.map_values(|s: ScoredView| rank_key(s))
}

/// The best `k` of a list of scored documents, best first; equal scores by id.
pub open spec fn best(v: Seq<ScoredView>, k: nat) -> Seq<ScoredView> {
    first_by(v, rank_keys(v), k)
}

/// Ranks documents by score, best first, equal scores by id, and keeps the
/// best `top_k`.
pub fn rank_top(scored: &Vec<Scored>, top_k: usize) -> (r: Vec<Scored>)
    ensures
        scored_views(r@) == best(scored_views(scored@), top_k as nat),
{
    let mut keys: Vec<SortKey> = Vec::new();
    let mut i: usize = 0;
    while i < scored.len()
        invariant
            i <= scored.len(),
            keys@.len() == i,
            forall|j: int| 0 <= j < i ==> (#[trigger] keys@[j])@ == rank_key(scored@[j]@),
        decreases scored.len() - i,
    {
        let major: u64 = (0xffff_ffffu32 - rank_f32(scored[i].score)) as u64;
        keys.push(SortKey { major, minor: scored[i].id.clone() });
        i = i + 1;
    }
    let ghost sv = scored_views(scored@);
    assert(key_views(keys@) =~= rank_keys(sv));
    let order = order_by(&keys);
    let n: usize = if top_k < order.len() {
        top_k
    } else {
        order.len()
    };
    let mut out: Vec<Scored> = Vec::new();
    let mut k: usize = 0;
    while k < n
        invariant
            k <= n <= order.len(),
            is_order(rank_keys(sv), order@),
            sv == scored_views(scored@),
            out@.len() == k,
            forall|j: int| 0 <= j < k ==> (#[trigger] out@[j])@ == sv[order@[j] as int],
        decreases n - k,
    {
        let p: usize = order[k];
        out.push(Scored { id: scored[p].id.clone(), score: scored[p].score });
        k = k + 1;
    }
    proof {
        assert forall|j: int| 0 <= j < n implies scored_views(out@)[j] == best(
            sv,
            top_k as nat,
        )[j] by {
            assert(out@[j]@ == sv[order@[j] as int]);
        }
        assert(scored_views(out@) =~= best(sv, top_k as nat));
    }
    out
}

/// A ranking has an order, whatever it is given.
pub proof fn lemma_ordering_exists(keys: Seq<KeyView>)
    requires
        keys.len() <= usize::MAX,
    ensures
        is_order(keys, ordering(keys)),
{
    let n = keys.len() as int;
    lemma_order_of_prefix(keys, n);
    let run = choose|run: Seq<usize>| is_run(keys, run, 0, n);
    assert(is_order(keys, run));
}

proof fn lemma_order_of_prefix(keys: Seq<KeyView>, n: int)
    requires
        0 <= n <= keys.len() <= usize::MAX,
    ensures
        exists|run: Seq<usize>| is_run(keys, run, 0, n),
    decreases n,
{
    if n == 0 {
        assert(is_run(keys, Seq::<usize>::empty(), 0, 0));
    } else {
        let m = n - 1;
        lemma_order_of_prefix(keys, m);
        let run = choose|run: Seq<usize>| is_run(keys, run, 0, m);
        let x = m as usize;
        let p = lemma_place(keys, run, x, 0);
        let next = run.insert(p, x);
        assert forall|i: int, j: int| 0 <= i < j < next.len() implies precedes(
            keys,
            #[trigger] next[i] as int,
            #[trigger] next[j] as int,
        ) by {
            if i == p {
                assert(next[j] == run[j - 1]);
            } else if j == p {
                assert(next[i] == run[i]);
            } else {
                let i0 = if i < p { i } else { i - 1 };
                let j0 = if j < p { j } else { j - 1 };
                assert(next[i] == run[i0] && next[j] == run[j0]);
            }
        }
        assert forall|k: usize| 0 <= k < n implies #[trigger] next.contains(k) by {
            if k == x {
                assert(next[p] == k);
            } else {
                assert(run.contains(k));
                let q = choose|q: int| 0 <= q < run.len() && run[q] == k;
                let q1 = if q < p { q } else { q + 1 };
                assert(next[q1] == k);
            }
        }
        assert forall|i: int| 0 <= i < next.len() implies 0 <= #[trigger] next[i] < n by {
            if i < p {
                assert(next[i] == run[i]);
            } else if i > p {
                assert(next[i] == run[i - 1]);
            }
        }
        assert(is_run(keys, next, 0, n));
    }
}

proof fn lemma_place(keys: Seq<KeyView>, run: Seq<usize>, x: usize, from: int) -> (p: int)
    requires
        is_run(keys, run, 0, x as int),
        0 <= from <= run.len(),
        forall|i: int| 0 <= i < from ==> precedes(keys, #[trigger] run[i] as int, x as int),
    ensures
        0 <= p <= run.len(),
        forall|i: int| 0 <= i < p ==> precedes(keys, #[trigger] run[i] as int, x as int),
        forall|i: int| p <= i < run.len() ==> precedes(keys, x as int, #[trigger] run[i] as int),
    decreases run.len() - from,
{
    if from == run.len() {
        from
    } else if precedes(keys, run[from] as int, x as int) {
        lemma_place(keys, run, x, from + 1)
    } else {
        lemma_precedes_total(keys, run[from] as int, x as int);
        assert forall|i: int| from <= i < run.len() implies precedes(
            keys,
            x as int,
            #[trigger] run[i] as int,
        ) by {
            if i > from {
                lemma_precedes_transitive(keys, x as int, run[from] as int, run[i] as int);
            }
        }
        from
    }
}

/// A ranking keeps the best: it is as long as asked for if there is enough,
/// each of its places holds a document of the list, it never puts the worse
/// before the better, and no document that it leaves out beats one that it
/// keeps.
pub proof fn law_ranking_keeps_the_best(v: Seq<ScoredView>, k: nat)
    requires
        v.len() <= usize::MAX,
    ensures
        best(v, k).len() == (if k < v.len() {
            k
        } else {
            v.len()
        }),
        forall|i: int| 0 <= i < best(v, k).len() ==> v.contains(#[trigger] best(v, k)[i]),
        forall|i: int, j: int|
            0 <= i < j < best(v, k).len() ==> !key_before(
                rank_key(#[trigger] best(v, k)[j]),
                rank_key(#[trigger] best(v, k)[i]),
            ),
        forall|p: int, i: int|
            0 <= p < v.len() && !best(v, k).contains(#[trigger] v[p]) && 0 <= i < best(v, k).len()
                ==> !key_before(rank_key(v[p]), rank_key(#[trigger] best(v, k)[i])),
{
    let keys = rank_keys(v);
    let o = ordering(keys);
    let b = best(v, k);
    lemma_ordering_exists(keys);
    assert forall|i: int| 0 <= i < b.len() implies v.contains(#[trigger] b[i]) by {
        assert(b[i] == v[o[i] as int]);
    }
    assert forall|i: int, j: int| 0 <= i < j < b.len() implies !key_before(
        rank_key(#[trigger] b[j]),
        rank_key(#[trigger] b[i]),
    ) by {
        assert(precedes(keys, o[i] as int, o[j] as int));
        lemma_precedes_asymmetric(keys, o[i] as int, o[j] as int);
        assert(keys[o[i] as int] == rank_key(b[i]));
        assert(keys[o[j] as int] == rank_key(b[j]));
    }
    assert forall|p: int, i: int|
        0 <= p < v.len() && !b.contains(#[trigger] v[p]) && 0 <= i < b.len() implies !key_before(
        rank_key(v[p]),
        rank_key(#[trigger] b[i]),
    ) by {
        assert(o.contains(p as usize));
        let q = choose|q: int| 0 <= q < o.len() && o[q] == p as usize;
        if q < b.len() {
            assert(b[q] == v[p]);
        }
        assert(precedes(keys, o[i] as int, o[q] as int));
        lemma_precedes_asymmetric(keys, o[i] as int, o[q] as int);
        assert(keys[o[i] as int] == rank_key(b[i]));
        assert(keys[o[q] as int] == rank_key(v[p]));
    }
}

/// The total order of floating-point numbers: a number without the sign bit is
/// above one with it; of two without, the larger bit pattern is above; of two
/// with it, below.
pub proof fn law_sign_and_magnitude_decide(a: u32, b: u32, c: u64, d: u64)
    ensures
        a < 0x8000_0000 && b < 0x8000_0000 ==> (f32_rank(a) < f32_rank(b) <==> a < b),
        a >= 0x8000_0000 && b >= 0x8000_0000 ==> (f32_rank(a) < f32_rank(b) <==> a > b),
        a >= 0x8000_0000 && b < 0x8000_0000 ==> f32_rank(a) < f32_rank(b),
        0 <= f32_rank(a) <= 0xffff_ffff,
        c < 0x8000_0000_0000_0000 && d < 0x8000_0000_0000_0000 ==> (f64_rank(c) < f64_rank(d)
            <==> c < d),
        c >= 0x8000_0000_0000_0000 && d >= 0x8000_0000_0000_0000 ==> (f64_rank(c) < f64_rank(d)
            <==> c > d),
        c >= 0x8000_0000_0000_0000 && d < 0x8000_0000_0000_0000 ==> f64_rank(c) < f64_rank(d),
        0 <= f64_rank(c) <= 0xffff_ffff_ffff_ffff,
{
}

/// The item that stands at `i` of a ranking stood at `from[i]` of the list: no
/// position is taken twice.
pub open spec fn picks<T>(out: Seq<T>, items: Seq<T>, from: Seq<int>) -> bool {
    &&& from.len() == out.len()
    &&& forall|i: int|
        0 <= i < out.len() ==> 0 <= #[trigger] from[i] < items.len() && items[from[i]] == out[i]
    &&& forall|i: int, j: int| 0 <= i < j < from.len() ==> #[trigger] from[i] != #[trigger] from[j]
}

/// Where the first items in key order stood: a lower key comes first, items
/// with the same key keep their order, and no item that is left out has a lower
/// key than one that is there.
pub proof fn lemma_first_by<T>(items: Seq<T>, keys: Seq<KeyView>, k: nat) -> (from: Seq<int>)
    requires
        items.len() == keys.len(),
        items.len() <= usize::MAX,
    ensures
        first_by(items, keys, k).len() == (if k < items.len() {
            k
        } else {
            items.len()
        }),
        picks(first_by(items, keys, k), items, from),
        forall|i: int, j: int|
            0 <= i < j < from.len() ==> precedes(keys, #[trigger] from[i], #[trigger] from[j]),
        forall|p: int, i: int|
            0 <= p < items.len() && 0 <= i < from.len() && !from.contains(p) ==> #[trigger] precedes(
                keys,
                from[i],
                p,
            ),
{
    let o = ordering(keys);
    let out = first_by(items, keys, k);
    lemma_ordering_exists(keys);
    let from = Seq::new(out.len(), |i: int| o[i] as int);
    assert forall|i: int, j: int| 0 <= i < j < from.len() implies #[trigger] from[i]
        != #[trigger] from[j] by {
        lemma_precedes_asymmetric(keys, o[i] as int, o[j] as int);
    }
    assert forall|p: int, i: int|
        0 <= p < items.len() && 0 <= i < from.len() && !from.contains(p) implies #[trigger] precedes(
        keys,
        from[i],
        p,
    ) by {
        assert(o.contains(p as usize));
        let q = choose|q: int| 0 <= q < o.len() && o[q] == p as usize;
        if q < from.len() {
            assert(from[q] == p);
        }
        assert(from[i] == o[i] as int);
    }
    from
}

/// `a` ranks above `b`: it has the higher score, or the same score and an id
/// that does not come after.
pub open spec fn ranks_above(a: ScoredView, b: ScoredView) -> bool {
    f32_rank(a.1) > f32_rank(b.1) || (f32_rank(a.1) == f32_rank(b.1) && !str_lt(b.0, a.0))
}

/// A ranking is by score, the higher first, and by id where scores are the same.
/// It holds each document as often as the list does, no more than are asked for,
/// and leaves out none that ranks above one that it holds.
pub proof fn law_ranking_is_by_score_then_id(v: Seq<ScoredView>, k: nat)
    requires
        v.len() <= usize::MAX,
    ensures
        best(v, k).len() == (if k < v.len() {
            k
        } else {
            v.len()
        }),
        forall|i: int, j: int|
            0 <= i < j < best(v, k).len() ==> f32_rank((#[trigger] best(v, k)[i]).1) >= f32_rank(
                (#[trigger] best(v, k)[j]).1,
            ),
        forall|i: int, j: int|
            0 <= i < j < best(v, k).len() && (#[trigger] best(v, k)[i]).1 == (#[trigger] best(
                v,
                k,
            )[j]).1 ==> !str_lt(best(v, k)[j].0, best(v, k)[i].0),
        exists|from: Seq<int>|
            #[trigger] picks(best(v, k), v, from) && forall|p: int, i: int|
                0 <= p < v.len() && !from.contains(p) && 0 <= i < best(v, k).len() ==> ranks_above(
                    #[trigger] best(v, k)[i],
                    #[trigger] v[p],
                ),
{
    let keys = rank_keys(v);
    let out = best(v, k);
    let from = lemma_first_by(v, keys, k);
    assert forall|i: int, j: int| 0 <= i < j < out.len() implies f32_rank((#[trigger] out[i]).1)
        >= f32_rank((#[trigger] out[j]).1) && (out[i].1 == out[j].1 ==> !str_lt(
        out[j].0,
        out[i].0,
    )) by {
        assert(precedes(keys, from[i], from[j]));
        lemma_ranks_above(v, from[i], from[j]);
    }
    assert forall|p: int, i: int|
        0 <= p < v.len() && !from.contains(p) && 0 <= i < out.len() implies ranks_above(
        #[trigger] out[i],
        #[trigger] v[p],
    ) by {
        assert(precedes(keys, from[i], p));
        lemma_ranks_above(v, from[i], p);
    }
    assert(picks(out, v, from));
}

proof fn lemma_ranks_above(v: Seq<ScoredView>, a: int, b: int)
    requires
        0 <= a < v.len(),
        0 <= b < v.len(),
        precedes(rank_keys(v), a, b),
    ensures
        ranks_above(v[a], v[b]),
{
    let keys = rank_keys(v);
    if key_before(keys[a], keys[b]) {
        lemma_key_asymmetric(keys[a], keys[b]);
    } else {
        lemma_lex_irreflexive(vstd::utf8::encode_utf8(v[a].0));
    }
}

/// A ranking says nothing new: its documents and scores are those of the list.
pub proof fn law_scored_views_hold_every_field(v: Seq<Scored>, i: int)
    requires
        0 <= i < v.len(),
    ensures
        scored_views(v).len() == v.len(),
        scored_views(v)[i].0 == v[i].id@,
        scored_views(v)[i].1 == v[i].score,
{
}

} // verus!
