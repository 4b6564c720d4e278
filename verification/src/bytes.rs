//! Integers as bytes, little-endian and big-endian.

use vstd::prelude::*;

use crate::order::{lemma_lex_irreflexive, lex_lt};

verus! {

/// `256` to the power `k`.
pub open spec fn pow256(k: nat) -> nat
    decreases k,
{
    if k == 0 {
        1
    } else {
        256 * pow256((k - 1) as nat)
    }
}

/// The number that `b` holds, least significant byte first.
pub open spec fn le_value(b: Seq<u8>) -> nat
    decreases b.len(),
{
    if b.len() == 0 {
        0
    } else {
        b[0] as nat + 256 * le_value(b.drop_first())
    }
}

/// The lowest `k` bytes of `n`, least significant byte first.
pub open spec fn le_bytes(n: nat, k: nat) -> Seq<u8>
    decreases k,
{
    if k == 0 {
        seq![]
    } else {
        seq![(n % 256) as u8] + le_bytes(n / 256, (k - 1) as nat)
    }
}

/// The number that `b` holds, most significant byte first.
pub open spec fn be_value(b: Seq<u8>) -> nat {
    le_value(b.reverse())
}

/// The lowest `k` bytes of `n`, most significant byte first.
pub open spec fn be_bytes(n: nat, k: nat) -> Seq<u8> {
    le_bytes(n, k).reverse()
}

/// The signed number that 64 bits stand for, in two's complement.
pub open spec fn signed(n: nat) -> int {
    if n < 0x8000_0000_0000_0000 {
        n as int
    } else {
        n - 0x1_0000_0000_0000_0000
    }
}

/// The 64 bits that stand for a signed number, in two's complement.
pub open spec fn unsigned64(n: int) -> nat {
    if n >= 0 {
        n as nat
    } else {
        (n + 0x1_0000_0000_0000_0000) as nat
    }
}

pub proof fn lemma_le_bytes_len(n: nat, k: nat)
    ensures
        le_bytes(n, k).len() == k,
    decreases k,
{
    if k > 0 {
        lemma_le_bytes_len(n / 256, (k - 1) as nat);
    }
}

pub proof fn lemma_le_value_bound(b: Seq<u8>)
    ensures
        le_value(b) < pow256(b.len()),
    decreases b.len(),
{
    if b.len() > 0 {
        lemma_le_value_bound(b.drop_first());
    }
}

/// What is written is read back.
pub proof fn lemma_le_round_trip(n: nat, k: nat)
    requires
        n < pow256(k),
    ensures
        le_value(le_bytes(n, k)) == n,
    decreases k,
{
    if k > 0 {
        lemma_le_round_trip(n / 256, (k - 1) as nat);
        assert(le_bytes(n, k).drop_first() =~= le_bytes(n / 256, (k - 1) as nat));
        assert(le_bytes(n, k)[0] == (n % 256) as u8);
    }
}

/// Bytes are the bytes of the number they hold.
pub proof fn lemma_le_bytes_of_value(b: Seq<u8>)
    ensures
        le_bytes(le_value(b), b.len()) == b,
    decreases b.len(),
{
    if b.len() > 0 {
        let rest = b.drop_first();
        lemma_le_bytes_of_value(rest);
        let n = le_value(b);
        assert(n % 256 == b[0] && n / 256 == le_value(rest));
        assert(le_bytes(n, b.len()) =~= seq![b[0]] + rest);
        assert(b =~= seq![b[0]] + rest);
    } else {
        assert(le_bytes(le_value(b), b.len()) =~= b);
    }
}

pub proof fn lemma_pow256_values()
    ensures
        pow256(4) == 0x1_0000_0000,
        pow256(8) == 0x1_0000_0000_0000_0000,
{
    reveal_with_fuel(pow256, 9);
}

pub proof fn lemma_pow256_grows(a: nat, b: nat)
    requires
        a <= b,
    ensures
        1 <= pow256(a) <= pow256(b),
    decreases b,
{
    if a < b {
        lemma_pow256_grows(a, (b - 1) as nat);
    } else if a > 0 {
        lemma_pow256_grows((a - 1) as nat, (b - 1) as nat);
    }
}

proof fn lemma_lex_push(x: Seq<u8>, y: Seq<u8>, c: u8, d: u8)
    requires
        x.len() == y.len(),
    ensures
        lex_lt(x.push(c), y.push(d)) <==> lex_lt(x, y) || (x == y && c < d),
    decreases x.len(),
{
    if x.len() == 0 {
        assert(x =~= y);
        assert(x.push(c).drop_first() =~= y.push(d).drop_first());
        lemma_lex_irreflexive(x.push(c).drop_first());
    } else {
        assert(x.push(c).drop_first() =~= x.drop_first().push(c));
        assert(y.push(d).drop_first() =~= y.drop_first().push(d));
        lemma_lex_push(x.drop_first(), y.drop_first(), c, d);
        if x[0] == y[0] && x.drop_first() == y.drop_first() {
            assert(x =~= seq![x[0]] + x.drop_first());
            assert(y =~= seq![y[0]] + y.drop_first());
        }
    }
}

proof fn lemma_be_push(n: nat, k: nat)
    requires
        k > 0,
    ensures
        be_bytes(n, k) == be_bytes(n / 256, (k - 1) as nat).push((n % 256) as u8),
{
    lemma_le_bytes_len(n / 256, (k - 1) as nat);
    assert(be_bytes(n, k) =~= be_bytes(n / 256, (k - 1) as nat).push((n % 256) as u8));
}

/// Numbers written most significant byte first are ordered as their bytes are.
pub proof fn lemma_be_bytes_are_ordered(a: nat, b: nat, k: nat)
    requires
        a < pow256(k),
        b < pow256(k),
    ensures
        lex_lt(be_bytes(a, k), be_bytes(b, k)) <==> a < b,
        be_bytes(a, k) == be_bytes(b, k) <==> a == b,
    decreases k,
{
    if k == 0 {
        lemma_lex_irreflexive(be_bytes(a, k));
    } else {
        let j = (k - 1) as nat;
        lemma_be_bytes_are_ordered(a / 256, b / 256, j);
        lemma_be_push(a, k);
        lemma_be_push(b, k);
        lemma_le_bytes_len(a / 256, j);
        lemma_le_bytes_len(b / 256, j);
        let x = be_bytes(a / 256, j);
        let y = be_bytes(b / 256, j);
        lemma_lex_push(x, y, (a % 256) as u8, (b % 256) as u8);
        lemma_le_round_trip(a, k);
        lemma_le_round_trip(b, k);
        lemma_le_bytes_len(a, k);
        lemma_le_bytes_len(b, k);
        assert(be_bytes(a, k).reverse() =~= le_bytes(a, k));
        assert(be_bytes(b, k).reverse() =~= le_bytes(b, k));
    }
}

/// What is written most significant byte first is read back.
pub proof fn lemma_be_round_trip(n: nat, k: nat)
    requires
        n < pow256(k),
    ensures
        be_bytes(n, k).len() == k,
        be_value(be_bytes(n, k)) == n,
{
    lemma_le_bytes_len(n, k);
    lemma_le_round_trip(n, k);
    assert(be_bytes(n, k).reverse() =~= le_bytes(n, k));
}

/// The bytes most significant first are those of the number they hold.
pub proof fn lemma_be_bytes_of_value(b: Seq<u8>)
    ensures
        be_bytes(be_value(b), b.len()) == b,
        be_value(b) < pow256(b.len()),
{
    lemma_le_bytes_of_value(b.reverse());
    lemma_le_value_bound(b.reverse());
    assert(b.reverse().reverse() =~= b);
}

/// The bytes of `bytes` from `from` up to `to`.
pub fn slice(bytes: &[u8], from: usize, to: usize) -> (r: Vec<u8>)
    requires
        from <= to <= bytes.len(),
    ensures
        r@ == bytes@.subrange(from as int, to as int),
{
    let mut out: Vec<u8> = Vec::new();
    let mut i: usize = from;
    while i < to
        invariant
            from <= i <= to <= bytes.len(),
            out@ == bytes@.subrange(from as int, i as int),
        decreases to - i,
    {
        out.push(bytes[i]);
        i = i + 1;
        assert(bytes@.subrange(from as int, i as int) =~= bytes@.subrange(
            from as int,
            i - 1,
        ).push(bytes@[i - 1]));
    }
    out
}

/// Appends `more` to `out`.
pub fn append(out: &mut Vec<u8>, more: &[u8])
    ensures
        final(out)@ == old(out)@ + more@,
{
    let ghost before = out@;
    let mut i: usize = 0;
    assert(out@ =~= before + more@.take(0));
    while i < more.len()
        invariant
            i <= more.len(),
            out@ == before + more@.take(i as int),
        decreases more.len() - i,
    {
        out.push(more[i]);
        i = i + 1;
        assert(out@ =~= before + more@.take(i as int));
    }
    assert(more@.take(i as int) =~= more@);
}

/// The lowest `k` bytes of `n`, least significant byte first.
pub fn to_le(n: u64, k: usize) -> (r: Vec<u8>)
    ensures
        r@ == le_bytes(n as nat, k as nat),
        r@.len() == k,
{
    let mut out: Vec<u8> = Vec::new();
    let mut m: u64 = n;
    let mut i: usize = 0;
    assert(out@ + le_bytes(m as nat, k as nat) =~= le_bytes(n as nat, k as nat));
    while i < k
        invariant
            i <= k,
            out@.len() == i,
            out@ + le_bytes(m as nat, (k - i) as nat) == le_bytes(n as nat, k as nat),
        decreases k - i,
    {
        let low: u8 = (m % 256) as u8;
        let ghost before = out@;
        out.push(low);
        proof {
            let rest = le_bytes(m as nat / 256, (k - i - 1) as nat);
            assert(le_bytes(m as nat, (k - i) as nat) == seq![low] + rest);
            assert(out@ + rest =~= before + (seq![low] + rest));
        }
        m = m / 256;
        i = i + 1;
    }
    assert(out@ =~= out@ + le_bytes(m as nat, 0));
    out
}

/// The number that up to eight bytes hold, least significant byte first.
pub fn from_le(b: &[u8]) -> (r: u64)
    requires
        b.len() <= 8,
    ensures
        r == le_value(b@),
{
    let mut i: usize = b.len();
    let mut acc: u64 = 0;
    while i > 0
        invariant
            i <= b.len() <= 8,
            acc == le_value(b@.skip(i as int)),
        decreases i,
    {
        proof {
            lemma_le_value_bound(b@.skip(i - 1));
            lemma_pow256_grows((b@.len() - (i - 1)) as nat, 8);
            lemma_pow256_values();
            assert(b@.skip(i - 1).drop_first() =~= b@.skip(i as int));
        }
        i = i - 1;
        acc = b[i] as u64 + 256 * acc;
    }
    assert(b@.skip(0) =~= b@);
    acc
}

fn reversed(b: &[u8]) -> (r: Vec<u8>)
    ensures
        r@ == b@.reverse(),
{
    let mut out: Vec<u8> = Vec::new();
    let mut i: usize = b.len();
    while i > 0
        invariant
            i <= b.len(),
            out@.len() == b.len() - i,
            forall|j: int| 0 <= j < out@.len() ==> out@[j] == b@[b.len() - 1 - j],
        decreases i,
    {
        i = i - 1;
        out.push(b[i]);
    }
    assert(out@ =~= b@.reverse());
    out
}

/// The eight bytes of `n`, most significant byte first.
pub fn to_be(n: u64) -> (r: Vec<u8>)
    ensures
        r@ == be_bytes(n as nat, 8),
        r@.len() == 8,
{
    let le = to_le(n, 8);
    reversed(le.as_slice())
}

/// The number that up to eight bytes hold, most significant byte first.
pub fn from_be(b: &[u8]) -> (r: u64)
    requires
        b.len() <= 8,
    ensures
        r == be_value(b@),
{
    let le = reversed(b);
    from_le(le.as_slice())
}

/// The signed number that 64 bits stand for.
pub fn to_signed(n: u64) -> (r: i64)
    ensures
        r == signed(n as nat),
{
    if n < 0x8000_0000_0000_0000 {
        n as i64
    } else {
        -1 - ((0xffff_ffff_ffff_ffff - n) as i64)
    }
}

/// The 64 bits that stand for a signed number.
pub fn to_unsigned(n: i64) -> (r: u64)
    ensures
        r == unsigned64(n as int),
{
    if n >= 0 {
        n as u64
    } else {
        0xffff_ffff_ffff_ffff - ((-1 - n) as u64)
    }
}

/// What a byte weighs: 256 times as much as the byte on the side of the least
/// significant one, which comes first in one order and last in the other.
pub proof fn law_bytes_weigh_by_place(a: u8, b: u8, c: u8, d: u8, rest: Seq<u8>)
    ensures
        le_value(Seq::empty()) == 0,
        le_value(seq![a] + rest) == a + 256 * le_value(rest),
        be_value(rest.push(a)) == a + 256 * be_value(rest),
        le_value(seq![a, b, c, d]) == a + 0x100 * b + 0x10000 * c + 0x1000000 * d,
        be_value(seq![a, b, c, d]) == d + 0x100 * c + 0x10000 * b + 0x1000000 * a,
        le_value(rest.push(0)) == le_value(rest),
{
    reveal_with_fuel(le_value, 5);
    assert((seq![a] + rest).drop_first() =~= rest);
    assert(rest.push(a).reverse() =~= seq![a] + rest.reverse());
    assert((seq![a] + rest.reverse()).drop_first() =~= rest.reverse());
    lemma_four_bytes(a, b, c, d);
    assert(seq![a, b, c, d].reverse() =~= seq![d, c, b, a]);
    lemma_four_bytes(d, c, b, a);
    lemma_zero_on_top(rest);
}

proof fn lemma_four_bytes(a: u8, b: u8, c: u8, d: u8)
    ensures
        le_value(seq![a, b, c, d]) == a + 0x100 * b + 0x10000 * c + 0x1000000 * d,
{
    reveal_with_fuel(le_value, 5);
    assert(seq![a, b, c, d].drop_first() =~= seq![b, c, d]);
    assert(seq![b, c, d].drop_first() =~= seq![c, d]);
    assert(seq![c, d].drop_first() =~= seq![d]);
    assert(seq![d].drop_first() =~= Seq::<u8>::empty());
}

proof fn lemma_zero_on_top(b: Seq<u8>)
    ensures
        le_value(b.push(0)) == le_value(b),
    decreases b.len(),
{
    if b.len() == 0 {
        assert(b.push(0).drop_first() =~= Seq::<u8>::empty());
        assert(le_value(Seq::<u8>::empty()) == 0);
    } else {
        assert(b.push(0)[0] == b[0]);
        assert(b.push(0).drop_first() =~= b.drop_first().push(0));
        lemma_zero_on_top(b.drop_first());
    }
}

/// A signed number and the 64 bits that stand for it give each other back, and
/// a number that is not negative stands for itself.
pub proof fn law_signs_are_read_back(n: i64, bits: u64)
    ensures
        signed(unsigned64(n as int)) == n,
        unsigned64(signed(bits as nat)) == bits,
        n >= 0 ==> unsigned64(n as int) == n,
        n < 0 ==> unsigned64(n as int) == n + 0x1_0000_0000_0000_0000,
        i64::MIN <= signed(bits as nat) <= i64::MAX,
{
}

} // verus!
