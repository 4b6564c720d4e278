//! Byte-lexicographic order: the order in which a key/value store walks its
//! keys, and the order of strings by their UTF-8 bytes.

use vstd::prelude::*;
use vstd::utf8::*;

verus! {

/// How two byte strings relate in lexicographic order.
#[derive(Debug, Clone, Copy, PartialEq, Eq, Structural)]
pub enum Rel {
    Less,
    Equal,
    Greater,
}

/// `a` comes strictly before `b` in lexicographic byte order.
pub open spec fn lex_lt(a: Seq<u8>, b: Seq<u8>) -> bool
    decreases a.len(),
{
    if b.len() == 0 {
        false
    } else if a.len() == 0 {
        true
    } else if a[0] != b[0] {
        a[0] < b[0]
    } else {
        lex_lt(a.drop_first(), b.drop_first())
    }
}

/// `a` comes before `b` or is `b`.
pub open spec fn lex_le(a: Seq<u8>, b: Seq<u8>) -> bool {
    a == b || lex_lt(a, b)
}

/// `key` begins with `prefix`.
pub open spec fn has_prefix(key: Seq<u8>, prefix: Seq<u8>) -> bool {
    prefix.len() <= key.len() && key.take(prefix.len() as int) == prefix
}

/// String order: by the bytes of the UTF-8 encoding.
pub open spec fn str_lt(a: Seq<char>, b: Seq<char>) -> bool {
    lex_lt(encode_utf8(a), encode_utf8(b))
}

pub proof fn lemma_lex_irreflexive(a: Seq<u8>)
    ensures
        !lex_lt(a, a),
    decreases a.len(),
{
    if a.len() > 0 {
        lemma_lex_irreflexive(a.drop_first());
    }
}

pub proof fn lemma_lex_total(a: Seq<u8>, b: Seq<u8>)
    ensures
        a == b || lex_lt(a, b) || lex_lt(b, a),
    decreases a.len(),
{
    if a.len() == 0 {
        if b.len() == 0 {
            assert(a =~= b);
        }
    } else if b.len() > 0 && a[0] == b[0] {
        lemma_lex_total(a.drop_first(), b.drop_first());
        if a.drop_first() == b.drop_first() {
            assert(a =~= seq![a[0]] + a.drop_first());
            assert(b =~= seq![b[0]] + b.drop_first());
        }
    }
}

pub proof fn lemma_lex_asymmetric(a: Seq<u8>, b: Seq<u8>)
    requires
        lex_lt(a, b),
    ensures
        !lex_lt(b, a),
        a != b,
    decreases a.len(),
{
    lemma_lex_irreflexive(a);
    if a.len() > 0 && a[0] == b[0] {
        lemma_lex_asymmetric(a.drop_first(), b.drop_first());
    }
}

pub proof fn lemma_lex_transitive(a: Seq<u8>, b: Seq<u8>, c: Seq<u8>)
    requires
        lex_lt(a, b),
        lex_lt(b, c),
    ensures
        lex_lt(a, c),
    decreases a.len(),
{
    if a.len() > 0 && a[0] == b[0] && b[0] == c[0] {
        lemma_lex_transitive(a.drop_first(), b.drop_first(), c.drop_first());
    }
}

/// Keys that share a prefix lie together: whatever lies between the prefix
/// and a key that has it, has it too.
pub proof fn lemma_prefix_is_contiguous(prefix: Seq<u8>, mid: Seq<u8>, key: Seq<u8>)
    requires
        has_prefix(key, prefix),
        lex_le(prefix, mid),
        lex_le(mid, key),
    ensures
        has_prefix(mid, prefix),
    decreases prefix.len(),
{
    if mid == key {
    } else if prefix.len() == 0 {
        assert(mid.take(0) =~= prefix);
    } else if prefix == mid {
        assert(mid.take(prefix.len() as int) =~= prefix);
    } else {
        assert(key.take(prefix.len() as int)[0] == prefix[0]);
        assert(key[0] == prefix[0]);
        assert(mid.len() > 0);
        assert(mid[0] == prefix[0]);
        let p1 = prefix.drop_first();
        let m1 = mid.drop_first();
        let k1 = key.drop_first();
        assert(k1.take(p1.len() as int) =~= key.take(prefix.len() as int).drop_first());
        assert(has_prefix(k1, p1));
        lemma_prefix_is_contiguous(p1, m1, k1);
        assert(mid.take(prefix.len() as int) =~= prefix) by {
            assert(m1.take(p1.len() as int) == p1);
            assert forall|i: int| 0 <= i < prefix.len() implies mid[i] == prefix[i] by {
                if i > 0 {
                    assert(m1.take(p1.len() as int)[i - 1] == p1[i - 1]);
                }
            }
        }
    }
}

/// A prefix comes no later than any key that has it.
pub proof fn lemma_prefix_is_lower_bound(prefix: Seq<u8>, key: Seq<u8>)
    requires
        has_prefix(key, prefix),
    ensures
        lex_le(prefix, key),
    decreases prefix.len(),
{
    if prefix.len() == 0 {
        if key.len() == 0 {
            assert(prefix =~= key);
        }
    } else {
        assert(key.take(prefix.len() as int)[0] == prefix[0]);
        let p1 = prefix.drop_first();
        let k1 = key.drop_first();
        assert(k1.take(p1.len() as int) =~= key.take(prefix.len() as int).drop_first());
        lemma_prefix_is_lower_bound(p1, k1);
        if p1 == k1 {
            assert(prefix =~= seq![prefix[0]] + p1);
            assert(key =~= seq![key[0]] + k1);
        }
    }
}

/// Compares two byte strings.
pub fn relate_bytes(a: &[u8], b: &[u8]) -> (r: Rel)
    ensures
        r == Rel::Less <==> lex_lt(a@, b@),
        r == Rel::Equal <==> a@ == b@,
        r == Rel::Greater <==> lex_lt(b@, a@),
{
    let mut i: usize = 0;
    proof {
        assert(a@.skip(0) =~= a@);
        assert(b@.skip(0) =~= b@);
    }
    while i < a.len() && i < b.len()
        invariant
            i <= a.len(),
            i <= b.len(),
            a@.take(i as int) == b@.take(i as int),
            lex_lt(a@, b@) == lex_lt(a@.skip(i as int), b@.skip(i as int)),
            lex_lt(b@, a@) == lex_lt(b@.skip(i as int), a@.skip(i as int)),
        decreases a.len() - i,
    {
        let x: u8 = a[i];
        let y: u8 = b[i];
        assert(a@.skip(i as int)[0] == x);
        assert(b@.skip(i as int)[0] == y);
        if x < y {
            proof {
                lemma_lex_asymmetric(a@, b@);
            }
            return Rel::Less;
        }
        if y < x {
            proof {
                lemma_lex_asymmetric(b@, a@);
            }
            return Rel::Greater;
        }
        proof {
            assert(a@.skip(i as int).drop_first() =~= a@.skip(i + 1));
            assert(b@.skip(i as int).drop_first() =~= b@.skip(i + 1));
            assert(a@.take(i + 1) =~= a@.take(i as int).push(x));
            assert(b@.take(i + 1) =~= b@.take(i as int).push(y));
        }
        i = i + 1;
    }
    if i < b.len() {
        proof {
            lemma_lex_asymmetric(a@, b@);
        }
        Rel::Less
    } else if i < a.len() {
        proof {
            lemma_lex_asymmetric(b@, a@);
        }
        Rel::Greater
    } else {
        proof {
            assert(a@ =~= a@.take(i as int));
            assert(b@ =~= b@.take(i as int));
            lemma_lex_irreflexive(a@);
        }
        Rel::Equal
    }
}

/// Whether `key` begins with `prefix`.
pub fn starts_with(key: &[u8], prefix: &[u8]) -> (r: bool)
    ensures
        r == has_prefix(key@, prefix@),
{
    if key.len() < prefix.len() {
        return false;
    }
    let mut i: usize = 0;
    while i < prefix.len()
        invariant
            i <= prefix.len() <= key.len(),
            forall|j: int| 0 <= j < i ==> key@[j] == prefix@[j],
        decreases prefix.len() - i,
    {
        if key[i] != prefix[i] {
            assert(key@.take(prefix@.len() as int)[i as int] != prefix@[i as int]);
            return false;
        }
        i = i + 1;
    }
    assert(key@.take(prefix@.len() as int) =~= prefix@);
    true
}

/// Compares two strings by their bytes.
pub fn relate_strs(a: &str, b: &str) -> (r: Rel)
    ensures
        r == Rel::Less <==> str_lt(a@, b@),
        r == Rel::Equal <==> a@ == b@,
        r == Rel::Greater <==> str_lt(b@, a@),
{
    proof {
        encode_utf8_decode_utf8(a@);
        encode_utf8_decode_utf8(b@);
    }
    relate_bytes(a.as_bytes(), b.as_bytes())
}

/// Whether two strings are the same.
pub fn same_text(a: &str, b: &str) -> (r: bool)
    ensures
        r == (a@ == b@),
{
    match relate_strs(a, b) {
        Rel::Equal => true,
        _ => false,
    }
}

pub proof fn lemma_str_total(a: Seq<char>, b: Seq<char>)
    ensures
        a == b || str_lt(a, b) || str_lt(b, a),
{
    encode_utf8_decode_utf8(a);
    encode_utf8_decode_utf8(b);
    lemma_lex_total(encode_utf8(a), encode_utf8(b));
}

/// Byte strings are ordered by the first byte in which they differ; one that is
/// the beginning of another comes before it.
pub proof fn law_first_difference_decides(p: Seq<u8>, x: u8, y: u8, a: Seq<u8>, b: Seq<u8>)
    ensures
        x < y ==> lex_lt(p.push(x) + a, p.push(y) + b),
        x < y ==> !lex_lt(p.push(y) + b, p.push(x) + a),
        lex_lt(p, p.push(x) + a),
        !lex_lt(p.push(x) + a, p),
        !lex_lt(p, p),
    decreases p.len(),
{
    lemma_lex_irreflexive(p);
    let l = p.push(x) + a;
    let r = p.push(y) + b;
    if p.len() > 0 {
        let q = p.drop_first();
        law_first_difference_decides(q, x, y, a, b);
        assert(l.drop_first() =~= q.push(x) + a);
        assert(r.drop_first() =~= q.push(y) + b);
    } else {
        assert(l[0] == x && r[0] == y);
    }
    if x < y {
        lemma_lex_asymmetric(l, r);
    }
    lemma_lex_asymmetric(p, l);
}

/// A key begins with a prefix just where it is the prefix and something more.
pub proof fn law_prefixes_are_beginnings(key: Seq<u8>, prefix: Seq<u8>)
    ensures
        has_prefix(key, prefix) <==> exists|rest: Seq<u8>| key == #[trigger] (prefix + rest),
{
    if has_prefix(key, prefix) {
        let rest = key.skip(prefix.len() as int);
        assert(key =~= prefix + rest);
    }
    if exists|rest: Seq<u8>| key == #[trigger] (prefix + rest) {
        let rest = choose|rest: Seq<u8>| key == #[trigger] (prefix + rest);
        assert(key.take(prefix.len() as int) =~= prefix);
    }
}

} // verus!
