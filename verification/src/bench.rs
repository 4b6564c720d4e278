//! The measurement harness: synthetic corpora and queries, and its arguments.

use vstd::prelude::*;
use vstd::string::StringExecFns;

use crate::number::{decimal, format_u64, number_in, parse_at_most};
use crate::order::same_text;
use crate::text::texts;

verus! {

/// Base roots composed into a realistic synthetic vocabulary.
pub const ROOTS: [&'static str; 34] = [
    "estate", "vector", "recall", "storage", "upgrade", "migration", "tokio", "signal", "daemon",
    "reranker", "network", "graph", "memory", "agent", "mesh", "warp", "connector", "drive",
    "mailbox", "index", "shard", "batch", "trend", "shape", "tag", "readiness", "reason", "flow",
    "hybrid", "lexical", "cosine", "fusion", "ingest", "backpressure",
];

/// How many distinct words the vocabulary has.
pub const VOCAB_SIZE: u64 = 8192;

/// The next state of the generator.
pub open spec fn xorshift_of(x: u64) -> u64 {
    let a = x ^ (x << 13);
    let b = a ^ (a >> 7);
    b ^ (b << 17)
}

/// Steps the generator, and returns its new state.
pub fn xorshift(x: &mut u64) -> (r: u64)
    ensures
        *final(x) == xorshift_of(*old(x)),
        r == *final(x),
{
    let a: u64 = *x ^ (*x << 13);
    let b: u64 = a ^ (a >> 7);
    *x = b ^ (b << 17);
    *x
}

/// The generator never falls to zero, where it would stay, and it goes back to
/// no state from two.
pub proof fn law_generator_does_not_collapse(x: u64, y: u64)
    ensures
        x != 0 ==> xorshift_of(x) != 0,
        xorshift_of(x) == xorshift_of(y) ==> x == y,
{
    assert(x != 0 ==> ({
        let a = x ^ (x << 13);
        let b = a ^ (a >> 7);
        (b ^ (b << 17)) != 0
    })) by (bit_vector);
    lemma_shift_left_13(x, y);
    let a = x ^ (x << 13);
    let c = y ^ (y << 13);
    lemma_shift_right_7(a, c);
    let b = a ^ (a >> 7);
    let d = c ^ (c >> 7);
    lemma_shift_left_17(b, d);
}

proof fn lemma_shift_left_13(x: u64, y: u64)
    by (bit_vector)
    ensures
        x ^ (x << 13) == y ^ (y << 13) ==> x == y,
{
}

proof fn lemma_shift_right_7(x: u64, y: u64)
    by (bit_vector)
    ensures
        x ^ (x >> 7) == y ^ (y >> 7) ==> x == y,
{
}

proof fn lemma_shift_left_17(x: u64, y: u64)
    by (bit_vector)
    ensures
        x ^ (x << 17) == y ^ (y << 17) ==> x == y,
{
}

/// The suffix of a term for a draw of `n` in a thousand: the square of that
/// fraction, scaled to the words that a root has, so that low suffixes are much
/// more common.
pub open spec fn suffix_of(n: nat) -> nat {
    (VOCAB_SIZE as nat) * n * n / (34 * 1_000_000)
}

/// The term that is drawn from a state.
pub open spec fn term_from(seed: u64) -> Seq<char> {
    let first = xorshift_of(seed);
    let second = xorshift_of(first);
    ROOTS@[(first % 34) as int]@ + decimal(suffix_of((second % 1000) as nat))
}

/// The state after a term was drawn.
pub open spec fn after_term(seed: u64) -> u64 {
    xorshift_of(xorshift_of(seed))
}

/// Draws one term: a root with a suffix, low suffixes being much more common.
pub fn synth_term(seed: &mut u64) -> (r: String)
    ensures
        r@ == term_from(*old(seed)),
        *final(seed) == after_term(*old(seed)),
{
    let first: u64 = xorshift(seed);
    let root = ROOTS[(first % 34) as usize];
    let n: u64 = xorshift(seed) % 1000;
    assert(8192 * n * n <= 8192 * 999 * 999) by (nonlinear_arith)
        requires
            n <= 999,
    ;
    let suffix: u64 = VOCAB_SIZE * n * n / 34_000_000;
    let mut out = root.to_string();
    let digits = format_u64(suffix);
    out.append(digits.as_str());
    out
}

/// The terms that are drawn from a state, joined by spaces.
pub open spec fn words_from(seed: u64, n: nat) -> Seq<char>
    decreases n,
{
    if n == 0 {
        seq![]
    } else if n == 1 {
        term_from(seed)
    } else {
        words_from(seed, (n - 1) as nat) + " "@ + term_from(after_terms(seed, (n - 1) as nat))
    }
}

/// The state after terms were drawn.
pub open spec fn after_terms(seed: u64, n: nat) -> u64
    decreases n,
{
    if n == 0 {
        seed
    } else {
        after_term(after_terms(seed, (n - 1) as nat))
    }
}

fn words(seed: &mut u64, n: usize) -> (r: String)
    ensures
        r@ == words_from(*old(seed), n as nat),
        *final(seed) == after_terms(*old(seed), n as nat),
{
    let ghost start = *seed;
    let mut out = String::new();
    let mut i: usize = 0;
    assert(out@ =~= words_from(start, 0));
    while i < n
        invariant
            i <= n,
            out@ == words_from(start, i as nat),
            *seed == after_terms(start, i as nat),
        decreases n - i,
    {
        if i > 0 {
            out.append(" ");
        }
        let ghost so_far = out@;
        let t = synth_term(seed);
        out.append(t.as_str());
        proof {
            if i == 0 {
                assert(so_far =~= Seq::<char>::empty());
                assert(out@ =~= term_from(start));
            } else {
                assert(out@ =~= words_from(start, i as nat) + " "@ + t@);
            }
        }
        i = i + 1;
    }
    out
}

/// How many words a document drawn from a state has.
pub open spec fn doc_len(seed: u64) -> nat {
    (24 + xorshift_of(seed) % 40) as nat
}

/// How many words a query drawn from a state has.
pub open spec fn query_len(seed: u64) -> nat {
    (2 + xorshift_of(seed) % 3) as nat
}

/// Draws the `i`-th document: its id and its text.
pub fn synth_doc(i: usize, seed: &mut u64) -> (r: (String, String))
    ensures
        r.0@ == "doc-"@ + decimal(i as nat),
        r.1@ == words_from(xorshift_of(*old(seed)), doc_len(*old(seed))),
        *final(seed) == after_terms(xorshift_of(*old(seed)), doc_len(*old(seed))),
{
    let len: usize = 24 + (xorshift(seed) % 40) as usize;
    let text = words(seed, len);
    let mut id = "doc-".to_string();
    let digits = format_u64(i as u64);
    id.append(digits.as_str());
    (id, text)
}

/// Draws a query.
pub fn synth_query(seed: &mut u64) -> (r: String)
    ensures
        r@ == words_from(xorshift_of(*old(seed)), query_len(*old(seed))),
        *final(seed) == after_terms(xorshift_of(*old(seed)), query_len(*old(seed))),
{
    let len: usize = 2 + (xorshift(seed) % 3) as usize;
    words(seed, len)
}

// ---- arguments -----------------------------------------------------------------------

/// The argument behind the first one that is `name`.
pub open spec fn value_of(args: Seq<Seq<char>>, name: Seq<char>) -> Option<Seq<char>>
    decreases args.len(),
{
    if args.len() == 0 {
        None
    } else if args[0] == name {
        if args.len() > 1 {
            Some(args[1])
        } else {
            None
        }
    } else {
        value_of(args.drop_first(), name)
    }
}

fn find_value(args: &Vec<String>, name: &str) -> (r: Option<usize>)
    ensures
        match r {
            Some(i) => i < args.len() && value_of(texts(args@), name@) == Some(args@[i as int]@),
            None => value_of(texts(args@), name@) is None,
        },
{
    let ghost all = texts(args@);
    let mut i: usize = 0;
    assert(all.skip(0) =~= all);
    while i < args.len()
        invariant
            i <= args.len(),
            all == texts(args@),
            value_of(all, name@) == value_of(all.skip(i as int), name@),
        decreases args.len() - i,
    {
        let ghost here = all.skip(i as int);
        assert(here[0] == args@[i as int]@);
        if same_text(args[i].as_str(), name) {
            if i + 1 < args.len() {
                assert(here[1] == args@[i + 1]@);
                return Some(i + 1);
            }
            return None;
        }
        assert(here.drop_first() =~= all.skip(i + 1));
        i = i + 1;
    }
    None
}

/// The number behind `name` among the arguments; the default where there is
/// none, or what stands there is no number.
pub fn arg(args: &Vec<String>, name: &str, default: usize) -> (r: usize)
    ensures
        r == (match value_of(texts(args@), name@) {
            Some(v) => match number_in(v, usize::MAX as nat) {
                Some(n) => n as usize,
                None => default,
            },
            None => default,
        }),
{
    match find_value(args, name) {
        None => default,
        Some(i) => match parse_at_most(args[i].as_str(), usize::MAX as u64) {
            Some(n) => n as usize,
            None => default,
        },
    }
}

/// The text behind `name` among the arguments; the default where there is none.
pub fn arg_str(args: &Vec<String>, name: &str, default: &str) -> (r: String)
    ensures
        r@ == (match value_of(texts(args@), name@) {
            Some(v) => v,
            None => default@,
        }),
{
    match find_value(args, name) {
        None => default.to_string(),
        Some(i) => args[i].clone(),
    }
}

// ---- laws ----------------------------------------------------------------------------

/// An argument's value is what stands right behind the first argument with its
/// name, the one at `i`; there is none where nothing stands behind it, or where
/// no argument has the name.
pub proof fn law_values_stand_behind_their_names(args: Seq<Seq<char>>, name: Seq<char>, i: int)
    requires
        0 <= i <= args.len(),
        i < args.len() ==> args[i] == name,
        forall|j: int| 0 <= j < i ==> #[trigger] args[j] != name,
    ensures
        i + 1 < args.len() ==> value_of(args, name) == Some(args[i + 1]),
        i + 1 >= args.len() ==> value_of(args, name) is None,
    decreases args.len(),
{
    if args.len() > 0 && i > 0 {
        let rest = args.drop_first();
        assert(args[0] != name);
        assert forall|j: int| 0 <= j < i - 1 implies #[trigger] rest[j] != name by {
            assert(args[j + 1] != name);
        }
        law_values_stand_behind_their_names(rest, name, i - 1);
    }
}

/// A document has from 24 to 63 words, a query from two to four.
pub proof fn law_texts_have_their_lengths(seed: u64)
    ensures
        24 <= doc_len(seed) <= 63,
        2 <= query_len(seed) <= 4,
{
}

/// A term is a root and a number, and the number is below 241: it grows with
/// the draw, from zero to the words that a root has.
pub proof fn law_suffixes_are_small_and_grow(a: nat, b: nat)
    requires
        a <= b <= 999,
    ensures
        suffix_of(a) <= suffix_of(b) <= 240,
        suffix_of(0) == 0,
        34_000_000 * suffix_of(a) <= 8192 * (a * a) < 34_000_000 * (suffix_of(a) + 1),
{
    assert(a * a <= b * b && b * b <= 999 * 999) by (nonlinear_arith)
        requires
            a <= b <= 999,
    ;
    assert(8192 * a * a == 8192 * (a * a)) by (nonlinear_arith);
    assert(8192 * b * b == 8192 * (b * b)) by (nonlinear_arith);
    let x = 8192 * (a * a);
    let y = 8192 * (b * b);
    assert(x <= y <= 8192 * 998_001);
    assert(suffix_of(a) == x / 34_000_000 && suffix_of(b) == y / 34_000_000);
    assert(x / 34_000_000 <= y / 34_000_000 <= 240);
}

/// A term begins with one of the roots, and what follows is a number.
pub proof fn law_terms_are_roots_with_numbers(seed: u64)
    ensures
        exists|r: int, n: nat|
            0 <= r < 34 && n <= 240 && term_from(seed) == #[trigger] ROOTS@[r]@ + #[trigger] decimal(n),
{
    let first = xorshift_of(seed);
    let second = xorshift_of(first);
    let r = (first % 34) as int;
    let n = suffix_of((second % 1000) as nat);
    law_suffixes_are_small_and_grow((second % 1000) as nat, 999);
    assert(suffix_of((second % 1000) as nat) <= 240);
    assert(term_from(seed) == ROOTS@[r]@ + decimal(n));
}

/// A text of terms is that of the first ones, a space, and that of the others,
/// which are drawn from where the first ones left the generator.
pub proof fn law_texts_are_drawn_term_by_term(seed: u64, a: nat, b: nat)
    requires
        a > 0,
        b > 0,
    ensures
        words_from(seed, 0).len() == 0,
        words_from(seed, 1) == term_from(seed),
        words_from(seed, a + b) == words_from(seed, a) + seq![' '] + words_from(
            after_terms(seed, a),
            b,
        ),
        after_terms(seed, a + b) == after_terms(after_terms(seed, a), b),
        after_terms(seed, 1) == xorshift_of(xorshift_of(seed)),
    decreases b,
{
    reveal_strlit(" ");
    reveal_with_fuel(words_from, 2);
    reveal_with_fuel(after_terms, 2);
    assert(" "@ =~= seq![' ']);
    if b == 1 {
        assert((a + b - 1) as nat == a);
        assert(after_terms(seed, a + 1) == after_term(after_terms(seed, a)));
        assert(after_terms(after_terms(seed, a), 1) == after_term(after_terms(seed, a)));
    } else {
        let c = (b - 1) as nat;
        law_texts_are_drawn_term_by_term(seed, a, c);
        assert((a + b - 1) as nat == a + c);
        assert(words_from(seed, a + b) == words_from(seed, a + c) + " "@ + term_from(
            after_terms(seed, a + c),
        ));
        let from = after_terms(seed, a);
        assert(words_from(from, b) == words_from(from, c) + " "@ + term_from(
            after_terms(from, c),
        ));
        assert(words_from(seed, a + b) =~= words_from(seed, a) + seq![' '] + words_from(from, b));
        assert(after_terms(seed, a + b) == after_term(after_terms(seed, a + c)));
        assert(after_terms(from, b) == after_term(after_terms(from, c)));
    }
}

/// The generator's step takes the bits of a state one by one: those of two
/// states together give what each gives. The bits of a small state come out at
/// the places to which the three shifts bring them.
pub proof fn law_generator_steps_bit_by_bit(x: u64, y: u64)
    ensures
        xorshift_of(x ^ y) == xorshift_of(x) ^ xorshift_of(y),
        x < 16 ==> xorshift_of(x) == x * 8257 * 131073,
{
    assert(({
        let a = (x ^ y) ^ ((x ^ y) << 13);
        let b = a ^ (a >> 7);
        b ^ (b << 17)
    }) == ({
        let a = x ^ (x << 13);
        let b = a ^ (a >> 7);
        b ^ (b << 17)
    }) ^ ({
        let a = y ^ (y << 13);
        let b = a ^ (a >> 7);
        b ^ (b << 17)
    })) by (bit_vector);
    assert(x < 16 ==> ({
        let a = x ^ (x << 13);
        let b = a ^ (a >> 7);
        b ^ (b << 17)
    }) == x * 8257 * 131073) by (bit_vector);
}

} // verus!
