//! Minimal text utilities shared across components.
//!
//! Deliberately simple and stable: the default (weightless) components agree
//! here on what a "token" is.

use vstd::prelude::*;
use vstd::utf8::{
    decode_utf8, encode_utf8, encode_utf8_decode_utf8, encode_utf8_valid_utf8, valid_utf8,
};

use crate::order::{relate_strs, Rel};

verus! {

// ---- what the standard library says of characters and strings --------------

/// `c` is an ASCII character.
pub open spec fn ascii(c: char) -> bool {
    c as int <= 0x7f
}

/// `c` is one of the ASCII letters and digits.
pub open spec fn ascii_letter_or_digit(c: char) -> bool {
    '0' as int <= c as int <= '9' as int || 'A' as int <= c as int <= 'Z' as int || 'a' as int
        <= c as int <= 'z' as int
}

/// Whether the Unicode tables call `c` alphabetic or numeric, beyond ASCII.
pub uninterp spec fn wide_alphanumeric(c: char) -> bool;

/// `c` is alphabetic or numeric.
pub open spec fn alphanumeric(c: char) -> bool {
    if ascii(c) {
        ascii_letter_or_digit(c)
    } else {
        wide_alphanumeric(c)
    }
}

/// `char::is_alphanumeric`: whether a character is alphabetic or numeric. Of
/// the ASCII characters the letters and the digits are; of the others it
/// depends on the character alone.
pub assume_specification[ char::is_alphanumeric ](c: char) -> (r: bool)
    ensures
        ascii(c) ==> r == ascii_letter_or_digit(c),
        !ascii(c) ==> r == wide_alphanumeric(c),
;

/// `c` has the Unicode property White_Space.
pub open spec fn whitespace(c: char) -> bool {
    let n = c as int;
    ||| 0x09 <= n <= 0x0d
    ||| n == 0x20
    ||| n == 0x85
    ||| n == 0xa0
    ||| n == 0x1680
    ||| 0x2000 <= n <= 0x200a
    ||| n == 0x2028
    ||| n == 0x2029
    ||| n == 0x202f
    ||| n == 0x205f
    ||| n == 0x3000
}

/// `char::is_whitespace`: whether a character has the Unicode property
/// White_Space, which a fixed set of characters has.
pub assume_specification[ char::is_whitespace ](c: char) -> (r: bool)
    ensures
        r == whitespace(c),
;

/// All characters of a text are ASCII characters.
pub open spec fn all_ascii(s: Seq<char>) -> bool {
    forall|i: int| 0 <= i < s.len() ==> ascii(#[trigger] s[i])
}

/// The character with an ASCII capital made small.
pub open spec fn ascii_lower(c: char) -> char {
    if 'A' as int <= c as int <= 'Z' as int {
        (c as int + 32) as char
    } else {
        c
    }
}

/// The text with its ASCII capitals made small.
pub open spec fn ascii_lowercase(s: Seq<char>) -> Seq<char> {
    s.map_values(|c: char| ascii_lower(c))
}

/// The lowercase equivalent of a text that is not all ASCII.
pub uninterp spec fn wide_lowercase(s: Seq<char>) -> Seq<char>;

/// The lowercase equivalent of a text.
pub open spec fn lowercase(s: Seq<char>) -> Seq<char> {
    if all_ascii(s) {
        ascii_lowercase(s)
    } else {
        wide_lowercase(s)
    }
}

/// `str::to_lowercase`: the lowercase equivalent of a string. In a string of
/// ASCII characters the capitals become small and nothing else changes;
/// otherwise the result depends on the string alone.
pub assume_specification[ str::to_lowercase ](s: &str) -> (r: String)
    ensures
        all_ascii(s@) ==> r@ == ascii_lowercase(s@),
        !all_ascii(s@) ==> r@ == wide_lowercase(s@),
;

/// `String::push` appends one character at the end.
pub assume_specification[ String::push ](s: &mut String, c: char)
    ensures
        final(s)@ == old(s)@.push(c),
;

/// The text that `bytes` hold, with a replacement for what is no UTF-8.
pub uninterp spec fn repaired_text(bytes: Seq<u8>) -> Seq<char>;

/// The text that `bytes` hold: what they encode, and a repaired text where
/// they are no UTF-8.
pub open spec fn lossy_text(bytes: Seq<u8>) -> Seq<char> {
    if valid_utf8(bytes) {
        decode_utf8(bytes)
    } else {
        repaired_text(bytes)
    }
}

/// `String::from_utf8_lossy`: the text of bytes, where every sequence that is
/// no UTF-8 is replaced. Bytes that are UTF-8 throughout give the text that
/// they encode; otherwise the result depends on the bytes alone.
#[verifier::external_body]
pub(crate) fn text_of_bytes(bytes: &[u8]) -> (r: String)
    ensures
        valid_utf8(bytes@) ==> r@ == decode_utf8(bytes@),
        !valid_utf8(bytes@) ==> r@ == repaired_text(bytes@),
{
    String::from_utf8_lossy(bytes).into_owned()
}

// ---- characters and strings --------------------------------------------------

/// The texts of a list of strings.
pub open spec fn texts(v: Seq<String>) -> Seq<Seq<char>> {
    v.map_values(|s: String| s@)
}

/// The characters of `text`.
pub fn chars_of(text: &str) -> (r: Vec<char>)
    ensures
        r@ == text@,
{
    let mut out: Vec<char> = Vec::new();
    for c in it: text.chars()
        invariant
            out@ =~= it.seq().take(it.index() as int),
            it.seq() == text@,
    {
        out.push(c);
    }
    assert(text@.take(text@.len() as int) =~= text@);
    out
}

/// The string that holds `chars`.
pub fn string_from_chars(chars: &Vec<char>) -> (r: String)
    ensures
        r@ == chars@,
{
    let mut out = String::new();
    let mut i: usize = 0;
    while i < chars.len()
        invariant
            i <= chars.len(),
            out@ == chars@.take(i as int),
        decreases chars.len() - i,
    {
        out.push(chars[i]);
        assert(chars@.take(i + 1) =~= chars@.take(i as int).push(chars@[i as int]));
        i = i + 1;
    }
    assert(chars@.take(i as int) =~= chars@);
    out
}

// ---- tokens ------------------------------------------------------------------

/// How many leading characters are kept in a row.
pub open spec fn run_len(keep: Seq<bool>) -> nat
    decreases keep.len(),
{
    if keep.len() > 0 && keep[0] {
        1 + run_len(keep.drop_first())
    } else {
        0
    }
}

/// The maximal runs of kept characters, in order: `keep[i]` says whether
/// `text[i]` is part of a run.
pub open spec fn runs(text: Seq<char>, keep: Seq<bool>) -> Seq<Seq<char>>
    decreases keep.len(),
{
    if keep.len() == 0 {
        seq![]
    } else if !keep[0] {
        runs(text.drop_first(), keep.drop_first())
    } else {
        let n = run_len(keep) as int;
        proof {
            lemma_run_bound(keep);
        }
        seq![text.take(n)] + runs(text.skip(n), keep.skip(n))
    }
}

/// Which characters of `text` are alphanumeric.
pub open spec fn alphanumeric_mask(text: Seq<char>) -> Seq<bool> {
    text.map_values(|c: char| alphanumeric(c))
}

/// The maximal runs of alphanumeric characters of `text`, in order.
pub open spec fn alphanumeric_runs(text: Seq<char>) -> Seq<Seq<char>> {
    runs(text, alphanumeric_mask(text))
}

/// The tokens of `text`: the alphanumeric runs of its lowercase equivalent.
pub open spec fn tokens(text: Seq<char>) -> Seq<Seq<char>> {
    alphanumeric_runs(lowercase(text))
}

/// The tokens of `text` that are no stopwords.
pub open spec fn content(text: Seq<char>) -> Seq<Seq<char>> {
    tokens(text).filter(|t: Seq<char>| !stopword(t))
}

/// A run at the front ends where the first character is dropped.
proof fn lemma_run_then_gap(text: Seq<char>, keep: Seq<bool>, n: int)
    requires
        text.len() == keep.len(),
        0 <= n < keep.len(),
        forall|i: int| 0 <= i < n ==> keep[i],
        !keep[n],
    ensures
        run_len(keep) == n,
        runs(text, keep) == (if n == 0 {
            seq![]
        } else {
            seq![text.take(n)]
        }) + runs(text.skip(n + 1), keep.skip(n + 1)),
    decreases n,
{
    lemma_run_len(keep, n);
    if n == 0 {
        assert(text.drop_first() =~= text.skip(1));
        assert(keep.drop_first() =~= keep.skip(1));
        assert(runs(text, keep) =~= Seq::<Seq<char>>::empty() + runs(text.skip(1), keep.skip(1)));
    } else {
        assert(text.skip(n).drop_first() =~= text.skip(n + 1));
        assert(keep.skip(n).drop_first() =~= keep.skip(n + 1));
        assert(!keep.skip(n)[0]);
        assert(runs(text.skip(n), keep.skip(n)) == runs(text.skip(n + 1), keep.skip(n + 1)));
    }
}

proof fn lemma_run_len(keep: Seq<bool>, n: int)
    requires
        0 <= n <= keep.len(),
        forall|i: int| 0 <= i < n ==> keep[i],
        n == keep.len() || !keep[n],
    ensures
        run_len(keep) == n,
    decreases n,
{
    if n > 0 {
        assert forall|i: int| 0 <= i < n - 1 implies keep.drop_first()[i] by {
            assert(keep[i + 1]);
        }
        lemma_run_len(keep.drop_first(), n - 1);
    }
}

pub proof fn lemma_run_bound(keep: Seq<bool>)
    ensures
        run_len(keep) <= keep.len(),
        forall|i: int| 0 <= i < run_len(keep) ==> keep[i],
        run_len(keep) < keep.len() ==> !keep[run_len(keep) as int],
    decreases keep.len(),
{
    if keep.len() > 0 && keep[0] {
        lemma_run_bound(keep.drop_first());
        assert forall|i: int| 0 <= i < run_len(keep) implies keep[i] by {
            if i > 0 {
                assert(keep.drop_first()[i - 1]);
            }
        }
    }
}

/// No run is empty, and all that is in a run is kept.
proof fn lemma_runs_are_kept(text: Seq<char>, keep: Seq<bool>, p: spec_fn(char) -> bool)
    requires
        text.len() == keep.len(),
        forall|i: int| 0 <= i < keep.len() && #[trigger] keep[i] ==> p(text[i]),
    ensures
        forall|i: int|
            0 <= i < runs(text, keep).len() ==> all_of(#[trigger] runs(text, keep)[i], p),
    decreases keep.len(),
{
    if keep.len() == 0 {
    } else if !keep[0] {
        let t2 = text.drop_first();
        let k2 = keep.drop_first();
        assert forall|i: int| 0 <= i < k2.len() && #[trigger] k2[i] implies p(t2[i]) by {
            assert(keep[i + 1]);
        }
        lemma_runs_are_kept(t2, k2, p);
        assert(runs(text, keep) == runs(t2, k2));
    } else {
        let n = run_len(keep) as int;
        lemma_run_bound(keep);
        let t2 = text.skip(n);
        let k2 = keep.skip(n);
        assert forall|i: int| 0 <= i < k2.len() && #[trigger] k2[i] implies p(t2[i]) by {
            assert(keep[i + n]);
        }
        lemma_runs_are_kept(t2, k2, p);
        assert forall|i: int| 0 <= i < n implies p(#[trigger] text.take(n)[i]) by {
            assert(keep[i]);
        }
        assert forall|i: int| 0 <= i < runs(text, keep).len() implies all_of(
            #[trigger] runs(text, keep)[i],
            p,
        ) by {
            if i > 0 {
                assert(runs(text, keep)[i] == runs(t2, k2)[i - 1]);
            } else {
                assert(keep[0]);
                assert(runs(text, keep)[0] == text.take(n));
            }
        }
    }
}

/// The text is not empty, and all its characters are such.
pub open spec fn all_of(text: Seq<char>, p: spec_fn(char) -> bool) -> bool {
    text.len() > 0 && forall|j: int| 0 <= j < text.len() ==> p(#[trigger] text[j])
}

/// Splits `text` into its maximal runs of kept characters: `keep[i]` says
/// whether the character at `i` is part of a run.
pub fn split_runs(text: &Vec<char>, keep: &Vec<bool>) -> (r: Vec<String>)
    requires
        text@.len() == keep@.len(),
    ensures
        texts(r@) == runs(text@, keep@),
{
    let mut out: Vec<String> = Vec::new();
    let mut cur = String::new();
    let mut start: usize = 0;
    let mut i: usize = 0;
    proof {
        assert(text@.skip(0) =~= text@);
        assert(keep@.skip(0) =~= keep@);
        assert(texts(out@) + runs(text@, keep@) =~= runs(text@, keep@));
    }
    while i < text.len()
        invariant
            text@.len() == keep@.len(),
            start <= i <= text.len(),
            cur@ == text@.subrange(start as int, i as int),
            forall|j: int| start <= j < i ==> keep@[j],
            texts(out@) + runs(text@.skip(start as int), keep@.skip(start as int)) == runs(
                text@,
                keep@,
            ),
        decreases text.len() - i,
    {
        let ghost before = texts(out@);
        if keep[i] {
            cur.push(text[i]);
            assert(text@.subrange(start as int, i + 1) =~= text@.subrange(
                start as int,
                i as int,
            ).push(text@[i as int]));
        } else {
            proof {
                let ts = text@.skip(start as int);
                let ks = keep@.skip(start as int);
                let n = i - start;
                assert forall|j: int| 0 <= j < n implies ks[j] by {
                    assert(keep@[start + j]);
                }
                lemma_run_then_gap(ts, ks, n);
                assert(ts.take(n) =~= text@.subrange(start as int, i as int));
                assert(ts.skip(n + 1) =~= text@.skip(i + 1));
                assert(ks.skip(n + 1) =~= keep@.skip(i + 1));
            }
            if start < i {
                let ghost piece = cur;
                let ghost outs = out@;
                out.push(cur);
                proof {
                    assert(texts(out@) =~= before.push(piece@));
                    assert(before + (seq![piece@] + runs(text@.skip(i + 1), keep@.skip(i + 1)))
                        =~= texts(out@) + runs(text@.skip(i + 1), keep@.skip(i + 1)));
                }
            } else {
                assert(before + (Seq::<Seq<char>>::empty() + runs(
                    text@.skip(i + 1),
                    keep@.skip(i + 1),
                )) =~= before + runs(text@.skip(i + 1), keep@.skip(i + 1)));
            }
            cur = String::new();
            start = i + 1;
            assert(text@.subrange(start as int, start as int) =~= Seq::<char>::empty());
        }
        i = i + 1;
    }
    let ghost before = texts(out@);
    proof {
        let ts = text@.skip(start as int);
        let ks = keep@.skip(start as int);
        if start < i {
            assert forall|j: int| 0 <= j < ks.len() implies ks[j] by {
                assert(keep@[start + j]);
            }
            lemma_run_len(ks, ks.len() as int);
            assert(ts.take(ts.len() as int) =~= cur@);
            assert(runs(ts.skip(ts.len() as int), ks.skip(ks.len() as int)) =~= Seq::<
                Seq<char>,
            >::empty());
            assert(runs(ts, ks) =~= seq![cur@]);
        } else {
            assert(runs(ts, ks) =~= Seq::<Seq<char>>::empty());
            assert(before + Seq::<Seq<char>>::empty() =~= before);
        }
    }
    if start < i {
        let ghost piece = cur;
        out.push(cur);
        assert(texts(out@) =~= before.push(piece@));
        assert(before + seq![piece@] =~= before.push(piece@));
    }
    out
}

/// Lowercase the input and split it into alphanumeric tokens.
///
/// Runs of non-alphanumeric characters are separators. Empty tokens are
/// dropped. This is intentionally naive; it is a floor, not the model.
pub fn tokenize(text: &str) -> (r: Vec<String>)
    ensures
        texts(r@) == tokens(text@),
{
    let lower = text.to_lowercase();
    let chars = chars_of(lower.as_str());
    let mut keep: Vec<bool> = Vec::new();
    let mut i: usize = 0;
    while i < chars.len()
        invariant
            i <= chars.len(),
            keep@.len() == i,
            forall|j: int| 0 <= j < i ==> keep@[j] == alphanumeric(chars@[j]),
        decreases chars.len() - i,
    {
        keep.push(chars[i].is_alphanumeric());
        i = i + 1;
    }
    assert(keep@ =~= alphanumeric_mask(lower@));
    split_runs(&chars, &keep)
}

// ---- stopwords -----------------------------------------------------------------

/// A small English stopword set for the lexical fallbacks: articles,
/// conjunctions, prepositions, pronouns, and the question/command fillers that
/// pad natural-language queries ("how **do** I", "**tell** me **about**").
pub const STOPWORDS: [&'static str; 67] = [
    "a", "an", "and", "are", "as", "at", "be", "but", "by", "for", "if", "in", "into", "is", "it",
    "no", "not", "of", "on", "or", "such", "that", "the", "their", "then", "there", "these",
    "they", "this", "to", "was", "will", "with", "what", "how", "why", "when", "where", "who",
    // query/command fillers and pronouns
    "do", "does", "did", "i", "me", "my", "we", "our", "you", "your", "can", "could", "would",
    "should", "please", "tell", "about", "give", "show", "need", "want", "get", "got", "from",
    "than", "also", "just", "am",
];

/// `token` is in the stopword set.
pub open spec fn stopword(token: Seq<char>) -> bool {
    exists|i: int| 0 <= i < STOPWORDS@.len() && #[trigger] STOPWORDS@[i]@ == token
}

/// Whether `token` is a stopword.
pub fn is_stopword(token: &str) -> (r: bool)
    ensures
        r == stopword(token@),
{
    let words = STOPWORDS;
    let mut i: usize = 0;
    while i < words.len()
        invariant
            words == STOPWORDS,
            i <= words@.len(),
            forall|j: int| 0 <= j < i ==> #[trigger] STOPWORDS@[j]@ != token@,
        decreases words.len() - i,
    {
        match relate_strs(words[i], token) {
            Rel::Equal => {
                assert(STOPWORDS@[i as int]@ == token@);
                return true;
            },
            _ => {},
        }
        i = i + 1;
    }
    false
}

/// Drops the stopwords from a list of tokens.
pub fn drop_stopwords(tokens: Vec<String>) -> (r: Vec<String>)
    ensures
        texts(r@) == texts(tokens@).filter(|t: Seq<char>| !stopword(t)),
{
    let mut out: Vec<String> = Vec::new();
    let mut i: usize = 0;
    let ghost keep = |t: Seq<char>| !stopword(t);
    proof {
        assert(texts(tokens@).take(0) =~= Seq::<Seq<char>>::empty());
        assert(texts(out@) =~= Seq::<Seq<char>>::empty());
        reveal(Seq::filter);
    }
    while i < tokens.len()
        invariant
            i <= tokens.len(),
            keep == (|t: Seq<char>| !stopword(t)),
            texts(out@) == texts(tokens@).take(i as int).filter(keep),
        decreases tokens.len() - i,
    {
        proof {
            let pre = texts(tokens@).take(i as int);
            assert(texts(tokens@).take(i + 1) =~= pre.push(tokens@[i as int]@));
            lemma_filter_push(pre, tokens@[i as int]@, keep);
        }
        if !is_stopword(tokens[i].as_str()) {
            let ghost before = texts(out@);
            out.push(tokens[i].clone());
            assert(texts(out@) =~= before.push(tokens@[i as int]@));
        }
        i = i + 1;
    }
    assert(texts(tokens@).take(i as int) =~= texts(tokens@));
    out
}

pub proof fn lemma_filter_push<A>(s: Seq<A>, x: A, keep: spec_fn(A) -> bool)
    ensures
        s.push(x).filter(keep) == (if keep(x) {
            s.filter(keep).push(x)
        } else {
            s.filter(keep)
        }),
{
    reveal(Seq::filter);
    assert(s.push(x).drop_last() =~= s);
}

/// Tokenize and drop stopwords — the "content" tokens of a string.
pub fn content_tokens(text: &str) -> (r: Vec<String>)
    ensures
        texts(r@) == content(text@),
{
    drop_stopwords(tokenize(text))
}

/// The content tokens of a text are those of its tokens that are no
/// stopwords: none is a stopword, and none comes from elsewhere.
pub proof fn law_content_tokens_are_tokens_without_stopwords(text: Seq<char>, t: Seq<char>)
    ensures
        content(text).contains(t) <==> tokens(text).contains(t) && !stopword(t),
{
    let keep = |t: Seq<char>| !stopword(t);
    lemma_filter_contains(tokens(text), t, keep);
}

pub proof fn lemma_filter_contains<A>(s: Seq<A>, x: A, keep: spec_fn(A) -> bool)
    ensures
        s.filter(keep).contains(x) <==> s.contains(x) && keep(x),
    decreases s.len(),
{
    reveal(Seq::filter);
    if s.len() > 0 {
        let rest = s.drop_last();
        lemma_filter_contains(rest, x, keep);
        assert(s =~= rest.push(s.last()));
        lemma_filter_push(rest, s.last(), keep);
        if s.contains(x) && x != s.last() {
            let i = choose|i: int| 0 <= i < s.len() && s[i] == x;
            assert(rest[i] == x);
        }
        if rest.contains(x) {
            let i = choose|i: int| 0 <= i < rest.len() && rest[i] == x;
            assert(s[i] == x);
        }
        assert(s[s.len() - 1] == s.last());
        if keep(s.last()) {
            let f = rest.filter(keep);
            if f.contains(x) {
                let i = choose|i: int| 0 <= i < f.len() && f[i] == x;
                assert(f.push(s.last())[i] == x);
            }
            assert(f.push(s.last())[f.len() as int] == s.last());
            if f.push(s.last()).contains(x) && x != s.last() {
                let i = choose|i: int| 0 <= i < f.push(s.last()).len() && f.push(s.last())[i] == x;
                assert(f[i] == x);
            }
        }
    }
}

proof fn lemma_mask_concat(a: Seq<char>, b: Seq<char>)
    ensures
        alphanumeric_mask(a + b) == alphanumeric_mask(a) + alphanumeric_mask(b),
{
    assert(alphanumeric_mask(a + b) =~= alphanumeric_mask(a) + alphanumeric_mask(b));
}

proof fn lemma_runs_concat(a: Seq<char>, ka: Seq<bool>, b: Seq<char>, kb: Seq<bool>)
    requires
        a.len() == ka.len(),
        b.len() == kb.len(),
        ka.len() == 0 || !ka.last(),
    ensures
        runs(a + b, ka + kb) == runs(a, ka) + runs(b, kb),
    decreases ka.len(),
{
    if ka.len() == 0 {
        assert(a + b =~= b);
        assert(ka + kb =~= kb);
        assert(runs(a, ka) + runs(b, kb) =~= runs(b, kb));
    } else {
        lemma_run_bound(ka);
        let n = run_len(ka) as int;
        assert(n < ka.len()) by {
            if n == ka.len() {
                assert(ka[ka.len() - 1]);
            }
        }
        assert forall|i: int| 0 <= i < n implies (ka + kb)[i] by {
            assert(ka[i]);
        }
        lemma_run_then_gap(a, ka, n);
        lemma_run_then_gap(a + b, ka + kb, n);
        let a2 = a.skip(n + 1);
        let ka2 = ka.skip(n + 1);
        assert((a + b).skip(n + 1) =~= a2 + b);
        assert((ka + kb).skip(n + 1) =~= ka2 + kb);
        assert((a + b).take(n) =~= a.take(n));
        lemma_runs_concat(a2, ka2, b, kb);
        let head = if n == 0 {
            Seq::<Seq<char>>::empty()
        } else {
            seq![a.take(n)]
        };
        assert(head + (runs(a2, ka2) + runs(b, kb)) =~= (head + runs(a2, ka2)) + runs(b, kb));
    }
}

proof fn lemma_alphanumeric_runs_part(a: Seq<char>, sep: char, b: Seq<char>)
    requires
        !alphanumeric(sep),
    ensures
        alphanumeric_runs(a.push(sep) + b) == alphanumeric_runs(a) + alphanumeric_runs(b),
{
    let ma = alphanumeric_mask(a);
    let mb = alphanumeric_mask(b);
    assert(alphanumeric_mask(a.push(sep)) =~= ma.push(false));
    lemma_mask_concat(a.push(sep), b);
    lemma_runs_concat(a.push(sep), ma.push(false), b, mb);
    // the trailing separator adds no run
    lemma_runs_trailing_gap(a, ma, sep);
}

/// Separators are only separators: where a non-alphanumeric character stands in
/// the lowercase equivalent of a text, the tokens are those on its one side,
/// then those on the other.
pub proof fn law_tokens_split_at_a_separator(
    text: Seq<char>,
    a: Seq<char>,
    sep: char,
    b: Seq<char>,
)
    requires
        lowercase(text) == a.push(sep) + b,
        !alphanumeric(sep),
    ensures
        tokens(text) == alphanumeric_runs(a) + alphanumeric_runs(b),
{
    lemma_alphanumeric_runs_part(a, sep, b);
}

/// No token is empty, and every token is alphanumeric throughout.
pub proof fn law_tokens_are_alphanumeric(text: Seq<char>)
    ensures
        forall|i: int|
            0 <= i < tokens(text).len() ==> all_of(
                #[trigger] tokens(text)[i],
                |c: char| alphanumeric(c),
            ),
{
    let low = lowercase(text);
    lemma_runs_are_kept(low, alphanumeric_mask(low), |c: char| alphanumeric(c));
}

proof fn lemma_runs_map(text: Seq<char>, keep: Seq<bool>, f: spec_fn(char) -> char)
    requires
        text.len() == keep.len(),
    ensures
        runs(text.map_values(f), keep) == runs(text, keep).map_values(
            |r: Seq<char>| r.map_values(f),
        ),
    decreases keep.len(),
{
    let g = |r: Seq<char>| r.map_values(f);
    if keep.len() == 0 {
        assert(runs(text.map_values(f), keep) =~= runs(text, keep).map_values(g));
    } else if !keep[0] {
        assert(text.map_values(f).drop_first() =~= text.drop_first().map_values(f));
        lemma_runs_map(text.drop_first(), keep.drop_first(), f);
    } else {
        let n = run_len(keep) as int;
        lemma_run_bound(keep);
        assert(text.map_values(f).take(n) =~= text.take(n).map_values(f));
        assert(text.map_values(f).skip(n) =~= text.skip(n).map_values(f));
        lemma_runs_map(text.skip(n), keep.skip(n), f);
        assert(runs(text.map_values(f), keep) =~= runs(text, keep).map_values(g));
    }
}

/// The tokens of an ASCII text are its maximal runs of ASCII letters and
/// digits, in order, in lowercase.
pub proof fn law_ascii_tokens_are_runs_in_lowercase(a: Seq<char>)
    requires
        all_ascii(a),
    ensures
        tokens(a) == alphanumeric_runs(a).map_values(|r: Seq<char>| ascii_lowercase(r)),
{
    let f = |c: char| ascii_lower(c);
    assert(alphanumeric_mask(ascii_lowercase(a)) =~= alphanumeric_mask(a)) by {
        assert forall|i: int| 0 <= i < a.len() implies alphanumeric(ascii_lower(a[i]))
            == alphanumeric(a[i]) by {
            assert(ascii(a[i]));
        }
    }
    lemma_runs_map(a, alphanumeric_mask(a), f);
    assert(alphanumeric_runs(a).map_values(|r: Seq<char>| r.map_values(f)) =~= alphanumeric_runs(
        a,
    ).map_values(|r: Seq<char>| ascii_lowercase(r)));
}

/// The tokens of two ASCII texts that a character other than a letter or a
/// digit parts are the tokens of the one, then those of the other.
pub proof fn law_ascii_tokens_split_at_a_separator(a: Seq<char>, sep: char, b: Seq<char>)
    requires
        all_ascii(a),
        all_ascii(b),
        ascii(sep),
        !ascii_letter_or_digit(sep),
    ensures
        tokens(a.push(sep) + b) == tokens(a) + tokens(b),
{
    let whole = a.push(sep) + b;
    assert(all_ascii(whole));
    assert(ascii_lowercase(whole) =~= ascii_lowercase(a).push(sep) + ascii_lowercase(b));
    law_tokens_split_at_a_separator(whole, ascii_lowercase(a), sep, ascii_lowercase(b));
}

/// The character with a small ASCII letter made a capital.
pub open spec fn ascii_upper(c: char) -> char {
    if 'a' as int <= c as int <= 'z' as int {
        (c as int - 32) as char
    } else {
        c
    }
}

/// The tokens of an ASCII text do not depend on the case of its letters.
pub proof fn law_ascii_tokens_ignore_case(a: Seq<char>)
    requires
        all_ascii(a),
    ensures
        tokens(a.map_values(|c: char| ascii_upper(c))) == tokens(a),
{
    let up = a.map_values(|c: char| ascii_upper(c));
    assert forall|i: int| 0 <= i < a.len() implies ascii(#[trigger] up[i]) && ascii_lower(up[i])
        == ascii_lower(a[i]) by {
        assert(ascii(a[i]));
    }
    assert(ascii_lowercase(up) =~= ascii_lowercase(a));
}

/// The words of a list with a space between each two.
pub open spec fn joined(words: Seq<Seq<char>>) -> Seq<char>
    decreases words.len(),
{
    if words.len() == 0 {
        seq![]
    } else if words.len() == 1 {
        words[0]
    } else {
        joined(words.drop_last()).push(' ') + words.last()
    }
}

/// A token of an ASCII text.
spec fn plain_word(w: Seq<char>) -> bool {
    all_of(w, |c: char| ascii(c) && ascii_letter_or_digit(c) && ascii_lower(c) == c)
}

proof fn lemma_word_is_its_run(w: Seq<char>)
    requires
        plain_word(w),
    ensures
        alphanumeric_runs(w) == seq![w],
{
    let k = alphanumeric_mask(w);
    let n = w.len() as int;
    lemma_run_len(k, n);
    assert(w.take(n) =~= w);
    assert(w.skip(n) =~= Seq::<char>::empty());
    assert(k.skip(n) =~= Seq::<bool>::empty());
    assert(runs(w.skip(n), k.skip(n)) =~= Seq::<Seq<char>>::empty());
    assert(k[0]);
    assert(runs(w, k) =~= seq![w]);
}

proof fn lemma_joined_words(words: Seq<Seq<char>>)
    requires
        forall|i: int| 0 <= i < words.len() ==> plain_word(#[trigger] words[i]),
    ensures
        all_ascii(joined(words)),
        ascii_lowercase(joined(words)) == joined(words),
        alphanumeric_runs(joined(words)) == words,
    decreases words.len(),
{
    let j = joined(words);
    if words.len() == 0 {
        assert(alphanumeric_runs(j) =~= words);
    } else {
        let w = words.last();
        assert(plain_word(words[words.len() - 1]));
        lemma_word_is_its_run(w);
        if words.len() == 1 {
            assert(words =~= seq![w]);
        } else {
            let rest = words.drop_last();
            assert forall|i: int| 0 <= i < rest.len() implies plain_word(#[trigger] rest[i]) by {
                assert(plain_word(words[i]));
            }
            lemma_joined_words(rest);
            lemma_alphanumeric_runs_part(joined(rest), ' ', w);
            assert(rest + seq![w] =~= words);
            assert forall|i: int| 0 <= i < j.len() implies ascii(#[trigger] j[i]) && ascii_lower(
                j[i],
            ) == j[i] by {
                let m = joined(rest).len();
                if i < m {
                    assert(j[i] == joined(rest)[i]);
                    assert(ascii_lowercase(joined(rest))[i] == joined(rest)[i]);
                } else if i > m {
                    assert(j[i] == w[i - m - 1]);
                }
            }
        }
    }
    assert(ascii_lowercase(j) =~= j);
}

/// The tokens of an ASCII text, joined with spaces, have themselves as tokens.
pub proof fn law_joined_ascii_tokens_are_read_back(a: Seq<char>)
    requires
        all_ascii(a),
    ensures
        tokens(joined(tokens(a))) == tokens(a),
{
    let low = ascii_lowercase(a);
    let p = |c: char| ascii(c) && ascii_letter_or_digit(c) && ascii_lower(c) == c;
    let k = alphanumeric_mask(low);
    assert forall|i: int| 0 <= i < k.len() && #[trigger] k[i] implies p(low[i]) by {
        assert(ascii(a[i]));
    }
    lemma_runs_are_kept(low, k, p);
    let ts = tokens(a);
    assert forall|i: int| 0 <= i < ts.len() implies plain_word(#[trigger] ts[i]) by {
        assert(all_of(runs(low, k)[i], p));
    }
    lemma_joined_words(ts);
}

proof fn lemma_runs_trailing_gap(a: Seq<char>, ka: Seq<bool>, sep: char)
    requires
        a.len() == ka.len(),
    ensures
        runs(a.push(sep), ka.push(false)) == runs(a, ka),
    decreases ka.len(),
{
    let a1 = a.push(sep);
    let k1 = ka.push(false);
    lemma_run_bound(ka);
    let n = run_len(ka) as int;
    assert forall|i: int| 0 <= i < n implies k1[i] by {
        assert(ka[i]);
    }
    lemma_run_then_gap(a1, k1, n);
    if n < ka.len() {
        lemma_run_then_gap(a, ka, n);
        assert(a1.skip(n + 1) =~= a.skip(n + 1).push(sep));
        assert(k1.skip(n + 1) =~= ka.skip(n + 1).push(false));
        assert(a1.take(n) =~= a.take(n));
        lemma_runs_trailing_gap(a.skip(n + 1), ka.skip(n + 1), sep);
    } else {
        assert(a1.skip(n + 1) =~= Seq::<char>::empty());
        assert(k1.skip(n + 1) =~= Seq::<bool>::empty());
        assert(a1.take(n) =~= a);
        if n > 0 {
            assert(a.take(n) =~= a);
            assert(a.skip(n) =~= Seq::<char>::empty());
            assert(ka.skip(n) =~= Seq::<bool>::empty());
            assert(runs(a.skip(n), ka.skip(n)) =~= Seq::<Seq<char>>::empty());
            assert(runs(a, ka) =~= seq![a]);
            assert(runs(a1, k1) =~= seq![a]);
        } else {
            assert(runs(a1, k1) =~= Seq::<Seq<char>>::empty());
        }
    }
}

// ---- lines and fields ----------------------------------------------------------

/// Where `sep` first occurs in `s`, or the length of `s`.
pub open spec fn find(s: Seq<char>, sep: char) -> nat
    decreases s.len(),
{
    if s.len() == 0 || s[0] == sep {
        0
    } else {
        1 + find(s.drop_first(), sep)
    }
}

/// The pieces of `s` between the occurrences of `sep`.
pub open spec fn pieces(s: Seq<char>, sep: char) -> Seq<Seq<char>>
    decreases s.len(),
    via pieces_decreases
{
    let n = find(s, sep) as int;
    if n >= s.len() {
        seq![s]
    } else {
        seq![s.take(n)] + pieces(s.skip(n + 1), sep)
    }
}

#[via_fn]
proof fn pieces_decreases(s: Seq<char>, sep: char) {
}

/// The lines of `s`: it ends a line at each line feed, together with a
/// carriage return right before it; a last line needs no line feed, and is
/// none if it is empty.
pub open spec fn lines_of(s: Seq<char>) -> Seq<Seq<char>> {
    let p = pieces(s, '\n');
    let ended = p.drop_last().map_values(|l: Seq<char>| without_cr(l));
    if p.last().len() == 0 {
        ended
    } else {
        ended.push(p.last())
    }
}

/// `s` without the carriage return at its end.
pub open spec fn without_cr(s: Seq<char>) -> Seq<char> {
    if s.len() > 0 && s.last() == '\r' {
        s.drop_last()
    } else {
        s
    }
}

pub proof fn lemma_find(s: Seq<char>, sep: char, n: int)
    requires
        0 <= n <= s.len(),
        forall|i: int| 0 <= i < n ==> s[i] != sep,
        n == s.len() || s[n] == sep,
    ensures
        find(s, sep) == n,
    decreases n,
{
    if n > 0 {
        assert forall|i: int| 0 <= i < n - 1 implies s.drop_first()[i] != sep by {
            assert(s[i + 1] != sep);
        }
        lemma_find(s.drop_first(), sep, n - 1);
    }
}

/// Splits `text` at each occurrence of `sep`.
pub fn split_at_each(text: &str, sep: char) -> (r: Vec<String>)
    ensures
        texts(r@) == pieces(text@, sep),
        r@.len() > 0,
{
    let chars = chars_of(text);
    let mut out: Vec<String> = Vec::new();
    let mut cur = String::new();
    let mut start: usize = 0;
    let mut i: usize = 0;
    proof {
        assert(text@.skip(0) =~= text@);
        assert(texts(out@) + pieces(text@, sep) =~= pieces(text@, sep));
    }
    while i < chars.len()
        invariant
            chars@ == text@,
            start <= i <= chars.len(),
            cur@ == text@.subrange(start as int, i as int),
            forall|j: int| start <= j < i ==> text@[j] != sep,
            texts(out@) + pieces(text@.skip(start as int), sep) == pieces(text@, sep),
        decreases chars.len() - i,
    {
        if chars[i] == sep {
            let ghost before = texts(out@);
            let ghost piece = cur@;
            proof {
                let ts = text@.skip(start as int);
                let n = i - start;
                assert forall|j: int| 0 <= j < n implies ts[j] != sep by {
                    assert(text@[start + j] != sep);
                }
                lemma_find(ts, sep, n);
                assert(ts.take(n) =~= piece);
                assert(ts.skip(n + 1) =~= text@.skip(i + 1));
            }
            out.push(cur);
            cur = String::new();
            start = i + 1;
            proof {
                assert(texts(out@) =~= before.push(piece));
                let rest = pieces(text@.skip(i + 1), sep);
                assert(before + (seq![piece] + rest) =~= before.push(piece) + rest);
                assert(text@.subrange(start as int, start as int) =~= Seq::<char>::empty());
            }
        } else {
            cur.push(chars[i]);
            assert(text@.subrange(start as int, i + 1) =~= text@.subrange(
                start as int,
                i as int,
            ).push(text@[i as int]));
        }
        i = i + 1;
    }
    let ghost before = texts(out@);
    let ghost piece = cur@;
    proof {
        let ts = text@.skip(start as int);
        let n = i - start;
        assert forall|j: int| 0 <= j < n implies ts[j] != sep by {
            assert(text@[start + j] != sep);
        }
        lemma_find(ts, sep, n);
        assert(ts =~= piece);
    }
    out.push(cur);
    assert(texts(out@) =~= before + seq![piece]);
    out
}

/// The lines of `text`.
pub fn lines(text: &str) -> (r: Vec<String>)
    ensures
        texts(r@) == lines_of(text@),
{
    let parts = split_at_each(text, '\n');
    let mut out: Vec<String> = Vec::new();
    let mut i: usize = 0;
    let last: usize = parts.len() - 1;
    while i < last
        invariant
            last == parts@.len() - 1,
            i <= last,
            out@.len() == i,
            forall|j: int| 0 <= j < i ==> #[trigger] out@[j]@ == without_cr(parts@[j]@),
        decreases last - i,
    {
        let mut cs = chars_of(parts[i].as_str());
        if cs.len() > 0 && cs[cs.len() - 1] == '\r' {
            let _ = cs.pop();
        }
        out.push(string_from_chars(&cs));
        i = i + 1;
    }
    let ghost p = pieces(text@, '\n');
    proof {
        assert(texts(parts@) == p);
        assert forall|j: int| 0 <= j < last implies #[trigger] texts(out@)[j]
            == p.drop_last().map_values(|l: Seq<char>| without_cr(l))[j] by {
            assert(out@[j]@ == without_cr(parts@[j]@));
            assert(texts(parts@)[j] == parts@[j]@);
        }
        assert(texts(out@) =~= p.drop_last().map_values(|l: Seq<char>| without_cr(l)));
        assert(texts(parts@)[last as int] == parts@[last as int]@);
    }
    if parts[last].as_str().is_empty() {
    } else {
        let ghost before = texts(out@);
        out.push(parts[last].clone());
        assert(texts(out@) =~= before.push(p.last()));
    }
    out
}

/// Nothing but white space.
pub open spec fn blank(s: Seq<char>) -> bool {
    forall|i: int| 0 <= i < s.len() ==> whitespace(#[trigger] s[i])
}

/// `s` without the white space at its two ends.
pub open spec fn trimmed(s: Seq<char>) -> Seq<char> {
    trim_end(trim_start(s))
}

/// `s` without the white space at its front.
pub open spec fn trim_start(s: Seq<char>) -> Seq<char>
    decreases s.len(),
{
    if s.len() > 0 && whitespace(s[0]) {
        trim_start(s.drop_first())
    } else {
        s
    }
}

/// `s` without the white space at its end.
pub open spec fn trim_end(s: Seq<char>) -> Seq<char>
    decreases s.len(),
{
    if s.len() > 0 && whitespace(s.last()) {
        trim_end(s.drop_last())
    } else {
        s
    }
}

/// Whether `text` holds nothing but white space.
pub fn is_blank(text: &str) -> (r: bool)
    ensures
        r == blank(text@),
{
    let chars = chars_of(text);
    let mut i: usize = 0;
    while i < chars.len()
        invariant
            chars@ == text@,
            i <= chars.len(),
            forall|j: int| 0 <= j < i ==> whitespace(#[trigger] text@[j]),
        decreases chars.len() - i,
    {
        if !chars[i].is_whitespace() {
            return false;
        }
        i = i + 1;
    }
    true
}

/// `text` without the white space at its two ends.
pub fn trim(text: &str) -> (r: String)
    ensures
        r@ == trimmed(text@),
{
    let chars = chars_of(text);
    let mut lo: usize = 0;
    assert(text@.skip(0) =~= text@);
    while lo < chars.len() && chars[lo].is_whitespace()
        invariant
            chars@ == text@,
            lo <= chars.len(),
            trim_start(text@.skip(lo as int)) == trim_start(text@),
        decreases chars.len() - lo,
    {
        assert(text@.skip(lo as int).drop_first() =~= text@.skip(lo + 1));
        lo = lo + 1;
    }
    let mut hi: usize = chars.len();
    let ghost s = trim_start(text@);
    proof {
        assert(s == text@.skip(lo as int));
        assert(s =~= text@.subrange(lo as int, hi as int));
    }
    while hi > lo && chars[hi - 1].is_whitespace()
        invariant
            chars@ == text@,
            lo <= hi <= chars.len(),
            trim_end(text@.subrange(lo as int, hi as int)) == trim_end(s),
        decreases hi,
    {
        assert(text@.subrange(lo as int, hi as int).drop_last() =~= text@.subrange(
            lo as int,
            hi - 1,
        ));
        hi = hi - 1;
    }
    let mut out = String::new();
    let mut i: usize = lo;
    assert(text@.subrange(lo as int, lo as int) =~= Seq::<char>::empty());
    while i < hi
        invariant
            chars@ == text@,
            lo <= i <= hi <= chars.len(),
            out@ == text@.subrange(lo as int, i as int),
        decreases hi - i,
    {
        out.push(chars[i]);
        assert(text@.subrange(lo as int, i + 1) =~= text@.subrange(lo as int, i as int).push(
            text@[i as int],
        ));
        i = i + 1;
    }
    out
}

/// A text is blank exactly when trimming leaves nothing of it.
pub proof fn law_blank_is_trimmed_to_nothing(s: Seq<char>)
    ensures
        blank(s) <==> trimmed(s).len() == 0,
    decreases s.len(),
{
    if s.len() > 0 && whitespace(s[0]) {
        let t = s.drop_first();
        law_blank_is_trimmed_to_nothing(t);
        if blank(t) {
            assert forall|i: int| 0 <= i < s.len() implies whitespace(#[trigger] s[i]) by {
                if i > 0 {
                    assert(whitespace(t[i - 1]));
                }
            }
        }
        if blank(s) {
            assert forall|i: int| 0 <= i < t.len() implies whitespace(#[trigger] t[i]) by {
                assert(whitespace(s[i + 1]));
            }
        }
    } else if s.len() > 0 {
        lemma_trim_end_keeps_first(s);
    }
}

proof fn lemma_trim_end_keeps_first(s: Seq<char>)
    requires
        s.len() > 0,
        !whitespace(s[0]),
    ensures
        trim_end(s).len() > 0,
    decreases s.len(),
{
    if whitespace(s.last()) {
        lemma_trim_end_keeps_first(s.drop_last());
    }
}

// ---- laws of lists, lines and fields -------------------------------------------

/// Where the items that a filter keeps stood: in order, and none that it keeps
/// is passed over.
pub proof fn lemma_filter_positions<A>(s: Seq<A>, keep: spec_fn(A) -> bool) -> (at: Seq<int>)
    ensures
        at.len() == s.filter(keep).len(),
        forall|i: int, j: int| 0 <= i < j < at.len() ==> #[trigger] at[i] < #[trigger] at[j],
        forall|i: int|
            0 <= i < at.len() ==> 0 <= #[trigger] at[i] < s.len() && keep(s[at[i]]) && s[at[i]]
                == s.filter(keep)[i],
        forall|j: int| 0 <= j < s.len() && keep(#[trigger] s[j]) ==> at.contains(j),
    decreases s.len(),
{
    reveal(Seq::filter);
    if s.len() == 0 {
        Seq::empty()
    } else {
        let rest = s.drop_last();
        let n = rest.len() as int;
        let sub = lemma_filter_positions(rest, keep);
        assert(s =~= rest.push(s.last()));
        lemma_filter_push(rest, s.last(), keep);
        let at = if keep(s.last()) {
            sub.push(n)
        } else {
            sub
        };
        assert forall|i: int| 0 <= i < at.len() implies 0 <= #[trigger] at[i] < s.len() && keep(
            s[at[i]],
        ) && s[at[i]] == s.filter(keep)[i] by {
            if i < sub.len() {
                assert(0 <= sub[i] < n);
                assert(rest[sub[i]] == s[sub[i]]);
            }
        }
        assert forall|i: int, j: int| 0 <= i < j < at.len() implies #[trigger] at[i]
            < #[trigger] at[j] by {
            assert(at[i] == sub[i]);
            if j < sub.len() {
                assert(at[j] == sub[j]);
            }
        }
        assert forall|j: int| 0 <= j < s.len() && keep(#[trigger] s[j]) implies at.contains(j) by {
            if j < n {
                assert(rest[j] == s[j]);
                let i = choose|i: int| 0 <= i < sub.len() && sub[i] == j;
                assert(at[i] == j);
            } else {
                assert(at[sub.len() as int] == j);
            }
        }
        at
    }
}

/// Positions among the items behind the first, as positions among all items;
/// with `d` that is one, that of the first item stands before them.
pub proof fn lemma_shift(sub: Seq<int>, d: int) -> (at: Seq<int>)
    requires
        0 <= d <= 1,
    ensures
        at.len() == sub.len() + d,
        d == 1 ==> at[0] == 0 && at.contains(0),
        forall|i: int| d <= i < at.len() ==> #[trigger] at[i] == sub[i - d] + 1,
        forall|j: int| #[trigger] sub.contains(j) ==> at.contains(j + 1),
{
    let at = Seq::new(
        (sub.len() + d) as nat,
        |i: int|
            if i < d {
                0
            } else {
                sub[i - d] + 1
            },
    );
    assert forall|j: int| #[trigger] sub.contains(j) implies at.contains(j + 1) by {
        let i = choose|i: int| 0 <= i < sub.len() && sub[i] == j;
        assert(at[i + d] == j + 1);
    }
    if d == 1 {
        assert(at[0] == 0);
    }
    at
}

/// The content tokens stand in the order of the tokens, a repeated one as often
/// as it is repeated: `at[i]` is where the one at `i` stood among the tokens, and
/// what is passed over is a stopword.
pub proof fn law_content_keeps_order_and_repeats(text: Seq<char>) -> (at: Seq<int>)
    ensures
        at.len() == content(text).len(),
        forall|i: int, j: int| 0 <= i < j < at.len() ==> #[trigger] at[i] < #[trigger] at[j],
        forall|i: int|
            0 <= i < at.len() ==> 0 <= #[trigger] at[i] < tokens(text).len() && tokens(text)[at[i]]
                == content(text)[i] && !stopword(content(text)[i]),
        forall|j: int|
            0 <= j < tokens(text).len() && !stopword(#[trigger] tokens(text)[j]) ==> at.contains(j),
{
    lemma_filter_positions(tokens(text), |t: Seq<char>| !stopword(t))
}

/// A text splits at a separator into what stands before it and the pieces of
/// what stands behind it; a text without one is a single piece.
pub proof fn law_pieces_part_at_the_separator(a: Seq<char>, sep: char, b: Seq<char>)
    requires
        !a.contains(sep),
    ensures
        pieces(a, sep) == seq![a],
        pieces(a.push(sep) + b, sep) == seq![a] + pieces(b, sep),
{
    let n = a.len() as int;
    let s = a.push(sep) + b;
    assert forall|i: int| 0 <= i < n implies a[i] != sep by {}
    assert forall|i: int| 0 <= i < n implies s[i] != sep by {
        assert(s[i] == a[i]);
    }
    lemma_find(a, sep, n);
    lemma_find(s, sep, n);
    assert(s.take(n) =~= a);
    assert(s.skip(n + 1) =~= b);
}

/// The lines of a text are read off one by one: a line ends at a line feed, and
/// a carriage return right before it is no part of the line. An empty text has
/// no line, and a last line needs no line feed.
pub proof fn law_lines_end_at_line_feeds(a: Seq<char>, b: Seq<char>)
    requires
        !a.contains('\n'),
    ensures
        lines_of(Seq::empty()) == Seq::<Seq<char>>::empty(),
        a.len() > 0 ==> lines_of(a) == seq![a],
        lines_of(a.push('\r').push('\n') + b) == seq![a] + lines_of(b),
        a.len() == 0 || a.last() != '\r' ==> lines_of(a.push('\n') + b) == seq![a] + lines_of(b),
{
    let none = Seq::<char>::empty();
    law_pieces_part_at_the_separator(none, '\n', none);
    law_pieces_part_at_the_separator(a, '\n', b);
    assert(lines_of(none) =~= Seq::<Seq<char>>::empty());
    if a.len() > 0 {
        assert(lines_of(a) =~= seq![a]);
    }
    let r = a.push('\r');
    assert forall|i: int| 0 <= i < r.len() implies r[i] != '\n' by {
        if i < a.len() {
            assert(a.contains(a[i]));
        }
    }
    law_pieces_part_at_the_separator(r, '\n', b);
    assert(r.drop_last() =~= a);
    lemma_pieces_are_some(b, '\n');
    lemma_line_before(r, b);
    lemma_line_before(a, b);
}

proof fn lemma_pieces_are_some(s: Seq<char>, sep: char)
    ensures
        pieces(s, sep).len() > 0,
{
}

proof fn lemma_line_before(a: Seq<char>, b: Seq<char>)
    requires
        !a.contains('\n'),
    ensures
        lines_of(a.push('\n') + b) == seq![without_cr(a)] + lines_of(b),
{
    let p = pieces(b, '\n');
    let q = pieces(a.push('\n') + b, '\n');
    let f = |l: Seq<char>| without_cr(l);
    law_pieces_part_at_the_separator(a, '\n', b);
    lemma_pieces_are_some(b, '\n');
    assert(q.last() == p.last());
    assert(q.drop_last() =~= seq![a] + p.drop_last());
    assert(q.drop_last().map_values(f) =~= seq![without_cr(a)] + p.drop_last().map_values(f));
    assert(lines_of(a.push('\n') + b) =~= seq![without_cr(a)] + lines_of(b));
}

/// Trimming takes off the white space at both ends, all of it, and nothing
/// else.
pub proof fn law_trimming_takes_the_ends_off(a: Seq<char>, s: Seq<char>, b: Seq<char>)
    requires
        blank(a),
        blank(b),
        s.len() > 0 ==> !whitespace(s[0]) && !whitespace(s.last()),
    ensures
        trimmed(a + s + b) == s,
{
    lemma_trim_start(a, s + b);
    assert(a + (s + b) =~= a + s + b);
    if s.len() == 0 {
        assert(s + b =~= b + Seq::<char>::empty());
        lemma_trim_start(b, Seq::empty());
        assert(s =~= Seq::<char>::empty());
        assert(trim_start(a + s + b) =~= Seq::<char>::empty());
    } else {
        assert((s + b)[0] == s[0]);
        lemma_trim_end(s, b);
    }
}

proof fn lemma_trim_start(a: Seq<char>, s: Seq<char>)
    requires
        blank(a),
    ensures
        trim_start(a + s) == trim_start(s),
        s.len() > 0 && !whitespace(s[0]) ==> trim_start(a + s) == s,
    decreases a.len(),
{
    if a.len() == 0 {
        assert(a + s =~= s);
    } else {
        let rest = a.drop_first();
        assert(whitespace(a[0]));
        assert forall|i: int| 0 <= i < rest.len() implies whitespace(#[trigger] rest[i]) by {
            assert(whitespace(a[i + 1]));
        }
        lemma_trim_start(rest, s);
        assert((a + s).drop_first() =~= rest + s);
    }
}

proof fn lemma_trim_end(s: Seq<char>, b: Seq<char>)
    requires
        blank(b),
        s.len() > 0,
        !whitespace(s.last()),
    ensures
        trim_end(s + b) == s,
    decreases b.len(),
{
    if b.len() == 0 {
        assert(s + b =~= s);
    } else {
        let rest = b.drop_last();
        assert(whitespace(b[b.len() - 1]));
        assert forall|i: int| 0 <= i < rest.len() implies whitespace(#[trigger] rest[i]) by {
            assert(whitespace(b[i]));
        }
        lemma_trim_end(s, rest);
        assert((s + b).drop_last() =~= s + rest);
    }
}

/// A text all of whose lowercase characters are alphanumeric is one token, and
/// one without any has none.
pub proof fn law_plain_texts_are_one_token(text: Seq<char>)
    ensures
        lowercase(text).len() > 0 && (forall|i: int|
            0 <= i < lowercase(text).len() ==> alphanumeric(#[trigger] lowercase(text)[i]))
            ==> tokens(text) == seq![lowercase(text)],
        (forall|i: int|
            0 <= i < lowercase(text).len() ==> !alphanumeric(#[trigger] lowercase(text)[i]))
            ==> tokens(text).len() == 0,
{
    let w = lowercase(text);
    let k = alphanumeric_mask(w);
    let n = w.len() as int;
    if n > 0 && (forall|i: int| 0 <= i < n ==> alphanumeric(#[trigger] w[i])) {
        lemma_run_len(k, n);
        assert(w.take(n) =~= w);
        assert(w.skip(n) =~= Seq::<char>::empty());
        assert(k.skip(n) =~= Seq::<bool>::empty());
        assert(runs(w.skip(n), k.skip(n)) =~= Seq::<Seq<char>>::empty());
        assert(k[0]);
        assert(runs(w, k) =~= seq![w]);
    }
    if forall|i: int| 0 <= i < n ==> !alphanumeric(#[trigger] w[i]) {
        lemma_no_runs(w, k);
    }
}

proof fn lemma_no_runs(text: Seq<char>, keep: Seq<bool>)
    requires
        text.len() == keep.len(),
        forall|i: int| 0 <= i < keep.len() ==> !#[trigger] keep[i],
    ensures
        runs(text, keep).len() == 0,
    decreases keep.len(),
{
    if keep.len() > 0 {
        assert(!keep[0]);
        let rest = keep.drop_first();
        assert forall|i: int| 0 <= i < rest.len() implies !#[trigger] rest[i] by {
            assert(!keep[i + 1]);
        }
        lemma_no_runs(text.drop_first(), rest);
    }
}

/// A list of strings has their texts, in order; the text of bytes that encode a
/// text is that text.
pub proof fn law_texts_are_read_back(v: Seq<String>, i: int, s: Seq<char>)
    ensures
        texts(v).len() == v.len(),
        0 <= i < v.len() ==> texts(v)[i] == v[i]@,
        lossy_text(encode_utf8(s)) == s,
{
    encode_utf8_valid_utf8(s);
    encode_utf8_decode_utf8(s);
}

} // verus!
