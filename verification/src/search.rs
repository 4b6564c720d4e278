//! Searching the store: postings, rankings and what they return.
//!
//! A search scores documents with floating-point numbers; everything around
//! that is here: which rows are walked, what is ranked, how deep, and which
//! documents come out in which order.

use vstd::prelude::*;
use vstd::utf8::encode_utf8;

use crate::estate::consistent;
use crate::index::{
    fusion_ranks, is_grouping, law_fusion_sums_over_the_ranks, list_views, mentions, pair_views,
    posting_at_most_once, ranks_of_list, ranks_of_lists, values_for, Posting, Postings,
};
use crate::keys::{
    law_posting_keys_are_distinct, lemma_prefix_of_sum, lemma_text_of_utf8, no_sep, term_key_of,
    term_prefix, term_prefix_of,
};
use crate::model::{
    candidate_views, law_plain_candidates, opt_docs, plain_candidate, Candidate, CandidateView,
    DocView, StoredDoc,
};
use crate::order::{
    has_prefix, lemma_lex_irreflexive, lemma_prefix_is_contiguous, lex_lt, relate_bytes,
    starts_with, Rel,
};
use crate::store::{posting_of, EstateView};
use crate::score::{
    best, f32_rank, is_order, lemma_order_is_unique, lemma_ordering_exists,
    lemma_precedes_asymmetric, ordering, precedes, rank_keys, rank_top, scored_views, Scored,
    ScoredView,
};
use crate::text::{
    all_of, alphanumeric, content, content_tokens, law_content_tokens_are_tokens_without_stopwords,
    law_tokens_are_alphanumeric, lossy_text, text_of_bytes, texts, tokens,
};

verus! {

// ---- postings ----------------------------------------------------------------------

/// A row of the postings: its key and its value.
pub type PostingRow = (Seq<u8>, Posting);

/// The rows of a list.
pub open spec fn posting_rows(v: Seq<(Vec<u8>, Posting)>) -> Seq<PostingRow> {
    v.map_values(|r: (Vec<u8>, Posting)| (r.0@, r.1))
}

/// The rows stand in key order, none twice.
pub open spec fn posting_rows_sorted(rows: Seq<PostingRow>) -> bool {
    forall|i: int, j: int|
        0 <= i < j < rows.len() ==> lex_lt((#[trigger] rows[i]).0, (#[trigger] rows[j]).0)
}

/// The postings of the rows that begin with `prefix`, in order: the document
/// id is what follows it.
pub open spec fn postings_under(rows: Seq<PostingRow>, prefix: Seq<u8>) -> Seq<
    (Seq<char>, Posting),
>
    decreases rows.len(),
{
    if rows.len() == 0 {
        seq![]
    } else {
        let rest = postings_under(rows.drop_last(), prefix);
        let last = rows.last();
        if has_prefix(last.0, prefix) {
            rest.push((lossy_text(last.0.skip(prefix.len() as int)), last.1))
        } else {
            rest
        }
    }
}

/// The document of a row of a term's postings; none where the row is not one
/// of them, which ends the walk.
pub fn posting_row(prefix: &[u8], key: &[u8]) -> (r: Option<String>)
    ensures
        match r {
            Some(id) => has_prefix(key@, prefix@) && id@ == lossy_text(
                key@.skip(prefix@.len() as int),
            ),
            None => !has_prefix(key@, prefix@),
        },
{
    if !starts_with(key, prefix) {
        return None;
    }
    let id = crate::bytes::slice(key, prefix.len(), key.len());
    assert(id@ =~= key@.skip(prefix@.len() as int));
    Some(text_of_bytes(id.as_slice()))
}

/// The document of a row of the vectors.
pub fn vector_row(key: &[u8]) -> (r: String)
    ensures
        r@ == lossy_text(key@),
{
    text_of_bytes(key)
}

proof fn lemma_postings_skip(rows: Seq<PostingRow>, prefix: Seq<u8>, from: int, to: int)
    requires
        0 <= from <= to <= rows.len(),
        forall|i: int| from <= i < to ==> !has_prefix((#[trigger] rows[i]).0, prefix),
    ensures
        postings_under(rows.take(to), prefix) == postings_under(rows.take(from), prefix),
    decreases to - from,
{
    if from < to {
        lemma_postings_skip(rows, prefix, from, to - 1);
        assert(rows.take(to).drop_last() =~= rows.take(to - 1));
        assert(rows.take(to).last() == rows[to - 1]);
    }
}

/// Walks over a term's postings rows: from the first that is not before the
/// term's prefix, up to the first that does not have it.
pub fn scan_postings(rows: &Vec<(Vec<u8>, Posting)>, term: &str) -> (r: Postings)
    requires
        posting_rows_sorted(posting_rows(rows@)),
    ensures
        pair_views(r@) == postings_under(posting_rows(rows@), term_prefix_of(term@)),
{
    let ghost v = posting_rows(rows@);
    let prefix = term_prefix(term);
    let ghost p = prefix@;
    let mut out: Postings = Vec::new();
    let mut i: usize = 0;
    assert(v.take(0) =~= Seq::<PostingRow>::empty());
    assert(pair_views(out@) =~= Seq::<(Seq<char>, Posting)>::empty());
    while i < rows.len()
        invariant
            i <= rows.len(),
            v == posting_rows(rows@),
            posting_rows_sorted(v),
            prefix@ == p,
            p == term_prefix_of(term@),
            pair_views(out@) == postings_under(v.take(i as int), p),
        decreases rows.len() - i,
    {
        proof {
            assert(v.take(i + 1).drop_last() =~= v.take(i as int));
            assert(v.take(i + 1).last() == v[i as int]);
            assert(v[i as int].0 == rows@[i as int].0@);
        }
        match posting_row(prefix.as_slice(), rows[i].0.as_slice()) {
            Some(id) => {
                let ghost so_far = out@;
                let ghost idv = id@;
                let posting: Posting = rows[i].1;
                out.push((id, posting));
                assert(pair_views(out@) =~= pair_views(so_far).push((idv, posting)));
            },
            None => match relate_bytes(rows[i].0.as_slice(), prefix.as_slice()) {
                Rel::Greater => {
                    proof {
                        assert forall|k: int| i <= k < v.len() implies !has_prefix(
                            (#[trigger] v[k]).0,
                            p,
                        ) by {
                            if k > i && has_prefix(v[k].0, p) {
                                assert(lex_lt(v[i as int].0, v[k].0));
                                lemma_prefix_is_contiguous(p, v[i as int].0, v[k].0);
                            }
                        }
                        lemma_postings_skip(v, p, i as int, v.len() as int);
                        assert(v.take(v.len() as int) =~= v);
                    }
                    return out;
                },
                _ => {},
            },
        }
        i = i + 1;
    }
    assert(v.take(i as int) =~= v);
    out
}

/// No term holds the separator of keys.
pub open spec fn terms_are_clean(postings: Map<(Seq<char>, Seq<char>), Posting>) -> bool {
    forall|t: Seq<char>, id: Seq<char>| #[trigger] postings.contains_key((t, id)) ==> no_sep(t)
}

/// `rows` are the rows of `postings`, in key order.
pub open spec fn is_posting_table(
    postings: Map<(Seq<char>, Seq<char>), Posting>,
    rows: Seq<PostingRow>,
) -> bool {
    &&& posting_rows_sorted(rows)
    &&& forall|i: int|
        0 <= i < rows.len() ==> exists|t: Seq<char>, id: Seq<char>|
            postings.contains_key((t, id)) && (#[trigger] rows[i]) == (
                #[trigger] term_key_of(t, id),
                postings[(t, id)],
            )
    &&& forall|t: Seq<char>, id: Seq<char>| #[trigger]
        postings.contains_key((t, id)) ==> rows.contains((term_key_of(t, id), postings[(t, id)]))
}

proof fn lemma_row_is(
    postings: Map<(Seq<char>, Seq<char>), Posting>,
    rows: Seq<PostingRow>,
    i: int,
    term: Seq<char>,
) -> (id: Seq<char>)
    requires
        is_posting_table(postings, rows),
        terms_are_clean(postings),
        0 <= i < rows.len(),
        no_sep(term),
        has_prefix(rows[i].0, term_prefix_of(term)),
    ensures
        postings.contains_key((term, id)),
        rows[i] == (term_key_of(term, id), postings[(term, id)]),
        lossy_text(rows[i].0.skip(term_prefix_of(term).len() as int)) == id,
{
    let (t, id) = choose|t: Seq<char>, id: Seq<char>|
        postings.contains_key((t, id)) && rows[i] == (
            #[trigger] term_key_of(t, id),
            postings[(t, id)],
        );
    law_posting_keys_are_distinct(t, id, term, id);
    lemma_prefix_of_sum(term_prefix_of(term), encode_utf8(id));
    lemma_text_of_utf8(id);
    id
}

/// What a walk over the first `n` rows found.
proof fn lemma_postings_found(
    postings: Map<(Seq<char>, Seq<char>), Posting>,
    rows: Seq<PostingRow>,
    n: int,
    term: Seq<char>,
)
    requires
        is_posting_table(postings, rows),
        terms_are_clean(postings),
        0 <= n <= rows.len(),
        no_sep(term),
    ensures
        ({
            let found = postings_under(rows.take(n), term_prefix_of(term));
            &&& forall|i: int|
                0 <= i < found.len() ==> postings.contains_key((term, (#[trigger] found[i]).0))
                    && found[i].1 == postings[(term, found[i].0)] && exists|k: int|
                    0 <= k < n && (#[trigger] rows[k]).0 == term_key_of(term, found[i].0)
            &&& forall|i: int, j: int|
                0 <= i < j < found.len() ==> (#[trigger] found[i]).0 != (#[trigger] found[j]).0
            &&& forall|k: int, id: Seq<char>|
                0 <= k < n && (#[trigger] rows[k]).0 == #[trigger] term_key_of(term, id)
                    ==> exists|i: int| 0 <= i < found.len() && (#[trigger] found[i]).0 == id
        }),
    decreases n,
{
    let p = term_prefix_of(term);
    if n == 0 {
        assert(rows.take(0) =~= Seq::<PostingRow>::empty());
    } else {
        lemma_postings_found(postings, rows, n - 1, term);
        assert(rows.take(n).drop_last() =~= rows.take(n - 1));
        assert(rows.take(n).last() == rows[n - 1]);
        let before = postings_under(rows.take(n - 1), p);
        let found = postings_under(rows.take(n), p);
        if has_prefix(rows[n - 1].0, p) {
            let last = lemma_row_is(postings, rows, n - 1, term);
            assert(found == before.push((last, rows[n - 1].1)));
            assert forall|i: int| 0 <= i < found.len() implies postings.contains_key(
                (term, (#[trigger] found[i]).0),
            ) && found[i].1 == postings[(term, found[i].0)] && exists|k: int|
                0 <= k < n && (#[trigger] rows[k]).0 == term_key_of(term, found[i].0) by {
                if i < before.len() {
                    assert(found[i] == before[i]);
                    let k = choose|k: int|
                        0 <= k < n - 1 && (#[trigger] rows[k]).0 == term_key_of(term, before[i].0);
                    assert(rows[k].0 == term_key_of(term, found[i].0));
                } else {
                    assert(rows[n - 1].0 == term_key_of(term, found[i].0));
                }
            }
            assert forall|i: int, j: int| 0 <= i < j < found.len() implies (#[trigger] found[i]).0
                != (#[trigger] found[j]).0 by {
                if j < before.len() {
                    assert(before[i].0 != before[j].0);
                } else {
                    assert(found[i] == before[i]);
                    let k = choose|k: int|
                        0 <= k < n - 1 && (#[trigger] rows[k]).0 == term_key_of(term, before[i].0);
                    assert(lex_lt(rows[k].0, rows[n - 1].0));
                    lemma_lex_irreflexive(rows[k].0);
                }
            }
            assert forall|k: int, id: Seq<char>|
                0 <= k < n && (#[trigger] rows[k]).0 == #[trigger] term_key_of(
                    term,
                    id,
                ) implies exists|i: int| 0 <= i < found.len() && (#[trigger] found[i]).0 == id by {
                if k < n - 1 {
                    let i = choose|i: int| 0 <= i < before.len() && (#[trigger] before[i]).0 == id;
                    assert(found[i].0 == id);
                } else {
                    law_posting_keys_are_distinct(term, id, term, last);
                    assert(found[before.len() as int].0 == id);
                }
            }
        } else {
            assert forall|k: int, id: Seq<char>|
                0 <= k < n && (#[trigger] rows[k]).0 == #[trigger] term_key_of(
                    term,
                    id,
                ) implies exists|i: int| 0 <= i < found.len() && (#[trigger] found[i]).0 == id by {
                lemma_prefix_of_sum(p, encode_utf8(id));
                assert(k < n - 1);
            }
            assert forall|i: int| 0 <= i < found.len() implies exists|k: int|
                0 <= k < n && (#[trigger] rows[k]).0 == term_key_of(
                    term,
                    (#[trigger] found[i]).0,
                ) by {
                let k = choose|k: int|
                    0 <= k < n - 1 && (#[trigger] rows[k]).0 == term_key_of(term, before[i].0);
                assert(rows[k].0 == term_key_of(term, found[i].0));
            }
        }
    }
}

/// A walk over a term's postings finds each document that has a posting for
/// the term, with that posting, and finds it once.
pub proof fn law_postings_scan_is_exact(
    postings: Map<(Seq<char>, Seq<char>), Posting>,
    rows: Seq<PostingRow>,
    term: Seq<char>,
)
    requires
        is_posting_table(postings, rows),
        terms_are_clean(postings),
        no_sep(term),
    ensures
        posting_at_most_once(postings_under(rows, term_prefix_of(term))),
        forall|i: int|
            0 <= i < postings_under(rows, term_prefix_of(term)).len() ==> {
                let found = #[trigger] postings_under(rows, term_prefix_of(term))[i];
                postings.contains_key((term, found.0)) && found.1 == postings[(term, found.0)]
            },
        forall|id: Seq<char>| #[trigger]
            postings.contains_key((term, id)) ==> exists|i: int|
                0 <= i < postings_under(rows, term_prefix_of(term)).len() && (
                #[trigger] postings_under(rows, term_prefix_of(term))[i]).0 == id,
{
    let n = rows.len() as int;
    let found = postings_under(rows, term_prefix_of(term));
    lemma_postings_found(postings, rows, n, term);
    assert(rows.take(n) =~= rows);
    assert forall|id: Seq<char>| #[trigger] postings.contains_key((term, id)) implies exists|i: int|
        0 <= i < found.len() && (#[trigger] found[i]).0 == id by {
        assert(rows.contains((term_key_of(term, id), postings[(term, id)])));
        let k = choose|k: int|
            0 <= k < rows.len() && rows[k] == (term_key_of(term, id), postings[(term, id)]);
        assert(rows[k].0 == term_key_of(term, id));
    }
}

/// No term of a text holds the separator of keys.
pub proof fn law_terms_hold_no_separator(text: Seq<char>, term: Seq<char>)
    requires
        content(text).contains(term),
    ensures
        no_sep(term),
{
    law_content_tokens_are_tokens_without_stopwords(text, term);
    law_tokens_are_alphanumeric(text);
    let i = choose|i: int| 0 <= i < tokens(text).len() && tokens(text)[i] == term;
    assert(all_of(tokens(text)[i], |c: char| alphanumeric(c)));
}

/// In a consistent estate a walk over a term's postings finds just the
/// documents that have the term, each with how often it has it and how long it
/// is.
pub proof fn law_term_finds_its_documents(s: EstateView, rows: Seq<PostingRow>, term: Seq<char>)
    requires
        consistent(s),
        is_posting_table(s.postings, rows),
        no_sep(term),
    ensures
        forall|id: Seq<char>|
            s.docs.contains_key(id) && #[trigger] content(s.docs[id].text).contains(term)
                ==> exists|i: int|
                0 <= i < postings_under(rows, term_prefix_of(term)).len() && (
                #[trigger] postings_under(rows, term_prefix_of(term))[i]).0 == id,
        forall|i: int|
            0 <= i < postings_under(rows, term_prefix_of(term)).len() ==> {
                let found = #[trigger] postings_under(rows, term_prefix_of(term))[i];
                &&& s.docs.contains_key(found.0)
                &&& content(s.docs[found.0].text).contains(term)
                &&& found.1 == posting_of(content(s.docs[found.0].text), term)
            },
{
    assert forall|t: Seq<char>, id: Seq<char>| #[trigger]
        s.postings.contains_key((t, id)) implies no_sep(t) by {
        law_terms_hold_no_separator(s.docs[id].text, t);
    }
    law_postings_scan_is_exact(s.postings, rows, term);
    assert forall|id: Seq<char>|
        s.docs.contains_key(id) && #[trigger] content(s.docs[id].text).contains(
            term,
        ) implies exists|i: int|
        0 <= i < postings_under(rows, term_prefix_of(term)).len() && (#[trigger] postings_under(
            rows,
            term_prefix_of(term),
        )[i]).0 == id by {
        assert(s.postings.contains_key((term, id)));
    }
}

// ---- what a search is asked for ------------------------------------------------------

/// How much of each ranking feeds the fusion stage, as a multiple of what is
/// asked for.
pub const FUSION_DEPTH_FACTOR: usize = 4;

/// How much of each ranking feeds the fusion stage.
pub open spec fn depth_of(top_k: usize) -> int {
    if top_k * FUSION_DEPTH_FACTOR <= usize::MAX {
        top_k * FUSION_DEPTH_FACTOR
    } else {
        usize::MAX as int
    }
}

/// How much of each ranking feeds the fusion stage.
pub fn fusion_depth(top_k: usize) -> (r: usize)
    ensures
        r == depth_of(top_k),
        r >= top_k,
{
    match top_k.checked_mul(FUSION_DEPTH_FACTOR) {
        Some(n) => n,
        None => usize::MAX,
    }
}

/// The terms that a lexical search looks up; none where it returns nothing
/// without looking: nothing is asked for, or the query has no content.
pub fn lexical_terms(query: &str, top_k: usize) -> (r: Option<Vec<String>>)
    ensures
        match r {
            Some(v) => top_k > 0 && content(query@).len() > 0 && texts(v@) == content(query@),
            None => top_k == 0 || content(query@).len() == 0,
        },
{
    let terms = content_tokens(query);
    if terms.len() == 0 || top_k == 0 {
        None
    } else {
        Some(terms)
    }
}

// ---- fusion --------------------------------------------------------------------------

/// The ids of ranked documents.
pub open spec fn ids_of(v: Seq<ScoredView>) -> Seq<Seq<char>> {
    v.map_values(|s: ScoredView| s.0)
}

fn ids(v: &Vec<Scored>) -> (r: Vec<String>)
    ensures
        texts(r@) == ids_of(scored_views(v@)),
{
    let mut out: Vec<String> = Vec::new();
    let mut i: usize = 0;
    while i < v.len()
        invariant
            i <= v.len(),
            out@.len() == i,
            forall|j: int| 0 <= j < i ==> (#[trigger] out@[j])@ == v@[j].id@,
        decreases v.len() - i,
    {
        out.push(v[i].id.clone());
        i = i + 1;
    }
    assert(texts(out@) =~= ids_of(scored_views(v@)));
    out
}

/// What a hybrid search fuses: each document of the two rankings, cut at the
/// fusion depth, with the ranks it has there.
pub fn fusion_inputs(dense: &Vec<Scored>, lexical: &Vec<Scored>, top_k: usize) -> (r: Vec<
    (String, Vec<u64>),
>)
    ensures
        is_grouping(
            ranks_of_lists(
                seq![
                    ids_of(best(scored_views(dense@), depth_of(top_k) as nat)),
                    ids_of(best(scored_views(lexical@), depth_of(top_k) as nat)),
                ],
            ),
            r@,
        ),
{
    let depth = fusion_depth(top_k);
    let dense_top = rank_top(dense, depth);
    let lexical_top = rank_top(lexical, depth);
    let mut lists: Vec<Vec<String>> = Vec::new();
    lists.push(ids(&dense_top));
    lists.push(ids(&lexical_top));
    proof {
        assert(list_views(lists@) =~= seq![
            ids_of(best(scored_views(dense@), depth as nat)),
            ids_of(best(scored_views(lexical@), depth as nat)),
        ]);
    }
    fusion_ranks(&lists)
}

// ---- what comes out ------------------------------------------------------------------

/// A document as a search returns it.
pub open spec fn found(d: DocView, score: u32) -> CandidateView {
    CandidateView { id: d.id, text: d.text, score, metadata: d.metadata }
}

/// What a dense search returns: each ranked document with its payload, or bare
/// where it has none.
pub open spec fn with_payloads(ranked: Seq<ScoredView>, docs: Seq<Option<DocView>>) -> Seq<
    CandidateView,
> {
    Seq::new(
        ranked.len(),
        |i: int|
            match docs[i] {
                Some(d) => found(d, ranked[i].1),
                None => plain_candidate(ranked[i].0, ""@, ranked[i].1),
            },
    )
}

/// What a hybrid search returns: each ranked document that has a payload.
pub open spec fn hydrated(ranked: Seq<ScoredView>, docs: Seq<Option<DocView>>) -> Seq<
    CandidateView,
>
    decreases ranked.len(),
{
    if ranked.len() == 0 {
        seq![]
    } else {
        let rest = hydrated(ranked.drop_last(), docs.drop_last());
        match docs.last() {
            Some(d) => rest.push(found(d, ranked.last().1)),
            None => rest,
        }
    }
}

/// What a search returns before payloads are fetched.
pub open spec fn bare(ranked: Seq<ScoredView>) -> Seq<CandidateView> {
    ranked.map_values(|s: ScoredView| plain_candidate(s.0, ""@, s.1))
}

fn candidate(d: &StoredDoc, score: u32) -> (r: Candidate)
    ensures
        r@ == found(d@, score),
{
    Candidate { id: d.id.clone(), text: d.text.clone(), score, metadata: d.metadata.clone() }
}

/// Ranks scored documents and returns the best, without their payloads.
pub fn bare_candidates(scored: &Vec<Scored>, top_k: usize) -> (r: Vec<Candidate>)
    ensures
        candidate_views(r@) == bare(best(scored_views(scored@), top_k as nat)),
{
    let ranked = rank_top(scored, top_k);
    let mut out: Vec<Candidate> = Vec::new();
    let mut i: usize = 0;
    while i < ranked.len()
        invariant
            i <= ranked.len(),
            out@.len() == i,
            forall|j: int|
                0 <= j < i ==> (#[trigger] out@[j])@ == plain_candidate(
                    ranked@[j].id@,
                    ""@,
                    ranked@[j].score,
                ),
        decreases ranked.len() - i,
    {
        out.push(Candidate::new(ranked[i].id.clone(), "".to_string(), ranked[i].score));
        i = i + 1;
    }
    assert(candidate_views(out@) =~= bare(scored_views(ranked@)));
    out
}

/// Turns ranked documents into what a dense search returns. `docs` are the
/// documents that are stored, one for each.
pub fn attach_payloads(ranked: &Vec<Scored>, docs: &Vec<Option<StoredDoc>>) -> (r: Vec<Candidate>)
    requires
        ranked.len() == docs.len(),
    ensures
        candidate_views(r@) == with_payloads(scored_views(ranked@), opt_docs(docs@)),
{
    let mut out: Vec<Candidate> = Vec::new();
    let ghost all = with_payloads(scored_views(ranked@), opt_docs(docs@));
    let mut i: usize = 0;
    while i < ranked.len()
        invariant
            i <= ranked.len(),
            ranked.len() == docs.len(),
            all == with_payloads(scored_views(ranked@), opt_docs(docs@)),
            out@.len() == i,
            forall|j: int| 0 <= j < i ==> (#[trigger] out@[j])@ == all[j],
        decreases ranked.len() - i,
    {
        match &docs[i] {
            Some(d) => {
                out.push(candidate(d, ranked[i].score));
            },
            None => {
                out.push(Candidate::new(ranked[i].id.clone(), "".to_string(), ranked[i].score));
            },
        }
        i = i + 1;
    }
    assert(candidate_views(out@) =~= all);
    out
}

/// Turns fused documents into what a hybrid search returns. `docs` are the
/// documents that are stored, one for each.
pub fn hydrate(ranked: &Vec<Scored>, docs: &Vec<Option<StoredDoc>>) -> (r: Vec<Candidate>)
    requires
        ranked.len() == docs.len(),
    ensures
        candidate_views(r@) == hydrated(scored_views(ranked@), opt_docs(docs@)),
{
    let ghost rv = scored_views(ranked@);
    let ghost dv = opt_docs(docs@);
    let mut out: Vec<Candidate> = Vec::new();
    let mut i: usize = 0;
    assert(candidate_views(out@) =~= hydrated(rv.take(0), dv.take(0)));
    while i < ranked.len()
        invariant
            i <= ranked.len(),
            ranked.len() == docs.len(),
            rv == scored_views(ranked@),
            dv == opt_docs(docs@),
            candidate_views(out@) == hydrated(rv.take(i as int), dv.take(i as int)),
        decreases ranked.len() - i,
    {
        proof {
            assert(rv.take(i + 1).drop_last() =~= rv.take(i as int));
            assert(dv.take(i + 1).drop_last() =~= dv.take(i as int));
            assert(rv.take(i + 1).last() == rv[i as int]);
            assert(dv.take(i + 1).last() == dv[i as int]);
        }
        match &docs[i] {
            Some(d) => {
                let ghost so_far = out@;
                let c = candidate(d, ranked[i].score);
                let ghost cv = c@;
                out.push(c);
                assert(candidate_views(out@) =~= candidate_views(so_far).push(cv));
            },
            None => {},
        }
        i = i + 1;
    }
    assert(rv.take(i as int) =~= rv);
    assert(dv.take(i as int) =~= dv);
    out
}

/// The candidate is the ranked document at `j`, with the payload stored there.
pub open spec fn comes_from(
    ranked: Seq<ScoredView>,
    docs: Seq<Option<DocView>>,
    c: CandidateView,
    j: int,
) -> bool {
    &&& 0 <= j < docs.len()
    &&& docs[j] matches Some(d) && c == found(d, ranked[j].1)
}

/// The candidate is a ranked document with the payload stored for it.
pub open spec fn is_stored(
    ranked: Seq<ScoredView>,
    docs: Seq<Option<DocView>>,
    c: CandidateView,
) -> bool {
    exists|j: int| comes_from(ranked, docs, c, j)
}

/// A hybrid search returns no more than it is asked for, and every document
/// that it returns is a ranked one that is stored.
pub proof fn law_hybrid_results_are_stored(ranked: Seq<ScoredView>, docs: Seq<Option<DocView>>)
    requires
        ranked.len() == docs.len(),
    ensures
        hydrated(ranked, docs).len() <= ranked.len(),
        forall|c: CandidateView| #[trigger]
            hydrated(ranked, docs).contains(c) ==> is_stored(ranked, docs, c),
    decreases ranked.len(),
{
    if ranked.len() > 0 {
        let r0 = ranked.drop_last();
        let d0 = docs.drop_last();
        law_hybrid_results_are_stored(r0, d0);
        let h = hydrated(ranked, docs);
        let h0 = hydrated(r0, d0);
        assert forall|c: CandidateView| #[trigger] h.contains(c) implies is_stored(
            ranked,
            docs,
            c,
        ) by {
            let i = choose|i: int| 0 <= i < h.len() && h[i] == c;
            if i < h0.len() {
                assert(h0[i] == c);
                assert(h0.contains(c));
                let j = choose|j: int| comes_from(r0, d0, c, j);
                assert(comes_from(ranked, docs, c, j));
            } else {
                assert(comes_from(ranked, docs, c, docs.len() - 1));
            }
        }
    }
}

// ---- a query without content ---------------------------------------------------------

/// The documents that fusion scores: each with the score of its ranks.
pub open spec fn fused(groups: Seq<(String, Vec<u64>)>, score: spec_fn(Seq<u64>) -> u32) -> Seq<
    ScoredView,
> {
    groups.map_values(|g: (String, Vec<u64>)| (g.0@, score(g.1@)))
}

/// Of the first `n` ranks the better one scores higher.
pub open spec fn score_falls(score: spec_fn(Seq<u64>) -> u32, n: nat) -> bool {
    forall|a: u64, b: u64|
        1 <= a < b <= n ==> f32_rank(#[trigger] score(seq![a])) > f32_rank(
            #[trigger] score(seq![b]),
        )
}

proof fn lemma_best_ids_are_distinct(v: Seq<ScoredView>, k: nat)
    requires
        v.len() <= usize::MAX,
        ids_of(v).no_duplicates(),
    ensures
        ids_of(best(v, k)).no_duplicates(),
{
    let keys = rank_keys(v);
    let o = ordering(keys);
    lemma_ordering_exists(keys);
    let b = ids_of(best(v, k));
    assert forall|i: int, j: int| 0 <= i < b.len() && 0 <= j < b.len() && i != j implies b[i]
        != b[j] by {
        assert(b[i] == ids_of(v)[o[i] as int]);
        assert(b[j] == ids_of(v)[o[j] as int]);
        if i < j {
            lemma_precedes_asymmetric(keys, o[i] as int, o[j] as int);
        } else {
            lemma_precedes_asymmetric(keys, o[j] as int, o[i] as int);
        }
    }
}

/// Where the group of an id stands.
spec fn group_place(groups: Seq<(String, Vec<u64>)>, id: Seq<char>) -> int {
    choose|i: int| 0 <= i < groups.len() && #[trigger] groups[i].0@ == id
}

proof fn lemma_one_list_is_grouped(list: Seq<Seq<char>>, groups: Seq<(String, Vec<u64>)>)
    requires
        list.no_duplicates(),
        is_grouping(ranks_of_lists(seq![list, Seq::<Seq<char>>::empty()]), groups),
    ensures
        groups.len() == list.len(),
        forall|i: int|
            #![trigger list[i]]
            0 <= i < list.len() ==> {
                let g = group_place(groups, list[i]);
                0 <= g < groups.len() && groups[g].0@ == list[i] && groups[g].1@ == seq![
                    (i + 1) as u64,
                ]
            },
{
    let none = Seq::<Seq<char>>::empty();
    let lists = seq![list, none];
    let pairs = ranks_of_lists(lists);
    assert(lists.drop_last() =~= seq![list]);
    assert(seq![list].drop_last() =~= Seq::<Seq<Seq<char>>>::empty());
    reveal_with_fuel(ranks_of_lists, 3);
    assert(pairs =~= ranks_of_list(list));
    assert forall|i: int|
        #![trigger list[i]]
        0 <= i < list.len() implies ({
        let g = group_place(groups, list[i]);
        0 <= g < groups.len() && groups[g].0@ == list[i] && groups[g].1@ == seq![(i + 1) as u64]
    }) by {
        assert(pairs[i].0 == list[i]);
        assert(mentions(pairs, list[i]));
        let g = group_place(groups, list[i]);
        assert(groups[g].0@ == list[i]);
        law_fusion_sums_over_the_ranks(list, none, list[i]);
        assert(values_for(pairs, list[i]) =~= seq![(i + 1) as u64]);
        assert(groups[g].1@ == values_for(pairs, groups[g].0@));
    }
    let names = groups.map_values(|g: (String, Vec<u64>)| g.0@);
    assert(names.no_duplicates()) by {
        assert forall|i: int, j: int|
            0 <= i < names.len() && 0 <= j < names.len() && i != j implies names[i] != names[j] by {
            if i < j {
                assert(groups[i].0@ != groups[j].0@);
            } else {
                assert(groups[j].0@ != groups[i].0@);
            }
        }
    }
    assert(names.to_set() =~= list.to_set()) by {
        assert forall|id: Seq<char>| names.contains(id) <==> list.contains(id) by {
            if names.contains(id) {
                let g = choose|g: int| 0 <= g < names.len() && names[g] == id;
                assert(mentions(pairs, groups[g].0@));
                let i = choose|i: int| 0 <= i < pairs.len() && #[trigger] pairs[i].0 == id;
                assert(list[i] == id);
            }
            if list.contains(id) {
                let i = choose|i: int| 0 <= i < list.len() && list[i] == id;
                let g = group_place(groups, list[i]);
                assert(names[g] == id);
            }
        }
    }
    names.unique_seq_to_set();
    list.unique_seq_to_set();
}

/// A hybrid search whose query has no content keeps the dense ranking: what it
/// ranks is the dense ranking's documents, in the same order, each with the
/// score of its one rank.
pub proof fn law_query_without_content_keeps_dense_order(
    dense: Seq<ScoredView>,
    groups: Seq<(String, Vec<u64>)>,
    top_k: usize,
    score: spec_fn(Seq<u64>) -> u32,
)
    requires
        dense.len() <= usize::MAX,
        ids_of(dense).no_duplicates(),
        is_grouping(
            ranks_of_lists(
                seq![
                    ids_of(best(dense, depth_of(top_k) as nat)),
                    ids_of(best(Seq::<ScoredView>::empty(), depth_of(top_k) as nat)),
                ],
            ),
            groups,
        ),
        score_falls(score, best(dense, depth_of(top_k) as nat).len()),
    ensures
        best(fused(groups, score), top_k as nat) == Seq::new(
            best(dense, top_k as nat).len(),
            |i: int| (best(dense, top_k as nat)[i].0, score(seq![(i + 1) as u64])),
        ),
{
    let deep = best(dense, depth_of(top_k) as nat);
    let list = ids_of(deep);
    let f = fused(groups, score);
    let keys = rank_keys(f);
    lemma_best_ids_are_distinct(dense, depth_of(top_k) as nat);
    assert(ids_of(best(Seq::<ScoredView>::empty(), depth_of(top_k) as nat)) =~= Seq::<
        Seq<char>,
    >::empty());
    lemma_one_list_is_grouped(list, groups);
    let n = list.len();
    let o = Seq::new(n, |i: int| group_place(groups, list[i]) as usize);
    assert forall|i: int| 0 <= i < n implies 0 <= #[trigger] o[i] < n && f[o[i] as int] == (
        list[i],
        score(seq![(i + 1) as u64]),
    ) by {
        let g = group_place(groups, list[i]);
        assert(o[i] == g as usize);
    }
    assert(is_order(keys, o)) by {
        assert forall|i: int, j: int| 0 <= i < j < o.len() implies precedes(
            keys,
            #[trigger] o[i] as int,
            #[trigger] o[j] as int,
        ) by {
            let a = (i + 1) as u64;
            let b = (j + 1) as u64;
            assert(f32_rank(score(seq![a])) > f32_rank(score(seq![b])));
            assert(f[o[i] as int].1 == score(seq![a]));
            assert(f[o[j] as int].1 == score(seq![b]));
        }
        assert forall|k: usize| 0 <= k < keys.len() implies #[trigger] o.contains(k) by {
            let none = Seq::<Seq<char>>::empty();
            let lists = seq![list, none];
            let pairs = ranks_of_lists(lists);
            assert(lists.drop_last() =~= seq![list]);
            assert(seq![list].drop_last() =~= Seq::<Seq<Seq<char>>>::empty());
            reveal_with_fuel(ranks_of_lists, 3);
            assert(pairs =~= ranks_of_list(list));
            assert(mentions(pairs, groups[k as int].0@));
            let i = choose|i: int|
                0 <= i < pairs.len() && #[trigger] pairs[i].0 == groups[k as int].0@;
            assert(list[i] == groups[k as int].0@);
            let g = group_place(groups, list[i]);
            if g < k {
                assert(groups[g].0@ != groups[k as int].0@);
            } else if k < g {
                assert(groups[k as int].0@ != groups[g].0@);
            }
            assert(o[i] == k);
        }
    }
    lemma_order_is_unique(keys, o);
    let top = best(dense, top_k as nat);
    let want = Seq::new(
        top.len(),
        |i: int| (best(dense, top_k as nat)[i].0, score(seq![(i + 1) as u64])),
    );
    assert(best(f, top_k as nat).len() == want.len());
    assert forall|i: int| 0 <= i < want.len() implies best(f, top_k as nat)[i] == want[i] by {
        assert(top[i] == deep[i]);
        assert(list[i] == deep[i].0);
        assert(best(f, top_k as nat)[i] == f[o[i] as int]);
    }
    assert(best(f, top_k as nat) =~= want);
}

/// Where every ranked document is stored, a hybrid search returns as many as a
/// dense search over the same documents, with the same ids, texts and metadata
/// in the same order, and with the scores of its own ranking.
pub proof fn law_hybrid_and_dense_results_agree(
    ranked: Seq<ScoredView>,
    dense: Seq<ScoredView>,
    docs: Seq<Option<DocView>>,
)
    requires
        ranked.len() == docs.len(),
        dense.len() == docs.len(),
        forall|i: int| 0 <= i < docs.len() ==> (#[trigger] docs[i]) is Some,
    ensures
        hydrated(ranked, docs) == Seq::new(
            docs.len(),
            |i: int|
                CandidateView { score: ranked[i].1, ..with_payloads(dense, docs)[i] },
        ),
    decreases docs.len(),
{
    let want = Seq::new(
        docs.len(),
        |i: int| CandidateView { score: ranked[i].1, ..with_payloads(dense, docs)[i] },
    );
    if docs.len() > 0 {
        let r0 = ranked.drop_last();
        let d0 = docs.drop_last();
        let n0 = dense.drop_last();
        assert forall|i: int| 0 <= i < d0.len() implies (#[trigger] d0[i]) is Some by {
            assert(docs[i] is Some);
        }
        law_hybrid_and_dense_results_agree(r0, n0, d0);
        assert(docs[docs.len() - 1] is Some);
        assert(hydrated(ranked, docs) == hydrated(r0, d0).push(
            found(docs.last()->0, ranked.last().1),
        ));
    }
    assert(hydrated(ranked, docs) =~= want);
}

// ---- field by field --------------------------------------------------------------------

/// A dense search returns every ranked document with its own score, whether or
/// not its payload is stored: with the id, text and metadata of the payload where
/// it is, and with its id, no text and no metadata where it is not.
pub proof fn law_dense_results_keep_their_scores(
    ranked: Seq<ScoredView>,
    docs: Seq<Option<DocView>>,
    i: int,
)
    requires
        ranked.len() == docs.len(),
        0 <= i < ranked.len(),
    ensures
        with_payloads(ranked, docs).len() == ranked.len(),
        with_payloads(ranked, docs)[i].score == ranked[i].1,
        docs[i] is Some ==> with_payloads(ranked, docs)[i].id == docs[i]->0.id,
        docs[i] is Some ==> with_payloads(ranked, docs)[i].text == docs[i]->0.text,
        docs[i] is Some ==> with_payloads(ranked, docs)[i].metadata == docs[i]->0.metadata,
        docs[i] is None ==> with_payloads(ranked, docs)[i].id == ranked[i].0,
        docs[i] is None ==> with_payloads(ranked, docs)[i].text.len() == 0,
        docs[i] is None ==> with_payloads(ranked, docs)[i].metadata == seq!['{', '}'],
{
    reveal_strlit("");
    law_plain_candidates(ranked[i].0, ""@, ranked[i].1);
}

/// What is returned before payloads are fetched: every ranked document, in
/// order, with its id and its score, and nothing else.
pub proof fn law_bare_results_keep_ids_and_scores(ranked: Seq<ScoredView>, i: int)
    ensures
        bare(ranked).len() == ranked.len(),
        0 <= i < ranked.len() ==> {
            let c = bare(ranked)[i];
            &&& c.id == ranked[i].0
            &&& c.score == ranked[i].1
            &&& c.text.len() == 0
            &&& c.metadata == seq!['{', '}']
        },
{
    reveal_strlit("");
    if 0 <= i < ranked.len() {
        law_plain_candidates(ranked[i].0, ""@, ranked[i].1);
    }
}

proof fn lemma_hydrated_places(ranked: Seq<ScoredView>, docs: Seq<Option<DocView>>) -> (from: Seq<
    int,
>)
    requires
        ranked.len() == docs.len(),
    ensures
        from.len() == hydrated(ranked, docs).len(),
        forall|i: int|
            0 <= i < from.len() ==> 0 <= #[trigger] from[i] < docs.len() && comes_from(
                ranked,
                docs,
                hydrated(ranked, docs)[i],
                from[i],
            ),
        forall|i: int, j: int| 0 <= i < j < from.len() ==> #[trigger] from[i] < #[trigger] from[j],
        forall|p: int| 0 <= p < docs.len() && (#[trigger] docs[p]) is Some ==> from.contains(p),
    decreases docs.len(),
{
    if docs.len() == 0 {
        Seq::empty()
    } else {
        let r0 = ranked.drop_last();
        let d0 = docs.drop_last();
        let last = docs.len() - 1;
        let from0 = lemma_hydrated_places(r0, d0);
        let h = hydrated(ranked, docs);
        let from = match docs.last() {
            Some(d) => from0.push(last),
            None => from0,
        };
        assert forall|i: int| 0 <= i < from.len() implies 0 <= #[trigger] from[i] < docs.len()
            && comes_from(ranked, docs, h[i], from[i]) by {
            if i < from0.len() {
                assert(from[i] == from0[i]);
                assert(comes_from(r0, d0, hydrated(r0, d0)[i], from0[i]));
                assert(h[i] == hydrated(r0, d0)[i]);
            }
        }
        assert forall|i: int, j: int| 0 <= i < j < from.len() implies #[trigger] from[i]
            < #[trigger] from[j] by {
            assert(from[i] == from0[i]);
        }
        assert forall|p: int| 0 <= p < docs.len() && (#[trigger] docs[p]) is Some implies
            from.contains(p) by {
            if p < last {
                assert(d0[p] is Some);
                let i = choose|i: int| 0 <= i < from0.len() && from0[i] == p;
                assert(from[i] == p);
            } else {
                assert(from[from0.len() as int] == p);
            }
        }
        from
    }
}

/// A hybrid search returns just the ranked documents that are stored, in the
/// order of the ranking: each with the id, text and metadata that are stored for
/// it, and with its own score.
pub proof fn law_hybrid_results_keep_order_and_scores(
    ranked: Seq<ScoredView>,
    docs: Seq<Option<DocView>>,
)
    requires
        ranked.len() == docs.len(),
    ensures
        exists|from: Seq<int>|
            {
                &&& #[trigger] from.len() == hydrated(ranked, docs).len()
                &&& forall|i: int|
                    0 <= i < from.len() ==> {
                        &&& 0 <= #[trigger] from[i] < docs.len()
                        &&& docs[from[i]] is Some
                        &&& hydrated(ranked, docs)[i].id == docs[from[i]]->0.id
                        &&& hydrated(ranked, docs)[i].text == docs[from[i]]->0.text
                        &&& hydrated(ranked, docs)[i].metadata == docs[from[i]]->0.metadata
                        &&& hydrated(ranked, docs)[i].score == ranked[from[i]].1
                    }
                &&& forall|i: int, j: int|
                    0 <= i < j < from.len() ==> #[trigger] from[i] < #[trigger] from[j]
                &&& forall|p: int|
                    0 <= p < docs.len() && (#[trigger] docs[p]) is Some ==> from.contains(p)
            },
{
    let from = lemma_hydrated_places(ranked, docs);
    assert(from.len() == hydrated(ranked, docs).len());
    assert forall|i: int| 0 <= i < from.len() implies {
        &&& 0 <= #[trigger] from[i] < docs.len()
        &&& docs[from[i]] is Some
        &&& hydrated(ranked, docs)[i].id == docs[from[i]]->0.id
        &&& hydrated(ranked, docs)[i].text == docs[from[i]]->0.text
        &&& hydrated(ranked, docs)[i].metadata == docs[from[i]]->0.metadata
        &&& hydrated(ranked, docs)[i].score == ranked[from[i]].1
    } by {
        assert(comes_from(ranked, docs, hydrated(ranked, docs)[i], from[i]));
    }
}

/// Fusion looks four times as deep as is asked for, as far as depths go, and
/// never less deep than is asked for.
pub proof fn law_fusion_is_four_times_as_deep(top_k: usize)
    ensures
        top_k <= depth_of(top_k) <= usize::MAX,
        4 * top_k <= usize::MAX ==> depth_of(top_k) == 4 * top_k,
        4 * top_k > usize::MAX ==> depth_of(top_k) == usize::MAX,
{
}

/// The ids of a ranking are those of its documents, in order.
pub proof fn law_ids_keep_the_order(v: Seq<ScoredView>, i: int)
    ensures
        ids_of(v).len() == v.len(),
        0 <= i < v.len() ==> ids_of(v)[i] == v[i].0,
{
}

/// Rows of postings have their keys and values, in order.
pub proof fn law_posting_rows_hold_every_field(v: Seq<(Vec<u8>, Posting)>, i: int)
    ensures
        posting_rows(v).len() == v.len(),
        0 <= i < v.len() ==> posting_rows(v)[i].0 == v[i].0@ && posting_rows(v)[i].1 == v[i].1,
{
}

} // verus!
