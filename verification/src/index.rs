//! The inverted index: postings, and what a ranking is computed from.
//!
//! Postings are one row per term and document: the key is the term, the
//! separator and the document id, the value a single [`Posting`]. Entries carry
//! the document's token length, so lexical scoring never fetches payloads.
//!
//! The scores themselves are floating-point sums. What is gathered here are
//! their terms: for each document, in the order in which they are added, the
//! hits that a lexical score sums over and the ranks that a fusion sums over.

use vstd::hash_map::StringHashMap;
use vstd::prelude::*;

use crate::text::texts;

verus! {

/// One document's entry in a term's postings list.
#[derive(Debug, Clone, Copy, PartialEq, Eq, Structural)]
pub struct Posting {
    /// How often the term occurs in the document.
    pub tf: u32,
    /// How many content tokens the document has.
    pub len: u32,
}

/// A term's postings, by document.
pub type Postings = Vec<(String, Posting)>;

/// No document has two postings in the list.
pub open spec fn posting_at_most_once(list: Seq<(Seq<char>, Posting)>) -> bool {
    forall|i: int, j: int|
        0 <= i < j < list.len() ==> (#[trigger] list[i]).0 != (#[trigger] list[j]).0
}

// ---- gathering by document -----------------------------------------------------

/// Values with the names they go under.
pub open spec fn pair_views<T>(v: Seq<(String, T)>) -> Seq<(Seq<char>, T)> {
    v.map_values(|p: (String, T)| (p.0@, p.1))
}

/// Some value goes under `id`.
pub open spec fn mentions<T>(pairs: Seq<(Seq<char>, T)>, id: Seq<char>) -> bool {
    exists|i: int| 0 <= i < pairs.len() && #[trigger] pairs[i].0 == id
}

/// The values that go under `id`, in order.
pub open spec fn values_for<T>(pairs: Seq<(Seq<char>, T)>, id: Seq<char>) -> Seq<T>
    decreases pairs.len(),
{
    if pairs.len() == 0 {
        seq![]
    } else {
        let rest = values_for(pairs.drop_last(), id);
        if pairs.last().0 == id {
            rest.push(pairs.last().1)
        } else {
            rest
        }
    }
}

/// `groups` holds, once for each name of `pairs`, the values that go under it.
pub open spec fn is_grouping<T>(
    pairs: Seq<(Seq<char>, T)>,
    groups: Seq<(String, Vec<T>)>,
) -> bool {
    &&& forall|i: int, j: int|
        0 <= i < j < groups.len() ==> #[trigger] groups[i].0@ != #[trigger] groups[j].0@
    &&& forall|i: int|
        0 <= i < groups.len() ==> mentions(pairs, #[trigger] groups[i].0@)
    &&& forall|i: int|
        0 <= i < groups.len() ==> #[trigger] groups[i].1@ == values_for(pairs, groups[i].0@)
    &&& forall|id: Seq<char>|
        mentions(pairs, id) ==> exists|i: int| 0 <= i < groups.len() && #[trigger] groups[i].0@ == id
}

proof fn lemma_push_mentions<T>(pairs: Seq<(Seq<char>, T)>, p: (Seq<char>, T), id: Seq<char>)
    ensures
        mentions(pairs.push(p), id) <==> mentions(pairs, id) || p.0 == id,
        values_for(pairs.push(p), id) == (if p.0 == id {
            values_for(pairs, id).push(p.1)
        } else {
            values_for(pairs, id)
        }),
{
    let next = pairs.push(p);
    assert(next.drop_last() =~= pairs);
    if mentions(pairs, id) {
        let i = choose|i: int| 0 <= i < pairs.len() && #[trigger] pairs[i].0 == id;
        assert(next[i].0 == id);
    }
    if p.0 == id {
        assert(next[pairs.len() as int].0 == id);
    }
    if mentions(next, id) && p.0 != id {
        let i = choose|i: int| 0 <= i < next.len() && #[trigger] next[i].0 == id;
        assert(pairs[i].0 == id);
    }
}

proof fn lemma_unmentioned<T>(pairs: Seq<(Seq<char>, T)>, id: Seq<char>)
    requires
        !mentions(pairs, id),
    ensures
        values_for(pairs, id).len() == 0,
    decreases pairs.len(),
{
    if pairs.len() > 0 {
        let rest = pairs.drop_last();
        assert(rest.push(pairs.last()) =~= pairs);
        lemma_push_mentions(rest, pairs.last(), id);
        lemma_unmentioned(rest, id);
    }
}

/// Gathers values by the name they go under.
pub fn group<T: Copy>(pairs: &Vec<(String, T)>) -> (r: Vec<(String, Vec<T>)>)
    ensures
        is_grouping(pair_views(pairs@), r@),
{
    let ghost all = pair_views(pairs@);
    let mut out: Vec<(String, Vec<T>)> = Vec::new();
    let mut places: StringHashMap<usize> = StringHashMap::new();
    let mut i: usize = 0;
    while i < pairs.len()
        invariant
            i <= pairs.len(),
            all == pair_views(pairs@),
            is_grouping(all.take(i as int), out@),
            out@.len() <= i,
            forall|id: Seq<char>| #[trigger]
                places@.contains_key(id) ==> places@[id] < out@.len() && out@[places@[id] as int].0@
                    == id,
            forall|j: int| 0 <= j < out@.len() ==> places@.contains_key(#[trigger] out@[j].0@),
        decreases pairs.len() - i,
    {
        let ghost seen = all.take(i as int);
        let ghost p = all[i as int];
        let ghost before = out@;
        let id = pairs[i].0.as_str();
        let value: T = pairs[i].1;
        proof {
            assert(all.take(i + 1) =~= seen.push(p));
            assert forall|x: Seq<char>|
                #![trigger mentions(seen.push(p), x)]
                #![trigger values_for(seen.push(p), x)]
                mentions(seen.push(p), x) == (mentions(seen, x) || p.0 == x)
                    && values_for(seen.push(p), x) == (if p.0 == x {
                    values_for(seen, x).push(p.1)
                } else {
                    values_for(seen, x)
                }) by {
                lemma_push_mentions(seen, p, x);
            }
        }
        match places.get(id) {
            Some(at) => {
                let at: usize = *at;
                out[at].1.push(value);
                proof {
                    assert(out@.len() == before.len());
                    assert forall|j: int| 0 <= j < out@.len() implies #[trigger] out@[j].0@
                        == before[j].0@ by {}
                    assert forall|j: int| 0 <= j < out@.len() implies #[trigger] out@[j].1@
                        == values_for(seen.push(p), out@[j].0@) by {
                        if j != at {
                            assert(out@[j].1@ == before[j].1@);
                            assert(before[j].0@ != before[at as int].0@);
                        }
                    }
                    assert forall|x: Seq<char>| mentions(seen.push(p), x) implies exists|j: int|
                        0 <= j < out@.len() && #[trigger] out@[j].0@ == x by {
                        if mentions(seen, x) {
                            let j = choose|j: int|
                                0 <= j < before.len() && #[trigger] before[j].0@ == x;
                            assert(out@[j].0@ == x);
                        } else {
                            assert(out@[at as int].0@ == x);
                        }
                    }
                }
            },
            None => {
                let at: usize = out.len();
                let mut one: Vec<T> = Vec::new();
                one.push(value);
                places.insert(pairs[i].0.clone(), at);
                out.push((pairs[i].0.clone(), one));
                proof {
                    if mentions(seen, p.0) {
                        let j = choose|j: int|
                            0 <= j < before.len() && #[trigger] before[j].0@ == p.0;
                        assert(before[j].0@ == p.0);
                    }
                    lemma_unmentioned(seen, p.0);
                    assert(values_for(seen, p.0).push(p.1) =~= seq![value]);
                    assert forall|j: int| 0 <= j < out@.len() implies #[trigger] out@[j].1@
                        == values_for(seen.push(p), out@[j].0@) by {
                        if j < at {
                            assert(out@[j] == before[j]);
                            assert(mentions(seen, before[j].0@));
                        } else {
                            assert(out@[j].1@ =~= seq![value]);
                        }
                    }
                    assert forall|x: Seq<char>| mentions(seen.push(p), x) implies exists|j: int|
                        0 <= j < out@.len() && #[trigger] out@[j].0@ == x by {
                        if mentions(seen, x) {
                            let j = choose|j: int|
                                0 <= j < before.len() && #[trigger] before[j].0@ == x;
                            assert(out@[j].0@ == x);
                        } else {
                            assert(out@[at as int].0@ == x);
                        }
                    }
                    assert forall|j: int| 0 <= j < out@.len() implies places@.contains_key(
                        #[trigger] out@[j].0@,
                    ) by {
                        if j < at {
                            assert(out@[j] == before[j]);
                        }
                    }
                }
            },
        }
        i = i + 1;
    }
    assert(all.take(all.len() as int) =~= all);
    out
}

// ---- term counts -----------------------------------------------------------------

/// How often `t` occurs in `s`.
pub open spec fn occurrences(s: Seq<Seq<char>>, t: Seq<char>) -> nat
    decreases s.len(),
{
    if s.len() == 0 {
        0
    } else {
        occurrences(s.drop_last(), t) + (if s.last() == t {
            1nat
        } else {
            0nat
        })
    }
}

/// `counts` holds, once for each token, how often it occurs.
pub open spec fn is_counting(tokens: Seq<Seq<char>>, counts: Seq<(String, u32)>) -> bool {
    &&& forall|i: int, j: int|
        0 <= i < j < counts.len() ==> #[trigger] counts[i].0@ != #[trigger] counts[j].0@
    &&& forall|i: int|
        0 <= i < counts.len() ==> tokens.contains(#[trigger] counts[i].0@)
    &&& forall|i: int|
        0 <= i < counts.len() ==> #[trigger] counts[i].1 == occurrences(tokens, counts[i].0@)
    &&& forall|t: Seq<char>| #[trigger]
        tokens.contains(t) ==> exists|i: int| 0 <= i < counts.len() && #[trigger] counts[i].0@ == t
}

proof fn lemma_occurrences(tokens: Seq<Seq<char>>, pairs: Seq<(Seq<char>, ())>, t: Seq<char>)
    requires
        tokens.len() == pairs.len(),
        forall|i: int| 0 <= i < tokens.len() ==> #[trigger] pairs[i].0 == tokens[i],
    ensures
        occurrences(tokens, t) == values_for(pairs, t).len(),
        occurrences(tokens, t) <= tokens.len(),
        tokens.contains(t) <==> mentions(pairs, t),
    decreases tokens.len(),
{
    if tokens.len() > 0 {
        lemma_occurrences(tokens.drop_last(), pairs.drop_last(), t);
    }
    if tokens.contains(t) {
        let i = choose|i: int| 0 <= i < tokens.len() && tokens[i] == t;
        assert(pairs[i].0 == t);
    }
    if mentions(pairs, t) {
        let i = choose|i: int| 0 <= i < pairs.len() && #[trigger] pairs[i].0 == t;
        assert(tokens[i] == t);
    }
}

/// A token occurs just where it is among the tokens, and no more often than
/// there are tokens.
pub proof fn lemma_occurs(tokens: Seq<Seq<char>>, t: Seq<char>)
    ensures
        occurrences(tokens, t) <= tokens.len(),
        occurrences(tokens, t) > 0 <==> tokens.contains(t),
    decreases tokens.len(),
{
    if tokens.len() > 0 {
        let rest = tokens.drop_last();
        lemma_occurs(rest, t);
        assert(tokens =~= rest.push(tokens.last()));
        if tokens.contains(t) && tokens.last() != t {
            let i = choose|i: int| 0 <= i < tokens.len() && tokens[i] == t;
            assert(rest[i] == t);
        }
        if rest.contains(t) {
            let i = choose|i: int| 0 <= i < rest.len() && rest[i] == t;
            assert(tokens[i] == t);
        }
    }
}

/// Counts how often each token occurs.
pub fn term_counts(tokens: Vec<String>) -> (r: Vec<(String, u32)>)
    requires
        tokens.len() <= u32::MAX,
    ensures
        is_counting(texts(tokens@), r@),
{
    let ghost all = texts(tokens@);
    let mut pairs: Vec<(String, ())> = Vec::new();
    let mut i: usize = 0;
    while i < tokens.len()
        invariant
            i <= tokens.len(),
            pairs@.len() == i,
            forall|j: int| 0 <= j < i ==> (#[trigger] pairs@[j]).0@ == tokens@[j]@,
        decreases tokens.len() - i,
    {
        pairs.push((tokens[i].clone(), ()));
        i = i + 1;
    }
    let groups = group(&pairs);
    let ghost pv = pair_views(pairs@);
    proof {
        assert forall|t: Seq<char>|
            #![trigger occurrences(all, t)]
            #![trigger values_for(pv, t)]
            #![trigger mentions(pv, t)]
            #![trigger all.contains(t)]
            occurrences(all, t) == values_for(pv, t).len() && occurrences(all, t) <= all.len() && (
            all.contains(t) <==> mentions(pv, t)) by {
            lemma_occurrences(all, pv, t);
        }
    }
    let mut out: Vec<(String, u32)> = Vec::new();
    let mut k: usize = 0;
    while k < groups.len()
        invariant
            k <= groups.len(),
            out@.len() == k,
            all.len() <= u32::MAX,
            forall|i: int| 0 <= i < groups.len() ==> #[trigger] groups@[i].1@.len() <= all.len(),
            forall|j: int|
                0 <= j < k ==> (#[trigger] out@[j]).0@ == groups@[j].0@ && out@[j].1
                    == groups@[j].1@.len(),
        decreases groups.len() - k,
    {
        assert(groups@[k as int].1@.len() <= all.len());
        let n: u32 = groups[k].1.len() as u32;
        out.push((groups[k].0.clone(), n));
        k = k + 1;
    }
    proof {
        assert forall|t: Seq<char>| #[trigger] all.contains(t) implies exists|i: int|
            0 <= i < out@.len() && #[trigger] out@[i].0@ == t by {
            assert(mentions(pv, t));
            let i = choose|i: int| 0 <= i < groups@.len() && #[trigger] groups@[i].0@ == t;
            assert(out@[i].0@ == t);
        }
        assert forall|i: int| 0 <= i < out@.len() implies all.contains(#[trigger] out@[i].0@)
            && out@[i].1 == occurrences(all, out@[i].0@) by {
            assert(groups@[i].0@ == out@[i].0@);
            assert(mentions(pv, groups@[i].0@));
            assert(groups@[i].1@ == values_for(pv, groups@[i].0@));
        }
        assert forall|i: int, j: int| 0 <= i < j < out@.len() implies #[trigger] out@[i].0@
            != #[trigger] out@[j].0@ by {
            assert(groups@[i].0@ != groups@[j].0@);
        }
    }
    out
}

// ---- what a lexical score sums over ------------------------------------------------

/// A term's hit in a document, with what scoring it takes: in how many
/// documents the term is, how often it is in this one, and this one's length.
#[derive(Debug, Clone, Copy, PartialEq, Eq, Structural)]
pub struct Hit {
    pub df: u64,
    pub tf: u32,
    pub len: u32,
}

/// The hits of one term, by document.
pub open spec fn hits_of_term(postings: Seq<(Seq<char>, Posting)>) -> Seq<(Seq<char>, Hit)> {
    postings.map_values(
        |p: (Seq<char>, Posting)|
            (p.0, (Hit { df: postings.len() as u64, tf: p.1.tf, len: p.1.len })),
    )
}

/// The postings of a list of terms.
pub open spec fn postings_views(v: Seq<(String, Postings)>) -> Seq<Seq<(Seq<char>, Posting)>> {
    v.map_values(|p: (String, Postings)| pair_views(p.1@))
}

/// The hits of all terms, by document, term after term.
pub open spec fn hits_of_terms(lists: Seq<Seq<(Seq<char>, Posting)>>) -> Seq<(Seq<char>, Hit)>
    decreases lists.len(),
{
    if lists.len() == 0 {
        seq![]
    } else {
        hits_of_terms(lists.drop_last()) + hits_of_term(lists.last())
    }
}

/// Gathers the hits of every document that matches a query term.
pub fn bm25_hits(term_postings: &Vec<(String, Postings)>) -> (r: Vec<(String, Vec<Hit>)>)
    ensures
        is_grouping(hits_of_terms(postings_views(term_postings@)), r@),
{
    let ghost lists = postings_views(term_postings@);
    let mut pairs: Vec<(String, Hit)> = Vec::new();
    let mut i: usize = 0;
    assert(pair_views(pairs@) =~= hits_of_terms(lists.take(0)));
    while i < term_postings.len()
        invariant
            i <= term_postings.len(),
            lists == postings_views(term_postings@),
            pair_views(pairs@) == hits_of_terms(lists.take(i as int)),
        decreases term_postings.len() - i,
    {
        let postings = &term_postings[i].1;
        let df: u64 = postings.len() as u64;
        let ghost before = pair_views(pairs@);
        let ghost hits = hits_of_term(pair_views(postings@));
        let mut j: usize = 0;
        assert(before + hits.take(0) =~= before);
        while j < postings.len()
            invariant
                j <= postings.len(),
                df == postings.len(),
                hits == hits_of_term(pair_views(postings@)),
                pair_views(pairs@) == before + hits.take(j as int),
            decreases postings.len() - j,
        {
            let ghost so_far = pairs@;
            let p: Posting = postings[j].1;
            let hit = Hit { df, tf: p.tf, len: p.len };
            pairs.push((postings[j].0.clone(), hit));
            proof {
                assert(pair_views(pairs@) =~= pair_views(so_far).push((postings@[j as int].0@, hit)));
                assert(hits.take(j + 1) =~= hits.take(j as int).push(hits[j as int]));
                assert(before + hits.take(j + 1) =~= (before + hits.take(j as int)).push(
                    hits[j as int],
                ));
            }
            j = j + 1;
        }
        proof {
            assert(hits.take(j as int) =~= hits);
            assert(lists.take(i + 1).drop_last() =~= lists.take(i as int));
            assert(lists.take(i + 1).last() == pair_views(postings@));
        }
        i = i + 1;
    }
    assert(lists.take(i as int) =~= lists);
    group(&pairs)
}

proof fn lemma_mentions_add<T>(a: Seq<(Seq<char>, T)>, b: Seq<(Seq<char>, T)>, id: Seq<char>)
    ensures
        mentions(a + b, id) <==> mentions(a, id) || mentions(b, id),
{
    let c = a + b;
    if mentions(a, id) {
        let i = choose|i: int| 0 <= i < a.len() && #[trigger] a[i].0 == id;
        assert(c[i].0 == id);
    }
    if mentions(b, id) {
        let i = choose|i: int| 0 <= i < b.len() && #[trigger] b[i].0 == id;
        assert(c[a.len() + i].0 == id);
    }
    if mentions(c, id) {
        let i = choose|i: int| 0 <= i < c.len() && #[trigger] c[i].0 == id;
        if i < a.len() {
            assert(a[i].0 == id);
        } else {
            assert(b[i - a.len()].0 == id);
        }
    }
}

/// The document has a posting in the list.
pub open spec fn has_posting(list: Seq<(Seq<char>, Posting)>, id: Seq<char>) -> bool {
    mentions(list, id)
}

/// The lists with a posting for the document, counted.
pub open spec fn lists_with(lists: Seq<Seq<(Seq<char>, Posting)>>, id: Seq<char>) -> nat
    decreases lists.len(),
{
    if lists.len() == 0 {
        0
    } else {
        lists_with(lists.drop_last(), id) + (if has_posting(lists.last(), id) {
            1nat
        } else {
            0nat
        })
    }
}

proof fn lemma_hits_of_term(list: Seq<(Seq<char>, Posting)>, id: Seq<char>)
    requires
        posting_at_most_once(list),
    ensures
        mentions(hits_of_term(list), id) <==> has_posting(list, id),
        values_for(hits_of_term(list), id).len() == (if has_posting(list, id) {
            1nat
        } else {
            0nat
        }),
{
    let hits = hits_of_term(list);
    if has_posting(list, id) {
        let i = choose|i: int| 0 <= i < list.len() && #[trigger] list[i].0 == id;
        assert(hits[i].0 == id);
    }
    if mentions(hits, id) {
        let i = choose|i: int| 0 <= i < hits.len() && #[trigger] hits[i].0 == id;
        assert(list[i].0 == id);
    }
    assert forall|i: int, j: int| 0 <= i < j < hits.len() implies (#[trigger] hits[i]).0 != (
    #[trigger] hits[j]).0 by {
        assert(list[i].0 != list[j].0);
    }
    lemma_values_once(hits, id);
}

proof fn lemma_values_once<T>(pairs: Seq<(Seq<char>, T)>, id: Seq<char>)
    requires
        forall|i: int, j: int|
            0 <= i < j < pairs.len() ==> (#[trigger] pairs[i]).0 != (#[trigger] pairs[j]).0,
    ensures
        values_for(pairs, id).len() == (if mentions(pairs, id) {
            1nat
        } else {
            0nat
        }),
    decreases pairs.len(),
{
    if pairs.len() > 0 {
        let rest = pairs.drop_last();
        let last = pairs[pairs.len() - 1];
        assert(rest.push(last) =~= pairs);
        assert forall|i: int, j: int| 0 <= i < j < rest.len() implies (#[trigger] rest[i]).0 != (
        #[trigger] rest[j]).0 by {
            assert(pairs[i].0 != pairs[j].0);
        }
        lemma_values_once(rest, id);
        lemma_push_mentions(rest, last, id);
        if last.0 == id && mentions(rest, id) {
            let i = choose|i: int| 0 <= i < rest.len() && #[trigger] rest[i].0 == id;
            assert(pairs[i].0 != pairs[pairs.len() - 1].0);
        }
    }
}

/// Every document that matches any query term is scored, and no other: it has
/// one hit for each term that it has a posting for.
pub proof fn law_every_match_is_scored(lists: Seq<Seq<(Seq<char>, Posting)>>, id: Seq<char>)
    requires
        forall|i: int| 0 <= i < lists.len() ==> posting_at_most_once(#[trigger] lists[i]),
    ensures
        mentions(hits_of_terms(lists), id) <==> exists|i: int|
            0 <= i < lists.len() && has_posting(#[trigger] lists[i], id),
        values_for(hits_of_terms(lists), id).len() == lists_with(lists, id),
    decreases lists.len(),
{
    if lists.len() > 0 {
        let rest = lists.drop_last();
        let last = lists[lists.len() - 1];
        assert forall|i: int| 0 <= i < rest.len() implies posting_at_most_once(
            #[trigger] rest[i],
        ) by {
            assert(posting_at_most_once(lists[i]));
        }
        law_every_match_is_scored(rest, id);
        lemma_hits_of_term(last, id);
        lemma_mentions_add(hits_of_terms(rest), hits_of_term(last), id);
        lemma_values_add(hits_of_terms(rest), hits_of_term(last), id);
        if exists|i: int| 0 <= i < rest.len() && has_posting(#[trigger] rest[i], id) {
            let i = choose|i: int| 0 <= i < rest.len() && has_posting(#[trigger] rest[i], id);
            assert(has_posting(lists[i], id));
        }
        if exists|i: int| 0 <= i < lists.len() && has_posting(#[trigger] lists[i], id) {
            let i = choose|i: int| 0 <= i < lists.len() && has_posting(#[trigger] lists[i], id);
            if i < rest.len() {
                assert(has_posting(rest[i], id));
            }
        }
    }
}

// ---- what a fusion sums over -------------------------------------------------------

/// The ranks that a ranked list gives, from one up.
pub open spec fn ranks_of_list(list: Seq<Seq<char>>) -> Seq<(Seq<char>, u64)> {
    Seq::new(list.len(), |i: int| (list[i], (i + 1) as u64))
}

/// The ranks that ranked lists give, list after list.
pub open spec fn ranks_of_lists(lists: Seq<Seq<Seq<char>>>) -> Seq<(Seq<char>, u64)>
    decreases lists.len(),
{
    if lists.len() == 0 {
        seq![]
    } else {
        ranks_of_lists(lists.drop_last()) + ranks_of_list(lists.last())
    }
}

/// The ids of ranked lists.
pub open spec fn list_views(v: Seq<Vec<String>>) -> Seq<Seq<Seq<char>>> {
    v.map_values(|l: Vec<String>| texts(l@))
}

/// Gathers the ranks that a document has in ranked lists: what reciprocal rank
/// fusion sums over. A document that a list does not hold has no rank for it.
pub fn fusion_ranks(lists: &Vec<Vec<String>>) -> (r: Vec<(String, Vec<u64>)>)
    ensures
        is_grouping(ranks_of_lists(list_views(lists@)), r@),
{
    let ghost views = list_views(lists@);
    let mut pairs: Vec<(String, u64)> = Vec::new();
    let mut i: usize = 0;
    assert(pair_views(pairs@) =~= ranks_of_lists(views.take(0)));
    while i < lists.len()
        invariant
            i <= lists.len(),
            views == list_views(lists@),
            pair_views(pairs@) == ranks_of_lists(views.take(i as int)),
        decreases lists.len() - i,
    {
        let list = &lists[i];
        let ghost before = pair_views(pairs@);
        let ghost ranks = ranks_of_list(texts(list@));
        let mut j: usize = 0;
        assert(before + ranks.take(0) =~= before);
        while j < list.len()
            invariant
                j <= list.len(),
                ranks == ranks_of_list(texts(list@)),
                pair_views(pairs@) == before + ranks.take(j as int),
            decreases list.len() - j,
        {
            let ghost so_far = pairs@;
            let rank: u64 = (j + 1) as u64;
            pairs.push((list[j].clone(), rank));
            proof {
                assert(pair_views(pairs@) =~= pair_views(so_far).push((list@[j as int]@, rank)));
                assert(ranks.take(j + 1) =~= ranks.take(j as int).push(ranks[j as int]));
                assert(before + ranks.take(j + 1) =~= (before + ranks.take(j as int)).push(
                    ranks[j as int],
                ));
            }
            j = j + 1;
        }
        proof {
            assert(ranks.take(j as int) =~= ranks);
            assert(views.take(i + 1).drop_last() =~= views.take(i as int));
            assert(views.take(i + 1).last() == texts(list@));
        }
        i = i + 1;
    }
    assert(views.take(i as int) =~= views);
    group(&pairs)
}

proof fn lemma_values_add<T>(a: Seq<(Seq<char>, T)>, b: Seq<(Seq<char>, T)>, id: Seq<char>)
    ensures
        values_for(a + b, id) == values_for(a, id) + values_for(b, id),
    decreases b.len(),
{
    if b.len() == 0 {
        assert(a + b =~= a);
        assert(values_for(a, id) + values_for(b, id) =~= values_for(a, id));
    } else {
        lemma_values_add(a, b.drop_last(), id);
        assert((a + b).drop_last() =~= a + b.drop_last());
        assert(values_for(a + b, id) =~= values_for(a, id) + values_for(b, id));
    }
}

proof fn lemma_ranks_of_list(list: Seq<Seq<char>>, id: Seq<char>)
    requires
        list.no_duplicates(),
    ensures
        !list.contains(id) ==> values_for(ranks_of_list(list), id) == Seq::<u64>::empty(),
        forall|i: int|
            0 <= i < list.len() && #[trigger] list[i] == id ==> values_for(ranks_of_list(list), id)
                == seq![(i + 1) as u64],
    decreases list.len(),
{
    if list.len() > 0 {
        let rest = list.drop_last();
        assert(ranks_of_list(list).drop_last() =~= ranks_of_list(rest));
        lemma_ranks_of_list(rest, id);
        if list.last() == id {
            assert forall|i: int| 0 <= i < rest.len() implies rest[i] != id by {
                assert(list[i] != list[list.len() - 1]);
            }
            assert(values_for(ranks_of_list(list), id) =~= seq![list.len() as u64]);
            assert(list[list.len() - 1] == id);
        } else {
            assert forall|i: int| 0 <= i < list.len() && #[trigger] list[i] == id implies values_for(
                ranks_of_list(list),
                id,
            ) == seq![(i + 1) as u64] by {
                assert(rest[i] == id);
            }
            if !list.contains(id) && rest.contains(id) {
                let i = choose|i: int| 0 <= i < rest.len() && rest[i] == id;
                assert(list[i] == id);
            }
        }
    }
}

/// Two rankings are fused list by list: a document has, for each list that
/// holds it, the rank that it has there, counted from one, and nothing for a
/// list that does not hold it.
pub proof fn law_fusion_sums_over_the_ranks(
    dense: Seq<Seq<char>>,
    lexical: Seq<Seq<char>>,
    id: Seq<char>,
)
    requires
        dense.no_duplicates(),
        lexical.no_duplicates(),
    ensures
        values_for(ranks_of_lists(seq![dense, lexical]), id) == values_for(
            ranks_of_list(dense),
            id,
        ) + values_for(ranks_of_list(lexical), id),
        !dense.contains(id) ==> values_for(ranks_of_list(dense), id) == Seq::<u64>::empty(),
        forall|i: int|
            0 <= i < dense.len() && #[trigger] dense[i] == id ==> values_for(
                ranks_of_list(dense),
                id,
            ) == seq![(i + 1) as u64],
        !lexical.contains(id) ==> values_for(ranks_of_list(lexical), id) == Seq::<u64>::empty(),
        forall|i: int|
            0 <= i < lexical.len() && #[trigger] lexical[i] == id ==> values_for(
                ranks_of_list(lexical),
                id,
            ) == seq![(i + 1) as u64],
{
    let lists = seq![dense, lexical];
    lemma_ranks_of_list(dense, id);
    lemma_ranks_of_list(lexical, id);
    assert(lists.drop_last() =~= seq![dense]);
    assert(seq![dense].drop_last() =~= Seq::<Seq<Seq<char>>>::empty());
    reveal_with_fuel(ranks_of_lists, 3);
    assert(ranks_of_lists(lists) =~= ranks_of_list(dense) + ranks_of_list(lexical));
    lemma_values_add(ranks_of_list(dense), ranks_of_list(lexical), id);
}

/// How often a term occurs is at how many positions it stands.
pub proof fn law_occurrences_are_positions(s: Seq<Seq<char>>, t: Seq<char>)
    ensures
        Set::new(|i: int| 0 <= i < s.len() && s[i] == t).finite(),
        occurrences(s, t) == Set::new(|i: int| 0 <= i < s.len() && s[i] == t).len(),
    decreases s.len(),
{
    let all = Set::new(|i: int| 0 <= i < s.len() && s[i] == t);
    if s.len() == 0 {
        assert(all =~= Set::<int>::empty());
    } else {
        let r = s.drop_last();
        let rest = Set::new(|i: int| 0 <= i < r.len() && r[i] == t);
        law_occurrences_are_positions(r, t);
        if s.last() == t {
            assert(all =~= rest.insert(s.len() - 1));
        } else {
            assert(all =~= rest);
        }
    }
}

/// What counting a list of terms gives: every term of the list once, with at
/// how many positions it stands, and no other.
pub proof fn law_counts_are_positions(
    tokens: Seq<Seq<char>>,
    counts: Seq<(String, u32)>,
    k: int,
    i: int,
    j: int,
)
    requires
        is_counting(tokens, counts),
    ensures
        0 <= i < j < counts.len() ==> counts[i].0@ != counts[j].0@,
        0 <= k < tokens.len() ==> exists|c: int|
            0 <= c < counts.len() && #[trigger] counts[c].0@ == tokens[k],
        0 <= i < counts.len() ==> tokens.contains(counts[i].0@),
        0 <= i < counts.len() ==> counts[i].1 == Set::new(
            |p: int| 0 <= p < tokens.len() && tokens[p] == counts[i].0@,
        ).len(),
{
    if 0 <= k < tokens.len() {
        assert(tokens.contains(tokens[k]));
    }
    if 0 <= i < counts.len() {
        let t = counts[i].0@;
        lemma_occurs(tokens, t);
        law_occurrences_are_positions(tokens, t);
        assert(counts[i].1 == occurrences(tokens, t));
        assert(Set::new(|p: int| 0 <= p < tokens.len() && tokens[p] == t) =~= Set::new(
            |p: int| 0 <= p < tokens.len() && tokens[p] == counts[i].0@,
        ));
    }
    if 0 <= i < j < counts.len() {
        assert(counts[i].0@ != counts[j].0@);
    }
}

/// The values that go under a name stand in the order of the list, and there is
/// one for each position of the name.
pub proof fn law_values_keep_their_order<T>(pairs: Seq<(Seq<char>, T)>, id: Seq<char>)
    ensures
        exists|from: Seq<int>|
            {
                &&& #[trigger] from.len() == values_for(pairs, id).len()
                &&& forall|i: int|
                    0 <= i < from.len() ==> 0 <= #[trigger] from[i] < pairs.len() && pairs[from[i]]
                        == (id, values_for(pairs, id)[i])
                &&& forall|i: int, j: int|
                    0 <= i < j < from.len() ==> #[trigger] from[i] < #[trigger] from[j]
                &&& forall|p: int|
                    0 <= p < pairs.len() && (#[trigger] pairs[p]).0 == id ==> from.contains(p)
            },
{
    let from = lemma_values_places(pairs, id);
    assert(from.len() == values_for(pairs, id).len());
}

proof fn lemma_values_places<T>(pairs: Seq<(Seq<char>, T)>, id: Seq<char>) -> (from: Seq<int>)
    ensures
        from.len() == values_for(pairs, id).len(),
        forall|i: int|
            0 <= i < from.len() ==> 0 <= #[trigger] from[i] < pairs.len() && pairs[from[i]] == (
                id,
                values_for(pairs, id)[i],
            ),
        forall|i: int, j: int| 0 <= i < j < from.len() ==> #[trigger] from[i] < #[trigger] from[j],
        forall|p: int| 0 <= p < pairs.len() && (#[trigger] pairs[p]).0 == id ==> from.contains(p),
    decreases pairs.len(),
{
    if pairs.len() == 0 {
        Seq::empty()
    } else {
        let rest = pairs.drop_last();
        let last = pairs.len() - 1;
        let from0 = lemma_values_places(rest, id);
        let vs = values_for(pairs, id);
        if pairs.last().0 == id {
            let from = from0.push(last);
            assert forall|i: int| 0 <= i < from.len() implies 0 <= #[trigger] from[i] < pairs.len()
                && pairs[from[i]] == (id, vs[i]) by {
                if i < from0.len() {
                    assert(from[i] == from0[i]);
                    assert(rest[from0[i]] == (id, values_for(rest, id)[i]));
                }
            }
            assert forall|i: int, j: int| 0 <= i < j < from.len() implies #[trigger] from[i]
                < #[trigger] from[j] by {
                assert(from[i] == from0[i]);
            }
            assert forall|p: int| 0 <= p < pairs.len() && (#[trigger] pairs[p]).0 == id implies
                from.contains(p) by {
                if p < last {
                    assert(rest[p].0 == id);
                    let i = choose|i: int| 0 <= i < from0.len() && from0[i] == p;
                    assert(from[i] == p);
                } else {
                    assert(from[from0.len() as int] == p);
                }
            }
            from
        } else {
            assert forall|i: int| 0 <= i < from0.len() implies 0 <= #[trigger] from0[i]
                < pairs.len() && pairs[from0[i]] == (id, vs[i]) by {
                assert(rest[from0[i]] == (id, values_for(rest, id)[i]));
            }
            assert forall|p: int| 0 <= p < pairs.len() && (#[trigger] pairs[p]).0 == id implies
                from0.contains(p) by {
                assert(rest[p].0 == id);
            }
            from0
        }
    }
}

/// Gathering loses nothing: every value of the list stands in the group of its
/// name, there is one group for each name, and nothing stands in a group that
/// the list does not hold.
pub proof fn law_groups_hold_every_value<T>(
    pairs: Seq<(Seq<char>, T)>,
    groups: Seq<(String, Vec<T>)>,
    p: int,
    g: int,
    h: int,
    k: int,
)
    requires
        is_grouping(pairs, groups),
    ensures
        0 <= g < h < groups.len() ==> groups[g].0@ != groups[h].0@,
        0 <= p < pairs.len() ==> exists|x: int|
            0 <= x < groups.len() && #[trigger] groups[x].0@ == pairs[p].0
                && groups[x].1@.contains(pairs[p].1),
        0 <= g < groups.len() ==> groups[g].1@.len() > 0,
        0 <= g < groups.len() && 0 <= k < groups[g].1@.len() ==> pairs.contains(
            (groups[g].0@, groups[g].1@[k]),
        ),
{
    if 0 <= g < h < groups.len() {
        assert(groups[g].0@ != groups[h].0@);
    }
    if 0 <= p < pairs.len() {
        let id = pairs[p].0;
        assert(mentions(pairs, id));
        let x = choose|x: int| 0 <= x < groups.len() && #[trigger] groups[x].0@ == id;
        let from = lemma_values_places(pairs, id);
        assert(from.contains(p));
        let i = choose|i: int| 0 <= i < from.len() && from[i] == p;
        assert(pairs[from[i]] == (id, values_for(pairs, id)[i]));
        assert(groups[x].1@ == values_for(pairs, groups[x].0@));
        assert(groups[x].1@[i] == pairs[p].1);
    }
    if 0 <= g < groups.len() {
        let id = groups[g].0@;
        let from = lemma_values_places(pairs, id);
        assert(groups[g].1@ == values_for(pairs, id));
        assert(mentions(pairs, id));
        let q = choose|q: int| 0 <= q < pairs.len() && #[trigger] pairs[q].0 == id;
        assert(pairs[q].0 == id);
        assert(from.contains(q));
        if 0 <= k < groups[g].1@.len() {
            assert(pairs[from[k]] == (id, groups[g].1@[k]));
        }
    }
}

/// A lexical score is computed from what the index holds: the hit of a document
/// in a term's postings has the document's own term frequency and length, and
/// the number of documents that have the term.
pub proof fn law_hits_are_postings(list: Seq<(Seq<char>, Posting)>, i: int)
    requires
        list.len() <= u64::MAX,
    ensures
        hits_of_term(list).len() == list.len(),
        0 <= i < list.len() ==> {
            let (id, h) = hits_of_term(list)[i];
            &&& id == list[i].0
            &&& h.tf == list[i].1.tf
            &&& h.len == list[i].1.len
            &&& h.df == list.len()
        },
{
}

/// The hits of several terms are those of the first, then those of the others.
pub proof fn law_hits_of_terms_stand_one_after_the_other(
    lists: Seq<Seq<(Seq<char>, Posting)>>,
    last: Seq<(Seq<char>, Posting)>,
)
    ensures
        hits_of_terms(lists.push(last)) == hits_of_terms(lists) + hits_of_term(last),
        hits_of_terms(seq![]).len() == 0,
        postings_views(seq![]).len() == 0,
{
    assert(lists.push(last).drop_last() =~= lists);
}

/// Ranks count from one, in the order of the list, and lists are ranked one
/// after the other.
pub proof fn law_ranks_count_from_one(
    list: Seq<Seq<char>>,
    lists: Seq<Seq<Seq<char>>>,
    i: int,
)
    requires
        list.len() < u64::MAX,
    ensures
        ranks_of_list(list).len() == list.len(),
        0 <= i < list.len() ==> ranks_of_list(list)[i].0 == list[i] && ranks_of_list(list)[i].1
            == i + 1,
        ranks_of_lists(lists.push(list)) == ranks_of_lists(lists) + ranks_of_list(list),
        ranks_of_lists(seq![]).len() == 0,
{
    assert(lists.push(list).drop_last() =~= lists);
}

/// Pairs have their names and values, a list of terms the postings of each, and
/// ranked lists their ids, in order.
pub proof fn law_index_views_hold_every_item<T>(
    pairs: Seq<(String, T)>,
    terms: Seq<(String, Postings)>,
    lists: Seq<Vec<String>>,
    i: int,
    j: int,
)
    ensures
        pair_views(pairs).len() == pairs.len(),
        0 <= i < pairs.len() ==> pair_views(pairs)[i].0 == pairs[i].0@ && pair_views(pairs)[i].1
            == pairs[i].1,
        postings_views(terms).len() == terms.len(),
        0 <= i < terms.len() ==> postings_views(terms)[i].len() == terms[i].1@.len(),
        0 <= i < terms.len() && 0 <= j < terms[i].1@.len() ==> postings_views(terms)[i][j].0
            == terms[i].1@[j].0@ && postings_views(terms)[i][j].1 == terms[i].1@[j].1,
        list_views(lists).len() == lists.len(),
        0 <= i < lists.len() ==> list_views(lists)[i].len() == lists[i]@.len(),
        0 <= i < lists.len() && 0 <= j < lists[i]@.len() ==> list_views(lists)[i][j] == lists[i]@[j]@,
{
}

/// How many lists have a posting for a document is the number of positions of
/// such lists.
pub proof fn law_lists_are_counted_by_position(
    lists: Seq<Seq<(Seq<char>, Posting)>>,
    id: Seq<char>,
)
    ensures
        Set::new(|i: int| 0 <= i < lists.len() && mentions(lists[i], id)).finite(),
        lists_with(lists, id) == Set::new(
            |i: int| 0 <= i < lists.len() && mentions(lists[i], id),
        ).len(),
    decreases lists.len(),
{
    let s = Set::new(|i: int| 0 <= i < lists.len() && mentions(lists[i], id));
    if lists.len() == 0 {
        assert(s =~= Set::empty());
    } else {
        let rest = lists.drop_last();
        let t = Set::new(|i: int| 0 <= i < rest.len() && mentions(rest[i], id));
        law_lists_are_counted_by_position(rest, id);
        if mentions(lists.last(), id) {
            assert(s =~= t.insert(rest.len() as int));
        } else {
            assert(s =~= t);
        }
    }
}

} // verus!
