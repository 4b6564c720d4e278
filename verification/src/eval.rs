//! The evaluation harness: benchmark files, judgments, and what the metrics are
//! computed from.

use vstd::prelude::*;
use vstd::relations::injective_on;
use vstd::set_lib::{lemma_int_range, lemma_len_subset, lemma_map_size, set_int_range};
use vstd::string::StringExecFns;

use crate::error::RrfError;
use crate::json::{is_json, json_member, member_string};
use crate::number::{decimal, law_written_numbers_are_read_back, number_in, parse_at_most};
use crate::order::same_text;
use crate::score::{
    f64_rank, first_by, is_order, key_views, lemma_first_by, lemma_ordering_exists,
    lemma_precedes_asymmetric, order_by, ordering, precedes, rank_f64, KeyView, SortKey,
};
use crate::strset::lemma_str_irreflexive;
use crate::text::{
    blank, is_blank, law_pieces_part_at_the_separator, law_trimming_takes_the_ends_off,
    lemma_shift, lines, lines_of, pieces, split_at_each, texts, trim, trimmed, whitespace,
};

verus! {

/// The number that a setting holds; the default where it is not set, or holds
/// no number.
pub fn env_usize(value: Option<&str>, default: usize) -> (r: usize)
    ensures
        r == (match value {
            Some(v) => match number_in(v@, usize::MAX as nat) {
                Some(n) => n as usize,
                None => default,
            },
            None => default,
        }),
{
    match value {
        None => default,
        Some(v) => match parse_at_most(v, usize::MAX as u64) {
            Some(n) => n as usize,
            None => default,
        },
    }
}

/// The string member of a JSON object, or nothing.
pub open spec fn member_or_empty(line: Seq<char>, name: Seq<char>) -> Seq<char> {
    match json_member(line, name) {
        Some(s) => s,
        None => ""@,
    }
}

fn member(line: &str, name: &str) -> (r: Result<String, RrfError>)
    ensures
        is_json(line@) ==> (r matches Ok(s) && s@ == member_or_empty(line@, name@)),
        !is_json(line@) ==> (r matches Err(RrfError::Json(_))),
{
    match member_string(line, name) {
        Ok(Some(s)) => Ok(s),
        Ok(None) => Ok("".to_string()),
        Err(e) => Err(RrfError::Json(e)),
    }
}

// ---- the corpus ----------------------------------------------------------------------

/// A document of the corpus.
#[derive(Debug)]
pub struct CorpusDoc {
    pub id: String,
    pub text: String,
}

/// A document of the corpus: its id and its text.
pub type CorpusView = (Seq<char>, Seq<char>);

/// The documents of a list.
pub open spec fn corpus_views(v: Seq<CorpusDoc>) -> Seq<CorpusView> {
    v.map_values(|d: CorpusDoc| (d.id@, d.text@))
}

/// The document on a line: the title, if there is one, is prepended.
pub open spec fn doc_on(line: Seq<char>) -> CorpusView {
    let title = member_or_empty(line, "title"@);
    let text = member_or_empty(line, "text"@);
    (
        member_or_empty(line, "_id"@),
        if title.len() == 0 {
            text
        } else {
            title + ". "@ + text
        },
    )
}

/// The documents on lines, where `taken` were taken before: blank lines are
/// passed over, a line that is no JSON fails, and with a limit above zero no
/// more are taken.
pub open spec fn corpus_on(ls: Seq<Seq<char>>, limit: nat, taken: nat) -> Option<Seq<CorpusView>>
    decreases ls.len(),
{
    if ls.len() == 0 {
        Some(seq![])
    } else if blank(ls[0]) {
        corpus_on(ls.drop_first(), limit, taken)
    } else if !is_json(ls[0]) {
        None
    } else if limit > 0 && taken + 1 >= limit {
        Some(seq![doc_on(ls[0])])
    } else {
        match corpus_on(ls.drop_first(), limit, taken + 1) {
            Some(rest) => Some(seq![doc_on(ls[0])] + rest),
            None => None,
        }
    }
}

/// What follows once some documents are taken.
spec fn corpus_after(
    out: Seq<CorpusView>,
    rest: Option<Seq<CorpusView>>,
) -> Option<Seq<CorpusView>> {
    match rest {
        Some(more) => Some(out + more),
        None => None,
    }
}

/// Reads a corpus, one JSON object per line with `_id`, `title` and `text`;
/// with a limit above zero, no more documents than that.
pub fn load_corpus(file: &str, limit: usize) -> (r: Result<Vec<CorpusDoc>, RrfError>)
    ensures
        match corpus_on(lines_of(file@), limit as nat, 0) {
            Some(docs) => r matches Ok(v) && corpus_views(v@) == docs,
            None => r matches Err(RrfError::Json(_)),
        },
{
    let ls = lines(file);
    let ghost all = texts(ls@);
    let ghost want = corpus_on(all, limit as nat, 0);
    let mut out: Vec<CorpusDoc> = Vec::new();
    let mut i: usize = 0;
    proof {
        assert(all.skip(0) =~= all);
        assert(corpus_views(out@) =~= Seq::<CorpusView>::empty());
        if want is Some {
            assert(corpus_views(out@) + want->0 =~= want->0);
        }
    }
    while i < ls.len()
        invariant
            i <= ls.len(),
            all == texts(ls@),
            all == lines_of(file@),
            want == corpus_on(all, limit as nat, 0),
            out@.len() <= i,
            want == corpus_after(
                corpus_views(out@),
                corpus_on(all.skip(i as int), limit as nat, out@.len()),
            ),
        decreases ls.len() - i,
    {
        let ghost here = all.skip(i as int);
        let ghost so_far = out@;
        let line = ls[i].as_str();
        proof {
            assert(here[0] == line@);
            assert(here.drop_first() =~= all.skip(i + 1));
        }
        if is_blank(line) {
            i = i + 1;
            continue ;
        }
        let id = match member(line, "_id") {
            Ok(s) => s,
            Err(e) => {
                return Err(e);
            },
        };
        let title = match member(line, "title") {
            Ok(s) => s,
            Err(e) => {
                return Err(e);
            },
        };
        let text = match member(line, "text") {
            Ok(s) => s,
            Err(e) => {
                return Err(e);
            },
        };
        let full = if title.as_str().is_empty() {
            text
        } else {
            let mut full = title;
            full.append(". ");
            full.append(text.as_str());
            full
        };
        let doc = CorpusDoc { id, text: full };
        let ghost dv: CorpusView = (doc.id@, doc.text@);
        out.push(doc);
        proof {
            assert(dv == doc_on(line@));
            assert(corpus_views(out@) =~= corpus_views(so_far).push(dv));
            let rest = corpus_on(all.skip(i + 1), limit as nat, out@.len());
            if rest is Some {
                assert(corpus_views(so_far) + (seq![dv] + rest->0) =~= corpus_views(out@)
                    + rest->0);
            }
            assert(corpus_views(so_far) + seq![dv] =~= corpus_views(out@));
        }
        if limit > 0 && out.len() >= limit {
            return Ok(out);
        }
        i = i + 1;
    }
    proof {
        assert(all.skip(i as int) =~= Seq::<Seq<char>>::empty());
        assert(corpus_views(out@) + Seq::<CorpusView>::empty() =~= corpus_views(out@));
    }
    Ok(out)
}

// ---- judgments -----------------------------------------------------------------------

/// A relevance judgment.
#[derive(Debug)]
pub struct Judgment {
    pub query: String,
    pub doc: String,
    pub grade: u8,
}

/// A relevance judgment: the query, the document, the grade.
pub type JudgmentView = (Seq<char>, Seq<char>, u8);

/// The judgments of a list.
pub open spec fn judgment_views(v: Seq<Judgment>) -> Seq<JudgmentView> {
    v.map_values(|j: Judgment| (j.query@, j.doc@, j.grade))
}

/// The grade in a field: zero where it is no number of a byte.
pub open spec fn grade_in(field: Seq<char>) -> u8 {
    match number_in(trimmed(field), 255) {
        Some(n) => n as u8,
        None => 0,
    }
}

/// The judgment on a line of tab-separated fields: the query, the document and
/// the grade. There is none where a field is missing, or the grade is zero.
pub open spec fn judgment_on(line: Seq<char>) -> Option<JudgmentView> {
    let p = pieces(line, '\t');
    if blank(line) || p.len() < 3 || grade_in(p[2]) == 0 {
        None
    } else {
        Some((p[0], p[1], grade_in(p[2])))
    }
}

/// The judgments on lines.
pub open spec fn judgments_on(ls: Seq<Seq<char>>) -> Seq<JudgmentView>
    decreases ls.len(),
{
    if ls.len() == 0 {
        seq![]
    } else {
        let rest = judgments_on(ls.drop_last());
        match judgment_on(ls.last()) {
            Some(j) => rest.push(j),
            None => rest,
        }
    }
}

/// The lines behind the header.
pub open spec fn body_of(ls: Seq<Seq<char>>) -> Seq<Seq<char>> {
    if ls.len() == 0 {
        ls
    } else {
        ls.drop_first()
    }
}

/// Reads judgments from tab-separated lines behind a header.
pub fn load_judgments(file: &str) -> (r: Vec<Judgment>)
    ensures
        judgment_views(r@) == judgments_on(body_of(lines_of(file@))),
{
    let ls = lines(file);
    let ghost all = texts(ls@);
    let ghost body = body_of(all);
    let mut out: Vec<Judgment> = Vec::new();
    if ls.len() == 0 {
        assert(judgment_views(out@) =~= judgments_on(body));
        return out;
    }
    let mut i: usize = 1;
    assert(body.take(0) =~= Seq::<Seq<char>>::empty());
    assert(judgment_views(out@) =~= Seq::<JudgmentView>::empty());
    while i < ls.len()
        invariant
            1 <= i <= ls.len(),
            all == texts(ls@),
            body == all.drop_first(),
            judgment_views(out@) == judgments_on(body.take(i - 1)),
        decreases ls.len() - i,
    {
        let line = ls[i].as_str();
        let ghost so_far = out@;
        proof {
            assert(body.take(i as int).drop_last() =~= body.take(i - 1));
            assert(body.take(i as int).last() == body[i - 1]);
            assert(body[i - 1] == all[i as int]);
            assert(all[i as int] == line@);
        }
        if !is_blank(line) {
            let fields = split_at_each(line, '\t');
            if fields.len() >= 3 {
                proof {
                    assert(pieces(line@, '\t')[0] == fields@[0]@);
                    assert(pieces(line@, '\t')[1] == fields@[1]@);
                    assert(pieces(line@, '\t')[2] == fields@[2]@);
                }
                let field = trim(fields[2].as_str());
                let grade: u8 = match parse_at_most(field.as_str(), 255) {
                    Some(n) => n as u8,
                    None => 0,
                };
                if grade > 0 {
                    out.push(
                        Judgment { query: fields[0].clone(), doc: fields[1].clone(), grade },
                    );
                    assert(judgment_views(out@) =~= judgment_views(so_far).push(
                        (fields@[0]@, fields@[1]@, grade),
                    ));
                }
            }
        }
        i = i + 1;
    }
    assert(body.take(i - 1) =~= body);
    out
}

/// Some document is judged relevant to the query.
pub open spec fn judged(js: Seq<JudgmentView>, query: Seq<char>) -> bool {
    exists|i: int| 0 <= i < js.len() && (#[trigger] js[i]).0 == query
}

/// The grades of the documents that are judged for a query; a later judgment
/// of a document replaces an earlier one.
pub open spec fn grades_for(js: Seq<JudgmentView>, query: Seq<char>) -> Map<Seq<char>, u8>
    decreases js.len(),
{
    if js.len() == 0 {
        Map::empty()
    } else {
        let rest = grades_for(js.drop_last(), query);
        if js.last().0 == query {
            rest.insert(js.last().1, js.last().2)
        } else {
            rest
        }
    }
}

/// `rels` are the grades of a map: each document once.
pub open spec fn are_grades(m: Map<Seq<char>, u8>, rels: Seq<(String, u8)>) -> bool {
    &&& forall|i: int|
        0 <= i < rels.len() ==> m.contains_key((#[trigger] rels[i]).0@) && m[rels[i].0@]
            == rels[i].1
    &&& forall|d: Seq<char>| #[trigger]
        m.contains_key(d) ==> exists|i: int| 0 <= i < rels.len() && (#[trigger] rels[i]).0@ == d
    &&& forall|i: int, j: int|
        0 <= i < j < rels.len() ==> (#[trigger] rels[i]).0@ != (#[trigger] rels[j]).0@
}

fn put_grade(rels: &mut Vec<(String, u8)>, doc: &str, grade: u8, Ghost(m): Ghost<Map<Seq<char>, u8>>)
    requires
        are_grades(m, old(rels)@),
    ensures
        are_grades(m.insert(doc@, grade), final(rels)@),
{
    let ghost before = rels@;
    let ghost n = m.insert(doc@, grade);
    let mut i: usize = 0;
    while i < rels.len()
        invariant
            i <= rels.len(),
            rels@ == before,
            are_grades(m, before),
            n == m.insert(doc@, grade),
            forall|j: int| 0 <= j < i ==> (#[trigger] before[j]).0@ != doc@,
        decreases rels.len() - i,
    {
        if same_text(rels[i].0.as_str(), doc) {
            rels.set(i, (doc.to_string(), grade));
            proof {
                assert forall|j: int| 0 <= j < rels@.len() implies (#[trigger] rels@[j]).0@
                    == before[j].0@ by {}
                assert forall|j: int, k: int| 0 <= j < k < rels@.len() implies (
                #[trigger] rels@[j]).0@ != (#[trigger] rels@[k]).0@ by {
                    assert(before[j].0@ != before[k].0@);
                }
                assert forall|j: int| 0 <= j < rels@.len() implies n.contains_key(
                    (#[trigger] rels@[j]).0@,
                ) && n[rels@[j].0@] == rels@[j].1 by {
                    if j != i {
                        assert(rels@[j] == before[j]);
                        if j < i {
                            assert(before[j].0@ != before[i as int].0@);
                        } else {
                            assert(before[i as int].0@ != before[j].0@);
                        }
                    }
                }
                assert forall|d: Seq<char>| #[trigger] n.contains_key(d) implies exists|j: int|
                    0 <= j < rels@.len() && (#[trigger] rels@[j]).0@ == d by {
                    if d == doc@ {
                        assert(rels@[i as int].0@ == d);
                    } else {
                        assert(m.contains_key(d));
                        let j = choose|j: int|
                            0 <= j < before.len() && (#[trigger] before[j]).0@ == d;
                        assert(rels@[j].0@ == d);
                    }
                }
            }
            return ;
        }
        i = i + 1;
    }
    rels.push((doc.to_string(), grade));
    proof {
        assert forall|j: int| 0 <= j < before.len() implies (#[trigger] rels@[j]) == before[j] by {}
        assert forall|d: Seq<char>| #[trigger] n.contains_key(d) implies exists|j: int|
            0 <= j < rels@.len() && (#[trigger] rels@[j]).0@ == d by {
            if d == doc@ {
                assert(rels@[before.len() as int].0@ == d);
            } else {
                assert(m.contains_key(d));
                let j = choose|j: int| 0 <= j < before.len() && (#[trigger] before[j]).0@ == d;
                assert(rels@[j].0@ == d);
            }
        }
        assert forall|j: int, k: int| 0 <= j < k < rels@.len() implies (#[trigger] rels@[j]).0@ != (
        #[trigger] rels@[k]).0@ by {
            if k < before.len() {
                assert(before[j].0@ != before[k].0@);
            } else {
                assert(before[j].0@ != doc@);
            }
        }
    }
}

/// The grades of the documents that are judged for a query; none where no
/// document is.
pub fn grades_of(js: &Vec<Judgment>, query: &str) -> (r: Option<Vec<(String, u8)>>)
    ensures
        match r {
            Some(v) => judged(judgment_views(js@), query@) && are_grades(
                grades_for(judgment_views(js@), query@),
                v@,
            ),
            None => !judged(judgment_views(js@), query@),
        },
{
    let ghost all = judgment_views(js@);
    let mut rels: Vec<(String, u8)> = Vec::new();
    let mut any = false;
    let mut i: usize = 0;
    assert(all.take(0) =~= Seq::<JudgmentView>::empty());
    while i < js.len()
        invariant
            i <= js.len(),
            all == judgment_views(js@),
            any <==> exists|j: int| 0 <= j < i && (#[trigger] all[j]).0 == query@,
            are_grades(grades_for(all.take(i as int), query@), rels@),
        decreases js.len() - i,
    {
        let ghost m = grades_for(all.take(i as int), query@);
        proof {
            assert(all.take(i + 1).drop_last() =~= all.take(i as int));
            assert(all.take(i + 1).last() == all[i as int]);
        }
        if same_text(js[i].query.as_str(), query) {
            any = true;
            assert(all[i as int].0 == query@);
            put_grade(&mut rels, js[i].doc.as_str(), js[i].grade, Ghost(m));
        }
        i = i + 1;
    }
    assert(all.take(i as int) =~= all);
    if any {
        Some(rels)
    } else {
        None
    }
}

// ---- queries -------------------------------------------------------------------------

/// One benchmark query with its graded judgments.
#[derive(Debug)]
pub struct EvalQuery {
    pub id: String,
    pub text: String,
    /// The grades of the documents that are judged, each above zero.
    pub rels: Vec<(String, u8)>,
}

/// One benchmark query: its id, its text, and its judgments.
pub type QueryView = (Seq<char>, Seq<char>, Map<Seq<char>, u8>);

/// The query is the one of a view.
pub open spec fn is_query(q: EvalQuery, v: QueryView) -> bool {
    q.id@ == v.0 && q.text@ == v.1 && are_grades(v.2, q.rels@)
}

/// The queries are those of views, in order.
pub open spec fn are_queries(qs: Seq<EvalQuery>, vs: Seq<QueryView>) -> bool {
    qs.len() == vs.len() && forall|i: int| 0 <= i < qs.len() ==> is_query(#[trigger] qs[i], vs[i])
}

/// The query on a line.
pub open spec fn query_on(line: Seq<char>, js: Seq<JudgmentView>) -> QueryView {
    let id = member_or_empty(line, "_id"@);
    (id, member_or_empty(line, "text"@), grades_for(js, id))
}

/// The queries on lines, where those in `taken` were taken before: only queries
/// with judgments are taken, each id once; blank lines are passed over, a line
/// that is no JSON fails, and with a limit above zero no more are taken.
pub open spec fn queries_on(
    ls: Seq<Seq<char>>,
    js: Seq<JudgmentView>,
    limit: nat,
    taken: Seq<Seq<char>>,
) -> Option<Seq<QueryView>>
    decreases ls.len(),
{
    if ls.len() == 0 {
        Some(seq![])
    } else if blank(ls[0]) {
        queries_on(ls.drop_first(), js, limit, taken)
    } else if !is_json(ls[0]) {
        None
    } else {
        let q = query_on(ls[0], js);
        if !judged(js, q.0) || taken.contains(q.0) {
            queries_on(ls.drop_first(), js, limit, taken)
        } else if limit > 0 && taken.len() + 1 >= limit {
            Some(seq![q])
        } else {
            match queries_on(ls.drop_first(), js, limit, taken.push(q.0)) {
                Some(rest) => Some(seq![q] + rest),
                None => None,
            }
        }
    }
}

fn is_taken(out: &Vec<EvalQuery>, id: &str) -> (r: bool)
    ensures
        r == out@.map_values(|q: EvalQuery| q.id@).contains(id@),
{
    let ghost ids = out@.map_values(|q: EvalQuery| q.id@);
    let mut i: usize = 0;
    while i < out.len()
        invariant
            i <= out.len(),
            ids == out@.map_values(|q: EvalQuery| q.id@),
            forall|j: int| 0 <= j < i ==> ids[j] != id@,
        decreases out.len() - i,
    {
        if same_text(out[i].id.as_str(), id) {
            assert(ids[i as int] == id@);
            return true;
        }
        i = i + 1;
    }
    false
}

/// What the lines from here on still give, and what was taken, make the whole.
spec fn queries_left(
    want: Option<Seq<QueryView>>,
    out: Seq<EvalQuery>,
    rest: Option<Seq<QueryView>>,
) -> bool {
    match want {
        None => rest is None,
        Some(all) => rest matches Some(more) && out.len() + more.len() == all.len() && more
            == all.skip(out.len() as int) && are_queries(out, all.take(out.len() as int)),
    }
}

/// Reads the benchmark queries that have judgments: an unjudged query has no
/// ground truth, and scoring it would be noise. With a limit above zero, no
/// more than that.
pub fn load_queries(judgments: &str, queries: &str, limit: usize) -> (r: Result<
    Vec<EvalQuery>,
    RrfError,
>)
    ensures
        match queries_on(
            lines_of(queries@),
            judgments_on(body_of(lines_of(judgments@))),
            limit as nat,
            seq![],
        ) {
            Some(qs) => r matches Ok(v) && are_queries(v@, qs),
            None => r matches Err(RrfError::Json(_)),
        },
{
    let js = load_judgments(judgments);
    let ghost jv = judgment_views(js@);
    let ls = lines(queries);
    let ghost all = texts(ls@);
    let ghost want = queries_on(all, jv, limit as nat, seq![]);
    let mut out: Vec<EvalQuery> = Vec::new();
    let mut i: usize = 0;
    proof {
        assert(all.skip(0) =~= all);
        assert(out@.map_values(|q: EvalQuery| q.id@) =~= Seq::<Seq<char>>::empty());
        if want is Some {
            assert(want->0.skip(0) =~= want->0);
        }
    }
    while i < ls.len()
        invariant
            i <= ls.len(),
            all == texts(ls@),
            all == lines_of(queries@),
            jv == judgment_views(js@),
            jv == judgments_on(body_of(lines_of(judgments@))),
            want == queries_on(all, jv, limit as nat, seq![]),
            queries_left(
                want,
                out@,
                queries_on(
                    all.skip(i as int),
                    jv,
                    limit as nat,
                    out@.map_values(|q: EvalQuery| q.id@),
                ),
            ),
        decreases ls.len() - i,
    {
        let ghost here = all.skip(i as int);
        let ghost before = out@;
        let ghost ids = before.map_values(|q: EvalQuery| q.id@);
        let line = ls[i].as_str();
        proof {
            assert(here[0] == line@);
            assert(here.drop_first() =~= all.skip(i + 1));
        }
        if is_blank(line) {
            i = i + 1;
            continue ;
        }
        let id = match member(line, "_id") {
            Ok(s) => s,
            Err(e) => {
                return Err(e);
            },
        };
        if is_taken(&out, id.as_str()) {
            i = i + 1;
            continue ;
        }
        let rels = match grades_of(&js, id.as_str()) {
            Some(rels) => rels,
            None => {
                i = i + 1;
                continue ;
            },
        };
        let text = match member(line, "text") {
            Ok(s) => s,
            Err(e) => {
                return Err(e);
            },
        };
        let q = EvalQuery { id, text, rels };
        let ghost qv = query_on(line@, jv);
        assert(is_query(q, qv));
        out.push(q);
        proof {
            let now = out@.map_values(|q: EvalQuery| q.id@);
            assert(now =~= ids.push(qv.0));
            let rest = queries_on(all.skip(i + 1), jv, limit as nat, now);
            let n = before.len() as int;
            if want is Some {
                let w = want->0;
                let more = w.skip(n);
                assert(more[0] == w[n]);
                assert(more[0] == qv);
                assert(are_queries(out@, w.take(n + 1))) by {
                    assert forall|j: int| 0 <= j < out@.len() implies is_query(
                        #[trigger] out@[j],
                        w.take(n + 1)[j],
                    ) by {
                        if j < n {
                            assert(out@[j] == before[j]);
                            assert(is_query(before[j], w.take(n)[j]));
                        }
                    }
                }
                if !(limit > 0 && n + 1 >= limit) {
                    assert(more == seq![qv] + rest->0);
                    assert((seq![qv] + rest->0).skip(1) =~= rest->0);
                    assert(w.skip(n + 1) =~= more.skip(1));
                } else {
                    assert(more =~= seq![qv]);
                    assert(w.take(n + 1) =~= w);
                }
            }
        }
        if limit > 0 && out.len() >= limit {
            return Ok(out);
        }
        i = i + 1;
    }
    proof {
        assert(all.skip(i as int) =~= Seq::<Seq<char>>::empty());
        if want is Some {
            assert(want->0.take(out@.len() as int) =~= want->0);
        }
    }
    Ok(out)
}

// ---- what the metrics are computed from ------------------------------------------------

/// The arms of the ablation ladder: the reranker's only where there is one.
pub fn arms(reranker: bool) -> (r: Vec<&'static str>)
    ensures
        r@.len() == (if reranker {
            4int
        } else {
            3
        }),
        r@[0]@ == "bm25"@,
        r@[1]@ == "dense"@,
        r@[2]@ == "hybrid"@,
        reranker ==> r@[3]@ == "rro"@,
{
    let mut out: Vec<&'static str> = Vec::new();
    out.push("bm25");
    out.push("dense");
    out.push("hybrid");
    if reranker {
        out.push("rro");
    }
    out
}

/// How an arm of the ladder searches.
#[derive(Debug, Clone, Copy, PartialEq, Eq, Structural)]
pub enum ArmPath {
    /// Lexical search alone: no model, no vectors.
    Lexical,
    /// Vector search alone.
    Dense,
    /// Vector and lexical search, fused.
    Hybrid,
    /// The fused search, reranked.
    Reranked,
}

/// How an arm of the ladder searches; none where there is no such arm.
pub open spec fn arm_path(arm: Seq<char>) -> Option<ArmPath> {
    if arm == "bm25"@ {
        Some(ArmPath::Lexical)
    } else if arm == "dense"@ {
        Some(ArmPath::Dense)
    } else if arm == "hybrid"@ {
        Some(ArmPath::Hybrid)
    } else if arm == "rro"@ {
        Some(ArmPath::Reranked)
    } else {
        None
    }
}

/// How an arm of the ladder searches; none where there is no such arm.
pub fn path_of(arm: &str) -> (r: Option<ArmPath>)
    ensures
        r == arm_path(arm@),
{
    if same_text(arm, "bm25") {
        Some(ArmPath::Lexical)
    } else if same_text(arm, "dense") {
        Some(ArmPath::Dense)
    } else if same_text(arm, "hybrid") {
        Some(ArmPath::Hybrid)
    } else if same_text(arm, "rro") {
        Some(ArmPath::Reranked)
    } else {
        None
    }
}

/// Whether there is anything to evaluate: documents, and queries over them.
pub fn has_data(docs: &Vec<CorpusDoc>, queries: &Vec<EvalQuery>) -> (r: bool)
    ensures
        r == (docs@.len() > 0 && queries@.len() > 0),
{
    docs.len() > 0 && queries.len() > 0
}

/// The grade of a document: zero where it is not judged.
pub open spec fn grade_of(m: Map<Seq<char>, u8>, id: Seq<char>) -> u8 {
    if m.contains_key(id) {
        m[id]
    } else {
        0
    }
}

/// The grades of a query by document.
pub open spec fn grade_map(rels: Seq<(String, u8)>) -> Map<Seq<char>, u8>
    decreases rels.len(),
{
    if rels.len() == 0 {
        Map::empty()
    } else {
        grade_map(rels.drop_first()).insert(rels[0].0@, rels[0].1)
    }
}

/// The grade of a document among those of a query.
pub fn grade(rels: &Vec<(String, u8)>, id: &str) -> (r: u8)
    ensures
        r == grade_of(grade_map(rels@), id@),
{
    let ghost all = rels@;
    let mut i: usize = 0;
    assert(all.skip(0) =~= all);
    while i < rels.len()
        invariant
            i <= rels.len(),
            all == rels@,
            grade_of(grade_map(all), id@) == grade_of(grade_map(all.skip(i as int)), id@),
        decreases rels.len() - i,
    {
        let ghost here = all.skip(i as int);
        proof {
            assert(here[0] == all[i as int]);
            assert(here.drop_first() =~= all.skip(i + 1));
        }
        if same_text(rels[i].0.as_str(), id) {
            return rels[i].1;
        }
        i = i + 1;
    }
    0
}

/// A query's grades are read back as they were judged.
pub proof fn law_grades_are_read_back(m: Map<Seq<char>, u8>, rels: Seq<(String, u8)>, id: Seq<char>)
    requires
        are_grades(m, rels),
    ensures
        grade_of(grade_map(rels), id) == grade_of(m, id),
{
    lemma_grade_map(rels, id);
    if m.contains_key(id) {
        let i = choose|i: int| 0 <= i < rels.len() && (#[trigger] rels[i]).0@ == id;
        assert(rels[i].0@ == id);
    }
}

proof fn lemma_grade_map(rels: Seq<(String, u8)>, id: Seq<char>)
    requires
        forall|i: int, j: int|
            0 <= i < j < rels.len() ==> (#[trigger] rels[i]).0@ != (#[trigger] rels[j]).0@,
    ensures
        grade_map(rels).contains_key(id) <==> exists|i: int|
            0 <= i < rels.len() && (#[trigger] rels[i]).0@ == id,
        forall|i: int|
            0 <= i < rels.len() && (#[trigger] rels[i]).0@ == id ==> grade_map(rels)[id]
                == rels[i].1,
    decreases rels.len(),
{
    if rels.len() > 0 {
        let rest = rels.drop_first();
        assert forall|i: int, j: int| 0 <= i < j < rest.len() implies (#[trigger] rest[i]).0@ != (
        #[trigger] rest[j]).0@ by {
            assert(rels[i + 1].0@ != rels[j + 1].0@);
        }
        lemma_grade_map(rest, id);
        if exists|i: int| 0 <= i < rest.len() && (#[trigger] rest[i]).0@ == id {
            let i = choose|i: int| 0 <= i < rest.len() && (#[trigger] rest[i]).0@ == id;
            assert(rels[i + 1].0@ == id);
        }
        if exists|i: int| 0 <= i < rels.len() && (#[trigger] rels[i]).0@ == id {
            let i = choose|i: int| 0 <= i < rels.len() && (#[trigger] rels[i]).0@ == id;
            if i > 0 {
                assert(rest[i - 1].0@ == id);
            }
        }
        assert forall|i: int|
            0 <= i < rels.len() && (#[trigger] rels[i]).0@ == id implies grade_map(rels)[id]
            == rels[i].1 by {
            if i > 0 {
                assert(rels[0].0@ != rels[i].0@);
                assert(rest[i - 1].0@ == id);
            }
        }
    }
}

/// The gains of a ranking: the grades of its first `k` documents, in order.
pub open spec fn gains_of(ids: Seq<String>, rels: Seq<(String, u8)>, k: nat) -> Seq<u8> {
    Seq::new(
        if k < ids.len() {
            k
        } else {
            ids.len()
        },
        |i: int| grade_of(grade_map(rels), ids[i]@),
    )
}

/// The gains of a ranking: the grades of its first `k` documents, in order.
pub fn gains(ids: &Vec<String>, rels: &Vec<(String, u8)>, k: usize) -> (r: Vec<u8>)
    ensures
        r@ == gains_of(ids@, rels@, k as nat),
{
    let n: usize = if k < ids.len() {
        k
    } else {
        ids.len()
    };
    let mut out: Vec<u8> = Vec::new();
    let mut i: usize = 0;
    while i < n
        invariant
            i <= n <= ids.len(),
            out@.len() == i,
            forall|j: int|
                0 <= j < i ==> #[trigger] out@[j] == grade_of(grade_map(rels@), ids@[j]@),
        decreases n - i,
    {
        out.push(grade(rels, ids[i].as_str()));
        i = i + 1;
    }
    out
}

/// The grades above zero, in order.
pub open spec fn positive_grades(rels: Seq<(String, u8)>) -> Seq<u8>
    decreases rels.len(),
{
    if rels.len() == 0 {
        seq![]
    } else {
        let rest = positive_grades(rels.drop_last());
        if rels.last().1 > 0 {
            rest.push(rels.last().1)
        } else {
            rest
        }
    }
}

/// The higher grade comes first.
pub open spec fn grade_keys(grades: Seq<u8>) -> Seq<KeyView> {
    grades.map_values(|g: u8| (255 - g, ""@))
}

/// The best gains that a ranking of `k` documents could have: the highest
/// grades above zero, in order.
pub open spec fn ideal_of(rels: Seq<(String, u8)>, k: nat) -> Seq<u8> {
    first_by(positive_grades(rels), grade_keys(positive_grades(rels)), k)
}

/// The best gains that a ranking of `k` documents could have: the highest
/// grades above zero, in order.
pub fn ideal_gains(rels: &Vec<(String, u8)>, k: usize) -> (r: Vec<u8>)
    ensures
        r@ == ideal_of(rels@, k as nat),
{
    let ghost want = positive_grades(rels@);
    let mut grades: Vec<u8> = Vec::new();
    let mut i: usize = 0;
    assert(rels@.take(0) =~= Seq::<(String, u8)>::empty());
    while i < rels.len()
        invariant
            i <= rels.len(),
            grades@ == positive_grades(rels@.take(i as int)),
        decreases rels.len() - i,
    {
        assert(rels@.take(i + 1).drop_last() =~= rels@.take(i as int));
        assert(rels@.take(i + 1).last() == rels@[i as int]);
        if rels[i].1 > 0 {
            grades.push(rels[i].1);
        }
        i = i + 1;
    }
    assert(rels@.take(i as int) =~= rels@);
    let mut keys: Vec<SortKey> = Vec::new();
    let mut j: usize = 0;
    while j < grades.len()
        invariant
            j <= grades.len(),
            keys@.len() == j,
            forall|p: int| 0 <= p < j ==> (#[trigger] keys@[p])@ == grade_keys(grades@)[p],
        decreases grades.len() - j,
    {
        let major: u64 = (255 - grades[j]) as u64;
        keys.push(SortKey { major, minor: "".to_string() });
        j = j + 1;
    }
    assert(key_views(keys@) =~= grade_keys(grades@));
    let order = order_by(&keys);
    let n: usize = if k < order.len() {
        k
    } else {
        order.len()
    };
    let mut out: Vec<u8> = Vec::new();
    let mut m: usize = 0;
    while m < n
        invariant
            m <= n <= order.len(),
            is_order(grade_keys(grades@), order@),
            out@.len() == m,
            forall|p: int| 0 <= p < m ==> #[trigger] out@[p] == grades@[order@[p] as int],
        decreases n - m,
    {
        out.push(grades[order[m]]);
        m = m + 1;
    }
    assert(out@ =~= first_by(want, grade_keys(want), k as nat));
    out
}

/// Grades, the highest first.
pub open spec fn highest_first(grades: Seq<u8>) -> Seq<u8> {
    first_by(grades, grade_keys(grades), grades.len())
}

/// Where the grades of at least `t` stand.
spec fn at_least(grades: Seq<u8>, t: u8) -> Set<int> {
    Set::new(|i: int| 0 <= i < grades.len() && grades[i] >= t)
}

proof fn lemma_at_least_is_finite(grades: Seq<u8>, t: u8)
    ensures
        at_least(grades, t).finite(),
{
    lemma_int_range(0, grades.len() as int);
    lemma_len_subset(at_least(grades, t), set_int_range(0, grades.len() as int));
}

/// The grade at `j`, counted from the highest, is at least `t` just where more
/// than `j` grades are.
proof fn lemma_highest_first(grades: Seq<u8>, j: int, t: u8)
    requires
        grades.len() <= usize::MAX,
        0 <= j < grades.len(),
    ensures
        highest_first(grades)[j] >= t <==> at_least(grades, t).len() > j,
{
    let keys = grade_keys(grades);
    let o = ordering(keys);
    lemma_ordering_exists(keys);
    lemma_at_least_is_finite(grades, t);
    let places = o.map_values(|p: usize| p as int);
    assert(places.no_duplicates()) by {
        assert forall|a: int, b: int|
            0 <= a < places.len() && 0 <= b < places.len() && a != b implies places[a]
            != places[b] by {
            if a < b {
                lemma_precedes_asymmetric(keys, o[a] as int, o[b] as int);
            } else {
                lemma_precedes_asymmetric(keys, o[b] as int, o[a] as int);
            }
        }
    }
    assert forall|a: int, b: int| 0 <= a < b < o.len() implies grades[#[trigger] o[a] as int]
        >= grades[#[trigger] o[b] as int] by {
        assert(precedes(keys, o[a] as int, o[b] as int));
    }
    if highest_first(grades)[j] >= t {
        let front = places.take(j + 1);
        assert(front.no_duplicates());
        front.unique_seq_to_set();
        assert forall|p: int| front.to_set().contains(p) implies at_least(grades, t).contains(
            p,
        ) by {
            let a = choose|a: int| 0 <= a < front.len() && front[a] == p;
            assert(o[a] as int == p);
            if a < j {
                assert(grades[o[a] as int] >= grades[o[j] as int]);
            }
        }
        lemma_len_subset(front.to_set(), at_least(grades, t));
    } else {
        let front = places.take(j);
        assert(front.no_duplicates());
        front.unique_seq_to_set();
        assert forall|p: int| at_least(grades, t).contains(p) implies front.to_set().contains(
            p,
        ) by {
            assert(o.contains(p as usize));
            let a = choose|a: int| 0 <= a < o.len() && o[a] == p as usize;
            if a > j {
                assert(grades[o[j] as int] >= grades[o[a] as int]);
            }
            assert(a < j);
            assert(front[a] == p);
        }
        lemma_len_subset(at_least(grades, t), front.to_set());
    }
}

/// The documents that are judged at least `t`.
spec fn judged_at_least(rels: Seq<(String, u8)>, t: u8) -> Set<Seq<char>>
    decreases rels.len(),
{
    if rels.len() == 0 {
        Set::empty()
    } else {
        let rest = judged_at_least(rels.drop_last(), t);
        if rels.last().1 >= t {
            rest.insert(rels.last().0@)
        } else {
            rest
        }
    }
}

proof fn lemma_positive_grades_are_few(rels: Seq<(String, u8)>)
    ensures
        positive_grades(rels).len() <= rels.len(),
    decreases rels.len(),
{
    if rels.len() > 0 {
        lemma_positive_grades_are_few(rels.drop_last());
    }
}

proof fn lemma_judged_at_least(rels: Seq<(String, u8)>, t: u8)
    requires
        t > 0,
    ensures
        judged_at_least(rels, t).finite(),
        judged_at_least(rels, t).len() <= at_least(positive_grades(rels), t).len(),
        forall|i: int|
            0 <= i < rels.len() && (#[trigger] rels[i]).1 >= t ==> judged_at_least(
                rels,
                t,
            ).contains(rels[i].0@),
    decreases rels.len(),
{
    lemma_at_least_is_finite(positive_grades(rels), t);
    if rels.len() > 0 {
        let rest = rels.drop_last();
        let last = rels.last();
        let p0 = positive_grades(rest);
        let p = positive_grades(rels);
        lemma_judged_at_least(rest, t);
        lemma_at_least_is_finite(p0, t);
        if last.1 >= t {
            assert(p == p0.push(last.1));
            assert(at_least(p, t) =~= at_least(p0, t).insert(p0.len() as int));
        } else {
            assert forall|i: int| at_least(p0, t).contains(i) implies at_least(p, t).contains(
                i,
            ) by {
                assert(p[i] == p0[i]);
            }
            lemma_len_subset(at_least(p0, t), at_least(p, t));
        }
        assert forall|i: int| 0 <= i < rels.len() && (#[trigger] rels[i]).1 >= t implies
            judged_at_least(rels, t).contains(rels[i].0@) by {
            if i < rest.len() {
                assert(rest[i].1 >= t);
            }
        }
    }
}

proof fn lemma_graded_is_judged(rels: Seq<(String, u8)>, id: Seq<char>) -> (i: int)
    requires
        grade_of(grade_map(rels), id) > 0,
    ensures
        0 <= i < rels.len(),
        rels[i].0@ == id,
        rels[i].1 == grade_of(grade_map(rels), id),
    decreases rels.len(),
{
    if rels[0].0@ == id {
        0
    } else {
        1 + lemma_graded_is_judged(rels.drop_first(), id)
    }
}

/// No ranking beats the ideal: put in order, the gains of a ranking that holds
/// no document twice are nowhere above the ideal ones, and there are no more of
/// them above zero.
pub proof fn law_no_ranking_beats_the_ideal(
    ids: Seq<String>,
    rels: Seq<(String, u8)>,
    k: nat,
    j: int,
)
    requires
        ids.len() <= usize::MAX,
        rels.len() <= usize::MAX,
        forall|a: int, b: int|
            0 <= a < b < ids.len() ==> (#[trigger] ids[a])@ != (#[trigger] ids[b])@,
        0 <= j < gains_of(ids, rels, k).len(),
    ensures
        highest_first(gains_of(ids, rels, k))[j] <= (if j < ideal_of(rels, k).len() {
            ideal_of(rels, k)[j]
        } else {
            0
        }),
{
    let g = gains_of(ids, rels, k);
    let t = highest_first(g)[j];
    let p = positive_grades(rels);
    if t > 0 {
        let got = at_least(g, t);
        let name = |i: int| ids[i]@;
        lemma_highest_first(g, j, t);
        lemma_at_least_is_finite(g, t);
        lemma_at_least_is_finite(p, t);
        assert(injective_on(name, got)) by {
            assert forall|a: int, b: int|
                got.contains(a) && got.contains(b) && #[trigger] name(a) == #[trigger] name(
                    b,
                ) implies a == b by {
                if a < b {
                    assert(ids[a]@ != ids[b]@);
                } else if b < a {
                    assert(ids[b]@ != ids[a]@);
                }
            }
        }
        lemma_map_size(got, got.map(name), name);
        lemma_judged_at_least(rels, t);
        assert forall|d: Seq<char>| got.map(name).contains(d) implies judged_at_least(
            rels,
            t,
        ).contains(d) by {
            let a = choose|a: int| got.contains(a) && #[trigger] name(a) == d;
            assert(g[a] == grade_of(grade_map(rels), ids[a]@));
            let i = lemma_graded_is_judged(rels, ids[a]@);
            assert(rels[i].1 >= t);
        }
        lemma_len_subset(got.map(name), judged_at_least(rels, t));
        assert(at_least(p, t).len() > j);
        lemma_int_range(0, p.len() as int);
        lemma_len_subset(at_least(p, t), set_int_range(0, p.len() as int));
        lemma_positive_grades_are_few(rels);
        lemma_highest_first(p, j, t);
        assert(ideal_of(rels, k)[j] == highest_first(p)[j]);
    }
}

/// The documents with grades above zero, in order.
pub open spec fn relevant(rels: Seq<(String, u8)>) -> Seq<(String, u8)>
    decreases rels.len(),
{
    if rels.len() == 0 {
        seq![]
    } else {
        let rest = relevant(rels.drop_last());
        if rels.last().1 > 0 {
            rest.push(rels.last())
        } else {
            rest
        }
    }
}

/// The ideal ranking: the best `k` documents with grades above zero, the higher
/// grade first.
pub open spec fn ideal_ranking(rels: Seq<(String, u8)>, k: nat) -> Seq<String> {
    first_by(relevant(rels), grade_keys(positive_grades(rels)), k).map_values(
        |r: (String, u8)| r.0,
    )
}

proof fn lemma_relevant(rels: Seq<(String, u8)>)
    ensures
        relevant(rels).len() == positive_grades(rels).len(),
        forall|i: int|
            0 <= i < relevant(rels).len() ==> (#[trigger] relevant(rels)[i]).1 == positive_grades(
                rels,
            )[i] && rels.contains(relevant(rels)[i]),
    decreases rels.len(),
{
    if rels.len() > 0 {
        let rest = rels.drop_last();
        lemma_relevant(rest);
        assert forall|i: int| 0 <= i < relevant(rels).len() implies (
        #[trigger] relevant(rels)[i]).1 == positive_grades(rels)[i] && rels.contains(
            relevant(rels)[i],
        ) by {
            if i < relevant(rest).len() {
                assert(relevant(rels)[i] == relevant(rest)[i]);
                let x = choose|x: int| 0 <= x < rest.len() && rest[x] == relevant(rest)[i];
                assert(rels[x] == relevant(rels)[i]);
            } else {
                assert(rels[rels.len() - 1] == relevant(rels)[i]);
            }
        }
    }
}

/// The ideal is reached: the ideal ranking has the ideal gains.
pub proof fn law_ideal_ranking_has_the_ideal_gains(rels: Seq<(String, u8)>, k: nat)
    requires
        rels.len() <= usize::MAX,
        forall|a: int, b: int|
            0 <= a < b < rels.len() ==> (#[trigger] rels[a]).0@ != (#[trigger] rels[b]).0@,
    ensures
        gains_of(ideal_ranking(rels, k), rels, k) == ideal_of(rels, k),
{
    let p = positive_grades(rels);
    let keys = grade_keys(p);
    let o = ordering(keys);
    let ids = ideal_ranking(rels, k);
    let ideal = ideal_of(rels, k);
    lemma_relevant(rels);
    lemma_positive_grades_are_few(rels);
    lemma_ordering_exists(keys);
    assert(gains_of(ids, rels, k).len() == ideal.len());
    assert forall|i: int| 0 <= i < ideal.len() implies gains_of(ids, rels, k)[i] == ideal[i] by {
        let at = o[i] as int;
        let r = relevant(rels)[at];
        assert(r.1 == p[at]);
        let x = choose|x: int| 0 <= x < rels.len() && rels[x] == r;
        assert(rels[x].0@ == ids[i]@);
        lemma_grade_map(rels, ids[i]@);
    }
    assert(gains_of(ids, rels, k) =~= ideal);
}

/// How many documents of a ranking are judged relevant.
pub open spec fn found_in(ids: Seq<String>, m: Map<Seq<char>, u8>) -> nat
    decreases ids.len(),
{
    if ids.len() == 0 {
        0
    } else {
        found_in(ids.drop_last(), m) + (if grade_of(m, ids.last()@) > 0 {
            1nat
        } else {
            0nat
        })
    }
}

/// How many documents of a ranking are judged relevant, and how many there are.
pub fn recall_counts(ids: &Vec<String>, rels: &Vec<(String, u8)>) -> (r: (usize, usize))
    ensures
        r.0 == found_in(ids@, grade_map(rels@)),
        r.1 == positive_grades(rels@).len(),
{
    let mut found: usize = 0;
    let mut i: usize = 0;
    assert(ids@.take(0) =~= Seq::<String>::empty());
    while i < ids.len()
        invariant
            i <= ids.len(),
            found <= i,
            found == found_in(ids@.take(i as int), grade_map(rels@)),
        decreases ids.len() - i,
    {
        assert(ids@.take(i + 1).drop_last() =~= ids@.take(i as int));
        assert(ids@.take(i + 1).last() == ids@[i as int]);
        if grade(rels, ids[i].as_str()) > 0 {
            found = found + 1;
        }
        i = i + 1;
    }
    assert(ids@.take(i as int) =~= ids@);
    let mut total: usize = 0;
    let mut j: usize = 0;
    assert(rels@.take(0) =~= Seq::<(String, u8)>::empty());
    while j < rels.len()
        invariant
            j <= rels.len(),
            total <= j,
            total == positive_grades(rels@.take(j as int)).len(),
        decreases rels.len() - j,
    {
        assert(rels@.take(j + 1).drop_last() =~= rels@.take(j as int));
        assert(rels@.take(j + 1).last() == rels@[j as int]);
        if rels[j].1 > 0 {
            total = total + 1;
        }
        j = j + 1;
    }
    assert(rels@.take(j as int) =~= rels@);
    (found, total)
}

/// The rank of the first document that is judged relevant, counted from one;
/// none where no document of the ranking is.
pub fn first_relevant(ids: &Vec<String>, rels: &Vec<(String, u8)>) -> (r: Option<usize>)
    ensures
        match r {
            Some(n) => {
                &&& 1 <= n <= ids@.len()
                &&& grade_of(grade_map(rels@), ids@[n - 1]@) > 0
                &&& forall|i: int|
                    0 <= i < n - 1 ==> grade_of(grade_map(rels@), (#[trigger] ids@[i])@) == 0
            },
            None => forall|i: int|
                0 <= i < ids@.len() ==> grade_of(grade_map(rels@), (#[trigger] ids@[i])@) == 0,
        },
{
    let mut i: usize = 0;
    while i < ids.len()
        invariant
            i <= ids.len(),
            forall|j: int| 0 <= j < i ==> grade_of(grade_map(rels@), (#[trigger] ids@[j])@) == 0,
        decreases ids.len() - i,
    {
        if grade(rels, ids[i].as_str()) > 0 {
            return Some(i + 1);
        }
        i = i + 1;
    }
    None
}

/// A query and the bit pattern of its 64-bit score.
pub type QueryScore = (Seq<char>, u64);

/// Queries with their scores.
pub open spec fn query_scores(v: Seq<(String, u64)>) -> Seq<QueryScore> {
    v.map_values(|q: (String, u64)| (q.0@, q.1))
}

/// The lower score comes first.
pub open spec fn worst_keys(v: Seq<QueryScore>) -> Seq<KeyView> {
    v.map_values(|q: QueryScore| (f64_rank(q.1), ""@))
}

/// The `n` queries with the lowest scores, lowest first; queries with the same
/// score keep their order.
pub fn worst_queries(scores: &Vec<(String, u64)>, n: usize) -> (r: Vec<(String, u64)>)
    ensures
        query_scores(r@) == first_by(
            query_scores(scores@),
            worst_keys(query_scores(scores@)),
            n as nat,
        ),
{
    let ghost all = query_scores(scores@);
    let mut keys: Vec<SortKey> = Vec::new();
    let mut i: usize = 0;
    while i < scores.len()
        invariant
            i <= scores.len(),
            all == query_scores(scores@),
            keys@.len() == i,
            forall|j: int| 0 <= j < i ==> (#[trigger] keys@[j])@ == worst_keys(all)[j],
        decreases scores.len() - i,
    {
        keys.push(SortKey { major: rank_f64(scores[i].1), minor: "".to_string() });
        i = i + 1;
    }
    assert(key_views(keys@) =~= worst_keys(all));
    let order = order_by(&keys);
    let k: usize = if n < order.len() {
        n
    } else {
        order.len()
    };
    let mut out: Vec<(String, u64)> = Vec::new();
    let mut m: usize = 0;
    while m < k
        invariant
            m <= k <= order.len(),
            all == query_scores(scores@),
            is_order(worst_keys(all), order@),
            out@.len() == m,
            forall|j: int|
                0 <= j < m ==> ((#[trigger] out@[j]).0@, out@[j].1) == all[order@[j] as int],
        decreases k - m,
    {
        let p: usize = order[m];
        out.push((scores[p].0.clone(), scores[p].1));
        m = m + 1;
    }
    proof {
        let want = first_by(all, worst_keys(all), n as nat);
        assert forall|j: int| 0 <= j < k implies query_scores(out@)[j] == want[j] by {
            assert((out@[j].0@, out@[j].1) == all[order@[j] as int]);
        }
        assert(query_scores(out@) =~= want);
    }
    out
}

/// A document has the grade that it was judged with, and zero where it was not
/// judged at all.
pub proof fn law_documents_have_their_grades(rels: Seq<(String, u8)>, id: Seq<char>, i: int)
    requires
        forall|a: int, b: int|
            0 <= a < b < rels.len() ==> (#[trigger] rels[a]).0@ != (#[trigger] rels[b]).0@,
    ensures
        0 <= i < rels.len() ==> grade_of(grade_map(rels), rels[i].0@) == rels[i].1,
        (forall|j: int| 0 <= j < rels.len() ==> (#[trigger] rels[j]).0@ != id) ==> grade_of(
            grade_map(rels),
            id,
        ) == 0,
{
    lemma_grade_map(rels, id);
    if 0 <= i < rels.len() {
        lemma_grade_map(rels, rels[i].0@);
        assert(rels[i].0@ == rels[i].0@);
    }
}

/// The gains of a ranking are as many as its documents, up to `k`, and each is
/// the grade of the document at its place.
pub proof fn law_gains_are_grades(ids: Seq<String>, rels: Seq<(String, u8)>, k: nat, i: int, j: int)
    requires
        forall|a: int, b: int|
            0 <= a < b < rels.len() ==> (#[trigger] rels[a]).0@ != (#[trigger] rels[b]).0@,
    ensures
        gains_of(ids, rels, k).len() <= k,
        gains_of(ids, rels, k).len() <= ids.len(),
        gains_of(ids, rels, k).len() == k || gains_of(ids, rels, k).len() == ids.len(),
        0 <= i < gains_of(ids, rels, k).len() && 0 <= j < rels.len() && ids[i]@ == rels[j].0@
            ==> gains_of(ids, rels, k)[i] == rels[j].1,
        0 <= i < gains_of(ids, rels, k).len() && (forall|a: int|
            0 <= a < rels.len() ==> (#[trigger] rels[a]).0@ != ids[i]@) ==> gains_of(
            ids,
            rels,
            k,
        )[i] == 0,
{
    law_documents_have_their_grades(rels, ids[i]@, j);
}

/// The number found is the number of positions of the ranking at which a
/// document judged above zero stands.
pub proof fn law_found_is_positions(ids: Seq<String>, m: Map<Seq<char>, u8>)
    ensures
        Set::new(|i: int| 0 <= i < ids.len() && grade_of(m, ids[i]@) > 0).finite(),
        found_in(ids, m) == Set::new(
            |i: int| 0 <= i < ids.len() && grade_of(m, ids[i]@) > 0,
        ).len(),
    decreases ids.len(),
{
    let s = Set::new(|i: int| 0 <= i < ids.len() && grade_of(m, ids[i]@) > 0);
    if ids.len() == 0 {
        assert(s =~= Set::empty());
    } else {
        let rest = ids.drop_last();
        let t = Set::new(|i: int| 0 <= i < rest.len() && grade_of(m, rest[i]@) > 0);
        law_found_is_positions(rest, m);
        if grade_of(m, ids.last()@) > 0 {
            assert(s =~= t.insert(rest.len() as int));
        } else {
            assert(s =~= t);
        }
    }
}

/// The number of relevant documents is the number of judgments above zero.
pub proof fn law_relevant_is_judgments(rels: Seq<(String, u8)>)
    ensures
        Set::new(|i: int| 0 <= i < rels.len() && rels[i].1 > 0).finite(),
        positive_grades(rels).len() == Set::new(
            |i: int| 0 <= i < rels.len() && rels[i].1 > 0,
        ).len(),
    decreases rels.len(),
{
    let s = Set::new(|i: int| 0 <= i < rels.len() && rels[i].1 > 0);
    if rels.len() == 0 {
        assert(s =~= Set::empty());
    } else {
        let rest = rels.drop_last();
        let t = Set::new(|i: int| 0 <= i < rest.len() && rest[i].1 > 0);
        law_relevant_is_judgments(rest);
        if rels.last().1 > 0 {
            assert(s =~= t.insert(rest.len() as int));
        } else {
            assert(s =~= t);
        }
    }
}

/// A ranking that holds no document twice finds no more documents than are
/// relevant, and one that holds every document judged above zero finds them all.
pub proof fn law_complete_rankings_find_all(ids: Seq<String>, rels: Seq<(String, u8)>)
    requires
        forall|a: int, b: int|
            0 <= a < b < ids.len() ==> (#[trigger] ids[a])@ != (#[trigger] ids[b])@,
        forall|a: int, b: int|
            0 <= a < b < rels.len() ==> (#[trigger] rels[a]).0@ != (#[trigger] rels[b]).0@,
    ensures
        found_in(ids, grade_map(rels)) <= positive_grades(rels).len(),
        (forall|j: int|
            0 <= j < rels.len() && (#[trigger] rels[j]).1 > 0 ==> holds_id(ids, rels[j].0@))
            ==> found_in(ids, grade_map(rels)) == positive_grades(rels).len(),
{
    let m = grade_map(rels);
    let hits = Set::new(|i: int| 0 <= i < ids.len() && grade_of(m, ids[i]@) > 0);
    let wanted = Set::new(|i: int| 0 <= i < rels.len() && rels[i].1 > 0);
    let name = |i: int| ids[i]@;
    let doc = |i: int| rels[i].0@;
    law_found_is_positions(ids, m);
    law_relevant_is_judgments(rels);
    assert(injective_on(name, hits)) by {
        assert forall|a: int, b: int|
            hits.contains(a) && hits.contains(b) && #[trigger] name(a) == #[trigger] name(
                b,
            ) implies a == b by {
            if a < b {
                assert(ids[a]@ != ids[b]@);
            } else if b < a {
                assert(ids[b]@ != ids[a]@);
            }
        }
    }
    assert(injective_on(doc, wanted)) by {
        assert forall|a: int, b: int|
            wanted.contains(a) && wanted.contains(b) && #[trigger] doc(a) == #[trigger] doc(
                b,
            ) implies a == b by {
            if a < b {
                assert(rels[a].0@ != rels[b].0@);
            } else if b < a {
                assert(rels[b].0@ != rels[a].0@);
            }
        }
    }
    lemma_map_size(hits, hits.map(name), name);
    lemma_map_size(wanted, wanted.map(doc), doc);
    assert forall|d: Seq<char>| hits.map(name).contains(d) implies wanted.map(doc).contains(d) by {
        let a = choose|a: int| hits.contains(a) && #[trigger] name(a) == d;
        let i = lemma_graded_is_judged(rels, ids[a]@);
        assert(wanted.contains(i) && doc(i) == d);
    }
    lemma_len_subset(hits.map(name), wanted.map(doc));
    if forall|j: int|
        0 <= j < rels.len() && (#[trigger] rels[j]).1 > 0 ==> holds_id(ids, rels[j].0@) {
        assert forall|d: Seq<char>| wanted.map(doc).contains(d) implies hits.map(name).contains(
            d,
        ) by {
            let j = choose|j: int| wanted.contains(j) && #[trigger] doc(j) == d;
            assert(rels[j].1 > 0);
            let i = choose|i: int| 0 <= i < ids.len() && (#[trigger] ids[i])@ == d;
            law_documents_have_their_grades(rels, d, j);
            assert(hits.contains(i) && name(i) == d);
        }
        lemma_len_subset(wanted.map(doc), hits.map(name));
    }
}

/// A ranking holds a document.
pub open spec fn holds_id(ids: Seq<String>, id: Seq<char>) -> bool {
    exists|i: int| 0 <= i < ids.len() && (#[trigger] ids[i])@ == id
}

/// A line's document has the line's `_id`, and its `text` behind its `title` and
/// a full stop with a space; what is missing is empty, and without a title the
/// text stands alone.
pub proof fn law_documents_hold_their_members(
    line: Seq<char>,
    id: Seq<char>,
    title: Seq<char>,
    text: Seq<char>,
)
    requires
        json_member(line, "_id"@) == Some(id) || (json_member(line, "_id"@) is None && id.len()
            == 0),
        json_member(line, "title"@) == Some(title) || (json_member(line, "title"@) is None
            && title.len() == 0),
        json_member(line, "text"@) == Some(text) || (json_member(line, "text"@) is None
            && text.len() == 0),
    ensures
        doc_on(line).0 == id,
        title.len() == 0 ==> doc_on(line).1 == text,
        title.len() > 0 ==> doc_on(line).1 == title + seq!['.', ' '] + text,
{
    reveal_strlit("");
    reveal_strlit(". ");
    assert(""@ =~= Seq::<char>::empty());
    assert(". "@ =~= seq!['.', ' ']);
    assert(id.len() == 0 ==> id =~= ""@);
    assert(title.len() == 0 ==> title =~= ""@);
    assert(text.len() == 0 ==> text =~= ""@);
}

/// Where the documents of a corpus stood: in order, at lines that are not blank,
/// one document for each. No such line is passed over, but for those behind the
/// last document that a limit admits. The corpus fails where one of the lines
/// that are read is no JSON, and only there.
pub proof fn law_corpus_is_its_lines(ls: Seq<Seq<char>>, limit: nat, taken: nat) -> (at: Seq<int>)
    requires
        limit == 0 || taken < limit,
    ensures
        match corpus_on(ls, limit, taken) {
            Some(docs) => {
                &&& at.len() == docs.len()
                &&& limit == 0 || taken + docs.len() <= limit
                &&& forall|i: int, j: int| 0 <= i < j < at.len() ==> #[trigger] at[i] < #[trigger] at[j]
                &&& forall|i: int|
                    0 <= i < at.len() ==> {
                        &&& 0 <= #[trigger] at[i] < ls.len()
                        &&& !blank(ls[at[i]])
                        &&& is_json(ls[at[i]])
                        &&& docs[i] == doc_on(ls[at[i]])
                    }
                &&& forall|j: int|
                    0 <= j < ls.len() && !blank(#[trigger] ls[j]) && !at.contains(j) ==> taken
                        + docs.len() == limit && limit > 0 && (forall|i: int|
                        0 <= i < at.len() ==> #[trigger] at[i] < j)
            },
            None => exists|j: int| {
                &&& 0 <= j < ls.len()
                &&& !blank(#[trigger] ls[j])
                &&& !is_json(ls[j])
            },
        },
    decreases ls.len(),
{
    let rest = ls.drop_first();
    if ls.len() == 0 {
        Seq::empty()
    } else if !blank(ls[0]) && !is_json(ls[0]) {
        Seq::empty()
    } else if !blank(ls[0]) && limit > 0 && taken + 1 >= limit {
        let at = seq![0int];
        assert(at[0] == 0);
        at
    } else {
        let d: int = if blank(ls[0]) {
            0
        } else {
            1
        };
        let sub = law_corpus_is_its_lines(rest, limit, (taken + d) as nat);
        let at = lemma_shift(sub, d);
        match corpus_on(rest, limit, (taken + d) as nat) {
            Some(more) => {
                let docs = corpus_on(ls, limit, taken)->0;
                assert forall|i: int| d <= i < docs.len() implies docs[i] == more[i - d] by {}
                assert forall|i: int, j: int| 0 <= i < j < at.len() implies #[trigger] at[i]
                    < #[trigger] at[j] by {
                    if i >= d {
                        assert(sub[i - d] < sub[j - d]);
                    } else {
                        assert(0 <= sub[j - d]);
                    }
                }
                assert forall|i: int| 0 <= i < at.len() implies {
                    &&& 0 <= #[trigger] at[i] < ls.len()
                    &&& !blank(ls[at[i]])
                    &&& is_json(ls[at[i]])
                    &&& docs[i] == doc_on(ls[at[i]])
                } by {
                    if i >= d {
                        assert(0 <= sub[i - d] < rest.len());
                        assert(rest[sub[i - d]] == ls[at[i]]);
                    }
                }
                assert forall|j: int|
                    0 <= j < ls.len() && !blank(#[trigger] ls[j]) && !at.contains(j) implies taken
                    + docs.len() == limit && limit > 0 && (forall|i: int|
                    0 <= i < at.len() ==> #[trigger] at[i] < j) by {
                    assert(j > 0);
                    assert(rest[j - 1] == ls[j]);
                    assert(!sub.contains(j - 1));
                    assert forall|i: int| 0 <= i < at.len() implies #[trigger] at[i] < j by {
                        if i >= d {
                            assert(sub[i - d] < j - 1);
                        }
                    }
                }
            },
            None => {
                let j = choose|j: int|
                    0 <= j < rest.len() && !blank(#[trigger] rest[j]) && !is_json(rest[j]);
                assert(ls[j + 1] == rest[j]);
            },
        }
        at
    }
}

/// A field is read as the number that it holds between white space, and as zero
/// where that number is above 255.
pub proof fn law_grades_are_numbers(a: Seq<char>, n: nat, b: Seq<char>)
    requires
        blank(a),
        blank(b),
    ensures
        grade_in(a + decimal(n) + b) == (if n <= 255 {
            n as u8
        } else {
            0
        }),
{
    law_written_numbers_are_read_back(n, 255);
    let d = decimal(n);
    assert('0' <= d[0] <= '9');
    assert('0' <= d[d.len() - 1] <= '9');
    law_trimming_takes_the_ends_off(a, d, b);
}

/// A line with a query, a document and a grade above zero between tabs is that
/// judgment, whatever fields stand behind; with the grade zero, and with fewer
/// fields, it is none.
pub proof fn law_judgments_are_three_fields(
    q: Seq<char>,
    d: Seq<char>,
    n: nat,
    more: Seq<char>,
)
    requires
        !q.contains('\t'),
        !d.contains('\t'),
        more.len() > 0 ==> more[0] == '\t',
    ensures
        1 <= n <= 255 ==> judgment_on(q.push('\t') + (d.push('\t') + (decimal(n) + more))) == Some(
            (q, d, n as u8),
        ),
        n == 0 || n > 255 ==> judgment_on(q.push('\t') + (d.push('\t') + (decimal(n) + more))) is None,
        judgment_on(q) is None,
        judgment_on(q.push('\t') + d) is None,
{
    let g = decimal(n);
    let third = g + more;
    let second = d.push('\t') + third;
    let line = q.push('\t') + second;
    law_written_numbers_are_read_back(n, 255);
    assert(!g.contains('\t')) by {
        if g.contains('\t') {
            let i = choose|i: int| 0 <= i < g.len() && g[i] == '\t';
            assert('0' <= g[i] <= '9');
        }
    }
    law_pieces_part_at_the_separator(g, '\t', more.drop_first());
    if more.len() > 0 {
        assert(g.push('\t') + more.drop_first() =~= third);
    } else {
        assert(third =~= g);
    }
    law_pieces_part_at_the_separator(d, '\t', third);
    law_pieces_part_at_the_separator(q, '\t', second);
    law_pieces_part_at_the_separator(q, '\t', d);
    let none = Seq::<char>::empty();
    law_grades_are_numbers(none, n, none);
    assert(none + g + none =~= g);
    assert(pieces(line, '\t')[2] == g);
    let at = q.len() + 1 + d.len() + 1;
    assert(line[at as int] == g[0]);
    assert('0' <= g[0] <= '9');
    assert(!whitespace(line[at as int]));
}

/// The judgments of two runs of lines are those of the one, then those of the
/// other, and a line alone gives its judgment or nothing.
pub proof fn law_judgments_keep_the_order_of_lines(
    a: Seq<Seq<char>>,
    line: Seq<char>,
    b: Seq<Seq<char>>,
)
    ensures
        judgments_on(a + b) == judgments_on(a) + judgments_on(b),
        judgments_on(Seq::empty()) == Seq::<JudgmentView>::empty(),
        judgment_on(line) is None ==> judgments_on(seq![line]).len() == 0,
        judgment_on(line) is Some ==> judgments_on(seq![line]) == seq![judgment_on(line)->0],
    decreases b.len(),
{
    assert(seq![line].drop_last() =~= Seq::<Seq<char>>::empty());
    assert(judgments_on(Seq::<Seq<char>>::empty()) =~= Seq::<JudgmentView>::empty());
    assert(judgment_on(line) is Some ==> judgments_on(seq![line]) =~= seq![judgment_on(line)->0]);
    if b.len() == 0 {
        assert(a + b =~= a);
        assert(judgments_on(a) + judgments_on(b) =~= judgments_on(a));
    } else {
        law_judgments_keep_the_order_of_lines(a, line, b.drop_last());
        assert((a + b).drop_last() =~= a + b.drop_last());
        assert(judgments_on(a + b) =~= judgments_on(a) + judgments_on(b));
    }
}

/// A document's grade for a query is that of its last judgment for the query,
/// the one at `i`; a document that is not judged for the query has none.
pub proof fn law_last_judgment_counts(
    js: Seq<JudgmentView>,
    query: Seq<char>,
    doc: Seq<char>,
    i: int,
)
    requires
        -1 <= i < js.len(),
        i >= 0 ==> js[i].0 == query && js[i].1 == doc,
        forall|j: int| i < j < js.len() ==> (#[trigger] js[j]).0 != query || js[j].1 != doc,
    ensures
        i < 0 ==> !grades_for(js, query).contains_key(doc),
        i >= 0 ==> grades_for(js, query).contains_key(doc) && grades_for(js, query)[doc] == js[i].2,
    decreases js.len(),
{
    if js.len() > 0 {
        let rest = js.drop_last();
        if i < rest.len() {
            assert(js[js.len() - 1].0 != query || js[js.len() - 1].1 != doc);
            assert forall|j: int| i < j < rest.len() implies (#[trigger] rest[j]).0 != query
                || rest[j].1 != doc by {
                assert(js[j].0 != query || js[j].1 != doc);
            }
            law_last_judgment_counts(rest, query, doc, i);
        }
    }
}

/// The id on a line.
spec fn id_on(line: Seq<char>) -> Seq<char> {
    member_or_empty(line, "_id"@)
}

/// Where the queries stood: in order, each at a line that is not blank, with the
/// id and the text on that line and the grades of its judgments. Each is judged,
/// and no id comes twice. A line that is passed over is blank, is unjudged, or
/// repeats an id that was taken; or it stands behind the last query that a limit
/// admits. Reading fails where one of the lines that are read is no JSON, and
/// only there.
pub proof fn law_queries_are_their_lines(
    ls: Seq<Seq<char>>,
    js: Seq<JudgmentView>,
    limit: nat,
    taken: Seq<Seq<char>>,
) -> (at: Seq<int>)
    requires
        limit == 0 || taken.len() < limit,
    ensures
        match queries_on(ls, js, limit, taken) {
            Some(qs) => {
                &&& at.len() == qs.len()
                &&& limit == 0 || taken.len() + qs.len() <= limit
                &&& forall|i: int, j: int| 0 <= i < j < at.len() ==> #[trigger] at[i] < #[trigger] at[j]
                &&& forall|i: int, j: int|
                    0 <= i < j < qs.len() ==> (#[trigger] qs[i]).0 != (#[trigger] qs[j]).0
                &&& forall|i: int|
                    0 <= i < at.len() ==> {
                        &&& 0 <= #[trigger] at[i] < ls.len()
                        &&& !blank(ls[at[i]])
                        &&& is_json(ls[at[i]])
                        &&& qs[i].0 == member_or_empty(ls[at[i]], "_id"@)
                        &&& qs[i].1 == member_or_empty(ls[at[i]], "text"@)
                        &&& qs[i].2 == grades_for(js, qs[i].0)
                        &&& judged(js, qs[i].0)
                        &&& !taken.contains(qs[i].0)
                    }
                &&& forall|j: int|
                    0 <= j < ls.len() && !blank(#[trigger] ls[j]) && !at.contains(j) ==> {
                        ||| limit > 0 && taken.len() + qs.len() == limit && (forall|i: int|
                            0 <= i < at.len() ==> #[trigger] at[i] < j)
                        ||| is_json(ls[j]) && !judged(js, member_or_empty(ls[j], "_id"@))
                        ||| is_json(ls[j]) && taken.contains(member_or_empty(ls[j], "_id"@))
                        ||| is_json(ls[j]) && exists|i: int|
                            0 <= i < at.len() && #[trigger] at[i] < j && qs[i].0 == member_or_empty(
                                ls[j],
                                "_id"@,
                            )
                    }
            },
            None => exists|j: int| {
                &&& 0 <= j < ls.len()
                &&& !blank(#[trigger] ls[j])
                &&& !is_json(ls[j])
            },
        },
    decreases ls.len(),
{
    let rest = ls.drop_first();
    let q = query_on(ls[0], js);
    let want = judged(js, q.0) && !taken.contains(q.0);
    if ls.len() == 0 {
        Seq::empty()
    } else if !blank(ls[0]) && !is_json(ls[0]) {
        Seq::empty()
    } else if !blank(ls[0]) && want && limit > 0 && taken.len() + 1 >= limit {
        let at = seq![0int];
        assert(at[0] == 0);
        at
    } else {
        let d: int = if blank(ls[0]) || !want {
            0
        } else {
            1
        };
        let held = if d == 1 {
            taken.push(q.0)
        } else {
            taken
        };
        let sub = law_queries_are_their_lines(rest, js, limit, held);
        let at = lemma_shift(sub, d);
        assert forall|x: Seq<char>| #[trigger] held.contains(x) <==> taken.contains(x) || (d == 1
            && x == q.0) by {
            if d == 1 {
                assert(held[taken.len() as int] == q.0);
                if taken.contains(x) {
                    let i = choose|i: int| 0 <= i < taken.len() && taken[i] == x;
                    assert(held[i] == x);
                }
            }
        }
        match queries_on(rest, js, limit, held) {
            Some(more) => {
                let qs = queries_on(ls, js, limit, taken)->0;
                assert forall|i: int| d <= i < qs.len() implies #[trigger] qs[i] == more[i - d] by {}
                assert forall|i: int, j: int| 0 <= i < j < at.len() implies #[trigger] at[i]
                    < #[trigger] at[j] by {
                    if i >= d {
                        assert(sub[i - d] < sub[j - d]);
                    } else {
                        assert(0 <= sub[j - d]);
                    }
                }
                assert forall|i: int, j: int| 0 <= i < j < qs.len() implies (#[trigger] qs[i]).0
                    != (#[trigger] qs[j]).0 by {
                    if i >= d {
                        assert(more[i - d].0 != more[j - d].0);
                    } else {
                        assert(0 <= sub[j - d]);
                        assert(!held.contains(more[j - d].0));
                    }
                }
                assert forall|i: int| 0 <= i < at.len() implies {
                    &&& 0 <= #[trigger] at[i] < ls.len()
                    &&& !blank(ls[at[i]])
                    &&& is_json(ls[at[i]])
                    &&& qs[i].0 == member_or_empty(ls[at[i]], "_id"@)
                    &&& qs[i].1 == member_or_empty(ls[at[i]], "text"@)
                    &&& qs[i].2 == grades_for(js, qs[i].0)
                    &&& judged(js, qs[i].0)
                    &&& !taken.contains(qs[i].0)
                } by {
                    if i >= d {
                        assert(0 <= sub[i - d] < rest.len());
                        assert(rest[sub[i - d]] == ls[at[i]]);
                        assert(qs[i] == more[i - d]);
                        assert(!held.contains(qs[i].0));
                    }
                }
                assert forall|j: int| 0 <= j < ls.len() && !blank(#[trigger] ls[j]) && !at.contains(
                    j,
                ) implies {
                    ||| limit > 0 && taken.len() + qs.len() == limit && (forall|i: int|
                        0 <= i < at.len() ==> #[trigger] at[i] < j)
                    ||| is_json(ls[j]) && !judged(js, member_or_empty(ls[j], "_id"@))
                    ||| is_json(ls[j]) && taken.contains(member_or_empty(ls[j], "_id"@))
                    ||| is_json(ls[j]) && exists|i: int|
                        0 <= i < at.len() && #[trigger] at[i] < j && qs[i].0 == member_or_empty(
                            ls[j],
                            "_id"@,
                        )
                } by {
                    if j > 0 {
                        let id = id_on(ls[j]);
                        assert(rest[j - 1] == ls[j]);
                        assert(!sub.contains(j - 1));
                        if is_json(ls[j]) && judged(js, id) && !taken.contains(id) {
                            if held.contains(id) {
                                assert(at[0] < j && qs[0].0 == id);
                            } else if exists|i: int|
                                0 <= i < sub.len() && #[trigger] sub[i] < j - 1 && more[i].0 == id {
                                let i = choose|i: int|
                                    0 <= i < sub.len() && #[trigger] sub[i] < j - 1 && more[i].0 == id;
                                assert(at[i + d] < j && qs[i + d] == more[i]);
                            } else {
                                assert forall|i: int| 0 <= i < at.len() implies #[trigger] at[i]
                                    < j by {
                                    if i >= d {
                                        assert(sub[i - d] < j - 1);
                                    }
                                }
                            }
                        } else if !is_json(ls[j]) {
                            assert forall|i: int| 0 <= i < at.len() implies #[trigger] at[i] < j by {
                                if i >= d {
                                    assert(sub[i - d] < j - 1);
                                }
                            }
                        }
                    } else {
                        assert(d == 0);
                    }
                }
            },
            None => {
                let j = choose|j: int|
                    0 <= j < rest.len() && !blank(#[trigger] rest[j]) && !is_json(rest[j]);
                assert(ls[j + 1] == rest[j]);
            },
        }
        at
    }
}

/// Where the worst queries stood: a lower score comes first, queries with one
/// score keep their order, and none that is left out has a lower score than one
/// that is there.
pub proof fn law_worst_queries_have_the_lowest_scores(v: Seq<QueryScore>, n: nat) -> (from: Seq<int>)
    requires
        v.len() <= usize::MAX,
    ensures
        ({
            let out = first_by(v, worst_keys(v), n);
            &&& out.len() <= n && out.len() <= v.len()
            &&& out.len() == n || out.len() == v.len()
            &&& from.len() == out.len()
            &&& forall|i: int|
                0 <= i < out.len() ==> 0 <= #[trigger] from[i] < v.len() && out[i].0 == v[from[i]].0
                    && out[i].1 == v[from[i]].1
            &&& forall|i: int, j: int|
                0 <= i < j < from.len() ==> {
                    ||| f64_rank(v[#[trigger] from[i]].1) < f64_rank(v[#[trigger] from[j]].1)
                    ||| v[from[i]].1 == v[from[j]].1 && from[i] < from[j]
                }
            &&& forall|p: int, i: int|
                0 <= p < v.len() && 0 <= i < from.len() && !from.contains(p) ==> f64_rank(
                    v[#[trigger] from[i]].1,
                ) <= f64_rank((#[trigger] v[p]).1)
        }),
{
    let keys = worst_keys(v);
    let from = lemma_first_by(v, keys, n);
    reveal_strlit("");
    assert forall|i: int, j: int| 0 <= i < j < from.len() implies {
        ||| f64_rank(v[#[trigger] from[i]].1) < f64_rank(v[#[trigger] from[j]].1)
        ||| v[from[i]].1 == v[from[j]].1 && from[i] < from[j]
    } by {
        assert(precedes(keys, from[i], from[j]));
        lemma_str_irreflexive(""@);
    }
    assert forall|p: int, i: int|
        0 <= p < v.len() && 0 <= i < from.len() && !from.contains(p) implies f64_rank(
        v[#[trigger] from[i]].1,
    ) <= f64_rank((#[trigger] v[p]).1) by {
        assert(precedes(keys, from[i], p));
        lemma_str_irreflexive(""@);
    }
    from
}

/// The views of documents, judgments, queries and scores have every field.
pub proof fn law_benchmark_views_hold_every_field(
    docs: Seq<CorpusDoc>,
    js: Seq<Judgment>,
    scores: Seq<(String, u64)>,
    qs: Seq<EvalQuery>,
    vs: Seq<QueryView>,
    i: int,
)
    ensures
        corpus_views(docs).len() == docs.len(),
        0 <= i < docs.len() ==> corpus_views(docs)[i].0 == docs[i].id@ && corpus_views(docs)[i].1
            == docs[i].text@,
        judgment_views(js).len() == js.len(),
        0 <= i < js.len() ==> judgment_views(js)[i].0 == js[i].query@ && judgment_views(js)[i].1
            == js[i].doc@ && judgment_views(js)[i].2 == js[i].grade,
        query_scores(scores).len() == scores.len(),
        0 <= i < scores.len() ==> query_scores(scores)[i].0 == scores[i].0@ && query_scores(
            scores,
        )[i].1 == scores[i].1,
        are_queries(qs, vs) ==> qs.len() == vs.len(),
        are_queries(qs, vs) && 0 <= i < qs.len() ==> qs[i].id@ == vs[i].0 && qs[i].text@ == vs[i].1,
        are_queries(qs, vs) && 0 <= i < qs.len() ==> forall|k: int|
            0 <= k < qs[i].rels@.len() ==> vs[i].2.contains_key((#[trigger] qs[i].rels@[k]).0@)
                && vs[i].2[qs[i].rels@[k].0@] == qs[i].rels@[k].1,
        are_queries(qs, vs) && 0 <= i < qs.len() ==> forall|d: Seq<char>| #[trigger]
            vs[i].2.contains_key(d) ==> exists|k: int|
                0 <= k < qs[i].rels@.len() && (#[trigger] qs[i].rels@[k]).0@ == d,
{
    if are_queries(qs, vs) && 0 <= i < qs.len() {
        assert(is_query(qs[i], vs[i]));
    }
}

/// The first line is a header: what is read are the lines behind it.
pub proof fn law_the_header_is_no_judgment(header: Seq<char>, ls: Seq<Seq<char>>)
    ensures
        body_of(seq![header] + ls) == ls,
        body_of(Seq::empty()).len() == 0,
{
    assert((seq![header] + ls).drop_first() =~= ls);
}

/// The arms of the ladder by name; no other name is one.
pub proof fn law_arms_have_their_names(arm: Seq<char>)
    ensures
        arm_path(arm) == Some(ArmPath::Lexical) <==> arm == "bm25"@,
        arm_path(arm) == Some(ArmPath::Dense) <==> arm == "dense"@,
        arm_path(arm) == Some(ArmPath::Hybrid) <==> arm == "hybrid"@,
        arm_path(arm) == Some(ArmPath::Reranked) <==> arm == "rro"@,
{
    reveal_strlit("bm25");
    reveal_strlit("dense");
    reveal_strlit("hybrid");
    reveal_strlit("rro");
    assert("bm25"@[0] == 'b' && "dense"@[0] == 'd' && "hybrid"@[0] == 'h' && "rro"@[0] == 'r');
}

} // verus!
