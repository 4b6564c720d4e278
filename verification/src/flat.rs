//! An in-memory, brute-force store.
//!
//! Exact nearest neighbour by full scan: every record is scored, and the best
//! are returned. The scores are floating-point numbers and come from the
//! caller, one for each record, in the order in which the store lists them.

use vstd::hash_map::StringHashMap;
use vstd::prelude::*;
use vstd::utf8::encode_utf8;

use crate::dim::{dim_after, dim_error, first_misfit, lemma_first_misfit};
use crate::error::RrfError;
use crate::model::{
    candidate_views, record_views, Candidate, CandidateView, RecordView, VectorRecord,
};
use crate::order::lemma_lex_irreflexive;
use crate::score::{
    f32_rank, first_by, is_order, key_views, law_ranks_are_distinct, lemma_first_by,
    lemma_ordering_exists, lemma_precedes_asymmetric, order_by, ordering, precedes, rank_f32,
    KeyView, SortKey,
};

verus! {

/// What the store holds: its records, in the order in which it lists them, and
/// the dimension of their vectors, once it has seen one.
pub struct FlatView {
    pub records: Seq<RecordView>,
    pub dim: Option<usize>,
}

/// A flat (exhaustive) in-memory vector store.
pub struct FlatRecall {
    records: Vec<VectorRecord>,
    /// Where the record of an id stands.
    places: StringHashMap<usize>,
    dim: Option<usize>,
}

impl View for FlatRecall {
    type V = FlatView;

    closed spec fn view(&self) -> FlatView {
        FlatView { records: record_views(self.records@), dim: self.dim }
    }
}

/// Where the record of an id stands.
pub open spec fn record_place(records: Seq<RecordView>, id: Seq<char>) -> int {
    choose|i: int| 0 <= i < records.len() && (#[trigger] records[i]).id == id
}

/// The records by id.
pub open spec fn by_id(records: Seq<RecordView>) -> Map<Seq<char>, RecordView> {
    Map::new(
        |id: Seq<char>| exists|i: int| 0 <= i < records.len() && (#[trigger] records[i]).id == id,
        |id: Seq<char>| records[record_place(records, id)],
    )
}

/// No id stands twice.
pub open spec fn distinct(records: Seq<RecordView>) -> bool {
    forall|i: int, j: int|
        0 <= i < j < records.len() ==> (#[trigger] records[i]).id != (#[trigger] records[j]).id
}

/// The vectors of the records have the dimension.
pub open spec fn of_dim(records: Seq<RecordView>, dim: Option<usize>) -> bool {
    forall|i: int|
        0 <= i < records.len() ==> dim is Some && (#[trigger] records[i]).embedding.len() == dim->0
}

/// A map with records put, in order: a later one replaces an earlier one.
pub open spec fn put_all(m: Map<Seq<char>, RecordView>, records: Seq<RecordView>) -> Map<
    Seq<char>,
    RecordView,
>
    decreases records.len(),
{
    if records.len() == 0 {
        m
    } else {
        put_all(m, records.drop_last()).insert(records.last().id, records.last())
    }
}

proof fn lemma_by_id_at(records: Seq<RecordView>, i: int)
    requires
        distinct(records),
        0 <= i < records.len(),
    ensures
        by_id(records).contains_key(records[i].id),
        by_id(records)[records[i].id] == records[i],
{
    let j = record_place(records, records[i].id);
    assert(records[i].id == records[i].id);
    assert(0 <= j < records.len() && records[j].id == records[i].id);
    if i < j {
        assert(records[i].id != records[j].id);
    } else if j < i {
        assert(records[j].id != records[i].id);
    }
}

proof fn lemma_by_id_equal(
    records: Seq<RecordView>,
    m: Map<Seq<char>, RecordView>,
)
    requires
        distinct(records),
        forall|i: int|
            0 <= i < records.len() ==> m.contains_key((#[trigger] records[i]).id) && m[records[i].id]
                == records[i],
        forall|id: Seq<char>| #[trigger]
            m.contains_key(id) ==> exists|i: int|
                0 <= i < records.len() && (#[trigger] records[i]).id == id,
    ensures
        by_id(records) == m,
{
    assert forall|id: Seq<char>| by_id(records).contains_key(id) implies m.contains_key(id) && m[id]
        == by_id(records)[id] by {
        let i = record_place(records, id);
        lemma_by_id_at(records, i);
    }
    assert(by_id(records) =~= m);
}

/// What a search ranks by: the higher score first. Records with the same score
/// keep their order.
pub open spec fn score_keys(scores: Seq<u32>) -> Seq<KeyView> {
    scores.map_values(|s: u32| (0xffff_ffff - f32_rank(s), ""@))
}

/// A record as a search returns it.
pub open spec fn hit(r: RecordView, score: u32) -> CandidateView {
    CandidateView { id: r.id, text: r.text, score, metadata: r.metadata }
}

/// The records with their scores.
pub open spec fn hits(records: Seq<RecordView>, scores: Seq<u32>) -> Seq<CandidateView> {
    Seq::new(records.len(), |i: int| hit(records[i], scores[i]))
}

impl Default for FlatRecall {
    fn default() -> (r: FlatRecall)
        ensures
            r.wf(),
            r@.records == Seq::<RecordView>::empty(),
            r@.dim is None,
    {
        FlatRecall::new()
    }
}

impl FlatRecall {
    /// No id stands twice, every vector has the store's dimension, and every
    /// record is found under its id.
    pub closed spec fn wf(&self) -> bool {
        &&& distinct(self@.records)
        &&& of_dim(self@.records, self@.dim)
        &&& forall|i: int|
            0 <= i < self.records@.len() ==> self.places@.contains_key(
                (#[trigger] self.records@[i]).id@,
            ) && self.places@[self.records@[i].id@] == i
        &&& forall|id: Seq<char>| #[trigger]
            self.places@.contains_key(id) ==> self.places@[id] < self.records@.len()
                && self.records@[self.places@[id] as int].id@ == id
    }

    /// In a store no id stands twice, and every vector has its dimension.
    pub proof fn lemma_wf(&self)
        requires
            self.wf(),
        ensures
            distinct(self@.records),
            of_dim(self@.records, self@.dim),
    {
    }

    /// A fresh, empty store.
    pub fn new() -> (r: FlatRecall)
        ensures
            r.wf(),
            r@.records == Seq::<RecordView>::empty(),
            r@.dim is None,
    {
        let r = FlatRecall { records: Vec::new(), places: StringHashMap::new(), dim: None };
        assert(r@.records =~= Seq::<RecordView>::empty());
        r
    }

    /// Checks a vector's dimension; the first one fixes it.
    pub fn check_dim(&mut self, got: usize) -> (r: Result<(), RrfError>)
        requires
            old(self).wf(),
        ensures
            final(self).wf(),
            final(self)@.records == old(self)@.records,
            match old(self)@.dim {
                None => r == Ok::<(), RrfError>(()) && final(self)@.dim == Some(got),
                Some(expected) => {
                    &&& final(self)@.dim == old(self)@.dim
                    &&& expected == got ==> r == Ok::<(), RrfError>(())
                    &&& expected != got ==> r == Err::<(), RrfError>(
                        RrfError::DimMismatch { expected, got },
                    )
                },
            },
    {
        match self.dim {
            None => {
                self.dim = Some(got);
                Ok(())
            },
            Some(expected) => {
                if expected == got {
                    Ok(())
                } else {
                    Err(RrfError::DimMismatch { expected, got })
                }
            },
        }
    }

    fn put(&mut self, r: VectorRecord)
        requires
            old(self).wf(),
            old(self)@.dim is Some,
            r@.embedding.len() == old(self)@.dim->0,
        ensures
            final(self).wf(),
            final(self)@.dim == old(self)@.dim,
            by_id(final(self)@.records) == by_id(old(self)@.records).insert(r@.id, r@),
    {
        let ghost before = self@.records;
        let ghost rv = r@;
        let ghost m = by_id(before).insert(rv.id, rv);
        match self.places.get(r.id.as_str()) {
            Some(at) => {
                let at: usize = *at;
                self.records.set(at, r);
                proof {
                    let after = self@.records;
                    assert(after =~= before.update(at as int, rv));
                    assert forall|i: int| 0 <= i < after.len() implies (#[trigger] after[i]).id
                        == before[i].id by {}
                    assert(distinct(after)) by {
                        assert forall|i: int, j: int| 0 <= i < j < after.len() implies (
                        #[trigger] after[i]).id != (#[trigger] after[j]).id by {
                            assert(before[i].id != before[j].id);
                        }
                    }
                    assert forall|i: int| 0 <= i < self.records@.len() implies (
                    #[trigger] self.records@[i]).id@ == after[i].id by {}
                    assert forall|i: int| 0 <= i < after.len() implies (
                    #[trigger] after[i]).embedding.len() == self@.dim->0 by {
                        assert(before[i].embedding.len() == self@.dim->0);
                    }
                    assert forall|i: int| 0 <= i < after.len() implies m.contains_key(
                        (#[trigger] after[i]).id,
                    ) && m[after[i].id] == after[i] by {
                        if i != at {
                            lemma_by_id_at(before, i);
                            if i < at {
                                assert(before[i].id != before[at as int].id);
                            } else {
                                assert(before[at as int].id != before[i].id);
                            }
                        }
                    }
                    assert forall|id: Seq<char>| #[trigger] m.contains_key(id) implies exists|
                        i: int,
                    |
                        0 <= i < after.len() && (#[trigger] after[i]).id == id by {
                        if id == rv.id {
                            assert(after[at as int].id == id);
                        } else {
                            let i = record_place(before, id);
                            assert(after[i].id == id);
                        }
                    }
                    lemma_by_id_equal(after, m);
                }
            },
            None => {
                let at: usize = self.records.len();
                self.places.insert(r.id.clone(), at);
                self.records.push(r);
                proof {
                    let after = self@.records;
                    assert(after =~= before.push(rv));
                    assert forall|i: int| 0 <= i < before.len() implies (#[trigger] before[i]).id
                        != rv.id by {}
                    assert(distinct(after)) by {
                        assert forall|i: int, j: int| 0 <= i < j < after.len() implies (
                        #[trigger] after[i]).id != (#[trigger] after[j]).id by {
                            assert(after[i] == before[i]);
                            if j < before.len() {
                                assert(before[i].id != before[j].id);
                            }
                        }
                    }
                    assert forall|i: int| 0 <= i < after.len() implies m.contains_key(
                        (#[trigger] after[i]).id,
                    ) && m[after[i].id] == after[i] by {
                        if i < before.len() {
                            assert(after[i] == before[i]);
                            lemma_by_id_at(before, i);
                        }
                    }
                    assert forall|id: Seq<char>| #[trigger] m.contains_key(id) implies exists|
                        i: int,
                    |
                        0 <= i < after.len() && (#[trigger] after[i]).id == id by {
                        if id == rv.id {
                            assert(after[before.len() as int].id == id);
                        } else {
                            let i = record_place(before, id);
                            assert(after[i].id == id);
                        }
                    }
                    lemma_by_id_equal(after, m);
                }
            },
        }
    }

    /// Puts records, each replacing the one with its id. The dimension is fixed
    /// by the first vector ever seen, even where the upsert then fails; nothing
    /// is put unless every vector has it.
    pub fn upsert(&mut self, records: Vec<VectorRecord>) -> (r: Result<(), RrfError>)
        requires
            old(self).wf(),
        ensures
            final(self).wf(),
            final(self)@.dim == dim_after(old(self)@.dim, record_views(records@)),
            match dim_error(old(self)@.dim, record_views(records@)) {
                Some((expected, got)) => {
                    &&& r == Err::<(), RrfError>(RrfError::DimMismatch { expected, got })
                    &&& final(self)@.records == old(self)@.records
                },
                None => {
                    &&& r == Ok::<(), RrfError>(())
                    &&& by_id(final(self)@.records) == put_all(
                        by_id(old(self)@.records),
                        record_views(records@),
                    )
                },
            },
    {
        let ghost v = record_views(records@);
        let ghost before = self@;
        let ghost dim = dim_after(before.dim, v);
        let mut i: usize = 0;
        assert(v.skip(0) =~= v);
        while i < records.len()
            invariant
                i <= records.len(),
                v == record_views(records@),
                before == old(self)@,
                dim == dim_after(before.dim, v),
                self.wf(),
                self@.records == before.records,
                self@.dim == (if i == 0 {
                    before.dim
                } else {
                    dim
                }),
                v.len() > 0 ==> first_misfit(v, dim->0 as nat) == i + first_misfit(
                    v.skip(i as int),
                    dim->0 as nat,
                ),
            decreases records.len() - i,
        {
            let got: usize = records[i].embedding.len();
            assert(v[i as int] == records@[i as int]@);
            assert(v.skip(i as int)[0] == v[i as int]);
            match self.check_dim(got) {
                Ok(()) => {},
                Err(e) => {
                    return Err(e);
                },
            }
            assert(v.skip(i as int).drop_first() =~= v.skip(i + 1));
            i = i + 1;
        }
        let mut k: usize = 0;
        proof {
            assert(v.take(0) =~= Seq::<RecordView>::empty());
            if v.len() > 0 {
                lemma_first_misfit(v, dim->0 as nat);
            }
        }
        while k < records.len()
            invariant
                k <= records.len(),
                v == record_views(records@),
                of_dim(v, dim),
                self.wf(),
                self@.dim == dim,
                by_id(self@.records) == put_all(by_id(before.records), v.take(k as int)),
            decreases records.len() - k,
        {
            proof {
                assert(v.take(k + 1).drop_last() =~= v.take(k as int));
                assert(v.take(k + 1).last() == v[k as int]);
                assert(v[k as int] == records@[k as int]@);
            }
            let r = copy_record(&records[k]);
            assert(v[k as int].embedding.len() == dim->0);
            self.put(r);
            k = k + 1;
        }
        assert(v.take(v.len() as int) =~= v);
        Ok(())
    }

    /// How many records there are.
    pub fn len(&self) -> (r: usize)
        ensures
            r == self@.records.len(),
    {
        self.records.len()
    }

    /// The records, in the order in which the store lists them.
    pub fn records(&self) -> (r: &Vec<VectorRecord>)
        ensures
            record_views(r@) == self@.records,
    {
        &self.records
    }

    /// Whether a search looks at the records at all: it does not where nothing
    /// is asked for, and fails where the query has another dimension than the
    /// store, once that has one.
    pub fn check_query(&self, query_dim: usize, top_k: usize) -> (r: Result<bool, RrfError>)
        ensures
            r == (if top_k == 0 {
                Ok::<bool, RrfError>(false)
            } else {
                match self@.dim {
                    Some(expected) if expected != query_dim => Err::<bool, RrfError>(
                        RrfError::DimMismatch { expected, got: query_dim },
                    ),
                    _ => Ok::<bool, RrfError>(true),
                }
            }),
    {
        if top_k == 0 {
            return Ok(false);
        }
        if let Some(expected) = self.dim {
            if expected != query_dim {
                return Err(RrfError::DimMismatch { expected, got: query_dim });
            }
        }
        Ok(true)
    }

    /// The best records for a query: by score, the higher first. `scores` are
    /// the scores of the records, in the order in which the store lists them.
    pub fn search(&self, query_dim: usize, scores: &Vec<u32>, top_k: usize) -> (r: Result<
        Vec<Candidate>,
        RrfError,
    >)
        requires
            scores.len() == self@.records.len(),
        ensures
            if top_k == 0 {
                r matches Ok(v) && v@.len() == 0
            } else if self@.dim is Some && self@.dim->0 != query_dim {
                r matches Err(e) && e == (RrfError::DimMismatch {
                    expected: self@.dim->0,
                    got: query_dim,
                })
            } else {
                r matches Ok(v) && candidate_views(v@) == first_by(
                    hits(self@.records, scores@),
                    score_keys(scores@),
                    top_k as nat,
                )
            },
    {
        match self.check_query(query_dim, top_k) {
            Err(e) => {
                return Err(e);
            },
            Ok(false) => {
                return Ok(Vec::new());
            },
            Ok(true) => {},
        }
        let ghost all = hits(self@.records, scores@);
        let mut keys: Vec<SortKey> = Vec::new();
        let mut i: usize = 0;
        while i < scores.len()
            invariant
                i <= scores.len(),
                keys@.len() == i,
                forall|j: int| 0 <= j < i ==> (#[trigger] keys@[j])@ == score_keys(scores@)[j],
            decreases scores.len() - i,
        {
            let major: u64 = (0xffff_ffffu32 - rank_f32(scores[i])) as u64;
            keys.push(SortKey { major, minor: "".to_string() });
            i = i + 1;
        }
        assert(key_views(keys@) =~= score_keys(scores@));
        let order = order_by(&keys);
        let n: usize = if top_k < order.len() {
            top_k
        } else {
            order.len()
        };
        let mut out: Vec<Candidate> = Vec::new();
        let mut k: usize = 0;
        while k < n
            invariant
                k <= n <= order.len(),
                scores.len() == self.records.len(),
                self@.records == record_views(self.records@),
                all == hits(self@.records, scores@),
                is_order(score_keys(scores@), order@),
                out@.len() == k,
                forall|j: int| 0 <= j < k ==> (#[trigger] out@[j])@ == all[order@[j] as int],
            decreases n - k,
        {
            let p: usize = order[k];
            let r = &self.records[p];
            out.push(
                Candidate {
                    id: r.id.clone(),
                    text: r.text.clone(),
                    score: scores[p],
                    metadata: r.metadata.clone(),
                },
            );
            k = k + 1;
        }
        proof {
            let want = first_by(all, score_keys(scores@), top_k as nat);
            assert forall|j: int| 0 <= j < n implies candidate_views(out@)[j] == want[j] by {
                assert(out@[j]@ == all[order@[j] as int]);
            }
            assert(candidate_views(out@) =~= want);
        }
        Ok(out)
    }

    /// Removes the record of an id, if it is there.
    pub fn remove(&mut self, id: &str)
        requires
            old(self).wf(),
        ensures
            final(self).wf(),
            final(self)@.dim == old(self)@.dim,
            by_id(final(self)@.records) == by_id(old(self)@.records).remove(id@),
    {
        let ghost before = self@.records;
        let ghost m = by_id(before).remove(id@);
        let at: usize = match self.places.get(id) {
            Some(at) => *at,
            None => {
                proof {
                    assert forall|i: int| 0 <= i < before.len() implies (#[trigger] before[i]).id
                        != id@ by {
                        assert(self.records@[i].id@ == before[i].id);
                    }
                    assert(by_id(before) =~= m);
                }
                return ;
            },
        };
        let last: usize = self.records.len() - 1;
        if at < last {
            let moved = self.records[last].id.clone();
            self.places.insert(moved, at);
        }
        self.records.swap_remove(at);
        self.places.remove(id);
        proof {
            let after = self@.records;
            assert(before[at as int].id == id@);
            assert(after =~= before.update(at as int, before.last()).drop_last());
            assert forall|i: int| 0 <= i < after.len() implies #[trigger] after[i] == (if i == at {
                before[last as int]
            } else {
                before[i]
            }) by {}
            assert forall|i: int| 0 <= i < after.len() implies self@.dim is Some && (
            #[trigger] after[i]).embedding.len() == self@.dim->0 by {
                let i0 = if i == at { last as int } else { i };
                assert(before[i0].embedding.len() == self@.dim->0);
            }
            assert(distinct(after)) by {
                assert forall|i: int, j: int| 0 <= i < j < after.len() implies (
                #[trigger] after[i]).id != (#[trigger] after[j]).id by {
                    let i0 = if i == at { last as int } else { i };
                    let j0 = if j == at { last as int } else { j };
                    if i0 < j0 {
                        assert(before[i0].id != before[j0].id);
                    } else {
                        assert(before[j0].id != before[i0].id);
                    }
                }
            }
            assert forall|i: int| 0 <= i < after.len() implies (#[trigger] after[i]).id != id@ by {
                let i0 = if i == at { last as int } else { i };
                if i0 < at {
                    assert(before[i0].id != before[at as int].id);
                } else {
                    assert(before[at as int].id != before[i0].id);
                }
            }
            assert forall|i: int| 0 <= i < self.records@.len() implies self.places@.contains_key(
                (#[trigger] self.records@[i]).id@,
            ) && self.places@[self.records@[i].id@] == i by {
                assert(after[i].id == self.records@[i].id@);
                assert(after[i].id != id@);
                if i != at && at < last {
                    assert(before[i].id != before[last as int].id);
                }
            }
            assert forall|x: Seq<char>| #[trigger]
                self.places@.contains_key(x) implies self.places@[x] < self.records@.len()
                && self.records@[self.places@[x] as int].id@ == x by {}
            assert forall|i: int| 0 <= i < after.len() implies m.contains_key(
                (#[trigger] after[i]).id,
            ) && m[after[i].id] == after[i] by {
                let i0 = if i == at { last as int } else { i };
                lemma_by_id_at(before, i0);
            }
            assert forall|x: Seq<char>| #[trigger] m.contains_key(x) implies exists|i: int|
                0 <= i < after.len() && (#[trigger] after[i]).id == x by {
                let i = record_place(before, x);
                assert(i != at);
                let i1 = if i == last { at as int } else { i };
                assert(after[i1].id == x);
            }
            lemma_by_id_equal(after, m);
        }
    }
}

fn copy_record(r: &VectorRecord) -> (c: VectorRecord)
    ensures
        c@ == r@,
{
    VectorRecord {
        id: r.id.clone(),
        embedding: crate::model::copy_vec(&r.embedding),
        text: r.text.clone(),
        metadata: r.metadata.clone(),
        shape: r.shape.clone(),
    }
}

/// What was upserted is read back: under an id stands the last record of the
/// upsert that has it, and otherwise what stood there before.
pub proof fn law_flat_upserts_are_read_back(
    m: Map<Seq<char>, RecordView>,
    records: Seq<RecordView>,
    i: int,
    id: Seq<char>,
)
    ensures
        0 <= i < records.len() && (forall|j: int|
            i < j < records.len() ==> (#[trigger] records[j]).id != records[i].id) ==> put_all(
            m,
            records,
        ).contains_key(records[i].id) && put_all(m, records)[records[i].id] == records[i],
        (forall|j: int| 0 <= j < records.len() ==> (#[trigger] records[j]).id != id) ==> put_all(
            m,
            records,
        ).contains_key(id) == m.contains_key(id) && put_all(m, records)[id] == m[id],
    decreases records.len(),
{
    if records.len() > 0 {
        let rest = records.drop_last();
        let last = records[records.len() - 1];
        law_flat_upserts_are_read_back(m, rest, i, id);
        if 0 <= i < rest.len() && (forall|j: int|
            i < j < records.len() ==> (#[trigger] records[j]).id != records[i].id) {
            assert(last.id != records[i].id);
            assert forall|j: int| i < j < rest.len() implies (#[trigger] rest[j]).id
                != rest[i].id by {
                assert(records[j].id != records[i].id);
            }
        }
        if forall|j: int| 0 <= j < records.len() ==> (#[trigger] records[j]).id != id {
            assert(last.id != id);
            assert forall|j: int| 0 <= j < rest.len() implies (#[trigger] rest[j]).id != id by {
                assert(records[j].id != id);
            }
        }
    }
}

/// Each id counts as one record.
pub proof fn law_each_id_counts_once(records: Seq<RecordView>)
    requires
        distinct(records),
    ensures
        by_id(records).dom().finite(),
        by_id(records).dom().len() == records.len(),
{
    let ids = records.map_values(|r: RecordView| r.id);
    assert(ids.no_duplicates()) by {
        assert forall|i: int, j: int|
            0 <= i < ids.len() && 0 <= j < ids.len() && i != j implies ids[i] != ids[j] by {
            if i < j {
                assert(records[i].id != records[j].id);
            } else {
                assert(records[j].id != records[i].id);
            }
        }
    }
    ids.unique_seq_to_set();
    assert(by_id(records).dom() =~= ids.to_set()) by {
        assert forall|id: Seq<char>| by_id(records).dom().contains(id) <==> ids.contains(id) by {
            if ids.contains(id) {
                let i = choose|i: int| 0 <= i < ids.len() && ids[i] == id;
                assert(records[i].id == id);
            }
            if by_id(records).dom().contains(id) {
                let i = record_place(records, id);
                assert(ids[i] == id);
            }
        }
    }
}

/// A query is refused just where its dimension is not that of the records.
pub proof fn law_queries_of_another_dimension_are_refused(
    records: Seq<RecordView>,
    dim: Option<usize>,
    query_dim: usize,
    i: int,
)
    requires
        of_dim(records, dim),
        0 <= i < records.len(),
    ensures
        dim is Some && dim->0 != query_dim <==> records[i].embedding.len() != query_dim,
{
    assert(records[i].embedding.len() == dim->0);
}

/// A search returns the best: as many as asked for if there are enough, the
/// higher score first, and no record that is left out has a higher score than
/// one that is returned.
pub proof fn law_flat_search_returns_the_best(
    records: Seq<RecordView>,
    scores: Seq<u32>,
    top_k: nat,
)
    requires
        records.len() == scores.len(),
        records.len() <= usize::MAX,
    ensures
        ({
            let out = first_by(hits(records, scores), score_keys(scores), top_k);
            &&& out.len() == (if top_k < records.len() {
                top_k
            } else {
                records.len()
            })
            &&& forall|i: int, j: int|
                0 <= i < j < out.len() ==> f32_rank((#[trigger] out[i]).score) >= f32_rank(
                    (#[trigger] out[j]).score,
                )
            &&& forall|p: int, i: int|
                0 <= p < records.len() && !out.contains(hit(#[trigger] records[p], scores[p])) && 0
                    <= i < out.len() ==> f32_rank(scores[p]) <= f32_rank((#[trigger] out[i]).score)
        }),
{
    let keys = score_keys(scores);
    let all = hits(records, scores);
    let out = first_by(all, keys, top_k);
    let o = ordering(keys);
    lemma_ordering_exists(keys);
    assert forall|i: int, j: int| 0 <= i < j < out.len() implies f32_rank(
        (#[trigger] out[i]).score,
    ) >= f32_rank((#[trigger] out[j]).score) by {
        assert(precedes(keys, o[i] as int, o[j] as int));
        lemma_precedes_asymmetric(keys, o[i] as int, o[j] as int);
        assert(keys[o[i] as int].0 == 0xffff_ffff - f32_rank(out[i].score));
        assert(keys[o[j] as int].0 == 0xffff_ffff - f32_rank(out[j].score));
    }
    assert forall|p: int, i: int|
        0 <= p < records.len() && !out.contains(hit(#[trigger] records[p], scores[p])) && 0 <= i
            < out.len() implies f32_rank(scores[p]) <= f32_rank((#[trigger] out[i]).score) by {
        assert(o.contains(p as usize));
        let q = choose|q: int| 0 <= q < o.len() && o[q] == p as usize;
        if q < out.len() {
            assert(out[q] == hit(records[p], scores[p]));
        }
        assert(precedes(keys, o[i] as int, o[q] as int));
        lemma_precedes_asymmetric(keys, o[i] as int, o[q] as int);
        assert(keys[o[i] as int].0 == 0xffff_ffff - f32_rank(out[i].score));
        assert(keys[o[q] as int].0 == 0xffff_ffff - f32_rank(scores[p]));
    }
}

/// Every hit of a search is a stored record, and no record is hit twice: the
/// hit has the id, text and metadata of the record and the score that the record
/// was given. Hits stand by score, the higher first, and hits with the same score
/// in the order of the store.
pub proof fn law_flat_hits_are_records(records: Seq<RecordView>, scores: Seq<u32>, top_k: nat)
    requires
        records.len() == scores.len(),
        records.len() <= usize::MAX,
    ensures
        exists|from: Seq<int>|
            {
                let out = first_by(hits(records, scores), score_keys(scores), top_k);
                &&& #[trigger] from.len() == out.len()
                &&& forall|i: int|
                    0 <= i < from.len() ==> {
                        &&& 0 <= #[trigger] from[i] < records.len()
                        &&& out[i].id == records[from[i]].id
                        &&& out[i].text == records[from[i]].text
                        &&& out[i].metadata == records[from[i]].metadata
                        &&& out[i].score == scores[from[i]]
                    }
                &&& forall|i: int, j: int|
                    0 <= i < j < from.len() ==> #[trigger] from[i] != #[trigger] from[j]
                &&& forall|i: int, j: int|
                    0 <= i < j < from.len() ==> {
                        ||| f32_rank(scores[#[trigger] from[i]]) > f32_rank(
                            scores[#[trigger] from[j]],
                        )
                        ||| scores[from[i]] == scores[from[j]] && from[i] < from[j]
                    }
            },
{
    let all = hits(records, scores);
    let keys = score_keys(scores);
    let out = first_by(all, keys, top_k);
    let from = lemma_first_by(all, keys, top_k);
    assert(from.len() == out.len());
    assert forall|i: int| 0 <= i < from.len() implies {
        &&& 0 <= #[trigger] from[i] < records.len()
        &&& out[i].id == records[from[i]].id
        &&& out[i].text == records[from[i]].text
        &&& out[i].metadata == records[from[i]].metadata
        &&& out[i].score == scores[from[i]]
    } by {
        assert(all[from[i]] == out[i]);
    }
    assert forall|i: int, j: int| 0 <= i < j < from.len() implies {
        ||| f32_rank(scores[#[trigger] from[i]]) > f32_rank(scores[#[trigger] from[j]])
        ||| scores[from[i]] == scores[from[j]] && from[i] < from[j]
    } by {
        assert(precedes(keys, from[i], from[j]));
        lemma_lex_irreflexive(encode_utf8(""@));
        assert(keys[from[i]].0 == 0xffff_ffff - f32_rank(scores[from[i]]));
        assert(keys[from[j]].0 == 0xffff_ffff - f32_rank(scores[from[j]]));
        law_ranks_are_distinct(scores[from[i]], scores[from[j]], 0, 0);
    }
}

/// The records by id are the records: each stands under its own id, and nothing
/// stands under another.
pub proof fn law_records_stand_under_their_ids(records: Seq<RecordView>, i: int, id: Seq<char>)
    requires
        distinct(records),
    ensures
        0 <= i < records.len() ==> by_id(records).contains_key(records[i].id),
        0 <= i < records.len() ==> by_id(records)[records[i].id] == records[i],
        by_id(records).contains_key(id) ==> exists|j: int|
            0 <= j < records.len() && (#[trigger] records[j]).id == id,
{
    if 0 <= i < records.len() {
        lemma_by_id_at(records, i);
    }
}

} // verus!
