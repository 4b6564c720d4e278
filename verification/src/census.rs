//! The shape census: how many documents there are of each shape.

use vstd::prelude::*;

use crate::error::RrfError;
use crate::json::{
    count_views, counts_of_json, json_counts, json_of_counts, sorted_counts, CountView,
};
use crate::order::{lemma_str_total, relate_strs, str_lt, Rel};
use crate::strset::{lemma_str_irreflexive, lemma_str_transitive};

verus! {

/// Where the count of `k` stands.
pub open spec fn count_place(v: Seq<CountView>, k: Seq<char>) -> int {
    choose|i: int| 0 <= i < v.len() && #[trigger] v[i].0 == k
}

/// The counts of a list, by name.
pub open spec fn count_map(v: Seq<CountView>) -> Map<Seq<char>, nat> {
    Map::new(
        |k: Seq<char>| exists|i: int| 0 <= i < v.len() && #[trigger] v[i].0 == k,
        |k: Seq<char>| v[count_place(v, k)].1 as nat,
    )
}

proof fn lemma_count_at(v: Seq<CountView>, i: int)
    requires
        sorted_counts(v),
        0 <= i < v.len(),
    ensures
        count_map(v).contains_key(v[i].0),
        count_map(v)[v[i].0] == v[i].1,
{
    let k = v[i].0;
    let j = count_place(v, k);
    assert(v[i].0 == k);
    if j != i {
        lemma_str_irreflexive(k);
        if j < i {
            assert(str_lt(v[j].0, v[i].0));
        } else {
            assert(str_lt(v[i].0, v[j].0));
        }
    }
}

/// How often `k` was counted.
pub open spec fn count_of(m: Map<Seq<char>, nat>, k: Seq<char>) -> nat {
    if m.contains_key(k) {
        m[k]
    } else {
        0
    }
}

/// `m` with one more of `k`.
pub open spec fn counted(m: Map<Seq<char>, nat>, k: Seq<char>) -> Map<Seq<char>, nat> {
    m.insert(k, count_of(m, k) + 1)
}

/// `m` with one less of `k`, if `k` is there; no count falls below zero.
pub open spec fn uncounted(m: Map<Seq<char>, nat>, k: Seq<char>) -> Map<Seq<char>, nat> {
    if m.contains_key(k) {
        m.insert(
            k,
            if m[k] > 0 {
                (m[k] - 1) as nat
            } else {
                0
            },
        )
    } else {
        m
    }
}

/// How many documents there are of each shape.
#[derive(Debug)]
pub struct Census {
    entries: Vec<(String, u64)>,
}

impl View for Census {
    type V = Map<Seq<char>, nat>;

    closed spec fn view(&self) -> Map<Seq<char>, nat> {
        count_map(count_views(self.entries@))
    }
}

impl Census {
    /// The entries are ordered by shape, no shape twice.
    pub closed spec fn wf(&self) -> bool {
        sorted_counts(count_views(self.entries@))
    }

    /// The census of nothing.
    pub fn new() -> (r: Census)
        ensures
            r.wf(),
            r@ == Map::<Seq<char>, nat>::empty(),
    {
        let r = Census { entries: Vec::new() };
        assert(r@ =~= Map::<Seq<char>, nat>::empty());
        r
    }

    /// The census that was stored; the census of nothing where none was.
    pub fn read(stored: Option<&[u8]>) -> (r: Result<Census, RrfError>)
        ensures
            match stored {
                None => r matches Ok(c) && c.wf() && c@ == Map::<Seq<char>, nat>::empty(),
                Some(b) => match json_counts(b@) {
                    Some(v) => r matches Ok(c) && c.wf() && c@ == count_map(v),
                    None => r matches Err(RrfError::Json(_)),
                },
            },
    {
        match stored {
            None => Ok(Census::new()),
            Some(b) => match counts_of_json(b) {
                Ok(entries) => Ok(Census { entries }),
                Err(e) => Err(RrfError::Json(e)),
            },
        }
    }

    /// The bytes under which the census is stored: reading them gives it back.
    pub fn write(self) -> (r: Result<Vec<u8>, RrfError>)
        requires
            self.wf(),
        ensures
            r matches Ok(b) && json_counts(b@) matches Some(v) && count_map(v) == self@,
    {
        match json_of_counts(self.entries) {
            Ok(b) => Ok(b),
            Err(e) => Err(RrfError::Json(e)),
        }
    }

    /// The position of the first entry that is not before `key`.
    fn position(&self, key: &str) -> (pos: usize)
        requires
            self.wf(),
        ensures
            pos <= self.entries.len(),
            forall|i: int| 0 <= i < pos ==> str_lt(#[trigger] count_views(self.entries@)[i].0, key@),
            forall|i: int|
                pos <= i < self.entries.len() ==> !str_lt(
                    #[trigger] count_views(self.entries@)[i].0,
                    key@,
                ),
    {
        let ghost v = count_views(self.entries@);
        let mut pos: usize = 0;
        while pos < self.entries.len()
            invariant
                pos <= self.entries.len(),
                v == count_views(self.entries@),
                sorted_counts(v),
                forall|i: int| 0 <= i < pos ==> str_lt(#[trigger] v[i].0, key@),
            decreases self.entries.len() - pos,
        {
            let here = relate_strs(self.entries[pos].0.as_str(), key);
            assert(v[pos as int].0 == self.entries@[pos as int].0@);
            match here {
                Rel::Less => {},
                _ => {
                    proof {
                        assert forall|i: int| pos <= i < self.entries.len() implies !str_lt(
                            #[trigger] v[i].0,
                            key@,
                        ) by {
                            if i > pos && str_lt(v[i].0, key@) {
                                lemma_str_transitive(v[pos as int].0, v[i].0, key@);
                            }
                        }
                    }
                    return pos;
                },
            }
            pos = pos + 1;
        }
        pos
    }

    proof fn lemma_absent(&self, key: Seq<char>, pos: int)
        requires
            self.wf(),
            0 <= pos <= self.entries@.len(),
            forall|i: int| 0 <= i < pos ==> str_lt(#[trigger] count_views(self.entries@)[i].0, key),
            forall|i: int|
                pos <= i < self.entries@.len() ==> !str_lt(
                    #[trigger] count_views(self.entries@)[i].0,
                    key,
                ),
            pos == self.entries@.len() || count_views(self.entries@)[pos].0 != key,
        ensures
            !self@.contains_key(key),
    {
        let v = count_views(self.entries@);
        if self@.contains_key(key) {
            let i = choose|i: int| 0 <= i < v.len() && #[trigger] v[i].0 == key;
            lemma_str_irreflexive(key);
            assert(i > pos);
            lemma_str_total(v[pos].0, key);
            assert(str_lt(v[pos].0, v[i].0));
        }
    }

    proof fn lemma_changed(&self, other: &Census, pos: int, count: u64)
        requires
            self.wf(),
            0 <= pos < self.entries@.len(),
            count_views(other.entries@) == count_views(self.entries@).update(
                pos,
                (count_views(self.entries@)[pos].0, count),
            ),
        ensures
            other.wf(),
            other@ == self@.insert(count_views(self.entries@)[pos].0, count as nat),
    {
        let v = count_views(self.entries@);
        let w = count_views(other.entries@);
        let m = self@.insert(v[pos].0, count as nat);
        assert forall|i: int| 0 <= i < w.len() implies #[trigger] w[i].0 == v[i].0 by {}
        assert forall|i: int, j: int| 0 <= i < j < w.len() implies str_lt(
            #[trigger] w[i].0,
            #[trigger] w[j].0,
        ) by {
            assert(str_lt(v[i].0, v[j].0));
        }
        assert forall|k: Seq<char>| other@.contains_key(k) <==> m.contains_key(k) by {
            if other@.contains_key(k) {
                let i = choose|i: int| 0 <= i < w.len() && #[trigger] w[i].0 == k;
                assert(v[i].0 == k);
            }
            if m.contains_key(k) {
                if k == v[pos].0 {
                    assert(w[pos].0 == k);
                } else {
                    let i = choose|i: int| 0 <= i < v.len() && #[trigger] v[i].0 == k;
                    assert(w[i].0 == k);
                }
            }
        }
        assert forall|k: Seq<char>| other@.contains_key(k) implies other@[k] == m[k] by {
            let i = choose|i: int| 0 <= i < w.len() && #[trigger] w[i].0 == k;
            lemma_count_at(w, i);
            lemma_count_at(v, i);
            if k == v[pos].0 && i != pos {
                lemma_str_irreflexive(k);
                if i < pos {
                    assert(str_lt(v[i].0, v[pos].0));
                } else {
                    assert(str_lt(v[pos].0, v[i].0));
                }
            }
        }
        assert(other@ =~= m);
    }

    proof fn lemma_inserted(&self, other: &Census, pos: int, key: Seq<char>, count: u64)
        requires
            self.wf(),
            0 <= pos <= self.entries@.len(),
            forall|i: int| 0 <= i < pos ==> str_lt(#[trigger] count_views(self.entries@)[i].0, key),
            forall|i: int|
                pos <= i < self.entries@.len() ==> !str_lt(
                    #[trigger] count_views(self.entries@)[i].0,
                    key,
                ),
            pos == self.entries@.len() || count_views(self.entries@)[pos].0 != key,
            count_views(other.entries@) == count_views(self.entries@).insert(pos, (key, count)),
        ensures
            other.wf(),
            other@ == self@.insert(key, count as nat),
    {
        self.lemma_absent(key, pos);
        let v = count_views(self.entries@);
        let w = count_views(other.entries@);
        let m = self@.insert(key, count as nat);
        assert forall|i: int| pos <= i < v.len() implies str_lt(key, #[trigger] v[i].0) by {
            lemma_str_total(v[i].0, key);
            if v[i].0 == key {
                assert(self@.contains_key(key));
            }
        }
        assert forall|i: int, j: int| 0 <= i < j < w.len() implies str_lt(
            #[trigger] w[i].0,
            #[trigger] w[j].0,
        ) by {
            let i0 = if i < pos { i } else { i - 1 };
            let j0 = if j < pos { j } else { j - 1 };
            if i != pos && j != pos {
                assert(str_lt(v[i0].0, v[j0].0));
            } else if i == pos {
                assert(w[j].0 == v[j0].0);
            } else {
                assert(w[i].0 == v[i0].0);
            }
        }
        assert forall|k: Seq<char>| other@.contains_key(k) <==> m.contains_key(k) by {
            if other@.contains_key(k) && k != key {
                let i = choose|i: int| 0 <= i < w.len() && #[trigger] w[i].0 == k;
                let i0 = if i < pos { i } else { i - 1 };
                assert(v[i0].0 == k);
            }
            if m.contains_key(k) {
                if k == key {
                    assert(w[pos].0 == k);
                } else {
                    let i = choose|i: int| 0 <= i < v.len() && #[trigger] v[i].0 == k;
                    let i1 = if i < pos { i } else { i + 1 };
                    assert(w[i1].0 == k);
                }
            }
        }
        assert forall|k: Seq<char>| other@.contains_key(k) implies other@[k] == m[k] by {
            if k == key {
                lemma_count_at(w, pos);
            } else {
                let i = choose|i: int| 0 <= i < w.len() && #[trigger] w[i].0 == k;
                let i0 = if i < pos { i } else { i - 1 };
                lemma_count_at(w, i);
                lemma_count_at(v, i0);
                assert(v[i0].0 == k);
            }
        }
        assert(other@ =~= m);
    }

    /// How often `key` was counted.
    pub fn get(&self, key: &str) -> (r: u64)
        requires
            self.wf(),
        ensures
            r == count_of(self@, key@),
    {
        let pos = self.position(key);
        let ghost v = count_views(self.entries@);
        if pos < self.entries.len() {
            assert(v[pos as int].0 == self.entries@[pos as int].0@);
            match relate_strs(self.entries[pos].0.as_str(), key) {
                Rel::Equal => {
                    proof {
                        lemma_count_at(v, pos as int);
                    }
                    return self.entries[pos].1;
                },
                _ => {},
            }
        }
        proof {
            self.lemma_absent(key@, pos as int);
        }
        0
    }

    /// Counts one more of `key`.
    pub fn count(&mut self, key: &str)
        requires
            old(self).wf(),
            count_of(old(self)@, key@) < u64::MAX,
        ensures
            final(self).wf(),
            final(self)@ == counted(old(self)@, key@),
    {
        let ghost before = *self;
        let pos = self.position(key);
        let ghost v = count_views(self.entries@);
        if pos < self.entries.len() {
            assert(v[pos as int].0 == self.entries@[pos as int].0@);
            match relate_strs(self.entries[pos].0.as_str(), key) {
                Rel::Equal => {
                    proof {
                        lemma_count_at(v, pos as int);
                    }
                    let n: u64 = self.entries[pos].1 + 1;
                    self.entries.set(pos, (key.to_string(), n));
                    proof {
                        assert(count_views(self.entries@) =~= v.update(
                            pos as int,
                            (v[pos as int].0, n),
                        ));
                        before.lemma_changed(self, pos as int, n);
                    }
                    return ;
                },
                _ => {},
            }
        }
        self.entries.insert(pos, (key.to_string(), 1));
        proof {
            assert(count_views(self.entries@) =~= v.insert(pos as int, (key@, 1u64)));
            before.lemma_absent(key@, pos as int);
            before.lemma_inserted(self, pos as int, key@, 1);
        }
    }

    /// Counts one less of `key`, if it is there.
    pub fn uncount(&mut self, key: &str)
        requires
            old(self).wf(),
        ensures
            final(self).wf(),
            final(self)@ == uncounted(old(self)@, key@),
    {
        let ghost before = *self;
        let pos = self.position(key);
        let ghost v = count_views(self.entries@);
        if pos < self.entries.len() {
            assert(v[pos as int].0 == self.entries@[pos as int].0@);
            match relate_strs(self.entries[pos].0.as_str(), key) {
                Rel::Equal => {
                    proof {
                        lemma_count_at(v, pos as int);
                    }
                    let n: u64 = self.entries[pos].1.saturating_sub(1);
                    self.entries.set(pos, (key.to_string(), n));
                    proof {
                        assert(count_views(self.entries@) =~= v.update(
                            pos as int,
                            (v[pos as int].0, n),
                        ));
                        before.lemma_changed(self, pos as int, n);
                    }
                    return ;
                },
                _ => {},
            }
        }
        proof {
            before.lemma_absent(key@, pos as int);
        }
    }

    /// Whether every count leaves room for `n` more.
    pub fn has_room(&self, n: u64) -> (r: bool)
        requires
            self.wf(),
        ensures
            r <==> forall|k: Seq<char>|
                self@.contains_key(k) ==> #[trigger] self@[k] + n <= u64::MAX,
    {
        let ghost v = count_views(self.entries@);
        let mut i: usize = 0;
        while i < self.entries.len()
            invariant
                self.wf(),
                i <= self.entries.len(),
                v == count_views(self.entries@),
                forall|j: int| 0 <= j < i ==> (#[trigger] v[j]).1 + n <= u64::MAX,
            decreases self.entries.len() - i,
        {
            proof {
                lemma_count_at(v, i as int);
            }
            assert(v[i as int].1 == self.entries@[i as int].1);
            if self.entries[i].1 > u64::MAX - n {
                assert(self@[v[i as int].0] + n > u64::MAX);
                return false;
            }
            i = i + 1;
        }
        proof {
            assert forall|k: Seq<char>| self@.contains_key(k) implies #[trigger] self@[k] + n
                <= u64::MAX by {
                let j = choose|j: int| 0 <= j < v.len() && #[trigger] v[j].0 == k;
                lemma_count_at(v, j);
            }
        }
        true
    }
}

/// Counting a shape adds one to it and to no other; counting it off takes one
/// from it, down to zero, and leaves the others.
pub proof fn law_shapes_are_counted_one_by_one(
    m: Map<Seq<char>, nat>,
    k: Seq<char>,
    other: Seq<char>,
)
    requires
        other != k,
    ensures
        count_of(counted(m, k), k) == count_of(m, k) + 1,
        count_of(counted(m, k), other) == count_of(m, other),
        count_of(m, k) > 0 ==> count_of(uncounted(m, k), k) == count_of(m, k) - 1,
        count_of(m, k) == 0 ==> count_of(uncounted(m, k), k) == 0,
        count_of(uncounted(m, k), other) == count_of(m, other),
        count_of(uncounted(counted(m, k), k), k) == count_of(m, k),
        m.contains_key(k) ==> count_of(m, k) == m[k],
        !m.contains_key(k) ==> count_of(m, k) == 0,
{
}

/// A census holds just the shapes of its entries, each with its count.
pub proof fn law_census_holds_its_entries(v: Seq<CountView>)
    requires
        sorted_counts(v),
    ensures
        forall|i: int|
            0 <= i < v.len() ==> count_of(count_map(v), (#[trigger] v[i]).0) == v[i].1,
        forall|k: Seq<char>| #[trigger]
            count_map(v).contains_key(k) ==> exists|i: int| 0 <= i < v.len() && #[trigger] v[i].0
                == k,
{
    assert forall|i: int| 0 <= i < v.len() implies count_of(count_map(v), (#[trigger] v[i]).0)
        == v[i].1 by {
        lemma_count_at(v, i);
    }
}

} // verus!
