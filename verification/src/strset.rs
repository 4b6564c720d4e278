//! A set of strings kept as a sorted list without duplicates.

use vstd::prelude::*;
use vstd::utf8::encode_utf8;

use crate::order::{
    lemma_lex_irreflexive, lemma_lex_transitive, lemma_str_total, lex_lt, relate_strs, str_lt, Rel,
};

verus! {

/// The strings of `items`, as a set.
pub open spec fn str_set(items: Seq<String>) -> Set<Seq<char>> {
    Set::new(|s: Seq<char>| exists|i: int| 0 <= i < items.len() && #[trigger] items[i]@ == s)
}

/// Strictly increasing in string order: sorted, and nothing occurs twice.
pub open spec fn strictly_sorted(items: Seq<String>) -> bool {
    forall|i: int, j: int|
        0 <= i < j < items.len() ==> str_lt(#[trigger] items[i]@, #[trigger] items[j]@)
}

/// A set of strings.
#[derive(Debug)]
pub struct StrSet {
    items: Vec<String>,
}

impl View for StrSet {
    type V = Set<Seq<char>>;

    closed spec fn view(&self) -> Set<Seq<char>> {
        str_set(self.items@)
    }
}

impl StrSet {
    /// The list behind the set is sorted and holds nothing twice.
    pub closed spec fn wf(&self) -> bool {
        strictly_sorted(self.items@)
    }

    /// The empty set.
    pub fn new() -> (r: StrSet)
        ensures
            r.wf(),
            r@ == Set::<Seq<char>>::empty(),
    {
        let r = StrSet { items: Vec::new() };
        assert(r@ =~= Set::<Seq<char>>::empty());
        r
    }

    /// The position of the first item that is not before `s`.
    fn lower_bound(&self, s: &str) -> (pos: usize)
        requires
            self.wf(),
        ensures
            pos <= self.items.len(),
            forall|i: int| 0 <= i < pos ==> str_lt(#[trigger] self.items@[i]@, s@),
            forall|i: int| pos <= i < self.items.len() ==> !str_lt(#[trigger] self.items@[i]@, s@),
    {
        let mut lo: usize = 0;
        let mut hi: usize = self.items.len();
        while lo < hi
            invariant
                self.wf(),
                lo <= hi <= self.items.len(),
                forall|i: int| 0 <= i < lo ==> str_lt(#[trigger] self.items@[i]@, s@),
                forall|i: int|
                    hi <= i < self.items.len() ==> !str_lt(#[trigger] self.items@[i]@, s@),
            decreases hi - lo,
        {
            let mid: usize = lo + (hi - lo) / 2;
            match relate_strs(self.items[mid].as_str(), s) {
                Rel::Less => {
                    proof {
                        assert forall|i: int| 0 <= i < mid + 1 implies str_lt(
                            #[trigger] self.items@[i]@,
                            s@,
                        ) by {
                            if i < mid {
                                lemma_str_transitive(self.items@[i]@, self.items@[mid as int]@, s@);
                            }
                        }
                    }
                    lo = mid + 1;
                },
                _ => {
                    proof {
                        assert forall|i: int| mid <= i < self.items.len() implies !str_lt(
                            #[trigger] self.items@[i]@,
                            s@,
                        ) by {
                            if i > mid && str_lt(self.items@[i]@, s@) {
                                lemma_str_transitive(self.items@[mid as int]@, self.items@[i]@, s@);
                            }
                        }
                    }
                    hi = mid;
                },
            }
        }
        lo
    }

    /// Whether `s` is in the set.
    pub fn contains(&self, s: &str) -> (r: bool)
        requires
            self.wf(),
        ensures
            r == self@.contains(s@),
    {
        let pos = self.lower_bound(s);
        if pos < self.items.len() {
            match relate_strs(self.items[pos].as_str(), s) {
                Rel::Equal => {
                    assert(self.items@[pos as int]@ == s@);
                    true
                },
                _ => {
                    proof {
                        if self@.contains(s@) {
                            let i = choose|i: int|
                                0 <= i < self.items@.len() && #[trigger] self.items@[i]@ == s@;
                            lemma_str_irreflexive(s@);
                            assert(i >= pos);
                            if i > pos {
                                assert(str_lt(self.items@[pos as int]@, self.items@[i]@));
                            }
                            assert(false);
                        }
                    }
                    false
                },
            }
        } else {
            proof {
                if self@.contains(s@) {
                    let i = choose|i: int|
                        0 <= i < self.items@.len() && #[trigger] self.items@[i]@ == s@;
                    lemma_str_irreflexive(s@);
                }
            }
            false
        }
    }

    /// Adds `s`.
    pub fn insert(&mut self, s: String)
        requires
            old(self).wf(),
        ensures
            final(self).wf(),
            final(self)@ == old(self)@.insert(s@),
    {
        let ghost before = self.items@;
        let pos = self.lower_bound(s.as_str());
        if pos < self.items.len() {
            match relate_strs(self.items[pos].as_str(), s.as_str()) {
                Rel::Equal => {
                    proof {
                        assert(str_set(before).contains(s@)) by {
                            assert(before[pos as int]@ == s@);
                        }
                        assert(str_set(before) =~= str_set(before).insert(s@));
                    }
                    return ;
                },
                _ => {},
            }
        }
        self.items.insert(pos, s);
        proof {
            lemma_insert_keeps_sorted(before, pos as int, s);
            lemma_insert_adds(before, pos as int, s);
        }
    }

    /// Takes `s` out, if it is in.
    pub fn remove(&mut self, s: &str)
        requires
            old(self).wf(),
        ensures
            final(self).wf(),
            final(self)@ == old(self)@.remove(s@),
    {
        let ghost before = self.items@;
        if !self.contains(s) {
            assert(str_set(before) =~= str_set(before).remove(s@));
            return ;
        }
        let pos = self.lower_bound(s);
        proof {
            let i = choose|i: int| 0 <= i < before.len() && #[trigger] before[i]@ == s@;
            lemma_str_irreflexive(s@);
            assert(pos <= i);
            if pos < i {
                assert(str_lt(before[pos as int]@, before[i]@));
            }
            assert(pos == i);
        }
        let _ = self.items.remove(pos);
        proof {
            let after = self.items@;
            assert(after == before.remove(pos as int));
            assert forall|i: int, j: int| 0 <= i < j < after.len() implies str_lt(
                #[trigger] after[i]@,
                #[trigger] after[j]@,
            ) by {
                let i0 = if i < pos { i } else { i + 1 };
                let j0 = if j < pos { j } else { j + 1 };
                assert(after[i] == before[i0] && after[j] == before[j0]);
            }
            assert(str_set(after) =~= str_set(before).remove(s@)) by {
                assert forall|t: Seq<char>| str_set(after).contains(t) implies str_set(
                    before,
                ).remove(s@).contains(t) by {
                    let i = choose|i: int| 0 <= i < after.len() && #[trigger] after[i]@ == t;
                    let i0 = if i < pos { i } else { i + 1 };
                    assert(before[i0]@ == t);
                    if t == s@ {
                        lemma_str_irreflexive(t);
                        if i0 < pos {
                            assert(str_lt(before[i0]@, before[pos as int]@));
                        } else {
                            assert(str_lt(before[pos as int]@, before[i0]@));
                        }
                    }
                }
                assert forall|t: Seq<char>| str_set(before).remove(s@).contains(t) implies str_set(
                    after,
                ).contains(t) by {
                    let i0 = choose|i: int| 0 <= i < before.len() && #[trigger] before[i]@ == t;
                    assert(i0 != pos);
                    let i = if i0 < pos { i0 } else { i0 - 1 };
                    assert(after[i]@ == t);
                }
            }
        }
    }

    /// The strings that are in both sets.
    pub fn intersect(&self, other: &StrSet) -> (r: StrSet)
        requires
            self.wf(),
            other.wf(),
        ensures
            r.wf(),
            r@ == self@.intersect(other@),
    {
        let mut out: Vec<String> = Vec::new();
        let mut i: usize = 0;
        while i < self.items.len()
            invariant
                self.wf(),
                other.wf(),
                i <= self.items.len(),
                strictly_sorted(out@),
                forall|k: int|
                    0 <= k < out.len() ==> other@.contains(#[trigger] out@[k]@) && exists|m: int|
                        0 <= m < i && self.items@[m]@ == out@[k]@,
                forall|m: int|
                    0 <= m < i && other@.contains(#[trigger] self.items@[m]@) ==> str_set(
                        out@,
                    ).contains(self.items@[m]@),
            decreases self.items.len() - i,
        {
            if other.contains(self.items[i].as_str()) {
                let ghost before = out@;
                out.push(self.items[i].clone());
                proof {
                    assert(out@ == before.push(self.items@[i as int]));
                    assert forall|a: int, b: int| 0 <= a < b < out@.len() implies str_lt(
                        #[trigger] out@[a]@,
                        #[trigger] out@[b]@,
                    ) by {
                        if b == before.len() {
                            let m = choose|m: int| 0 <= m < i && self.items@[m]@ == before[a]@;
                            assert(str_lt(self.items@[m]@, self.items@[i as int]@));
                        }
                    }
                    assert forall|k: int| 0 <= k < out@.len() implies other@.contains(
                        #[trigger] out@[k]@,
                    ) && exists|m: int| 0 <= m < i + 1 && self.items@[m]@ == out@[k]@ by {
                        if k < before.len() {
                            let m = choose|m: int| 0 <= m < i && self.items@[m]@ == before[k]@;
                            assert(self.items@[m]@ == out@[k]@);
                        } else {
                            assert(self.items@[i as int]@ == out@[k]@);
                        }
                    }
                    assert forall|m: int|
                        0 <= m < i + 1 && other@.contains(
                            #[trigger] self.items@[m]@,
                        ) implies str_set(out@).contains(self.items@[m]@) by {
                        if m < i {
                            let k = choose|k: int|
                                0 <= k < before.len() && #[trigger] before[k]@ == self.items@[m]@;
                            assert(out@[k]@ == self.items@[m]@);
                        } else {
                            assert(out@[before.len() as int]@ == self.items@[m]@);
                        }
                    }
                }
            }
            i = i + 1;
        }
        let r = StrSet { items: out };
        proof {
            assert forall|t: Seq<char>| r@.contains(t) implies self@.intersect(other@).contains(
                t,
            ) by {
                let k = choose|k: int| 0 <= k < r.items@.len() && #[trigger] r.items@[k]@ == t;
                assert(other@.contains(r.items@[k]@));
            }
            assert forall|t: Seq<char>| self@.intersect(other@).contains(t) implies r@.contains(
                t,
            ) by {
                let m = choose|m: int| 0 <= m < self.items@.len() && #[trigger] self.items@[m]@ == t;
                assert(other@.contains(self.items@[m]@));
            }
            assert(r@ =~= self@.intersect(other@));
        }
        r
    }

    /// Adds every string of `other`.
    pub fn extend(&mut self, other: &StrSet)
        requires
            old(self).wf(),
            other.wf(),
        ensures
            final(self).wf(),
            final(self)@ == old(self)@.union(other@),
    {
        let ghost before = self@;
        let mut i: usize = 0;
        proof {
            assert(self@ =~= before.union(str_set(other.items@.take(0))));
        }
        while i < other.items.len()
            invariant
                self.wf(),
                other.wf(),
                i <= other.items.len(),
                self@ == before.union(str_set(other.items@.take(i as int))),
            decreases other.items.len() - i,
        {
            self.insert(other.items[i].clone());
            proof {
                lemma_set_of_prefix(other.items@, i as int);
                assert(self@ =~= before.union(str_set(other.items@.take(i + 1))));
            }
            i = i + 1;
        }
        proof {
            assert(other.items@.take(i as int) =~= other.items@);
        }
    }

    /// Takes out every string of `other`.
    pub fn subtract(&mut self, other: &StrSet)
        requires
            old(self).wf(),
            other.wf(),
        ensures
            final(self).wf(),
            final(self)@ == old(self)@.difference(other@),
    {
        let ghost before = self@;
        let mut i: usize = 0;
        proof {
            assert(self@ =~= before.difference(str_set(other.items@.take(0))));
        }
        while i < other.items.len()
            invariant
                self.wf(),
                other.wf(),
                i <= other.items.len(),
                self@ == before.difference(str_set(other.items@.take(i as int))),
            decreases other.items.len() - i,
        {
            self.remove(other.items[i].as_str());
            proof {
                lemma_set_of_prefix(other.items@, i as int);
                assert(self@ =~= before.difference(str_set(other.items@.take(i + 1))));
            }
            i = i + 1;
        }
        proof {
            assert(other.items@.take(i as int) =~= other.items@);
        }
    }

    /// Whether nothing is in the set.
    pub fn is_empty(&self) -> (r: bool)
        ensures
            r == (self@ == Set::<Seq<char>>::empty()),
    {
        let r = self.items.is_empty();
        proof {
            if r {
                assert(self@ =~= Set::<Seq<char>>::empty());
            } else {
                assert(self@.contains(self.items@[0]@));
            }
        }
        r
    }

    /// The strings in order.
    pub fn into_sorted(self) -> (r: Vec<String>)
        requires
            self.wf(),
        ensures
            strictly_sorted(r@),
            str_set(r@) == self@,
    {
        self.items
    }
}

pub proof fn lemma_str_irreflexive(a: Seq<char>)
    ensures
        !str_lt(a, a),
{
    lemma_lex_irreflexive(vstd::utf8::encode_utf8(a));
}

pub proof fn lemma_str_transitive(a: Seq<char>, b: Seq<char>, c: Seq<char>)
    requires
        str_lt(a, b),
        str_lt(b, c),
    ensures
        str_lt(a, c),
{
    lemma_lex_transitive(
        vstd::utf8::encode_utf8(a),
        vstd::utf8::encode_utf8(b),
        vstd::utf8::encode_utf8(c),
    );
}

proof fn lemma_set_of_prefix(items: Seq<String>, i: int)
    requires
        0 <= i < items.len(),
    ensures
        str_set(items.take(i + 1)) == str_set(items.take(i)).insert(items[i]@),
{
    let a = items.take(i);
    let b = items.take(i + 1);
    assert forall|t: Seq<char>| str_set(b).contains(t) implies str_set(a).insert(
        items[i]@,
    ).contains(t) by {
        let k = choose|k: int| 0 <= k < b.len() && #[trigger] b[k]@ == t;
        if k < i {
            assert(a[k]@ == t);
        }
    }
    assert forall|t: Seq<char>| str_set(a).insert(items[i]@).contains(t) implies str_set(
        b,
    ).contains(t) by {
        if str_set(a).contains(t) {
            let k = choose|k: int| 0 <= k < a.len() && #[trigger] a[k]@ == t;
            assert(b[k]@ == t);
        } else {
            assert(b[i]@ == t);
        }
    }
    assert(str_set(b) =~= str_set(a).insert(items[i]@));
}

proof fn lemma_insert_keeps_sorted(items: Seq<String>, pos: int, s: String)
    requires
        strictly_sorted(items),
        0 <= pos <= items.len(),
        forall|i: int| 0 <= i < pos ==> str_lt(#[trigger] items[i]@, s@),
        forall|i: int| pos <= i < items.len() ==> !str_lt(#[trigger] items[i]@, s@),
        pos < items.len() ==> items[pos]@ != s@,
    ensures
        strictly_sorted(items.insert(pos, s)),
{
    let after = items.insert(pos, s);
    assert forall|i: int, j: int| 0 <= i < j < after.len() implies str_lt(
        #[trigger] after[i]@,
        #[trigger] after[j]@,
    ) by {
        if i == pos {
            assert(after[j] == items[j - 1]);
            lemma_str_total(s@, items[j - 1]@);
            if items[j - 1]@ == s@ {
                assert(j - 1 > pos);
                assert(str_lt(items[pos]@, items[j - 1]@));
            }
        } else if j == pos {
            assert(after[i] == items[i]);
        } else {
            let i0 = if i < pos { i } else { i - 1 };
            let j0 = if j < pos { j } else { j - 1 };
            assert(after[i] == items[i0] && after[j] == items[j0]);
        }
    }
}

proof fn lemma_insert_adds(items: Seq<String>, pos: int, s: String)
    requires
        0 <= pos <= items.len(),
    ensures
        str_set(items.insert(pos, s)) == str_set(items).insert(s@),
{
    let after = items.insert(pos, s);
    assert forall|t: Seq<char>| str_set(after).contains(t) implies str_set(items).insert(
        s@,
    ).contains(t) by {
        let k = choose|k: int| 0 <= k < after.len() && #[trigger] after[k]@ == t;
        if k < pos {
            assert(items[k]@ == t);
        } else if k > pos {
            assert(items[k - 1]@ == t);
        }
    }
    assert forall|t: Seq<char>| str_set(items).insert(s@).contains(t) implies str_set(
        after,
    ).contains(t) by {
        if str_set(items).contains(t) {
            let k = choose|k: int| 0 <= k < items.len() && #[trigger] items[k]@ == t;
            let k1 = if k < pos { k } else { k + 1 };
            assert(after[k1]@ == t);
        } else {
            assert(after[pos]@ == t);
        }
    }
    assert(str_set(after) =~= str_set(items).insert(s@));
}

/// A list that is strictly sorted holds each string once, in byte order; the
/// set of a list holds just what stands in it.
pub proof fn law_sorted_lists_are_sets(items: Seq<String>, s: Seq<char>)
    ensures
        str_set(items).contains(s) <==> exists|i: int|
            0 <= i < items.len() && #[trigger] items[i]@ == s,
        strictly_sorted(items) ==> forall|i: int, j: int|
            0 <= i < j < items.len() ==> #[trigger] items[i]@ != #[trigger] items[j]@ && lex_lt(
                encode_utf8(items[i]@),
                encode_utf8(items[j]@),
            ),
{
    if strictly_sorted(items) {
        assert forall|i: int, j: int| 0 <= i < j < items.len() implies #[trigger] items[i]@
            != #[trigger] items[j]@ && lex_lt(
            encode_utf8(items[i]@),
            encode_utf8(items[j]@),
        ) by {
            lemma_lex_irreflexive(encode_utf8(items[i]@));
        }
    }
}

} // verus!
