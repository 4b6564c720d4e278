//! The shape registry: the sliver lattice.
//!
//! Modes are the base shapes; every observed shape attaches beneath its mode
//! as a sliver, a thin specialization. Shapes evolve: a drifted payload (a
//! field added or removed) is a new sliver beside its sibling, never a silent
//! reuse of the old plan.

use vstd::hash_map::StringHashMap;
use vstd::prelude::*;

verus! {

/// A base shape. Modes are told apart by a number; mail has one of its own.
#[derive(Debug, Clone, Copy, PartialEq, Eq, Structural)]
pub enum Mode {
    Mail,
    Other(u32),
}

/// The fingerprint of a payload's shape: its canonical key.
#[derive(Debug)]
pub struct ShapeFingerprint {
    key: String,
}

impl View for ShapeFingerprint {
    type V = Seq<char>;

    closed spec fn view(&self) -> Seq<char> {
        self.key@
    }
}

impl ShapeFingerprint {
    /// The fingerprint with a canonical key.
    pub fn from_key(key: String) -> (r: ShapeFingerprint)
        ensures
            r@ == key@,
    {
        ShapeFingerprint { key }
    }

    /// The canonical key.
    pub fn key(&self) -> (r: String)
        ensures
            r@ == self@,
    {
        self.key.clone()
    }
}

/// A registered sliver: one observed shape under a mode.
#[derive(Debug)]
pub struct Sliver {
    /// Stable id (registry-scoped, dense).
    pub id: u64,
    /// Canonical shape key.
    pub key: String,
    /// The mode this sliver specializes.
    pub mode: Mode,
    /// Documents observed with this shape.
    pub count: u64,
}

/// A registered sliver.
pub struct SliverView {
    pub id: u64,
    pub key: Seq<char>,
    pub mode: Mode,
    pub count: u64,
}

impl View for Sliver {
    type V = SliverView;

    open spec fn view(&self) -> SliverView {
        SliverView { id: self.id, key: self.key@, mode: self.mode, count: self.count }
    }
}

/// The slivers of a list.
pub open spec fn sliver_views(v: Seq<Sliver>) -> Seq<SliverView> {
    v.map_values(|s: Sliver| s@)
}

/// The slivers that references are to.
pub open spec fn sliver_refs(v: Seq<&Sliver>) -> Seq<SliverView> {
    v.map_values(|s: &Sliver| s@)
}

/// Where the sliver of a shape stands; the number of slivers where it has none.
pub open spec fn sliver_of(v: Seq<SliverView>, key: Seq<char>) -> nat
    decreases v.len(),
{
    if v.len() == 0 || v[0].key == key {
        0
    } else {
        1 + sliver_of(v.drop_first(), key)
    }
}

/// The shape has been observed.
pub open spec fn known(v: Seq<SliverView>, key: Seq<char>) -> bool {
    exists|i: int| 0 <= i < v.len() && (#[trigger] v[i]).key == key
}

/// Slivers are numbered in the order in which their shapes were first observed,
/// and no shape has two.
pub open spec fn slivers_ok(v: Seq<SliverView>) -> bool {
    &&& forall|i: int| 0 <= i < v.len() ==> (#[trigger] v[i]).id == i
    &&& forall|i: int, j: int|
        0 <= i < j < v.len() ==> (#[trigger] v[i]).key != (#[trigger] v[j]).key
}

/// The slivers under a mode, in the order of their ids.
pub open spec fn under(v: Seq<SliverView>, mode: Mode) -> Seq<SliverView>
    decreases v.len(),
{
    if v.len() == 0 {
        seq![]
    } else {
        let rest = under(v.drop_last(), mode);
        if v.last().mode == mode {
            rest.push(v.last())
        } else {
            rest
        }
    }
}

/// A sliver with one more document.
pub open spec fn bumped(s: SliverView) -> SliverView {
    SliverView { count: (s.count + 1) as u64, ..s }
}

/// The slivers after a shape was observed: its sliver has one more document,
/// and a shape that was not known gets a sliver of its own.
pub open spec fn observed(v: Seq<SliverView>, key: Seq<char>, mode: Mode) -> Seq<SliverView> {
    if known(v, key) {
        let at = sliver_of(v, key) as int;
        v.update(at, bumped(v[at]))
    } else {
        v.push(SliverView { id: v.len() as u64, key, mode, count: 1 })
    }
}

proof fn lemma_sliver_of(v: Seq<SliverView>, key: Seq<char>)
    ensures
        sliver_of(v, key) <= v.len(),
        known(v, key) <==> sliver_of(v, key) < v.len(),
        known(v, key) ==> v[sliver_of(v, key) as int].key == key,
        forall|i: int| 0 <= i < sliver_of(v, key) ==> (#[trigger] v[i]).key != key,
    decreases v.len(),
{
    if v.len() > 0 && v[0].key != key {
        let rest = v.drop_first();
        lemma_sliver_of(rest, key);
        if known(rest, key) {
            let i = choose|i: int| 0 <= i < rest.len() && (#[trigger] rest[i]).key == key;
            assert(v[i + 1].key == key);
        }
        if known(v, key) {
            let i = choose|i: int| 0 <= i < v.len() && (#[trigger] v[i]).key == key;
            assert(rest[i - 1].key == key);
        }
        assert forall|i: int| 0 <= i < sliver_of(v, key) implies (#[trigger] v[i]).key != key by {
            if i > 0 {
                assert(rest[i - 1].key != key);
            }
        }
    } else if v.len() > 0 {
        assert(v[0].key == key);
    }
}

/// A shape keeps its sliver, whatever is observed next: its id and its mode
/// never change, and observing it again makes no new one.
pub proof fn law_shapes_keep_their_slivers(
    v: Seq<SliverView>,
    key: Seq<char>,
    other: Seq<char>,
    mode: Mode,
)
    requires
        slivers_ok(v),
        known(v, key),
        v.len() < u64::MAX,
    ensures
        slivers_ok(observed(v, other, mode)),
        known(observed(v, other, mode), key),
        sliver_of(observed(v, other, mode), key) == sliver_of(v, key),
        observed(v, other, mode)[sliver_of(v, key) as int].mode == v[sliver_of(
            v,
            key,
        ) as int].mode,
        other == key ==> observed(v, other, mode).len() == v.len(),
{
    lemma_sliver_of(v, key);
    lemma_sliver_of(v, other);
    let w = observed(v, other, mode);
    let at = sliver_of(v, key) as int;
    assert(w[at].key == key);
    lemma_sliver_of(w, key);
    assert forall|i: int| 0 <= i < v.len() implies (#[trigger] w[i]).key == v[i].key && w[i].id
        == v[i].id by {}
    assert forall|i: int, j: int| 0 <= i < j < w.len() implies (#[trigger] w[i]).key != (
    #[trigger] w[j]).key by {
        if j < v.len() {
            assert(v[i].key != v[j].key);
        } else {
            assert(v[i].key != other);
        }
    }
    let b = sliver_of(w, key) as int;
    if b < at {
        assert(v[b].key != key);
    } else if at < b {
        assert(w[at].key != key);
    }
}

/// A drifted shape is never a silent reuse: a shape that was not known gets a
/// new id, other than that of every shape known before.
pub proof fn law_drift_gets_a_new_sliver(v: Seq<SliverView>, key: Seq<char>, mode: Mode)
    requires
        slivers_ok(v),
        !known(v, key),
        v.len() < u64::MAX,
    ensures
        slivers_ok(observed(v, key, mode)),
        observed(v, key, mode).len() == v.len() + 1,
        known(observed(v, key, mode), key),
        sliver_of(observed(v, key, mode), key) == v.len(),
        forall|i: int|
            0 <= i < v.len() ==> (#[trigger] v[i]).id != observed(v, key, mode)[v.len() as int].id,
{
    let w = observed(v, key, mode);
    assert(w[v.len() as int].key == key);
    lemma_sliver_of(w, key);
    assert forall|i: int| 0 <= i < v.len() implies (#[trigger] w[i]) == v[i] by {}
    assert forall|i: int, j: int| 0 <= i < j < w.len() implies (#[trigger] w[i]).key != (
    #[trigger] w[j]).key by {
        if j < v.len() {
            assert(v[i].key != v[j].key);
        } else if v[i].key == key {
            assert(known(v, key));
        }
    }
    let b = sliver_of(w, key) as int;
    if b < v.len() {
        assert(v[b].key == key);
    }
}

/// The slivers after shapes were observed, each under a mode, from nothing.
pub open spec fn lattice(obs: Seq<(Seq<char>, Mode)>) -> Seq<SliverView>
    decreases obs.len(),
{
    if obs.len() == 0 {
        seq![]
    } else {
        observed(lattice(obs.drop_last()), obs.last().0, obs.last().1)
    }
}

/// The mode under which a shape was first observed, if it ever was.
pub open spec fn first_mode(obs: Seq<(Seq<char>, Mode)>, key: Seq<char>) -> Option<Mode>
    decreases obs.len(),
{
    if obs.len() == 0 {
        None
    } else {
        match first_mode(obs.drop_last(), key) {
            Some(m) => Some(m),
            None => if obs.last().0 == key {
                Some(obs.last().1)
            } else {
                None
            },
        }
    }
}

/// Every shape that was ever observed has one sliver, under the mode under
/// which it was first observed, and there are no other slivers.
pub proof fn law_slivers_stand_under_their_first_mode(obs: Seq<(Seq<char>, Mode)>)
    requires
        obs.len() <= u64::MAX,
    ensures
        slivers_ok(lattice(obs)),
        lattice(obs).len() <= obs.len(),
        forall|key: Seq<char>| #[trigger]
            known(lattice(obs), key) <==> first_mode(obs, key) is Some,
        forall|i: int|
            0 <= i < lattice(obs).len() ==> first_mode(obs, (#[trigger] lattice(obs)[i]).key)
                == Some(lattice(obs)[i].mode),
    decreases obs.len(),
{
    if obs.len() > 0 {
        let rest = obs.drop_last();
        law_slivers_stand_under_their_first_mode(rest);
        let v = lattice(rest);
        let w = lattice(obs);
        let key = obs.last().0;
        let mode = obs.last().1;
        lemma_sliver_of(v, key);
        if known(v, key) {
            law_shapes_keep_their_slivers(v, key, key, mode);
        } else {
            law_drift_gets_a_new_sliver(v, key, mode);
        }
        assert forall|i: int| 0 <= i < v.len() implies (#[trigger] w[i]).key == v[i].key
            && w[i].mode == v[i].mode by {}
        assert forall|k: Seq<char>| #[trigger] known(w, k) <==> first_mode(obs, k) is Some by {
            if known(v, k) {
                let i = choose|i: int| 0 <= i < v.len() && (#[trigger] v[i]).key == k;
                assert(w[i].key == k);
            }
            if known(w, k) && k != key {
                let i = choose|i: int| 0 <= i < w.len() && (#[trigger] w[i]).key == k;
                assert(v[i].key == k);
            }
        }
        assert forall|i: int| 0 <= i < w.len() implies first_mode(obs, (#[trigger] w[i]).key)
            == Some(w[i].mode) by {
            if i < v.len() {
                assert(first_mode(rest, v[i].key) == Some(v[i].mode));
            } else {
                assert(!known(v, key));
            }
        }
    }
}

/// How many documents the slivers count, together.
pub open spec fn documents(v: Seq<SliverView>) -> nat
    decreases v.len(),
{
    if v.len() == 0 {
        0
    } else {
        documents(v.drop_last()) + v.last().count as nat
    }
}

proof fn lemma_documents_update(v: Seq<SliverView>, at: int, s: SliverView)
    requires
        0 <= at < v.len(),
    ensures
        documents(v.update(at, s)) == documents(v) - v[at].count + s.count,
        documents(v) >= v[at].count,
    decreases v.len(),
{
    let w = v.update(at, s);
    if at == v.len() - 1 {
        assert(w.drop_last() =~= v.drop_last());
    } else {
        assert(w.drop_last() =~= v.drop_last().update(at, s));
        lemma_documents_update(v.drop_last(), at, s);
    }
}

/// The shapes that were observed.
pub open spec fn shapes_of(obs: Seq<(Seq<char>, Mode)>) -> Set<Seq<char>> {
    obs.map_values(|o: (Seq<char>, Mode)| o.0).to_set()
}

/// Every observation counts once: the slivers' counts add up to the number of
/// observations, and there are as many slivers as distinct shapes observed.
pub proof fn law_registry_totals_are_exact(obs: Seq<(Seq<char>, Mode)>)
    requires
        obs.len() <= u64::MAX,
    ensures
        documents(lattice(obs)) == obs.len(),
        lattice(obs).len() == shapes_of(obs).len(),
    decreases obs.len(),
{
    law_slivers_stand_under_their_first_mode(obs);
    let w = lattice(obs);
    let keys = w.map_values(|s: SliverView| s.key);
    assert(keys.no_duplicates()) by {
        assert forall|i: int, j: int|
            0 <= i < keys.len() && 0 <= j < keys.len() && i != j implies keys[i] != keys[j] by {
            if i < j {
                assert(w[i].key != w[j].key);
            } else {
                assert(w[j].key != w[i].key);
            }
        }
    }
    keys.unique_seq_to_set();
    assert(keys.to_set() =~= shapes_of(obs)) by {
        let seen = obs.map_values(|o: (Seq<char>, Mode)| o.0);
        assert forall|k: Seq<char>| keys.contains(k) <==> seen.contains(k) by {
            lemma_first_mode(obs, k);
            if keys.contains(k) {
                let i = choose|i: int| 0 <= i < keys.len() && keys[i] == k;
                assert(w[i].key == k);
                assert(known(w, k));
                let j = choose|j: int| 0 <= j < obs.len() && (#[trigger] obs[j]).0 == k;
                assert(seen[j] == k);
            }
            if seen.contains(k) {
                let j = choose|j: int| 0 <= j < seen.len() && seen[j] == k;
                assert(obs[j].0 == k);
                assert(known(w, k));
                let i = choose|i: int| 0 <= i < w.len() && (#[trigger] w[i]).key == k;
                assert(keys[i] == k);
            }
        }
    }
    if obs.len() > 0 {
        let rest = obs.drop_last();
        law_registry_totals_are_exact(rest);
        let v = lattice(rest);
        let key = obs.last().0;
        if known(v, key) {
            lemma_sliver_of(v, key);
            let at = sliver_of(v, key) as int;
            lemma_documents_update(v, at, bumped(v[at]));
        } else {
            assert(w.drop_last() =~= v);
        }
    }
}

proof fn lemma_first_mode(obs: Seq<(Seq<char>, Mode)>, key: Seq<char>)
    ensures
        first_mode(obs, key) is Some <==> exists|j: int|
            0 <= j < obs.len() && (#[trigger] obs[j]).0 == key,
    decreases obs.len(),
{
    if obs.len() > 0 {
        let rest = obs.drop_last();
        lemma_first_mode(rest, key);
        if exists|j: int| 0 <= j < rest.len() && (#[trigger] rest[j]).0 == key {
            let j = choose|j: int| 0 <= j < rest.len() && (#[trigger] rest[j]).0 == key;
            assert(obs[j].0 == key);
        }
        if exists|j: int| 0 <= j < obs.len() && (#[trigger] obs[j]).0 == key {
            let j = choose|j: int| 0 <= j < obs.len() && (#[trigger] obs[j]).0 == key;
            if j < rest.len() {
                assert(rest[j].0 == key);
            }
        }
        if obs.last().0 == key {
            assert(obs[obs.len() - 1].0 == key);
        }
    }
}

proof fn lemma_under(v: Seq<SliverView>, mode: Mode)
    requires
        slivers_ok(v),
    ensures
        forall|i: int|
            0 <= i < under(v, mode).len() ==> (#[trigger] under(v, mode)[i]).id < v.len()
                && under(v, mode)[i].mode == mode && under(v, mode)[i] == v[
                under(v, mode)[i].id as int],
        forall|i: int, j: int|
            0 <= i < j < under(v, mode).len() ==> (#[trigger] under(v, mode)[i]).id < (
            #[trigger] under(v, mode)[j]).id,
        forall|i: int|
            0 <= i < v.len() && (#[trigger] v[i]).mode == mode ==> under(v, mode).contains(v[i]),
    decreases v.len(),
{
    if v.len() > 0 {
        let rest = v.drop_last();
        let n = v.len() - 1;
        let u = under(v, mode);
        let r = under(rest, mode);
        assert forall|i: int| 0 <= i < rest.len() implies (#[trigger] rest[i]).id == i by {
            assert(v[i].id == i);
        }
        assert forall|i: int, j: int| 0 <= i < j < rest.len() implies (#[trigger] rest[i]).key != (
        #[trigger] rest[j]).key by {
            assert(v[i].key != v[j].key);
        }
        lemma_under(rest, mode);
        assert(v[n].id == n);
        assert forall|i: int| 0 <= i < u.len() implies (#[trigger] u[i]).id < v.len() && u[i].mode
            == mode && u[i] == v[u[i].id as int] by {
            if i < r.len() {
                assert(u[i] == r[i]);
                assert(r[i] == rest[r[i].id as int]);
            }
        }
        assert forall|i: int, j: int| 0 <= i < j < u.len() implies (#[trigger] u[i]).id < (
        #[trigger] u[j]).id by {
            assert(u[i] == r[i]);
            if j < r.len() {
                assert(u[j] == r[j]);
            }
        }
        assert forall|i: int| 0 <= i < v.len() && (#[trigger] v[i]).mode == mode implies u.contains(
            v[i],
        ) by {
            if i < n {
                assert(rest[i].mode == mode);
                assert(r.contains(rest[i]));
                let j = choose|j: int| 0 <= j < r.len() && r[j] == rest[i];
                assert(u[j] == v[i]);
            } else {
                assert(u[r.len() as int] == v[i]);
            }
        }
    }
}

/// How many slivers there are under modes, together.
pub open spec fn under_all(v: Seq<SliverView>, modes: Seq<Mode>) -> nat
    decreases modes.len(),
{
    if modes.len() == 0 {
        0
    } else {
        under_all(v, modes.drop_last()) + under(v, modes.last()).len()
    }
}

proof fn lemma_under_all(v: Seq<SliverView>, modes: Seq<Mode>)
    requires
        v.len() > 0,
        modes.no_duplicates(),
    ensures
        under_all(v, modes) == under_all(v.drop_last(), modes) + (if modes.contains(
            v.last().mode,
        ) {
            1nat
        } else {
            0nat
        }),
    decreases modes.len(),
{
    if modes.len() > 0 {
        let rest = modes.drop_last();
        let m = v.last().mode;
        assert(rest.no_duplicates());
        lemma_under_all(v, rest);
        assert(modes[modes.len() - 1] == modes.last());
        if rest.contains(m) {
            let i = choose|i: int| 0 <= i < rest.len() && rest[i] == m;
            assert(modes[i] == m);
        }
        if modes.contains(m) && modes.last() != m {
            let i = choose|i: int| 0 <= i < modes.len() && modes[i] == m;
            assert(rest[i] == m);
        }
    }
}

proof fn lemma_modes_hold_all(v: Seq<SliverView>, modes: Seq<Mode>)
    requires
        modes.no_duplicates(),
        forall|i: int| 0 <= i < v.len() ==> modes.contains((#[trigger] v[i]).mode),
    ensures
        under_all(v, modes) == v.len(),
    decreases v.len(), modes.len(),
{
    if v.len() > 0 {
        let rest = v.drop_last();
        assert forall|i: int| 0 <= i < rest.len() implies modes.contains(
            (#[trigger] rest[i]).mode,
        ) by {
            assert(modes.contains(v[i].mode));
        }
        lemma_modes_hold_all(rest, modes);
        assert(modes.contains(v[v.len() - 1].mode));
        lemma_under_all(v, modes);
    } else if modes.len() > 0 {
        lemma_modes_hold_all(v, modes.drop_last());
    }
}

/// The modes part the registry: the list of a mode holds each sliver of the
/// mode and no other, by ascending id and so none twice, and over modes that
/// cover all slivers the lists have as many as there are.
pub proof fn law_modes_part_the_registry(v: Seq<SliverView>, mode: Mode, modes: Seq<Mode>)
    requires
        slivers_ok(v),
    ensures
        forall|i: int|
            0 <= i < v.len() ==> (under(v, mode).contains(#[trigger] v[i]) <==> v[i].mode == mode),
        forall|s: SliverView| #[trigger]
            under(v, mode).contains(s) ==> v.contains(s) && s.mode == mode,
        forall|i: int, j: int|
            0 <= i < j < under(v, mode).len() ==> (#[trigger] under(v, mode)[i]).id < (
            #[trigger] under(v, mode)[j]).id,
        modes.no_duplicates() && (forall|i: int|
            0 <= i < v.len() ==> modes.contains((#[trigger] v[i]).mode)) ==> under_all(v, modes)
            == v.len(),
{
    lemma_under(v, mode);
    let u = under(v, mode);
    assert forall|s: SliverView| #[trigger] u.contains(s) implies v.contains(s) && s.mode
        == mode by {
        let i = choose|i: int| 0 <= i < u.len() && u[i] == s;
        assert(u[i] == v[u[i].id as int]);
    }
    if modes.no_duplicates() && (forall|i: int|
        0 <= i < v.len() ==> modes.contains((#[trigger] v[i]).mode)) {
        lemma_modes_hold_all(v, modes);
    }
}

/// The lattice: canonical shape key to sliver.
pub struct ShapeRegistry {
    /// In the order of their ids.
    slivers: Vec<Sliver>,
    /// Where the sliver of a shape stands.
    places: StringHashMap<usize>,
}

impl View for ShapeRegistry {
    type V = Seq<SliverView>;

    closed spec fn view(&self) -> Seq<SliverView> {
        sliver_views(self.slivers@)
    }
}

impl Default for ShapeRegistry {
    fn default() -> (r: ShapeRegistry)
        ensures
            r.wf(),
            r@ == Seq::<SliverView>::empty(),
    {
        ShapeRegistry::new()
    }
}

impl ShapeRegistry {
    /// Slivers are numbered densely, no shape has two, and each is found under
    /// its shape.
    pub closed spec fn wf(&self) -> bool {
        &&& slivers_ok(self@)
        &&& forall|i: int|
            0 <= i < self.slivers@.len() ==> self.places@.contains_key(
                (#[trigger] self.slivers@[i]).key@,
            ) && self.places@[self.slivers@[i].key@] == i
        &&& forall|key: Seq<char>| #[trigger]
            self.places@.contains_key(key) ==> self.places@[key] < self.slivers@.len()
                && self.slivers@[self.places@[key] as int].key@ == key
    }

    /// In a registry slivers are numbered densely, and no shape has two.
    pub proof fn lemma_wf(&self)
        requires
            self.wf(),
        ensures
            slivers_ok(self@),
    {
    }

    /// An empty registry.
    pub fn new() -> (r: ShapeRegistry)
        ensures
            r.wf(),
            r@ == Seq::<SliverView>::empty(),
    {
        let r = ShapeRegistry { slivers: Vec::new(), places: StringHashMap::new() };
        assert(r@ =~= Seq::<SliverView>::empty());
        r
    }

    /// Observes a shape: returns its sliver's id and whether it is new.
    /// Observing it again only bumps the count; the mode stays the one under
    /// which the shape was first observed.
    pub fn observe(&mut self, shape: &ShapeFingerprint, mode: Mode) -> (r: (u64, bool))
        requires
            old(self).wf(),
            forall|i: int|
                0 <= i < old(self)@.len() && (#[trigger] old(self)@[i]).key == shape@
                    ==> old(self)@[i].count < u64::MAX,
        ensures
            final(self).wf(),
            final(self)@ == observed(old(self)@, shape@, mode),
            r == (sliver_of(old(self)@, shape@) as u64, !known(old(self)@, shape@)),
    {
        let ghost before = self@;
        let key = shape.key();
        proof {
            lemma_sliver_of(before, shape@);
        }
        match self.places.get(key.as_str()) {
            Some(at) => {
                let at: usize = *at;
                let ghost s = self.slivers@[at as int];
                proof {
                    assert(before[at as int] == s@);
                    assert(known(before, shape@));
                    let b = sliver_of(before, shape@) as int;
                    if b < at {
                        assert(before[b].key != before[at as int].key);
                    } else if at < b {
                        assert(before[at as int].key != shape@);
                    }
                }
                let id: u64 = self.slivers[at].id;
                let n: u64 = self.slivers[at].count + 1;
                self.slivers[at].count = n;
                proof {
                    assert(self@ =~= before.update(at as int, bumped(before[at as int])));
                    assert forall|i: int| 0 <= i < self@.len() implies (#[trigger] self@[i]).key
                        == before[i].key && self@[i].id == before[i].id by {}
                    assert forall|i: int, j: int| 0 <= i < j < self@.len() implies (
                    #[trigger] self@[i]).key != (#[trigger] self@[j]).key by {
                        assert(before[i].key != before[j].key);
                    }
                    assert forall|i: int| 0 <= i < self.slivers@.len() implies (
                    #[trigger] self.slivers@[i]).key@ == self@[i].key by {}
                    assert(known(before, shape@));
                }
                (id, false)
            },
            None => {
                let at: usize = self.slivers.len();
                let id: u64 = at as u64;
                proof {
                    if known(before, shape@) {
                        let i = choose|i: int|
                            0 <= i < before.len() && (#[trigger] before[i]).key == shape@;
                        assert(self.slivers@[i].key@ == shape@);
                    }
                }
                self.places.insert(key.clone(), at);
                self.slivers.push(Sliver { id, key, mode, count: 1 });
                proof {
                    assert(self@ =~= before.push(
                        SliverView { id, key: shape@, mode, count: 1 },
                    ));
                    assert forall|i: int, j: int| 0 <= i < j < self@.len() implies (
                    #[trigger] self@[i]).key != (#[trigger] self@[j]).key by {
                        if j == before.len() {
                            assert(self@[i] == before[i]);
                            if before[i].key == shape@ {
                                assert(known(before, shape@));
                            }
                        } else {
                            assert(before[i].key != before[j].key);
                        }
                    }
                    assert forall|i: int| 0 <= i < self@.len() implies (#[trigger] self@[i]).id
                        == i by {
                        if i < before.len() {
                            assert(self@[i] == before[i]);
                        }
                    }
                }
                (id, true)
            },
        }
    }

    /// All slivers under a mode (the mode's slice of the lattice), by id.
    pub fn slivers_of(&self, mode: Mode) -> (r: Vec<&Sliver>)
        requires
            self.wf(),
        ensures
            sliver_refs(r@) == under(self@, mode),
    {
        let ghost all = self@;
        let mut out: Vec<&Sliver> = Vec::new();
        let mut i: usize = 0;
        assert(sliver_refs(out@) =~= under(all.take(0), mode));
        while i < self.slivers.len()
            invariant
                i <= self.slivers.len(),
                all == self@,
                all == sliver_views(self.slivers@),
                sliver_refs(out@) == under(all.take(i as int), mode),
            decreases self.slivers.len() - i,
        {
            proof {
                assert(all.take(i + 1).drop_last() =~= all.take(i as int));
                assert(all.take(i + 1).last() == self.slivers@[i as int]@);
            }
            if self.slivers[i].mode == mode {
                let ghost so_far = out@;
                out.push(&self.slivers[i]);
                assert(sliver_refs(out@) =~= sliver_refs(so_far).push(self.slivers@[i as int]@));
            }
            i = i + 1;
        }
        assert(all.take(i as int) =~= all);
        out
    }

    /// Number of distinct slivers observed.
    pub fn len(&self) -> (r: usize)
        ensures
            r == self@.len(),
    {
        self.slivers.len()
    }

    /// Whether nothing has been observed yet.
    pub fn is_empty(&self) -> (r: bool)
        ensures
            r == (self@.len() == 0),
    {
        self.slivers.len() == 0
    }
}

/// An observation of a shape that is not known adds a sliver at the end, with
/// the next id, the shape, the mode and one document, and changes no other.
/// One of a known shape adds a document to its sliver and changes nothing else,
/// whatever mode it comes with.
pub proof fn law_observations_count_one_document(
    v: Seq<SliverView>,
    key: Seq<char>,
    mode: Mode,
    i: int,
)
    requires
        slivers_ok(v),
        v.len() < u64::MAX,
        0 <= i < v.len() ==> v[i].count < u64::MAX,
    ensures
        (forall|j: int| 0 <= j < v.len() ==> (#[trigger] v[j]).key != key) ==> {
            &&& observed(v, key, mode).len() == v.len() + 1
            &&& observed(v, key, mode)[v.len() as int].id == v.len()
            &&& observed(v, key, mode)[v.len() as int].key == key
            &&& observed(v, key, mode)[v.len() as int].mode == mode
            &&& observed(v, key, mode)[v.len() as int].count == 1
            &&& 0 <= i < v.len() ==> observed(v, key, mode)[i] == v[i]
        },
        0 <= i < v.len() && v[i].key == key ==> {
            &&& observed(v, key, mode).len() == v.len()
            &&& observed(v, key, mode)[i].id == v[i].id
            &&& observed(v, key, mode)[i].key == key
            &&& observed(v, key, mode)[i].mode == v[i].mode
            &&& observed(v, key, mode)[i].count == v[i].count + 1
        },
        0 <= i < v.len() && v[i].key != key ==> observed(v, key, mode)[i] == v[i],
{
    lemma_sliver_of(v, key);
    if 0 <= i < v.len() && v[i].key == key {
        let at = sliver_of(v, key) as int;
        assert(known(v, key));
        if at < i {
            assert(v[at].key != v[i].key);
        }
    }
}

/// A sliver's view has its id, its shape, its mode and its count, and a list's
/// the views in order.
pub proof fn law_sliver_views_hold_every_field(s: Sliver, v: Seq<Sliver>, i: int)
    ensures
        s@.id == s.id,
        s@.key == s.key@,
        s@.mode == s.mode,
        s@.count == s.count,
        sliver_views(v).len() == v.len(),
        0 <= i < v.len() ==> sliver_views(v)[i] == v[i]@,
{
}

/// The number of documents is the sum of the counts.
pub proof fn law_documents_add_up(v: Seq<SliverView>, s: SliverView)
    ensures
        documents(Seq::empty()) == 0,
        documents(v.push(s)) == documents(v) + s.count,
{
    assert(v.push(s).drop_last() =~= v);
}

/// References to slivers have the slivers' views, in order.
pub proof fn law_sliver_references_hold_every_sliver(v: Seq<&Sliver>, i: int)
    ensures
        sliver_refs(v).len() == v.len(),
        0 <= i < v.len() ==> sliver_refs(v)[i] == (*v[i])@,
{
}

} // verus!
