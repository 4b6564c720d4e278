//! Out-of-band graph apply: the second phase of a two-phase write.
//!
//! Upserts commit durably and enqueue; an applier drains the queue into the
//! graph, batch by batch. Searches stay correct via the pending overlay:
//! vectors that are not applied yet are scored exactly and merged over the
//! graph's results, and pending removals mask stale graph hits. What is being
//! applied stays in the overlay until it has been: a reader sees its own writes
//! at any time.

use std::collections::VecDeque;

use vstd::hash_map::StringHashMap;
use vstd::prelude::*;

use crate::order::{relate_strs, Rel};
use crate::model::copy_vec;
use crate::text::{lemma_shift, texts};

verus! {

/// Backpressure cap: above this many queued entries, producers wait.
pub const PENDING_CAP: usize = 200_000;

/// How many operations the applier takes at a time.
pub const APPLY_BATCH: usize = 512;

/// A pending operation on the graph.
#[derive(Debug)]
pub enum Op {
    Upsert(Vec<u32>),
    Remove,
}

/// A pending operation on the graph.
pub enum OpView {
    Upsert(Seq<u32>),
    Remove,
}

impl View for Op {
    type V = OpView;

    open spec fn view(&self) -> OpView {
        match *self {
            Op::Upsert(v) => OpView::Upsert(v@),
            Op::Remove => OpView::Remove,
        }
    }
}

/// Operations with the ids they are on.
pub open spec fn op_views(v: Seq<(String, Op)>) -> Seq<(Seq<char>, OpView)> {
    v.map_values(|p: (String, Op)| (p.0@, p.1@))
}

/// What is pending.
#[verifier::ext_equal]
pub struct PendingView {
    /// Apply order. Ids may repeat; `latest` holds the latest operation.
    pub queue: Seq<Seq<char>>,
    /// The latest queued operation per id.
    pub latest: Map<Seq<char>, OpView>,
    /// The operations that are being applied.
    pub flight: Seq<(Seq<char>, OpView)>,
    /// The applier has taken a batch and not finished it.
    pub applying: bool,
    /// Shutdown was asked for.
    pub stopped: bool,
}

// ---- what a search sees --------------------------------------------------------------

/// The id is among those of `ops`.
pub open spec fn is_on(ops: Seq<(Seq<char>, OpView)>, id: Seq<char>) -> bool {
    exists|i: int| 0 <= i < ops.len() && (#[trigger] ops[i]).0 == id
}

/// Where the operation on `id` stands.
pub open spec fn op_place(ops: Seq<(Seq<char>, OpView)>, id: Seq<char>) -> int {
    choose|i: int| 0 <= i < ops.len() && (#[trigger] ops[i]).0 == id
}

/// The operations by id.
pub open spec fn op_map(ops: Seq<(Seq<char>, OpView)>) -> Map<Seq<char>, OpView> {
    Map::new(|id: Seq<char>| is_on(ops, id), |id: Seq<char>| ops[op_place(ops, id)].1)
}

/// No two operations are on one id.
pub open spec fn distinct_ops(ops: Seq<(Seq<char>, OpView)>) -> bool {
    forall|i: int, j: int| 0 <= i < j < ops.len() ==> (#[trigger] ops[i]).0 != (#[trigger] ops[j]).0
}

/// What a search lays over the graph: what is being applied, and over that
/// what is queued.
pub open spec fn overlay_of(p: PendingView) -> Map<Seq<char>, OpView> {
    op_map(p.flight).union_prefer_right(p.latest)
}

/// What a search sees of a graph under an overlay.
pub open spec fn visible(graph: Map<Seq<char>, Seq<u32>>, over: Map<Seq<char>, OpView>) -> Map<
    Seq<char>,
    Seq<u32>,
> {
    Map::new(
        |id: Seq<char>|
            if over.contains_key(id) {
                over[id] is Upsert
            } else {
                graph.contains_key(id)
            },
        |id: Seq<char>|
            match over[id] {
                OpView::Upsert(v) if over.contains_key(id) => v,
                _ => graph[id],
            },
    )
}

/// The graph after an operation.
pub open spec fn graph_after(graph: Map<Seq<char>, Seq<u32>>, id: Seq<char>, op: OpView) -> Map<
    Seq<char>,
    Seq<u32>,
> {
    match op {
        OpView::Upsert(v) => graph.insert(id, v),
        OpView::Remove => graph.remove(id),
    }
}

/// The graph after operations, in order.
pub open spec fn graph_after_all(
    graph: Map<Seq<char>, Seq<u32>>,
    ops: Seq<(Seq<char>, OpView)>,
) -> Map<Seq<char>, Seq<u32>>
    decreases ops.len(),
{
    if ops.len() == 0 {
        graph
    } else {
        graph_after(graph_after_all(graph, ops.drop_last()), ops.last().0, ops.last().1)
    }
}

// ---- what the operations do ----------------------------------------------------------

/// Nothing is pending.
pub open spec fn nothing_pending() -> PendingView {
    PendingView {
        queue: seq![],
        latest: Map::empty(),
        flight: seq![],
        applying: false,
        stopped: false,
    }
}

/// An operation is queued; it replaces an earlier one on the id.
pub open spec fn queued(p: PendingView, id: Seq<char>, op: OpView) -> PendingView {
    PendingView { queue: p.queue.push(id), latest: p.latest.insert(id, op), ..p }
}

/// What draining gives: the operations taken, and what stays.
pub struct Drained {
    pub batch: Seq<(Seq<char>, OpView)>,
    pub queue: Seq<Seq<char>>,
    pub latest: Map<Seq<char>, OpView>,
}

/// Takes up to `room` operations from the front of the queue. Where an id is
/// queued more than once, its latest operation goes with the first entry, and
/// the others are passed over.
pub open spec fn drained(
    queue: Seq<Seq<char>>,
    latest: Map<Seq<char>, OpView>,
    room: nat,
) -> Drained
    decreases queue.len(),
{
    if room == 0 || queue.len() == 0 {
        Drained { batch: seq![], queue, latest }
    } else {
        let id = queue[0];
        if latest.contains_key(id) {
            let d = drained(queue.drop_first(), latest.remove(id), (room - 1) as nat);
            Drained { batch: seq![(id, latest[id])] + d.batch, ..d }
        } else {
            drained(queue.drop_first(), latest, room)
        }
    }
}

/// The applier has taken a batch.
pub open spec fn batch_taken(p: PendingView) -> PendingView {
    let d = drained(p.queue, p.latest, APPLY_BATCH as nat);
    PendingView {
        queue: d.queue,
        latest: d.latest,
        flight: d.batch,
        applying: true,
        stopped: p.stopped,
    }
}

/// The applier has finished its batch.
pub open spec fn batch_finished(p: PendingView) -> PendingView {
    PendingView { flight: seq![], applying: false, ..p }
}

/// Every operation is queued, none is in flight twice, and there are some in
/// flight only while the applier is at work.
pub open spec fn pending_ok(p: PendingView) -> bool {
    &&& forall|id: Seq<char>| #[trigger] p.latest.contains_key(id) ==> p.queue.contains(id)
    &&& distinct_ops(p.flight)
    &&& !p.applying ==> p.flight.len() == 0
}

// ---- laws ------------------------------------------------------------------------------

/// What is queued is seen at once: a search sees the vector of an upsert, and
/// no longer sees what was removed, before anything reaches the graph.
pub proof fn law_readers_see_their_writes(
    p: PendingView,
    graph: Map<Seq<char>, Seq<u32>>,
    id: Seq<char>,
    v: Seq<u32>,
)
    ensures
        visible(graph, overlay_of(queued(p, id, OpView::Upsert(v)))) == visible(
            graph,
            overlay_of(p),
        ).insert(id, v),
        visible(graph, overlay_of(queued(p, id, OpView::Remove))) == visible(
            graph,
            overlay_of(p),
        ).remove(id),
{
    assert(visible(graph, overlay_of(queued(p, id, OpView::Upsert(v)))) =~= visible(
        graph,
        overlay_of(p),
    ).insert(id, v));
    assert(visible(graph, overlay_of(queued(p, id, OpView::Remove))) =~= visible(
        graph,
        overlay_of(p),
    ).remove(id));
}

proof fn lemma_op_at(ops: Seq<(Seq<char>, OpView)>, i: int)
    requires
        distinct_ops(ops),
        0 <= i < ops.len(),
    ensures
        op_map(ops).contains_key(ops[i].0),
        op_map(ops)[ops[i].0] == ops[i].1,
{
    let j = op_place(ops, ops[i].0);
    assert(ops[i].0 == ops[i].0);
    assert(0 <= j < ops.len() && ops[j].0 == ops[i].0);
    if i < j {
        assert(ops[i].0 != ops[j].0);
    } else if j < i {
        assert(ops[j].0 != ops[i].0);
    }
}

proof fn lemma_drained(queue: Seq<Seq<char>>, latest: Map<Seq<char>, OpView>, room: nat)
    ensures
        ({
            let d = drained(queue, latest, room);
            &&& distinct_ops(d.batch)
            &&& d.batch.len() <= room
            &&& forall|i: int|
                0 <= i < d.batch.len() ==> latest.contains_key((#[trigger] d.batch[i]).0)
                    && latest[d.batch[i].0] == d.batch[i].1 && !d.latest.contains_key(d.batch[i].0)
            &&& forall|id: Seq<char>| #[trigger]
                d.latest.contains_key(id) ==> latest.contains_key(id) && d.latest[id] == latest[id]
            &&& forall|id: Seq<char>| #[trigger]
                latest.contains_key(id) ==> d.latest.contains_key(id) || is_on(d.batch, id)
            &&& (forall|id: Seq<char>| #[trigger]
                latest.contains_key(id) ==> queue.contains(id)) ==> (forall|id: Seq<char>| #[trigger]
                d.latest.contains_key(id) ==> d.queue.contains(id))
            &&& d.queue.len() == 0 || d.batch.len() == room
        }),
    decreases queue.len(),
{
    let d = drained(queue, latest, room);
    if room > 0 && queue.len() > 0 {
        let id = queue[0];
        let rest = queue.drop_first();
        assert forall|x: Seq<char>| x != id && queue.contains(x) implies rest.contains(x) by {
            let i = choose|i: int| 0 <= i < queue.len() && queue[i] == x;
            assert(rest[i - 1] == x);
        }
        if latest.contains_key(id) {
            lemma_drained(rest, latest.remove(id), (room - 1) as nat);
            let e = drained(rest, latest.remove(id), (room - 1) as nat);
            assert(d.batch == seq![(id, latest[id])] + e.batch);
            assert(d.batch[0].0 == id);
            assert forall|i: int| 0 <= i < d.batch.len() implies latest.contains_key(
                (#[trigger] d.batch[i]).0,
            ) && latest[d.batch[i].0] == d.batch[i].1 && !d.latest.contains_key(d.batch[i].0) by {
                if i > 0 {
                    assert(d.batch[i] == e.batch[i - 1]);
                } else if d.latest.contains_key(id) {
                    assert(latest.remove(id).contains_key(id));
                }
            }
            assert forall|i: int, j: int| 0 <= i < j < d.batch.len() implies (
            #[trigger] d.batch[i]).0 != (#[trigger] d.batch[j]).0 by {
                assert(d.batch[j] == e.batch[j - 1]);
                if i > 0 {
                    assert(d.batch[i] == e.batch[i - 1]);
                } else {
                    assert(latest.remove(id).contains_key(e.batch[j - 1].0));
                }
            }
            assert forall|x: Seq<char>| #[trigger]
                latest.contains_key(x) implies d.latest.contains_key(x) || is_on(d.batch, x) by {
                if x != id {
                    assert(latest.remove(id).contains_key(x));
                    if is_on(e.batch, x) {
                        let i = op_place(e.batch, x);
                        assert(d.batch[i + 1].0 == x);
                    }
                }
            }
        } else {
            lemma_drained(rest, latest, room);
        }
    }
}

/// Taking a batch hides nothing: what the applier has taken stays in the
/// overlay.
pub proof fn law_taking_a_batch_hides_nothing(p: PendingView)
    requires
        pending_ok(p),
        !p.applying,
    ensures
        pending_ok(batch_taken(p)),
        overlay_of(batch_taken(p)) == overlay_of(p),
{
    let t = batch_taken(p);
    lemma_drained(p.queue, p.latest, APPLY_BATCH as nat);
    assert forall|id: Seq<char>| overlay_of(t).contains_key(id) <==> overlay_of(p).contains_key(
        id,
    ) by {
        if is_on(t.flight, id) {
            let i = op_place(t.flight, id);
            assert(p.latest.contains_key(t.flight[i].0));
        }
    }
    assert forall|id: Seq<char>| overlay_of(t).contains_key(id) implies overlay_of(t)[id]
        == overlay_of(p)[id] by {
        if !t.latest.contains_key(id) {
            let i = op_place(t.flight, id);
            lemma_op_at(t.flight, i);
        }
    }
    assert(overlay_of(t) =~= overlay_of(p));
}

proof fn lemma_graph_after_all(graph: Map<Seq<char>, Seq<u32>>, ops: Seq<(Seq<char>, OpView)>)
    requires
        distinct_ops(ops),
    ensures
        graph_after_all(graph, ops) == visible(graph, op_map(ops)),
    decreases ops.len(),
{
    if ops.len() == 0 {
        assert(graph_after_all(graph, ops) =~= visible(graph, op_map(ops)));
    } else {
        let rest = ops.drop_last();
        let last = ops.last();
        assert forall|i: int, j: int| 0 <= i < j < rest.len() implies (#[trigger] rest[i]).0 != (
        #[trigger] rest[j]).0 by {
            assert(ops[i].0 != ops[j].0);
        }
        lemma_graph_after_all(graph, rest);
        lemma_op_at(ops, ops.len() - 1);
        assert forall|id: Seq<char>| id != last.0 implies op_map(ops).contains_key(id) == op_map(
            rest,
        ).contains_key(id) && (op_map(rest).contains_key(id) ==> op_map(ops)[id] == op_map(
            rest,
        )[id]) by {
            if is_on(rest, id) {
                let i = op_place(rest, id);
                lemma_op_at(rest, i);
                assert(ops[i].0 == id);
                lemma_op_at(ops, i);
            }
            if is_on(ops, id) {
                let i = op_place(ops, id);
                assert(rest[i].0 == id);
            }
        }
        assert(graph_after_all(graph, ops) =~= visible(graph, op_map(ops)));
    }
}

/// Applying the batch changes nothing that a search sees, at any point: after
/// some of its operations, after all of them, and when it is finished.
pub proof fn law_applying_changes_nothing_seen(
    p: PendingView,
    graph: Map<Seq<char>, Seq<u32>>,
    n: int,
)
    requires
        pending_ok(p),
        0 <= n <= p.flight.len(),
    ensures
        visible(graph_after_all(graph, p.flight.take(n)), overlay_of(p)) == visible(
            graph,
            overlay_of(p),
        ),
        visible(graph_after_all(graph, p.flight), overlay_of(batch_finished(p))) == visible(
            graph,
            overlay_of(p),
        ),
{
    let part = p.flight.take(n);
    assert forall|i: int, j: int| 0 <= i < j < part.len() implies (#[trigger] part[i]).0 != (
    #[trigger] part[j]).0 by {
        assert(p.flight[i].0 != p.flight[j].0);
    }
    lemma_graph_after_all(graph, part);
    lemma_graph_after_all(graph, p.flight);
    let over = overlay_of(p);
    let a = visible(graph_after_all(graph, part), over);
    let b = visible(graph, over);
    assert forall|id: Seq<char>| is_on(part, id) implies is_on(p.flight, id) by {
        let i = op_place(part, id);
        assert(p.flight[i].0 == id);
    }
    assert(a =~= b);
    let f = batch_finished(p);
    assert(op_map(f.flight) =~= Map::<Seq<char>, OpView>::empty());
    assert(overlay_of(f) =~= p.latest);
    assert(visible(graph_after_all(graph, p.flight), overlay_of(f)) =~= b);
}

/// Once everything is applied, the overlay is empty, and a search sees the
/// graph.
pub proof fn law_drained_overlay_is_empty(p: PendingView, graph: Map<Seq<char>, Seq<u32>>)
    requires
        pending_ok(p),
        p.queue.len() == 0,
        !p.applying,
    ensures
        overlay_of(p) == Map::<Seq<char>, OpView>::empty(),
        visible(graph, overlay_of(p)) == graph,
{
    assert forall|id: Seq<char>| !overlay_of(p).contains_key(id) by {
        if p.latest.contains_key(id) {
            assert(p.queue.contains(id));
        }
    }
    assert(overlay_of(p) =~= Map::<Seq<char>, OpView>::empty());
    assert(visible(graph, overlay_of(p)) =~= graph);
}

proof fn lemma_drained_is_shorter(queue: Seq<Seq<char>>, latest: Map<Seq<char>, OpView>, room: nat)
    ensures
        drained(queue, latest, room).queue.len() <= queue.len(),
        room > 0 && queue.len() > 0 ==> drained(queue, latest, room).queue.len() < queue.len(),
    decreases queue.len(),
{
    if room > 0 && queue.len() > 0 {
        let id = queue[0];
        if latest.contains_key(id) {
            lemma_drained_is_shorter(queue.drop_first(), latest.remove(id), (room - 1) as nat);
        } else {
            lemma_drained_is_shorter(queue.drop_first(), latest, room);
        }
    }
}

/// Every batch shortens the queue: without new work, the applier drains it.
pub proof fn law_batches_drain_the_queue(p: PendingView)
    requires
        p.queue.len() > 0,
    ensures
        batch_taken(p).queue.len() < p.queue.len(),
{
    lemma_drained_is_shorter(p.queue, p.latest, APPLY_BATCH as nat);
}

// ---- histories -------------------------------------------------------------------------

/// What happens to the pending set.
pub enum Event {
    /// An operation is queued.
    Push { id: Seq<char>, op: OpView },
    /// The applier takes a batch.
    Take,
    /// The applier has applied its batch.
    Finish,
    /// Shutdown is asked for.
    Stop,
}

/// What is pending after a history that starts with nothing.
pub open spec fn pending_after(events: Seq<Event>) -> PendingView
    decreases events.len(),
{
    if events.len() == 0 {
        nothing_pending()
    } else {
        let p = pending_after(events.drop_last());
        match events.last() {
            Event::Push { id, op } => queued(p, id, op),
            Event::Take => batch_taken(p),
            Event::Finish => batch_finished(p),
            Event::Stop => PendingView { stopped: true, ..p },
        }
    }
}

/// The history has one applier, which takes a batch only where there is work,
/// shutdown was not asked for, and its last batch is applied.
pub open spec fn one_applier(events: Seq<Event>) -> bool
    decreases events.len(),
{
    events.len() > 0 ==> {
        let p = pending_after(events.drop_last());
        &&& one_applier(events.drop_last())
        &&& events.last() is Take ==> !p.stopped && !p.applying && p.queue.len() > 0
        &&& events.last() is Finish ==> p.applying
    }
}

/// The operations that were queued, in order.
pub open spec fn pushes(events: Seq<Event>) -> Seq<(Seq<char>, OpView)>
    decreases events.len(),
{
    if events.len() == 0 {
        seq![]
    } else {
        let rest = pushes(events.drop_last());
        match events.last() {
            Event::Push { id, op } => rest.push((id, op)),
            _ => rest,
        }
    }
}

/// The calls that the applier makes on the graph, in order: batch after batch.
pub open spec fn calls(events: Seq<Event>) -> Seq<(Seq<char>, OpView)>
    decreases events.len(),
{
    if events.len() == 0 {
        seq![]
    } else {
        let rest = calls(events.drop_last());
        match events.last() {
            Event::Take => rest + pending_after(events).flight,
            _ => rest,
        }
    }
}

/// Where the last operation on `id` stands; before the first where there is
/// none.
pub open spec fn last_place(ops: Seq<(Seq<char>, OpView)>, id: Seq<char>) -> int
    decreases ops.len(),
{
    if ops.len() == 0 {
        -1
    } else if ops.last().0 == id {
        ops.len() - 1
    } else {
        last_place(ops.drop_last(), id)
    }
}

/// The last operation on `id`, if there is one.
pub open spec fn last_op(ops: Seq<(Seq<char>, OpView)>, id: Seq<char>) -> Option<OpView> {
    if last_place(ops, id) >= 0 {
        Some(ops[last_place(ops, id)].1)
    } else {
        None
    }
}

/// Every call makes an operation that was queued, the one at `from`, and of two
/// calls on one id the later one makes the one that was queued later.
pub open spec fn in_push_order(
    made: Seq<(Seq<char>, OpView)>,
    ops: Seq<(Seq<char>, OpView)>,
    from: Seq<int>,
) -> bool {
    &&& from.len() == made.len()
    &&& forall|i: int|
        0 <= i < made.len() ==> 0 <= #[trigger] from[i] < ops.len() && ops[from[i]] == made[i]
    &&& forall|i: int, j: int|
        0 <= i < j < made.len() && (#[trigger] made[i]).0 == (#[trigger] made[j]).0 ==> from[i]
            < from[j]
}

proof fn lemma_last_place(ops: Seq<(Seq<char>, OpView)>, id: Seq<char>)
    ensures
        -1 <= last_place(ops, id) < ops.len(),
        last_place(ops, id) >= 0 ==> ops[last_place(ops, id)].0 == id,
        forall|i: int| last_place(ops, id) < i < ops.len() ==> (#[trigger] ops[i]).0 != id,
    decreases ops.len(),
{
    if ops.len() > 0 && ops.last().0 != id {
        let rest = ops.drop_last();
        lemma_last_place(rest, id);
        assert forall|i: int| last_place(ops, id) < i < ops.len() implies (#[trigger] ops[i]).0
            != id by {
            if i < rest.len() {
                assert(rest[i].0 != id);
            }
        }
    }
}

proof fn lemma_last_op_of_sum(
    a: Seq<(Seq<char>, OpView)>,
    b: Seq<(Seq<char>, OpView)>,
    id: Seq<char>,
)
    ensures
        last_op(a + b, id) == (if last_place(b, id) >= 0 {
            last_op(b, id)
        } else {
            last_op(a, id)
        }),
{
    let s = a + b;
    lemma_last_place(a, id);
    lemma_last_place(b, id);
    lemma_last_place(s, id);
    let p = last_place(s, id);
    let q = last_place(b, id);
    let r = last_place(a, id);
    if q >= 0 {
        assert(s[a.len() + q].0 == id);
        assert(p >= a.len());
        assert(b[p - a.len()].0 == id);
    } else {
        if p >= a.len() {
            assert(b[p - a.len()].0 == id);
        }
        if r >= 0 {
            assert(s[r].0 == id);
            assert(a[p].0 == id);
        } else if p >= 0 {
            assert(a[p].0 == id);
        }
    }
}

proof fn lemma_queued_ok(p: PendingView, id: Seq<char>, op: OpView)
    requires
        pending_ok(p),
    ensures
        pending_ok(queued(p, id, op)),
{
    let q = queued(p, id, op);
    assert forall|x: Seq<char>| #[trigger] q.latest.contains_key(x) implies q.queue.contains(
        x,
    ) by {
        if x == id {
            assert(q.queue[p.queue.len() as int] == x);
        } else {
            assert(p.latest.contains_key(x));
            let i = choose|i: int| 0 <= i < p.queue.len() && p.queue[i] == x;
            assert(q.queue[i] == x);
        }
    }
}

/// After any history: what is queued for an id is its last push, and an id with
/// nothing queued had its last push taken.
proof fn lemma_history(events: Seq<Event>) -> (from: Seq<int>)
    requires
        one_applier(events),
    ensures
        pending_ok(pending_after(events)),
        in_push_order(calls(events), pushes(events), from),
        forall|id: Seq<char>| #[trigger]
            pending_after(events).latest.contains_key(id) ==> last_op(pushes(events), id) == Some(
                pending_after(events).latest[id],
            ) && forall|i: int|
                0 <= i < calls(events).len() && (#[trigger] calls(events)[i]).0 == id ==> from[i]
                    < last_place(pushes(events), id),
        forall|id: Seq<char>|
            !(#[trigger] pending_after(events).latest.contains_key(id)) ==> last_op(
                calls(events),
                id,
            ) == last_op(pushes(events), id),
    decreases events.len(),
{
    if events.len() == 0 {
        Seq::empty()
    } else {
        let rest = events.drop_last();
        let from0 = lemma_history(rest);
        let p = pending_after(rest);
        let q = pending_after(events);
        let c0 = calls(rest);
        let c = calls(events);
        let s0 = pushes(rest);
        let s = pushes(events);
        match events.last() {
            Event::Push { id, op } => {
                lemma_queued_ok(p, id, op);
                assert(s.drop_last() =~= s0);
                assert forall|x: Seq<char>| #[trigger] q.latest.contains_key(x) implies last_op(s, x)
                    == Some(q.latest[x]) && forall|i: int|
                    0 <= i < c.len() && (#[trigger] c[i]).0 == x ==> from0[i] < last_place(s, x) by {
                    lemma_last_place(s0, x);
                    if x != id {
                        assert(p.latest.contains_key(x));
                    }
                }
                assert forall|x: Seq<char>| !(#[trigger] q.latest.contains_key(x)) implies last_op(
                    c,
                    x,
                ) == last_op(s, x) by {
                    lemma_last_place(s0, x);
                    assert(x != id);
                    assert(!p.latest.contains_key(x));
                }
                from0
            },
            Event::Take => {
                law_taking_a_batch_hides_nothing(p);
                lemma_drained(p.queue, p.latest, APPLY_BATCH as nat);
                let batch = q.flight;
                assert(c == c0 + batch);
                let from = from0 + Seq::new(batch.len(), |i: int| last_place(s, batch[i].0));
                assert forall|i: int| 0 <= i < batch.len() implies p.latest.contains_key(
                    (#[trigger] batch[i]).0,
                ) && last_op(s, batch[i].0) == Some(batch[i].1) && !q.latest.contains_key(
                    batch[i].0,
                ) by {
                    assert(p.latest.contains_key(batch[i].0));
                }
                assert forall|i: int| 0 <= i < c.len() implies 0 <= #[trigger] from[i] < s.len()
                    && s[from[i]] == c[i] by {
                    if i >= c0.len() {
                        let k = i - c0.len();
                        assert(c[i] == batch[k]);
                        lemma_last_place(s, batch[k].0);
                    } else {
                        assert(from[i] == from0[i]);
                        assert(c[i] == c0[i]);
                    }
                }
                assert forall|i: int, j: int|
                    0 <= i < j < c.len() && (#[trigger] c[i]).0 == (
                    #[trigger] c[j]).0 implies from[i] < from[j] by {
                    if j >= c0.len() {
                        let k = j - c0.len();
                        assert(c[j] == batch[k]);
                        if i >= c0.len() {
                            assert(c[i] == batch[i - c0.len()]);
                            assert(batch[i - c0.len()].0 != batch[k].0);
                        } else {
                            assert(c[i] == c0[i]);
                            assert(p.latest.contains_key(batch[k].0));
                            assert(from0[i] < last_place(s, batch[k].0));
                        }
                    } else {
                        assert(c[i] == c0[i] && c[j] == c0[j]);
                    }
                }
                assert forall|x: Seq<char>| #[trigger] q.latest.contains_key(x) implies last_op(s, x)
                    == Some(q.latest[x]) && forall|i: int|
                    0 <= i < c.len() && (#[trigger] c[i]).0 == x ==> from[i] < last_place(s, x) by {
                    assert(p.latest.contains_key(x));
                    assert forall|i: int| 0 <= i < c.len() && (#[trigger] c[i]).0 == x implies from[i]
                        < last_place(s, x) by {
                        if i >= c0.len() {
                            assert(c[i] == batch[i - c0.len()]);
                            assert(!q.latest.contains_key(batch[i - c0.len()].0));
                        } else {
                            assert(c[i] == c0[i]);
                        }
                    }
                }
                assert forall|x: Seq<char>| !(#[trigger] q.latest.contains_key(x)) implies last_op(
                    c,
                    x,
                ) == last_op(s, x) by {
                    lemma_last_op_of_sum(c0, batch, x);
                    lemma_last_place(batch, x);
                    if last_place(batch, x) < 0 {
                        if p.latest.contains_key(x) {
                            let i = op_place(batch, x);
                            assert(batch[i].0 == x);
                        }
                    }
                }
                from
            },
            _ => from0,
        }
    }
}

/// The applier never goes back: every call that it makes on the graph is an
/// operation that was queued, and an operation is never applied after a newer
/// one on the same id.
pub proof fn law_superseded_operations_are_not_applied_later(events: Seq<Event>)
    requires
        one_applier(events),
    ensures
        exists|from: Seq<int>| in_push_order(calls(events), pushes(events), from),
{
    let from = lemma_history(events);
    assert(in_push_order(calls(events), pushes(events), from));
}

/// Once the queue is drained and nothing is being applied, the last call on
/// each id makes the last operation that was queued on it, and there was no
/// call on an id on which nothing was queued.
pub proof fn law_last_push_is_applied_last(events: Seq<Event>, id: Seq<char>)
    requires
        one_applier(events),
        pending_after(events).queue.len() == 0,
        !pending_after(events).applying,
    ensures
        last_op(calls(events), id) == last_op(pushes(events), id),
{
    let from = lemma_history(events);
    let p = pending_after(events);
    if p.latest.contains_key(id) {
        assert(p.queue.contains(id));
    }
}

// ---- the pending set -----------------------------------------------------------------

/// Pending operations, and what the applier is at.
pub struct Pending {
    queue: VecDeque<String>,
    latest: StringHashMap<Op>,
    flight: Vec<(String, Op)>,
    applying: bool,
    stopped: bool,
}

/// The operations of a map.
pub open spec fn op_values(m: Map<Seq<char>, Op>) -> Map<Seq<char>, OpView> {
    Map::new(|id: Seq<char>| m.contains_key(id), |id: Seq<char>| m[id]@)
}

impl View for Pending {
    type V = PendingView;

    closed spec fn view(&self) -> PendingView {
        PendingView {
            queue: texts(self.queue@),
            latest: op_values(self.latest@),
            flight: op_views(self.flight@),
            applying: self.applying,
            stopped: self.stopped,
        }
    }
}

/// What the applier does next.
pub enum Turn {
    /// There is nothing to do; it waits for work.
    Wait,
    /// Shutdown was asked for; it ends.
    Exit,
    /// It applies these operations, in order.
    Apply(Vec<(String, Op)>),
}

fn copy_op(op: &Op) -> (r: Op)
    ensures
        r@ == op@,
{
    match op {
        Op::Upsert(v) => Op::Upsert(copy_vec(v)),
        Op::Remove => Op::Remove,
    }
}

/// The overlay as a search takes it: the vectors to score, and the ids to mask.
pub open spec fn is_overlay(
    over: Map<Seq<char>, OpView>,
    ups: Seq<(String, Vec<u32>)>,
    dels: Seq<String>,
) -> bool {
    &&& forall|i: int|
        0 <= i < ups.len() ==> over.contains_key((#[trigger] ups[i]).0@) && over[ups[i].0@]
            == OpView::Upsert(ups[i].1@)
    &&& forall|i: int|
        0 <= i < dels.len() ==> over.contains_key((#[trigger] dels[i])@) && over[dels[i]@]
            == OpView::Remove
    &&& forall|id: Seq<char>| #[trigger]
        over.contains_key(id) ==> match over[id] {
            OpView::Upsert(_) => exists|i: int| 0 <= i < ups.len() && (#[trigger] ups[i]).0@ == id,
            OpView::Remove => exists|i: int| 0 <= i < dels.len() && (#[trigger] dels[i])@ == id,
        }
    &&& forall|i: int, j: int|
        0 <= i < j < ups.len() ==> (#[trigger] ups[i]).0@ != (#[trigger] ups[j]).0@
    &&& forall|i: int, j: int|
        0 <= i < j < dels.len() ==> (#[trigger] dels[i])@ != (#[trigger] dels[j])@
}

impl Pending {
    /// Nothing is pending.
    pub fn new() -> (r: Pending)
        ensures
            r@ == nothing_pending(),
            pending_ok(r@),
    {
        let r = Pending {
            queue: VecDeque::new(),
            latest: StringHashMap::new(),
            flight: Vec::new(),
            applying: false,
            stopped: false,
        };
        assert(r@ =~= nothing_pending());
        r
    }

    /// Whether a producer of upserts has to wait: the queue is at its cap, and
    /// shutdown was not asked for.
    pub fn must_wait(&self) -> (r: bool)
        ensures
            r == (self@.queue.len() >= PENDING_CAP && !self@.stopped),
    {
        self.queue.len() >= PENDING_CAP && !self.stopped
    }

    fn push(&mut self, id: String, op: Op)
        requires
            pending_ok(old(self)@),
        ensures
            final(self)@ == queued(old(self)@, id@, op@),
            pending_ok(final(self)@),
    {
        let ghost before = self@;
        let ghost opv = op@;
        self.queue.push_back(id.clone());
        self.latest.insert(id, op);
        proof {
            assert(self@.queue =~= before.queue.push(id@));
            assert(self@.latest =~= before.latest.insert(id@, opv));
            assert(self@ =~= queued(before, id@, opv));
            lemma_queued_ok(before, id@, opv);
        }
    }

    /// Queues an upsert. A producer first waits while it has to.
    pub fn push_upsert(&mut self, id: String, embedding: Vec<u32>)
        requires
            pending_ok(old(self)@),
        ensures
            final(self)@ == queued(old(self)@, id@, OpView::Upsert(embedding@)),
            pending_ok(final(self)@),
    {
        self.push(id, Op::Upsert(embedding));
    }

    /// Queues a removal.
    pub fn push_remove(&mut self, id: String)
        requires
            pending_ok(old(self)@),
        ensures
            final(self)@ == queued(old(self)@, id@, OpView::Remove),
            pending_ok(final(self)@),
    {
        self.push(id, Op::Remove);
    }

    /// Whether nobody needs to wait for the applier any more: everything is
    /// applied, or shutdown was asked for.
    pub fn is_settled(&self) -> (r: bool)
        ensures
            r == ((self@.queue.len() == 0 && !self@.applying) || self@.stopped),
    {
        (self.queue.len() == 0 && !self.applying) || self.stopped
    }

    /// Asks for shutdown.
    pub fn stop(&mut self)
        ensures
            final(self)@ == (PendingView { stopped: true, ..old(self)@ }),
    {
        self.stopped = true;
    }

    fn take_batch(&mut self)
        requires
            pending_ok(old(self)@),
            !old(self)@.applying,
        ensures
            final(self)@ == batch_taken(old(self)@),
            pending_ok(final(self)@),
    {
        let ghost before = self@;
        let mut batch: Vec<(String, Op)> = Vec::new();
        proof {
            let d = drained(before.queue, before.latest, APPLY_BATCH as nat);
            assert(op_views(batch@) + d.batch =~= d.batch);
        }
        while batch.len() < APPLY_BATCH && self.queue.len() > 0
            invariant
                batch@.len() <= APPLY_BATCH,
                self@.applying == before.applying,
                self@.stopped == before.stopped,
                ({
                    let d = drained(
                        self@.queue,
                        self@.latest,
                        (APPLY_BATCH - batch@.len()) as nat,
                    );
                    let e = drained(before.queue, before.latest, APPLY_BATCH as nat);
                    &&& op_views(batch@) + d.batch == e.batch
                    &&& d.queue == e.queue
                    &&& d.latest == e.latest
                }),
            decreases self.queue@.len(),
        {
            let ghost here = self@;
            let ghost taken = batch@;
            let ghost room = (APPLY_BATCH - taken.len()) as nat;
            let id = self.queue.pop_front().unwrap();
            proof {
                assert(id@ == here.queue[0]);
                assert(texts(self.queue@) =~= here.queue.drop_first());
            }
            match self.latest.get(id.as_str()) {
                Some(op) => {
                    let op = copy_op(op);
                    let ghost opv = op@;
                    let ghost idv = id@;
                    self.latest.remove(id.as_str());
                    batch.push((id, op));
                    proof {
                        assert(here.latest.contains_key(idv));
                        assert(self@.latest =~= here.latest.remove(idv));
                        assert(op_views(batch@) =~= op_views(taken).push((idv, opv)));
                        let d = drained(self@.queue, self@.latest, (room - 1) as nat);
                        assert(drained(here.queue, here.latest, room).batch == seq![(idv, opv)]
                            + d.batch);
                        assert(op_views(batch@) + d.batch =~= op_views(taken) + (seq![(idv, opv)]
                            + d.batch));
                    }
                },
                None => {
                    assert(!here.latest.contains_key(id@));
                    assert(self@.latest =~= here.latest);
                },
            }
        }
        self.flight = batch;
        self.applying = true;
        proof {
            let d = drained(self@.queue, self@.latest, (APPLY_BATCH - self@.flight.len()) as nat);
            assert(d.batch =~= Seq::<(Seq<char>, OpView)>::empty());
            assert(self@.flight + d.batch =~= self@.flight);
            assert(self@ =~= batch_taken(before));
            law_taking_a_batch_hides_nothing(before);
        }
    }

    /// What the applier does next. Where it applies operations, they are in
    /// flight until it says that it has finished.
    pub fn turn(&mut self) -> (r: Turn)
        requires
            pending_ok(old(self)@),
            !old(self)@.applying,
        ensures
            pending_ok(final(self)@),
            if old(self)@.stopped {
                r is Exit && final(self)@ == old(self)@
            } else if old(self)@.queue.len() == 0 {
                r is Wait && final(self)@ == old(self)@
            } else {
                &&& final(self)@ == batch_taken(old(self)@)
                &&& r matches Turn::Apply(ops) && op_views(ops@) == final(self)@.flight
            },
    {
        if self.stopped {
            return Turn::Exit;
        }
        if self.queue.len() == 0 {
            return Turn::Wait;
        }
        self.take_batch();
        let mut ops: Vec<(String, Op)> = Vec::new();
        let mut i: usize = 0;
        while i < self.flight.len()
            invariant
                i <= self.flight.len(),
                ops@.len() == i,
                forall|j: int|
                    0 <= j < i ==> (#[trigger] ops@[j]).0@ == self.flight@[j].0@ && ops@[j].1@
                        == self.flight@[j].1@,
            decreases self.flight.len() - i,
        {
            ops.push((self.flight[i].0.clone(), copy_op(&self.flight[i].1)));
            i = i + 1;
        }
        assert(op_views(ops@) =~= self@.flight);
        Turn::Apply(ops)
    }

    /// The applier has applied its batch.
    pub fn finish_batch(&mut self)
        requires
            pending_ok(old(self)@),
        ensures
            final(self)@ == batch_finished(old(self)@),
            pending_ok(final(self)@),
    {
        let ghost before = self@;
        self.flight = Vec::new();
        self.applying = false;
        assert(self@ =~= batch_finished(before));
    }

    /// The operation that the overlay holds for `id`.
    fn overlay_op(&self, id: &str) -> (r: Option<Op>)
        requires
            pending_ok(self@),
        ensures
            match r {
                Some(op) => overlay_of(self@).contains_key(id@) && overlay_of(self@)[id@] == op@,
                None => !overlay_of(self@).contains_key(id@),
            },
    {
        match self.latest.get(id) {
            Some(op) => {
                assert(self@.latest.contains_key(id@));
                return Some(copy_op(op));
            },
            None => {},
        }
        assert(!self@.latest.contains_key(id@));
        let mut i: usize = 0;
        while i < self.flight.len()
            invariant
                pending_ok(self@),
                !self@.latest.contains_key(id@),
                i <= self.flight.len(),
                forall|j: int| 0 <= j < i ==> (#[trigger] self@.flight[j]).0 != id@,
            decreases self.flight.len() - i,
        {
            match relate_strs(self.flight[i].0.as_str(), id) {
                Rel::Equal => {
                    proof {
                        assert(self@.flight[i as int].0 == id@);
                        lemma_op_at(self@.flight, i as int);
                    }
                    return Some(copy_op(&self.flight[i].1));
                },
                _ => {
                    assert(self@.flight[i as int].0 != id@);
                },
            }
            i = i + 1;
        }
        None
    }

    /// Snapshots the overlay for a search: the pending upserts, to be scored
    /// exactly, and the pending removals, to be masked.
    pub fn overlay(&self) -> (r: (Vec<(String, Vec<u32>)>, Vec<String>))
        requires
            pending_ok(self@),
        ensures
            is_overlay(overlay_of(self@), r.0@, r.1@),
    {
        let ghost over = overlay_of(self@);
        let mut ups: Vec<(String, Vec<u32>)> = Vec::new();
        let mut dels: Vec<String> = Vec::new();
        let mut seen: StringHashMap<bool> = StringHashMap::new();
        let mut i: usize = 0;
        while i < self.queue.len()
            invariant
                pending_ok(self@),
                over == overlay_of(self@),
                i <= self.queue.len(),
                partial_overlay(over, ups@, dels@, seen@),
                forall|j: int| 0 <= j < i ==> seen@.contains_key(#[trigger] self@.queue[j]),
            decreases self.queue.len() - i,
        {
            assert(self@.queue[i as int] == self.queue@[i as int]@);
            self.visit(self.queue[i].as_str(), &mut ups, &mut dels, &mut seen);
            i = i + 1;
        }
        let mut k: usize = 0;
        while k < self.flight.len()
            invariant
                pending_ok(self@),
                over == overlay_of(self@),
                k <= self.flight.len(),
                partial_overlay(over, ups@, dels@, seen@),
                forall|j: int|
                    0 <= j < self@.queue.len() ==> seen@.contains_key(#[trigger] self@.queue[j]),
                forall|j: int| 0 <= j < k ==> seen@.contains_key((#[trigger] self@.flight[j]).0),
            decreases self.flight.len() - k,
        {
            assert(self@.flight[k as int].0 == self.flight@[k as int].0@);
            self.visit(self.flight[k].0.as_str(), &mut ups, &mut dels, &mut seen);
            k = k + 1;
        }
        proof {
            assert forall|id: Seq<char>| over.contains_key(id) implies seen@.contains_key(id) by {
                if self@.latest.contains_key(id) {
                    assert(self@.queue.contains(id));
                    let j = choose|j: int| 0 <= j < self@.queue.len() && self@.queue[j] == id;
                    assert(seen@.contains_key(self@.queue[j]));
                } else {
                    let j = op_place(self@.flight, id);
                    assert(seen@.contains_key(self@.flight[j].0));
                }
            }
        }
        (ups, dels)
    }

    /// Adds what the overlay holds for `id`, unless that was done.
    fn visit(
        &self,
        id: &str,
        ups: &mut Vec<(String, Vec<u32>)>,
        dels: &mut Vec<String>,
        seen: &mut StringHashMap<bool>,
    )
        requires
            pending_ok(self@),
            partial_overlay(overlay_of(self@), old(ups)@, old(dels)@, old(seen)@),
        ensures
            partial_overlay(overlay_of(self@), final(ups)@, final(dels)@, final(seen)@),
            forall|x: Seq<char>| #[trigger]
                final(seen)@.contains_key(x) <==> old(seen)@.contains_key(x) || x == id@,
    {
        let ghost over = overlay_of(self@);
        let ghost ups0 = ups@;
        let ghost dels0 = dels@;
        let ghost seen0 = seen@;
        if seen.contains_key(id) {
            return ;
        }
        seen.insert(id.to_string(), true);
        match self.overlay_op(id) {
            Some(Op::Upsert(v)) => {
                ups.push((id.to_string(), v));
                proof {
                    let n = ups0.len() as int;
                    assert(ups@[n].0@ == id@);
                    assert forall|i: int| 0 <= i < n implies ups@[i] == ups0[i] by {}
                    assert forall|x: Seq<char>| #[trigger]
                        over.contains_key(x) && seen@.contains_key(x) implies match over[x] {
                        OpView::Upsert(_) => exists|i: int|
                            0 <= i < ups@.len() && (#[trigger] ups@[i]).0@ == x,
                        OpView::Remove => exists|i: int|
                            0 <= i < dels@.len() && (#[trigger] dels@[i])@ == x,
                    } by {
                        if x != id@ && over[x] is Upsert {
                            let i = choose|i: int|
                                0 <= i < ups0.len() && (#[trigger] ups0[i]).0@ == x;
                            assert(ups@[i].0@ == x);
                        }
                    }
                }
            },
            Some(Op::Remove) => {
                dels.push(id.to_string());
                proof {
                    let n = dels0.len() as int;
                    assert(dels@[n]@ == id@);
                    assert forall|x: Seq<char>| #[trigger]
                        over.contains_key(x) && seen@.contains_key(x) implies match over[x] {
                        OpView::Upsert(_) => exists|i: int|
                            0 <= i < ups@.len() && (#[trigger] ups@[i]).0@ == x,
                        OpView::Remove => exists|i: int|
                            0 <= i < dels@.len() && (#[trigger] dels@[i])@ == x,
                    } by {
                        if x != id@ && over[x] is Remove {
                            let i = choose|i: int|
                                0 <= i < dels0.len() && (#[trigger] dels0[i])@ == x;
                            assert(dels@[i]@ == x);
                        }
                    }
                }
            },
            None => {},
        }
    }
}

/// `ups` and `dels` hold what the overlay holds for the ids seen so far.
spec fn partial_overlay(
    over: Map<Seq<char>, OpView>,
    ups: Seq<(String, Vec<u32>)>,
    dels: Seq<String>,
    seen: Map<Seq<char>, bool>,
) -> bool {
    &&& forall|i: int|
        0 <= i < ups.len() ==> seen.contains_key((#[trigger] ups[i]).0@) && over.contains_key(
            ups[i].0@,
        ) && over[ups[i].0@] == OpView::Upsert(ups[i].1@)
    &&& forall|i: int|
        0 <= i < dels.len() ==> seen.contains_key((#[trigger] dels[i])@) && over.contains_key(
            dels[i]@,
        ) && over[dels[i]@] == OpView::Remove
    &&& forall|id: Seq<char>| #[trigger]
        over.contains_key(id) && seen.contains_key(id) ==> match over[id] {
            OpView::Upsert(_) => exists|i: int| 0 <= i < ups.len() && (#[trigger] ups[i]).0@ == id,
            OpView::Remove => exists|i: int| 0 <= i < dels.len() && (#[trigger] dels[i])@ == id,
        }
    &&& forall|i: int, j: int|
        0 <= i < j < ups.len() ==> (#[trigger] ups[i]).0@ != (#[trigger] ups[j]).0@
    &&& forall|i: int, j: int|
        0 <= i < j < dels.len() ==> (#[trigger] dels[i])@ != (#[trigger] dels[j])@
}

// ---- what the operations do, field by field ------------------------------------------

/// What a search sees, id by id: the vector of an upsert that lies over the
/// graph; nothing where a removal does; elsewhere what is in the graph.
pub proof fn law_overlays_hide_the_graph(
    graph: Map<Seq<char>, Seq<u32>>,
    over: Map<Seq<char>, OpView>,
    id: Seq<char>,
)
    ensures
        over.contains_key(id) && over[id] is Remove ==> !visible(graph, over).contains_key(id),
        over.contains_key(id) && over[id] is Upsert ==> visible(graph, over).contains_key(id) && (
        over[id] matches OpView::Upsert(v) && visible(graph, over)[id] == v),
        !over.contains_key(id) ==> (visible(graph, over).contains_key(id) <==> graph.contains_key(
            id,
        )),
        !over.contains_key(id) && graph.contains_key(id) ==> visible(graph, over)[id] == graph[id],
{
}

/// The overlay has the operation that is queued on an id; where none is, the
/// one that is being applied; and nothing where there is neither.
pub proof fn law_queued_lies_over_applied(p: PendingView, id: Seq<char>, i: int)
    requires
        pending_ok(p),
    ensures
        p.latest.contains_key(id) ==> overlay_of(p).contains_key(id) && overlay_of(p)[id]
            == p.latest[id],
        0 <= i < p.flight.len() && p.flight[i].0 == id && !p.latest.contains_key(id)
            ==> overlay_of(p).contains_key(id) && overlay_of(p)[id] == p.flight[i].1,
        !p.latest.contains_key(id) && (forall|j: int|
            0 <= j < p.flight.len() ==> (#[trigger] p.flight[j]).0 != id) ==> !overlay_of(
            p,
        ).contains_key(id),
{
    if 0 <= i < p.flight.len() && p.flight[i].0 == id {
        let k = op_place(p.flight, id);
        assert(is_on(p.flight, id));
        assert(p.flight[k].0 == id);
        if i < k {
            assert(p.flight[i].0 != p.flight[k].0);
        } else if k < i {
            assert(p.flight[k].0 != p.flight[i].0);
        }
    }
}

/// An operation on the graph: an upsert puts the vector under the id, a removal
/// takes what is there away, and no other id changes.
pub proof fn law_operations_change_one_id(
    graph: Map<Seq<char>, Seq<u32>>,
    id: Seq<char>,
    v: Seq<u32>,
    other: Seq<char>,
)
    ensures
        graph_after(graph, id, OpView::Upsert(v)).contains_key(id),
        graph_after(graph, id, OpView::Upsert(v))[id] == v,
        !graph_after(graph, id, OpView::Remove).contains_key(id),
        other != id ==> {
            &&& graph_after(graph, id, OpView::Upsert(v)).contains_key(other)
                <==> graph.contains_key(other)
            &&& graph_after(graph, id, OpView::Remove).contains_key(other) <==> graph.contains_key(
                other,
            )
            &&& graph.contains_key(other) ==> graph_after(graph, id, OpView::Upsert(v))[other]
                == graph[other] && graph_after(graph, id, OpView::Remove)[other] == graph[other]
        },
{
}

/// An operation goes to the end of the queue, and is the latest on its id; what
/// is being applied, the other ids and the rest stay as they were.
pub proof fn law_pushes_go_to_the_end(p: PendingView, id: Seq<char>, op: OpView, other: Seq<char>)
    ensures
        queued(p, id, op).queue.len() == p.queue.len() + 1,
        queued(p, id, op).queue.last() == id,
        queued(p, id, op).queue.drop_last() == p.queue,
        queued(p, id, op).latest.contains_key(id),
        queued(p, id, op).latest[id] == op,
        other != id ==> (queued(p, id, op).latest.contains_key(other) <==> p.latest.contains_key(
            other,
        )),
        other != id && p.latest.contains_key(other) ==> queued(p, id, op).latest[other]
            == p.latest[other],
        queued(p, id, op).flight == p.flight,
        queued(p, id, op).applying == p.applying,
        queued(p, id, op).stopped == p.stopped,
{
    assert(queued(p, id, op).queue.drop_last() =~= p.queue);
}

/// Where the operations of a batch stood in the queue: in order, each at the
/// first place of its id, with the latest operation on it. `n` places are
/// drained; none with an operation is passed over among them; the rest of the
/// queue, and the operations on the other ids, stay. Draining stops only where
/// the batch is full or the queue is empty.
pub proof fn law_batches_are_taken_from_the_front(
    queue: Seq<Seq<char>>,
    latest: Map<Seq<char>, OpView>,
    room: nat,
) -> (r: (Seq<int>, int))
    ensures
        ({
            let d = drained(queue, latest, room);
            let (at, n) = r;
            &&& 0 <= n <= queue.len()
            &&& d.queue == queue.skip(n)
            &&& d.batch.len() <= room
            &&& d.batch.len() == room || d.queue.len() == 0
            &&& at.len() == d.batch.len()
            &&& forall|i: int, j: int| 0 <= i < j < at.len() ==> #[trigger] at[i] < #[trigger] at[j]
            &&& forall|i: int|
                0 <= i < at.len() ==> {
                    &&& 0 <= #[trigger] at[i] < n
                    &&& d.batch[i].0 == queue[at[i]]
                    &&& latest.contains_key(queue[at[i]])
                    &&& d.batch[i].1 == latest[queue[at[i]]]
                }
            &&& forall|i: int, q: int|
                #![trigger at[i], queue[q]]
                0 <= i < at.len() && 0 <= q < at[i] ==> queue[q] != queue[at[i]]
            &&& forall|q: int|
                0 <= q < n && latest.contains_key(#[trigger] queue[q]) ==> is_on(d.batch, queue[q])
            &&& forall|id: Seq<char>| #[trigger]
                d.latest.contains_key(id) <==> latest.contains_key(id) && !is_on(d.batch, id)
            &&& forall|id: Seq<char>| #[trigger]
                d.latest.contains_key(id) ==> d.latest[id] == latest[id]
        }),
    decreases queue.len(),
{
    let d = drained(queue, latest, room);
    lemma_drained(queue, latest, room);
    assert forall|id: Seq<char>| #[trigger] d.latest.contains_key(id) implies latest.contains_key(
        id,
    ) && !is_on(d.batch, id) by {
        if is_on(d.batch, id) {
            let i = op_place(d.batch, id);
            assert(!d.latest.contains_key(d.batch[i].0));
        }
    }
    if room == 0 || queue.len() == 0 {
        assert(queue.skip(0) =~= queue);
        (Seq::empty(), 0)
    } else {
        let id = queue[0];
        let rest = queue.drop_first();
        let one: int = if latest.contains_key(id) {
            1
        } else {
            0
        };
        let left = if one == 1 {
            latest.remove(id)
        } else {
            latest
        };
        let e = drained(rest, left, (room - one) as nat);
        let (sub, m) = law_batches_are_taken_from_the_front(rest, left, (room - one) as nat);
        let at = lemma_shift(sub, one);
        let n = m + 1;
        assert(queue.skip(n) =~= rest.skip(m));
        assert forall|i: int| one <= i < d.batch.len() implies d.batch[i] == e.batch[i - one] by {}
        assert forall|i: int, j: int| 0 <= i < j < at.len() implies #[trigger] at[i]
            < #[trigger] at[j] by {
            if i >= one {
                assert(sub[i - one] < sub[j - one]);
            } else {
                assert(0 <= sub[j - one]);
            }
        }
        assert forall|i: int| 0 <= i < at.len() implies {
            &&& 0 <= #[trigger] at[i] < n
            &&& d.batch[i].0 == queue[at[i]]
            &&& latest.contains_key(queue[at[i]])
            &&& d.batch[i].1 == latest[queue[at[i]]]
        } by {
            if i >= one {
                assert(0 <= sub[i - one] < m);
                assert(rest[sub[i - one]] == queue[at[i]]);
            }
        }
        assert forall|i: int, q: int|
            #![trigger at[i], queue[q]]
            0 <= i < at.len() && 0 <= q < at[i] implies queue[q] != queue[at[i]] by {
            assert(i >= one);
            assert(rest[sub[i - one]] == queue[at[i]]);
            assert(left.contains_key(rest[sub[i - one]]));
            if q > 0 {
                assert(rest[q - 1] == queue[q]);
            }
        }
        assert forall|q: int| 0 <= q < n && latest.contains_key(#[trigger] queue[q]) implies is_on(
            d.batch,
            queue[q],
        ) by {
            if queue[q] == id {
                assert(d.batch[0].0 == id);
            } else {
                assert(rest[q - 1] == queue[q]);
                assert(is_on(e.batch, rest[q - 1]));
                let i = op_place(e.batch, queue[q]);
                assert(d.batch[i + one].0 == queue[q]);
            }
        }
        (at, n)
    }
}

/// Taking a batch takes up to the size of a batch, puts what it takes in
/// flight, and leaves the rest; finishing it takes it out of flight and changes
/// nothing else.
pub proof fn law_batches_fly_until_they_are_finished(p: PendingView)
    ensures
        batch_taken(p).applying,
        batch_taken(p).stopped == p.stopped,
        batch_taken(p).flight.len() <= 512,
        batch_taken(p).flight == drained(p.queue, p.latest, 512).batch,
        batch_taken(p).queue == drained(p.queue, p.latest, 512).queue,
        batch_taken(p).latest == drained(p.queue, p.latest, 512).latest,
        !batch_finished(p).applying,
        batch_finished(p).flight.len() == 0,
        batch_finished(p).queue == p.queue,
        batch_finished(p).latest == p.latest,
        batch_finished(p).stopped == p.stopped,
{
    lemma_drained(p.queue, p.latest, 512);
}

/// An operation's view is the operation with its vector, and a list's the ids
/// with their operations, in order.
pub proof fn law_operation_views_hold_every_field(
    v: Vec<u32>,
    ops: Seq<(String, Op)>,
    i: int,
    id: Seq<char>,
    m: Map<Seq<char>, Op>,
)
    ensures
        Op::Upsert(v)@ == OpView::Upsert(v@),
        Op::Remove@ == OpView::Remove,
        op_views(ops).len() == ops.len(),
        0 <= i < ops.len() ==> op_views(ops)[i].0 == ops[i].0@ && op_views(ops)[i].1 == ops[i].1@,
        op_values(m).contains_key(id) <==> m.contains_key(id),
        m.contains_key(id) ==> op_values(m)[id] == m[id]@,
{
}

/// At first nothing is queued, nothing is being applied, and a search sees the
/// graph as it is.
pub proof fn law_nothing_is_pending_at_first(graph: Map<Seq<char>, Seq<u32>>)
    ensures
        nothing_pending().queue.len() == 0,
        nothing_pending().flight.len() == 0,
        !nothing_pending().applying,
        !nothing_pending().stopped,
        visible(graph, overlay_of(nothing_pending())) == graph,
{
    law_drained_overlay_is_empty(nothing_pending(), graph);
}

/// What a search is handed: the upserts that lie over the graph with their
/// vectors, and the ids of the removals that do, each id on one of the two.
pub proof fn law_overlays_are_handed_out_whole(
    over: Map<Seq<char>, OpView>,
    ups: Seq<(String, Vec<u32>)>,
    dels: Seq<String>,
    id: Seq<char>,
)
    requires
        is_overlay(over, ups, dels),
    ensures
        over.contains_key(id) && over[id] is Upsert <==> exists|i: int|
            0 <= i < ups.len() && (#[trigger] ups[i]).0@ == id,
        over.contains_key(id) && over[id] is Remove <==> exists|i: int|
            0 <= i < dels.len() && (#[trigger] dels[i])@ == id,
        forall|i: int|
            0 <= i < ups.len() ==> over[(#[trigger] ups[i]).0@] == OpView::Upsert(ups[i].1@),
{
}

} // verus!
