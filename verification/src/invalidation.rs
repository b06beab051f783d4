//! How a change to a node reaches the sinks: what the release of a write
//! handle, the events it sends and the next evaluation pass guarantee
//! together.

use crate::entity::fetch::{released, sent, FetchMutView};
use crate::node::sink::{events_for, invalidated, lemma_invalidated_sinks, targeted};
use crate::node::{ByNormalSelector, Node, NodeId, UpdateEvent};
use crate::process::{finalized, lemma_invalidated_graph, reaching, EvalError, PbrState};
use crate::store::NodeStore;
use crate::walk::{
    acyclic, lemma_same_shape_acyclic, lemma_walk_inputs_producers, lemma_walk_inputs_shape,
    same_shape, walk_of,
};
use bevy::math::Vec3;
use vstd::prelude::*;

verus! {

/// A store in which no walk has left a back reference and no sink is
/// calculated has all the back references it needs and no other.
pub proof fn lemma_unwalked(store: NodeStore)
    requires
        forall|n: int| 0 <= n < store.nodes@.len() ==> store.back_refs(n) == Set::<usize>::empty(),
        forall|s: int| store.is_sink(s) ==> store.state(s) == PbrState::NotCalculated,
    ensures
        store.back_refs_recorded(),
        store.back_refs_complete(),
{
}

/// Evaluation records the back references of the walks it makes and no
/// other: after a pass, as before it, every back reference was left by a
/// walk, and none is missing for a calculated sink.
pub proof fn lemma_finalized_keeps<F: Fn(&ByNormalSelector, &Vec3) -> bool>(
    is_selected: &F,
    before: NodeStore,
    after: NodeStore,
    result: Result<(), EvalError>,
)
    requires
        finalized(is_selected, before, after, result),
    ensures
        before.back_refs_recorded() ==> after.back_refs_recorded(),
        before.back_refs_complete() ==> after.back_refs_complete(),
{
    let limit: int = match result {
        Ok(()) => before.nodes@.len() as int,
        Err(error) => error.spec_sink().0 + 1,
    };
    assert forall|n: int| 0 <= n < before.nodes@.len() implies after.is_sink(n) == before.is_sink(
        n,
    ) && after.back_refs(n) == before.back_refs(n).union(reaching(before, n as usize, limit)) by {
        assert(after.nodes@[n].inputs == before.nodes@[n].inputs);
        assert(after.graph()[n] == before.graph()[n]);
    }
    if before.back_refs_recorded() {
        assert forall|n: usize, s: usize|
            n < after.nodes@.len() && #[trigger] after.back_refs(n as int).contains(
                s,
            ) implies after.is_sink(s as int) && walk_of(after.graph(), s).entered.contains(n) by {
            if before.back_refs(n as int).contains(s) {
                assert(before.is_sink(s as int));
            } else {
                assert(reaching(before, n, limit).contains(s));
            }
        }
    }
    if before.back_refs_complete() {
        assert forall|s: usize, n: usize|
            after.is_sink(s as int) && after.state(s as int) == PbrState::Calculated && n
                < after.nodes@.len() && #[trigger] walk_of(after.graph(), s).entered.contains(
                n,
            ) implies after.back_refs(n as int).contains(s) by {
            assert(after.nodes@[s as int].inputs == before.nodes@[s as int].inputs);
            if before.stale(s as int) {
                assert(reaching(before, n, limit).contains(s));
            } else {
                assert(before.back_refs(n as int).contains(s));
            }
        }
    }
}

/// Applying events takes no back reference away and adds none, and it
/// makes no sink calculated.
pub proof fn lemma_invalidated_keeps(before: NodeStore, events: Seq<UpdateEvent>, after: NodeStore)
    requires
        invalidated(before, events, after),
    ensures
        before.back_refs_recorded() ==> after.back_refs_recorded(),
        before.back_refs_complete() ==> after.back_refs_complete(),
{
    lemma_invalidated_graph(before, events, after);
    lemma_invalidated_sinks(before, events, after);
    assert forall|n: int| 0 <= n < before.nodes@.len() implies after.back_refs(n)
        == before.back_refs(n) by {
        assert(after.nodes@[n].inputs == before.nodes@[n].inputs);
    }
    if before.back_refs_recorded() {
        assert forall|n: usize, s: usize|
            n < after.nodes@.len() && #[trigger] after.back_refs(n as int).contains(
                s,
            ) implies after.is_sink(s as int) && walk_of(after.graph(), s).entered.contains(n) by {
            assert(before.back_refs(n as int).contains(s));
        }
    }
    if before.back_refs_complete() {
        assert forall|s: usize, n: usize|
            after.is_sink(s as int) && after.state(s as int) == PbrState::Calculated && n
                < after.nodes@.len() && #[trigger] walk_of(after.graph(), s).entered.contains(
                n,
            ) implies after.back_refs(n as int).contains(s) by {
            assert(after.nodes@[s as int].inputs == before.nodes@[s as int].inputs);
            assert(before.is_sink(s as int) && before.state(s as int) == PbrState::Calculated);
            assert(walk_of(before.graph(), s).entered.contains(n));
        }
    }
}

/// Writing to a producing node through a handle changes no walk, so it
/// takes no back reference away and makes none missing.
pub proof fn lemma_written_keeps(before: NodeStore, at: int, node: Node, after: NodeStore)
    requires
        acyclic(before.graph()),
        0 <= at < before.nodes@.len(),
        !before.nodes@[at].node.is_final(),
        !node.is_final(),
        after.written_from(before, at, node),
    ensures
        acyclic(after.graph()),
        before.back_refs_recorded() ==> after.back_refs_recorded(),
        before.back_refs_complete() ==> after.back_refs_complete(),
{
    assert forall|n: int| 0 <= n < before.nodes@.len() implies (#[trigger] before.graph()[n]).inputs
        == after.graph()[n].inputs && (before.graph()[n].producer is None) == (
    after.graph()[n].producer is None) && before.back_refs(n) == after.back_refs(n)
        && before.is_sink(n) == after.is_sink(n) by {
        if n != at {
            assert(after.nodes@[n] == before.nodes@[n]);
        }
    }
    assert(same_shape(before.graph(), after.graph()));
    lemma_same_shape_acyclic(before.graph(), after.graph());
    assert forall|s: usize| s < before.nodes@.len() implies #[trigger] walk_of(
        before.graph(),
        s,
    ) == walk_of(after.graph(), s) by {
        lemma_walk_inputs_shape(
            before.graph(),
            after.graph(),
            s,
            before.graph()[s as int].inputs.len(),
        );
    }
    if before.back_refs_recorded() {
        assert forall|n: usize, s: usize|
            n < after.nodes@.len() && #[trigger] after.back_refs(n as int).contains(
                s,
            ) implies after.is_sink(s as int) && walk_of(after.graph(), s).entered.contains(n) by {
            assert(before.back_refs(n as int).contains(s));
            assert(before.is_sink(s as int));
            assert(walk_of(before.graph(), s) == walk_of(after.graph(), s));
        }
    }
    if before.back_refs_complete() {
        assert forall|s: usize, n: usize|
            after.is_sink(s as int) && after.state(s as int) == PbrState::Calculated && n
                < after.nodes@.len() && #[trigger] walk_of(after.graph(), s).entered.contains(
                n,
            ) implies after.back_refs(n as int).contains(s) by {
            assert(s != at);
            assert(after.nodes@[s as int] == before.nodes@[s as int]);
            assert(walk_of(before.graph(), s) == walk_of(after.graph(), s));
        }
    }
}

/// The release of a write handle sends one batch, whatever was written
/// before it: after any three writes through the handle the queue holds
/// what was pending and, behind it, one event for every sink that has
/// reached the node, and no more.
pub proof fn lemma_release_sends_once<T>(
    opened: FetchMutView<T>,
    first: FetchMutView<T>,
    second: FetchMutView<T>,
    third: FetchMutView<T>,
    queue: Seq<UpdateEvent>,
)
    requires
        first == (FetchMutView { value: first.value, ..opened }),
        second == (FetchMutView { value: second.value, ..first }),
        third == (FetchMutView { value: third.value, ..second }),
        released(third, queue),
    ensures
        opened.pending matches Some(pending) && queue.len() == pending.len() + opened.finals.len()
            && released(opened, queue),
{
    let batch = choose|batch: Seq<usize>| #[trigger] sent(third, queue, batch);
    assert(sent(opened, queue, batch));
    batch.unique_seq_to_set();
}

/// What a release sends: the queue keeps what was pending, and behind it
/// stands exactly one event for every sink that has reached the node, and
/// no other event.
pub proof fn lemma_released_batch<T>(handle: FetchMutView<T>, queue: Seq<UpdateEvent>)
    requires
        released(handle, queue),
    ensures
        handle.pending matches Some(pending) && ({
            let batch = queue.skip(pending.len() as int);
            &&& pending.is_prefix_of(queue)
            &&& batch.len() == handle.finals.len()
            &&& batch.no_duplicates()
            &&& forall|k: int|
                0 <= k < batch.len() ==> handle.finals.contains((#[trigger] batch[k]).0.0)
            &&& forall|s: usize|
                handle.finals.contains(s) ==> batch.contains(UpdateEvent(NodeId(s)))
        }),
{
    let ids = choose|ids: Seq<usize>| #[trigger] sent(handle, queue, ids);
    let pending = handle.pending->0;
    let batch = queue.skip(pending.len() as int);
    ids.unique_seq_to_set();
    assert(batch =~= events_for(ids));
    assert forall|k: int| 0 <= k < batch.len() implies handle.finals.contains(
        (#[trigger] batch[k]).0.0,
    ) by {
        assert(ids.to_set().contains(ids[k]));
    }
    assert forall|s: usize| handle.finals.contains(s) implies batch.contains(
        UpdateEvent(NodeId(s)),
    ) by {
        assert(ids.to_set().contains(s));
        let k = choose|k: int| 0 <= k < ids.len() && ids[k] == s;
        assert(batch[k] == UpdateEvent(NodeId(s)));
    }
    assert forall|i: int, j: int|
        0 <= i < batch.len() && 0 <= j < batch.len() && i != j implies batch[i] != batch[j] by {
        assert(ids[i] != ids[j]);
    }
}

/// An event for `sink` is in the queue after the release of a handle on a
/// node whose back-reference set holds `sink`.
proof fn lemma_released_targets<T>(handle: FetchMutView<T>, queue: Seq<UpdateEvent>, sink: usize)
    requires
        released(handle, queue),
        handle.finals.contains(sink),
    ensures
        targeted(queue, sink as int),
{
    let batch = choose|batch: Seq<usize>| #[trigger] sent(handle, queue, batch);
    let pending = handle.pending->0;
    assert(batch.to_set().contains(sink));
    let k = choose|k: int| 0 <= k < batch.len() && batch[k] == sink;
    assert(queue[pending.len() + k] == events_for(batch)[k]);
}

/// Only the sinks of the back-reference set are asked for by a release on
/// an empty queue.
proof fn lemma_released_spares<T>(handle: FetchMutView<T>, queue: Seq<UpdateEvent>, sink: usize)
    requires
        released(handle, queue),
        handle.pending == Some(Seq::<UpdateEvent>::empty()),
        !handle.finals.contains(sink),
    ensures
        !targeted(queue, sink as int),
{
    let batch = choose|batch: Seq<usize>| #[trigger] sent(handle, queue, batch);
    if targeted(queue, sink as int) {
        let k = choose|k: int| 0 <= k < queue.len() && (#[trigger] queue[k]).0.0 == sink as int;
        assert(queue[k] == events_for(batch)[k]);
        assert(batch[k] == sink);
        assert(batch.to_set().contains(sink));
    }
}

/// Completeness: a change to a node that two sinks share reaches both.
///
/// `s1` and `s2` are calculated sinks of a store in which no back reference
/// is missing, and their walks both enter `n`. Then `n` was written through
/// a handle, the handle was released, and the events were applied. After
/// that both sinks are stale.
pub proof fn lemma_invalidation_complete<T>(
    evaluated: NodeStore,
    s1: usize,
    s2: usize,
    n: usize,
    handle: FetchMutView<T>,
    queue: Seq<UpdateEvent>,
    node: Node,
    written: NodeStore,
    marked: NodeStore,
)
    requires
        acyclic(evaluated.graph()),
        evaluated.back_refs_complete(),
        evaluated.is_sink(s1 as int) && evaluated.state(s1 as int) == PbrState::Calculated,
        evaluated.is_sink(s2 as int) && evaluated.state(s2 as int) == PbrState::Calculated,
        walk_of(evaluated.graph(), s1).entered.contains(n),
        walk_of(evaluated.graph(), s2).entered.contains(n),
        handle.finals == evaluated.back_refs(n as int),
        released(handle, queue),
        written.written_from(evaluated, n as int, node),
        invalidated(written, queue, marked),
    ensures
        marked.stale(s1 as int),
        marked.stale(s2 as int),
{
    lemma_reaches(evaluated, s1, n, handle, queue, node, written, marked);
    lemma_reaches(evaluated, s2, n, handle, queue, node, written, marked);
}

/// A change to a node reaches a calculated sink whose walk enters the node.
proof fn lemma_reaches<T>(
    evaluated: NodeStore,
    sink: usize,
    n: usize,
    handle: FetchMutView<T>,
    queue: Seq<UpdateEvent>,
    node: Node,
    written: NodeStore,
    marked: NodeStore,
)
    requires
        acyclic(evaluated.graph()),
        evaluated.back_refs_complete(),
        evaluated.is_sink(sink as int) && evaluated.state(sink as int) == PbrState::Calculated,
        walk_of(evaluated.graph(), sink).entered.contains(n),
        handle.finals == evaluated.back_refs(n as int),
        released(handle, queue),
        written.written_from(evaluated, n as int, node),
        invalidated(written, queue, marked),
    ensures
        marked.stale(sink as int),
{
    let graph = evaluated.graph();
    lemma_walk_inputs_producers(graph, sink, graph[sink as int].inputs.len());
    let entered = walk_of(graph, sink).entered;
    let k = choose|k: int| 0 <= k < entered.len() && entered[k] == n;
    assert(entered[k] < graph.len() && graph[entered[k] as int].producer is Some);
    assert(n != sink);
    assert(evaluated.back_refs(n as int).contains(sink));
    lemma_released_targets(handle, queue, sink);
    assert(written.nodes@[sink as int] == evaluated.nodes@[sink as int]);
    assert(marked.nodes@[sink as int].inputs == written.nodes@[sink as int].inputs);
}

/// Precision: a change reaches the sinks that depend on the changed node
/// and no other.
///
/// In the store every back reference was left by a walk and none is
/// missing. `s1` is a calculated sink whose walk enters `n`, and the walk
/// of the sink `s2` enters no node that the walk of `s1` enters. Then `n`
/// was written through a handle, the handle was released onto an empty
/// queue, and the events were applied. After that `s1` is stale, and `s2`
/// is as it was.
pub proof fn lemma_invalidation_precise<T>(
    evaluated: NodeStore,
    s1: usize,
    s2: usize,
    n: usize,
    handle: FetchMutView<T>,
    queue: Seq<UpdateEvent>,
    node: Node,
    written: NodeStore,
    marked: NodeStore,
)
    requires
        acyclic(evaluated.graph()),
        evaluated.back_refs_recorded(),
        evaluated.back_refs_complete(),
        evaluated.is_sink(s1 as int) && evaluated.state(s1 as int) == PbrState::Calculated,
        evaluated.is_sink(s2 as int),
        forall|m: usize|
            !(walk_of(evaluated.graph(), s1).entered.contains(m) && walk_of(
                evaluated.graph(),
                s2,
            ).entered.contains(m)),
        walk_of(evaluated.graph(), s1).entered.contains(n),
        handle.finals == evaluated.back_refs(n as int),
        handle.pending == Some(Seq::<UpdateEvent>::empty()),
        released(handle, queue),
        written.written_from(evaluated, n as int, node),
        invalidated(written, queue, marked),
    ensures
        marked.stale(s1 as int),
        marked.nodes@[s2 as int].node == evaluated.nodes@[s2 as int].node,
{
    lemma_reaches(evaluated, s1, n, handle, queue, node, written, marked);
    let graph = evaluated.graph();
    lemma_walk_inputs_producers(graph, s1, graph[s1 as int].inputs.len());
    let entered = walk_of(graph, s1).entered;
    let k = choose|k: int| 0 <= k < entered.len() && entered[k] == n;
    assert(entered[k] < graph.len() && graph[entered[k] as int].producer is Some);
    assert(n != s2);
    if evaluated.back_refs(n as int).contains(s2) {
        assert(walk_of(graph, s2).entered.contains(n));
    }
    lemma_released_spares(handle, queue, s2);
    assert(written.nodes@[s2 as int] == evaluated.nodes@[s2 as int]);
    assert(marked.nodes@[s2 as int].inputs == written.nodes@[s2 as int].inputs);
}

} // verus!
