//! The sink: the terminal node that caches the artifact accumulated from its
//! inputs, and what the invalidation protocol keeps for it.

use crate::invalidation::lemma_invalidated_keeps;
use crate::node::{Behavior, Node, NodeId, SpawnedNode};
use crate::process::{Artifact, PbrState, ProcessObjectView};
use crate::store::NodeStore;
use crate::walk::acyclic;
use std::collections::HashSet;
use vstd::prelude::*;
use vstd::std_specs::hash::{axiom_spec_hash_keys_iter, spec_hash_keys_iter};
use vstd::std_specs::iter::IteratorSpec;

verus! {

/// Marks a node as a sink.
#[derive(Copy, Clone)]
pub struct FinalType;

/// A sink: its cached artifact and whether that artifact is up to date.
pub struct Final {
    pub pbr: Artifact,
    pub pbr_state: PbrState,
}

impl Final {
    /// A sink that was never evaluated: the empty artifact, not calculated.
    pub fn new() -> (sink: Self)
        ensures
            sink.pbr == ProcessObjectView::empty().artifact(),
            sink.pbr_state == PbrState::NotCalculated,
    {
        Final { pbr: Artifact::default(), pbr_state: PbrState::default() }
    }

    /// Adds the sink to `store`.
    pub fn spawn(self, store: &mut NodeStore) -> (spawned: SpawnedNode)
        ensures
            final(store).spawned_from(*old(store), Node(Behavior::Final(self))),
            spawned.id.0 == old(store).nodes@.len(),
            old(store).back_refs_are_sinks() ==> final(store).back_refs_are_sinks(),
            acyclic(old(store).graph()) ==> acyclic(final(store).graph()),
    {
        SpawnedNode { id: store.spawn(Node(Behavior::Final(self))) }
    }
}

impl Default for Final {
    fn default() -> (sink: Self)
        ensures
            sink.pbr == ProcessObjectView::empty().artifact(),
            sink.pbr_state == PbrState::NotCalculated,
    {
        Final::new()
    }
}

/// Asks for one sink to be marked stale.
#[derive(Copy, Clone)]
pub struct UpdateEvent(pub NodeId);

/// The sinks that have, in some evaluation, reached the node that carries
/// this set.
pub struct Finals(pub HashSet<usize>);

impl View for Finals {
    type V = Set<usize>;

    open spec fn view(&self) -> Self::V {
        self.0@
    }
}

impl Default for Finals {
    fn default() -> (finals: Self)
        ensures
            finals@ == Set::<usize>::empty(),
    {
        Finals(HashSet::new())
    }
}

/// The events that ask for the sinks `ids`, in that order.
pub open spec fn events_for(ids: Seq<usize>) -> Seq<UpdateEvent> {
    Seq::new(ids.len(), |k: int| UpdateEvent(NodeId(ids[k])))
}

/// `batch` names every element of `finals` once, in some order.
pub open spec fn enumerates(batch: Seq<usize>, finals: Set<usize>) -> bool {
    batch.no_duplicates() && batch.to_set() == finals
}

impl Finals {
    /// Sends one event for every sink of the set. The order in which the set
    /// hands out its elements is not fixed.
    pub(crate) fn send(&self, queue: &mut Vec<UpdateEvent>) -> (batch: Ghost<Seq<usize>>)
        ensures
            enumerates(batch@, self@),
            final(queue)@ == old(queue)@ + events_for(batch@),
    {
        let ghost mut sent: Seq<usize> = Seq::empty();
        for id in it: self.0.iter()
            invariant
                it.seq() == spec_hash_keys_iter(&self.0).remaining(),
                sent.len() == it.index(),
                forall|k: int| 0 <= k < sent.len() ==> sent[k] == *it.seq()[k],
                queue@ == old(queue)@ + events_for(sent),
        {
            queue.push(UpdateEvent(NodeId(*id)));
            proof {
                sent = sent.push(*id);
            }
            assert(queue@ =~= old(queue)@ + events_for(sent));
        }
        proof {
            axiom_spec_hash_keys_iter(&self.0);
            let walked = spec_hash_keys_iter(&self.0).remaining();
            assert(sent =~= walked.unref());
        }
        Ghost(sent)
    }
}

/// Some event of `events` asks for the node `n`.
pub open spec fn targeted(events: Seq<UpdateEvent>, n: int) -> bool {
    exists|k: int| 0 <= k < events.len() && (#[trigger] events[k]).0.0 == n
}

/// The events of `events` that name no sink of `store`, in their order.
pub open spec fn unmatched(store: NodeStore, events: Seq<UpdateEvent>) -> Seq<UpdateEvent>
    decreases events.len(),
{
    if events.len() == 0 {
        Seq::empty()
    } else if store.is_sink(events.last().0.0 as int) {
        unmatched(store, events.drop_last())
    } else {
        unmatched(store, events.drop_last()).push(events.last())
    }
}

/// `after` is `before` once `events` were applied: every sink that an event
/// asks for is not calculated and keeps its artifact; nothing else differs.
pub open spec fn invalidated(before: NodeStore, events: Seq<UpdateEvent>, after: NodeStore) -> bool {
    &&& after.nodes@.len() == before.nodes@.len()
    &&& forall|n: int|
        0 <= n < before.nodes@.len() ==> {
            &&& (#[trigger] after.nodes@[n]).inputs == before.nodes@[n].inputs
            &&& after.nodes@[n].finals == before.nodes@[n].finals
            &&& after.nodes@[n].node == if before.is_sink(n) && targeted(events, n) {
                Node(
                    Behavior::Final(
                        Final { pbr: before.artifact(n), pbr_state: PbrState::NotCalculated },
                    ),
                )
            } else {
                before.nodes@[n].node
            }
        }
}

/// Takes every event out of the queue, in its order, and marks the sink it
/// names as not calculated. An event that names no sink changes nothing; the
/// events of that sort are handed back, for a diagnostic.
pub fn final_update(events: &mut Vec<UpdateEvent>, store: &mut NodeStore) -> (dropped: Vec<
    UpdateEvent,
>)
    ensures
        final(events)@.len() == 0,
        invalidated(*old(store), old(events)@, *final(store)),
        dropped@ == unmatched(*old(store), old(events)@),
        old(store).back_refs_are_sinks() ==> final(store).back_refs_are_sinks(),
        old(store).back_refs_recorded() ==> final(store).back_refs_recorded(),
        old(store).back_refs_complete() ==> final(store).back_refs_complete(),
{
    let mut dropped: Vec<UpdateEvent> = Vec::new();
    let mut k: usize = 0;
    while k < events.len()
        invariant
            k <= events.len(),
            events@ == old(events)@,
            invalidated(*old(store), events@.take(k as int), *store),
            dropped@ == unmatched(*old(store), events@.take(k as int)),
        decreases events.len() - k,
    {
        let event = events[k];
        let at = event.0.0;
        let ghost seen = events@.take(k as int);
        let ghost next = events@.take(k + 1);
        let ghost middle = *store;
        assert(next.drop_last() =~= seen);
        assert(next.last() == event);
        let mut matched = false;
        if at < store.nodes.len() {
            match &mut store.nodes[at].node.0 {
                Behavior::Final(sink) => {
                    sink.pbr_state = PbrState::NotCalculated;
                    matched = true;
                },
                _ => {},
            }
        }
        if !matched {
            dropped.push(event);
        }
        proof {
            assert forall|n: int| 0 <= n < old(store).nodes@.len() implies targeted(next, n) == (
            targeted(seen, n) || n == at) by {
                if targeted(seen, n) {
                    let j = choose|j: int| 0 <= j < seen.len() && (#[trigger] seen[j]).0.0 == n;
                    assert(next[j].0.0 == n);
                }
                if n == at {
                    assert(next[k as int].0.0 == n);
                }
                if targeted(next, n) {
                    let j = choose|j: int| 0 <= j < next.len() && (#[trigger] next[j]).0.0 == n;
                    if j < k {
                        assert(seen[j].0.0 == n);
                    }
                }
            }
            assert forall|n: int| 0 <= n < old(store).nodes@.len() implies {
                &&& (#[trigger] store.nodes@[n]).inputs == old(store).nodes@[n].inputs
                &&& store.nodes@[n].finals == old(store).nodes@[n].finals
                &&& store.nodes@[n].node == if old(store).is_sink(n) && targeted(next, n) {
                    Node(
                        Behavior::Final(
                            Final {
                                pbr: old(store).artifact(n),
                                pbr_state: PbrState::NotCalculated,
                            },
                        ),
                    )
                } else {
                    old(store).nodes@[n].node
                }
            } by {
                assert(middle.nodes@[n].inputs == old(store).nodes@[n].inputs);
            }
        }
        k = k + 1;
    }
    assert(events@.take(k as int) =~= events@);
    events.clear();
    proof {
        lemma_invalidated_sinks(*old(store), old(events)@, *store);
        lemma_invalidated_keeps(*old(store), old(events)@, *store);
    }
    dropped
}

/// Applying events leaves every sink a sink: where every element of every
/// back-reference set was a sink before, it is so after.
pub proof fn lemma_invalidated_sinks(before: NodeStore, events: Seq<UpdateEvent>, after: NodeStore)
    requires
        invalidated(before, events, after),
    ensures
        forall|n: int| before.is_sink(n) == after.is_sink(n),
        before.back_refs_are_sinks() ==> after.back_refs_are_sinks(),
{
    assert forall|n: int| before.is_sink(n) == after.is_sink(n) by {
        if 0 <= n < before.nodes@.len() {
            assert(after.nodes@[n].inputs == before.nodes@[n].inputs);
        }
    }
    if before.back_refs_are_sinks() {
        assert forall|n: int, s: usize|
            0 <= n < after.nodes@.len() && #[trigger] after.back_refs(n).contains(
                s,
            ) implies after.is_sink(s as int) by {
            assert(after.nodes@[n].inputs == before.nodes@[n].inputs);
            assert(before.back_refs(n).contains(s));
        }
    }
}

} // verus!
