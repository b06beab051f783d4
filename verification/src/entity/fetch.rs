//! Typed handles on the nodes of a store: `Fetch` reads a node as a value of
//! one kind, `FetchMut` lets it be changed and, when it is released, asks
//! once for every sink that has reached the node to be marked stale.

use crate::entity::{find_entity, Registry};
use crate::node::sink::{enumerates, events_for};
use crate::node::{Finals, Node, NodeId, TypedNode, UpdateEvent};
use crate::store::NodeStore;
use std::marker::PhantomData;
use vstd::prelude::*;

verus! {

/// A node read as a value of kind `T`.
pub struct Fetch<'a, T: TypedNode> {
    node: &'a Node,
    _type_marker: PhantomData<T>,
}

impl<'a, T: TypedNode> Fetch<'a, T> {
    #[verifier::type_invariant]
    spec fn is_of_kind(self) -> bool {
        T::of(*self.node) is Some
    }

    /// The node that the handle reads.
    pub closed spec fn node(self) -> Node {
        *self.node
    }

    /// The handle on the node that `name` maps to; `None` where the name
    /// maps to nothing, or to an id that is not that of a node of kind `T`.
    pub fn find(name: &str, registry: &Registry, store: &'a NodeStore) -> (handle: Option<Self>)
        ensures
            handle is Some == (registry@.dom().contains(name@) && store.holds::<T>(
                registry@[name@] as int,
            )),
            handle matches Some(found) ==> found.node() == store.nodes@[registry@[name@] as int].node,
    {
        match find_entity(registry, name) {
            Some(id) => Fetch::<T>::new(id, store),
            None => None,
        }
    }

    /// The handle on the node `id`; `None` where `id` is not that of a node
    /// of kind `T`.
    pub fn new(id: NodeId, store: &'a NodeStore) -> (handle: Option<Self>)
        ensures
            handle is Some == store.holds::<T>(id.0 as int),
            handle matches Some(found) ==> found.node() == store.nodes@[id.0 as int].node,
    {
        match store.get(id) {
            Some(node) => {
                if T::cast_ref(node).is_none() {
                    return None;
                }
                Some(Fetch { node, _type_marker: PhantomData })
            },
            None => None,
        }
    }

    /// The node's value.
    pub fn cast(&self) -> (value: &T)
        ensures
            T::of(self.node()) == Some(*value),
    {
        proof {
            use_type_invariant(self);
        }
        T::cast_ref(self.node).unwrap()
    }
}

impl<'a, T: TypedNode> std::ops::Deref for Fetch<'a, T> {
    type Target = T;

    fn deref(&self) -> (value: &T)
        ensures
            T::of(self.node()) == Some(*value),
    {
        self.cast()
    }
}

/// A node of kind `T` that is being changed.
///
/// The handle does not release itself: who holds it calls `finalize` when
/// the changes are made.
pub struct FetchMut<'w, T> {
    /// Where the release sends its events; `None` after the release.
    pub finals_updater: Option<&'w mut Vec<UpdateEvent>>,
    pub node: &'w mut Node,
    /// The sinks that have reached the node.
    pub finals: &'w Finals,
    pub _type_marker: PhantomData<T>,
}

/// What a write handle stands for.
pub struct FetchMutView<T> {
    /// The node's value.
    pub value: T,
    /// The sinks that have reached the node.
    pub finals: Set<usize>,
    /// The content of the queue, as long as the release is still to come.
    pub pending: Option<Seq<UpdateEvent>>,
}

impl<'w, T: TypedNode> FetchMut<'w, T> {
    /// The node is of kind `T`.
    pub open spec fn wf(self) -> bool {
        T::of(*self.node) is Some
    }

    pub open spec fn view(self) -> FetchMutView<T> {
        FetchMutView {
            value: T::of(*self.node)->0,
            finals: self.finals@,
            pending: match self.finals_updater {
                Some(queue) => Some(queue@),
                None => None,
            },
        }
    }

    /// The handle was opened on the node `at` of `store`, with the queue
    /// `pending` attached: it is of kind `T`, it holds the node and the
    /// node's back-reference set as the store has them, and its queue holds
    /// what `pending` holds.
    pub open spec fn opened_on(self, store: NodeStore, at: int, pending: Vec<UpdateEvent>) -> bool {
        &&& self.wf()
        &&& self.finals_updater matches Some(queue) && *queue == pending
        &&& *self.node == store.nodes@[at].node
        &&& *self.finals == store.nodes@[at].finals
    }

    /// As `new`, for the node that `name` maps to.
    pub fn find(
        name: &str,
        registry: &Registry,
        store: &'w mut NodeStore,
        updater: &'w mut Vec<UpdateEvent>,
    ) -> (handle: Option<Self>)
        ensures
            handle is Some == (registry@.dom().contains(name@) && old(store).holds::<T>(
                registry@[name@] as int,
            )),
            handle is None ==> *final(store) == *old(store) && *final(updater) == *old(updater),
            handle matches Some(found) ==> {
                &&& found.opened_on(*old(store), registry@[name@] as int, *old(updater))
                &&& *final(found.finals_updater->0) == *final(updater)
                &&& final(store).written_from(*old(store), registry@[name@] as int, *final(found.node))
            },
    {
        match find_entity(registry, name) {
            Some(id) => FetchMut::<T>::new(id, store, updater),
            None => None,
        }
    }

    /// As `find`, under the name that says where the events go.
    pub fn find_with_finals_updater(
        name: &str,
        registry: &Registry,
        store: &'w mut NodeStore,
        updater: &'w mut Vec<UpdateEvent>,
    ) -> (handle: Option<Self>)
        ensures
            handle is Some == (registry@.dom().contains(name@) && old(store).holds::<T>(
                registry@[name@] as int,
            )),
            handle is None ==> *final(store) == *old(store) && *final(updater) == *old(updater),
            handle matches Some(found) ==> {
                &&& found.opened_on(*old(store), registry@[name@] as int, *old(updater))
                &&& *final(found.finals_updater->0) == *final(updater)
                &&& final(store).written_from(*old(store), registry@[name@] as int, *final(found.node))
            },
    {
        FetchMut::<T>::find(name, registry, store, updater)
    }

    /// The write handle on the node `id`, whose release sends its events
    /// to `updater`; `None` where `id` is not that of a node of kind `T`.
    /// There is no write handle without a queue: whoever changes a node
    /// says where the sinks that depend on it are told.
    pub fn new(id: NodeId, store: &'w mut NodeStore, updater: &'w mut Vec<UpdateEvent>) -> (handle:
        Option<Self>)
        ensures
            handle is Some == old(store).holds::<T>(id.0 as int),
            handle is None ==> *final(store) == *old(store) && *final(updater) == *old(updater),
            handle matches Some(found) ==> {
                &&& found.opened_on(*old(store), id.0 as int, *old(updater))
                &&& *final(found.finals_updater->0) == *final(updater)
                &&& final(store).written_from(*old(store), id.0 as int, *final(found.node))
            },
    {
        if id.0 >= store.nodes.len() {
            return None;
        }
        if T::cast_ref(&store.nodes[id.0].node).is_none() {
            return None;
        }
        let entry = &mut store.nodes[id.0];
        Some(
            FetchMut {
                finals_updater: Some(updater),
                node: &mut entry.node,
                finals: &entry.finals,
                _type_marker: PhantomData,
            },
        )
    }

    /// As `new`, under the name that says where the events go.
    pub fn new_with_finals_updater(
        id: NodeId,
        store: &'w mut NodeStore,
        updater: &'w mut Vec<UpdateEvent>,
    ) -> (handle: Option<Self>)
        ensures
            handle is Some == old(store).holds::<T>(id.0 as int),
            handle is None ==> *final(store) == *old(store) && *final(updater) == *old(updater),
            handle matches Some(found) ==> {
                &&& found.opened_on(*old(store), id.0 as int, *old(updater))
                &&& *final(found.finals_updater->0) == *final(updater)
                &&& final(store).written_from(*old(store), id.0 as int, *final(found.node))
            },
    {
        FetchMut::<T>::new(id, store, updater)
    }

    /// Attaches `updater` as the queue that the release sends to, in the
    /// place of the queue attached before, if there was one.
    pub fn with_finals_updater(self, updater: &'w mut Vec<UpdateEvent>) -> (handle: Self)
        ensures
            handle.finals_updater matches Some(queue) && *queue == *old(updater) && *final(queue)
                == *final(updater),
            *handle.node == *old(self.node),
            *final(handle.node) == *final(self.node),
            handle.finals == self.finals,
    {
        let mut handle = self;
        handle.finals_updater = Some(updater);
        handle
    }

    /// The node's value, to be changed in place. No event is sent.
    pub fn cast(&mut self) -> (value: &mut T)
        requires
            old(self).wf(),
        ensures
            *value == old(self)@.value,
            final(self).wf(),
            final(self)@ == (FetchMutView { value: *final(value), ..old(self)@ }),
            *final(final(self).node) == *final(old(self).node),
            final(self).finals == old(self).finals,
            final(self).finals_updater == old(self).finals_updater,
    {
        proof {
            T::lemma_put_of(*self.node);
        }
        let value = T::cast_mut(self.node).unwrap();
        proof {
            T::lemma_of_put(*final(value));
        }
        value
    }

    /// Releases the handle: sends, to the queue attached, one event for
    /// every sink that has reached the node, and hands the queue back. A
    /// handle without a queue, or released before, sends nothing.
    pub fn finalize(&mut self) -> (updater: Option<&'w mut Vec<UpdateEvent>>)
        ensures
            final(self).finals_updater is None,
            *final(self).node == *old(self).node,
            *final(final(self).node) == *final(old(self).node),
            final(self).finals == old(self).finals,
            updater is Some == old(self).finals_updater is Some,
            updater matches Some(queue) ==> {
                &&& released(old(self)@, queue@)
                &&& *final(queue) == *final(old(self).finals_updater->0)
            },
    {
        match self.finals_updater.take() {
            Some(queue) => {
                let Ghost(batch) = self.finals.send(queue);
                assert(sent(old(self)@, queue@, batch));
                Some(queue)
            },
            None => None,
        }
    }
}

/// `queue` is the pending queue of `handle` with the events for the sinks
/// `batch` behind it, and `batch` names every sink that has reached the node
/// once.
pub open spec fn sent<T>(handle: FetchMutView<T>, queue: Seq<UpdateEvent>, batch: Seq<usize>) -> bool {
    &&& handle.pending matches Some(pending)
    &&& enumerates(batch, handle.finals)
    &&& queue == pending + events_for(batch)
}

/// `queue` is what the release of `handle` leaves in the queue: what was
/// pending, and behind it one event for every sink that has reached the
/// node, in some order.
pub open spec fn released<T>(handle: FetchMutView<T>, queue: Seq<UpdateEvent>) -> bool {
    exists|batch: Seq<usize>| #[trigger] sent(handle, queue, batch)
}

/// Typed access, offered on the node kind itself.
pub trait FetchingNode: TypedNode {
    fn get<'a>(id: NodeId, store: &'a NodeStore) -> (handle: Option<Fetch<'a, Self>>)
        ensures
            handle is Some == store.holds::<Self>(id.0 as int),
            handle matches Some(found) ==> found.node() == store.nodes@[id.0 as int].node,
    {
        Fetch::new(id, store)
    }

    fn get_mut<'w>(
        id: NodeId,
        store: &'w mut NodeStore,
        updater: &'w mut Vec<UpdateEvent>,
    ) -> (handle: Option<FetchMut<'w, Self>>)
        ensures
            handle is Some == old(store).holds::<Self>(id.0 as int),
            handle is None ==> *final(store) == *old(store) && *final(updater) == *old(updater),
            handle matches Some(found) ==> {
                &&& found.opened_on(*old(store), id.0 as int, *old(updater))
                &&& *final(found.finals_updater->0) == *final(updater)
                &&& final(store).written_from(*old(store), id.0 as int, *final(found.node))
            },
    {
        FetchMut::new(id, store, updater)
    }

    fn find<'a>(name: &str, registry: &Registry, store: &'a NodeStore) -> (handle: Option<
        Fetch<'a, Self>,
    >)
        ensures
            handle is Some == (registry@.dom().contains(name@) && store.holds::<Self>(
                registry@[name@] as int,
            )),
            handle matches Some(found) ==> found.node() == store.nodes@[registry@[name@] as int].node,
    {
        Fetch::find(name, registry, store)
    }

    fn find_mut<'w>(
        name: &str,
        registry: &Registry,
        store: &'w mut NodeStore,
        updater: &'w mut Vec<UpdateEvent>,
    ) -> (handle: Option<FetchMut<'w, Self>>)
        ensures
            handle is Some == (registry@.dom().contains(name@) && old(store).holds::<Self>(
                registry@[name@] as int,
            )),
            handle is None ==> *final(store) == *old(store) && *final(updater) == *old(updater),
            handle matches Some(found) ==> {
                &&& found.opened_on(*old(store), registry@[name@] as int, *old(updater))
                &&& *final(found.finals_updater->0) == *final(updater)
                &&& final(store).written_from(
                    *old(store),
                    registry@[name@] as int,
                    *final(found.node),
                )
            },
    {
        FetchMut::find(name, registry, store, updater)
    }
}

impl<T: TypedNode> FetchingNode for T {
}

} // verus!
