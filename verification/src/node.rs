//! The node kinds and what a graph stores of each node.

use crate::entity::{store_entity, Registry};
use crate::process::{ProcessObject, ProcessObjectView};
use crate::store::NodeStore;
use crate::walk::{acyclic, no_dependents};
use bevy::math::Vec3;
use vstd::prelude::*;

pub mod material;
pub mod selection_group;
pub mod sink;
pub mod surface;

pub use self::material::{Material, MaterialType};
pub use self::selection_group::{
    answers_of, ByNormalSelector, SelectionGroup, SelectionGroupType, Selector, SelectorList,
};
pub use self::sink::{Final, FinalType, Finals, UpdateEvent};
pub use self::surface::{Box, BoxType};

verus! {

/// Names a node of one store. A store hands out the ids `0, 1, 2, ...` in the
/// order in which its nodes are spawned.
#[derive(Debug, Copy, Clone, PartialEq, Eq, Structural)]
pub struct NodeId(pub usize);

/// A node that was added to a store.
#[derive(Copy, Clone)]
pub struct SpawnedNode {
    pub id: NodeId,
}

impl SpawnedNode {
    /// Registers the node under `name`.
    pub fn save(self, registry: &mut Registry, name: String) -> (node: Self)
        ensures
            node == self,
            final(registry)@ == old(registry)@.insert(name@, self.id.0),
    {
        store_entity(registry, name, self.id);
        self
    }

    /// Appends `inputs` to the node's inputs.
    pub fn inputs(self, store: &mut NodeStore, inputs: &[NodeId]) -> (node: Self)
        requires
            self.id.0 < old(store).nodes@.len(),
        ensures
            node == self,
            final(store).linked_from(*old(store), self.id.0 as int, inputs@),
            old(store).back_refs_are_sinks() ==> final(store).back_refs_are_sinks(),
            acyclic(old(store).graph()) && no_dependents(old(store).graph(), self.id.0)
                && !inputs@.contains(self.id) ==> acyclic(final(store).graph()),
    {
        store.link(self.id, inputs);
        self
    }
}

/// The kinds of primitive that geometry is made of.
pub enum PrimitiveType {
    Polygon,
    PolygonMesh,
    Mesh,
    Nurbs,
    Bezier,
    Points,
}

/// What a node is and does: one variant for every kind.
pub enum Behavior {
    Box(Box),
    Material(Material),
    SelectionGroup(SelectionGroup),
    Final(Final),
}

/// A node's behaviour, as a store holds it.
pub struct Node(pub Behavior);

/// What every producing node can do: add its output to the accumulator.
///
/// A node reads nothing but its own state and the accumulator. It is told
/// the id under which its store holds it, so that it can refer to itself in
/// what it adds. Where it has to decide whether a selector picks a vertex, it
/// asks `is_selected`, with the selector and the vertex normal.
pub trait CommonNode: Send + Sync {
    /// `after` is a possible outcome of processing this node, held under
    /// `id`, on `before`, where `answers` holds for the answers that the
    /// node may get.
    spec fn processed(
        &self,
        id: NodeId,
        answers: spec_fn(ByNormalSelector, Vec3, bool) -> bool,
        before: ProcessObjectView,
        after: ProcessObjectView,
    ) -> bool;

    /// Lets the node, held under `id`, add its output to the accumulator.
    fn process<F: Fn(&ByNormalSelector, &Vec3) -> bool>(
        &self,
        id: NodeId,
        object: &mut ProcessObject,
        is_selected: &F,
    )
        requires
            forall|s: &ByNormalSelector, n: &Vec3| call_requires(is_selected, (s, n)),
        ensures
            self.processed(id, answers_of(is_selected), old(object)@, final(object)@),
    ;
}

impl Node {
    /// True for sinks, which root a walk and never take part in one.
    pub open spec fn is_final(self) -> bool {
        self.0 is Final
    }
}

impl CommonNode for Node {
    /// Of a box and of a material the outcome is fixed; of a selection group
    /// it depends on the answers; a sink leaves `before` as it is.
    open spec fn processed(
        &self,
        id: NodeId,
        answers: spec_fn(ByNormalSelector, Vec3, bool) -> bool,
        before: ProcessObjectView,
        after: ProcessObjectView,
    ) -> bool {
        match self.0 {
            Behavior::Box(node) => node.processed(id, answers, before, after),
            Behavior::Material(node) => node.processed(id, answers, before, after),
            Behavior::SelectionGroup(node) => node.processed(id, answers, before, after),
            Behavior::Final(_) => after == before,
        }
    }

    fn process<F: Fn(&ByNormalSelector, &Vec3) -> bool>(
        &self,
        id: NodeId,
        object: &mut ProcessObject,
        is_selected: &F,
    ) {
        match &self.0 {
            Behavior::Box(node) => node.process(id, object, is_selected),
            Behavior::Material(node) => node.process(id, object, is_selected),
            Behavior::SelectionGroup(node) => node.process(id, object, is_selected),
            Behavior::Final(_) => {},
        }
    }
}

/// A node kind: how a node of the kind is told from the others, and how its
/// value is got out of a [`Node`] and put back.
pub trait TypedNode: Sized {
    /// The kind's marker.
    type Type;

    /// The value of `node`, if `node` is of this kind.
    spec fn of(node: Node) -> Option<Self>;

    /// The node that holds `value`.
    spec fn put(value: Self) -> Node;

    /// What was put is what is found.
    proof fn lemma_of_put(value: Self)
        ensures
            Self::of(Self::put(value)) == Some(value),
    ;

    /// Putting back what was found gives the node again.
    proof fn lemma_put_of(node: Node)
        requires
            Self::of(node) is Some,
        ensures
            Self::put(Self::of(node)->0) == node,
    ;

    /// The node as a value of this kind; `None` where it is of another kind.
    fn cast_ref(node: &Node) -> (value: Option<&Self>)
        ensures
            value is Some == Self::of(*node) is Some,
            value matches Some(found) ==> Self::of(*node) == Some(*found),
    ;

    /// The node as a value of this kind, to be changed in place; `None`
    /// where it is of another kind.
    fn cast_mut(node: &mut Node) -> (value: Option<&mut Self>)
        ensures
            value is Some == Self::of(*old(node)) is Some,
            value matches Some(found) ==> Self::of(*old(node)) == Some(*found) && *final(node)
                == Self::put(*final(found)),
            value is None ==> *final(node) == *old(node),
    ;
}

impl TypedNode for Box {
    type Type = BoxType;

    open spec fn of(node: Node) -> Option<Self> {
        match node.0 {
            Behavior::Box(value) => Some(value),
            _ => None,
        }
    }

    open spec fn put(value: Self) -> Node {
        Node(Behavior::Box(value))
    }

    proof fn lemma_of_put(value: Self) {
    }

    proof fn lemma_put_of(node: Node) {
    }

    fn cast_ref(node: &Node) -> (value: Option<&Self>) {
        match &node.0 {
            Behavior::Box(value) => Some(value),
            _ => None,
        }
    }

    fn cast_mut(node: &mut Node) -> (value: Option<&mut Self>) {
        match &mut node.0 {
            Behavior::Box(value) => Some(value),
            _ => None,
        }
    }
}

impl TypedNode for Material {
    type Type = MaterialType;

    open spec fn of(node: Node) -> Option<Self> {
        match node.0 {
            Behavior::Material(value) => Some(value),
            _ => None,
        }
    }

    open spec fn put(value: Self) -> Node {
        Node(Behavior::Material(value))
    }

    proof fn lemma_of_put(value: Self) {
    }

    proof fn lemma_put_of(node: Node) {
    }

    fn cast_ref(node: &Node) -> (value: Option<&Self>) {
        match &node.0 {
            Behavior::Material(value) => Some(value),
            _ => None,
        }
    }

    fn cast_mut(node: &mut Node) -> (value: Option<&mut Self>) {
        match &mut node.0 {
            Behavior::Material(value) => Some(value),
            _ => None,
        }
    }
}

impl TypedNode for SelectionGroup {
    type Type = SelectionGroupType;

    open spec fn of(node: Node) -> Option<Self> {
        match node.0 {
            Behavior::SelectionGroup(value) => Some(value),
            _ => None,
        }
    }

    open spec fn put(value: Self) -> Node {
        Node(Behavior::SelectionGroup(value))
    }

    proof fn lemma_of_put(value: Self) {
    }

    proof fn lemma_put_of(node: Node) {
    }

    fn cast_ref(node: &Node) -> (value: Option<&Self>) {
        match &node.0 {
            Behavior::SelectionGroup(value) => Some(value),
            _ => None,
        }
    }

    fn cast_mut(node: &mut Node) -> (value: Option<&mut Self>) {
        match &mut node.0 {
            Behavior::SelectionGroup(value) => Some(value),
            _ => None,
        }
    }
}

impl TypedNode for Final {
    type Type = FinalType;

    open spec fn of(node: Node) -> Option<Self> {
        match node.0 {
            Behavior::Final(value) => Some(value),
            _ => None,
        }
    }

    open spec fn put(value: Self) -> Node {
        Node(Behavior::Final(value))
    }

    proof fn lemma_of_put(value: Self) {
    }

    proof fn lemma_put_of(node: Node) {
    }

    fn cast_ref(node: &Node) -> (value: Option<&Self>) {
        match &node.0 {
            Behavior::Final(value) => Some(value),
            _ => None,
        }
    }

    fn cast_mut(node: &mut Node) -> (value: Option<&mut Self>) {
        match &mut node.0 {
            Behavior::Final(value) => Some(value),
            _ => None,
        }
    }
}

} // verus!
