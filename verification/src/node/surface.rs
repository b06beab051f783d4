//! The box: a surface primitive that emits one mesh and places it.

use crate::node::{Behavior, ByNormalSelector, CommonNode, Node, NodeId, SpawnedNode};
use crate::process::{ProcessObject, ProcessObjectView};
use crate::store::NodeStore;
use crate::walk::acyclic;
use bevy::math::Vec3;
use bevy::render::mesh::{shape, Mesh};
use bevy::transform::components::Transform;
use vstd::prelude::*;

verus! {

/// Marks a node as a box.
#[derive(Copy, Clone)]
pub struct BoxType;

/// The mesh that the engine generates for a box, centred at the origin, with
/// the side lengths `length`.
pub uninterp spec fn box_mesh(length: Vec3) -> Mesh;

/// The placement that applies `inner` first and `outer` after it.
pub uninterp spec fn composed(outer: Transform, inner: Transform) -> Transform;

/// `Mesh::from` on `shape::Box::new`: the box mesh for the three side lengths.
#[verifier::external_body]
pub(crate) fn generate_box(length: &Vec3) -> (mesh: Mesh)
    ensures
        mesh == box_mesh(*length),
{
    Mesh::from(shape::Box::new(length.x, length.y, length.z))
}

/// `Transform::mul_transform`: the placement whose translation is the inner
/// translation scaled, rotated and moved by the outer placement, and whose
/// rotation and scale are the products of the two rotations and of the two
/// scales. The result depends on nothing but the two placements.
pub assume_specification[ Transform::mul_transform ](
    outer: &Transform,
    inner: Transform,
) -> (product: Transform)
    ensures
        product == composed(*outer, inner),
;

/// `transform` is the identity: no translation, no rotation, scale one.
pub uninterp spec fn is_identity(transform: Transform) -> bool;

/// `lengths` is one in every component.
pub uninterp spec fn is_one(lengths: Vec3) -> bool;

/// `Transform::identity`: the identity.
pub assume_specification[ Transform::identity ]() -> (transform: Transform)
    ensures
        is_identity(transform),
;

/// `Vec3::ONE`: one in every component.
#[verifier::external_body]
pub(crate) fn unit_lengths() -> (lengths: Vec3)
    ensures
        is_one(lengths),
{
    Vec3::ONE
}

/// A box with its side lengths and its local placement.
pub struct Box {
    pub length: Vec3,
    pub transform: Transform,
}

impl Box {
    /// A box with the given side lengths, placed by the identity.
    pub fn new(length: Vec3) -> (node: Self)
        ensures
            node.length == length,
            is_identity(node.transform),
    {
        Box { length, transform: Transform::identity() }
    }

    pub fn with_transform(self, transform: Transform) -> (node: Self)
        ensures
            node.length == self.length,
            node.transform == transform,
    {
        let mut node = self;
        node.transform = transform;
        node
    }

    /// Adds the node to `store`.
    pub fn spawn(self, store: &mut NodeStore) -> (spawned: SpawnedNode)
        ensures
            final(store).spawned_from(*old(store), Node(Behavior::Box(self))),
            spawned.id.0 == old(store).nodes@.len(),
            old(store).back_refs_are_sinks() ==> final(store).back_refs_are_sinks(),
            acyclic(old(store).graph()) ==> acyclic(final(store).graph()),
    {
        SpawnedNode { id: store.spawn(Node(Behavior::Box(self))) }
    }

    /// The accumulator after this box was processed on `before`: one more
    /// mesh at the end, and the box's placement composed onto the running
    /// one, or taken as it is where there was none.
    pub open spec fn produced(self, before: ProcessObjectView) -> ProcessObjectView {
        ProcessObjectView {
            meshes: before.meshes.push(box_mesh(self.length)),
            transform: Some(
                match before.transform {
                    Some(existing) => composed(existing, self.transform),
                    None => self.transform,
                },
            ),
            ..before
        }
    }

}

impl CommonNode for Box {
    /// The outcome is fixed: `produced`.
    open spec fn processed(
        &self,
        id: NodeId,
        answers: spec_fn(ByNormalSelector, Vec3, bool) -> bool,
        before: ProcessObjectView,
        after: ProcessObjectView,
    ) -> bool {
        after == self.produced(before)
    }

    fn process<F: Fn(&ByNormalSelector, &Vec3) -> bool>(
        &self,
        id: NodeId,
        object: &mut ProcessObject,
        is_selected: &F,
    ) {
        object.meshes.push(generate_box(&self.length));
        let transform = match &object.transform {
            Some(existing) => existing.mul_transform(self.transform),
            None => self.transform,
        };
        object.transform = Some(transform);
    }
}

impl Default for Box {
    /// The unit box, placed by the identity.
    fn default() -> (node: Self)
        ensures
            is_one(node.length),
            is_identity(node.transform),
    {
        Box::new(unit_lengths())
    }
}

} // verus!
