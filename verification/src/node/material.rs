//! The material node: it holds a material description and, when it is
//! processed, enters itself in the accumulator as the bearer of that
//! description.

use crate::node::{Behavior, ByNormalSelector, CommonNode, Node, NodeId, SpawnedNode};
use crate::process::{ProcessObject, ProcessObjectView};
use crate::store::NodeStore;
use crate::walk::acyclic;
use bevy::math::Vec3;
use bevy::pbr::StandardMaterial;
use vstd::prelude::*;

verus! {

/// Marks a node as a material.
#[derive(Copy, Clone)]
pub struct MaterialType;

/// `material` is the engine's default material: plain white, untextured.
pub uninterp spec fn is_default_material(material: StandardMaterial) -> bool;

/// `StandardMaterial::default`: the default material.
pub assume_specification[ <StandardMaterial as Default>::default ]() -> (material:
    StandardMaterial)
    ensures
        is_default_material(material),
;

/// A material description. It may hold handles to textures, which tie it to
/// the engine's asset server; the library therefore never copies it, and
/// refers to it by the id of the node that holds it.
pub struct Material {
    pub material: StandardMaterial,
}

impl Material {
    pub fn new(material: StandardMaterial) -> (node: Self)
        ensures
            node.material == material,
    {
        Material { material }
    }

    /// Adds the node to `store`.
    pub fn spawn(self, store: &mut NodeStore) -> (spawned: SpawnedNode)
        ensures
            final(store).spawned_from(*old(store), Node(Behavior::Material(self))),
            spawned.id.0 == old(store).nodes@.len(),
            old(store).back_refs_are_sinks() ==> final(store).back_refs_are_sinks(),
            acyclic(old(store).graph()) ==> acyclic(final(store).graph()),
    {
        SpawnedNode { id: store.spawn(Node(Behavior::Material(self))) }
    }

    /// The accumulator after the material node `id` was processed on
    /// `before`: one more material at the end, the one that `id` holds.
    pub open spec fn produced(id: NodeId, before: ProcessObjectView) -> ProcessObjectView {
        ProcessObjectView { materials: before.materials.push(id), ..before }
    }
}

impl CommonNode for Material {
    /// The outcome is fixed: `produced`.
    open spec fn processed(
        &self,
        id: NodeId,
        answers: spec_fn(ByNormalSelector, Vec3, bool) -> bool,
        before: ProcessObjectView,
        after: ProcessObjectView,
    ) -> bool {
        after == Material::produced(id, before)
    }

    fn process<F: Fn(&ByNormalSelector, &Vec3) -> bool>(
        &self,
        id: NodeId,
        object: &mut ProcessObject,
        is_selected: &F,
    ) {
        object.materials.push(id);
    }
}

impl Default for Material {
    fn default() -> (node: Self)
        ensures
            is_default_material(node.material),
    {
        Material { material: StandardMaterial::default() }
    }
}

} // verus!
