//! The engine types that travel through the graph. Their insides are not
//! visible to the verifier: a value is carried, compared for equality, and
//! handed back to the engine.

use vstd::prelude::*;

verus! {

/// Renderable geometry (`bevy::render::mesh::Mesh`).
#[verifier::external_type_specification]
#[verifier::external_body]
pub struct ExMesh(bevy::render::mesh::Mesh);

/// A PBR material description (`bevy::pbr::StandardMaterial`).
#[verifier::external_type_specification]
#[verifier::external_body]
pub struct ExStandardMaterial(bevy::pbr::StandardMaterial);

/// A local placement: translation, rotation and scale (`bevy::transform::components::Transform`).
#[verifier::external_type_specification]
#[verifier::external_body]
pub struct ExTransform(bevy::transform::components::Transform);

/// A placement in the global frame (`bevy::transform::components::GlobalTransform`).
#[verifier::external_type_specification]
#[verifier::external_body]
pub struct ExGlobalTransform(bevy::transform::components::GlobalTransform);

/// Three single-precision components (`bevy::math::Vec3`).
#[verifier::external_type_specification]
#[verifier::external_body]
pub struct ExVec3(bevy::math::Vec3);

} // verus!
