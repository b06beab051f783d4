//! A procedural computation graph: typed production nodes feed sinks, which
//! cache the artifact accumulated from their inputs until a mutation of one of
//! those inputs makes it stale.
//!
//! Nodes live in a [`NodeStore`] and are named in a [`Registry`]. One
//! [`tick`] applies the pending [`UpdateEvent`]s and evaluates every stale
//! sink. Nodes are changed through a [`FetchMut`], whose release sends the
//! events for the sinks that depend on the node.

pub mod engine;
pub mod entity;
pub mod invalidation;
pub mod node;
pub mod process;
pub mod store;
pub mod walk;

pub use self::entity::{
    find_entity, store_entity, Fetch, FetchMut, FetchMutView, FetchingNode, Registry,
};
pub use self::node::{
    CommonNode, Node, NodeId, PrimitiveType, SpawnedNode, TypedNode, UpdateEvent,
};
pub use self::process::{
    finalize, tick, Artifact, EvalError, NamedSelections, PbrState, ProcessObject,
    ProcessObjectView, Selection,
};
pub use self::store::{NodeEntry, NodeStore};
