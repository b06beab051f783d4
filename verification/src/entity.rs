//! The registry of node names, and typed access to the nodes of a store.

use crate::node::NodeId;
use dashmap::DashMap;
use vstd::prelude::*;

pub mod fetch;

pub use self::fetch::{Fetch, FetchMut, FetchMutView, FetchingNode};

verus! {

/// The concurrent hash map that stores the names (`dashmap::DashMap`).
#[verifier::external_type_specification]
#[verifier::external_body]
#[verifier::reject_recursive_types(K)]
#[verifier::reject_recursive_types(V)]
#[verifier::reject_recursive_types(S)]
pub struct ExDashMap<K, V, S>(DashMap<K, V, S>);

/// The names that a map holds, each with the position of the node it names.
pub uninterp spec fn registered(names: DashMap<String, usize>) -> Map<Seq<char>, usize>;

/// The registry's content when no name was stored.
pub open spec fn nothing_registered() -> Map<Seq<char>, usize> {
    Map::empty()
}

/// `DashMap::new`: a map that holds nothing.
#[verifier::external_body]
fn no_names() -> (names: DashMap<String, usize>)
    ensures
        registered(names) == nothing_registered(),
{
    DashMap::new()
}

/// `DashMap::insert`: afterwards the key maps to the value, whatever it
/// mapped to before, and the other keys are as they were.
#[verifier::external_body]
fn insert_name(names: &mut DashMap<String, usize>, name: String, at: usize)
    ensures
        registered(*final(names)) == registered(*old(names)).insert(name@, at),
{
    names.insert(name, at);
}

/// `DashMap::get`: a copy of the value that the key maps to, if it maps to
/// one.
#[verifier::external_body]
fn lookup_name(names: &DashMap<String, usize>, name: &str) -> (at: Option<usize>)
    ensures
        at == if registered(*names).dom().contains(name@) {
            Some(registered(*names)[name@])
        } else {
            None
        },
{
    names.get(name).map(|found| *found)
}

/// Maps names to nodes. A name maps to at most one node: storing a name
/// anew replaces what it mapped to.
pub struct Registry {
    names: DashMap<String, usize>,
}

impl View for Registry {
    type V = Map<Seq<char>, usize>;

    closed spec fn view(&self) -> Self::V {
        registered(self.names)
    }
}

impl Registry {
    /// A registry without names.
    pub fn new() -> (registry: Self)
        ensures
            registry@ == nothing_registered(),
    {
        Registry { names: no_names() }
    }
}

impl Default for Registry {
    fn default() -> (registry: Self)
        ensures
            registry@ == nothing_registered(),
    {
        Registry::new()
    }
}

/// Lets `name` map to `entity`.
pub fn store_entity(registry: &mut Registry, name: String, entity: NodeId)
    ensures
        final(registry)@ == old(registry)@.insert(name@, entity.0),
{
    insert_name(&mut registry.names, name, entity.0);
}

/// The node that `name` maps to, if it maps to one.
pub fn find_entity(registry: &Registry, name: &str) -> (entity: Option<NodeId>)
    ensures
        entity == if registry@.dom().contains(name@) {
            Some(NodeId(registry@[name@]))
        } else {
            None
        },
{
    match lookup_name(&registry.names, name) {
        Some(at) => Some(NodeId(at)),
        None => None,
    }
}

} // verus!
