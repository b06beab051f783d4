//! The node store: it owns the nodes, their input edges and their
//! back-reference sets. Nodes are never removed.

use crate::node::{Behavior, Final, Finals, Node, NodeId, TypedNode};
use crate::process::{Artifact, PbrState};
use crate::walk::{
    acyclic, blocked, lemma_blocked_cyclic, lemma_linked_acyclic, lemma_no_nodes_acyclic,
    lemma_pending_placed, lemma_spawned_acyclic, no_dependents, pending, ranked, walk_of,
    Vertex,
};
use bevy::pbr::StandardMaterial;
use vstd::prelude::*;

verus! {

/// What the store keeps of one node.
pub struct NodeEntry {
    pub node: Node,
    /// The nodes whose output this node consumes, in the order of linking.
    pub inputs: Vec<NodeId>,
    /// The sinks that a walk has led to this node.
    pub finals: Finals,
}

impl NodeEntry {
    /// The node as a walk sees it.
    pub open spec fn vertex(self) -> Vertex {
        Vertex {
            producer: if self.node.is_final() {
                None
            } else {
                Some(self.node)
            },
            inputs: Seq::new(self.inputs@.len(), |k: int| self.inputs@[k].0),
        }
    }
}

/// The nodes of one graph. The node with id `i` stands at position `i`.
pub struct NodeStore {
    pub nodes: Vec<NodeEntry>,
}

impl NodeStore {
    /// The graph that a walk goes over.
    pub open spec fn graph(self) -> Seq<Vertex> {
        Seq::new(self.nodes@.len(), |n: int| self.nodes@[n].vertex())
    }

    /// The back-reference set of node `n`.
    pub open spec fn back_refs(self, n: int) -> Set<usize> {
        self.nodes@[n].finals@
    }

    /// `n` is a node of kind `T`.
    pub open spec fn holds<T: TypedNode>(self, n: int) -> bool {
        0 <= n < self.nodes@.len() && T::of(self.nodes@[n].node) is Some
    }

    /// `n` is a sink.
    pub open spec fn is_sink(self, n: int) -> bool {
        0 <= n < self.nodes@.len() && self.nodes@[n].node.is_final()
    }

    /// The cache state of sink `n`.
    pub open spec fn state(self, n: int) -> PbrState {
        self.nodes@[n].node.0->Final_0.pbr_state
    }

    /// The cached artifact of sink `n`.
    pub open spec fn artifact(self, n: int) -> Artifact {
        self.nodes@[n].node.0->Final_0.pbr
    }

    /// `n` is a sink whose artifact has to be calculated.
    pub open spec fn stale(self, n: int) -> bool {
        self.is_sink(n) && self.state(n) == PbrState::NotCalculated
    }

    /// Every element of every back-reference set is a sink of this store.
    pub open spec fn back_refs_are_sinks(self) -> bool {
        forall|n: int, s: usize|
            0 <= n < self.nodes@.len() && #[trigger] self.back_refs(n).contains(s)
                ==> self.is_sink(s as int)
    }

    /// Every back reference was left by a walk: what stands in the set of a
    /// node is a sink whose walk enters the node.
    pub open spec fn back_refs_recorded(self) -> bool {
        forall|n: usize, s: usize|
            n < self.nodes@.len() && #[trigger] self.back_refs(n as int).contains(s)
                ==> self.is_sink(s as int) && walk_of(self.graph(), s).entered.contains(n)
    }

    /// No back reference is missing: every node that the walk of a
    /// calculated sink enters has the sink in its set.
    pub open spec fn back_refs_complete(self) -> bool {
        forall|s: usize, n: usize|
            self.is_sink(s as int) && self.state(s as int) == PbrState::Calculated && n
                < self.nodes@.len() && #[trigger] walk_of(self.graph(), s).entered.contains(n)
                ==> self.back_refs(n as int).contains(s)
    }

    /// This store is `before` after a walk for `sink` that entered the
    /// nodes `entered`: each of them has `sink` in its back-reference set,
    /// and nothing else differs.
    pub open spec fn stamped_from(self, before: NodeStore, sink: usize, entered: Seq<usize>) -> bool {
        &&& self.nodes@.len() == before.nodes@.len()
        &&& self.graph() == before.graph()
        &&& forall|n: int|
            0 <= n < self.nodes@.len() ==> {
                &&& (#[trigger] self.nodes@[n]).node == before.nodes@[n].node
                &&& self.nodes@[n].inputs == before.nodes@[n].inputs
                &&& self.back_refs(n) == if entered.contains(n as usize) {
                    before.back_refs(n).insert(sink)
                } else {
                    before.back_refs(n)
                }
            }
    }

    /// Two walks for one sink, one after the other, stamp what one walk that
    /// entered the nodes of both would.
    pub proof fn lemma_stamped_join(
        self,
        middle: NodeStore,
        before: NodeStore,
        sink: usize,
        first: Seq<usize>,
        second: Seq<usize>,
    )
        requires
            middle.stamped_from(before, sink, first),
            self.stamped_from(middle, sink, second),
        ensures
            self.stamped_from(before, sink, first + second),
    {
        let entered = first + second;
        assert forall|n: int| 0 <= n < self.nodes@.len() implies {
            &&& (#[trigger] self.nodes@[n]).node == before.nodes@[n].node
            &&& self.nodes@[n].inputs == before.nodes@[n].inputs
            &&& self.back_refs(n) == if entered.contains(n as usize) {
                before.back_refs(n).insert(sink)
            } else {
                before.back_refs(n)
            }
        } by {
            assert(middle.nodes@[n].node == before.nodes@[n].node);
            if first.contains(n as usize) {
                let at = choose|at: int| 0 <= at < first.len() && first[at] == n as usize;
                assert(entered[at] == n as usize);
            }
            if second.contains(n as usize) {
                let at = choose|at: int| 0 <= at < second.len() && second[at] == n as usize;
                assert(entered[first.len() + at] == n as usize);
            }
            if entered.contains(n as usize) {
                let at = choose|at: int| 0 <= at < entered.len() && entered[at] == n as usize;
                if at < first.len() {
                    assert(first[at] == n as usize);
                } else {
                    assert(second[at - first.len()] == n as usize);
                }
            }
            assert(self.back_refs(n) =~= if entered.contains(n as usize) {
                before.back_refs(n).insert(sink)
            } else {
                before.back_refs(n)
            });
        }
    }

    /// This store is `before` with `dependencies` appended to the inputs of
    /// node `consumer`; nothing else differs.
    pub open spec fn linked_from(
        self,
        before: NodeStore,
        consumer: int,
        dependencies: Seq<NodeId>,
    ) -> bool {
        &&& self.nodes@.len() == before.nodes@.len()
        &&& forall|n: int|
            0 <= n < before.nodes@.len() && n != consumer ==> self.nodes@[n] == before.nodes@[n]
        &&& self.nodes@[consumer].node == before.nodes@[consumer].node
        &&& self.nodes@[consumer].finals == before.nodes@[consumer].finals
        &&& self.nodes@[consumer].inputs@ == before.nodes@[consumer].inputs@ + dependencies
    }

    /// This store is `before` with `node` in the place of the node `at`;
    /// nothing else differs.
    pub open spec fn written_from(self, before: NodeStore, at: int, node: Node) -> bool {
        &&& self.nodes@.len() == before.nodes@.len()
        &&& forall|n: int|
            0 <= n < before.nodes@.len() && n != at ==> self.nodes@[n] == before.nodes@[n]
        &&& self.nodes@[at].inputs == before.nodes@[at].inputs
        &&& self.nodes@[at].finals == before.nodes@[at].finals
        &&& self.nodes@[at].node == node
    }

    /// This store is `before` with `node` added behind its nodes, without
    /// inputs and with an empty back-reference set.
    pub open spec fn spawned_from(self, before: NodeStore, node: Node) -> bool {
        &&& self.nodes@.len() == before.nodes@.len() + 1
        &&& self.nodes@.drop_last() == before.nodes@
        &&& self.nodes@.last().node == node
        &&& self.nodes@.last().inputs@ == Seq::<NodeId>::empty()
        &&& self.nodes@.last().finals@ == Set::<usize>::empty()
    }

    /// What spawning does to the graph: one more node, without inputs.
    pub proof fn lemma_spawned_graph(self, before: NodeStore, node: Node)
        requires
            self.spawned_from(before, node),
        ensures
            self.graph().len() == before.graph().len() + 1,
            self.graph().drop_last() == before.graph(),
            self.graph().last().inputs.len() == 0,
    {
        assert forall|n: int| 0 <= n < before.nodes@.len() implies self.graph().drop_last()[n]
            == before.graph()[n] by {
            assert(self.nodes@.drop_last()[n] == self.nodes@[n]);
        }
        assert(self.graph().drop_last() =~= before.graph());
    }

    /// Linking keeps a graph free of cycles where nothing depends on the
    /// consumer yet and the consumer is not among its new inputs.
    pub proof fn lemma_linked_graph(
        self,
        before: NodeStore,
        consumer: usize,
        dependencies: Seq<NodeId>,
    )
        requires
            consumer < before.nodes@.len(),
            self.linked_from(before, consumer as int, dependencies),
            acyclic(before.graph()),
            no_dependents(before.graph(), consumer),
            !dependencies.contains(NodeId(consumer)),
        ensures
            acyclic(self.graph()),
    {
        let ids = Seq::new(dependencies.len(), |k: int| dependencies[k].0);
        if ids.contains(consumer) {
            let k = choose|k: int| 0 <= k < ids.len() && ids[k] == consumer;
            assert(dependencies[k] == NodeId(consumer));
        }
        assert(self.graph()[consumer as int].inputs =~= before.graph()[consumer as int].inputs
            + ids);
        assert forall|a: int| 0 <= a < before.graph().len() && a != consumer implies self.graph()[a]
            == before.graph()[a] by {
            assert(self.nodes@[a] == before.nodes@[a]);
        }
        lemma_linked_acyclic(before.graph(), self.graph(), consumer, ids);
    }

    /// A store without nodes.
    pub fn new() -> (store: Self)
        ensures
            store.nodes@.len() == 0,
            store.back_refs_are_sinks(),
            store.back_refs_recorded(),
            store.back_refs_complete(),
            acyclic(store.graph()),
    {
        let store = NodeStore { nodes: Vec::new() };
        proof {
            lemma_no_nodes_acyclic(store.graph());
        }
        store
    }

    /// The number of nodes.
    pub fn len(&self) -> (n: usize)
        ensures
            n == self.nodes@.len(),
    {
        self.nodes.len()
    }

    /// Adds a node without inputs and with an empty back-reference set. Its
    /// id is the number of nodes that the store held before.
    pub fn spawn(&mut self, node: Node) -> (id: NodeId)
        ensures
            id.0 == old(self).nodes@.len(),
            final(self).spawned_from(*old(self), node),
            old(self).back_refs_are_sinks() ==> final(self).back_refs_are_sinks(),
            acyclic(old(self).graph()) ==> acyclic(final(self).graph()),
    {
        let id = NodeId(self.nodes.len());
        self.nodes.push(NodeEntry { node, inputs: Vec::new(), finals: Finals::default() });
        assert(self.nodes@.drop_last() =~= old(self).nodes@);
        proof {
            if old(self).back_refs_are_sinks() {
                assert forall|n: int, s: usize|
                    0 <= n < self.nodes@.len() && #[trigger] self.back_refs(n).contains(
                        s,
                    ) implies self.is_sink(s as int) by {
                    assert(n < old(self).nodes@.len());
                    assert(self.nodes@.drop_last()[n] == self.nodes@[n]);
                    assert(old(self).back_refs(n).contains(s));
                    assert(self.nodes@.drop_last()[s as int] == self.nodes@[s as int]);
                }
            }
            if acyclic(old(self).graph()) {
                self.lemma_spawned_graph(*old(self), node);
                lemma_spawned_acyclic(old(self).graph(), self.graph());
            }
        }
        id
    }

    /// Appends `dependencies` to the inputs of `consumer`. Nothing else
    /// changes: back references are set by evaluation, not by linking.
    pub fn link(&mut self, consumer: NodeId, dependencies: &[NodeId])
        requires
            consumer.0 < old(self).nodes@.len(),
        ensures
            final(self).linked_from(*old(self), consumer.0 as int, dependencies@),
            old(self).back_refs_are_sinks() ==> final(self).back_refs_are_sinks(),
            acyclic(old(self).graph()) && no_dependents(old(self).graph(), consumer.0)
                && !dependencies@.contains(consumer) ==> acyclic(final(self).graph()),
    {
        let mut k: usize = 0;
        while k < dependencies.len()
            invariant
                k <= dependencies.len(),
                consumer.0 < self.nodes@.len(),
                self.nodes@.len() == old(self).nodes@.len(),
                forall|n: int|
                    0 <= n < old(self).nodes@.len() && n != consumer.0 ==> self.nodes@[n] == old(
                        self,
                    ).nodes@[n],
                self.nodes@[consumer.0 as int].node == old(self).nodes@[consumer.0 as int].node,
                self.nodes@[consumer.0 as int].finals == old(self).nodes@[consumer.0 as int].finals,
                self.nodes@[consumer.0 as int].inputs@ == old(
                    self,
                ).nodes@[consumer.0 as int].inputs@ + dependencies@.take(k as int),
            decreases dependencies.len() - k,
        {
            self.nodes[consumer.0].inputs.push(dependencies[k]);
            assert(dependencies@.take(k + 1) =~= dependencies@.take(k as int).push(
                dependencies@[k as int],
            ));
            k = k + 1;
        }
        assert(dependencies@.take(k as int) =~= dependencies@);
        proof {
            if old(self).back_refs_are_sinks() {
                assert forall|n: int, s: usize|
                    0 <= n < self.nodes@.len() && #[trigger] self.back_refs(n).contains(
                        s,
                    ) implies self.is_sink(s as int) by {
                    if n != consumer.0 {
                        assert(self.nodes@[n] == old(self).nodes@[n]);
                    }
                    assert(old(self).back_refs(n).contains(s));
                    if s != consumer.0 {
                        assert(self.nodes@[s as int] == old(self).nodes@[s as int]);
                    }
                }
            }
            if acyclic(old(self).graph()) && no_dependents(old(self).graph(), consumer.0)
                && !dependencies@.contains(consumer) {
                self.lemma_linked_graph(*old(self), consumer.0, dependencies@);
            }
        }
    }

    /// The node named by `id`, if there is one.
    pub fn get(&self, id: NodeId) -> (node: Option<&Node>)
        ensures
            node is Some == (id.0 < self.nodes@.len()),
            node matches Some(found) ==> *found == self.nodes@[id.0 as int].node,
    {
        if id.0 < self.nodes.len() {
            Some(&self.nodes[id.0].node)
        } else {
            None
        }
    }

    /// The sink named by `id`, if `id` names a sink.
    pub fn sink(&self, id: NodeId) -> (sink: Option<&Final>)
        ensures
            sink is Some == self.is_sink(id.0 as int),
            sink matches Some(found) ==> *found == self.nodes@[id.0 as int].node.0->Final_0,
    {
        if id.0 < self.nodes.len() {
            match &self.nodes[id.0].node.0 {
                Behavior::Final(found) => Some(found),
                _ => None,
            }
        } else {
            None
        }
    }

    /// The cached artifact of the sink named by `id`.
    pub fn artifact_of(&self, id: NodeId) -> (artifact: Option<&Artifact>)
        ensures
            artifact is Some == self.is_sink(id.0 as int),
            artifact matches Some(found) ==> *found == self.artifact(id.0 as int),
    {
        match self.sink(id) {
            Some(found) => Some(&found.pbr),
            None => None,
        }
    }

    /// The material of the artifact of sink `n`: the description held by
    /// the material node that the artifact names, as that node holds it now.
    pub open spec fn material(self, n: int) -> Option<StandardMaterial> {
        if self.is_sink(n) {
            match self.artifact(n).material {
                Some(id) => if id.0 < self.nodes@.len() {
                    match self.nodes@[id.0 as int].node.0 {
                        Behavior::Material(holder) => Some(holder.material),
                        _ => None,
                    }
                } else {
                    None
                },
                None => None,
            }
        } else {
            None
        }
    }

    /// The material of the cached artifact of the sink named by `id`;
    /// `None` where `id` names no sink or the artifact has no material.
    pub fn material_of(&self, id: NodeId) -> (material: Option<&StandardMaterial>)
        ensures
            material is Some == self.material(id.0 as int) is Some,
            material matches Some(found) ==> self.material(id.0 as int) == Some(*found),
    {
        match self.artifact_of(id) {
            Some(artifact) => match artifact.material {
                Some(holder) => match self.get(holder) {
                    Some(node) => match &node.0 {
                        Behavior::Material(found) => Some(&found.material),
                        _ => None,
                    },
                    None => None,
                },
                None => None,
            },
            None => None,
        }
    }

    /// The cache state of the sink named by `id`.
    pub fn state_of(&self, id: NodeId) -> (state: Option<PbrState>)
        ensures
            state is Some == self.is_sink(id.0 as int),
            state matches Some(found) ==> found == self.state(id.0 as int),
    {
        match self.sink(id) {
            Some(found) => Some(found.pbr_state),
            None => None,
        }
    }

    /// Whether every input of node `at` that is a node is placed.
    fn ready(&self, placed: &Vec<bool>, at: usize) -> (ready: bool)
        requires
            at < self.nodes@.len(),
            placed@.len() == self.nodes@.len(),
        ensures
            ready == !blocked(self.graph(), placed@, at as int),
    {
        let ghost graph = self.graph();
        let inputs = &self.nodes[at].inputs;
        let mut k: usize = 0;
        while k < inputs.len()
            invariant
                k <= inputs.len(),
                at < self.nodes@.len(),
                graph == self.graph(),
                inputs@ == self.nodes@[at as int].inputs@,
                placed@.len() == self.nodes@.len(),
                forall|j: int|
                    0 <= j < k ==> !((#[trigger] graph[at as int].inputs[j]) < graph.len()
                        && !placed@[graph[at as int].inputs[j] as int]),
            decreases inputs.len() - k,
        {
            let input = inputs[k].0;
            assert(graph[at as int].inputs[k as int] == input);
            if input < self.nodes.len() && !placed[input] {
                return false;
            }
            k = k + 1;
        }
        true
    }

    /// Whether the graph is free of cycles, which is what an evaluation
    /// asks for. The nodes are placed one after the other, each after all
    /// its inputs; a cycle shows in nodes that can never be placed.
    pub fn is_acyclic(&self) -> (free: bool)
        ensures
            free == acyclic(self.graph()),
    {
        let ghost graph = self.graph();
        let count = self.nodes.len();
        let mut placed: Vec<bool> = Vec::new();
        while placed.len() < count
            invariant
                placed@.len() <= count,
                forall|a: int| 0 <= a < placed@.len() ==> !placed@[a],
            decreases count - placed@.len(),
        {
            placed.push(false);
        }
        let ghost mut rank: Seq<nat> = Seq::new(count as nat, |a: int| 0nat);
        let ghost mut next: nat = 0;
        let mut stuck = false;
        while !stuck
            invariant
                count == self.nodes@.len(),
                graph == self.graph(),
                placed@.len() == count,
                rank.len() == count,
                forall|a: int| 0 <= a < count && placed@[a] ==> rank[a] < next,
                forall|a: int, k: int|
                    0 <= a < count && placed@[a] && 0 <= k < graph[a].inputs.len() && (
                    #[trigger] graph[a].inputs[k]) < count ==> placed@[graph[a].inputs[k] as int]
                        && rank[graph[a].inputs[k] as int] < rank[a],
                stuck ==> forall|a: int|
                    0 <= a < count && !placed@[a] ==> blocked(graph, placed@, a),
            decreases pending(placed@) + (if stuck { 0nat } else { 1nat }),
        {
            let ghost round = placed@;
            let mut progress = false;
            let mut at: usize = 0;
            while at < count
                invariant
                    at <= count,
                    count == self.nodes@.len(),
                    graph == self.graph(),
                    placed@.len() == count,
                    rank.len() == count,
                    forall|a: int| 0 <= a < count && placed@[a] ==> rank[a] < next,
                    forall|a: int, k: int|
                        0 <= a < count && placed@[a] && 0 <= k < graph[a].inputs.len() && (
                        #[trigger] graph[a].inputs[k]) < count ==> placed@[graph[a].inputs[k] as int]
                            && rank[graph[a].inputs[k] as int] < rank[a],
                    !progress ==> placed@ == round,
                    !progress ==> forall|a: int|
                        0 <= a < at && !placed@[a] ==> blocked(graph, placed@, a),
                    progress ==> pending(placed@) < pending(round),
                    pending(placed@) <= pending(round),
                decreases count - at,
            {
                if !placed[at] && self.ready(&placed, at) {
                    proof {
                        lemma_pending_placed(placed@, at as int);
                        rank = rank.update(at as int, next);
                        next = next + 1;
                    }
                    placed.set(at, true);
                    progress = true;
                }
                at = at + 1;
            }
            if !progress {
                stuck = true;
            }
        }
        let mut at: usize = 0;
        while at < count
            invariant
                at <= count,
                placed@.len() == count,
                graph.len() == count,
                graph == self.graph(),
                forall|a: int| 0 <= a < at ==> placed@[a],
                forall|a: int| 0 <= a < count && !placed@[a] ==> blocked(graph, placed@, a),
            decreases count - at,
        {
            if !placed[at] {
                proof {
                    lemma_blocked_cyclic(graph, placed@, at as int);
                }
                return false;
            }
            at = at + 1;
        }
        assert(ranked(graph, rank));
        true
    }
}

impl Default for NodeStore {
    fn default() -> (store: Self)
        ensures
            store.nodes@.len() == 0,
            store.back_refs_are_sinks(),
            store.back_refs_recorded(),
            store.back_refs_complete(),
            acyclic(store.graph()),
    {
        NodeStore::new()
    }
}

} // verus!
