//! The cache state of a sink, the accumulator filled while a sink's inputs are
//! walked, and the artifact derived from it.

use crate::invalidation::lemma_finalized_keeps;
use crate::node::selection_group::{lemma_recorded_all_distinct, names_distinct};
use crate::node::sink::{final_update, invalidated, unmatched};
use crate::node::surface::box_mesh;
use crate::node::{
    answers_of, Behavior, ByNormalSelector, CommonNode, Final, Material, Node, NodeId,
    UpdateEvent,
};
use crate::store::NodeStore;
use crate::walk::{
    accumulated, acyclic, is_path, lemma_accumulated_join, lemma_entered_reached,
    lemma_inputs_entered_reached, lemma_inputs_reached_entered, lemma_walk_inputs_failed,
    lemma_walk_inputs_producers, rank_of, reaches, walk_inputs, walk_node, walk_of, Vertex, Walk,
};
use bevy::math::Vec3;
use bevy::render::mesh::Mesh;
use bevy::transform::components::{GlobalTransform, Transform};
use vstd::prelude::*;

verus! {

/// Whether a sink's cached artifact is up to date.
#[derive(Debug, Copy, Clone, PartialEq, Eq, Structural)]
pub enum PbrState {
    NotCalculated,
    Calculated,
}

impl Default for PbrState {
    fn default() -> (state: Self)
        ensures
            state == PbrState::NotCalculated,
    {
        PbrState::NotCalculated
    }
}

impl PbrState {
    /// True exactly for `Calculated`.
    pub fn is_calculated(&self) -> (b: bool)
        ensures
            b == (*self == PbrState::Calculated),
    {
        matches!(self, PbrState::Calculated)
    }

    /// True exactly for `NotCalculated`.
    pub fn need_calculate(&self) -> (b: bool)
        ensures
            b == (*self == PbrState::NotCalculated),
    {
        !self.is_calculated()
    }
}

/// The vertices of one accumulated mesh that a selection group picked.
pub struct Selection {
    /// Position of the mesh in the accumulator.
    pub mesh: usize,
    /// The picked vertex indices, in the order in which they were found.
    pub indices: Vec<u32>,
}

impl View for Selection {
    type V = (usize, Seq<u32>);

    open spec fn view(&self) -> Self::V {
        (self.mesh, self.indices@)
    }
}

/// Everything recorded under one selection group's name.
pub struct NamedSelections {
    pub name: String,
    pub entries: Vec<Selection>,
}

impl View for NamedSelections {
    type V = (Seq<char>, Seq<(usize, Seq<u32>)>);

    open spec fn view(&self) -> Self::V {
        (self.name@, Seq::new(self.entries@.len(), |i: int| self.entries@[i]@))
    }
}

/// The views of the elements of `selections`, in their order.
pub open spec fn named_views(selections: Seq<NamedSelections>) -> Seq<
    (Seq<char>, Seq<(usize, Seq<u32>)>),
> {
    Seq::new(selections.len(), |i: int| selections[i]@)
}

/// What one walk over a sink's inputs has produced so far.
pub struct ProcessObject {
    pub meshes: Vec<Mesh>,
    /// One element per group name, in the order in which the names first
    /// occurred. No node lets a name occur twice.
    pub selections: Vec<NamedSelections>,
    /// The material nodes that were processed, each named by its id.
    pub materials: Vec<NodeId>,
    pub transform: Option<Transform>,
    pub global_transform: Option<GlobalTransform>,
}

/// The mathematical content of a [`ProcessObject`].
#[verifier::ext_equal]
pub struct ProcessObjectView {
    pub meshes: Seq<Mesh>,
    pub selections: Seq<(Seq<char>, Seq<(usize, Seq<u32>)>)>,
    pub materials: Seq<NodeId>,
    pub transform: Option<Transform>,
    pub global_transform: Option<GlobalTransform>,
}

impl View for ProcessObject {
    type V = ProcessObjectView;

    open spec fn view(&self) -> Self::V {
        ProcessObjectView {
            meshes: self.meshes@,
            selections: named_views(self.selections@),
            materials: self.materials@,
            transform: self.transform,
            global_transform: self.global_transform,
        }
    }
}

impl ProcessObjectView {
    /// The accumulator before anything was produced.
    pub open spec fn empty() -> Self {
        ProcessObjectView {
            meshes: Seq::empty(),
            selections: Seq::empty(),
            materials: Seq::empty(),
            transform: None,
            global_transform: None,
        }
    }

    /// The artifact this accumulator collapses to: of the meshes and of the
    /// materials the first one, if there is any, and the placements as they are.
    pub open spec fn artifact(self) -> Artifact {
        Artifact {
            mesh: if self.meshes.len() > 0 {
                Some(self.meshes[0])
            } else {
                None
            },
            material: if self.materials.len() > 0 {
                Some(self.materials[0])
            } else {
                None
            },
            transform: self.transform,
            global_transform: self.global_transform,
        }
    }
}

/// A sink's materialised result. A part that is `None` was not produced by any
/// input and is left to the consumer's default.
pub struct Artifact {
    pub mesh: Option<Mesh>,
    /// The id of the node that holds the material.
    pub material: Option<NodeId>,
    pub transform: Option<Transform>,
    pub global_transform: Option<GlobalTransform>,
}

impl Default for Artifact {
    fn default() -> (artifact: Self)
        ensures
            artifact == ProcessObjectView::empty().artifact(),
    {
        Artifact { mesh: None, material: None, transform: None, global_transform: None }
    }
}

impl Default for ProcessObject {
    fn default() -> (object: Self)
        ensures
            object@ == ProcessObjectView::empty(),
    {
        ProcessObject {
            meshes: Vec::new(),
            selections: Vec::new(),
            materials: Vec::new(),
            transform: None,
            global_transform: None,
        }
    }
}

impl ProcessObject {
    /// Collapses the accumulator into the parts of one PBR entity: the first
    /// mesh and the first material win, every later one is dropped.
    pub fn into_pbr(self) -> (artifact: Artifact)
        ensures
            artifact == self@.artifact(),
    {
        let ProcessObject { meshes, selections: _, materials, transform, global_transform } = self;
        let mut meshes = meshes;
        let mut materials = materials;
        let mesh = if meshes.len() > 0 {
            Some(meshes.remove(0))
        } else {
            None
        };
        let material = if materials.len() > 0 {
            Some(materials.remove(0))
        } else {
            None
        };
        Artifact { mesh, material, transform, global_transform }
    }
}

/// Why an evaluation pass was aborted. Either way the graph was built wrongly.
#[derive(Debug, Copy, Clone, PartialEq, Eq, Structural)]
pub enum EvalError {
    /// The walk for `sink` came to the id `node`, which names no node.
    DanglingEdge { sink: NodeId, node: NodeId },
    /// The walk for `sink` came to `node`, which is a sink itself: a sink is
    /// no input.
    SinkAsInput { sink: NodeId, node: NodeId },
}

impl EvalError {
    /// The sink whose walk failed.
    pub open spec fn spec_sink(&self) -> NodeId {
        match *self {
            EvalError::DanglingEdge { sink, .. } => sink,
            EvalError::SinkAsInput { sink, .. } => sink,
        }
    }

    /// The sink whose walk failed.
    #[verifier::when_used_as_spec(spec_sink)]
    pub fn sink(&self) -> (sink: NodeId)
        ensures
            sink == self.spec_sink(),
    {
        match self {
            EvalError::DanglingEdge { sink, .. } => *sink,
            EvalError::SinkAsInput { sink, .. } => *sink,
        }
    }

    /// The id at which the walk failed.
    pub open spec fn spec_node(&self) -> NodeId {
        match *self {
            EvalError::DanglingEdge { node, .. } => node,
            EvalError::SinkAsInput { node, .. } => node,
        }
    }

    /// The id at which the walk failed.
    #[verifier::when_used_as_spec(spec_node)]
    pub fn node(&self) -> (node: NodeId)
        ensures
            node == self.spec_node(),
    {
        match self {
            EvalError::DanglingEdge { node, .. } => *node,
            EvalError::SinkAsInput { node, .. } => *node,
        }
    }
}

/// The error for a walk of `sink` that failed at the id `at`.
pub open spec fn error_at(graph: Seq<Vertex>, sink: usize, at: usize) -> EvalError {
    if at < graph.len() {
        EvalError::SinkAsInput { sink: NodeId(sink), node: NodeId(at) }
    } else {
        EvalError::DanglingEdge { sink: NodeId(sink), node: NodeId(at) }
    }
}

/// What a walk of `sink` returns: success, or the error for the id at which
/// it failed.
pub open spec fn outcome(graph: Seq<Vertex>, sink: usize, walk: Walk) -> Result<(), EvalError> {
    match walk.failed {
        None => Ok(()),
        Some(at) => Err(error_at(graph, sink, at)),
    }
}

/// `steps` is a run of the nodes `produced` that leads from `before` to
/// `after`.
pub open spec fn run_through<F: Fn(&ByNormalSelector, &Vec3) -> bool>(
    is_selected: &F,
    graph: Seq<Vertex>,
    produced: Seq<usize>,
    steps: Seq<ProcessObjectView>,
    before: ProcessObjectView,
    after: ProcessObjectView,
) -> bool {
    &&& accumulated(is_selected, graph, produced, steps)
    &&& steps.first() == before
    &&& steps.last() == after
}

/// `after` is a possible outcome of letting the nodes `produced` produce on
/// `before`, one after the other.
pub open spec fn ran<F: Fn(&ByNormalSelector, &Vec3) -> bool>(
    is_selected: &F,
    graph: Seq<Vertex>,
    produced: Seq<usize>,
    before: ProcessObjectView,
    after: ProcessObjectView,
) -> bool {
    exists|steps: Seq<ProcessObjectView>| #[trigger]
        run_through(is_selected, graph, produced, steps, before, after)
}

/// `store`, `after` and `result` are a possible outcome of the walk `walk`
/// for the sink `sink` on `before_store` and `before`: the nodes it
/// entered have the sink in their back-reference sets, the nodes it let
/// produce have produced in their order, and the result tells where it
/// failed.
pub open spec fn walked<F: Fn(&ByNormalSelector, &Vec3) -> bool>(
    is_selected: &F,
    sink: usize,
    walk: Walk,
    before_store: NodeStore,
    store: NodeStore,
    before: ProcessObjectView,
    after: ProcessObjectView,
    result: Result<(), EvalError>,
) -> bool {
    &&& store.stamped_from(before_store, sink, walk.entered)
    &&& result == outcome(before_store.graph(), sink, walk)
    &&& ran(is_selected, before_store.graph(), walk.produced, before, after)
}

/// Walks the inputs of node `of`, in their order, for the sink `final_id`,
/// and stops at the first walk that fails.
pub fn process_inputs<F: Fn(&ByNormalSelector, &Vec3) -> bool>(
    final_id: NodeId,
    of: usize,
    store: &mut NodeStore,
    object: &mut ProcessObject,
    is_selected: &F,
) -> (result: Result<(), EvalError>)
    requires
        acyclic(old(store).graph()),
        of < old(store).nodes@.len(),
        forall|s: &ByNormalSelector, n: &Vec3| call_requires(is_selected, (s, n)),
    ensures
        walked(
            is_selected,
            final_id.0,
            walk_of(old(store).graph(), of),
            *old(store),
            *final(store),
            old(object)@,
            final(object)@,
            result,
        ),
    decreases rank_of(old(store).graph(), of), 0nat,
{
    let ghost graph = store.graph();
    let ghost mut steps: Seq<ProcessObjectView> = seq![object@];
    let count = store.nodes[of].inputs.len();
    assert(graph[of as int].inputs.len() == count);
    assert(store.stamped_from(*old(store), final_id.0, Seq::<usize>::empty()));
    assert(accumulated(is_selected, graph, Seq::<usize>::empty(), steps));
    let mut k: usize = 0;
    while k < count
        invariant
            k <= count,
            of < store.nodes@.len(),
            count == graph[of as int].inputs.len(),
            graph == old(store).graph(),
            acyclic(graph),
            store.stamped_from(*old(store), final_id.0, walk_inputs(graph, of, k as nat).entered),
            walk_inputs(graph, of, k as nat).failed is None,
            run_through(
                is_selected,
                graph,
                walk_inputs(graph, of, k as nat).produced,
                steps,
                old(object)@,
                object@,
            ),
            forall|s: &ByNormalSelector, n: &Vec3| call_requires(is_selected, (s, n)),
        decreases count - k,
    {
        let child = store.nodes[of].inputs[k];
        let ghost middle = *store;
        let ghost reached = object@;
        let ghost before = walk_inputs(graph, of, k as nat);
        let ghost below = walk_node(graph, child.0);
        assert(graph[of as int].inputs[k as int] == child.0);
        assert(walk_inputs(graph, of, (k + 1) as nat) == before.followed_by(below));
        let result = process_input(final_id, child, store, object, is_selected);
        proof {
            let part = choose|part: Seq<ProcessObjectView>| #[trigger]
                run_through(is_selected, graph, below.produced, part, reached, object@);
            store.lemma_stamped_join(
                middle,
                *old(store),
                final_id.0,
                before.entered,
                below.entered,
            );
            lemma_accumulated_join(
                is_selected,
                graph,
                before.produced,
                steps,
                below.produced,
                part,
            );
            steps = steps + part.drop_first();
        }
        if result.is_err() {
            proof {
                lemma_walk_inputs_failed(graph, of, (k + 1) as nat, count as nat);
                assert(run_through(
                    is_selected,
                    graph,
                    walk_of(graph, of).produced,
                    steps,
                    old(object)@,
                    object@,
                ));
            }
            return result;
        }
        k = k + 1;
    }
    assert(run_through(
        is_selected,
        graph,
        walk_of(graph, of).produced,
        steps,
        old(object)@,
        object@,
    ));
    Ok(())
}

/// Enters the node `input_id` for the sink `final_id`: the sink is added to
/// the node's back-reference set, then the node's inputs are walked in
/// their order, then the node produces. An id that names no node, or names
/// a sink, ends the walk with an error before anything is done; a walk of
/// an input that fails ends this walk with its error.
pub fn process_input<F: Fn(&ByNormalSelector, &Vec3) -> bool>(
    final_id: NodeId,
    input_id: NodeId,
    store: &mut NodeStore,
    object: &mut ProcessObject,
    is_selected: &F,
) -> (result: Result<(), EvalError>)
    requires
        acyclic(old(store).graph()),
        forall|s: &ByNormalSelector, n: &Vec3| call_requires(is_selected, (s, n)),
    ensures
        walked(
            is_selected,
            final_id.0,
            walk_node(old(store).graph(), input_id.0),
            *old(store),
            *final(store),
            old(object)@,
            final(object)@,
            result,
        ),
    decreases rank_of(old(store).graph(), input_id.0), 1nat,
{
    let ghost graph = store.graph();
    let ghost start = object@;
    let at = input_id.0;
    if at >= store.nodes.len() {
        assert(run_through(is_selected, graph, Seq::<usize>::empty(), seq![start], start, start));
        return Err(EvalError::DanglingEdge { sink: final_id, node: input_id });
    }
    if let Behavior::Final(_) = &store.nodes[at].node.0 {
        assert(run_through(is_selected, graph, Seq::<usize>::empty(), seq![start], start, start));
        return Err(EvalError::SinkAsInput { sink: final_id, node: input_id });
    }
    store.nodes[at].finals.0.insert(final_id.0);
    let ghost entered = *store;
    proof {
        assert(store.graph() =~= graph);
        assert(seq![at][0] == at);
        assert(store.stamped_from(*old(store), final_id.0, seq![at]));
    }
    let result = process_inputs(final_id, at, store, object, is_selected);
    let ghost inputs_done = object@;
    proof {
        store.lemma_stamped_join(
            entered,
            *old(store),
            final_id.0,
            seq![at],
            walk_of(graph, at).entered,
        );
    }
    if result.is_err() {
        return result;
    }
    store.nodes[at].node.process(input_id, object, is_selected);
    proof {
        let produced = walk_of(graph, at).produced;
        let below = choose|below: Seq<ProcessObjectView>| #[trigger]
            run_through(is_selected, graph, produced, below, start, inputs_done);
        assert(graph[at as int].producer == Some(store.nodes@[at as int].node));
        lemma_accumulated_join(
            is_selected,
            graph,
            produced,
            below,
            seq![at],
            seq![inputs_done, object@],
        );
        assert(below + seq![inputs_done, object@].drop_first() =~= below.push(object@));
        assert(produced + seq![at] =~= produced.push(at));
        assert(run_through(
            is_selected,
            graph,
            produced.push(at),
            below.push(object@),
            start,
            object@,
        ));
    }
    Ok(())
}

/// `steps` is a run of the walk for `sink` from the empty accumulator, and
/// `artifact` is what its last accumulator collapses to.
pub open spec fn evaluation<F: Fn(&ByNormalSelector, &Vec3) -> bool>(
    is_selected: &F,
    graph: Seq<Vertex>,
    sink: usize,
    steps: Seq<ProcessObjectView>,
    artifact: Artifact,
) -> bool {
    &&& accumulated(is_selected, graph, walk_of(graph, sink).produced, steps)
    &&& steps.first() == ProcessObjectView::empty()
    &&& artifact == steps.last().artifact()
}

/// `node` is the sink `sink` after its evaluation: calculated, with an
/// artifact that a run of its walk from the empty accumulator gives.
pub open spec fn sink_evaluated<F: Fn(&ByNormalSelector, &Vec3) -> bool>(
    is_selected: &F,
    graph: Seq<Vertex>,
    sink: usize,
    node: Node,
) -> bool {
    &&& node.0 matches Behavior::Final(cached)
    &&& cached.pbr_state == PbrState::Calculated
    &&& exists|steps: Seq<ProcessObjectView>| #[trigger]
        evaluation(is_selected, graph, sink, steps, cached.pbr)
}

/// The stale sinks with an id under `below` whose walk enters `node`.
pub open spec fn reaching(before: NodeStore, node: usize, below: int) -> Set<usize> {
    Set::new(
        |sink: usize|
            sink < below && before.stale(sink as int) && walk_of(
                before.graph(),
                sink,
            ).entered.contains(node),
    )
}

/// `after` is `before` after a pass that evaluated the stale sinks with an
/// id under `done`, each successfully, and walked those with an id under
/// `walked`. Every node that one of these walks entered has the sink in its
/// back-reference set. No other sink, no producing node and no edge
/// differs.
pub open spec fn passed<F: Fn(&ByNormalSelector, &Vec3) -> bool>(
    is_selected: &F,
    before: NodeStore,
    after: NodeStore,
    done: int,
    walked: int,
) -> bool {
    &&& after.nodes@.len() == before.nodes@.len()
    &&& after.graph() == before.graph()
    &&& forall|n: int|
        0 <= n < before.nodes@.len() ==> {
            &&& (#[trigger] after.nodes@[n]).inputs == before.nodes@[n].inputs
            &&& after.back_refs(n) == before.back_refs(n).union(reaching(before, n as usize, walked))
            &&& if n < done && before.stale(n) {
                &&& walk_of(before.graph(), n as usize).failed is None
                &&& sink_evaluated(is_selected, before.graph(), n as usize, after.nodes@[n].node)
            } else {
                after.nodes@[n].node == before.nodes@[n].node
            }
        }
}

/// `after` and `result` are a possible outcome of `finalize` on `before`.
///
/// On success every stale sink was evaluated. On an error the pass went
/// through the sinks in the order of their ids up to the first stale sink
/// whose walk fails: the sinks before it were evaluated, that sink's walk
/// has left its back references up to the point of failure, and the error
/// names the sink and the id at which its walk failed.
pub open spec fn finalized<F: Fn(&ByNormalSelector, &Vec3) -> bool>(
    is_selected: &F,
    before: NodeStore,
    after: NodeStore,
    result: Result<(), EvalError>,
) -> bool {
    match result {
        Ok(()) => passed(
            is_selected,
            before,
            after,
            before.nodes@.len() as int,
            before.nodes@.len() as int,
        ),
        Err(error) => {
            let sink = error.spec_sink().0;
            &&& before.stale(sink as int)
            &&& walk_of(before.graph(), sink).failed matches Some(at)
            &&& error == error_at(before.graph(), sink, at)
            &&& passed(is_selected, before, after, sink as int, sink + 1)
        },
    }
}

/// Evaluates every stale sink, in the order of the ids: its inputs are walked
/// depth first into a fresh accumulator, the artifact is derived from the
/// accumulator, and the sink is marked calculated. The first walk that fails
/// aborts the pass.
pub fn finalize<F: Fn(&ByNormalSelector, &Vec3) -> bool>(
    store: &mut NodeStore,
    is_selected: &F,
) -> (result: Result<(), EvalError>)
    requires
        acyclic(old(store).graph()),
        forall|s: &ByNormalSelector, n: &Vec3| call_requires(is_selected, (s, n)),
    ensures
        finalized(is_selected, *old(store), *final(store), result),
        old(store).back_refs_are_sinks() ==> final(store).back_refs_are_sinks(),
        old(store).back_refs_recorded() ==> final(store).back_refs_recorded(),
        old(store).back_refs_complete() ==> final(store).back_refs_complete(),
{
    let result = evaluate(store, is_selected);
    proof {
        if old(store).back_refs_are_sinks() {
            lemma_back_refs_stay_sinks(is_selected, *old(store), *store, result);
        }
        lemma_finalized_keeps(is_selected, *old(store), *store, result);
    }
    result
}

/// Before a pass nothing is evaluated and nothing is walked.
proof fn lemma_pass_begins<F: Fn(&ByNormalSelector, &Vec3) -> bool>(
    is_selected: &F,
    before: NodeStore,
)
    ensures
        passed(is_selected, before, before, 0, 0),
{
    assert forall|n: int| 0 <= n < before.nodes@.len() implies before.back_refs(n)
        == before.back_refs(n).union(reaching(before, n as usize, 0)) by {
        assert(before.back_refs(n) =~= before.back_refs(n).union(reaching(before, n as usize, 0)));
    }
}

/// A pass that has come to the node `at` and finds it no stale sink has
/// nothing to do for it.
proof fn lemma_pass_skips<F: Fn(&ByNormalSelector, &Vec3) -> bool>(
    is_selected: &F,
    before: NodeStore,
    store: NodeStore,
    at: usize,
)
    requires
        at < before.nodes@.len(),
        passed(is_selected, before, store, at as int, at as int),
        !before.stale(at as int),
    ensures
        passed(is_selected, before, store, at + 1, at + 1),
{
    assert forall|n: int| 0 <= n < before.nodes@.len() implies (#[trigger] store.back_refs(n))
        == before.back_refs(n).union(reaching(before, n as usize, at + 1)) by {
        assert(store.nodes@[n].inputs == before.nodes@[n].inputs);
        assert(reaching(before, n as usize, at + 1) =~= reaching(before, n as usize, at as int));
    }
}

/// A pass that has come to the stale sink `at` and has walked its inputs
/// has left the sink's back references; the sink itself is as it was.
proof fn lemma_pass_walks<F: Fn(&ByNormalSelector, &Vec3) -> bool>(
    is_selected: &F,
    before: NodeStore,
    middle: NodeStore,
    store: NodeStore,
    at: usize,
)
    requires
        at < before.nodes@.len(),
        passed(is_selected, before, middle, at as int, at as int),
        before.stale(at as int),
        store.stamped_from(middle, at, walk_of(before.graph(), at).entered),
    ensures
        passed(is_selected, before, store, at as int, at + 1),
{
    let entered = walk_of(before.graph(), at).entered;
    assert forall|n: int| 0 <= n < before.nodes@.len() implies {
        &&& (#[trigger] store.nodes@[n]).inputs == before.nodes@[n].inputs
        &&& store.back_refs(n) == before.back_refs(n).union(
            reaching(before, n as usize, at + 1),
        )
        &&& store.nodes@[n].node == middle.nodes@[n].node
    } by {
        assert(middle.nodes@[n].inputs == before.nodes@[n].inputs);
        assert(middle.back_refs(n) == before.back_refs(n).union(
            reaching(before, n as usize, at as int),
        ));
        assert(store.back_refs(n) == if entered.contains(n as usize) {
            middle.back_refs(n).insert(at)
        } else {
            middle.back_refs(n)
        });
        assert(store.back_refs(n) =~= before.back_refs(n).union(
            reaching(before, n as usize, at + 1),
        ));
    }
}

/// A pass that has walked the inputs of the stale sink `at` without
/// failure and has put the artifact of that run into the sink has
/// evaluated it.
proof fn lemma_pass_evaluates<F: Fn(&ByNormalSelector, &Vec3) -> bool>(
    is_selected: &F,
    before: NodeStore,
    walked: NodeStore,
    store: NodeStore,
    at: usize,
    steps: Seq<ProcessObjectView>,
    pbr: Artifact,
)
    requires
        at < before.nodes@.len(),
        passed(is_selected, before, walked, at as int, at + 1),
        before.stale(at as int),
        walk_of(before.graph(), at).failed is None,
        evaluation(is_selected, before.graph(), at, steps, pbr),
        store.written_from(
            walked,
            at as int,
            Node(Behavior::Final(Final { pbr, pbr_state: PbrState::Calculated })),
        ),
    ensures
        passed(is_selected, before, store, at + 1, at + 1),
{
    assert forall|n: int| 0 <= n < before.nodes@.len() implies {
        &&& (#[trigger] store.nodes@[n]).inputs == before.nodes@[n].inputs
        &&& store.back_refs(n) == walked.back_refs(n)
        &&& store.nodes@[n].vertex() == walked.nodes@[n].vertex()
    } by {
        assert(walked.nodes@[n].inputs == before.nodes@[n].inputs);
        if n != at {
            assert(store.nodes@[n] == walked.nodes@[n]);
        }
    }
    assert(store.graph() =~= before.graph());
}

/// The pass itself.
fn evaluate<F: Fn(&ByNormalSelector, &Vec3) -> bool>(
    store: &mut NodeStore,
    is_selected: &F,
) -> (result: Result<(), EvalError>)
    requires
        acyclic(old(store).graph()),
        forall|s: &ByNormalSelector, n: &Vec3| call_requires(is_selected, (s, n)),
    ensures
        finalized(is_selected, *old(store), *final(store), result),
{
    let count = store.nodes.len();
    let mut at: usize = 0;
    proof {
        lemma_pass_begins(is_selected, *store);
    }
    while at < count
        invariant
            at <= count,
            count == old(store).nodes@.len(),
            acyclic(old(store).graph()),
            passed(is_selected, *old(store), *store, at as int, at as int),
            forall|s: &ByNormalSelector, n: &Vec3| call_requires(is_selected, (s, n)),
        decreases count - at,
    {
        let ghost middle = *store;
        let stale = match &store.nodes[at].node.0 {
            Behavior::Final(sink) => sink.pbr_state.need_calculate(),
            _ => false,
        };
        if stale {
            let mut object = ProcessObject::default();
            let reached = process_inputs(NodeId(at), at, store, &mut object, is_selected);
            let ghost walked_store = *store;
            let ghost run = object@;
            proof {
                lemma_pass_walks(is_selected, *old(store), middle, walked_store, at);
            }
            match reached {
                Err(error) => {
                    return Err(error);
                },
                Ok(()) => {},
            }
            let pbr = object.into_pbr();
            store.nodes[at].node = Node(
                Behavior::Final(Final { pbr, pbr_state: PbrState::Calculated }),
            );
            proof {
                let graph = old(store).graph();
                let steps = choose|steps: Seq<ProcessObjectView>| #[trigger]
                    run_through(
                        is_selected,
                        graph,
                        walk_of(graph, at).produced,
                        steps,
                        ProcessObjectView::empty(),
                        run,
                    );
                lemma_pass_evaluates(
                    is_selected,
                    *old(store),
                    walked_store,
                    *store,
                    at,
                    steps,
                    pbr,
                );
            }
        } else {
            proof {
                lemma_pass_skips(is_selected, *old(store), *store, at);
            }
        }
        at = at + 1;
    }
    Ok(())
}

/// `after`, `dropped` and `result` are a possible outcome of `tick` on
/// `before` with `events` in the queue: first the events were applied, then
/// the stale sinks were evaluated.
pub open spec fn ticked<F: Fn(&ByNormalSelector, &Vec3) -> bool>(
    is_selected: &F,
    before: NodeStore,
    events: Seq<UpdateEvent>,
    after: NodeStore,
    dropped: Seq<UpdateEvent>,
    result: Result<(), EvalError>,
) -> bool {
    &&& dropped == unmatched(before, events)
    &&& exists|middle: NodeStore| #[trigger]
        invalidated(before, events, middle) && finalized(is_selected, middle, after, result)
}

/// Applying events changes no edge and turns no node into a sink or a sink
/// into something else.
pub proof fn lemma_invalidated_graph(before: NodeStore, events: Seq<UpdateEvent>, after: NodeStore)
    requires
        invalidated(before, events, after),
    ensures
        after.graph() == before.graph(),
{
    assert forall|n: int| 0 <= n < before.nodes@.len() implies after.nodes@[n].vertex()
        == before.nodes@[n].vertex() by {
        assert(after.nodes@[n].inputs == before.nodes@[n].inputs);
    }
    assert(after.graph() =~= before.graph());
}

/// One tick: the queue is emptied and its events are applied, then every
/// stale sink is evaluated. The events that named no sink are handed back
/// beside the result of the evaluation.
pub fn tick<F: Fn(&ByNormalSelector, &Vec3) -> bool>(
    store: &mut NodeStore,
    events: &mut Vec<UpdateEvent>,
    is_selected: &F,
) -> (done: (Vec<UpdateEvent>, Result<(), EvalError>))
    requires
        acyclic(old(store).graph()),
        forall|s: &ByNormalSelector, n: &Vec3| call_requires(is_selected, (s, n)),
    ensures
        final(events)@.len() == 0,
        ticked(is_selected, *old(store), old(events)@, *final(store), done.0@, done.1),
        old(store).back_refs_are_sinks() ==> final(store).back_refs_are_sinks(),
        old(store).back_refs_recorded() ==> final(store).back_refs_recorded(),
        old(store).back_refs_complete() ==> final(store).back_refs_complete(),
{
    let dropped = final_update(events, store);
    let ghost middle = *store;
    proof {
        lemma_invalidated_graph(*old(store), old(events)@, middle);
    }
    let result = finalize(store, is_selected);
    assert(invalidated(*old(store), old(events)@, middle) && finalized(
        is_selected,
        middle,
        *store,
        result,
    ));
    (dropped, result)
}

/// A second pass right after a successful one finds no stale sink: it
/// succeeds, walks nothing, and leaves every node, every edge and every
/// back-reference set as the first pass left them. In particular every
/// sink keeps its artifact and stays calculated.
pub proof fn lemma_finalize_again<F: Fn(&ByNormalSelector, &Vec3) -> bool>(
    is_selected: &F,
    before: NodeStore,
    once: NodeStore,
    twice: NodeStore,
    result: Result<(), EvalError>,
)
    requires
        finalized(is_selected, before, once, Ok(())),
        finalized(is_selected, once, twice, result),
    ensures
        result is Ok,
        twice.nodes@.len() == once.nodes@.len(),
        forall|n: int|
            0 <= n < once.nodes@.len() ==> {
                &&& (#[trigger] twice.nodes@[n]).node == once.nodes@[n].node
                &&& twice.nodes@[n].inputs == once.nodes@[n].inputs
                &&& twice.back_refs(n) == once.back_refs(n)
                &&& !once.stale(n)
            },
{
    assert forall|n: int| 0 <= n < once.nodes@.len() implies !once.stale(n) by {
        assert(once.nodes@[n].inputs == before.nodes@[n].inputs);
    }
    assert forall|n: int| 0 <= n < once.nodes@.len() implies {
        &&& (#[trigger] twice.nodes@[n]).node == once.nodes@[n].node
        &&& twice.nodes@[n].inputs == once.nodes@[n].inputs
        &&& twice.back_refs(n) == once.back_refs(n)
    } by {
        match result {
            Ok(()) => {
                assert(reaching(once, n as usize, once.nodes@.len() as int) =~= Set::<
                    usize,
                >::empty());
            },
            Err(error) => {},
        }
        assert(twice.back_refs(n) =~= once.back_refs(n));
    }
}

/// A sink without inputs evaluates to the empty artifact.
pub proof fn lemma_empty_sink<F: Fn(&ByNormalSelector, &Vec3) -> bool>(
    is_selected: &F,
    graph: Seq<Vertex>,
    sink: usize,
    node: Node,
)
    requires
        acyclic(graph),
        sink < graph.len(),
        graph[sink as int].inputs.len() == 0,
        sink_evaluated(is_selected, graph, sink, node),
    ensures
        node.0 matches Behavior::Final(cached) && cached.pbr_state == PbrState::Calculated
            && cached.pbr == ProcessObjectView::empty().artifact(),
{
}

/// No node takes away or replaces a mesh or a material that the
/// accumulator holds: it only appends.
pub proof fn lemma_processed_appends(
    id: NodeId,
    answers: spec_fn(ByNormalSelector, Vec3, bool) -> bool,
    node: Node,
    before: ProcessObjectView,
    after: ProcessObjectView,
)
    requires
        node.processed(id, answers, before, after),
    ensures
        before.meshes.is_prefix_of(after.meshes),
        before.materials.is_prefix_of(after.materials),
{
    match node.0 {
        Behavior::SelectionGroup(group) => {
            let flags = choose|flags: Seq<Seq<Seq<bool>>>| #[trigger]
                group.selects(answers, before, after, flags);
            assert(after.meshes == before.meshes);
        },
        _ => {},
    }
}

/// No node lets two elements of the selections have one name.
pub proof fn lemma_processed_names_distinct(
    id: NodeId,
    answers: spec_fn(ByNormalSelector, Vec3, bool) -> bool,
    node: Node,
    before: ProcessObjectView,
    after: ProcessObjectView,
)
    requires
        node.processed(id, answers, before, after),
        names_distinct(before.selections),
    ensures
        names_distinct(after.selections),
{
    match node.0 {
        Behavior::SelectionGroup(group) => {
            let flags = choose|flags: Seq<Seq<Seq<bool>>>| #[trigger]
                group.selects(answers, before, after, flags);
            lemma_recorded_all_distinct(before.selections, group.name@, flags);
        },
        _ => {},
    }
}

/// The first wins: once the accumulator holds a mesh, its first mesh is the
/// one in the artifact, whatever is produced later, and likewise for the
/// materials.
pub proof fn lemma_first_wins<F: Fn(&ByNormalSelector, &Vec3) -> bool>(
    is_selected: &F,
    graph: Seq<Vertex>,
    produced: Seq<usize>,
    steps: Seq<ProcessObjectView>,
    at: int,
)
    requires
        accumulated(is_selected, graph, produced, steps),
        0 <= at < steps.len(),
    ensures
        steps[at].meshes.len() > 0 ==> steps.last().artifact().mesh == Some(steps[at].meshes[0]),
        steps[at].materials.len() > 0 ==> steps.last().artifact().material == Some(
            steps[at].materials[0],
        ),
    decreases steps.len() - at,
{
    if at + 1 < steps.len() {
        assert(produced[at] < graph.len());
        lemma_processed_appends(
            NodeId(produced[at]),
            answers_of(is_selected),
            graph[produced[at] as int].producer->0,
            steps[at],
            steps[at + 1],
        );
        lemma_first_wins(is_selected, graph, produced, steps, at + 1);
    }
}

/// Only a box adds a mesh.
pub proof fn lemma_processed_meshes(
    id: NodeId,
    answers: spec_fn(ByNormalSelector, Vec3, bool) -> bool,
    node: Node,
    before: ProcessObjectView,
    after: ProcessObjectView,
)
    requires
        node.processed(id, answers, before, after),
    ensures
        match node.0 {
            Behavior::Box(cube) => after.meshes == before.meshes.push(box_mesh(cube.length)),
            _ => after.meshes == before.meshes,
        },
{
    match node.0 {
        Behavior::SelectionGroup(group) => {
            let flags = choose|flags: Seq<Seq<Seq<bool>>>| #[trigger]
                group.selects(answers, before, after, flags);
        },
        _ => {},
    }
}

/// The box that the node `id` of the graph is, if it is one.
pub open spec fn box_at(graph: Seq<Vertex>, id: usize) -> Option<crate::node::Box> {
    match graph[id as int].producer {
        Some(Node(Behavior::Box(cube))) => Some(cube),
        _ => None,
    }
}

/// The mesh of an evaluated sink is the mesh of the first box that its
/// walk lets produce: where the node at position `first` of the production
/// order is a box and no node before it is, the artifact holds that box's
/// mesh, whatever boxes come after it.
pub proof fn lemma_first_box_wins<F: Fn(&ByNormalSelector, &Vec3) -> bool>(
    is_selected: &F,
    graph: Seq<Vertex>,
    sink: usize,
    node: Node,
    first: int,
)
    requires
        sink_evaluated(is_selected, graph, sink, node),
        0 <= first < walk_of(graph, sink).produced.len(),
        forall|k: int|
            0 <= k < first ==> box_at(graph, #[trigger] walk_of(graph, sink).produced[k]) is None,
        box_at(graph, walk_of(graph, sink).produced[first]) is Some,
    ensures
        node.0->Final_0.pbr.mesh == Some(
            box_mesh(box_at(graph, walk_of(graph, sink).produced[first])->0.length),
        ),
{
    let produced = walk_of(graph, sink).produced;
    let cached = node.0->Final_0;
    let steps = choose|steps: Seq<ProcessObjectView>| #[trigger]
        evaluation(is_selected, graph, sink, steps, cached.pbr);
    lemma_no_mesh_before(is_selected, graph, produced, steps, first);
    assert(produced[first] < graph.len());
    lemma_processed_meshes(
        NodeId(produced[first]),
        answers_of(is_selected),
        graph[produced[first] as int].producer->0,
        steps[first],
        steps[first + 1],
    );
    lemma_first_wins(is_selected, graph, produced, steps, first + 1);
}

/// As long as no box has produced, the accumulator holds no mesh.
proof fn lemma_no_mesh_before<F: Fn(&ByNormalSelector, &Vec3) -> bool>(
    is_selected: &F,
    graph: Seq<Vertex>,
    produced: Seq<usize>,
    steps: Seq<ProcessObjectView>,
    upto: int,
)
    requires
        accumulated(is_selected, graph, produced, steps),
        steps.first().meshes.len() == 0,
        0 <= upto <= produced.len(),
        forall|k: int| 0 <= k < upto ==> box_at(graph, #[trigger] produced[k]) is None,
    ensures
        steps[upto].meshes.len() == 0,
    decreases upto,
{
    if upto > 0 {
        lemma_no_mesh_before(is_selected, graph, produced, steps, upto - 1);
        assert(produced[upto - 1] < graph.len());
        lemma_processed_meshes(
            NodeId(produced[upto - 1]),
            answers_of(is_selected),
            graph[produced[upto - 1] as int].producer->0,
            steps[upto - 1],
            steps[upto],
        );
    }
}

/// The material node that the node `id` of the graph is, if it is one.
pub open spec fn material_at(graph: Seq<Vertex>, id: usize) -> Option<Material> {
    if id < graph.len() {
        match graph[id as int].producer {
            Some(Node(Behavior::Material(material))) => Some(material),
            _ => None,
        }
    } else {
        None
    }
}

/// Every id in `materials` is that of a material node of the graph.
pub open spec fn held(graph: Seq<Vertex>, materials: Seq<NodeId>) -> bool {
    forall|k: int| 0 <= k < materials.len() ==> material_at(graph, (#[trigger] materials[k]).0) is Some
}

/// Only a material node adds a material, and what it adds is its own id.
pub proof fn lemma_processed_materials(
    id: NodeId,
    answers: spec_fn(ByNormalSelector, Vec3, bool) -> bool,
    node: Node,
    before: ProcessObjectView,
    after: ProcessObjectView,
)
    requires
        node.processed(id, answers, before, after),
    ensures
        match node.0 {
            Behavior::Material(_) => after.materials == before.materials.push(id),
            _ => after.materials == before.materials,
        },
{
    match node.0 {
        Behavior::SelectionGroup(group) => {
            let flags = choose|flags: Seq<Seq<Seq<bool>>>| #[trigger]
                group.selects(answers, before, after, flags);
        },
        _ => {},
    }
}

/// A run enters only material nodes of the graph as materials.
proof fn lemma_run_held<F: Fn(&ByNormalSelector, &Vec3) -> bool>(
    is_selected: &F,
    graph: Seq<Vertex>,
    produced: Seq<usize>,
    steps: Seq<ProcessObjectView>,
    upto: int,
)
    requires
        accumulated(is_selected, graph, produced, steps),
        held(graph, steps.first().materials),
        0 <= upto <= produced.len(),
    ensures
        held(graph, steps[upto].materials),
    decreases upto,
{
    if upto > 0 {
        lemma_run_held(is_selected, graph, produced, steps, upto - 1);
        assert(produced[upto - 1] < graph.len());
        lemma_processed_materials(
            NodeId(produced[upto - 1]),
            answers_of(is_selected),
            graph[produced[upto - 1] as int].producer->0,
            steps[upto - 1],
            steps[upto],
        );
    }
}

/// The material of an evaluated sink is held by a material node of the
/// graph: the id in the artifact is that of such a node.
pub proof fn lemma_material_is_held<F: Fn(&ByNormalSelector, &Vec3) -> bool>(
    is_selected: &F,
    graph: Seq<Vertex>,
    sink: usize,
    node: Node,
)
    requires
        sink_evaluated(is_selected, graph, sink, node),
    ensures
        node.0->Final_0.pbr.material matches Some(id) ==> material_at(graph, id.0) is Some,
{
    let produced = walk_of(graph, sink).produced;
    let cached = node.0->Final_0;
    let steps = choose|steps: Seq<ProcessObjectView>| #[trigger]
        evaluation(is_selected, graph, sink, steps, cached.pbr);
    lemma_run_held(is_selected, graph, produced, steps, produced.len() as int);
    if steps.last().materials.len() > 0 {
        assert(material_at(graph, steps.last().materials[0].0) is Some);
    }
}

/// As long as no material node has produced, the accumulator holds no
/// material.
proof fn lemma_no_material_before<F: Fn(&ByNormalSelector, &Vec3) -> bool>(
    is_selected: &F,
    graph: Seq<Vertex>,
    produced: Seq<usize>,
    steps: Seq<ProcessObjectView>,
    upto: int,
)
    requires
        accumulated(is_selected, graph, produced, steps),
        steps.first().materials.len() == 0,
        0 <= upto <= produced.len(),
        forall|k: int| 0 <= k < upto ==> material_at(graph, #[trigger] produced[k]) is None,
    ensures
        steps[upto].materials.len() == 0,
    decreases upto,
{
    if upto > 0 {
        lemma_no_material_before(is_selected, graph, produced, steps, upto - 1);
        assert(produced[upto - 1] < graph.len());
        lemma_processed_materials(
            NodeId(produced[upto - 1]),
            answers_of(is_selected),
            graph[produced[upto - 1] as int].producer->0,
            steps[upto - 1],
            steps[upto],
        );
    }
}

/// The material of an evaluated sink is that of the first material node
/// that its walk lets produce: where the node at position `first` of the
/// production order is a material node and no node before it is, the
/// artifact names that node, whatever material nodes come after it.
pub proof fn lemma_first_material_wins<F: Fn(&ByNormalSelector, &Vec3) -> bool>(
    is_selected: &F,
    graph: Seq<Vertex>,
    sink: usize,
    node: Node,
    first: int,
)
    requires
        sink_evaluated(is_selected, graph, sink, node),
        0 <= first < walk_of(graph, sink).produced.len(),
        forall|k: int|
            0 <= k < first ==> material_at(graph, #[trigger] walk_of(graph, sink).produced[k])
                is None,
        material_at(graph, walk_of(graph, sink).produced[first]) is Some,
    ensures
        node.0->Final_0.pbr.material == Some(NodeId(walk_of(graph, sink).produced[first])),
{
    let produced = walk_of(graph, sink).produced;
    let cached = node.0->Final_0;
    let steps = choose|steps: Seq<ProcessObjectView>| #[trigger]
        evaluation(is_selected, graph, sink, steps, cached.pbr);
    lemma_no_material_before(is_selected, graph, produced, steps, first);
    lemma_processed_materials(
        NodeId(produced[first]),
        answers_of(is_selected),
        graph[produced[first] as int].producer->0,
        steps[first],
        steps[first + 1],
    );
    lemma_first_wins(is_selected, graph, produced, steps, first + 1);
}

/// A walk leaves the back-reference set of a node that cannot be reached
/// from where it starts as it was.
pub proof fn lemma_walk_spares_unreached<F: Fn(&ByNormalSelector, &Vec3) -> bool>(
    is_selected: &F,
    sink: usize,
    input: usize,
    before_store: NodeStore,
    store: NodeStore,
    before: ProcessObjectView,
    after: ProcessObjectView,
    result: Result<(), EvalError>,
    n: usize,
)
    requires
        acyclic(before_store.graph()),
        walked(
            is_selected,
            sink,
            walk_node(before_store.graph(), input),
            before_store,
            store,
            before,
            after,
            result,
        ),
        n < before_store.nodes@.len(),
        !reaches(before_store.graph(), input, n),
    ensures
        store.back_refs(n as int) == before_store.back_refs(n as int),
{
    if walk_node(before_store.graph(), input).entered.contains(n) {
        lemma_entered_reached(before_store.graph(), input, n);
    }
    assert(store.nodes@[n as int].node == before_store.nodes@[n as int].node);
}

/// A pass leaves the back-reference set of a node that cannot be reached
/// from any stale sink as it was.
pub proof fn lemma_pass_spares_unreached<F: Fn(&ByNormalSelector, &Vec3) -> bool>(
    is_selected: &F,
    before: NodeStore,
    after: NodeStore,
    result: Result<(), EvalError>,
    n: usize,
)
    requires
        acyclic(before.graph()),
        finalized(is_selected, before, after, result),
        n < before.nodes@.len(),
        forall|s: usize| before.stale(s as int) ==> !reaches(before.graph(), s, n),
    ensures
        after.back_refs(n as int) == before.back_refs(n as int),
{
    let limit: int = match result {
        Ok(()) => before.nodes@.len() as int,
        Err(error) => error.spec_sink().0 + 1,
    };
    assert(after.nodes@[n as int].inputs == before.nodes@[n as int].inputs);
    assert forall|s: usize| !reaching(before, n, limit).contains(s) by {
        if before.stale(s as int) && walk_of(before.graph(), s).entered.contains(n) {
            lemma_inputs_entered_reached(
                before.graph(),
                s,
                before.graph()[s as int].inputs.len(),
                n,
            );
        }
    }
    assert(after.back_refs(n as int) =~= before.back_refs(n as int));
}

/// After a pass that succeeded, every node that can be reached from a sink
/// that was stale has the sink in its back-reference set.
pub proof fn lemma_pass_stamps_reached<F: Fn(&ByNormalSelector, &Vec3) -> bool>(
    is_selected: &F,
    before: NodeStore,
    after: NodeStore,
    sink: usize,
    n: usize,
)
    requires
        acyclic(before.graph()),
        finalized(is_selected, before, after, Ok(())),
        before.stale(sink as int),
        reaches(before.graph(), sink, n),
        n != sink,
    ensures
        n < before.nodes@.len(),
        after.back_refs(n as int).contains(sink),
{
    let graph = before.graph();
    let path = choose|path: Seq<usize>|
        #[trigger] is_path(graph, path) && path.first() == sink && path.last() == n;
    assert(after.nodes@[sink as int].inputs == before.nodes@[sink as int].inputs);
    lemma_inputs_reached_entered(graph, sink, path);
    lemma_walk_inputs_producers(graph, sink, graph[sink as int].inputs.len());
    let entered = walk_of(graph, sink).entered;
    let k = choose|k: int| 0 <= k < entered.len() && entered[k] == n;
    assert(entered[k] < graph.len());
    assert(after.nodes@[n as int].inputs == before.nodes@[n as int].inputs);
    assert(reaching(before, n, before.nodes@.len() as int).contains(sink));
}

/// The stale sinks from which the node `n` can be reached.
pub open spec fn stale_above(before: NodeStore, n: usize) -> Set<usize> {
    Set::new(|s: usize| before.stale(s as int) && s != n && reaches(before.graph(), s, n))
}

/// What a pass that succeeds records: the back-reference set of a node
/// grows by exactly the stale sinks from which the node can be reached.
pub proof fn lemma_pass_records_reach<F: Fn(&ByNormalSelector, &Vec3) -> bool>(
    is_selected: &F,
    before: NodeStore,
    after: NodeStore,
    n: usize,
)
    requires
        acyclic(before.graph()),
        finalized(is_selected, before, after, Ok(())),
        n < before.nodes@.len(),
    ensures
        after.back_refs(n as int) == before.back_refs(n as int).union(stale_above(before, n)),
{
    let graph = before.graph();
    let walked = reaching(before, n, before.nodes@.len() as int);
    assert(after.nodes@[n as int].inputs == before.nodes@[n as int].inputs);
    assert forall|s: usize| walked.contains(s) == stale_above(before, n).contains(s) by {
        if walked.contains(s) {
            lemma_inputs_entered_reached(graph, s, graph[s as int].inputs.len(), n);
        }
        if stale_above(before, n).contains(s) {
            assert(after.nodes@[s as int].inputs == before.nodes@[s as int].inputs);
            let path = choose|path: Seq<usize>|
                #[trigger] is_path(graph, path) && path.first() == s && path.last() == n;
            lemma_inputs_reached_entered(graph, s, path);
        }
    }
    assert(walked =~= stale_above(before, n));
}

/// The diamond: a node without back references that can be reached from
/// the two stale sinks `s1` and `s2`, and from no other stale sink, has
/// exactly these two in its set after a pass that succeeds.
pub proof fn lemma_pass_records_both<F: Fn(&ByNormalSelector, &Vec3) -> bool>(
    is_selected: &F,
    before: NodeStore,
    after: NodeStore,
    s1: usize,
    s2: usize,
    n: usize,
)
    requires
        acyclic(before.graph()),
        finalized(is_selected, before, after, Ok(())),
        n < before.nodes@.len(),
        !before.is_sink(n as int),
        before.back_refs(n as int) == Set::<usize>::empty(),
        before.stale(s1 as int) && reaches(before.graph(), s1, n),
        before.stale(s2 as int) && reaches(before.graph(), s2, n),
        forall|s: usize|
            before.stale(s as int) && #[trigger] reaches(before.graph(), s, n) ==> s == s1 || s
                == s2,
    ensures
        after.back_refs(n as int) == set![s1, s2],
{
    lemma_pass_records_reach(is_selected, before, after, n);
    assert(stale_above(before, n) =~= set![s1, s2]);
    assert(after.back_refs(n as int) =~= set![s1, s2]);
}

/// Evaluation adds sinks only to back-reference sets: where every element
/// of every set was a sink before a pass, it is so after it.
pub proof fn lemma_back_refs_stay_sinks<F: Fn(&ByNormalSelector, &Vec3) -> bool>(
    is_selected: &F,
    before: NodeStore,
    after: NodeStore,
    result: Result<(), EvalError>,
)
    requires
        before.back_refs_are_sinks(),
        finalized(is_selected, before, after, result),
    ensures
        after.back_refs_are_sinks(),
{
    assert forall|n: int, s: usize|
        0 <= n < after.nodes@.len() && #[trigger] after.back_refs(n).contains(s) implies after.is_sink(
        s as int,
    ) by {
        assert(after.nodes@[n].inputs == before.nodes@[n].inputs);
        if before.back_refs(n).contains(s) {
            assert(before.is_sink(s as int));
        }
        assert(before.is_sink(s as int));
        assert(after.nodes@[s as int].inputs == before.nodes@[s as int].inputs);
        assert(after.graph()[s as int] == before.graph()[s as int]);
    }
}

} // verus!
