//! The depth-first walk over a sink's inputs, as a mathematical function of
//! the graph: which nodes it enters, in which order they produce, and where
//! it fails.

use crate::node::{answers_of, ByNormalSelector, CommonNode, Node, NodeId};
use crate::process::ProcessObjectView;
use bevy::math::Vec3;
use vstd::prelude::*;

verus! {

/// One node as the walk sees it.
pub struct Vertex {
    /// The node's behaviour, or `None` for a sink.
    pub producer: Option<Node>,
    /// The ids of the node's inputs, in the order in which they were linked.
    pub inputs: Seq<usize>,
}

/// The course of a walk.
pub struct Walk {
    /// The nodes entered, in the order of entry; a node reached twice stands
    /// twice.
    pub entered: Seq<usize>,
    /// The nodes that produced, in the order in which they did.
    pub produced: Seq<usize>,
    /// The id at which the walk stopped: one that names no node, or a sink.
    pub failed: Option<usize>,
}

impl Walk {
    pub open spec fn nothing() -> Walk {
        Walk { entered: Seq::empty(), produced: Seq::empty(), failed: None }
    }

    /// This walk, continued by `next` unless it has failed.
    pub open spec fn followed_by(self, next: Walk) -> Walk {
        if self.failed is Some {
            self
        } else {
            Walk {
                entered: self.entered + next.entered,
                produced: self.produced + next.produced,
                failed: next.failed,
            }
        }
    }
}

/// `rank` goes down along every edge that leads to a node of the graph.
pub open spec fn ranked(graph: Seq<Vertex>, rank: Seq<nat>) -> bool {
    &&& rank.len() == graph.len()
    &&& forall|a: int, k: int|
        0 <= a < graph.len() && 0 <= k < graph[a].inputs.len() && graph[a].inputs[k] < graph.len()
            ==> rank[#[trigger] graph[a].inputs[k] as int] < rank[a]
}

/// No path along the edges leads from a node back to itself.
pub open spec fn acyclic(graph: Seq<Vertex>) -> bool {
    exists|rank: Seq<nat>| ranked(graph, rank)
}

/// The ranks of an acyclic graph's nodes.
pub open spec fn ranks(graph: Seq<Vertex>) -> Seq<nat> {
    choose|rank: Seq<nat>| ranked(graph, rank)
}

/// A measure that goes down along every edge: zero where `id` names no
/// node, else one more than the node's rank.
pub open spec fn rank_of(graph: Seq<Vertex>, id: usize) -> nat {
    if id < graph.len() {
        ranks(graph)[id as int] + 1
    } else {
        0
    }
}

/// The walk that enters `id`: the node is entered, its inputs are walked in
/// their order, and if none of those walks failed the node produces. An id
/// that names no node, or names a sink, fails the walk on the spot.
pub open spec fn walk_node(graph: Seq<Vertex>, id: usize) -> Walk
    decreases rank_of(graph, id), 1nat, 0nat,
    when acyclic(graph)
{
    if id >= graph.len() || graph[id as int].producer is None {
        Walk { entered: Seq::empty(), produced: Seq::empty(), failed: Some(id) }
    } else {
        let below = walk_inputs(graph, id, graph[id as int].inputs.len());
        Walk {
            entered: seq![id] + below.entered,
            produced: if below.failed is None {
                below.produced.push(id)
            } else {
                below.produced
            },
            failed: below.failed,
        }
    }
}

/// The walks that enter the first `upto` inputs of node `of`, one after the
/// other, up to the first that fails.
pub open spec fn walk_inputs(graph: Seq<Vertex>, of: usize, upto: nat) -> Walk
    decreases rank_of(graph, of), 0nat, upto,
    when acyclic(graph) && of < graph.len() && upto <= graph[of as int].inputs.len()
{
    if upto == 0 {
        Walk::nothing()
    } else {
        let before = walk_inputs(graph, of, (upto - 1) as nat);
        if before.failed is Some {
            before
        } else {
            before.followed_by(walk_node(graph, graph[of as int].inputs[upto - 1]))
        }
    }
}

} // verus!

verus! {

/// The walk that evaluates sink `sink`: the walks over all its inputs.
pub open spec fn walk_of(graph: Seq<Vertex>, sink: usize) -> Walk {
    walk_inputs(graph, sink, graph[sink as int].inputs.len())
}

/// `steps` holds the accumulator before the first of `produced` acted, after
/// each of them, and so at its end after the last: every step is a possible
/// outcome of processing that node on the accumulator before it.
pub open spec fn accumulated<F: Fn(&ByNormalSelector, &Vec3) -> bool>(
    is_selected: &F,
    graph: Seq<Vertex>,
    produced: Seq<usize>,
    steps: Seq<ProcessObjectView>,
) -> bool {
    &&& steps.len() == produced.len() + 1
    &&& forall|k: int|
        0 <= k < produced.len() ==> {
            &&& (#[trigger] produced[k]) < graph.len()
            &&& graph[produced[k] as int].producer matches Some(node)
            &&& node.processed(NodeId(produced[k]), answers_of(is_selected), steps[k], steps[k + 1])
        }
}

/// Two runs, the second starting where the first ended, make one run.
pub proof fn lemma_accumulated_join<F: Fn(&ByNormalSelector, &Vec3) -> bool>(
    is_selected: &F,
    graph: Seq<Vertex>,
    first: Seq<usize>,
    first_steps: Seq<ProcessObjectView>,
    second: Seq<usize>,
    second_steps: Seq<ProcessObjectView>,
)
    requires
        accumulated(is_selected, graph, first, first_steps),
        accumulated(is_selected, graph, second, second_steps),
        first_steps.last() == second_steps.first(),
    ensures
        accumulated(is_selected, graph, first + second, first_steps + second_steps.drop_first()),
        (first_steps + second_steps.drop_first()).first() == first_steps.first(),
        (first_steps + second_steps.drop_first()).last() == second_steps.last(),
{
    let produced = first + second;
    let steps = first_steps + second_steps.drop_first();
    assert forall|k: int| 0 <= k < produced.len() implies {
        &&& (#[trigger] produced[k]) < graph.len()
        &&& graph[produced[k] as int].producer matches Some(node)
        &&& node.processed(NodeId(produced[k]), answers_of(is_selected), steps[k], steps[k + 1])
    } by {
        if k < first.len() {
            assert(produced[k] == first[k]);
            assert(steps[k] == first_steps[k]);
            if k + 1 < first_steps.len() {
                assert(steps[k + 1] == first_steps[k + 1]);
            }
        } else {
            let j = k - first.len();
            assert(produced[k] == second[j]);
            assert(steps[k + 1] == second_steps[j + 1]);
            if j > 0 {
                assert(steps[k] == second_steps[j]);
            }
        }
    }
}

/// Once the walk over the first inputs of a node has failed, the further
/// inputs are not walked.
pub proof fn lemma_walk_inputs_failed(graph: Seq<Vertex>, of: usize, at: nat, upto: nat)
    requires
        acyclic(graph),
        of < graph.len(),
        at <= upto <= graph[of as int].inputs.len(),
        walk_inputs(graph, of, at).failed is Some,
    ensures
        walk_inputs(graph, of, upto) == walk_inputs(graph, of, at),
    decreases upto,
{
    if at < upto {
        lemma_walk_inputs_failed(graph, of, at, (upto - 1) as nat);
    }
}

/// Every id in `ids` names a producing node of the graph.
pub open spec fn producers(graph: Seq<Vertex>, ids: Seq<usize>) -> bool {
    forall|k: int|
        0 <= k < ids.len() ==> (#[trigger] ids[k]) < graph.len() && graph[ids[k] as int].producer
            is Some
}

/// A walk enters producing nodes only, and only they produce.
pub proof fn lemma_walk_node_producers(graph: Seq<Vertex>, id: usize)
    requires
        acyclic(graph),
    ensures
        producers(graph, walk_node(graph, id).entered),
        producers(graph, walk_node(graph, id).produced),
    decreases rank_of(graph, id), 1nat, 0nat,
{
    if id < graph.len() && graph[id as int].producer is Some {
        lemma_walk_inputs_producers(graph, id, graph[id as int].inputs.len());
    }
}

/// The walks over the inputs of a node enter producing nodes only, and only
/// they produce.
pub proof fn lemma_walk_inputs_producers(graph: Seq<Vertex>, of: usize, upto: nat)
    requires
        acyclic(graph),
        of < graph.len(),
        upto <= graph[of as int].inputs.len(),
    ensures
        producers(graph, walk_inputs(graph, of, upto).entered),
        producers(graph, walk_inputs(graph, of, upto).produced),
    decreases rank_of(graph, of), 0nat, upto,
{
    if upto > 0 {
        lemma_walk_inputs_producers(graph, of, (upto - 1) as nat);
        if walk_inputs(graph, of, (upto - 1) as nat).failed is None {
            assert(ranked(graph, ranks(graph)));
            lemma_walk_node_producers(graph, graph[of as int].inputs[upto - 1]);
        }
    }
}

/// The number of nodes that are not placed yet.
pub open spec fn pending(placed: Seq<bool>) -> nat
    decreases placed.len(),
{
    if placed.len() == 0 {
        0
    } else if placed.last() {
        pending(placed.drop_last())
    } else {
        pending(placed.drop_last()) + 1
    }
}

/// Placing a node leaves one node less to place.
pub proof fn lemma_pending_placed(placed: Seq<bool>, at: int)
    requires
        0 <= at < placed.len(),
        !placed[at],
    ensures
        pending(placed.update(at, true)) + 1 == pending(placed),
    decreases placed.len(),
{
    let after = placed.update(at, true);
    if at == placed.len() - 1 {
        assert(after.drop_last() =~= placed.drop_last());
    } else {
        assert(after.drop_last() =~= placed.drop_last().update(at, true));
        lemma_pending_placed(placed.drop_last(), at);
    }
}

/// Node `a` waits for an input that is a node and is not placed.
pub open spec fn blocked(graph: Seq<Vertex>, placed: Seq<bool>, a: int) -> bool {
    exists|k: int|
        0 <= k < graph[a].inputs.len() && (#[trigger] graph[a].inputs[k]) < graph.len()
            && !placed[graph[a].inputs[k] as int]
}

/// Where every node that is not placed waits for another such node, the
/// ranks of these nodes would have to exceed every bound.
pub proof fn lemma_blocked_ranks(graph: Seq<Vertex>, placed: Seq<bool>, rank: Seq<nat>, bound: nat)
    requires
        ranked(graph, rank),
        placed.len() == graph.len(),
        forall|a: int| 0 <= a < graph.len() && !placed[a] ==> blocked(graph, placed, a),
    ensures
        forall|a: int| 0 <= a < graph.len() && !placed[a] ==> rank[a] >= bound,
    decreases bound,
{
    if bound > 0 {
        lemma_blocked_ranks(graph, placed, rank, (bound - 1) as nat);
        assert forall|a: int| 0 <= a < graph.len() && !placed[a] implies rank[a] >= bound by {
            assert(blocked(graph, placed, a));
            let k = choose|k: int|
                0 <= k < graph[a].inputs.len() && (#[trigger] graph[a].inputs[k]) < graph.len()
                    && !placed[graph[a].inputs[k] as int];
            let c = graph[a].inputs[k] as int;
            assert(rank[c] < rank[a]);
        }
    }
}

/// A graph in which every node that is not placed waits for another such
/// node, and some node is not placed, has a cycle.
pub proof fn lemma_blocked_cyclic(graph: Seq<Vertex>, placed: Seq<bool>, at: int)
    requires
        placed.len() == graph.len(),
        forall|a: int| 0 <= a < graph.len() && !placed[a] ==> blocked(graph, placed, a),
        0 <= at < graph.len(),
        !placed[at],
    ensures
        !acyclic(graph),
{
    if acyclic(graph) {
        let rank = ranks(graph);
        lemma_blocked_ranks(graph, placed, rank, rank[at] + 1);
    }
}

/// A number above every element of `rank`.
pub open spec fn above(rank: Seq<nat>) -> nat
    decreases rank.len(),
{
    if rank.len() == 0 {
        0
    } else if rank.last() < above(rank.drop_last()) {
        above(rank.drop_last())
    } else {
        rank.last() + 1
    }
}

proof fn lemma_above(rank: Seq<nat>)
    ensures
        forall|a: int| 0 <= a < rank.len() ==> rank[a] < above(rank),
    decreases rank.len(),
{
    if rank.len() > 0 {
        lemma_above(rank.drop_last());
        assert forall|a: int| 0 <= a < rank.len() implies rank[a] < above(rank) by {
            if a < rank.len() - 1 {
                assert(rank.drop_last()[a] == rank[a]);
            }
        }
    }
}

/// No node has `id` among its inputs.
pub open spec fn no_dependents(graph: Seq<Vertex>, id: usize) -> bool {
    forall|a: int, k: int|
        0 <= a < graph.len() && 0 <= k < graph[a].inputs.len() ==> (#[trigger] graph[a].inputs[k])
            != id
}

/// A graph without nodes has no cycle.
pub proof fn lemma_no_nodes_acyclic(graph: Seq<Vertex>)
    requires
        graph.len() == 0,
    ensures
        acyclic(graph),
{
    assert(ranked(graph, Seq::<nat>::empty()));
}

/// A new node without inputs closes no cycle, whatever edges lead to it.
pub proof fn lemma_spawned_acyclic(before: Seq<Vertex>, after: Seq<Vertex>)
    requires
        acyclic(before),
        after.len() == before.len() + 1,
        after.drop_last() == before,
        after.last().inputs.len() == 0,
    ensures
        acyclic(after),
{
    let old_rank = ranks(before);
    let rank = Seq::new(
        after.len(),
        |a: int|
            if a < before.len() {
                old_rank[a] + 1
            } else {
                0nat
            },
    );
    assert forall|a: int, k: int|
        0 <= a < after.len() && 0 <= k < after[a].inputs.len() && after[a].inputs[k]
            < after.len() implies rank[#[trigger] after[a].inputs[k] as int] < rank[a] by {
        assert(after.drop_last()[a] == after[a]);
    }
    assert(ranked(after, rank));
}

/// New inputs for a node on which nothing depends, the node itself not
/// among them, close no cycle.
pub proof fn lemma_linked_acyclic(
    before: Seq<Vertex>,
    after: Seq<Vertex>,
    consumer: usize,
    dependencies: Seq<usize>,
)
    requires
        acyclic(before),
        consumer < before.len(),
        no_dependents(before, consumer),
        !dependencies.contains(consumer),
        after.len() == before.len(),
        forall|a: int| 0 <= a < before.len() && a != consumer ==> after[a] == before[a],
        after[consumer as int].inputs == before[consumer as int].inputs + dependencies,
    ensures
        acyclic(after),
{
    let old_rank = ranks(before);
    lemma_above(old_rank);
    let rank = old_rank.update(consumer as int, above(old_rank));
    assert forall|a: int, k: int|
        0 <= a < after.len() && 0 <= k < after[a].inputs.len() && after[a].inputs[k]
            < after.len() implies rank[#[trigger] after[a].inputs[k] as int] < rank[a] by {
        let c = after[a].inputs[k];
        if a != consumer {
            assert(before[a].inputs[k] == c);
        } else if k < before[a].inputs.len() {
            assert(before[a].inputs[k] == c);
        } else {
            assert(dependencies[k - before[a].inputs.len()] == c);
        }
    }
    assert(ranked(after, rank));
}

/// The two graphs have the same edges and the same sinks.
pub open spec fn same_shape(first: Seq<Vertex>, second: Seq<Vertex>) -> bool {
    &&& first.len() == second.len()
    &&& forall|n: int|
        0 <= n < first.len() ==> (#[trigger] first[n]).inputs == second[n].inputs && (
        first[n].producer is None) == (second[n].producer is None)
}

/// A graph of the shape of a graph without cycles has none.
pub proof fn lemma_same_shape_acyclic(first: Seq<Vertex>, second: Seq<Vertex>)
    requires
        acyclic(first),
        same_shape(first, second),
    ensures
        acyclic(second),
{
    let rank = ranks(first);
    assert forall|a: int, k: int|
        0 <= a < second.len() && 0 <= k < second[a].inputs.len() && second[a].inputs[k]
            < second.len() implies rank[#[trigger] second[a].inputs[k] as int] < rank[a] by {
        assert(first[a].inputs[k] == second[a].inputs[k]);
    }
    assert(ranked(second, rank));
}

/// A walk depends on the edges and on which nodes are sinks, not on what
/// the nodes produce.
pub proof fn lemma_walk_node_shape(first: Seq<Vertex>, second: Seq<Vertex>, id: usize)
    requires
        acyclic(first),
        same_shape(first, second),
    ensures
        walk_node(first, id) == walk_node(second, id),
    decreases rank_of(first, id), 1nat, 0nat,
{
    lemma_same_shape_acyclic(first, second);
    if id < first.len() && first[id as int].producer is Some {
        lemma_walk_inputs_shape(first, second, id, first[id as int].inputs.len());
    }
}

/// The walks over the inputs of a node depend on the edges and on which
/// nodes are sinks, not on what the nodes produce.
pub proof fn lemma_walk_inputs_shape(
    first: Seq<Vertex>,
    second: Seq<Vertex>,
    of: usize,
    upto: nat,
)
    requires
        acyclic(first),
        same_shape(first, second),
        of < first.len(),
        upto <= first[of as int].inputs.len(),
    ensures
        walk_inputs(first, of, upto) == walk_inputs(second, of, upto),
    decreases rank_of(first, of), 0nat, upto,
{
    lemma_same_shape_acyclic(first, second);
    if upto > 0 {
        lemma_walk_inputs_shape(first, second, of, (upto - 1) as nat);
        if walk_inputs(first, of, (upto - 1) as nat).failed is None {
            assert(ranked(first, ranks(first)));
            lemma_walk_node_shape(first, second, first[of as int].inputs[upto - 1]);
        }
    }
}

/// `path` follows edges of the graph: every element but the last is a node
/// that has the next element among its inputs.
pub open spec fn is_path(graph: Seq<Vertex>, path: Seq<usize>) -> bool {
    &&& path.len() > 0
    &&& forall|i: int|
        0 <= i < path.len() - 1 ==> (#[trigger] path[i]) < graph.len()
            && graph[path[i] as int].inputs.contains(path[i + 1])
}

/// `to` is `from` or can be reached from it along input edges.
pub open spec fn reaches(graph: Seq<Vertex>, from: usize, to: usize) -> bool {
    exists|path: Seq<usize>|
        #[trigger] is_path(graph, path) && path.first() == from && path.last() == to
}

/// A path with one more node in front of it.
proof fn lemma_path_extended(graph: Seq<Vertex>, from: usize, path: Seq<usize>)
    requires
        is_path(graph, path),
        from < graph.len(),
        graph[from as int].inputs.contains(path.first()),
    ensures
        is_path(graph, seq![from] + path),
        (seq![from] + path).first() == from,
        (seq![from] + path).last() == path.last(),
{
    let longer = seq![from] + path;
    assert forall|i: int| 0 <= i < longer.len() - 1 implies (#[trigger] longer[i]) < graph.len()
        && graph[longer[i] as int].inputs.contains(longer[i + 1]) by {
        if i > 0 {
            assert(longer[i] == path[i - 1]);
            assert(longer[i + 1] == path[i]);
        } else {
            assert(longer[1] == path[0]);
        }
    }
}

/// A walk enters no node that cannot be reached from where it starts.
pub proof fn lemma_entered_reached(graph: Seq<Vertex>, id: usize, n: usize)
    requires
        acyclic(graph),
        walk_node(graph, id).entered.contains(n),
    ensures
        reaches(graph, id, n),
    decreases rank_of(graph, id), 1nat, 0nat,
{
    let below = walk_inputs(graph, id, graph[id as int].inputs.len());
    let entered = walk_node(graph, id).entered;
    let at = choose|at: int| 0 <= at < entered.len() && entered[at] == n;
    if at == 0 {
        assert(is_path(graph, seq![id]));
        assert(seq![id].first() == id && seq![id].last() == n);
    } else {
        assert(below.entered[at - 1] == n);
        lemma_inputs_entered_reached(graph, id, graph[id as int].inputs.len(), n);
    }
}

/// The walks over the inputs of a node enter no node that cannot be
/// reached from the node.
pub proof fn lemma_inputs_entered_reached(graph: Seq<Vertex>, of: usize, upto: nat, n: usize)
    requires
        acyclic(graph),
        of < graph.len(),
        upto <= graph[of as int].inputs.len(),
        walk_inputs(graph, of, upto).entered.contains(n),
    ensures
        reaches(graph, of, n),
        n != of,
    decreases rank_of(graph, of), 0nat, upto,
{
    let before = walk_inputs(graph, of, (upto - 1) as nat);
    if before.failed is Some {
        lemma_inputs_entered_reached(graph, of, (upto - 1) as nat, n);
    } else {
        let child = graph[of as int].inputs[upto - 1];
        let next = walk_node(graph, child);
        let entered = before.entered + next.entered;
        let at = choose|at: int| 0 <= at < entered.len() && entered[at] == n;
        if at < before.entered.len() {
            assert(before.entered[at] == n);
            lemma_inputs_entered_reached(graph, of, (upto - 1) as nat, n);
        } else {
            assert(next.entered[at - before.entered.len()] == n);
            assert(ranked(graph, ranks(graph)));
            lemma_entered_reached(graph, child, n);
            let path = choose|path: Seq<usize>|
                #[trigger] is_path(graph, path) && path.first() == child && path.last() == n;
            lemma_path_extended(graph, of, path);
            assert(is_path(graph, seq![of] + path));
            lemma_walk_node_producers(graph, child);
            if n == of {
                lemma_rank_along(graph, path);
            }
        }
    }
}

/// Along a path between nodes of the graph the measure does not go up,
/// and it goes down with every edge.
proof fn lemma_rank_along(graph: Seq<Vertex>, path: Seq<usize>)
    requires
        acyclic(graph),
        is_path(graph, path),
        path.last() < graph.len(),
    ensures
        rank_of(graph, path.last()) + path.len() <= rank_of(graph, path.first()) + 1,
    decreases path.len(),
{
    if path.len() > 1 {
        let rest = path.drop_first();
        assert forall|i: int| 0 <= i < rest.len() - 1 implies (#[trigger] rest[i]) < graph.len()
            && graph[rest[i] as int].inputs.contains(rest[i + 1]) by {
            assert(rest[i] == path[i + 1]);
            assert(rest[i + 1] == path[i + 2]);
        }
        lemma_rank_along(graph, rest);
        let from = path[0];
        let next = path[1];
        assert(graph[from as int].inputs.contains(next));
        let inputs = graph[from as int].inputs;
        let k = choose|k: int| 0 <= k < inputs.len() && inputs[k] == next;
        assert(ranked(graph, ranks(graph)));
        if rest.len() > 1 {
            assert(rest[0] < graph.len());
        }
        assert(next < graph.len());
        assert(ranks(graph)[inputs[k] as int] < ranks(graph)[from as int]);
    }
}

/// Where the walks over the first inputs of a node have not failed, the
/// walk that enters any one of these inputs has not failed, and what it
/// enters is among what they enter.
pub proof fn lemma_inputs_walked(graph: Seq<Vertex>, of: usize, upto: nat, k: int)
    requires
        acyclic(graph),
        of < graph.len(),
        upto <= graph[of as int].inputs.len(),
        walk_inputs(graph, of, upto).failed is None,
        0 <= k < upto,
    ensures
        walk_node(graph, graph[of as int].inputs[k]).failed is None,
        forall|m: usize|
            walk_node(graph, graph[of as int].inputs[k]).entered.contains(m) ==> walk_inputs(
                graph,
                of,
                upto,
            ).entered.contains(m),
    decreases upto,
{
    let before = walk_inputs(graph, of, (upto - 1) as nat);
    let next = walk_node(graph, graph[of as int].inputs[upto - 1]);
    let all = walk_inputs(graph, of, upto).entered;
    assert(all == before.entered + next.entered);
    if k < upto - 1 {
        lemma_inputs_walked(graph, of, (upto - 1) as nat, k);
        let child = walk_node(graph, graph[of as int].inputs[k]);
        assert forall|m: usize| child.entered.contains(m) implies all.contains(m) by {
            assert(before.entered.contains(m));
            let at = choose|at: int| 0 <= at < before.entered.len() && before.entered[at] == m;
            assert(all[at] == m);
        }
    } else {
        assert forall|m: usize| next.entered.contains(m) implies all.contains(m) by {
            let at = choose|at: int| 0 <= at < next.entered.len() && next.entered[at] == m;
            assert(all[before.entered.len() + at] == m);
        }
    }
}

/// A walk that does not fail enters every node that can be reached from
/// where it starts.
pub proof fn lemma_reached_entered(graph: Seq<Vertex>, id: usize, path: Seq<usize>)
    requires
        acyclic(graph),
        is_path(graph, path),
        path.first() == id,
        walk_node(graph, id).failed is None,
    ensures
        walk_node(graph, id).entered.contains(path.last()),
    decreases path.len(), 1nat,
{
    let entered = walk_node(graph, id).entered;
    assert(entered[0] == id);
    if path.len() > 1 {
        lemma_inputs_reached_entered(graph, id, path);
        let below = walk_of(graph, id).entered;
        let at = choose|at: int| 0 <= at < below.len() && below[at] == path.last();
        assert(entered[at + 1] == path.last());
    }
}

/// The walks over all inputs of a node, if none of them fails, enter
/// every node that can be reached from the node by at least one edge.
pub proof fn lemma_inputs_reached_entered(graph: Seq<Vertex>, of: usize, path: Seq<usize>)
    requires
        acyclic(graph),
        is_path(graph, path),
        path.first() == of,
        path.len() > 1,
        walk_of(graph, of).failed is None,
    ensures
        walk_of(graph, of).entered.contains(path.last()),
    decreases path.len(), 0nat,
{
    let rest = path.drop_first();
    let inputs = graph[of as int].inputs;
    assert(path[0] < graph.len() && inputs.contains(path[1]));
    let k = choose|k: int| 0 <= k < inputs.len() && inputs[k] == path[1];
    lemma_inputs_walked(graph, of, inputs.len(), k);
    assert forall|i: int| 0 <= i < rest.len() - 1 implies (#[trigger] rest[i]) < graph.len()
        && graph[rest[i] as int].inputs.contains(rest[i + 1]) by {
        assert(rest[i] == path[i + 1]);
        assert(rest[i + 1] == path[i + 2]);
    }
    lemma_reached_entered(graph, inputs[k], rest);
    assert(rest.last() == path.last());
}

} // verus!
