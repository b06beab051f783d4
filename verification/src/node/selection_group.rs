//! Selection groups: nodes that add no geometry but record, for every mesh
//! already accumulated, which of its vertices their selectors pick.

use crate::node::{Behavior, CommonNode, Node, NodeId, SpawnedNode};
use crate::process::{named_views, NamedSelections, ProcessObject, ProcessObjectView, Selection};
use crate::store::NodeStore;
use crate::walk::acyclic;
use bevy::math::Vec3;
use bevy::render::mesh::{Mesh, VertexAttributeValues};
use smallvec::SmallVec;
use vstd::prelude::*;

verus! {

/// Marks a node as a selection group.
#[derive(Copy, Clone)]
pub struct SelectionGroupType;

/// One criterion by which vertices are picked.
#[derive(Copy, Clone)]
pub enum Selector {
    ByNormal(ByNormalSelector),
}

/// Picks the vertices whose normal lies within `spread_angle` of `direction`.
///
/// The library carries the two values and leaves the trigonometry to the
/// predicate that is handed to the evaluation.
#[derive(Copy, Clone)]
pub struct ByNormalSelector {
    pub direction: Vec3,
    /// The angle in radians, as the bit pattern of a single-precision number.
    pub spread_angle: u32,
}

/// The selectors of one group, kept in a `smallvec::SmallVec` with room for
/// one selector inline.
#[verifier::external_body]
pub struct SelectorList {
    inner: SmallVec<[Selector; 1]>,
}

/// The selectors that a list holds, in their order.
pub uninterp spec fn selector_items(list: SelectorList) -> Seq<Selector>;

/// The normals that a mesh stores for its vertices, in vertex order, where
/// it stores normals of three single-precision components each; `None`
/// where it stores no normals or normals of another format.
pub uninterp spec fn mesh_normals(mesh: Mesh) -> Option<Seq<Vec3>>;

/// The normals that a selector is asked about on a mesh: the normals that
/// the mesh stores, and none where it stores none that can be used.
pub open spec fn tested_normals(mesh: Mesh) -> Seq<Vec3> {
    match mesh_normals(mesh) {
        Some(normals) => normals,
        None => Seq::empty(),
    }
}

impl SelectorList {
    /// `SmallVec::from_vec`: the list holds the elements of `selectors`, in
    /// their order.
    #[verifier::external_body]
    pub(crate) fn from_vec(selectors: Vec<Selector>) -> (list: SelectorList)
        ensures
            selector_items(list) == selectors@,
    {
        SelectorList { inner: SmallVec::from_vec(selectors) }
    }

    /// `SmallVec::as_slice`: the elements as a slice.
    #[verifier::external_body]
    pub(crate) fn as_slice(&self) -> (items: &[Selector])
        ensures
            items@ == selector_items(*self),
    {
        self.inner.as_slice()
    }
}

/// `Mesh::attribute` for `Mesh::ATTRIBUTE_NORMAL`: the stored normals, each
/// turned into a `Vec3`, where the attribute is there and holds three
/// single-precision components for every vertex; `None` otherwise.
#[verifier::external_body]
pub(crate) fn normals_of(mesh: &Mesh) -> (normals: Option<Vec<Vec3>>)
    ensures
        normals is Some == mesh_normals(*mesh) is Some,
        normals matches Some(found) ==> mesh_normals(*mesh) == Some(found@),
{
    match mesh.attribute(Mesh::ATTRIBUTE_NORMAL) {
        Some(VertexAttributeValues::Float32x3(values)) => {
            Some(values.iter().map(|normal| Vec3::from(*normal)).collect())
        },
        _ => None,
    }
}

/// The positions at which `flags` is true, as vertex indices.
pub open spec fn picked(flags: Seq<bool>) -> Seq<u32>
    decreases flags.len(),
{
    if flags.len() == 0 {
        Seq::empty()
    } else if flags.last() {
        picked(flags.drop_last()).push((flags.len() - 1) as u32)
    } else {
        picked(flags.drop_last())
    }
}

/// What a list of selectors picks on one mesh: the picks of the first
/// selector, then those of the second, and so on. `flags[j][i]` says whether
/// selector `j` picked vertex `i`.
pub open spec fn picked_by_all(flags: Seq<Seq<bool>>) -> Seq<u32>
    decreases flags.len(),
{
    if flags.len() == 0 {
        Seq::empty()
    } else {
        picked_by_all(flags.drop_last()) + picked(flags.last())
    }
}

/// The position of the first element of `selections` named `name`, or the
/// length where there is none.
pub open spec fn position_of(
    selections: Seq<(Seq<char>, Seq<(usize, Seq<u32>)>)>,
    name: Seq<char>,
) -> int
    decreases selections.len(),
{
    if selections.len() == 0 {
        0
    } else if selections.first().0 == name {
        0
    } else {
        1 + position_of(selections.drop_first(), name)
    }
}

/// `selections` after `entry` was recorded under `name`: appended to the
/// entries of that name, or to a new element at the end.
pub open spec fn recorded(
    selections: Seq<(Seq<char>, Seq<(usize, Seq<u32>)>)>,
    name: Seq<char>,
    entry: (usize, Seq<u32>),
) -> Seq<(Seq<char>, Seq<(usize, Seq<u32>)>)> {
    let at = position_of(selections, name);
    if at < selections.len() {
        selections.update(at, (name, selections[at].1.push(entry)))
    } else {
        selections.push((name, seq![entry]))
    }
}

/// `selections` after a group named `name` went over the meshes: for mesh
/// `m`, in accumulator order, what `flags[m]` picks is recorded under the
/// name, unless it picks nothing.
pub open spec fn recorded_all(
    selections: Seq<(Seq<char>, Seq<(usize, Seq<u32>)>)>,
    name: Seq<char>,
    flags: Seq<Seq<Seq<bool>>>,
) -> Seq<(Seq<char>, Seq<(usize, Seq<u32>)>)>
    decreases flags.len(),
{
    if flags.len() == 0 {
        selections
    } else {
        let before = recorded_all(selections, name, flags.drop_last());
        let indices = picked_by_all(flags.last());
        if indices.len() == 0 {
            before
        } else {
            recorded(before, name, ((flags.len() - 1) as usize, indices))
        }
    }
}

/// The answers that `is_selected` may give: `true` for a selector, a normal
/// and a flag where a call with the two may return the flag.
pub open spec fn answers_of<F: Fn(&ByNormalSelector, &Vec3) -> bool>(is_selected: &F) -> spec_fn(
    ByNormalSelector,
    Vec3,
    bool,
) -> bool {
    |selector: ByNormalSelector, normal: Vec3, flag: bool|
        call_ensures(is_selected, (&selector, &normal), flag)
}

/// `flags[i]` is an answer for `selector` and normal `i`.
pub open spec fn answered(
    answers: spec_fn(ByNormalSelector, Vec3, bool) -> bool,
    selector: ByNormalSelector,
    normals: Seq<Vec3>,
    flags: Seq<bool>,
) -> bool {
    &&& flags.len() == normals.len()
    &&& forall|i: int| 0 <= i < normals.len() ==> answers(selector, #[trigger] normals[i], flags[i])
}

/// `flags[j]` holds answers for selector `j` on the normals.
pub open spec fn answered_all(
    answers: spec_fn(ByNormalSelector, Vec3, bool) -> bool,
    selectors: Seq<Selector>,
    normals: Seq<Vec3>,
    flags: Seq<Seq<bool>>,
) -> bool {
    &&& flags.len() == selectors.len()
    &&& forall|j: int|
        0 <= j < selectors.len() ==> answered(
            answers,
            (#[trigger] selectors[j])->ByNormal_0,
            normals,
            flags[j],
        )
}

/// `flags[m]` holds answers for the selectors on the normals of mesh `m`.
pub open spec fn answered_on(
    answers: spec_fn(ByNormalSelector, Vec3, bool) -> bool,
    selectors: Seq<Selector>,
    meshes: Seq<Mesh>,
    flags: Seq<Seq<Seq<bool>>>,
) -> bool {
    &&& flags.len() == meshes.len()
    &&& forall|m: int|
        0 <= m < meshes.len() ==> answered_all(
            answers,
            selectors,
            tested_normals(#[trigger] meshes[m]),
            flags[m],
        )
}

/// No two elements of `selections` have the same name.
pub open spec fn names_distinct(selections: Seq<(Seq<char>, Seq<(usize, Seq<u32>)>)>) -> bool {
    forall|i: int, j: int|
        0 <= i < j < selections.len() ==> (#[trigger] selections[i]).0 != (
        #[trigger] selections[j]).0
}

/// What `position_of` finds: the element at the position has the name, and
/// no element before it has; at the length, no element has the name.
pub proof fn lemma_position_of_finds(
    selections: Seq<(Seq<char>, Seq<(usize, Seq<u32>)>)>,
    name: Seq<char>,
)
    ensures
        0 <= position_of(selections, name) <= selections.len(),
        position_of(selections, name) < selections.len() ==> selections[position_of(
            selections,
            name,
        )].0 == name,
        forall|k: int| 0 <= k < position_of(selections, name) ==> selections[k].0 != name,
    decreases selections.len(),
{
    if selections.len() > 0 && selections.first().0 != name {
        let rest = selections.drop_first();
        lemma_position_of_finds(rest, name);
        assert forall|k: int| 0 <= k < position_of(selections, name) implies selections[k].0
            != name by {
            if k > 0 {
                assert(rest[k - 1] == selections[k]);
            }
        }
    }
}

/// Recording keeps the names apart.
pub proof fn lemma_recorded_distinct(
    selections: Seq<(Seq<char>, Seq<(usize, Seq<u32>)>)>,
    name: Seq<char>,
    entry: (usize, Seq<u32>),
)
    requires
        names_distinct(selections),
    ensures
        names_distinct(recorded(selections, name, entry)),
{
    lemma_position_of_finds(selections, name);
}

/// Going over the meshes keeps the names apart.
pub proof fn lemma_recorded_all_distinct(
    selections: Seq<(Seq<char>, Seq<(usize, Seq<u32>)>)>,
    name: Seq<char>,
    flags: Seq<Seq<Seq<bool>>>,
)
    requires
        names_distinct(selections),
    ensures
        names_distinct(recorded_all(selections, name, flags)),
    decreases flags.len(),
{
    if flags.len() > 0 {
        lemma_recorded_all_distinct(selections, name, flags.drop_last());
        let before = recorded_all(selections, name, flags.drop_last());
        let indices = picked_by_all(flags.last());
        if indices.len() > 0 {
            lemma_recorded_distinct(before, name, ((flags.len() - 1) as usize, indices));
        }
    }
}

proof fn lemma_position_of(
    selections: Seq<(Seq<char>, Seq<(usize, Seq<u32>)>)>,
    name: Seq<char>,
    at: int,
)
    requires
        0 <= at <= selections.len(),
        forall|k: int| 0 <= k < at ==> selections[k].0 != name,
        at < selections.len() ==> selections[at].0 == name,
    ensures
        position_of(selections, name) == at,
    decreases at,
{
    if at > 0 {
        let rest = selections.drop_first();
        assert forall|k: int| 0 <= k < at - 1 implies rest[k].0 != name by {
            assert(rest[k] == selections[k + 1]);
        }
        if at < selections.len() {
            assert(rest[at - 1] == selections[at]);
        }
        lemma_position_of(rest, name, at - 1);
    }
}

/// Records `entry` under `name`: behind the entries of the element of that
/// name, or in a new element behind the others where no element has the
/// name.
pub fn record(selections: &mut Vec<NamedSelections>, name: &String, entry: Selection)
    ensures
        named_views(final(selections)@) == recorded(named_views(old(selections)@), name@, entry@),
{
    let ghost before = named_views(selections@);
    let mut at: usize = 0;
    while at < selections.len() && !(selections[at].name == *name)
        invariant
            at <= selections.len(),
            named_views(selections@) == before,
            forall|k: int| 0 <= k < at ==> before[k].0 != name@,
        decreases selections.len() - at,
    {
        at = at + 1;
    }
    proof {
        lemma_position_of(before, name@, at as int);
    }
    if at < selections.len() {
        selections[at].entries.push(entry);
        assert(selections@[at as int]@.1 =~= before[at as int].1.push(entry@));
        assert(named_views(selections@) =~= recorded(before, name@, entry@));
    } else {
        let mut entries: Vec<Selection> = Vec::new();
        entries.push(entry);
        let named = NamedSelections { name: name.clone(), entries };
        assert(named@.1 =~= seq![entry@]);
        selections.push(named);
        assert(named_views(selections@) =~= recorded(before, name@, entry@));
    }
}

/// `indices` is what the selectors pick on the normals by the answers in
/// `flags`.
pub open spec fn picked_with(
    answers: spec_fn(ByNormalSelector, Vec3, bool) -> bool,
    selectors: Seq<Selector>,
    normals: Seq<Vec3>,
    indices: Seq<u32>,
    flags: Seq<Seq<bool>>,
) -> bool {
    answered_all(answers, selectors, normals, flags) && indices == picked_by_all(flags)
}

/// `indices` is a possible outcome of `pick`: what the selectors pick on
/// the normals by some flags that are answers.
pub open spec fn picks(
    answers: spec_fn(ByNormalSelector, Vec3, bool) -> bool,
    selectors: Seq<Selector>,
    normals: Seq<Vec3>,
    indices: Seq<u32>,
) -> bool {
    exists|flags: Seq<Seq<bool>>| #[trigger] picked_with(answers, selectors, normals, indices, flags)
}

/// Asks `is_selected` about every selector and every normal, selector by
/// selector and for each selector in the order of the normals, and
/// collects the positions of the normals it accepted.
pub fn pick<F: Fn(&ByNormalSelector, &Vec3) -> bool>(
    selectors: &[Selector],
    normals: &Vec<Vec3>,
    is_selected: &F,
) -> (indices: Vec<u32>)
    requires
        forall|s: &ByNormalSelector, n: &Vec3| call_requires(is_selected, (s, n)),
    ensures
        picks(answers_of(is_selected), selectors@, normals@, indices@),
{
    let mut indices: Vec<u32> = Vec::new();
    let ghost mut flags: Seq<Seq<bool>> = Seq::empty();
    let mut j: usize = 0;
    while j < selectors.len()
        invariant
            j <= selectors.len(),
            flags.len() == j,
            forall|k: int|
                0 <= k < j ==> answered(
                    answers_of(is_selected),
                    (#[trigger] selectors@[k])->ByNormal_0,
                    normals@,
                    flags[k],
                ),
            indices@ == picked_by_all(flags),
            forall|s: &ByNormalSelector, n: &Vec3| call_requires(is_selected, (s, n)),
        decreases selectors.len() - j,
    {
        match &selectors[j] {
            Selector::ByNormal(selector) => {
                let ghost mut answers: Seq<bool> = Seq::empty();
                let ghost found_before = indices@;
                let mut i: usize = 0;
                while i < normals.len()
                    invariant
                        i <= normals.len(),
                        answers.len() == i,
                        forall|k: int|
                            0 <= k < i ==> answers_of(is_selected)(
                                *selector,
                                #[trigger] normals@[k],
                                answers[k],
                            ),
                        indices@ == found_before + picked(answers),
                        forall|s: &ByNormalSelector, n: &Vec3| call_requires(is_selected, (s, n)),
                    decreases normals.len() - i,
                {
                    let accepted = is_selected(selector, &normals[i]);
                    proof {
                        assert(answers.push(accepted).drop_last() =~= answers);
                        answers = answers.push(accepted);
                    }
                    if accepted {
                        indices.push(#[verifier::truncate] (i as u32));
                    }
                    assert(indices@ =~= found_before + picked(answers));
                    i = i + 1;
                }
                proof {
                    assert(flags.push(answers).drop_last() =~= flags);
                    flags = flags.push(answers);
                }
            },
        }
        j = j + 1;
    }
    assert(picked_with(answers_of(is_selected), selectors@, normals@, indices@, flags));
    indices
}

/// What `picked` picks: the positions at which `flags` is true, each once,
/// in ascending order.
pub proof fn lemma_picked_positions(flags: Seq<bool>)
    requires
        flags.len() <= u32::MAX,
    ensures
        forall|k: int| 0 <= k < picked(flags).len() ==> (#[trigger] picked(flags)[k]) < flags.len()
            && flags[picked(flags)[k] as int],
        forall|k: int, l: int|
            0 <= k < l < picked(flags).len() ==> (#[trigger] picked(flags)[k]) < (
            #[trigger] picked(flags)[l]),
        forall|i: int| 0 <= i < flags.len() && flags[i] ==> picked(flags).contains(i as u32),
    decreases flags.len(),
{
    if flags.len() > 0 {
        let rest = flags.drop_last();
        lemma_picked_positions(rest);
        let last = (flags.len() - 1) as u32;
        assert forall|i: int| 0 <= i < flags.len() && flags[i] implies picked(flags).contains(
            i as u32,
        ) by {
            if i < flags.len() - 1 {
                assert(rest[i]);
                let k = choose|k: int| 0 <= k < picked(rest).len() && picked(rest)[k] == i as u32;
                assert(picked(flags)[k] == i as u32);
            } else {
                assert(picked(flags)[picked(rest).len() as int] == last);
            }
        }
    }
}

/// Where every flag is true, every position is picked.
pub proof fn lemma_picked_all(flags: Seq<bool>)
    requires
        flags.len() <= u32::MAX,
        forall|i: int| 0 <= i < flags.len() ==> flags[i],
    ensures
        picked(flags) == Seq::new(flags.len(), |i: int| i as u32),
    decreases flags.len(),
{
    if flags.len() > 0 {
        lemma_picked_all(flags.drop_last());
    }
    assert(picked(flags) =~= Seq::new(flags.len(), |i: int| i as u32));
}

/// Where no flag is true, nothing is picked.
pub proof fn lemma_picked_none(flags: Seq<bool>)
    requires
        forall|i: int| 0 <= i < flags.len() ==> !flags[i],
    ensures
        picked(flags) == Seq::<u32>::empty(),
    decreases flags.len(),
{
    if flags.len() > 0 {
        lemma_picked_none(flags.drop_last());
    }
}

/// The answers for `selector` on the normals admit no choice: for normal
/// `i` the only answer is `expected[i]`.
pub open spec fn decided(
    answers: spec_fn(ByNormalSelector, Vec3, bool) -> bool,
    selector: ByNormalSelector,
    normals: Seq<Vec3>,
    expected: Seq<bool>,
) -> bool {
    &&& expected.len() == normals.len()
    &&& forall|i: int, flag: bool|
        0 <= i < normals.len() && #[trigger] answers(selector, normals[i], flag) ==> flag
            == expected[i]
}

/// The answers for every selector on the normals admit no choice.
pub open spec fn decided_all(
    answers: spec_fn(ByNormalSelector, Vec3, bool) -> bool,
    selectors: Seq<Selector>,
    normals: Seq<Vec3>,
    expected: Seq<Seq<bool>>,
) -> bool {
    &&& expected.len() == selectors.len()
    &&& forall|j: int|
        0 <= j < selectors.len() ==> decided(
            answers,
            (#[trigger] selectors[j])->ByNormal_0,
            normals,
            expected[j],
        )
}

/// The answers for every selector on the normals of every mesh admit no
/// choice.
pub open spec fn decided_on(
    answers: spec_fn(ByNormalSelector, Vec3, bool) -> bool,
    selectors: Seq<Selector>,
    meshes: Seq<Mesh>,
    expected: Seq<Seq<Seq<bool>>>,
) -> bool {
    &&& expected.len() == meshes.len()
    &&& forall|m: int|
        0 <= m < meshes.len() ==> decided_all(
            answers,
            selectors,
            tested_normals(#[trigger] meshes[m]),
            expected[m],
        )
}

/// Answers that admit no choice are the expected ones.
pub proof fn lemma_answered_decided(
    answers: spec_fn(ByNormalSelector, Vec3, bool) -> bool,
    selectors: Seq<Selector>,
    normals: Seq<Vec3>,
    flags: Seq<Seq<bool>>,
    expected: Seq<Seq<bool>>,
)
    requires
        answered_all(answers, selectors, normals, flags),
        decided_all(answers, selectors, normals, expected),
    ensures
        flags == expected,
{
    assert forall|j: int| 0 <= j < flags.len() implies flags[j] == expected[j] by {
        let selector = selectors[j]->ByNormal_0;
        assert(answered(answers, selector, normals, flags[j]));
        assert(decided(answers, selector, normals, expected[j]));
        assert forall|i: int| 0 <= i < flags[j].len() implies flags[j][i] == expected[j][i] by {
            assert(answers(selector, normals[i], flags[j][i]));
        }
        assert(flags[j] =~= expected[j]);
    }
    assert(flags =~= expected);
}

/// With a predicate whose answers admit no choice, `pick` returns what the
/// expected answers pick.
pub proof fn lemma_picks_decided(
    answers: spec_fn(ByNormalSelector, Vec3, bool) -> bool,
    selectors: Seq<Selector>,
    normals: Seq<Vec3>,
    indices: Seq<u32>,
    expected: Seq<Seq<bool>>,
)
    requires
        picks(answers, selectors, normals, indices),
        decided_all(answers, selectors, normals, expected),
    ensures
        indices == picked_by_all(expected),
{
    let flags = choose|flags: Seq<Seq<bool>>| #[trigger]
        picked_with(answers, selectors, normals, indices, flags);
    lemma_answered_decided(answers, selectors, normals, flags, expected);
}

/// A named list of selectors.
pub struct SelectionGroup {
    pub name: String,
    pub selectors: SelectorList,
}

impl Default for SelectionGroup {
    /// The group without a name and without selectors.
    fn default() -> (group: Self)
        ensures
            group.name@ == Seq::<char>::empty(),
            selector_items(group.selectors) == Seq::<Selector>::empty(),
    {
        SelectionGroup { name: String::new(), selectors: SelectorList::from_vec(Vec::new()) }
    }
}

impl SelectionGroup {
    pub fn new(name: String, selectors: Vec<Selector>) -> (group: Self)
        ensures
            group.name@ == name@,
            selector_items(group.selectors) == selectors@,
    {
        SelectionGroup { name, selectors: SelectorList::from_vec(selectors) }
    }

    /// Adds the node to `store`.
    pub fn spawn(self, store: &mut NodeStore) -> (spawned: SpawnedNode)
        ensures
            final(store).spawned_from(*old(store), Node(Behavior::SelectionGroup(self))),
            spawned.id.0 == old(store).nodes@.len(),
            old(store).back_refs_are_sinks() ==> final(store).back_refs_are_sinks(),
            acyclic(old(store).graph()) ==> acyclic(final(store).graph()),
    {
        SpawnedNode { id: store.spawn(Node(Behavior::SelectionGroup(self))) }
    }

    /// `after` is `before` with what the group picks, by the answers in
    /// `flags`, recorded under its name; nothing else differs.
    pub open spec fn selects(
        self,
        answers: spec_fn(ByNormalSelector, Vec3, bool) -> bool,
        before: ProcessObjectView,
        after: ProcessObjectView,
        flags: Seq<Seq<Seq<bool>>>,
    ) -> bool {
        &&& answered_on(answers, selector_items(self.selectors), before.meshes, flags)
        &&& after == ProcessObjectView {
            selections: recorded_all(before.selections, self.name@, flags),
            ..before
        }
    }

}

impl CommonNode for SelectionGroup {
    /// The outcome depends on the answers: `after` is what `selects`
    /// describes for some flags that are answers.
    open spec fn processed(
        &self,
        id: NodeId,
        answers: spec_fn(ByNormalSelector, Vec3, bool) -> bool,
        before: ProcessObjectView,
        after: ProcessObjectView,
    ) -> bool {
        exists|flags: Seq<Seq<Seq<bool>>>| #[trigger] self.selects(answers, before, after, flags)
    }

    /// Goes over the meshes accumulated so far, in their order. On each it
    /// asks `is_selected` about every selector and every vertex normal, and
    /// records the accepted vertex indices under the group's name. A mesh on
    /// which nothing was accepted gets no entry.
    fn process<F: Fn(&ByNormalSelector, &Vec3) -> bool>(
        &self,
        id: NodeId,
        object: &mut ProcessObject,
        is_selected: &F,
    ) {
        let ghost before = object@;
        let ghost mut flags: Seq<Seq<Seq<bool>>> = Seq::empty();
        let selectors = self.selectors.as_slice();
        let mut idx: usize = 0;
        while idx < object.meshes.len()
            invariant
                idx <= object.meshes.len(),
                selectors@ == selector_items(self.selectors),
                object@.meshes == before.meshes,
                object@.materials == before.materials,
                object@.transform == before.transform,
                object@.global_transform == before.global_transform,
                flags.len() == idx,
                forall|m: int|
                    0 <= m < idx ==> answered_all(
                        answers_of(is_selected),
                        selectors@,
                        tested_normals(#[trigger] before.meshes[m]),
                        flags[m],
                    ),
                object@.selections == recorded_all(before.selections, self.name@, flags),
                forall|s: &ByNormalSelector, n: &Vec3| call_requires(is_selected, (s, n)),
            decreases object.meshes.len() - idx,
        {
            let normals = match normals_of(&object.meshes[idx]) {
                Some(found) => found,
                None => Vec::new(),
            };
            let indices = pick(selectors, &normals, is_selected);
            proof {
                let answers = choose|answers: Seq<Seq<bool>>| #[trigger]
                    picked_with(
                        answers_of(is_selected),
                        selectors@,
                        normals@,
                        indices@,
                        answers,
                    );
                assert(flags.push(answers).drop_last() =~= flags);
                flags = flags.push(answers);
            }
            if !indices.is_empty() {
                record(&mut object.selections, &self.name, Selection { mesh: idx, indices });
            }
            idx = idx + 1;
        }
        assert(self.selects(answers_of(is_selected), before, object@, flags));
    }
}

/// With a predicate whose answers admit no choice, processing a group has
/// one outcome: what the expected answers pick is recorded, mesh by mesh.
pub proof fn lemma_processed_decided(
    group: SelectionGroup,
    id: NodeId,
    answers: spec_fn(ByNormalSelector, Vec3, bool) -> bool,
    before: ProcessObjectView,
    after: ProcessObjectView,
    expected: Seq<Seq<Seq<bool>>>,
)
    requires
        group.processed(id, answers, before, after),
        decided_on(answers, selector_items(group.selectors), before.meshes, expected),
    ensures
        after == (ProcessObjectView {
            selections: recorded_all(before.selections, group.name@, expected),
            ..before
        }),
{
    let flags = choose|flags: Seq<Seq<Seq<bool>>>| #[trigger]
        group.selects(answers, before, after, flags);
    assert forall|m: int| 0 <= m < flags.len() implies flags[m] == expected[m] by {
        let normals = tested_normals(before.meshes[m]);
        lemma_answered_decided(
            answers,
            selector_items(group.selectors),
            normals,
            flags[m],
            expected[m],
        );
    }
    assert(flags =~= expected);
}

/// One selector on one mesh, nothing recorded before: where the answers
/// admit no choice and accept some normal, the outcome is one entry under
/// the group's name, for mesh 0, with the positions of the accepted
/// normals in ascending order.
pub proof fn lemma_one_mesh_selected(
    group: SelectionGroup,
    id: NodeId,
    answers: spec_fn(ByNormalSelector, Vec3, bool) -> bool,
    before: ProcessObjectView,
    after: ProcessObjectView,
    expected: Seq<bool>,
)
    requires
        group.processed(id, answers, before, after),
        before.meshes.len() == 1,
        before.selections.len() == 0,
        selector_items(group.selectors).len() == 1,
        decided(
            answers,
            selector_items(group.selectors)[0]->ByNormal_0,
            tested_normals(before.meshes[0]),
            expected,
        ),
    ensures
        after.meshes == before.meshes,
        after.selections == if picked(expected).len() > 0 {
            seq![(group.name@, seq![(0usize, picked(expected))])]
        } else {
            Seq::empty()
        },
{
    let all = seq![seq![expected]];
    assert(decided_all(
        answers,
        selector_items(group.selectors),
        tested_normals(before.meshes[0]),
        all[0],
    ));
    assert(decided_on(answers, selector_items(group.selectors), before.meshes, all));
    lemma_processed_decided(group, id, answers, before, after, all);
    assert(all.drop_last() =~= Seq::<Seq<Seq<bool>>>::empty());
    assert(all[0].drop_last() =~= Seq::<Seq<bool>>::empty());
    assert(picked_by_all(all[0].drop_last()) =~= Seq::<u32>::empty());
    assert(picked_by_all(all[0]) =~= picked(expected));
    assert(recorded_all(before.selections, group.name@, all.drop_last()) == before.selections);
    if picked(expected).len() > 0 {
        assert(position_of(before.selections, group.name@) == 0);
        assert(recorded(before.selections, group.name@, (0usize, picked(expected))) =~= seq![
            (group.name@, seq![(0usize, picked(expected))]),
        ]);
    } else {
        assert(after.selections =~= Seq::empty());
    }
}

} // verus!
