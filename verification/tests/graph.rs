use bevy::math::Vec3;
use bevy::pbr::StandardMaterial;
use bevy::render::color::Color;
use bevy::render::mesh::{shape, Mesh};
use bevy::render::render_resource::PrimitiveTopology;
use bevy::transform::components::Transform;
use copper::node::{
    Behavior, Box, ByNormalSelector, Final, Material, SelectionGroup, Selector,
};
use copper::process::{finalize, tick, EvalError, PbrState, ProcessObject};
use copper::store::NodeStore;
use copper::{
    find_entity, store_entity, CommonNode, Fetch, FetchMut, FetchingNode, Node, NodeId, Registry,
    UpdateEvent,
};

/// The angle between the normal and the selector's direction, against the
/// spread angle.
fn is_selected(selector: &ByNormalSelector, normal: &Vec3) -> bool {
    let direction = selector.direction;
    let angle = ((direction.x * normal.x + direction.y * normal.y + direction.z * normal.z)
        / direction.length())
    .acos();
    angle <= f32::from_bits(selector.spread_angle)
}

fn positions(mesh: &Mesh) -> Vec<[f32; 3]> {
    mesh.attribute(Mesh::ATTRIBUTE_POSITION)
        .and_then(|values| values.as_float3())
        .map(|values| values.to_vec())
        .unwrap_or_default()
}

fn box_positions(x: f32, y: f32, z: f32) -> Vec<[f32; 3]> {
    positions(&Mesh::from(shape::Box::new(x, y, z)))
}

#[test]
fn scenario_box_material_sink() {
    let mut store = NodeStore::new();
    let mut registry = Registry::new();
    let mut events: Vec<UpdateEvent> = Vec::new();

    let a = Box::new(Vec3::ONE).spawn(&mut store).save(&mut registry, "A".to_string());
    let m = Material::new(StandardMaterial::from(Color::rgb(0.8, 0.7, 0.6)))
        .spawn(&mut store)
        .save(&mut registry, "M".to_string())
        .inputs(&mut store, &[a.id]);
    let f = Final::new()
        .spawn(&mut store)
        .save(&mut registry, "F".to_string())
        .inputs(&mut store, &[m.id]);

    let (dropped, result) = tick(&mut store, &mut events, &is_selected);
    assert!(dropped.is_empty());
    assert_eq!(result, Ok(()));
    assert_eq!(store.state_of(f.id), Some(PbrState::Calculated));
    let first = {
        let artifact = store.artifact_of(f.id).unwrap();
        assert_eq!(artifact.material, Some(m.id));
        assert_eq!(store.material_of(f.id).unwrap().base_color, Color::rgb(0.8, 0.7, 0.6));
        assert!(artifact.global_transform.is_none());
        assert_eq!(artifact.transform, Some(Transform::identity()));
        positions(artifact.mesh.as_ref().unwrap())
    };
    assert_eq!(first, box_positions(1.0, 1.0, 1.0));

    {
        let mut handle =
            Box::find_mut("A", &registry, &mut store, &mut events).expect("A is a box");
        handle.cast().length = Vec3::new(2.0, 1.0, 1.0);
        handle.finalize();
    }
    assert_eq!(events.len(), 1);
    assert_eq!(events[0].0, f.id);

    let (dropped, result) = tick(&mut store, &mut events, &is_selected);
    assert!(dropped.is_empty());
    assert_eq!(result, Ok(()));
    assert!(events.is_empty());
    assert_eq!(store.state_of(f.id), Some(PbrState::Calculated));
    let second = positions(store.artifact_of(f.id).unwrap().mesh.as_ref().unwrap());
    assert_ne!(first, second);
    assert_eq!(second, box_positions(2.0, 1.0, 1.0));
}

#[test]
fn second_pass_changes_nothing() {
    let mut store = NodeStore::new();
    let a = Box::new(Vec3::new(1.0, 2.0, 3.0)).spawn(&mut store);
    let f = Final::new().spawn(&mut store).inputs(&mut store, &[a.id]);

    assert_eq!(finalize(&mut store, &is_selected), Ok(()));
    let first = positions(store.artifact_of(f.id).unwrap().mesh.as_ref().unwrap());
    let refs_first: Vec<usize> = store.nodes[a.id.0].finals.0.iter().copied().collect();

    assert_eq!(finalize(&mut store, &is_selected), Ok(()));
    let second = positions(store.artifact_of(f.id).unwrap().mesh.as_ref().unwrap());
    let refs_second: Vec<usize> = store.nodes[a.id.0].finals.0.iter().copied().collect();

    assert_eq!(first, second);
    assert_eq!(refs_first, vec![f.id.0]);
    assert_eq!(refs_second, vec![f.id.0]);
    assert_eq!(store.state_of(f.id), Some(PbrState::Calculated));
}

#[test]
fn mutation_reaches_only_the_dependent_sink() {
    let mut store = NodeStore::new();
    let mut events: Vec<UpdateEvent> = Vec::new();
    let a = Box::default().spawn(&mut store);
    let b = Box::default().spawn(&mut store);
    let s1 = Final::new().spawn(&mut store).inputs(&mut store, &[a.id]);
    let s2 = Final::new().spawn(&mut store).inputs(&mut store, &[b.id]);
    assert_eq!(finalize(&mut store, &is_selected), Ok(()));

    {
        let mut handle = Box::get_mut(a.id, &mut store, &mut events).unwrap();
        handle.cast().length = Vec3::new(3.0, 3.0, 3.0);
        handle.finalize();
    }
    let dropped = copper::node::sink::final_update(&mut events, &mut store);
    assert!(dropped.is_empty());
    assert_eq!(store.state_of(s1.id), Some(PbrState::NotCalculated));
    assert_eq!(store.state_of(s2.id), Some(PbrState::Calculated));
}

#[test]
fn mutation_of_a_shared_node_reaches_both_sinks() {
    let mut store = NodeStore::new();
    let mut events: Vec<UpdateEvent> = Vec::new();
    let shared = Box::default().spawn(&mut store);
    let left = Material::default().spawn(&mut store).inputs(&mut store, &[shared.id]);
    let right = Material::default().spawn(&mut store).inputs(&mut store, &[shared.id]);
    let s1 = Final::new().spawn(&mut store).inputs(&mut store, &[left.id]);
    let s2 = Final::new().spawn(&mut store).inputs(&mut store, &[right.id]);
    assert_eq!(tick(&mut store, &mut events, &is_selected).1, Ok(()));

    {
        let mut handle = Box::get_mut(shared.id, &mut store, &mut events).unwrap();
        handle.cast().length = Vec3::new(1.0, 5.0, 1.0);
        handle.finalize();
    }
    let mut asked: Vec<usize> = events.iter().map(|event| event.0 .0).collect();
    asked.sort();
    assert_eq!(asked, vec![s1.id.0, s2.id.0]);

    copper::node::sink::final_update(&mut events, &mut store);
    assert_eq!(store.state_of(s1.id), Some(PbrState::NotCalculated));
    assert_eq!(store.state_of(s2.id), Some(PbrState::NotCalculated));
}

#[test]
fn three_writes_one_release_one_batch() {
    let mut store = NodeStore::new();
    let mut events: Vec<UpdateEvent> = Vec::new();
    let a = Box::default().spawn(&mut store);
    let f = Final::new().spawn(&mut store).inputs(&mut store, &[a.id]);
    assert_eq!(finalize(&mut store, &is_selected), Ok(()));

    {
        let mut handle = Box::get_mut(a.id, &mut store, &mut events).unwrap();
        handle.cast().length = Vec3::new(2.0, 1.0, 1.0);
        handle.cast().length = Vec3::new(2.0, 2.0, 1.0);
        handle.cast().transform = Transform::from_xyz(0.0, 0.5, 0.0);
        assert!(handle.finalize().is_some());
        assert!(handle.finalize().is_none());
    }
    assert_eq!(events.len(), 1);
    assert_eq!(events[0].0, f.id);
}

#[test]
fn every_write_handle_sends_on_release() {
    let mut store = NodeStore::new();
    let mut registry = Registry::new();
    let a = Box::default().spawn(&mut store).save(&mut registry, "a".to_string());
    let f = Final::new().spawn(&mut store).inputs(&mut store, &[a.id]);
    assert_eq!(finalize(&mut store, &is_selected), Ok(()));

    let mut events: Vec<UpdateEvent> = Vec::new();
    {
        let mut handle = FetchMut::<Box>::new(a.id, &mut store, &mut events).unwrap();
        handle.cast().length = Vec3::new(2.0, 1.0, 1.0);
        assert!(handle.finalize().is_some());
    }
    {
        let mut handle = FetchMut::<Box>::find("a", &registry, &mut store, &mut events).unwrap();
        assert!(handle.finalize().is_some());
    }
    {
        let mut handle =
            FetchMut::<Box>::new_with_finals_updater(a.id, &mut store, &mut events).unwrap();
        assert!(handle.finalize().is_some());
    }
    {
        let mut handle =
            FetchMut::<Box>::find_with_finals_updater("a", &registry, &mut store, &mut events)
                .unwrap();
        assert!(handle.finalize().is_some());
    }
    {
        let mut handle = Box::get_mut(a.id, &mut store, &mut events).unwrap();
        assert!(handle.finalize().is_some());
    }
    {
        let mut handle = Box::find_mut("a", &registry, &mut store, &mut events).unwrap();
        assert!(handle.finalize().is_some());
    }
    assert_eq!(events.len(), 6);
    assert!(events.iter().all(|event| event.0 == f.id));
    assert_eq!(store.get(a.id).map(|node| matches!(node, Node(Behavior::Box(_)))), Some(true));
    assert_eq!(Box::get(a.id, &store).unwrap().length, Vec3::new(2.0, 1.0, 1.0));
}

#[test]
fn write_to_a_material_reaches_the_sink() {
    let mut store = NodeStore::new();
    let mut events: Vec<UpdateEvent> = Vec::new();
    let m = Material::default().spawn(&mut store);
    let f = Final::new().spawn(&mut store).inputs(&mut store, &[m.id]);
    assert_eq!(tick(&mut store, &mut events, &is_selected).1, Ok(()));
    {
        let mut handle = FetchMut::<Material>::new(m.id, &mut store, &mut events).unwrap();
        handle.cast().material.base_color = Color::rgb(0.0, 0.0, 1.0);
        handle.finalize();
    }
    assert_eq!(events.len(), 1);
    assert_eq!(events[0].0, f.id);
    copper::node::sink::final_update(&mut events, &mut store);
    assert_eq!(store.state_of(f.id), Some(PbrState::NotCalculated));
}

#[test]
fn first_mesh_wins() {
    let mut store = NodeStore::new();
    let first = Box::new(Vec3::new(1.0, 2.0, 3.0)).spawn(&mut store);
    let second = Box::new(Vec3::new(4.0, 5.0, 6.0)).spawn(&mut store);
    let f = Final::new().spawn(&mut store).inputs(&mut store, &[first.id, second.id]);
    assert_eq!(finalize(&mut store, &is_selected), Ok(()));
    let mesh = positions(store.artifact_of(f.id).unwrap().mesh.as_ref().unwrap());
    assert_eq!(mesh, box_positions(1.0, 2.0, 3.0));
}

#[test]
fn inputs_produce_before_the_node_that_reads_them() {
    // The group sits above the box, so the box's mesh is in the accumulator
    // when the group is processed.
    let mut store = NodeStore::new();
    let cube = Box::default().spawn(&mut store);
    let up = Selector::ByNormal(ByNormalSelector {
        direction: Vec3::Y,
        spread_angle: 0.0f32.to_bits(),
    });
    let group = SelectionGroup::new("top".to_string(), vec![up])
        .spawn(&mut store)
        .inputs(&mut store, &[cube.id]);
    let mut object = ProcessObject::default();
    store.nodes[cube.id.0].node.process(cube.id, &mut object, &is_selected);
    store.nodes[group.id.0].node.process(group.id, &mut object, &is_selected);
    assert_eq!(object.meshes.len(), 1);
    assert_eq!(object.selections.len(), 1);
    assert_eq!(object.selections[0].name, "top");
    assert_eq!(object.selections[0].entries.len(), 1);
    assert_eq!(object.selections[0].entries[0].mesh, 0);
    assert_eq!(object.selections[0].entries[0].indices, vec![16, 17, 18, 19]);
}

#[test]
fn spread_angle_zero_and_pi() {
    let mut object = ProcessObject::default();
    Box::default().process(NodeId(0), &mut object, &is_selected);

    let exact = SelectionGroup::new(
        "exact".to_string(),
        vec![Selector::ByNormal(ByNormalSelector {
            direction: Vec3::Y,
            spread_angle: 0.0f32.to_bits(),
        })],
    );
    exact.process(NodeId(0), &mut object, &is_selected);
    let all = SelectionGroup::new(
        "all".to_string(),
        vec![Selector::ByNormal(ByNormalSelector {
            direction: Vec3::Y,
            spread_angle: std::f32::consts::PI.to_bits(),
        })],
    );
    all.process(NodeId(0), &mut object, &is_selected);

    assert_eq!(object.selections.len(), 2);
    assert_eq!(object.selections[0].name, "exact");
    assert_eq!(object.selections[0].entries[0].indices, vec![16, 17, 18, 19]);
    assert_eq!(object.selections[1].name, "all");
    assert_eq!(object.selections[1].entries[0].indices, (0..24).collect::<Vec<u32>>());
}

#[test]
fn selection_over_several_meshes_and_selectors() {
    let mut object = ProcessObject::default();
    Box::default().process(NodeId(0), &mut object, &is_selected);
    Box::new(Vec3::new(2.0, 2.0, 2.0)).process(NodeId(0), &mut object, &is_selected);
    let up = Selector::ByNormal(ByNormalSelector {
        direction: Vec3::Y,
        spread_angle: 0.1f32.to_bits(),
    });
    let down = Selector::ByNormal(ByNormalSelector {
        direction: Vec3::new(0.0, -2.0, 0.0),
        spread_angle: 0.1f32.to_bits(),
    });
    let group = SelectionGroup::new("caps".to_string(), vec![up, down]);
    group.process(NodeId(0), &mut object, &is_selected);
    group.process(NodeId(0), &mut object, &is_selected);

    assert_eq!(object.selections.len(), 1);
    let entries = &object.selections[0].entries;
    assert_eq!(entries.len(), 4);
    assert_eq!(entries[0].mesh, 0);
    assert_eq!(entries[1].mesh, 1);
    assert_eq!(entries[2].mesh, 0);
    assert_eq!(entries[3].mesh, 1);
    for entry in entries {
        assert_eq!(entry.indices, vec![16, 17, 18, 19, 20, 21, 22, 23]);
    }
}

#[test]
fn mesh_without_matches_gets_no_entry() {
    let mut object = ProcessObject::default();
    Box::default().process(NodeId(0), &mut object, &is_selected);
    let nothing = SelectionGroup::new(
        "none".to_string(),
        vec![Selector::ByNormal(ByNormalSelector {
            direction: Vec3::new(1.0, 1.0, 1.0),
            spread_angle: 0.1f32.to_bits(),
        })],
    );
    nothing.process(NodeId(0), &mut object, &is_selected);
    assert!(object.selections.is_empty());

    let empty = SelectionGroup::new("empty".to_string(), Vec::new());
    empty.process(NodeId(0), &mut object, &is_selected);
    assert!(object.selections.is_empty());
}

#[test]
fn sink_without_inputs_gets_the_empty_artifact() {
    let mut store = NodeStore::new();
    let f = Final::new().spawn(&mut store);
    assert_eq!(store.state_of(f.id), Some(PbrState::NotCalculated));
    assert_eq!(finalize(&mut store, &is_selected), Ok(()));
    assert_eq!(store.state_of(f.id), Some(PbrState::Calculated));
    let artifact = store.artifact_of(f.id).unwrap();
    assert!(artifact.mesh.is_none());
    assert!(artifact.material.is_none());
    assert!(artifact.transform.is_none());
    assert!(artifact.global_transform.is_none());
}

#[test]
fn placements_compose_in_production_order() {
    let outer = Transform::from_xyz(1.0, 2.0, 3.0).with_scale(Vec3::new(2.0, 2.0, 2.0));
    let inner = Transform::from_xyz(0.5, 0.0, -1.0);
    let mut object = ProcessObject::default();
    Box::default().with_transform(outer).process(NodeId(0), &mut object, &is_selected);
    assert_eq!(object.transform, Some(outer));
    Box::default().with_transform(inner).process(NodeId(0), &mut object, &is_selected);
    assert_eq!(object.transform, Some(outer.mul_transform(inner)));
    assert_eq!(object.transform.unwrap().translation, Vec3::new(2.0, 2.0, 1.0));
    assert_eq!(object.meshes.len(), 2);
}

#[test]
fn material_node_enters_itself_in_the_accumulator() {
    let node = Material::new(StandardMaterial::from(Color::rgb(0.1, 0.2, 0.3)));
    let mut object = ProcessObject::default();
    node.process(NodeId(4), &mut object, &is_selected);
    node.process(NodeId(9), &mut object, &is_selected);
    assert_eq!(object.materials, vec![NodeId(4), NodeId(9)]);
    assert!(object.meshes.is_empty() && object.selections.is_empty());
    assert!(object.transform.is_none());
    assert_eq!(node.material.base_color, Color::rgb(0.1, 0.2, 0.3));
}

#[test]
fn material_of_reads_the_node_that_the_artifact_names() {
    let mut store = NodeStore::new();
    let cube = Box::default().spawn(&mut store);
    let red = Material::new(StandardMaterial::from(Color::rgb(1.0, 0.0, 0.0))).spawn(&mut store);
    let green = Material::new(StandardMaterial::from(Color::rgb(0.0, 1.0, 0.0))).spawn(&mut store);
    let both = Final::new().spawn(&mut store).inputs(&mut store, &[cube.id, green.id, red.id]);
    let bare = Final::new().spawn(&mut store).inputs(&mut store, &[cube.id]);
    assert!(store.material_of(both.id).is_none());
    assert_eq!(finalize(&mut store, &is_selected), Ok(()));
    assert_eq!(store.artifact_of(both.id).unwrap().material, Some(green.id));
    assert_eq!(store.material_of(both.id).unwrap().base_color, Color::rgb(0.0, 1.0, 0.0));
    assert_eq!(store.artifact_of(bare.id).unwrap().material, None);
    assert!(store.material_of(bare.id).is_none());
    assert!(store.material_of(cube.id).is_none());
    assert!(store.material_of(NodeId(40)).is_none());
}

#[test]
fn into_pbr_takes_the_first_of_each() {
    let mut object = ProcessObject::default();
    Material::new(StandardMaterial::from(Color::rgb(1.0, 0.0, 0.0)))
        .process(NodeId(7), &mut object, &is_selected);
    Material::new(StandardMaterial::from(Color::rgb(0.0, 1.0, 0.0)))
        .process(NodeId(3), &mut object, &is_selected);
    Box::new(Vec3::new(1.0, 2.0, 3.0)).process(NodeId(0), &mut object, &is_selected);
    Box::new(Vec3::new(3.0, 2.0, 1.0)).process(NodeId(0), &mut object, &is_selected);
    let artifact = object.into_pbr();
    assert_eq!(artifact.material, Some(NodeId(7)));
    assert_eq!(positions(&artifact.mesh.unwrap()), box_positions(1.0, 2.0, 3.0));
}

#[test]
fn dangling_edge_aborts_the_pass() {
    let mut store = NodeStore::new();
    let a = Box::default().spawn(&mut store);
    let good = Final::new().spawn(&mut store).inputs(&mut store, &[a.id]);
    let bad = Final::new().spawn(&mut store).inputs(&mut store, &[a.id, NodeId(99)]);
    let late = Final::new().spawn(&mut store);
    let result = finalize(&mut store, &is_selected);
    assert_eq!(result, Err(EvalError::DanglingEdge { sink: bad.id, node: NodeId(99) }));
    assert_eq!(result.unwrap_err().sink(), bad.id);
    assert_eq!(result.unwrap_err().node(), NodeId(99));
    assert_eq!(store.state_of(good.id), Some(PbrState::Calculated));
    assert_eq!(store.state_of(bad.id), Some(PbrState::NotCalculated));
    assert_eq!(store.state_of(late.id), Some(PbrState::NotCalculated));
    let mut refs: Vec<usize> = store.nodes[a.id.0].finals.0.iter().copied().collect();
    refs.sort();
    assert_eq!(refs, vec![good.id.0, bad.id.0]);
}

#[test]
fn sink_as_input_aborts_the_pass() {
    let mut store = NodeStore::new();
    let inner = Final::new().spawn(&mut store);
    let outer = Final::new().spawn(&mut store).inputs(&mut store, &[inner.id]);
    let result = finalize(&mut store, &is_selected);
    assert_eq!(result, Err(EvalError::SinkAsInput { sink: outer.id, node: inner.id }));
    assert_eq!(store.state_of(inner.id), Some(PbrState::Calculated));
    assert_eq!(store.state_of(outer.id), Some(PbrState::NotCalculated));
}

#[test]
fn events_for_missing_sinks_are_handed_back() {
    let mut store = NodeStore::new();
    let a = Box::default().spawn(&mut store);
    let f = Final::new().spawn(&mut store).inputs(&mut store, &[a.id]);
    assert_eq!(finalize(&mut store, &is_selected), Ok(()));
    let mut events = vec![UpdateEvent(NodeId(7)), UpdateEvent(f.id), UpdateEvent(a.id)];
    let dropped = copper::node::sink::final_update(&mut events, &mut store);
    assert!(events.is_empty());
    assert_eq!(dropped.len(), 2);
    assert_eq!(dropped[0].0, NodeId(7));
    assert_eq!(dropped[1].0, a.id);
    assert_eq!(store.state_of(f.id), Some(PbrState::NotCalculated));
    assert!(store.artifact_of(f.id).unwrap().mesh.is_some());
}

#[test]
fn registry_last_write_wins() {
    let mut registry = Registry::new();
    assert_eq!(find_entity(&registry, "a"), None);
    store_entity(&mut registry, "a".to_string(), NodeId(1));
    store_entity(&mut registry, "b".to_string(), NodeId(2));
    assert_eq!(find_entity(&registry, "a"), Some(NodeId(1)));
    store_entity(&mut registry, "a".to_string(), NodeId(3));
    assert_eq!(find_entity(&registry, "a"), Some(NodeId(3)));
    assert_eq!(find_entity(&registry, "b"), Some(NodeId(2)));
    assert_eq!(find_entity(&registry, "c"), None);
}

#[test]
fn typed_access_fails_safely() {
    let mut store = NodeStore::new();
    let mut registry = Registry::new();
    let a = Box::new(Vec3::new(1.0, 2.0, 3.0))
        .spawn(&mut store)
        .save(&mut registry, "a".to_string());
    store_entity(&mut registry, "gone".to_string(), NodeId(42));

    assert_eq!(Fetch::<Box>::new(a.id, &store).unwrap().cast().length, Vec3::new(1.0, 2.0, 3.0));
    assert_eq!(Box::find("a", &registry, &store).unwrap().cast().length, Vec3::new(1.0, 2.0, 3.0));
    assert!(Box::get(a.id, &store).is_some());
    assert!(Material::get(a.id, &store).is_none());
    assert!(Final::get(a.id, &store).is_none());
    assert!(Box::get(NodeId(42), &store).is_none());
    assert!(Box::find("gone", &registry, &store).is_none());
    assert!(Box::find("nobody", &registry, &store).is_none());
    let mut events: Vec<UpdateEvent> = vec![UpdateEvent(NodeId(8))];
    assert!(FetchMut::<Material>::new(a.id, &mut store, &mut events).is_none());
    assert!(FetchMut::<Box>::new(NodeId(42), &mut store, &mut events).is_none());
    assert!(FetchMut::<Box>::find("nobody", &registry, &mut store, &mut events).is_none());
    assert!(FetchMut::<Box>::find("gone", &registry, &mut store, &mut events).is_none());
    assert!(Material::find_mut("a", &registry, &mut store, &mut events).is_none());
    assert!(Material::get_mut(a.id, &mut store, &mut events).is_none());
    assert_eq!(events.len(), 1);
}

#[test]
fn store_keeps_nodes_and_edges() {
    let mut store = NodeStore::new();
    assert_eq!(store.len(), 0);
    let a = Box::default().spawn(&mut store);
    let b = Material::default().spawn(&mut store);
    assert_eq!(a.id, NodeId(0));
    assert_eq!(b.id, NodeId(1));
    store.link(b.id, &[a.id]);
    store.link(b.id, &[a.id, NodeId(5)]);
    assert_eq!(store.len(), 2);
    assert_eq!(store.nodes[1].inputs, vec![a.id, a.id, NodeId(5)]);
    assert!(store.nodes[0].inputs.is_empty());
    assert!(store.nodes[0].finals.0.is_empty());
    assert!(matches!(store.get(a.id), Some(Node(Behavior::Box(_)))));
    assert!(store.get(NodeId(2)).is_none());
    assert!(store.sink(a.id).is_none());
    assert!(store.artifact_of(a.id).is_none());
    assert!(store.state_of(NodeId(9)).is_none());
}

#[test]
fn a_shared_input_produces_once_per_path() {
    let mut store = NodeStore::new();
    let shared = Box::default().spawn(&mut store);
    let left = Material::default().spawn(&mut store).inputs(&mut store, &[shared.id]);
    let right = Material::default().spawn(&mut store).inputs(&mut store, &[shared.id]);
    let group = SelectionGroup::new(
        "all".to_string(),
        vec![Selector::ByNormal(ByNormalSelector {
            direction: Vec3::Y,
            spread_angle: std::f32::consts::PI.to_bits(),
        })],
    )
    .spawn(&mut store)
    .inputs(&mut store, &[left.id, right.id]);
    let mut object = ProcessObject::default();
    // Node by node, in the order of the walk: shared, left, shared, right, group.
    for at in [shared.id, left.id, shared.id, right.id, group.id] {
        store.nodes[at.0].node.process(at, &mut object, &is_selected);
    }
    let f = Final::new().spawn(&mut store).inputs(&mut store, &[group.id]);
    assert_eq!(finalize(&mut store, &is_selected), Ok(()));
    assert_eq!(object.meshes.len(), 2);
    assert_eq!(object.materials, vec![left.id, right.id]);
    assert_eq!(object.selections[0].entries.len(), 2);
    let artifact = store.artifact_of(f.id).unwrap();
    assert_eq!(positions(artifact.mesh.as_ref().unwrap()), box_positions(1.0, 1.0, 1.0));
    assert_eq!(artifact.material, Some(left.id));
    for at in [shared.id, left.id, right.id, group.id] {
        let refs: Vec<usize> = store.nodes[at.0].finals.0.iter().copied().collect();
        assert_eq!(refs, vec![f.id.0]);
    }
}

#[test]
fn cycles_are_found() {
    let mut store = NodeStore::new();
    assert!(store.is_acyclic());
    let a = Box::default().spawn(&mut store);
    let b = Material::default().spawn(&mut store).inputs(&mut store, &[a.id]);
    let c = Material::default().spawn(&mut store).inputs(&mut store, &[a.id, b.id]);
    let f = Final::new().spawn(&mut store).inputs(&mut store, &[c.id, b.id, NodeId(77)]);
    assert!(store.is_acyclic());
    store.link(a.id, &[c.id]);
    assert!(!store.is_acyclic());

    let mut own = NodeStore::new();
    let alone = Box::default().spawn(&mut own);
    own.link(alone.id, &[alone.id]);
    assert!(!own.is_acyclic());

    let mut late = NodeStore::new();
    let first = Material::default().spawn(&mut late).inputs(&mut late, &[NodeId(1)]);
    assert!(late.is_acyclic());
    let second = Box::default().spawn(&mut late);
    assert!(late.is_acyclic());
    second.inputs(&mut late, &[first.id]);
    assert!(!late.is_acyclic());
    assert_eq!(f.id, NodeId(3));
}

#[test]
fn defaults() {
    let cube = Box::default();
    assert_eq!(cube.length, Vec3::ONE);
    assert_eq!(cube.transform, Transform::identity());
    let sized = Box::new(Vec3::new(1.0, 2.0, 3.0));
    assert_eq!(sized.length, Vec3::new(1.0, 2.0, 3.0));
    assert_eq!(sized.transform, Transform::identity());
    let placed = sized.with_transform(Transform::from_xyz(1.0, 0.0, 0.0));
    assert_eq!(placed.length, Vec3::new(1.0, 2.0, 3.0));
    assert_eq!(placed.transform, Transform::from_xyz(1.0, 0.0, 0.0));

    assert_eq!(Material::default().material.base_color, StandardMaterial::default().base_color);

    let group = SelectionGroup::default();
    assert_eq!(group.name, "");
    let mut object = ProcessObject::default();
    Box::default().process(NodeId(0), &mut object, &is_selected);
    group.process(NodeId(0), &mut object, &is_selected);
    assert!(object.selections.is_empty());

    let sink = Final::default();
    assert_eq!(sink.pbr_state, PbrState::NotCalculated);
    assert!(sink.pbr.mesh.is_none() && sink.pbr.material.is_none());
    assert!(sink.pbr.transform.is_none() && sink.pbr.global_transform.is_none());

    let object = ProcessObject::default();
    assert!(object.meshes.is_empty() && object.materials.is_empty());
    assert!(object.selections.is_empty());
    assert!(object.transform.is_none() && object.global_transform.is_none());

    assert_eq!(NodeStore::default().len(), 0);
    assert_eq!(find_entity(&Registry::default(), "a"), None);
}

#[test]
fn read_handle_dereferences_to_the_value() {
    let mut store = NodeStore::new();
    let a = Material::new(StandardMaterial::from(Color::rgb(0.5, 0.5, 0.5))).spawn(&mut store);
    let handle = Material::get(a.id, &store).unwrap();
    assert_eq!(handle.material.base_color, Color::rgb(0.5, 0.5, 0.5));
    assert_eq!(handle.cast().material.base_color, Color::rgb(0.5, 0.5, 0.5));
}

#[test]
fn attached_queue_keeps_what_was_pending() {
    let mut store = NodeStore::new();
    let a = Box::default().spawn(&mut store);
    let f = Final::new().spawn(&mut store).inputs(&mut store, &[a.id]);
    let g = Final::new().spawn(&mut store).inputs(&mut store, &[a.id]);
    assert_eq!(finalize(&mut store, &is_selected), Ok(()));
    let mut spare: Vec<UpdateEvent> = Vec::new();
    let mut events = vec![UpdateEvent(NodeId(5))];
    {
        let handle = FetchMut::<Box>::new(a.id, &mut store, &mut spare).unwrap();
        let mut handle = handle.with_finals_updater(&mut events);
        handle.finalize();
    }
    assert!(spare.is_empty());
    assert_eq!(events.len(), 3);
    assert_eq!(events[0].0, NodeId(5));
    let mut asked = vec![events[1].0 .0, events[2].0 .0];
    asked.sort();
    assert_eq!(asked, vec![f.id.0, g.id.0]);
}

#[test]
fn pick_on_given_normals() {
    let normals = vec![
        Vec3::new(0.0, 1.0, 0.0),
        Vec3::new(1.0, 0.0, 0.0),
        Vec3::new(0.0, 1.0, 0.0),
        Vec3::new(0.0, -1.0, 0.0),
        Vec3::new(0.0, 0.0, 1.0),
    ];
    let up = |spread: f32| {
        Selector::ByNormal(ByNormalSelector { direction: Vec3::Y, spread_angle: spread.to_bits() })
    };
    assert_eq!(copper::node::selection_group::pick(&[up(0.0)], &normals, &is_selected), vec![0, 2]);
    assert_eq!(
        copper::node::selection_group::pick(&[up(std::f32::consts::PI)], &normals, &is_selected),
        vec![0, 1, 2, 3, 4]
    );
    assert_eq!(
        copper::node::selection_group::pick(&[up(1.6)], &normals, &is_selected),
        vec![0, 1, 2, 4]
    );
    // Selector by selector: the picks of the first stand before those of the second.
    let down = Selector::ByNormal(ByNormalSelector {
        direction: Vec3::new(0.0, -3.0, 0.0),
        spread_angle: 0.0f32.to_bits(),
    });
    assert_eq!(
        copper::node::selection_group::pick(&[down, up(0.0), down], &normals, &is_selected),
        vec![3, 0, 2, 3]
    );
    assert!(copper::node::selection_group::pick(&[], &normals, &is_selected).is_empty());
    assert!(copper::node::selection_group::pick(&[up(0.0)], &Vec::new(), &is_selected).is_empty());
    // The answers alone decide, whatever the selector holds.
    let odd = |_: &ByNormalSelector, normal: &Vec3| normal.y != 1.0;
    assert_eq!(copper::node::selection_group::pick(&[up(0.0)], &normals, &odd), vec![1, 3, 4]);
}

#[test]
fn record_under_names() {
    let mut selections = Vec::new();
    let entry = |mesh: usize, indices: Vec<u32>| copper::Selection { mesh, indices };
    copper::node::selection_group::record(&mut selections, &"a".to_string(), entry(0, vec![1]));
    copper::node::selection_group::record(&mut selections, &"b".to_string(), entry(1, vec![2, 3]));
    copper::node::selection_group::record(&mut selections, &"a".to_string(), entry(2, vec![]));
    copper::node::selection_group::record(&mut selections, &"".to_string(), entry(3, vec![4]));
    copper::node::selection_group::record(&mut selections, &"b".to_string(), entry(0, vec![5]));
    let seen: Vec<(String, Vec<(usize, Vec<u32>)>)> = selections
        .iter()
        .map(|named| {
            let entries = named.entries.iter().map(|e| (e.mesh, e.indices.clone())).collect();
            (named.name.clone(), entries)
        })
        .collect();
    assert_eq!(
        seen,
        vec![
            ("a".to_string(), vec![(0, vec![1]), (2, vec![])]),
            ("b".to_string(), vec![(1, vec![2, 3]), (0, vec![5])]),
            ("".to_string(), vec![(3, vec![4])]),
        ]
    );
}

#[test]
fn walk_of_one_input_stamps_and_produces_in_order() {
    let mut store = NodeStore::new();
    let a = Box::new(Vec3::new(1.0, 2.0, 3.0)).spawn(&mut store);
    let b = Box::new(Vec3::new(4.0, 5.0, 6.0)).spawn(&mut store);
    let m = Material::default().spawn(&mut store).inputs(&mut store, &[b.id, a.id]);
    let lone = Box::default().spawn(&mut store);
    let above = Material::default().spawn(&mut store).inputs(&mut store, &[m.id]);
    let f = Final::new().spawn(&mut store).inputs(&mut store, &[above.id, lone.id]);

    let mut object = ProcessObject::default();
    let result = copper::process::process_input(f.id, m.id, &mut store, &mut object, &is_selected);
    assert_eq!(result, Ok(()));
    // The inputs in edge order first, the node itself last.
    assert_eq!(object.meshes.len(), 2);
    assert_eq!(positions(&object.meshes[0]), box_positions(4.0, 5.0, 6.0));
    assert_eq!(positions(&object.meshes[1]), box_positions(1.0, 2.0, 3.0));
    assert_eq!(object.materials, vec![m.id]);
    // Entered nodes carry the sink; nodes outside the walk do not.
    for at in [a.id, b.id, m.id] {
        let refs: Vec<usize> = store.nodes[at.0].finals.0.iter().copied().collect();
        assert_eq!(refs, vec![f.id.0]);
    }
    for at in [lone.id, above.id, f.id] {
        assert!(store.nodes[at.0].finals.0.is_empty());
    }
    assert_eq!(store.state_of(f.id), Some(PbrState::NotCalculated));
}

#[test]
fn walk_stops_where_an_input_fails() {
    let mut store = NodeStore::new();
    let a = Box::default().spawn(&mut store);
    let b = Box::default().spawn(&mut store);
    let m = Material::default().spawn(&mut store).inputs(&mut store, &[a.id, NodeId(50), b.id]);
    let f = Final::new().spawn(&mut store);

    let mut object = ProcessObject::default();
    let result = copper::process::process_input(f.id, m.id, &mut store, &mut object, &is_selected);
    assert_eq!(result, Err(EvalError::DanglingEdge { sink: f.id, node: NodeId(50) }));
    assert_eq!(object.meshes.len(), 1);
    assert!(object.materials.is_empty());
    assert_eq!(store.nodes[a.id.0].finals.0.len(), 1);
    assert_eq!(store.nodes[m.id.0].finals.0.len(), 1);
    assert!(store.nodes[b.id.0].finals.0.is_empty());

    let mut object = ProcessObject::default();
    let result = copper::process::process_input(f.id, f.id, &mut store, &mut object, &is_selected);
    assert_eq!(result, Err(EvalError::SinkAsInput { sink: f.id, node: f.id }));
    let result =
        copper::process::process_inputs(f.id, m.id.0, &mut store, &mut object, &is_selected);
    assert_eq!(result, Err(EvalError::DanglingEdge { sink: f.id, node: NodeId(50) }));
    assert_eq!(object.meshes.len(), 1);
}

#[test]
fn mesh_without_normals_offers_nothing_to_pick() {
    let mut object = ProcessObject::default();
    object.meshes.push(Mesh::new(PrimitiveTopology::TriangleList));
    Box::default().process(NodeId(0), &mut object, &is_selected);
    let all = SelectionGroup::new(
        "all".to_string(),
        vec![Selector::ByNormal(ByNormalSelector {
            direction: Vec3::Y,
            spread_angle: std::f32::consts::PI.to_bits(),
        })],
    );
    all.process(NodeId(1), &mut object, &is_selected);
    assert_eq!(object.selections.len(), 1);
    assert_eq!(object.selections[0].entries.len(), 1);
    assert_eq!(object.selections[0].entries[0].mesh, 1);
    assert_eq!(object.selections[0].entries[0].indices.len(), 24);
}

#[test]
fn primitive_types() {
    let kinds = [
        copper::PrimitiveType::Polygon,
        copper::PrimitiveType::PolygonMesh,
        copper::PrimitiveType::Mesh,
        copper::PrimitiveType::Nurbs,
        copper::PrimitiveType::Bezier,
        copper::PrimitiveType::Points,
    ];
    assert!(matches!(kinds[3], copper::PrimitiveType::Nurbs));
    assert_eq!(kinds.len(), 6);
}
