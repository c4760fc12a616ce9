use galeon_engine::entity::Entity;
use galeon_engine::extract::{
    extract_rows, extract_rows_incremental, RenderKeys, RenderValue, CHANGED_INSTANCE_GROUP, CHANGED_MATERIAL,
    CHANGED_MESH, CHANGED_OBJECT_TYPE, CHANGED_PARENT, CHANGED_TINT, CHANGED_TRANSFORM, CHANGED_VISIBILITY,
    SCENE_ROOT,
};
use galeon_engine::world::World;

#[derive(Debug, Clone, PartialEq)]
enum C {
    Transform([f32; 3]),
    Visible(bool),
    Mesh(u32),
    Material(u32),
    Parent(Entity),
    Object(u8),
    Instance(u32),
    Tint([f32; 3]),
}

impl RenderValue for C {
    fn parent_target(&self) -> Option<Entity> {
        match self {
            C::Parent(e) => Some(*e),
            _ => None,
        }
    }
}

const KEYS: RenderKeys = RenderKeys {
    transform: 1,
    visibility: 2,
    mesh: 3,
    material: 4,
    parent: 5,
    object_type: 6,
    instance_of: 7,
    tint: 8,
};

fn transform(x: f32) -> (u64, C) {
    (KEYS.transform, C::Transform([x, 0.0, 0.0]))
}

#[test]
fn extract_empty_world() {
    let world: World<C> = World::new();
    assert!(extract_rows(&world, &KEYS).rows.is_empty());
}

#[test]
fn extract_skips_entities_without_transform() {
    let mut world: World<C> = World::new();
    let a = world.spawn(vec![transform(1.0)]);
    world.spawn(vec![(KEYS.mesh, C::Mesh(3))]);
    let rows = extract_rows(&world, &KEYS).rows;
    assert_eq!(rows.len(), 1);
    assert_eq!(rows[0].entity, a);
    assert_eq!(rows[0].parent_id, SCENE_ROOT);
    assert_eq!(rows[0].depth, 0);
}

#[test]
fn extract_orders_parents_before_children() {
    let mut world: World<C> = World::new();
    let placeholder = world.spawn(vec![transform(0.0)]);
    let child = world.spawn(vec![transform(1.0), (KEYS.parent, C::Parent(placeholder))]);
    let grandchild = world.spawn(vec![transform(2.0), (KEYS.parent, C::Parent(child))]);
    // Reparent the first entity under the grandchild's sibling chain end.
    let root = world.spawn(vec![transform(3.0)]);
    world.insert(placeholder, KEYS.parent, C::Parent(root));
    let rows = extract_rows(&world, &KEYS).rows;
    let order: Vec<Entity> = rows.iter().map(|r| r.entity).collect();
    assert_eq!(order, vec![root, placeholder, child, grandchild]);
    let depths: Vec<u32> = rows.iter().map(|r| r.depth).collect();
    assert_eq!(depths, vec![0, 1, 2, 3]);
    assert_eq!(rows[1].parent_id, root.index);
    assert_eq!(rows[3].parent_id, child.index);
}

#[test]
fn extract_parent_without_transform_is_scene_root() {
    let mut world: World<C> = World::new();
    let p = world.spawn(vec![(KEYS.mesh, C::Mesh(1))]);
    let c = world.spawn(vec![transform(1.0), (KEYS.parent, C::Parent(p))]);
    let rows = extract_rows(&world, &KEYS).rows;
    assert_eq!(rows.len(), 1);
    assert_eq!(rows[0].entity, c);
    assert_eq!(rows[0].parent_id, SCENE_ROOT);
}

#[test]
fn extract_depth_is_capped_on_cycles() {
    let mut world: World<C> = World::new();
    let a = world.spawn(vec![transform(1.0)]);
    let b = world.spawn(vec![transform(2.0), (KEYS.parent, C::Parent(a))]);
    world.insert(a, KEYS.parent, C::Parent(b));
    let rows = extract_rows(&world, &KEYS).rows;
    assert_eq!(rows.len(), 2);
    assert!(rows.iter().all(|r| r.depth == 64));
}

#[test]
fn incremental_extract_empty_when_nothing_changed() {
    let mut world: World<C> = World::new();
    world.spawn(vec![transform(1.0)]);
    let since = world.change_tick();
    world.advance_tick();
    assert!(extract_rows_incremental(&world, &KEYS, since).rows.is_empty());
}

#[test]
fn incremental_extract_flags_changed_transform_only() {
    let mut world: World<C> = World::new();
    let a = world.spawn(vec![transform(1.0), (KEYS.mesh, C::Mesh(1)), (KEYS.visibility, C::Visible(true))]);
    let b = world.spawn(vec![transform(2.0)]);
    let since = world.change_tick();
    world.advance_tick();
    *world.get_mut(a, KEYS.transform).unwrap() = C::Transform([5.0, 0.0, 0.0]);
    let rows = extract_rows_incremental(&world, &KEYS, since).rows;
    assert_eq!(rows.len(), 1);
    assert_eq!(rows[0].0.entity, a);
    assert_eq!(rows[0].1, CHANGED_TRANSFORM);
    assert!(world.is_alive(b));
}

#[test]
fn incremental_extract_mesh_change_alone_is_not_emitted() {
    let mut world: World<C> = World::new();
    let a = world.spawn(vec![transform(1.0), (KEYS.mesh, C::Mesh(1))]);
    let since = world.change_tick();
    world.advance_tick();
    *world.get_mut(a, KEYS.mesh).unwrap() = C::Mesh(2);
    assert!(extract_rows_incremental(&world, &KEYS, since).rows.is_empty());
    *world.get_mut(a, KEYS.transform).unwrap() = C::Transform([2.0, 0.0, 0.0]);
    let rows = extract_rows_incremental(&world, &KEYS, since).rows;
    assert_eq!(rows[0].1, CHANGED_TRANSFORM | CHANGED_MESH);
}

#[test]
fn incremental_extract_includes_newly_spawned() {
    let mut world: World<C> = World::new();
    world.spawn(vec![transform(1.0)]);
    let since = world.change_tick();
    world.advance_tick();
    let n = world.spawn(vec![transform(2.0)]);
    let rows = extract_rows_incremental(&world, &KEYS, since).rows;
    assert_eq!(rows.len(), 1);
    assert_eq!(rows[0].0.entity, n);
    assert_eq!(rows[0].1, CHANGED_TRANSFORM | CHANGED_PARENT);
}

#[test]
fn incremental_extract_resends_child_of_missing_parent() {
    let mut world: World<C> = World::new();
    let p = world.spawn(vec![transform(1.0)]);
    let c = world.spawn(vec![transform(2.0), (KEYS.parent, C::Parent(p))]);
    let since = world.change_tick();
    world.advance_tick();
    world.despawn(p);
    let rows = extract_rows_incremental(&world, &KEYS, since).rows;
    assert_eq!(rows.len(), 1);
    assert_eq!(rows[0].0.entity, c);
    assert_eq!(rows[0].0.parent_id, SCENE_ROOT);
    assert_eq!(rows[0].1, CHANGED_PARENT);
}

#[test]
fn extract_frame_version_is_world_tick() {
    let mut world: World<C> = World::new();
    world.spawn(vec![transform(1.0)]);
    world.advance_tick();
    world.advance_tick();
    assert_eq!(extract_rows(&world, &KEYS).frame_version, 3);
    assert_eq!(extract_rows_incremental(&world, &KEYS, 1).frame_version, 3);
}

fn ids(rows: &[galeon_engine::extract::RenderRow]) -> Vec<u32> {
    rows.iter().map(|r| r.entity.index).collect()
}

#[test]
fn incremental_extract_includes_changed_transform() {
    let mut world: World<C> = World::new();
    let entity = world.spawn(vec![transform(1.0)]);
    let since = world.change_tick();
    world.advance_tick();
    *world.get_mut(entity, KEYS.transform).unwrap() = C::Transform([99.0, 0.0, 0.0]);
    let rows = extract_rows_incremental(&world, &KEYS, since).rows;
    assert_eq!(rows.len(), 1);
    assert_eq!(world.get(rows[0].0.entity, KEYS.transform), Some(&C::Transform([99.0, 0.0, 0.0])));
    assert!(rows[0].1 & CHANGED_TRANSFORM != 0);
}

#[test]
fn incremental_extract_skips_unchanged_entities() {
    let mut world: World<C> = World::new();
    let changed = world.spawn(vec![transform(1.0)]);
    let _unchanged = world.spawn(vec![transform(2.0)]);
    let since = world.change_tick();
    world.advance_tick();
    *world.get_mut(changed, KEYS.transform).unwrap() = C::Transform([10.0, 0.0, 0.0]);
    let rows = extract_rows_incremental(&world, &KEYS, since).rows;
    assert_eq!(rows.len(), 1);
    assert_eq!(rows[0].0.entity.index, changed.index);
}

#[test]
fn incremental_extract_flags_multiple_changes() {
    let mut world: World<C> = World::new();
    let entity = world.spawn(vec![transform(1.0), (KEYS.visibility, C::Visible(true)), (KEYS.material, C::Material(1))]);
    let since = world.change_tick();
    world.advance_tick();
    *world.get_mut(entity, KEYS.transform).unwrap() = C::Transform([10.0, 0.0, 0.0]);
    *world.get_mut(entity, KEYS.visibility).unwrap() = C::Visible(false);
    *world.get_mut(entity, KEYS.material).unwrap() = C::Material(99);
    let rows = extract_rows_incremental(&world, &KEYS, since).rows;
    assert_eq!(rows.len(), 1);
    let flags = rows[0].1;
    assert!(flags & CHANGED_TRANSFORM != 0);
    assert!(flags & CHANGED_VISIBILITY != 0);
    assert!(flags & CHANGED_MATERIAL != 0);
}

#[test]
fn incremental_extract_includes_object_type_change_without_transform() {
    let mut world: World<C> = World::new();
    let entity = world.spawn(vec![transform(1.0), (KEYS.object_type, C::Object(0))]);
    let since = world.change_tick();
    world.advance_tick();
    *world.get_mut(entity, KEYS.object_type).unwrap() = C::Object(2);
    let rows = extract_rows_incremental(&world, &KEYS, since).rows;
    assert_eq!(rows.len(), 1);
    assert_eq!(rows[0].0.entity.index, entity.index);
    assert!(rows[0].1 & CHANGED_OBJECT_TYPE != 0);
    assert!(rows[0].1 & CHANGED_TRANSFORM == 0);
}

#[test]
fn incremental_extract_includes_object_type_removal_without_transform() {
    let mut world: World<C> = World::new();
    let entity = world.spawn(vec![transform(1.0), (KEYS.object_type, C::Object(2))]);
    let since = world.change_tick();
    world.advance_tick();
    world.remove(entity, KEYS.object_type);
    let rows = extract_rows_incremental(&world, &KEYS, since).rows;
    assert_eq!(rows.len(), 1);
    assert_eq!(rows[0].0.entity.index, entity.index);
    assert!(world.get(entity, KEYS.object_type).is_none());
    assert!(rows[0].1 & CHANGED_OBJECT_TYPE != 0);
    assert!(rows[0].1 & CHANGED_TRANSFORM == 0);
}

#[test]
fn extract_parent_id_defaults_to_scene_root() {
    let mut world: World<C> = World::new();
    world.spawn(vec![transform(0.0)]);
    let rows = extract_rows(&world, &KEYS).rows;
    assert_eq!(rows.len(), 1);
    assert_eq!(rows[0].parent_id, SCENE_ROOT);
}

#[test]
fn extract_parent_id_set_for_child() {
    let mut world: World<C> = World::new();
    let parent = world.spawn(vec![transform(0.0)]);
    world.spawn(vec![transform(1.0), (KEYS.parent, C::Parent(parent))]);
    let rows = extract_rows(&world, &KEYS).rows;
    assert_eq!(rows.len(), 2);
    let child_index = if rows[0].parent_id == SCENE_ROOT { 1 } else { 0 };
    assert_eq!(rows[child_index].parent_id, parent.index);
}

#[test]
fn extract_depth_sorted_parent_before_child() {
    let mut world: World<C> = World::new();
    let parent = world.spawn(vec![transform(0.0)]);
    let _child = world.spawn(vec![transform(1.0), (KEYS.parent, C::Parent(parent))]);
    let rows = extract_rows(&world, &KEYS).rows;
    assert_eq!(rows.len(), 2);
    assert_eq!(rows[0].parent_id, SCENE_ROOT);
    assert_eq!(rows[0].entity.index, parent.index);
    assert_eq!(rows[1].parent_id, parent.index);
}

#[test]
fn extract_deep_hierarchy_ordering() {
    let mut world: World<C> = World::new();
    let grandparent = world.spawn(vec![transform(0.0)]);
    let parent = world.spawn(vec![transform(0.0), (KEYS.parent, C::Parent(grandparent))]);
    let child = world.spawn(vec![transform(0.0), (KEYS.parent, C::Parent(parent))]);
    let rows = extract_rows(&world, &KEYS).rows;
    assert_eq!(ids(&rows), vec![grandparent.index, parent.index, child.index]);
    assert_eq!(rows[0].parent_id, SCENE_ROOT);
    assert_eq!(rows[1].parent_id, grandparent.index);
    assert_eq!(rows[2].parent_id, parent.index);
}

#[test]
fn extract_dead_parent_defaults_child_to_scene_root() {
    let mut world: World<C> = World::new();
    let parent = world.spawn(vec![transform(0.0)]);
    let child = world.spawn(vec![transform(0.0), (KEYS.parent, C::Parent(parent))]);
    world.despawn(parent);
    let rows = extract_rows(&world, &KEYS).rows;
    assert_eq!(rows.len(), 1);
    assert_eq!(rows[0].entity.index, child.index);
    assert_eq!(rows[0].parent_id, SCENE_ROOT);
}

#[test]
fn incremental_extract_includes_parent_id_when_transform_changes() {
    let mut world: World<C> = World::new();
    let parent = world.spawn(vec![transform(0.0)]);
    let child = world.spawn(vec![transform(0.0), (KEYS.parent, C::Parent(parent))]);
    let since = world.change_tick();
    world.advance_tick();
    *world.get_mut(child, KEYS.transform).unwrap() = C::Transform([5.0, 0.0, 0.0]);
    let rows = extract_rows_incremental(&world, &KEYS, since).rows;
    assert_eq!(rows.len(), 1);
    assert_eq!(rows[0].0.entity.index, child.index);
    assert_eq!(rows[0].0.parent_id, parent.index);
}

#[test]
fn incremental_extract_includes_parent_change_without_transform() {
    let mut world: World<C> = World::new();
    let parent_a = world.spawn(vec![transform(0.0)]);
    let parent_b = world.spawn(vec![transform(2.0)]);
    let child = world.spawn(vec![transform(0.0), (KEYS.parent, C::Parent(parent_a))]);
    let since = world.change_tick();
    world.advance_tick();
    *world.get_mut(child, KEYS.parent).unwrap() = C::Parent(parent_b);
    let rows = extract_rows_incremental(&world, &KEYS, since).rows;
    assert_eq!(rows.len(), 1);
    assert_eq!(rows[0].0.entity.index, child.index);
    assert_eq!(rows[0].0.parent_id, parent_b.index);
    assert!(rows[0].1 & CHANGED_PARENT != 0);
    assert!(rows[0].1 & CHANGED_TRANSFORM == 0);
}

#[test]
fn incremental_extract_includes_parent_removal_without_transform() {
    let mut world: World<C> = World::new();
    let parent = world.spawn(vec![transform(0.0)]);
    let child = world.spawn(vec![transform(0.0), (KEYS.parent, C::Parent(parent))]);
    let since = world.change_tick();
    world.advance_tick();
    world.remove(child, KEYS.parent);
    let rows = extract_rows_incremental(&world, &KEYS, since).rows;
    assert_eq!(rows.len(), 1);
    assert_eq!(rows[0].0.entity.index, child.index);
    assert_eq!(rows[0].0.parent_id, SCENE_ROOT);
    assert!(rows[0].1 & CHANGED_PARENT != 0);
    assert!(rows[0].1 & CHANGED_TRANSFORM == 0);
}

#[test]
fn incremental_extract_no_parent_flag_for_existing_root_entity() {
    let mut world: World<C> = World::new();
    let entity = world.spawn(vec![transform(1.0)]);
    let since = world.change_tick();
    world.advance_tick();
    *world.get_mut(entity, KEYS.transform).unwrap() = C::Transform([99.0, 0.0, 0.0]);
    let rows = extract_rows_incremental(&world, &KEYS, since).rows;
    assert_eq!(rows.len(), 1);
    assert!(rows[0].1 & CHANGED_TRANSFORM != 0);
    assert!(rows[0].1 & CHANGED_PARENT == 0);
}

#[test]
fn incremental_extract_newly_spawned_root_gets_parent_flag() {
    let mut world: World<C> = World::new();
    let since = world.change_tick();
    world.advance_tick();
    world.spawn(vec![transform(5.0)]);
    let rows = extract_rows_incremental(&world, &KEYS, since).rows;
    assert_eq!(rows.len(), 1);
    assert!(rows[0].1 & CHANGED_PARENT != 0);
}

#[test]
fn extract_frame_sets_frame_version_to_change_tick() {
    let mut world: World<C> = World::new();
    world.spawn(vec![transform(0.0)]);
    assert_eq!(extract_rows(&world, &KEYS).frame_version, world.change_tick());
}

#[test]
fn incremental_extract_sets_frame_version_to_change_tick() {
    let mut world: World<C> = World::new();
    let e = world.spawn(vec![transform(1.0)]);
    let since = world.change_tick();
    world.advance_tick();
    *world.get_mut(e, KEYS.transform).unwrap() = C::Transform([2.0, 0.0, 0.0]);
    assert_eq!(extract_rows_incremental(&world, &KEYS, since).frame_version, world.change_tick());
}

#[test]
fn incremental_extract_flags_instance_group_added() {
    let mut world: World<C> = World::new();
    let entity = world.spawn(vec![transform(1.0)]);
    let since = world.change_tick();
    world.advance_tick();
    world.insert(entity, KEYS.instance_of, C::Instance(5));
    let rows = extract_rows_incremental(&world, &KEYS, since).rows;
    assert_eq!(rows.len(), 1);
    assert_eq!(rows[0].0.entity.index, entity.index);
    assert!(rows[0].1 & CHANGED_INSTANCE_GROUP != 0);
    assert!(rows[0].1 & CHANGED_TRANSFORM == 0);
}

#[test]
fn incremental_extract_flags_instance_group_removed() {
    let mut world: World<C> = World::new();
    let entity = world.spawn(vec![transform(1.0), (KEYS.instance_of, C::Instance(5))]);
    let since = world.change_tick();
    world.advance_tick();
    world.remove(entity, KEYS.instance_of);
    let rows = extract_rows_incremental(&world, &KEYS, since).rows;
    assert_eq!(rows.len(), 1);
    assert_eq!(rows[0].0.entity.index, entity.index);
    assert!(rows[0].1 & CHANGED_INSTANCE_GROUP != 0);
    assert!(rows[0].1 & CHANGED_TRANSFORM == 0);
}

#[test]
fn incremental_extract_no_instance_group_flag_when_unchanged() {
    let mut world: World<C> = World::new();
    let entity = world.spawn(vec![transform(1.0), (KEYS.instance_of, C::Instance(5))]);
    let since = world.change_tick();
    world.advance_tick();
    *world.get_mut(entity, KEYS.transform).unwrap() = C::Transform([99.0, 0.0, 0.0]);
    let rows = extract_rows_incremental(&world, &KEYS, since).rows;
    assert_eq!(rows.len(), 1);
    assert!(rows[0].1 & CHANGED_TRANSFORM != 0);
    assert!(rows[0].1 & CHANGED_INSTANCE_GROUP == 0);
}

#[test]
fn incremental_extract_flags_tint_added() {
    let mut world: World<C> = World::new();
    let entity = world.spawn(vec![transform(0.0)]);
    let since = world.change_tick();
    world.advance_tick();
    world.insert(entity, KEYS.tint, C::Tint([0.0, 0.5, 1.0]));
    let rows = extract_rows_incremental(&world, &KEYS, since).rows;
    assert_eq!(rows.len(), 1);
    assert!(rows[0].1 & CHANGED_TINT != 0);
}

#[test]
fn incremental_extract_flags_tint_removed() {
    let mut world: World<C> = World::new();
    let entity = world.spawn(vec![transform(0.0), (KEYS.tint, C::Tint([0.5, 0.5, 0.5]))]);
    let since = world.change_tick();
    world.advance_tick();
    world.remove(entity, KEYS.tint);
    let rows = extract_rows_incremental(&world, &KEYS, since).rows;
    assert_eq!(rows.len(), 1);
    assert!(rows[0].1 & CHANGED_TINT != 0);
}

#[test]
fn incremental_extract_no_tint_flag_when_unchanged() {
    let mut world: World<C> = World::new();
    let entity = world.spawn(vec![transform(1.0), (KEYS.tint, C::Tint([0.5, 0.5, 0.5]))]);
    let since = world.change_tick();
    world.advance_tick();
    *world.get_mut(entity, KEYS.transform).unwrap() = C::Transform([99.0, 0.0, 0.0]);
    let rows = extract_rows_incremental(&world, &KEYS, since).rows;
    assert_eq!(rows.len(), 1);
    assert!(rows[0].1 & CHANGED_TRANSFORM != 0);
    assert!(rows[0].1 & CHANGED_TINT == 0);
}

#[test]
fn component_removals_since_lists_removed_entities() {
    let mut world: World<C> = World::new();
    let a = world.spawn(vec![transform(0.0), (KEYS.tint, C::Tint([0.5, 0.5, 0.5]))]);
    let since = world.change_tick();
    world.advance_tick();
    world.remove(a, KEYS.tint);
    world.remove(a, KEYS.mesh);
    assert_eq!(world.component_removals_since(KEYS.tint, since), vec![a]);
    assert!(world.component_removals_since(KEYS.mesh, since).is_empty());
    assert!(world.component_removals_since(KEYS.tint, world.change_tick()).is_empty());
}
