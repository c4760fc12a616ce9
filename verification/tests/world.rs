use galeon_engine::entity::Entity;
use galeon_engine::resource::TypeKey;
use galeon_engine::world::World;

const POS: TypeKey = 1;
const VEL: TypeKey = 2;
const HEALTH: TypeKey = 3;
const DELTA_TIME: TypeKey = 100;

#[derive(Debug, Clone, PartialEq)]
enum C {
    Pos { x: f32, y: f32 },
    Vel { x: f32, y: f32 },
    Health(i32),
    DeltaTime(f64),
}

fn pos(x: f32, y: f32) -> C {
    C::Pos { x, y }
}

fn vel(x: f32, y: f32) -> C {
    C::Vel { x, y }
}

fn x(c: &C) -> f32 {
    match c {
        C::Pos { x, .. } | C::Vel { x, .. } => *x,
        _ => panic!("no x"),
    }
}

fn y(c: &C) -> f32 {
    match c {
        C::Pos { y, .. } | C::Vel { y, .. } => *y,
        _ => panic!("no y"),
    }
}

fn add_x(c: &mut C, d: f32) {
    match c {
        C::Pos { x, .. } | C::Vel { x, .. } => *x += d,
        _ => panic!("no x"),
    }
}

fn add_y(c: &mut C, d: f32) {
    match c {
        C::Pos { y, .. } | C::Vel { y, .. } => *y += d,
        _ => panic!("no y"),
    }
}

fn new_world() -> World<C> {
    World::new()
}

#[test]
fn spawn_and_get() {
    let mut world = new_world();
    let e = world.spawn(vec![(POS, pos(1.0, 2.0))]);
    assert!(world.is_alive(e));
    let p = world.get(e, POS).unwrap();
    assert_eq!(x(p), 1.0);
    assert_eq!(y(p), 2.0);
}

#[test]
fn spawn_multi_component() {
    let mut world = new_world();
    let e = world.spawn(vec![(POS, pos(0.0, 0.0)), (VEL, vel(1.0, 2.0))]);
    assert!(world.get(e, POS).is_some());
    assert!(world.get(e, VEL).is_some());
}

#[test]
fn despawn_removes_entity_and_components() {
    let mut world = new_world();
    let e = world.spawn(vec![(POS, pos(0.0, 0.0)), (HEALTH, C::Health(100))]);
    assert!(world.despawn(e));
    assert!(!world.is_alive(e));
    assert!(world.get(e, POS).is_none());
    assert!(world.get(e, HEALTH).is_none());
    assert!(!world.despawn(e));
}

#[test]
fn query_iterates_matching_entities() {
    let mut world = new_world();
    world.spawn(vec![(POS, pos(1.0, 0.0))]);
    world.spawn(vec![(POS, pos(2.0, 0.0)), (VEL, vel(0.0, 0.0))]);
    world.spawn(vec![(VEL, vel(3.0, 0.0))]);
    let positions: Vec<f32> = world.query(POS).iter().map(|(_, p)| x(p)).collect();
    assert_eq!(positions.len(), 2);
    assert!(positions.contains(&1.0));
    assert!(positions.contains(&2.0));
}

#[test]
fn query_mut_allows_modification() {
    let mut world = new_world();
    world.spawn(vec![(POS, pos(0.0, 0.0))]);
    world.spawn(vec![(POS, pos(10.0, 10.0))]);
    for e in world.query_mut(POS) {
        add_x(world.get_mut(e, POS).unwrap(), 1.0);
    }
    let xs: Vec<f32> = world.query(POS).iter().map(|(_, p)| x(p)).collect();
    assert!(xs.contains(&1.0));
    assert!(xs.contains(&11.0));
}

#[test]
fn resources() {
    let mut world = new_world();
    world.insert_resource(DELTA_TIME, C::DeltaTime(0.016));
    assert_eq!(*world.resource(DELTA_TIME), C::DeltaTime(0.016));
    *world.resource_mut(DELTA_TIME) = C::DeltaTime(0.032);
    assert_eq!(*world.resource(DELTA_TIME), C::DeltaTime(0.032));
}

#[test]
fn resource_take_and_try() {
    let mut world = new_world();
    assert!(world.try_resource(DELTA_TIME).is_none());
    world.insert_resource(DELTA_TIME, C::DeltaTime(1.0));
    assert_eq!(world.try_resource(DELTA_TIME), Some(&C::DeltaTime(1.0)));
    assert_eq!(world.take_resource(DELTA_TIME), C::DeltaTime(1.0));
    assert_eq!(world.try_take_resource(DELTA_TIME), None);
}

#[test]
fn entity_count() {
    let mut world = new_world();
    assert_eq!(world.entity_count(), 0);
    let e1 = world.spawn(vec![(POS, pos(0.0, 0.0))]);
    let _e2 = world.spawn(vec![(POS, pos(0.0, 0.0))]);
    assert_eq!(world.entity_count(), 2);
    world.despawn(e1);
    assert_eq!(world.entity_count(), 1);
}

#[test]
fn query2_returns_entities_with_both_components() {
    let mut world = new_world();
    world.spawn(vec![(POS, pos(1.0, 0.0))]);
    world.spawn(vec![(POS, pos(2.0, 0.0)), (VEL, vel(5.0, 0.0))]);
    world.spawn(vec![(VEL, vel(3.0, 0.0))]);
    let results = world.query2(POS, VEL);
    assert_eq!(results.len(), 1);
    assert_eq!(x(results[0].1), 2.0);
    assert_eq!(x(results[0].2), 5.0);
}

#[test]
fn query2_mut_mutates_both_components() {
    let mut world = new_world();
    let e1 = world.spawn(vec![(POS, pos(1.0, 1.0)), (VEL, vel(10.0, 10.0))]);
    let e2 = world.spawn(vec![(POS, pos(2.0, 2.0)), (VEL, vel(20.0, 20.0))]);
    let e3 = world.spawn(vec![(POS, pos(3.0, 3.0)), (VEL, vel(30.0, 30.0))]);
    for e in world.query2_mut(POS, VEL) {
        add_x(world.get_mut(e, POS).unwrap(), 100.0);
        add_y(world.get_mut(e, VEL).unwrap(), 200.0);
    }
    assert_eq!(x(world.get(e1, POS).unwrap()), 101.0);
    assert_eq!(y(world.get(e1, VEL).unwrap()), 210.0);
    assert_eq!(x(world.get(e2, POS).unwrap()), 102.0);
    assert_eq!(y(world.get(e2, VEL).unwrap()), 220.0);
    assert_eq!(x(world.get(e3, POS).unwrap()), 103.0);
    assert_eq!(y(world.get(e3, VEL).unwrap()), 230.0);
}

#[test]
fn query2_mut_skips_entities_missing_one_component() {
    let mut world = new_world();
    let e1 = world.spawn(vec![(POS, pos(5.0, 5.0))]);
    let e2 = world.spawn(vec![(POS, pos(7.0, 7.0)), (VEL, vel(9.0, 9.0))]);
    let e3 = world.spawn(vec![(VEL, vel(11.0, 11.0))]);
    let results = world.query2_mut(POS, VEL);
    assert_eq!(results.len(), 1);
    assert_eq!(results[0], e2);
    assert_eq!(x(world.get(e2, POS).unwrap()), 7.0);
    assert_eq!(x(world.get(e2, VEL).unwrap()), 9.0);
    assert_eq!(x(world.get(e1, POS).unwrap()), 5.0);
    assert_eq!(x(world.get(e3, VEL).unwrap()), 11.0);
}

#[test]
fn query_filtered_with_and_without() {
    let mut world = new_world();
    let e1 = world.spawn(vec![(POS, pos(1.0, 0.0)), (VEL, vel(2.0, 0.0))]);
    let _e2 = world.spawn(vec![(POS, pos(3.0, 0.0))]);
    let _e3 = world.spawn(vec![(POS, pos(4.0, 0.0)), (HEALTH, C::Health(100))]);
    let results = world.query_filtered(POS, &vec![VEL], &vec![HEALTH]);
    assert_eq!(results.len(), 1);
    assert_eq!(results[0].0, e1);
    assert_eq!(x(results[0].1), 1.0);
}

#[test]
fn query_filtered_mut_writes_stamp_only_matches() {
    let mut world = new_world();
    let e1 = world.spawn(vec![(POS, pos(1.0, 0.0)), (VEL, vel(2.0, 0.0))]);
    let e2 = world.spawn(vec![(POS, pos(3.0, 0.0))]);
    world.advance_tick();
    let matched = world.query_filtered_mut(POS, &vec![], &vec![VEL]);
    assert_eq!(matched, vec![e2]);
    for e in matched {
        add_x(world.get_mut(e, POS).unwrap(), 1.0);
    }
    let changed: Vec<Entity> = world.query_changed(POS, 1).iter().map(|(e, _)| *e).collect();
    assert_eq!(changed, vec![e2]);
    assert!(world.is_alive(e1));
}

#[test]
fn query_mut_without_writes_stamps_nothing() {
    let mut world = new_world();
    world.spawn(vec![(POS, pos(1.0, 0.0))]);
    world.advance_tick();
    let matched = world.query_mut(POS);
    assert_eq!(matched.len(), 1);
    assert!(world.query_changed(POS, 1).is_empty());
}

#[test]
fn one_and_one_mut_fetch_single_entity() {
    let mut world = new_world();
    let e = world.spawn(vec![(POS, pos(1.0, 2.0)), (VEL, vel(3.0, 4.0))]);
    let vals = world.one(e, &vec![POS, VEL]).unwrap();
    assert_eq!(x(vals[0]), 1.0);
    assert_eq!(x(vals[1]), 3.0);
    *world.get_mut(e, POS).unwrap() = pos(10.0, 2.0);
    add_y(world.get_mut(e, VEL).unwrap(), 16.0);
    assert_eq!(x(world.get(e, POS).unwrap()), 10.0);
    assert_eq!(y(world.get(e, VEL).unwrap()), 20.0);
    assert!(world.one(e, &vec![POS, HEALTH]).is_none());
}

#[test]
fn insert_adds_component_to_entity() {
    let mut world = new_world();
    let e = world.spawn(vec![(POS, pos(1.0, 2.0))]);
    assert!(world.get(e, VEL).is_none());
    world.insert(e, VEL, vel(3.0, 4.0));
    assert_eq!(x(world.get(e, VEL).unwrap()), 3.0);
    assert_eq!(x(world.get(e, POS).unwrap()), 1.0);
}

#[test]
fn insert_overwrites_existing_component() {
    let mut world = new_world();
    let e = world.spawn(vec![(POS, pos(1.0, 2.0))]);
    world.insert(e, POS, pos(99.0, 99.0));
    assert_eq!(x(world.get(e, POS).unwrap()), 99.0);
}

#[test]
fn insert_dead_entity_is_noop() {
    let mut world = new_world();
    let e = world.spawn(vec![(POS, pos(1.0, 2.0))]);
    world.despawn(e);
    world.insert(e, VEL, vel(1.0, 1.0));
    assert!(!world.is_alive(e));
    assert_eq!(world.entity_count(), 0);
}

#[test]
fn insert_preserves_other_entities() {
    let mut world = new_world();
    let e1 = world.spawn(vec![(POS, pos(1.0, 1.0))]);
    let e2 = world.spawn(vec![(POS, pos(2.0, 2.0))]);
    world.insert(e1, VEL, vel(10.0, 10.0));
    assert_eq!(x(world.get(e1, POS).unwrap()), 1.0);
    assert_eq!(x(world.get(e1, VEL).unwrap()), 10.0);
    assert_eq!(x(world.get(e2, POS).unwrap()), 2.0);
    assert!(world.get(e2, VEL).is_none());
}

#[test]
fn remove_removes_component_from_entity() {
    let mut world = new_world();
    let e = world.spawn(vec![(POS, pos(1.0, 2.0)), (VEL, vel(3.0, 4.0))]);
    world.remove(e, VEL);
    assert!(world.get(e, VEL).is_none());
    assert_eq!(x(world.get(e, POS).unwrap()), 1.0);
}

#[test]
fn remove_absent_component_is_noop() {
    let mut world = new_world();
    let e = world.spawn(vec![(POS, pos(1.0, 2.0))]);
    world.remove(e, VEL);
    assert_eq!(x(world.get(e, POS).unwrap()), 1.0);
}

#[test]
fn remove_dead_entity_is_noop() {
    let mut world = new_world();
    let e = world.spawn(vec![(POS, pos(1.0, 2.0))]);
    world.despawn(e);
    world.remove(e, POS);
    assert_eq!(world.entity_count(), 0);
}

#[test]
fn remove_preserves_other_entities() {
    let mut world = new_world();
    let e1 = world.spawn(vec![(POS, pos(1.0, 1.0)), (VEL, vel(10.0, 10.0))]);
    let e2 = world.spawn(vec![(POS, pos(2.0, 2.0)), (VEL, vel(20.0, 20.0))]);
    world.remove(e1, VEL);
    assert!(world.get(e1, VEL).is_none());
    assert_eq!(x(world.get(e1, POS).unwrap()), 1.0);
    assert_eq!(x(world.get(e2, POS).unwrap()), 2.0);
    assert_eq!(x(world.get(e2, VEL).unwrap()), 20.0);
}

#[test]
fn insert_then_query_finds_migrated_entity() {
    let mut world = new_world();
    let e1 = world.spawn(vec![(POS, pos(1.0, 0.0))]);
    let _e2 = world.spawn(vec![(POS, pos(2.0, 0.0)), (VEL, vel(20.0, 0.0))]);
    world.insert(e1, VEL, vel(10.0, 0.0));
    let results = world.query2(POS, VEL);
    assert_eq!(results.len(), 2);
}

#[test]
fn remove_last_component_moves_to_empty_archetype() {
    let mut world = new_world();
    let e = world.spawn(vec![(POS, pos(1.0, 2.0))]);
    world.remove(e, POS);
    assert!(world.is_alive(e));
    assert!(world.get(e, POS).is_none());
    assert_eq!(world.entity_count(), 1);
}

#[test]
fn despawn_after_migration_cleans_up() {
    let mut world = new_world();
    let e = world.spawn(vec![(POS, pos(1.0, 2.0))]);
    world.insert(e, VEL, vel(3.0, 4.0));
    assert!(world.despawn(e));
    assert!(!world.is_alive(e));
    assert_eq!(world.entity_count(), 0);
}

#[test]
fn spawn_duplicate_component_types_panics_without_mutating_world() {
    let mut world = new_world();
    let result = world.try_spawn(vec![(POS, pos(1.0, 2.0)), (POS, pos(3.0, 4.0))]);
    assert!(result.is_none());
    assert_eq!(world.entity_count(), 0);
    assert!(world.query(POS).is_empty());
}

// ---- Change-detection tick -----------------------------------------------

#[test]
fn change_tick_starts_at_one() {
    let world = new_world();
    assert_eq!(world.change_tick(), 1);
}

#[test]
fn advance_tick_increments() {
    let mut world = new_world();
    assert_eq!(world.change_tick(), 1);
    let t = world.advance_tick();
    assert_eq!(t, 2);
    assert_eq!(world.change_tick(), 2);
    world.advance_tick();
    assert_eq!(world.change_tick(), 3);
}

#[test]
fn unsafe_world_cell_reads_change_tick() {
    let mut world = new_world();
    world.advance_tick();
    let shared: &World<C> = &world;
    assert_eq!(shared.change_tick(), 2);
}

// ---- Tick stamping on mutation -------------------------------------------

fn ticks(world: &World<C>, e: Entity, k: TypeKey) -> (u64, u64) {
    let loc = world.entity_location(e).unwrap();
    let arch = world.archetypes().get(loc.archetype_id);
    let col = arch.column(k).unwrap();
    (col.added_tick(loc.row as usize), col.changed_tick(loc.row as usize))
}

#[test]
fn spawn_stamps_added_and_changed_ticks() {
    let mut world = new_world();
    let e = world.spawn(vec![(POS, pos(1.0, 2.0))]);
    assert_eq!(ticks(&world, e, POS), (1, 1));
}

#[test]
fn get_mut_stamps_changed_tick() {
    let mut world = new_world();
    let e = world.spawn(vec![(POS, pos(1.0, 2.0))]);
    world.advance_tick();
    *world.get_mut(e, POS).unwrap() = pos(99.0, 2.0);
    assert_eq!(ticks(&world, e, POS), (1, 2));
}

#[test]
fn insert_overwrite_stamps_changed_tick() {
    let mut world = new_world();
    let e = world.spawn(vec![(POS, pos(1.0, 2.0))]);
    world.advance_tick();
    world.insert(e, POS, pos(99.0, 0.0));
    assert_eq!(ticks(&world, e, POS), (1, 2));
}

#[test]
fn insert_migration_stamps_new_component_ticks() {
    let mut world = new_world();
    let e = world.spawn(vec![(POS, pos(1.0, 2.0))]);
    world.advance_tick();
    world.insert(e, VEL, vel(3.0, 4.0));
    assert_eq!(ticks(&world, e, POS), (1, 1));
    assert_eq!(ticks(&world, e, VEL), (2, 2));
}

#[test]
fn query_mut_stamps_changed_tick() {
    let mut world = new_world();
    world.spawn(vec![(POS, pos(1.0, 2.0))]);
    world.advance_tick();
    for e in world.query_mut(POS) {
        *world.get_mut(e, POS).unwrap() = pos(99.0, 2.0);
    }
    let es: Vec<Entity> = world.query(POS).iter().map(|(e, _)| *e).collect();
    for e in es {
        assert_eq!(ticks(&world, e, POS).1, 2);
    }
}

// ---- query_changed / query_added ----------------------------------------

#[test]
fn query_changed_returns_mutated_entities() {
    let mut world = new_world();
    let e1 = world.spawn(vec![(POS, pos(1.0, 0.0))]);
    let e2 = world.spawn(vec![(POS, pos(2.0, 0.0))]);
    let _e3 = world.spawn(vec![(POS, pos(3.0, 0.0))]);
    let since = world.change_tick();
    world.advance_tick();
    *world.get_mut(e1, POS).unwrap() = pos(10.0, 0.0);
    *world.get_mut(e2, POS).unwrap() = pos(20.0, 0.0);
    let changed: Vec<Entity> = world.query_changed(POS, since).iter().map(|(e, _)| *e).collect();
    assert_eq!(changed.len(), 2);
    assert!(changed.contains(&e1));
    assert!(changed.contains(&e2));
}

#[test]
fn query_changed_excludes_untouched() {
    let mut world = new_world();
    world.spawn(vec![(POS, pos(1.0, 0.0))]);
    let since = world.change_tick();
    world.advance_tick();
    let changed = world.query_changed(POS, since);
    assert!(changed.is_empty());
}

#[test]
fn query_added_returns_newly_spawned() {
    let mut world = new_world();
    let _old = world.spawn(vec![(POS, pos(1.0, 0.0))]);
    let since = world.change_tick();
    world.advance_tick();
    let new = world.spawn(vec![(POS, pos(2.0, 0.0))]);
    let added: Vec<Entity> = world.query_added(POS, since).iter().map(|(e, _)| *e).collect();
    assert_eq!(added, vec![new]);
}

#[test]
fn query_added_returns_component_inserted_via_migration() {
    let mut world = new_world();
    let e = world.spawn(vec![(POS, pos(1.0, 0.0))]);
    let since = world.change_tick();
    world.advance_tick();
    world.insert(e, VEL, vel(3.0, 4.0));
    let added: Vec<Entity> = world.query_added(VEL, since).iter().map(|(e, _)| *e).collect();
    assert_eq!(added, vec![e]);
    let added_pos = world.query_added(POS, since);
    assert!(added_pos.is_empty());
}

#[test]
fn query_changed_across_multiple_archetypes() {
    let mut world = new_world();
    let e1 = world.spawn(vec![(POS, pos(1.0, 0.0))]);
    let e2 = world.spawn(vec![(POS, pos(2.0, 0.0)), (VEL, vel(0.0, 0.0))]);
    let since = world.change_tick();
    world.advance_tick();
    *world.get_mut(e1, POS).unwrap() = pos(10.0, 0.0);
    *world.get_mut(e2, POS).unwrap() = pos(20.0, 0.0);
    let changed: Vec<Entity> = world.query_changed(POS, since).iter().map(|(e, _)| *e).collect();
    assert_eq!(changed.len(), 2);
    assert!(changed.contains(&e1));
    assert!(changed.contains(&e2));
}

#[test]
fn query3_and_query3_mut() {
    let mut world = new_world();
    let e = world.spawn(vec![(POS, pos(1.0, 0.0)), (VEL, vel(2.0, 0.0)), (HEALTH, C::Health(5))]);
    world.spawn(vec![(POS, pos(9.0, 0.0)), (VEL, vel(9.0, 0.0))]);
    let r = world.query3(POS, VEL, HEALTH);
    assert_eq!(r.len(), 1);
    assert_eq!(r[0].0, e);
    assert_eq!(*r[0].3, C::Health(5));
    world.advance_tick();
    let m = world.query3_mut(POS, VEL, HEALTH);
    assert_eq!(m, vec![e]);
    assert_eq!(ticks(&world, e, HEALTH), (1, 1));
    *world.get_mut(e, HEALTH).unwrap() = C::Health(6);
    assert_eq!(ticks(&world, e, HEALTH), (1, 2));
    assert_eq!(ticks(&world, e, POS), (1, 1));
}

#[test]
fn despawned_slot_is_reused_with_new_generation() {
    let mut world = new_world();
    let a = world.spawn(vec![(POS, pos(1.0, 0.0))]);
    world.despawn(a);
    let b = world.spawn(vec![(VEL, vel(2.0, 0.0))]);
    assert_eq!(b.index, a.index);
    assert_eq!(b.generation, a.generation + 1);
    assert!(!world.is_alive(a));
    assert!(world.get(a, VEL).is_none());
    assert_eq!(x(world.get(b, VEL).unwrap()), 2.0);
}

#[test]
fn entity_location_names_row_holding_entity() {
    let mut world = new_world();
    let _a = world.spawn(vec![(POS, pos(1.0, 0.0))]);
    let b = world.spawn(vec![(POS, pos(2.0, 0.0))]);
    let loc = world.entity_location(b).unwrap();
    let arch = world.archetypes().get(loc.archetype_id);
    assert_eq!(arch.entity_at(loc.row as usize), b);
    assert_eq!(x(arch.column(POS).unwrap().get(loc.row as usize).unwrap()), 2.0);
    world.despawn(b);
    assert!(world.entity_location(b).is_none());
}

#[test]
fn missing_event_buffer_names_the_taken_buffer() {
    let mut world: World<C> = World::new();
    assert_eq!(world.missing_event_buffer(), None);
    world.add_event(7);
    world.add_event(9);
    assert_eq!(world.missing_event_buffer(), None);
    let taken = world.try_take_events(9);
    assert!(taken.is_some());
    assert_eq!(world.missing_event_buffer(), Some(9));
}

#[test]
fn freed_handle_stays_dead_across_respawns() {
    let mut world = new_world();
    let e = world.spawn(vec![(POS, pos(0.0, 0.0))]);
    assert!(world.despawn(e));
    for _ in 0..5 {
        let r = world.spawn(vec![(POS, pos(1.0, 1.0))]);
        assert_eq!(r.index(), e.index());
        assert_ne!(r, e);
        assert!(!world.is_alive(e));
        assert!(world.despawn(r));
        assert!(!world.is_alive(e));
    }
    world.spawn(vec![(VEL, vel(0.0, 0.0))]);
    assert!(!world.is_alive(e));
    assert!(!world.despawn(e));
}

#[test]
fn entity_count_follows_spawns_and_despawns() {
    let mut world = new_world();
    let a = world.spawn(vec![(POS, pos(0.0, 0.0))]);
    let b = world.spawn(vec![(POS, pos(0.0, 0.0)), (VEL, vel(0.0, 0.0))]);
    world.insert(a, VEL, vel(1.0, 0.0));
    world.remove(b, POS);
    assert_eq!(world.entity_count(), 2);
    assert!(world.despawn(a));
    assert!(!world.despawn(a));
    let c = world.spawn(vec![(HEALTH, C::Health(3))]);
    assert_eq!(world.entity_count(), 2);
    assert!(world.despawn(b));
    assert!(world.despawn(c));
    assert_eq!(world.entity_count(), 0);
}
