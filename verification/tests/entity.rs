use galeon_engine::archetype::{ArchetypeId, EntityLocation};
use galeon_engine::entity::{Entity, EntityMetaStore};

#[test]
fn meta_store_alloc_returns_sequential_indices() {
    let mut store = EntityMetaStore::new();
    let e0 = store.allocate();
    let e1 = store.allocate();
    assert_eq!(e0.index, 0);
    assert_eq!(e1.index, 1);
    assert_eq!(e0.generation, 0);
    assert_eq!(e1.generation, 0);
}

#[test]
fn meta_store_dealloc_and_reuse_bumps_generation() {
    let mut store = EntityMetaStore::new();
    let e0 = store.allocate();
    assert!(store.dealloc(e0));
    let e0_reused = store.allocate();
    assert_eq!(e0_reused.index, 0);
    assert_eq!(e0_reused.generation, 1);
}

#[test]
fn meta_store_is_alive_returns_false_after_dealloc() {
    let mut store = EntityMetaStore::new();
    let e = store.allocate();
    assert!(store.is_alive(e));
    store.dealloc(e);
    assert!(!store.is_alive(e));
}

#[test]
fn meta_store_stale_handle_is_not_alive() {
    let mut store = EntityMetaStore::new();
    let old = store.allocate();
    store.dealloc(old);
    let _new = store.allocate();
    assert!(!store.is_alive(old));
}

#[test]
fn meta_store_double_dealloc_returns_false() {
    let mut store = EntityMetaStore::new();
    let e = store.allocate();
    assert!(store.dealloc(e));
    assert!(!store.dealloc(e));
}

#[test]
fn meta_store_alive_entities_iterates_only_living() {
    let mut store = EntityMetaStore::new();
    let _e0 = store.allocate();
    let e1 = store.allocate();
    let _e2 = store.allocate();
    store.dealloc(e1);
    let alive = store.alive_entities();
    assert_eq!(alive.len(), 2);
    assert_eq!(alive[0].index, 0);
    assert_eq!(alive[1].index, 2);
    assert_eq!(store.alive_count(), 2);
}

#[test]
fn meta_store_location_tracking() {
    let mut store = EntityMetaStore::new();
    let e = store.allocate();
    assert_eq!(store.get_location(e), None);
    let loc = EntityLocation { archetype_id: ArchetypeId(0), row: 3 };
    store.set_location(e, loc);
    assert_eq!(store.get_location(e), Some(loc));
    store.dealloc(e);
    assert_eq!(store.get_location(e), None);
}

#[test]
fn meta_store_realloc_clears_location() {
    let mut store = EntityMetaStore::new();
    let e = store.allocate();
    store.set_location(e, EntityLocation { archetype_id: ArchetypeId(5), row: 2 });
    store.dealloc(e);
    let e2 = store.allocate();
    assert_eq!(e2.index, 0);
    assert_eq!(store.get_location(e2), None);
}

#[test]
fn entity_from_raw_round_trips() {
    let e = Entity::from_raw(7, 3);
    assert_eq!(e.index(), 7);
    assert_eq!(e.generation(), 3);
    let mut store = EntityMetaStore::new();
    assert!(!store.is_alive(e));
    let a = store.allocate();
    assert_eq!(store.entity_at(0), Some(a));
    assert_eq!(store.entity_at(1), None);
    assert_eq!(store.len(), 1);
}

#[test]
fn freed_slots_are_reused_last_freed_first() {
    let mut store = EntityMetaStore::new();
    let a = store.allocate();
    let b = store.allocate();
    store.dealloc(a);
    store.dealloc(b);
    let c = store.allocate();
    assert_eq!(c.index, b.index);
    assert_eq!(c.generation, 1);
    let d = store.allocate();
    assert_eq!(d.index, a.index);
    let f = store.allocate();
    assert_eq!(f.index, 2);
}
