use galeon_engine::event::{EventReader, EventWriter, Events};
use galeon_engine::resource::TypeKey;
use galeon_engine::system_param::{has_conflicts, Access, Param, SystemParam};
use galeon_engine::world::World;

const DAMAGE: TypeKey = 1;
const SPAWN: TypeKey = 2;

#[derive(Debug, Clone, PartialEq)]
struct DamageEvent {
    amount: u32,
}

#[test]
fn events_send_and_read() {
    let mut events: Events<DamageEvent> = Events::new();
    assert!(events.is_empty());
    assert_eq!(events.len(), 0);
    events.send(DamageEvent { amount: 42 });
    assert!(events.is_empty());
    events.update();
    assert!(!events.is_empty());
    assert_eq!(events.len(), 1);
    let collected: Vec<_> = events.read().iter().collect();
    assert_eq!(collected, vec![&DamageEvent { amount: 42 }]);
}

#[test]
fn events_double_buffer_semantics() {
    let mut events: Events<DamageEvent> = Events::new();
    events.send(DamageEvent { amount: 10 });
    events.update();
    assert_eq!(events.len(), 1);
    events.update();
    assert!(events.is_empty());
}

#[test]
fn events_multiple_sends_same_tick() {
    let mut events: Events<DamageEvent> = Events::new();
    events.send(DamageEvent { amount: 1 });
    events.send(DamageEvent { amount: 2 });
    events.send(DamageEvent { amount: 3 });
    events.update();
    assert_eq!(events.len(), 3);
    let amounts: Vec<u32> = events.read().iter().map(|e| e.amount).collect();
    assert_eq!(amounts, vec![1, 2, 3]);
}

#[test]
fn event_writer_access_is_res_write() {
    let access = Param::EventWriter(DAMAGE).access();
    assert_eq!(access.len(), 1);
    assert_eq!(access[0], Access::ResWrite(DAMAGE));
}

#[test]
fn event_reader_access_is_res_read() {
    let access = Param::EventReader(DAMAGE).access();
    assert_eq!(access.len(), 1);
    assert_eq!(access[0], Access::ResRead(DAMAGE));
}

#[test]
fn event_writer_reader_different_types_no_conflict() {
    let writer_access = Param::EventWriter(DAMAGE).access();
    let reader_access = Param::EventReader(SPAWN).access();
    assert!(!has_conflicts(&writer_access, &reader_access));
}

#[test]
fn event_writer_reader_same_type_conflicts() {
    let writer_access = Param::EventWriter(DAMAGE).access();
    let reader_access = Param::EventReader(DAMAGE).access();
    assert!(has_conflicts(&writer_access, &reader_access));
}

#[test]
fn event_reader_reader_same_type_no_conflict() {
    let a = Param::EventReader(DAMAGE).access();
    let b = Param::EventReader(DAMAGE).access();
    assert!(!has_conflicts(&a, &b));
}

#[test]
fn event_writer_fetch_and_send() {
    let mut world: World<DamageEvent> = World::new();
    world.add_event(DAMAGE);
    {
        let mut writer = EventWriter::new(world.events_mut(DAMAGE));
        writer.send(DamageEvent { amount: 99 });
    }
    world.update_events();
    assert_eq!(world.events(DAMAGE).len(), 1);
}

#[test]
fn event_reader_fetch_and_read() {
    let mut world: World<DamageEvent> = World::new();
    world.add_event(DAMAGE);
    world.events_mut(DAMAGE).send(DamageEvent { amount: 7 });
    world.update_events();
    let reader = EventReader::new(world.events(DAMAGE));
    assert_eq!(reader.len(), 1);
    let ev = reader.read().iter().next().unwrap();
    assert_eq!(ev.amount, 7);
    assert!(!reader.is_empty());
}

#[test]
fn add_event_duplicate_no_updater_duplication() {
    let mut world: World<DamageEvent> = World::new();
    world.add_event(DAMAGE);
    world.add_event(DAMAGE);
    world.events_mut(DAMAGE).send(DamageEvent { amount: 5 });
    world.update_events();
    assert_eq!(world.events(DAMAGE).len(), 1);
}

#[test]
fn add_event_duplicate_does_not_drop_queued_events() {
    let mut world: World<DamageEvent> = World::new();
    world.add_event(DAMAGE);
    world.events_mut(DAMAGE).send(DamageEvent { amount: 99 });
    world.add_event(DAMAGE);
    world.update_events();
    assert_eq!(world.events(DAMAGE).len(), 1);
    assert_eq!(world.events(DAMAGE).read().iter().next().unwrap().amount, 99);
}

#[test]
fn add_event_after_take_resource_restores_without_duplicate_updater() {
    let mut world: World<DamageEvent> = World::new();
    world.add_event(DAMAGE);
    let old = world.try_take_events(DAMAGE);
    assert!(old.is_some());
    world.add_event(DAMAGE);
    world.events_mut(DAMAGE).send(DamageEvent { amount: 77 });
    world.update_events();
    assert_eq!(world.events(DAMAGE).len(), 1);
    assert_eq!(world.events(DAMAGE).read().iter().next().unwrap().amount, 77);
}

#[test]
fn event_lifetime_is_exactly_one_tick() {
    let mut events: Events<u32> = Events::new();
    events.send(1);
    events.update();
    events.send(2);
    assert_eq!(events.read(), &[1]);
    events.update();
    assert_eq!(events.read(), &[2]);
    events.update();
    assert!(events.read().is_empty());
}
