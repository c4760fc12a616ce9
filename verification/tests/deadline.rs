use galeon_engine::deadline::{Clock, DeadlineId, DeadlineIds, Deadlines, SystemClock, TestClock, Timestamp};
use galeon_engine::function_system::System;
use galeon_engine::resource::TypeKey;
use galeon_engine::schedule::Schedule;
use galeon_engine::system_param::Access;
use galeon_engine::world::World;

const TEST_EVENT: TypeKey = 10;
const OTHER_EVENT: TypeKey = 11;
const COUNTER: TypeKey = 12;

#[derive(Debug, Clone, PartialEq)]
enum Ev {
    Test(u32),
    Other(u32),
    Count(u32),
}

#[derive(Debug, PartialEq)]
struct TestEvent(u32);

// -- Timestamp --

#[test]
fn timestamp_from_secs_roundtrip() {
    let ts = Timestamp::from_secs(1000);
    assert_eq!(ts.as_secs(), 1000);
    assert_eq!(ts.as_micros(), 1_000_000_000);
}

#[test]
fn timestamp_from_micros() {
    let ts = Timestamp::from_micros(123_456_789);
    assert_eq!(ts.as_micros(), 123_456_789);
    assert_eq!(ts.as_secs(), 123);
}

#[test]
fn timestamp_negative_secs_truncate_toward_zero() {
    assert_eq!(Timestamp::from_micros(-1_500_000).as_secs(), -1);
    assert_eq!(Timestamp::from_secs(-3).as_micros(), -3_000_000);
}

#[test]
fn timestamp_ordering() {
    let a = Timestamp::from_secs(100);
    let b = Timestamp::from_secs(200);
    assert!(a < b);
    assert!(b > a);
    assert_eq!(a, Timestamp::from_secs(100));
}

#[test]
fn timestamp_now_is_positive() {
    let ts = Timestamp::now().unwrap();
    assert!(ts.as_micros() > 0);
}

// -- Clock impls --

#[test]
fn system_clock_returns_positive() {
    let clock = SystemClock;
    assert!(clock.now().as_micros() > 0);
}

#[test]
fn test_clock_manual_control() {
    let mut clock = TestClock::new(Timestamp::from_secs(1000));
    assert_eq!(clock.now().as_secs(), 1000);
    clock.advance_secs(60);
    assert_eq!(clock.now().as_secs(), 1060);
    clock.set(Timestamp::from_secs(2000));
    assert_eq!(clock.now().as_secs(), 2000);
}

#[test]
fn test_clock_advance_micros() {
    let mut clock = TestClock::new(Timestamp::from_micros(0));
    clock.advance_micros(500_000);
    assert_eq!(clock.now().as_micros(), 500_000);
}

// -- DeadlineId --

#[test]
fn deadline_ids_are_unique() {
    let mut deadlines = Deadlines::new();
    let mut ids = DeadlineIds::new();
    let a = deadlines.schedule(&mut ids, Timestamp::from_secs(1), TestEvent(1));
    let b = deadlines.schedule(&mut ids, Timestamp::from_secs(1), TestEvent(2));
    assert_ne!(a, b);
}

// -- Deadlines<T> --

#[test]
fn schedule_and_drain() {
    let mut deadlines = Deadlines::new();
    let mut ids = DeadlineIds::new();
    deadlines.schedule(&mut ids, Timestamp::from_secs(100), TestEvent(1));
    deadlines.schedule(&mut ids, Timestamp::from_secs(200), TestEvent(2));
    deadlines.schedule(&mut ids, Timestamp::from_secs(300), TestEvent(3));
    assert_eq!(deadlines.len(), 3);
    let fired = deadlines.drain_overdue(Timestamp::from_secs(150));
    assert_eq!(fired, vec![TestEvent(1)]);
    assert_eq!(deadlines.len(), 2);
}

#[test]
fn drain_all_overdue_batch() {
    let mut deadlines = Deadlines::new();
    let mut ids = DeadlineIds::new();
    deadlines.schedule(&mut ids, Timestamp::from_secs(100), TestEvent(1));
    deadlines.schedule(&mut ids, Timestamp::from_secs(200), TestEvent(2));
    deadlines.schedule(&mut ids, Timestamp::from_secs(300), TestEvent(3));
    let fired = deadlines.drain_overdue(Timestamp::from_secs(300));
    assert_eq!(fired, vec![TestEvent(1), TestEvent(2), TestEvent(3)]);
    assert!(deadlines.is_empty());
}

#[test]
fn drain_none_overdue() {
    let mut deadlines = Deadlines::new();
    let mut ids = DeadlineIds::new();
    deadlines.schedule(&mut ids, Timestamp::from_secs(200), TestEvent(1));
    let fired = deadlines.drain_overdue(Timestamp::from_secs(100));
    assert!(fired.is_empty());
    assert_eq!(deadlines.len(), 1);
}

#[test]
fn drain_empty_queue() {
    let mut deadlines: Deadlines<TestEvent> = Deadlines::new();
    let mut ids = DeadlineIds::new();
    let fired = deadlines.drain_overdue(Timestamp::from_secs(100));
    assert!(fired.is_empty());
}

#[test]
fn cancel_removes_entry() {
    let mut deadlines = Deadlines::new();
    let mut ids = DeadlineIds::new();
    let id = deadlines.schedule(&mut ids, Timestamp::from_secs(100), TestEvent(1));
    deadlines.schedule(&mut ids, Timestamp::from_secs(200), TestEvent(2));
    assert!(deadlines.cancel(id));
    assert_eq!(deadlines.len(), 1);
    let fired = deadlines.drain_overdue(Timestamp::from_secs(300));
    assert_eq!(fired, vec![TestEvent(2)]);
}

#[test]
fn cancel_nonexistent_returns_false() {
    let mut deadlines: Deadlines<TestEvent> = Deadlines::new();
    let mut ids = DeadlineIds::new();
    let id = DeadlineId(777);
    assert!(!deadlines.cancel(id));
}

#[test]
fn cancel_already_cancelled_returns_false() {
    let mut deadlines = Deadlines::new();
    let mut ids = DeadlineIds::new();
    let id = deadlines.schedule(&mut ids, Timestamp::from_secs(100), TestEvent(1));
    assert!(deadlines.cancel(id));
    assert!(!deadlines.cancel(id));
}

#[test]
fn sorted_insertion_order() {
    let mut deadlines = Deadlines::new();
    let mut ids = DeadlineIds::new();
    deadlines.schedule(&mut ids, Timestamp::from_secs(300), TestEvent(3));
    deadlines.schedule(&mut ids, Timestamp::from_secs(100), TestEvent(1));
    deadlines.schedule(&mut ids, Timestamp::from_secs(200), TestEvent(2));
    let fired = deadlines.drain_overdue(Timestamp::from_secs(400));
    assert_eq!(fired, vec![TestEvent(1), TestEvent(2), TestEvent(3)]);
}

#[test]
fn same_deadline_fires_all() {
    let mut deadlines = Deadlines::new();
    let mut ids = DeadlineIds::new();
    deadlines.schedule(&mut ids, Timestamp::from_secs(100), TestEvent(1));
    deadlines.schedule(&mut ids, Timestamp::from_secs(100), TestEvent(2));
    let fired = deadlines.drain_overdue(Timestamp::from_secs(100));
    assert_eq!(fired.len(), 2);
}

#[test]
fn same_deadline_keeps_scheduling_order() {
    let mut deadlines = Deadlines::new();
    let mut ids = DeadlineIds::new();
    deadlines.schedule(&mut ids, Timestamp::from_secs(100), TestEvent(1));
    deadlines.schedule(&mut ids, Timestamp::from_secs(50), TestEvent(0));
    deadlines.schedule(&mut ids, Timestamp::from_secs(100), TestEvent(2));
    let fired = deadlines.drain_overdue(Timestamp::from_secs(100));
    assert_eq!(fired, vec![TestEvent(0), TestEvent(1), TestEvent(2)]);
}

#[test]
fn next_deadline_returns_earliest() {
    let mut deadlines = Deadlines::new();
    let mut ids = DeadlineIds::new();
    assert!(deadlines.next_deadline().is_none());
    deadlines.schedule(&mut ids, Timestamp::from_secs(300), TestEvent(3));
    deadlines.schedule(&mut ids, Timestamp::from_secs(100), TestEvent(1));
    assert_eq!(deadlines.next_deadline(), Some(Timestamp::from_secs(100)));
}

// -- World integration tests --

fn values(world: &World<Ev>, k: TypeKey) -> Vec<u32> {
    world
        .events(k)
        .read()
        .iter()
        .map(|e| match e {
            Ev::Test(v) | Ev::Other(v) | Ev::Count(v) => *v,
        })
        .collect()
}

#[test]
fn world_add_deadline_type_is_idempotent() {
    let mut world: World<Ev> = World::new();
    world.add_deadline_type(TEST_EVENT);
    world.add_deadline_type(TEST_EVENT);
    assert!(world.try_deadlines(TEST_EVENT).is_some());
}

#[test]
fn world_schedule_and_drain() {
    let mut world: World<Ev> = World::new();
    world.add_deadline_type(TEST_EVENT);
    world.schedule_deadline(TEST_EVENT, Timestamp::from_secs(100), Ev::Test(1));
    world.schedule_deadline(TEST_EVENT, Timestamp::from_secs(200), Ev::Test(2));
    world.drain_deadlines(TEST_EVENT, Timestamp::from_secs(150));
    world.update_events();
    assert_eq!(world.events(TEST_EVENT).len(), 1);
    assert_eq!(values(&world, TEST_EVENT)[0], 1);
    assert_eq!(world.deadlines(TEST_EVENT).len(), 1);
}

#[test]
fn world_cancel_deadline() {
    let mut world: World<Ev> = World::new();
    world.add_deadline_type(TEST_EVENT);
    let id = world.schedule_deadline(TEST_EVENT, Timestamp::from_secs(100), Ev::Test(1));
    assert!(world.cancel_deadline(TEST_EVENT, id));
    assert!(world.deadlines(TEST_EVENT).is_empty());
}

#[test]
fn world_batch_reconciliation() {
    let mut world: World<Ev> = World::new();
    world.add_deadline_type(TEST_EVENT);
    world.schedule_deadline(TEST_EVENT, Timestamp::from_secs(100), Ev::Test(1));
    world.schedule_deadline(TEST_EVENT, Timestamp::from_secs(200), Ev::Test(2));
    world.schedule_deadline(TEST_EVENT, Timestamp::from_secs(300), Ev::Test(3));
    world.drain_deadlines(TEST_EVENT, Timestamp::from_secs(1000));
    world.update_events();
    assert_eq!(world.events(TEST_EVENT).len(), 3);
    assert_eq!(values(&world, TEST_EVENT), vec![1, 2, 3]);
}

#[test]
fn world_drain_with_test_clock() {
    let mut world: World<Ev> = World::new();
    world.add_deadline_type(TEST_EVENT);
    let mut clock = TestClock::new(Timestamp::from_secs(0));
    world.schedule_deadline(TEST_EVENT, Timestamp::from_secs(60), Ev::Test(1));
    world.schedule_deadline(TEST_EVENT, Timestamp::from_secs(120), Ev::Test(2));

    world.drain_deadlines(TEST_EVENT, clock.now());
    world.update_events();
    assert!(world.events(TEST_EVENT).is_empty());

    clock.advance_secs(60);
    world.drain_deadlines(TEST_EVENT, clock.now());
    world.update_events();
    assert_eq!(world.events(TEST_EVENT).len(), 1);

    clock.advance_secs(60);
    world.drain_deadlines(TEST_EVENT, clock.now());
    world.update_events();
    assert_eq!(world.events(TEST_EVENT).len(), 1);

    assert!(world.deadlines(TEST_EVENT).is_empty());
}

// -- drain_all_deadlines integration --

#[test]
fn drain_all_deadlines_with_clock_resource() {
    let mut world: World<Ev> = World::new();
    world.add_deadline_type(TEST_EVENT);
    world.insert_clock(Box::new(TestClock::new(Timestamp::from_secs(150))));
    world.schedule_deadline(TEST_EVENT, Timestamp::from_secs(100), Ev::Test(1));
    world.schedule_deadline(TEST_EVENT, Timestamp::from_secs(200), Ev::Test(2));
    world.drain_all_deadlines();
    world.update_events();
    assert_eq!(world.events(TEST_EVENT).len(), 1);
    assert_eq!(values(&world, TEST_EVENT)[0], 1);
}

#[test]
fn drain_all_deadlines_no_clock_is_noop() {
    let mut world: World<Ev> = World::new();
    world.add_deadline_type(TEST_EVENT);
    world.schedule_deadline(TEST_EVENT, Timestamp::from_secs(100), Ev::Test(1));
    world.drain_all_deadlines();
    assert_eq!(world.deadlines(TEST_EVENT).len(), 1);
}

#[test]
fn drain_all_deadlines_at_drains_every_type() {
    let mut world: World<Ev> = World::new();
    world.add_deadline_type(TEST_EVENT);
    world.add_deadline_type(OTHER_EVENT);
    world.schedule_deadline(TEST_EVENT, Timestamp::from_secs(10), Ev::Test(1));
    world.schedule_deadline(OTHER_EVENT, Timestamp::from_secs(30), Ev::Other(2));
    world.drain_all_deadlines_at(Timestamp::from_secs(20));
    world.update_events();
    assert_eq!(values(&world, TEST_EVENT), vec![1]);
    assert!(world.events(OTHER_EVENT).is_empty());
    assert_eq!(world.deadlines(OTHER_EVENT).len(), 1);
}

// -- Schedule integration: same-tick delivery --

struct CountFired;

impl System<Ev> for CountFired {
    fn name(&self) -> String {
        "count_fired".to_string()
    }

    fn run(&mut self, world: &mut World<Ev>) {
        let n = world.events(TEST_EVENT).read().len() as u32;
        if let Ev::Count(c) = world.resource_mut(COUNTER) {
            *c += n;
        }
    }

    fn access(&self) -> Vec<Access> {
        vec![Access::ResRead(TEST_EVENT), Access::ResWrite(COUNTER)]
    }
}

#[test]
fn schedule_run_fires_deadlines_readable_same_tick() {
    let mut world: World<Ev> = World::new();
    world.add_deadline_type(TEST_EVENT);
    world.insert_clock(Box::new(TestClock::new(Timestamp::from_secs(200))));
    world.schedule_deadline(TEST_EVENT, Timestamp::from_secs(100), Ev::Test(42));
    world.insert_resource(COUNTER, Ev::Count(0));

    let mut schedule: Schedule<Ev> = Schedule::new();
    assert!(schedule.add_system("update".to_string(), CountFired));
    schedule.run(&mut world);

    assert_eq!(*world.resource(COUNTER), Ev::Count(1));
    assert!(world.deadlines(TEST_EVENT).is_empty());
}

#[test]
fn schedule_run_multiple_deadline_types() {
    let mut world: World<Ev> = World::new();
    world.add_deadline_type(TEST_EVENT);
    world.add_deadline_type(OTHER_EVENT);
    world.insert_clock(Box::new(TestClock::new(Timestamp::from_secs(500))));
    world.schedule_deadline(TEST_EVENT, Timestamp::from_secs(100), Ev::Test(1));
    world.schedule_deadline(OTHER_EVENT, Timestamp::from_secs(200), Ev::Other(2));

    let mut schedule: Schedule<Ev> = Schedule::new();
    schedule.run(&mut world);

    assert!(world.deadlines(TEST_EVENT).is_empty());
    assert!(world.deadlines(OTHER_EVENT).is_empty());
    assert_eq!(world.events(TEST_EVENT).len(), 1);
    assert_eq!(world.events(OTHER_EVENT).len(), 1);
}

#[test]
fn deadline_ids_from_one_source_never_repeat_across_queues() {
    let mut ids = DeadlineIds::new();
    let mut a: Deadlines<TestEvent> = Deadlines::new();
    let mut b: Deadlines<TestEvent> = Deadlines::new();
    let x = a.schedule(&mut ids, Timestamp::from_secs(1), TestEvent(1));
    let y = b.schedule(&mut ids, Timestamp::from_secs(1), TestEvent(2));
    assert_ne!(x, y);
}

#[test]
fn world_deadline_ids_unique_across_types() {
    let mut world: World<Ev> = World::new();
    world.add_deadline_type(TEST_EVENT);
    world.add_deadline_type(TEST_EVENT + 1);
    let a = world.schedule_deadline(TEST_EVENT, Timestamp::from_secs(1), Ev::Test(1));
    let b = world.schedule_deadline(TEST_EVENT + 1, Timestamp::from_secs(1), Ev::Test(2));
    assert_ne!(a, b);
}

#[test]
fn world_add_deadline_type_again_keeps_pending_deadlines() {
    let mut world: World<Ev> = World::new();
    world.add_deadline_type(TEST_EVENT);
    world.schedule_deadline(TEST_EVENT, Timestamp::from_secs(100), Ev::Test(1));
    world.add_deadline_type(TEST_EVENT);
    assert_eq!(world.deadlines(TEST_EVENT).len(), 1);
    world.drain_deadlines(TEST_EVENT, Timestamp::from_secs(150));
    world.update_events();
    assert_eq!(values(&world, TEST_EVENT), vec![1]);
}
