use galeon_engine::function_system::{validate_no_self_conflicts, System};
use galeon_engine::resource::TypeKey;
use galeon_engine::schedule::Schedule;
use galeon_engine::system_param::{Access, Param, SystemParam};
use galeon_engine::world::World;

const COUNTER: TypeKey = 1;
const SPEED: TypeKey = 2;

#[derive(Debug, Clone, PartialEq)]
enum V {
    Counter(u32),
    Speed(f32),
}

struct Increment;

impl System<V> for Increment {
    fn name(&self) -> String {
        "increment".to_string()
    }

    fn run(&mut self, world: &mut World<V>) {
        for e in world.query_mut(COUNTER) {
            if let Some(V::Counter(c)) = world.get_mut(e, COUNTER) {
                *c += 1;
            }
        }
    }

    fn access(&self) -> Vec<Access> {
        Vec::new()
    }
}

struct CountEntities;

impl System<V> for CountEntities {
    fn name(&self) -> String {
        "count".to_string()
    }

    fn run(&mut self, world: &mut World<V>) {
        let _ = world.query(COUNTER).len();
    }

    fn access(&self) -> Vec<Access> {
        Param::Query(COUNTER).access()
    }
}

struct ReadSpeedCountEntities;

impl System<V> for ReadSpeedCountEntities {
    fn name(&self) -> String {
        "two_param".to_string()
    }

    fn run(&mut self, world: &mut World<V>) {
        let _ = world.resource(SPEED);
        let _ = world.query(COUNTER).len();
    }

    fn access(&self) -> Vec<Access> {
        vec![Param::Res(SPEED), Param::Query(COUNTER)].access()
    }
}

struct IncrementSpeed;

impl System<V> for IncrementSpeed {
    fn name(&self) -> String {
        "inc_speed".to_string()
    }

    fn run(&mut self, world: &mut World<V>) {
        if let V::Speed(s) = world.resource_mut(SPEED) {
            *s += 1.0;
        }
    }

    fn access(&self) -> Vec<Access> {
        Param::ResMut(SPEED).access()
    }
}

struct Conflicting;

impl System<V> for Conflicting {
    fn name(&self) -> String {
        "conflict".to_string()
    }

    fn run(&mut self, _world: &mut World<V>) {}

    fn access(&self) -> Vec<Access> {
        vec![Param::Res(SPEED), Param::ResMut(SPEED)].access()
    }
}

fn counters(world: &World<V>) -> Vec<u32> {
    world
        .query(COUNTER)
        .iter()
        .map(|(_, c)| match c {
            V::Counter(n) => *n,
            _ => 0,
        })
        .collect()
}

#[test]
fn legacy_into_system() {
    let mut sys: Box<dyn System<V>> = Box::new(Increment);
    let mut world: World<V> = World::new();
    world.spawn(vec![(COUNTER, V::Counter(0))]);
    sys.run(&mut world);
    assert_eq!(counters(&world), vec![1]);
}

#[test]
fn one_param_into_system() {
    let mut sys: Box<dyn System<V>> = Box::new(CountEntities);
    let mut world: World<V> = World::new();
    world.spawn(vec![(COUNTER, V::Counter(0))]);
    sys.run(&mut world);
    assert_eq!(sys.name(), "count");
}

#[test]
fn two_param_into_system() {
    let mut sys: Box<dyn System<V>> = Box::new(ReadSpeedCountEntities);
    let mut world: World<V> = World::new();
    world.insert_resource(SPEED, V::Speed(1.5));
    world.spawn(vec![(COUNTER, V::Counter(0))]);
    sys.run(&mut world);
    assert!(validate_no_self_conflicts(&sys.access()));
}

#[test]
fn res_mut_system_mutates() {
    let mut sys: Box<dyn System<V>> = Box::new(IncrementSpeed);
    let mut world: World<V> = World::new();
    world.insert_resource(SPEED, V::Speed(0.0));
    sys.run(&mut world);
    match world.resource(SPEED) {
        V::Speed(s) => assert!((s - 1.0).abs() < f32::EPSILON),
        _ => panic!("speed missing"),
    }
}

#[test]
fn query_mut_system_mutates() {
    let mut sys: Box<dyn System<V>> = Box::new(Increment);
    let mut world: World<V> = World::new();
    world.spawn(vec![(COUNTER, V::Counter(0))]);
    world.spawn(vec![(COUNTER, V::Counter(10))]);
    sys.run(&mut world);
    let mut vals = counters(&world);
    vals.sort();
    assert_eq!(vals, vec![1, 11]);
}

#[test]
fn function_system_self_conflict_panics_on_registration() {
    assert!(!validate_no_self_conflicts(&Conflicting.access()));
    let mut schedule: Schedule<V> = Schedule::new();
    assert!(!schedule.add_system("update".to_string(), Conflicting));
    assert_eq!(schedule.system_count(), 0);
}

#[test]
fn system_reports_access() {
    let sys: Box<dyn System<V>> = Box::new(IncrementSpeed);
    let access = sys.access();
    assert_eq!(access.len(), 1);
}

#[test]
fn validate_checks_every_pair_once() {
    assert!(validate_no_self_conflicts(&[]));
    assert!(validate_no_self_conflicts(&[Access::ResWrite(1)]));
    assert!(validate_no_self_conflicts(&[Access::ResRead(1), Access::ResRead(1)]));
    assert!(!validate_no_self_conflicts(&[Access::CompRead(1), Access::ResRead(2), Access::CompWrite(1)]));
}
