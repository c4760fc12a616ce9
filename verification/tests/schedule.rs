use galeon_engine::commands::Commands;
use galeon_engine::event::EventWriter;
use galeon_engine::function_system::System;
use galeon_engine::resource::TypeKey;
use galeon_engine::schedule::Schedule;
use galeon_engine::system_param::{Access, Param, SystemParam};
use galeon_engine::world::World;

const COUNTER: TypeKey = 1;
const SPEED: TypeKey = 2;
const SCORE: TypeKey = 3;

#[derive(Debug, Clone, PartialEq)]
enum V {
    Counter(u32),
    Speed(f32),
    Score(u32),
}

fn counters(world: &World<V>) -> Vec<u32> {
    world
        .query(COUNTER)
        .iter()
        .map(|(_, c)| match c {
            V::Counter(n) => *n,
            _ => 0,
        })
        .collect()
}

fn update_counters(world: &mut World<V>, f: impl Fn(u32) -> u32) {
    for e in world.query_mut(COUNTER) {
        if let Some(V::Counter(c)) = world.get_mut(e, COUNTER) {
            *c = f(*c);
        }
    }
}

struct Increment;
impl System<V> for Increment {
    fn name(&self) -> String {
        "increment".to_string()
    }
    fn run(&mut self, world: &mut World<V>) {
        update_counters(world, |c| c + 1);
    }
    fn access(&self) -> Vec<Access> {
        Param::QueryMut(COUNTER).access()
    }
}

struct Double;
impl System<V> for Double {
    fn name(&self) -> String {
        "double".to_string()
    }
    fn run(&mut self, world: &mut World<V>) {
        update_counters(world, |c| c * 2);
    }
    fn access(&self) -> Vec<Access> {
        Param::QueryMut(COUNTER).access()
    }
}

struct ApplySpeed;
impl System<V> for ApplySpeed {
    fn name(&self) -> String {
        "apply_speed".to_string()
    }
    fn run(&mut self, world: &mut World<V>) {
        let s = match world.resource(SPEED) {
            V::Speed(s) => *s as u32,
            _ => 0,
        };
        update_counters(world, |c| c + s);
    }
    fn access(&self) -> Vec<Access> {
        vec![Param::Res(SPEED), Param::QueryMut(COUNTER)].access()
    }
}

struct IncrementSpeed;
impl System<V> for IncrementSpeed {
    fn name(&self) -> String {
        "inc_speed".to_string()
    }
    fn run(&mut self, world: &mut World<V>) {
        if let V::Speed(s) = world.resource_mut(SPEED) {
            *s += 1.0;
        }
    }
    fn access(&self) -> Vec<Access> {
        Param::ResMut(SPEED).access()
    }
}

struct SpawnViaCommands;
impl System<V> for SpawnViaCommands {
    fn name(&self) -> String {
        "spawner".to_string()
    }
    fn run(&mut self, world: &mut World<V>) {
        let mut cmds = Commands::new(world.command_buffer_mut());
        cmds.spawn(vec![(COUNTER, V::Counter(100))]);
    }
    fn access(&self) -> Vec<Access> {
        Param::Commands.access()
    }
}

struct DespawnAll;
impl System<V> for DespawnAll {
    fn name(&self) -> String {
        "despawn_all".to_string()
    }
    fn run(&mut self, world: &mut World<V>) {
        let es: Vec<_> = world.query(COUNTER).iter().map(|(e, _)| *e).collect();
        let mut cmds = Commands::new(world.command_buffer_mut());
        for e in es {
            cmds.despawn(e);
        }
    }
    fn access(&self) -> Vec<Access> {
        vec![Param::Query(COUNTER), Param::Commands].access()
    }
}

struct Produce;
impl System<V> for Produce {
    fn name(&self) -> String {
        "produce".to_string()
    }
    fn run(&mut self, world: &mut World<V>) {
        let mut w = EventWriter::new(world.events_mut(SCORE));
        w.send(V::Score(10));
    }
    fn access(&self) -> Vec<Access> {
        Param::EventWriter(SCORE).access()
    }
}

struct Consume;
impl System<V> for Consume {
    fn name(&self) -> String {
        "consume".to_string()
    }
    fn run(&mut self, world: &mut World<V>) {
        let total: u32 = world
            .events(SCORE)
            .read()
            .iter()
            .map(|e| match e {
                V::Score(p) => *p,
                _ => 0,
            })
            .sum();
        update_counters(world, |c| c + total);
    }
    fn access(&self) -> Vec<Access> {
        vec![Param::EventReader(SCORE), Param::QueryMut(COUNTER)].access()
    }
}

#[test]
fn schedule_runs_systems_in_stage_order() {
    let mut world: World<V> = World::new();
    world.spawn(vec![(COUNTER, V::Counter(1))]);
    let mut schedule: Schedule<V> = Schedule::new();
    schedule.add_system("simulate".to_string(), Increment);
    schedule.add_system("post".to_string(), Double);
    schedule.run(&mut world);
    assert_eq!(counters(&world), vec![4]);
}

#[test]
fn schedule_systems_within_stage_run_in_order() {
    let mut world: World<V> = World::new();
    world.spawn(vec![(COUNTER, V::Counter(1))]);
    let mut schedule: Schedule<V> = Schedule::new();
    schedule.add_system("simulate".to_string(), Increment);
    schedule.add_system("simulate".to_string(), Double);
    schedule.run(&mut world);
    assert_eq!(counters(&world), vec![4]);
}

#[test]
fn schedule_stage_order_matters() {
    let mut world: World<V> = World::new();
    world.spawn(vec![(COUNTER, V::Counter(1))]);
    let mut schedule: Schedule<V> = Schedule::new();
    schedule.add_system("pre".to_string(), Double);
    schedule.add_system("simulate".to_string(), Increment);
    schedule.run(&mut world);
    assert_eq!(counters(&world), vec![3]);
}

#[test]
fn empty_schedule_is_safe() {
    let mut world: World<V> = World::new();
    let mut schedule: Schedule<V> = Schedule::new();
    schedule.run(&mut world);
    assert_eq!(schedule.system_count(), 0);
    assert!(schedule.stages().is_empty());
}

#[test]
fn schedule_accepts_parameterized_system() {
    let mut world: World<V> = World::new();
    world.spawn(vec![(COUNTER, V::Counter(0))]);
    let mut schedule: Schedule<V> = Schedule::new();
    assert!(schedule.add_system("update".to_string(), Increment));
    schedule.run(&mut world);
    assert_eq!(counters(&world), vec![1]);
}

#[test]
fn schedule_multi_param_systems_across_stages() {
    let mut world: World<V> = World::new();
    world.insert_resource(SPEED, V::Speed(10.0));
    world.spawn(vec![(COUNTER, V::Counter(0))]);
    let mut schedule: Schedule<V> = Schedule::new();
    schedule.add_system("pre".to_string(), Increment);
    schedule.add_system("post".to_string(), ApplySpeed);
    schedule.run(&mut world);
    assert_eq!(counters(&world), vec![11]);
}

#[test]
fn schedule_res_mut_persists_across_runs() {
    let mut world: World<V> = World::new();
    world.insert_resource(SPEED, V::Speed(0.0));
    let mut schedule: Schedule<V> = Schedule::new();
    schedule.add_system("update".to_string(), IncrementSpeed);
    schedule.run(&mut world);
    schedule.run(&mut world);
    match world.resource(SPEED) {
        V::Speed(s) => assert!((s - 2.0).abs() < f32::EPSILON),
        _ => panic!("speed missing"),
    }
}

#[test]
fn schedule_applies_commands_between_stages() {
    let mut world: World<V> = World::new();
    let mut schedule: Schedule<V> = Schedule::new();
    schedule.add_system("spawn".to_string(), SpawnViaCommands);
    schedule.add_system("read".to_string(), Increment);
    schedule.run(&mut world);
    assert_eq!(counters(&world), vec![101]);
}

#[test]
fn schedule_commands_despawn_visible_to_next_stage() {
    let mut world: World<V> = World::new();
    world.spawn(vec![(COUNTER, V::Counter(1))]);
    world.spawn(vec![(COUNTER, V::Counter(2))]);
    let mut schedule: Schedule<V> = Schedule::new();
    schedule.add_system("cleanup".to_string(), DespawnAll);
    schedule.add_system("post".to_string(), Increment);
    schedule.run(&mut world);
    assert_eq!(world.entity_count(), 0);
}

#[test]
fn schedule_event_writer_reader_cross_tick() {
    let mut world: World<V> = World::new();
    world.add_event(SCORE);
    world.spawn(vec![(COUNTER, V::Counter(0))]);
    let mut schedule: Schedule<V> = Schedule::new();
    schedule.add_system("produce".to_string(), Produce);
    schedule.add_system("consume".to_string(), Consume);
    schedule.run(&mut world);
    assert_eq!(counters(&world), vec![0]);
    schedule.run(&mut world);
    assert_eq!(counters(&world), vec![10]);
}

#[test]
fn schedule_events_cleared_after_two_ticks() {
    let mut world: World<V> = World::new();
    world.add_event(SCORE);
    world.spawn(vec![(COUNTER, V::Counter(0))]);
    let mut schedule: Schedule<V> = Schedule::new();
    schedule.add_system("produce".to_string(), Produce);
    schedule.add_system("consume".to_string(), Consume);
    schedule.run(&mut world);
    schedule.run(&mut world);
    schedule.run(&mut world);
    assert_eq!(counters(&world), vec![20]);
}

#[test]
fn execution_order_groups_by_first_registered_stage() {
    let mut schedule: Schedule<V> = Schedule::new();
    schedule.add_system("b".to_string(), Increment);
    schedule.add_system("a".to_string(), Double);
    schedule.add_system("b".to_string(), IncrementSpeed);
    assert_eq!(schedule.stages(), &["b".to_string(), "a".to_string()]);
    assert_eq!(schedule.execution_order(), vec![0, 2, 1]);
    assert_eq!(schedule.system_count(), 3);
}
