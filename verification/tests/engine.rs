use galeon_engine::engine::{Engine, Plugin};
use galeon_engine::function_system::System;
use galeon_engine::resource::TypeKey;
use galeon_engine::system_param::Access;
use galeon_engine::world::World;

const COUNTER: TypeKey = 1;
const GRAVITY: TypeKey = 2;

#[derive(Debug, Clone, PartialEq)]
enum V {
    Counter(u32),
    Gravity(f32),
}

struct Increment;
impl System<V> for Increment {
    fn name(&self) -> String {
        "increment".to_string()
    }
    fn run(&mut self, world: &mut World<V>) {
        for e in world.query_mut(COUNTER) {
            if let Some(V::Counter(c)) = world.get_mut(e, COUNTER) {
                *c += 1;
            }
        }
    }
    fn access(&self) -> Vec<Access> {
        Vec::new()
    }
}

struct IncrementPlugin;
impl Plugin<V> for IncrementPlugin {
    fn build(&self, engine: &mut Engine<V>) {
        engine.add_system("update".to_string(), Increment);
    }
}

#[test]
fn new_engine_has_empty_world_and_schedule() {
    let engine: Engine<V> = Engine::new();
    assert_eq!(engine.world().entity_count(), 0);
    assert_eq!(engine.schedule().system_count(), 0);
}

#[test]
fn world_mut_allows_mutation() {
    let mut engine: Engine<V> = Engine::new();
    engine.world_mut().spawn(vec![(COUNTER, V::Counter(0))]);
    assert_eq!(engine.world().entity_count(), 1);
}

#[test]
fn add_system_registers_system() {
    let mut engine: Engine<V> = Engine::new();
    assert!(engine.add_system("update".to_string(), Increment));
    assert_eq!(engine.schedule().system_count(), 1);
}

#[test]
fn add_system_is_chainable() {
    let mut engine: Engine<V> = Engine::new();
    engine.add_system("pre".to_string(), Increment);
    engine.add_system("post".to_string(), Increment);
    assert_eq!(engine.schedule().system_count(), 2);
}

#[test]
fn insert_resource_is_chainable() {
    let mut engine: Engine<V> = Engine::new();
    engine.insert_resource(GRAVITY, V::Gravity(9.8)).insert_resource(COUNTER, V::Counter(1));
    match engine.world().resource(GRAVITY) {
        V::Gravity(g) => assert!((g - 9.8).abs() < f32::EPSILON),
        _ => panic!("gravity missing"),
    }
}

#[test]
fn add_plugin_calls_build() {
    let mut engine: Engine<V> = Engine::new();
    engine.add_plugin(IncrementPlugin);
    assert_eq!(engine.schedule().system_count(), 1);
}

#[test]
fn add_plugin_is_chainable() {
    let mut engine: Engine<V> = Engine::new();
    engine.add_plugin(IncrementPlugin).add_plugin(IncrementPlugin);
    assert_eq!(engine.schedule().system_count(), 2);
}

#[test]
fn run_once_executes_schedule() {
    let mut engine: Engine<V> = Engine::new();
    engine.world_mut().spawn(vec![(COUNTER, V::Counter(0))]);
    engine.add_system("update".to_string(), Increment);
    engine.run_once();
    let counts: Vec<u32> = engine
        .world()
        .query(COUNTER)
        .iter()
        .map(|(_, c)| match c {
            V::Counter(n) => *n,
            _ => 0,
        })
        .collect();
    assert_eq!(counts, vec![1]);
}

#[test]
fn pause_and_resume() {
    let mut engine: Engine<V> = Engine::new();
    assert!(!engine.is_paused());
    engine.pause();
    assert!(engine.is_paused());
    engine.resume();
    assert!(!engine.is_paused());
}
