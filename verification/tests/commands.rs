use galeon_engine::commands::{Command, CommandBuffer, Commands};
use galeon_engine::resource::TypeKey;
use galeon_engine::system_param::{has_conflicts, Access, Param, SystemParam, COMMAND_BUFFER_KEY};
use galeon_engine::world::World;

const POS: TypeKey = 1;
const VEL: TypeKey = 2;
const I32: TypeKey = 3;

#[derive(Debug, Clone, PartialEq)]
enum C {
    Pos { x: f32, y: f32 },
    Vel { x: f32, y: f32 },
}

fn pos(x: f32, y: f32) -> C {
    C::Pos { x, y }
}

fn vel(x: f32, y: f32) -> C {
    C::Vel { x, y }
}

fn x_of(c: &C) -> f32 {
    match c {
        C::Pos { x, .. } | C::Vel { x, .. } => *x,
    }
}

#[test]
fn command_buffer_starts_empty() {
    let buf: CommandBuffer<C> = CommandBuffer::new();
    assert!(buf.is_empty());
    assert_eq!(buf.len(), 0);
}

#[test]
fn command_buffer_tracks_length() {
    let mut buf: CommandBuffer<C> = CommandBuffer::new();
    buf.push(Command::Spawn(vec![]));
    buf.push(Command::Spawn(vec![]));
    assert_eq!(buf.len(), 2);
    assert!(!buf.is_empty());
}

#[test]
fn command_buffer_take_drains_all() {
    let mut world: World<C> = World::new();
    let buf = world.command_buffer_mut();
    buf.push(Command::Spawn(vec![(POS, pos(1.0, 2.0))]));
    buf.push(Command::Spawn(vec![(POS, pos(3.0, 4.0))]));
    let mut other: CommandBuffer<C> = CommandBuffer::new();
    other.push(Command::Spawn(vec![]));
    let taken = other.take();
    assert!(other.is_empty());
    assert_eq!(taken.len(), 1);
    world.apply_commands();
    assert_eq!(world.entity_count(), 2);
    assert!(world.command_buffer_mut().is_empty());
}

#[test]
fn commands_spawn_deferred() {
    let mut world: World<C> = World::new();
    assert_eq!(world.entity_count(), 0);
    {
        let mut cmds = Commands::new(world.command_buffer_mut());
        cmds.spawn(vec![(POS, pos(1.0, 2.0))]);
    }
    assert_eq!(world.entity_count(), 0);
    world.apply_commands();
    assert_eq!(world.entity_count(), 1);
    let xs: Vec<f32> = world.query(POS).iter().map(|(_, p)| x_of(p)).collect();
    assert_eq!(xs, vec![1.0]);
}

#[test]
fn commands_despawn_deferred() {
    let mut world: World<C> = World::new();
    let e = world.spawn(vec![(POS, pos(1.0, 2.0))]);
    {
        let mut cmds = Commands::new(world.command_buffer_mut());
        cmds.despawn(e);
    }
    assert!(world.is_alive(e));
    world.apply_commands();
    assert!(!world.is_alive(e));
}

#[test]
fn commands_insert_deferred() {
    let mut world: World<C> = World::new();
    let e = world.spawn(vec![(POS, pos(1.0, 2.0))]);
    {
        let mut cmds = Commands::new(world.command_buffer_mut());
        cmds.insert(e, VEL, vel(3.0, 4.0));
    }
    assert!(world.get(e, VEL).is_none());
    world.apply_commands();
    assert_eq!(x_of(world.get(e, VEL).unwrap()), 3.0);
    assert_eq!(x_of(world.get(e, POS).unwrap()), 1.0);
}

#[test]
fn commands_remove_deferred() {
    let mut world: World<C> = World::new();
    let e = world.spawn(vec![(POS, pos(1.0, 2.0)), (VEL, vel(3.0, 4.0))]);
    {
        let mut cmds = Commands::new(world.command_buffer_mut());
        cmds.remove(e, VEL);
    }
    assert!(world.get(e, VEL).is_some());
    world.apply_commands();
    assert!(world.get(e, VEL).is_none());
    assert_eq!(x_of(world.get(e, POS).unwrap()), 1.0);
}

#[test]
fn commands_multiple_ops_applied_in_order() {
    let mut world: World<C> = World::new();
    let e = world.spawn(vec![(POS, pos(1.0, 2.0))]);
    {
        let mut cmds = Commands::new(world.command_buffer_mut());
        cmds.insert(e, VEL, vel(10.0, 20.0));
        cmds.remove(e, VEL);
    }
    world.apply_commands();
    assert!(world.get(e, VEL).is_none());
}

#[test]
fn commands_on_dead_entity_is_safe() {
    let mut world: World<C> = World::new();
    let e = world.spawn(vec![(POS, pos(1.0, 2.0))]);
    world.despawn(e);
    {
        let mut cmds = Commands::new(world.command_buffer_mut());
        cmds.insert(e, VEL, vel(1.0, 1.0));
        cmds.despawn(e);
        cmds.remove(e, POS);
        assert_eq!(cmds.len(), 3);
    }
    world.apply_commands();
    assert_eq!(world.entity_count(), 0);
}

#[test]
fn commands_spawn_multi_component() {
    let mut world: World<C> = World::new();
    {
        let mut cmds = Commands::new(world.command_buffer_mut());
        cmds.spawn(vec![(POS, pos(1.0, 2.0)), (VEL, vel(3.0, 4.0))]);
    }
    world.apply_commands();
    assert_eq!(world.entity_count(), 1);
    let results = world.query2(POS, VEL);
    assert_eq!(results.len(), 1);
    assert_eq!(x_of(results[0].1), 1.0);
    assert_eq!(x_of(results[0].2), 3.0);
}

#[test]
fn commands_spawn_with_repeated_key_is_dropped() {
    let mut world: World<C> = World::new();
    {
        let mut cmds = Commands::new(world.command_buffer_mut());
        cmds.spawn(vec![(POS, pos(1.0, 2.0)), (POS, pos(3.0, 4.0))]);
        cmds.spawn(vec![(VEL, vel(5.0, 6.0))]);
    }
    world.apply_commands();
    assert_eq!(world.entity_count(), 1);
    assert!(world.query(POS).is_empty());
}

#[test]
fn commands_access_uses_command_buffer_marker() {
    let access = Param::Commands.access();
    assert_eq!(access.len(), 1);
    assert_eq!(access[0], Access::ResWrite(COMMAND_BUFFER_KEY));
}

#[test]
fn commands_does_not_conflict_with_res() {
    let a = Param::Commands.access();
    let b = Param::Res(I32).access();
    assert!(!has_conflicts(&a, &b));
}

#[test]
fn commands_does_not_conflict_with_query() {
    let a = Param::Commands.access();
    let b = Param::Query(POS).access();
    assert!(!has_conflicts(&a, &b));
}

#[test]
fn commands_fetch_via_unsafe_world_cell() {
    let mut world: World<C> = World::new();
    {
        let mut cmds = Commands::new(world.command_buffer_mut());
        cmds.spawn(vec![(POS, pos(42.0, 0.0))]);
        assert!(!cmds.is_empty());
    }
    world.apply_commands();
    assert_eq!(world.entity_count(), 1);
}
