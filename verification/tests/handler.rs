use galeon_engine::handler::{
    CommandHandler, DuplicateHandler, HandlerRegistry, JsonHandler, QueryHandler,
};
use galeon_engine::resource::TypeKey;

const SPAWN_UNIT: TypeKey = 1;
const GET_WORLD_SNAPSHOT: TypeKey = 2;
const SPAWN_UNIT_V2: TypeKey = 3;

struct SpawnUnit {
    unit_id: u64,
    location_id: u64,
}

struct GetWorldSnapshot;

#[derive(Debug, Clone, PartialEq)]
struct WorldSnapshot {
    units_active: u32,
    units_idle: u32,
}

#[derive(Debug, Clone, PartialEq)]
struct DispatchResult {
    ok: bool,
}

struct UnitSpawner;

impl CommandHandler<SpawnUnit, DispatchResult> for UnitSpawner {
    fn handle(&self, cmd: SpawnUnit) -> Result<DispatchResult, String> {
        let _ = (cmd.unit_id, cmd.location_id);
        Ok(DispatchResult { ok: true })
    }
}

struct WorldQuerier;

impl QueryHandler<GetWorldSnapshot, WorldSnapshot> for WorldQuerier {
    fn handle(&self, _query: GetWorldSnapshot) -> Result<WorldSnapshot, String> {
        Ok(WorldSnapshot { units_active: 2, units_idle: 5 })
    }
}

/// The handlers these tests register, behind one type.
enum Entry {
    Spawner(UnitSpawner),
    Querier(WorldQuerier),
}

impl JsonHandler for Entry {
    fn handle_json(&self, request: &str) -> Result<String, String> {
        match self {
            Entry::Spawner(h) => {
                if !request.contains("unit_id") {
                    return Err("missing field `unit_id`".to_string());
                }
                let r = h.handle(SpawnUnit { unit_id: 1, location_id: 42 })?;
                Ok(format!("{{\"ok\":{}}}", r.ok))
            }
            Entry::Querier(h) => {
                let s = h.handle(GetWorldSnapshot)?;
                Ok(format!(
                    "{{\"units_active\":{},\"units_idle\":{}}}",
                    s.units_active, s.units_idle
                ))
            }
        }
    }
}

fn register_command(registry: &mut HandlerRegistry<Entry>, key: TypeKey, name: &str, entry: Entry) {
    match registry.check_command(key, name) {
        Ok(()) => registry.register_command(key, name.to_string(), entry),
        Err(DuplicateHandler::SameType) => panic!("duplicate command handler for type {}", name),
        Err(DuplicateHandler::SameName) => panic!(
            "duplicate command handler for protocol name {:?} (different type, same name)",
            name
        ),
    }
}

fn register_query(registry: &mut HandlerRegistry<Entry>, key: TypeKey, name: &str, entry: Entry) {
    match registry.check_query(key, name) {
        Ok(()) => registry.register_query(key, name.to_string(), entry),
        Err(_) => panic!("duplicate query handler for type {}", name),
    }
}

#[test]
fn register_and_dispatch_command_local() {
    let mut registry = HandlerRegistry::new();
    register_command(&mut registry, SPAWN_UNIT, "SpawnUnit", Entry::Spawner(UnitSpawner));

    let result = match registry.dispatch_command(SPAWN_UNIT, "SpawnUnit").unwrap() {
        Entry::Spawner(h) => h.handle(SpawnUnit { unit_id: 1, location_id: 42 }).unwrap(),
        Entry::Querier(_) => panic!("wrong handler"),
    };
    assert!(result.ok);
}

#[test]
fn register_and_dispatch_query_local() {
    let mut registry = HandlerRegistry::new();
    register_query(&mut registry, GET_WORLD_SNAPSHOT, "GetWorldSnapshot", Entry::Querier(WorldQuerier));

    let snapshot = match registry.dispatch_query(GET_WORLD_SNAPSHOT, "GetWorldSnapshot").unwrap() {
        Entry::Querier(h) => h.handle(GetWorldSnapshot).unwrap(),
        Entry::Spawner(_) => panic!("wrong handler"),
    };
    assert_eq!(snapshot.units_active, 2);
    assert_eq!(snapshot.units_idle, 5);
}

#[test]
fn dispatch_command_json_by_protocol_name() {
    let mut registry = HandlerRegistry::new();
    register_command(&mut registry, SPAWN_UNIT, "SpawnUnit", Entry::Spawner(UnitSpawner));

    let response = registry
        .dispatch_command_json("SpawnUnit", r#"{"unit_id":1,"location_id":42}"#)
        .unwrap();
    assert!(response.contains("true"));
}

#[test]
fn missing_handler_returns_error() {
    let registry: HandlerRegistry<Entry> = HandlerRegistry::new();
    let result = registry.dispatch_command(SPAWN_UNIT, "SpawnUnit");
    assert!(result.is_err());
    assert!(result.err().unwrap().contains("no handler"));
}

#[test]
#[should_panic(expected = "duplicate command handler")]
fn duplicate_handler_panics() {
    let mut registry = HandlerRegistry::new();
    register_command(&mut registry, SPAWN_UNIT, "SpawnUnit", Entry::Spawner(UnitSpawner));
    register_command(&mut registry, SPAWN_UNIT, "SpawnUnit", Entry::Spawner(UnitSpawner));
}

#[test]
fn registry_counts() {
    let mut registry = HandlerRegistry::new();
    assert_eq!(registry.command_count(), 0);
    assert_eq!(registry.query_count(), 0);

    register_command(&mut registry, SPAWN_UNIT, "SpawnUnit", Entry::Spawner(UnitSpawner));
    register_query(&mut registry, GET_WORLD_SNAPSHOT, "GetWorldSnapshot", Entry::Querier(WorldQuerier));

    assert_eq!(registry.command_count(), 1);
    assert_eq!(registry.query_count(), 1);
}

#[test]
#[should_panic(expected = "duplicate command handler for protocol name")]
fn name_collision_panics() {
    let mut registry = HandlerRegistry::new();
    register_command(&mut registry, SPAWN_UNIT, "SpawnUnit", Entry::Spawner(UnitSpawner));
    register_command(&mut registry, SPAWN_UNIT_V2, "SpawnUnit", Entry::Spawner(UnitSpawner));
}

#[test]
fn registration_checks_type_before_name() {
    let mut registry = HandlerRegistry::new();
    registry.register_command(SPAWN_UNIT, "SpawnUnit".to_string(), Entry::Spawner(UnitSpawner));
    assert_eq!(registry.check_command(SPAWN_UNIT, "Other"), Err(DuplicateHandler::SameType));
    assert_eq!(registry.check_command(SPAWN_UNIT, "SpawnUnit"), Err(DuplicateHandler::SameType));
    assert_eq!(registry.check_command(SPAWN_UNIT_V2, "SpawnUnit"), Err(DuplicateHandler::SameName));
    assert_eq!(registry.check_command(SPAWN_UNIT_V2, "Other"), Ok(()));
    // Commands and queries are separate namespaces.
    assert_eq!(registry.check_query(SPAWN_UNIT, "SpawnUnit"), Ok(()));
}

#[test]
fn unknown_protocol_names_give_exact_errors() {
    let mut registry = HandlerRegistry::new();
    register_command(&mut registry, SPAWN_UNIT, "SpawnUnit", Entry::Spawner(UnitSpawner));
    assert_eq!(
        registry.dispatch_command_json("Nope", "{}").unwrap_err(),
        "unknown command: Nope"
    );
    assert_eq!(
        registry.dispatch_query_json("SpawnUnit", "null").unwrap_err(),
        "unknown query: SpawnUnit"
    );
    assert_eq!(
        registry.dispatch_query(SPAWN_UNIT, "GetWorldSnapshot").err().unwrap(),
        "no handler for query GetWorldSnapshot"
    );
}

#[test]
fn registered_handler_is_found_by_name_and_type() {
    let mut registry = HandlerRegistry::new();
    register_command(&mut registry, SPAWN_UNIT, "SpawnUnit", Entry::Spawner(UnitSpawner));
    register_query(&mut registry, GET_WORLD_SNAPSHOT, "GetWorldSnapshot", Entry::Querier(WorldQuerier));
    assert!(matches!(registry.command_named("SpawnUnit"), Ok(Entry::Spawner(_))));
    assert!(matches!(registry.query_named("GetWorldSnapshot"), Ok(Entry::Querier(_))));
    let json = registry.dispatch_query_json("GetWorldSnapshot", "null").unwrap();
    assert_eq!(json, "{\"units_active\":2,\"units_idle\":5}");
}

#[test]
fn dispatch_query_json_by_protocol_name() {
    let mut registry = HandlerRegistry::new();
    register_query(&mut registry, GET_WORLD_SNAPSHOT, "GetWorldSnapshot", Entry::Querier(WorldQuerier));

    let response = registry.dispatch_query_json("GetWorldSnapshot", "null").unwrap();

    let snapshot: serde_json::Value = serde_json::from_str(&response).unwrap();
    assert_eq!(snapshot["units_idle"].as_u64(), Some(5));
}

#[test]
fn same_registry_serves_both_adapters() {
    let mut registry = HandlerRegistry::new();
    register_command(&mut registry, SPAWN_UNIT, "SpawnUnit", Entry::Spawner(UnitSpawner));
    register_query(&mut registry, GET_WORLD_SNAPSHOT, "GetWorldSnapshot", Entry::Querier(WorldQuerier));

    // In-process adapter, by request type.
    let local_result = match registry.dispatch_command(SPAWN_UNIT, "SpawnUnit").unwrap() {
        Entry::Spawner(h) => h.handle(SpawnUnit { unit_id: 1, location_id: 42 }).unwrap(),
        Entry::Querier(_) => panic!("wrong handler"),
    };
    assert!(local_result.ok);
    let local_snapshot = match registry.dispatch_query(GET_WORLD_SNAPSHOT, "GetWorldSnapshot").unwrap() {
        Entry::Querier(h) => h.handle(GetWorldSnapshot).unwrap(),
        Entry::Spawner(_) => panic!("wrong handler"),
    };
    assert_eq!(local_snapshot.units_idle, 5);

    // Remote adapter, JSON keyed by the stable protocol name.
    let json_result = registry
        .dispatch_command_json("SpawnUnit", r#"{"unit_id":2,"location_id":99}"#)
        .unwrap();
    assert!(json_result.contains("true"));
    let json_snapshot = registry.dispatch_query_json("GetWorldSnapshot", "null").unwrap();
    let remote_snapshot: serde_json::Value = serde_json::from_str(&json_snapshot).unwrap();
    assert_eq!(remote_snapshot["units_idle"].as_u64(), Some(5));
}
