use galeon_engine::data::DataRegistry;

#[derive(Debug, Clone, PartialEq)]
struct UnitStats {
    hp: i32,
    speed: f32,
}

#[derive(Debug, Clone, PartialEq)]
struct UnitTemplate {
    name: String,
    stats: UnitStats,
}

fn template(name: &str, hp: i32, speed: f32) -> UnitTemplate {
    UnitTemplate { name: name.to_string(), stats: UnitStats { hp, speed } }
}

#[test]
fn load_unit_from_str() {
    let registry = DataRegistry::from_unit("scout", template("Scout", 50, 80.0));
    let unit = registry.unit("scout").unwrap();
    assert_eq!(unit.name, "Scout");
    assert_eq!(unit.stats.hp, 50);
}

#[test]
fn reload_unit_updates_existing() {
    let mut registry = DataRegistry::from_unit("scout", template("Scout", 50, 80.0));
    assert_eq!(registry.unit("scout").unwrap().stats.hp, 50);

    let parsed: Result<UnitTemplate, String> = Ok(template("Scout", 75, 90.0));
    registry.reload_unit("scout", parsed).unwrap();
    assert_eq!(registry.unit("scout").unwrap().stats.hp, 75);
    assert!((registry.unit("scout").unwrap().stats.speed - 90.0).abs() < f32::EPSILON);
    assert_eq!(registry.unit_count(), 1);
}

#[test]
fn reload_unit_preserves_on_error() {
    let mut registry = DataRegistry::from_unit("scout", template("Scout", 50, 80.0));
    let parsed: Result<UnitTemplate, String> = Err("RON parse error for 'scout'".to_string());
    let result = registry.reload_unit("scout", parsed);
    assert!(result.is_err());
    assert_eq!(registry.unit("scout").unwrap().stats.hp, 50);
}

#[test]
fn reload_unit_adds_new_entry() {
    let mut registry: DataRegistry<UnitTemplate> = DataRegistry::new();
    assert_eq!(registry.unit_count(), 0);
    let parsed: Result<UnitTemplate, String> = Ok(template("Tank", 200, 20.0));
    registry.reload_unit("tank", parsed).unwrap();
    assert_eq!(registry.unit_count(), 1);
    assert_eq!(registry.unit("tank").unwrap().stats.hp, 200);
}

#[test]
fn merge_prefers_incoming_units() {
    let mut registry = DataRegistry::from_unit("scout", template("Scout", 50, 80.0));
    registry.insert_unit("tank", template("Tank", 200, 20.0));
    let mut other = DataRegistry::from_unit("scout", template("Scout", 60, 85.0));
    other.insert_unit("sentinel", template("Sentinel", 120, 45.0));
    registry.merge(other);
    assert_eq!(registry.unit_count(), 3);
    assert_eq!(registry.unit("scout").unwrap().stats.hp, 60);
    assert_eq!(registry.unit("tank").unwrap().stats.hp, 200);
    assert_eq!(registry.unit("sentinel").unwrap().stats.hp, 120);
    assert!(registry.unit("missing").is_none());
}

#[test]
fn insert_unit_replaces_in_place() {
    let mut registry: DataRegistry<UnitTemplate> = DataRegistry::default();
    registry.insert_unit("a", template("A", 1, 1.0));
    registry.insert_unit("b", template("B", 2, 2.0));
    registry.insert_unit("a", template("A2", 3, 3.0));
    assert_eq!(registry.unit_count(), 2);
    assert_eq!(registry.unit("a").unwrap().name, "A2");
}
