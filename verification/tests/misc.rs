use galeon_engine::engine_version;
use galeon_engine::entity::Entity;
use galeon_engine::data::ron_unit_key;
use galeon_engine::heightmap::{check_grid, decode_be_u16_samples, decode_gray16, gray16_from_parts, GridError, HeightmapDecodeError};
use galeon_engine::hot_reload::{classify_change, AssetEvent, AssetEvents};
use galeon_engine::particle::{Billboard, ParticleRng};
use galeon_engine::protocol::{ProtocolKind, ProtocolMeta};
use galeon_engine::render::{InstanceOf, MeshHandle, ObjectType, ParentEntity, Visibility};
use galeon_engine::selection::{PickModifiers, Selection};

// ---- render -------------------------------------------------------------

#[test]
fn visibility_default_is_visible() {
    assert!(Visibility::default().visible);
}

#[test]
fn parent_entity_stores_entity() {
    let entity = Entity::from_raw(42, 0);
    let parent = ParentEntity(entity);
    assert_eq!(parent.0, entity);
}

#[test]
fn object_type_default_is_mesh() {
    assert_eq!(ObjectType::default(), ObjectType::Mesh);
}

#[test]
fn instance_of_wraps_mesh_handle() {
    let handle = MeshHandle { id: 42 };
    let tag = InstanceOf(handle);
    assert_eq!(tag.0, handle);
    assert_eq!(tag.0.id, 42);
}

#[test]
fn instance_of_equality_is_by_mesh_handle() {
    assert_eq!(InstanceOf(MeshHandle { id: 7 }), InstanceOf(MeshHandle { id: 7 }));
    assert_ne!(InstanceOf(MeshHandle { id: 7 }), InstanceOf(MeshHandle { id: 8 }));
}

#[test]
fn object_type_as_u8() {
    assert_eq!(ObjectType::Mesh.as_u8(), 0);
    assert_eq!(ObjectType::PointLight.as_u8(), 1);
    assert_eq!(ObjectType::DirectionalLight.as_u8(), 2);
    assert_eq!(ObjectType::LineSegments.as_u8(), 3);
    assert_eq!(ObjectType::Group.as_u8(), 4);
}

// ---- particle -----------------------------------------------------------

#[test]
fn rng_zero_seed_does_not_stick() {
    let mut rng = ParticleRng::from_seed(0);
    for _ in 0..16 {
        assert_ne!(rng.next_u64(), 0);
    }
}

#[test]
fn rng_seed_determinism() {
    let mut a = ParticleRng::from_seed(0xC0FFEE);
    let mut b = ParticleRng::from_seed(0xC0FFEE);
    for _ in 0..32 {
        assert_eq!(a.next_u64(), b.next_u64());
    }
}

#[test]
fn rng_distinct_seeds_diverge() {
    let mut a = ParticleRng::from_seed(1);
    let mut b = ParticleRng::from_seed(2);
    let mut diverged = false;
    for _ in 0..16 {
        if a.next_u64() != b.next_u64() {
            diverged = true;
            break;
        }
    }
    assert!(diverged, "seeds 1 and 2 produced identical streams");
}

#[test]
fn rng_next_u64_is_one_xorshift_round() {
    let mut rng = ParticleRng::from_seed(7);
    let mut copy = rng.clone();
    let first = rng.next_u64();
    assert_eq!(copy.next_u64(), first);
    let mut x = first;
    x ^= x << 13;
    x ^= x >> 7;
    x ^= x << 17;
    assert_eq!(rng.next_u64(), x);
}

#[test]
fn rng_seed_mixing_is_splitmix() {
    let seed: u64 = 5;
    let mut s = seed.wrapping_add(0x9E37_79B9_7F4A_7C15).wrapping_mul(0xBF58_476D_1CE4_E5B9);
    s ^= s >> 30;
    s = s.wrapping_mul(0x94D0_49BB_1331_11EB);
    s ^= s >> 27;
    let mut x = s;
    x ^= x << 13;
    x ^= x >> 7;
    x ^= x << 17;
    assert_eq!(ParticleRng::from_seed(seed).next_u64(), x);
}

#[test]
fn billboard_is_a_plain_tag() {
    assert_eq!(Billboard, Billboard::default());
}

// ---- selection ----------------------------------------------------------

#[derive(Debug, Clone, Copy, PartialEq)]
struct PickPoint {
    x: f32,
    y: f32,
    z: f32,
}

fn e(index: u32, generation: u32) -> Entity {
    Entity::from_raw(index, generation)
}

fn selected(entities: &[Entity]) -> Selection<PickPoint> {
    let mut sel = Selection::new();
    sel.apply_pick_rect(entities.to_vec(), PickModifiers::none());
    sel
}

#[test]
fn modifiers_round_trip_through_bools() {
    let m = PickModifiers::from_bools(true, false, true, false);
    assert!(m.shift());
    assert!(!m.ctrl());
    assert!(m.alt());
    assert!(!m.meta());
    assert_eq!(m.0, PickModifiers::SHIFT | PickModifiers::ALT);
}

#[test]
fn click_replaces_selection_with_no_modifier() {
    let mut sel = selected(&[e(1, 0), e(2, 0)]);
    sel.apply_pick(Some(e(3, 0)), None, PickModifiers::none());
    assert_eq!(sel.len(), 1);
    assert!(sel.contains(e(3, 0)));
}

#[test]
fn click_on_empty_space_clears_with_no_modifier() {
    let mut sel = selected(&[e(1, 0)]);
    sel.apply_pick(None, None, PickModifiers::none());
    assert!(sel.is_empty());
}

#[test]
fn click_on_empty_space_with_modifier_is_noop() {
    let mut sel = selected(&[e(1, 0)]);
    sel.apply_pick(None, None, PickModifiers(PickModifiers::SHIFT));
    assert_eq!(sel.len(), 1);
}

#[test]
fn shift_click_toggles_membership() {
    let mut sel: Selection<PickPoint> = Selection::new();
    sel.apply_pick(Some(e(1, 0)), None, PickModifiers(PickModifiers::SHIFT));
    sel.apply_pick(Some(e(2, 0)), None, PickModifiers(PickModifiers::SHIFT));
    assert_eq!(sel.len(), 2);
    sel.apply_pick(Some(e(1, 0)), None, PickModifiers(PickModifiers::SHIFT));
    assert!(!sel.contains(e(1, 0)));
    assert!(sel.contains(e(2, 0)));
}

#[test]
fn ctrl_click_subtracts() {
    let mut sel = selected(&[e(1, 0), e(2, 0)]);
    sel.apply_pick(Some(e(1, 0)), None, PickModifiers(PickModifiers::CTRL));
    assert!(!sel.contains(e(1, 0)));
    assert!(sel.contains(e(2, 0)));
}

#[test]
fn pick_records_last_world_point() {
    let mut sel: Selection<PickPoint> = Selection::new();
    let p = PickPoint { x: 1.0, y: 2.0, z: 3.0 };
    sel.apply_pick(Some(e(1, 0)), Some(p), PickModifiers::none());
    assert_eq!(*sel.last_pick(), Some(p));
    sel.apply_pick(None, None, PickModifiers::none());
    assert_eq!(*sel.last_pick(), Some(p));
}

#[test]
fn rect_no_modifier_replaces() {
    let mut sel = selected(&[e(1, 0)]);
    sel.apply_pick_rect(vec![e(2, 0), e(3, 0)], PickModifiers::none());
    assert!(!sel.contains(e(1, 0)));
    assert!(sel.contains(e(2, 0)));
    assert!(sel.contains(e(3, 0)));
}

#[test]
fn rect_shift_adds() {
    let mut sel = selected(&[e(1, 0)]);
    sel.apply_pick_rect(vec![e(2, 0), e(3, 0)], PickModifiers(PickModifiers::SHIFT));
    assert_eq!(sel.len(), 3);
}

#[test]
fn rect_ctrl_subtracts() {
    let mut sel = selected(&[e(1, 0), e(2, 0), e(3, 0)]);
    sel.apply_pick_rect(vec![e(2, 0), e(3, 0)], PickModifiers(PickModifiers::CTRL));
    assert_eq!(sel.len(), 1);
    assert!(sel.contains(e(1, 0)));
}

#[test]
fn rect_alt_intersects() {
    let mut sel = selected(&[e(1, 0), e(2, 0), e(3, 0)]);
    sel.apply_pick_rect(vec![e(2, 0), e(3, 0), e(4, 0)], PickModifiers(PickModifiers::ALT));
    assert_eq!(sel.len(), 2);
    assert!(sel.contains(e(2, 0)));
    assert!(sel.contains(e(3, 0)));
    assert!(!sel.contains(e(1, 0)));
}

#[test]
fn rect_with_repeated_entities_counts_each_once() {
    let mut sel: Selection<PickPoint> = Selection::new();
    sel.apply_pick_rect(vec![e(2, 0), e(2, 0), e(3, 0)], PickModifiers::none());
    assert_eq!(sel.len(), 2);
}

// ---- hot reload ---------------------------------------------------------

fn _assert_send<T: Send>() {}

#[test]
fn asset_event_is_send() {
    _assert_send::<AssetEvent>();
}

#[test]
fn asset_events_push_and_drain() {
    let mut events = AssetEvents::new();
    events.push(AssetEvent::Modified("a.ron".to_string()));
    events.push(AssetEvent::Added("b.ron".to_string()));
    let drained = events.drain();
    assert_eq!(drained.len(), 2);
    assert!(events.is_empty());
}

#[test]
fn asset_events_is_empty() {
    let mut events = AssetEvents::new();
    assert!(events.is_empty());
    events.push(AssetEvent::Removed("c.ron".to_string()));
    assert!(!events.is_empty());
    events.drain();
    assert!(events.is_empty());
}

// ---- version and protocol -------------------------------------------------

#[test]
fn version_is_not_empty() {
    assert!(!engine_version().is_empty());
}

struct SpawnUnit;
impl ProtocolMeta for SpawnUnit {
    fn name() -> String {
        "SpawnUnit".to_string()
    }
    fn kind() -> ProtocolKind {
        ProtocolKind::Command
    }
}

struct GetWorldSnapshot;
impl ProtocolMeta for GetWorldSnapshot {
    fn name() -> String {
        "GetWorldSnapshot".to_string()
    }
    fn kind() -> ProtocolKind {
        ProtocolKind::Query
    }
}

struct UnitDestroyed;
impl ProtocolMeta for UnitDestroyed {
    fn name() -> String {
        "UnitDestroyed".to_string()
    }
    fn kind() -> ProtocolKind {
        ProtocolKind::Event
    }
}

struct WorldSnapshot;
impl ProtocolMeta for WorldSnapshot {
    fn name() -> String {
        "WorldSnapshot".to_string()
    }
    fn kind() -> ProtocolKind {
        ProtocolKind::Dto
    }
}

#[test]
fn protocol_kind_variants() {
    assert_ne!(ProtocolKind::Command, ProtocolKind::Query);
    assert_ne!(ProtocolKind::Event, ProtocolKind::Dto);
}

#[test]
fn protocol_meta_command() {
    assert_eq!(SpawnUnit::name(), "SpawnUnit");
    assert_eq!(SpawnUnit::kind(), ProtocolKind::Command);
}

#[test]
fn protocol_meta_query() {
    assert_eq!(GetWorldSnapshot::name(), "GetWorldSnapshot");
    assert_eq!(GetWorldSnapshot::kind(), ProtocolKind::Query);
}

#[test]
fn protocol_meta_event() {
    assert_eq!(UnitDestroyed::name(), "UnitDestroyed");
    assert_eq!(UnitDestroyed::kind(), ProtocolKind::Event);
}

#[test]
fn protocol_meta_dto() {
    assert_eq!(WorldSnapshot::name(), "WorldSnapshot");
    assert_eq!(WorldSnapshot::kind(), ProtocolKind::Dto);
}

#[test]
fn classify_change_keeps_settled_ron_files() {
    assert!(matches!(
        classify_change("data/units/scout.ron".to_string(), false, true),
        Some(AssetEvent::Modified(p)) if p == "data/units/scout.ron"
    ));
    assert!(matches!(
        classify_change("data/units/scout.ron".to_string(), false, false),
        Some(AssetEvent::Removed(_))
    ));
    assert!(classify_change("data/units/scout.ron".to_string(), true, true).is_none());
    assert!(classify_change("data/units/notes.txt".to_string(), false, true).is_none());
    assert!(classify_change("data/.ron".to_string(), false, true).is_none());
    assert!(classify_change("data.ron/readme".to_string(), false, true).is_none());
}

#[test]
fn ron_unit_key_is_file_stem() {
    assert_eq!(ron_unit_key("/tmp/x/sentinel.ron"), Some("sentinel".to_string()));
    assert_eq!(ron_unit_key("scout.ron"), Some("scout".to_string()));
    assert_eq!(ron_unit_key("a.b.ron"), Some("a.b".to_string()));
    assert_eq!(ron_unit_key("/tmp/x/notes.txt"), None);
    assert_eq!(ron_unit_key("/tmp/x/.ron"), None);
}

#[test]
fn heightmap_grid_and_sample_decoding() {
    assert_eq!(check_grid(2, 2, 4), Ok(()));
    assert_eq!(check_grid(1, 3, 3), Err(GridError::InvalidDimensions { width: 1, height: 3 }));
    assert_eq!(check_grid(3, 2, 5), Err(GridError::HeightCount { expected: 6, actual: 5 }));
    assert_eq!(
        check_grid(u32::MAX, u32::MAX, 0),
        Err(GridError::HeightCount { expected: (u32::MAX as u64) * (u32::MAX as u64), actual: 0 })
    );
    assert_eq!(decode_be_u16_samples(&[0x12, 0x34, 0xff, 0xff, 0, 1]), Some(vec![0x1234, 0xffff, 1]));
    assert_eq!(decode_be_u16_samples(&[1, 2, 3]), None);
    assert_eq!(decode_be_u16_samples(&[]), Some(vec![]));
}

#[test]
fn particle_unit_bits_are_top_24_bits() {
    let mut a = ParticleRng::from_seed(42);
    let mut b = ParticleRng::from_seed(42);
    for _ in 0..64 {
        let bits = a.next_unit_bits();
        let raw = b.next_u64();
        assert_eq!(bits as u64, raw >> 40);
        assert!(bits < (1 << 24));
    }
}

fn encode_png(width: u32, height: u32, color: png::ColorType, depth: png::BitDepth, data: &[u8]) -> Vec<u8> {
    let mut bytes = Vec::new();
    {
        let mut encoder = png::Encoder::new(&mut bytes, width, height);
        encoder.set_color(color);
        encoder.set_depth(depth);
        let mut writer = encoder.write_header().unwrap();
        writer.write_image_data(data).unwrap();
    }
    bytes
}

#[test]
fn png16_loader_rejects_non_gray16_png() {
    let bytes = encode_png(1, 1, png::ColorType::Grayscale, png::BitDepth::Eight, &[0]);
    let err = decode_gray16(&bytes).unwrap_err();
    assert!(matches!(err, HeightmapDecodeError::UnsupportedPng { color_type: 0, bit_depth: 8 }));
}

#[test]
fn decode_gray16_reads_big_endian_samples() {
    let bytes = encode_png(2, 2, png::ColorType::Grayscale, png::BitDepth::Sixteen, &[0, 0, 0xff, 0xff, 0x12, 0x34, 0x00, 0x01]);
    let (w, h, samples) = decode_gray16(&bytes).unwrap();
    assert_eq!((w, h), (2, 2));
    assert_eq!(samples, vec![0, 0xffff, 0x1234, 1]);
}

#[test]
fn decode_gray16_rejects_rgb() {
    let bytes = encode_png(1, 1, png::ColorType::Rgb, png::BitDepth::Eight, &[1, 2, 3]);
    assert_eq!(
        decode_gray16(&bytes),
        Err(HeightmapDecodeError::UnsupportedPng { color_type: 2, bit_depth: 8 })
    );
}

#[test]
fn decode_gray16_reports_decode_errors() {
    assert!(matches!(decode_gray16(&[1, 2, 3, 4]), Err(HeightmapDecodeError::Decode(_))));
}

#[test]
fn gray16_from_parts_cases() {
    assert_eq!(
        gray16_from_parts(Ok((2, 1, 0, 16)), None),
        Err(HeightmapDecodeError::UnknownBufferSize)
    );
    assert_eq!(
        gray16_from_parts(Ok((2, 1, 0, 16)), Some(Ok(vec![1, 2, 3]))),
        Err(HeightmapDecodeError::MalformedPngData)
    );
    assert_eq!(
        gray16_from_parts(Ok((2, 1, 0, 16)), Some(Ok(vec![1, 2, 0, 3]))),
        Ok((2, 1, vec![0x0102, 3]))
    );
    assert_eq!(
        gray16_from_parts(Err("bad".to_string()), None),
        Err(HeightmapDecodeError::Decode("bad".to_string()))
    );
}
