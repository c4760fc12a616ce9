use galeon_engine::resource::TypeKey;
use galeon_engine::system_param::{
    has_conflicts, Access, Param, Query, QueryMut, Res, ResMut, SystemParam,
};
use galeon_engine::world::World;

const U32: TypeKey = 1;
const F32: TypeKey = 2;
const U64: TypeKey = 3;
const I32: TypeKey = 4;
const POS: TypeKey = 5;
const VEL: TypeKey = 6;
const TIME: TypeKey = 7;
const GRAV: TypeKey = 8;

#[derive(Debug, Clone, PartialEq)]
enum V {
    Int(i64),
    Pos(f32),
    Vel(f32),
    Real(f32),
}

#[test]
fn read_read_same_type_no_conflict() {
    let a = Access::ResRead(U32);
    let b = Access::ResRead(U32);
    assert!(!a.conflicts_with(&b));
}

#[test]
fn read_write_same_type_conflicts() {
    let a = Access::ResRead(U32);
    let b = Access::ResWrite(U32);
    assert!(a.conflicts_with(&b));
    assert!(b.conflicts_with(&a));
}

#[test]
fn write_write_same_type_conflicts() {
    let a = Access::ResWrite(U32);
    let b = Access::ResWrite(U32);
    assert!(a.conflicts_with(&b));
}

#[test]
fn read_write_different_type_no_conflict() {
    let a = Access::ResRead(U32);
    let b = Access::ResWrite(F32);
    assert!(!a.conflicts_with(&b));
}

#[test]
fn comp_read_write_conflicts() {
    let a = Access::CompRead(U64);
    let b = Access::CompWrite(U64);
    assert!(a.conflicts_with(&b));
    assert!(b.conflicts_with(&a));
}

#[test]
fn res_and_comp_same_type_no_conflict() {
    let a = Access::ResWrite(U32);
    let b = Access::CompWrite(U32);
    assert!(!a.conflicts_with(&b));
}

#[test]
fn has_conflicts_finds_conflict_in_sets() {
    let set_a = vec![Access::ResRead(U32), Access::CompRead(F32)];
    let set_b = vec![Access::ResWrite(U32), Access::CompRead(F32)];
    assert!(has_conflicts(&set_a, &set_b));
    assert!(has_conflicts(&set_b, &set_a));
}

#[test]
fn has_conflicts_empty_sets_no_conflict() {
    assert!(!has_conflicts(&[], &[]));
    assert!(!has_conflicts(&[Access::ResRead(U32)], &[]));
    assert!(!has_conflicts(&[], &[Access::ResWrite(U32)]));
}

#[test]
fn res_fetches_resource() {
    let mut world: World<V> = World::new();
    world.insert_resource(I32, V::Int(42));
    let res = Res::fetch(&world, I32);
    assert_eq!(*res.get(), V::Int(42));
}

#[test]
fn res_access_is_read() {
    let access = Param::Res(I32).access();
    assert_eq!(access, vec![Access::ResRead(I32)]);
}

#[test]
fn res_mut_fetches_and_mutates() {
    let mut world: World<V> = World::new();
    world.insert_resource(U32, V::Int(10));
    {
        let res = ResMut::fetch(&mut world, U32);
        *res.value = V::Int(20);
    }
    assert_eq!(*world.resource(U32), V::Int(20));
}

#[test]
fn res_mut_access_is_write() {
    let access = Param::ResMut(U32).access();
    assert_eq!(access, vec![Access::ResWrite(U32)]);
}

#[test]
fn res_and_res_mut_different_types_no_conflict() {
    let a = Param::Res(I32).access();
    let b = Param::ResMut(U32).access();
    assert!(!has_conflicts(&a, &b));
}

#[test]
fn res_and_res_mut_same_type_conflicts() {
    let a = Param::Res(I32).access();
    let b = Param::ResMut(I32).access();
    assert!(has_conflicts(&a, &b));
}

#[test]
fn query_fetches_matching_entities() {
    let mut world: World<V> = World::new();
    world.spawn(vec![(POS, V::Pos(1.0))]);
    world.spawn(vec![(POS, V::Pos(2.0))]);
    let q = Query::fetch(&world, POS);
    assert_eq!(q.len(), 2);
    assert_eq!(q.iter().len(), 2);
}

#[test]
fn query_access_is_comp_read() {
    let access = Param::Query(POS).access();
    assert_eq!(access, vec![Access::CompRead(POS)]);
}

#[test]
fn query_mut_allows_mutation() {
    let mut world: World<V> = World::new();
    let e = world.spawn(vec![(POS, V::Pos(5.0))]);
    {
        let mut q = QueryMut::fetch(&mut world, POS);
        let es: Vec<_> = q.entities().to_vec();
        for x in es {
            if let Some(V::Pos(p)) = q.get_mut(x) {
                *p += 10.0;
            }
        }
    }
    assert_eq!(*world.get(e, POS).unwrap(), V::Pos(15.0));
}

#[test]
fn query_mut_access_is_comp_write() {
    let access = Param::QueryMut(POS).access();
    assert_eq!(access, vec![Access::CompWrite(POS)]);
}

#[test]
fn query_empty_world() {
    let world: World<V> = World::new();
    let q = Query::fetch(&world, POS);
    assert!(q.is_empty());
}

#[test]
fn unit_tuple_has_no_access() {
    let params: Vec<Param> = vec![];
    let access = params.access();
    assert!(access.is_empty());
}

#[test]
fn pair_tuple_aggregates_access() {
    let access = vec![Param::Res(I32), Param::ResMut(U32)].access();
    assert_eq!(access.len(), 2);
    assert!(access.contains(&Access::ResRead(I32)));
    assert!(access.contains(&Access::ResWrite(U32)));
}

#[test]
fn triple_tuple_aggregates_access() {
    let access = vec![Param::Res(I32), Param::ResMut(U32), Param::Query(POS)].access();
    assert_eq!(access.len(), 3);
}

#[test]
fn query_mut_empty_world() {
    let mut world: World<V> = World::new();
    let q = QueryMut::fetch(&mut world, POS);
    assert!(q.is_empty());
    assert_eq!(q.len(), 0);
}

#[test]
fn four_arity_tuple_access_and_fetch() {
    let mut world: World<V> = World::new();
    world.insert_resource(TIME, V::Real(1.0));
    world.insert_resource(GRAV, V::Real(9.8));
    world.spawn(vec![(POS, V::Pos(0.0))]);
    world.spawn(vec![(VEL, V::Vel(0.0))]);
    let access = vec![Param::Res(TIME), Param::Res(GRAV), Param::Query(POS), Param::Query(VEL)].access();
    assert_eq!(access.len(), 4);
    let time = Res::fetch(&world, TIME);
    let grav = Res::fetch(&world, GRAV);
    let positions = Query::fetch(&world, POS);
    let velocities = Query::fetch(&world, VEL);
    assert_eq!(*time.get(), V::Real(1.0));
    assert_eq!(*grav.get(), V::Real(9.8));
    assert_eq!(positions.len(), 1);
    assert_eq!(velocities.len(), 1);
}

#[test]
fn query_read_and_query_mut_different_types() {
    let mut world: World<V> = World::new();
    world.spawn(vec![(POS, V::Pos(1.0)), (VEL, V::Vel(2.0))]);
    world.spawn(vec![(POS, V::Pos(3.0)), (VEL, V::Vel(4.0))]);
    let a = Param::Query(POS).access();
    let b = Param::QueryMut(VEL).access();
    assert!(!has_conflicts(&a, &b));
    {
        let mut velocities = QueryMut::fetch(&mut world, VEL);
        assert_eq!(velocities.len(), 2);
        let es: Vec<_> = velocities.entities().to_vec();
        for e in es {
            if let Some(V::Vel(y)) = velocities.get_mut(e) {
                *y += 10.0;
            }
        }
    }
    let ys: Vec<f32> = world
        .query(VEL)
        .iter()
        .map(|(_, v)| match v {
            V::Vel(y) => *y,
            _ => 0.0,
        })
        .collect();
    assert!(ys.iter().all(|&y| y > 10.0));
}

#[test]
fn conflict_is_symmetric_over_all_kinds() {
    let all = [
        Access::ResRead(1),
        Access::ResWrite(1),
        Access::CompRead(1),
        Access::CompWrite(1),
        Access::ResWrite(2),
    ];
    for a in all.iter() {
        for b in all.iter() {
            assert_eq!(a.conflicts_with(b), b.conflicts_with(a));
        }
    }
}
