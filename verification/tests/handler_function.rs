use galeon_engine::handler_function::{
    checked_handler, conflict_report, find_self_conflict, run_handler, Handler,
};
use galeon_engine::resource::TypeKey;
use galeon_engine::system_param::{Access, Param, Query, Res, ResMut, SystemParam};
use galeon_engine::world::World;

const COUNTER: TypeKey = 1;
const CONFIG: TypeKey = 2;

#[derive(Debug, Clone, PartialEq)]
enum V {
    Counter(u32),
    Config(f32),
}

struct SpawnRequest {
    unit_id: u64,
}

#[derive(Debug, PartialEq)]
struct SpawnResponse {
    ok: bool,
}

fn multiplier(v: &V) -> f32 {
    match v {
        V::Config(m) => *m,
        _ => 0.0,
    }
}

struct SpawnNoParams;

impl Handler<V, SpawnRequest, SpawnResponse> for SpawnNoParams {
    fn name(&self) -> String {
        "zero_param".to_string()
    }

    fn run(&mut self, req: SpawnRequest, _world: &mut World<V>) -> Result<SpawnResponse, String> {
        Ok(SpawnResponse { ok: req.unit_id > 0 })
    }

    fn access(&self) -> Vec<Access> {
        Vec::new()
    }
}

struct SpawnWithRes;

impl Handler<V, SpawnRequest, SpawnResponse> for SpawnWithRes {
    fn name(&self) -> String {
        "one_param_res".to_string()
    }

    fn run(&mut self, _req: SpawnRequest, world: &mut World<V>) -> Result<SpawnResponse, String> {
        let cfg = Res::fetch(world, CONFIG);
        Ok(SpawnResponse { ok: multiplier(cfg.get()) > 0.0 })
    }

    fn access(&self) -> Vec<Access> {
        Param::Res(CONFIG).access()
    }
}

struct SpawnWithResMut;

impl Handler<V, SpawnRequest, SpawnResponse> for SpawnWithResMut {
    fn name(&self) -> String {
        "one_param_res_mut".to_string()
    }

    fn run(&mut self, req: SpawnRequest, world: &mut World<V>) -> Result<SpawnResponse, String> {
        let cfg = ResMut::fetch(world, CONFIG);
        *cfg.value = V::Config(req.unit_id as f32);
        Ok(SpawnResponse { ok: true })
    }

    fn access(&self) -> Vec<Access> {
        Param::ResMut(CONFIG).access()
    }
}

struct SpawnWithQuery;

impl Handler<V, SpawnRequest, SpawnResponse> for SpawnWithQuery {
    fn name(&self) -> String {
        "one_param_query".to_string()
    }

    fn run(&mut self, req: SpawnRequest, world: &mut World<V>) -> Result<SpawnResponse, String> {
        let counters = Query::fetch(world, COUNTER);
        Ok(SpawnResponse { ok: counters.len() as u64 == req.unit_id })
    }

    fn access(&self) -> Vec<Access> {
        Param::Query(COUNTER).access()
    }
}

struct SpawnTwoParams;

impl Handler<V, SpawnRequest, SpawnResponse> for SpawnTwoParams {
    fn name(&self) -> String {
        "two_param".to_string()
    }

    fn run(&mut self, req: SpawnRequest, world: &mut World<V>) -> Result<SpawnResponse, String> {
        let m = multiplier(Res::fetch(world, CONFIG).get());
        let n = Query::fetch(world, COUNTER).len() as u64;
        Ok(SpawnResponse { ok: m > 0.0 && n == req.unit_id })
    }

    fn access(&self) -> Vec<Access> {
        vec![Param::Res(CONFIG), Param::Query(COUNTER)].access()
    }
}

struct ConflictingHandler;

impl Handler<V, SpawnRequest, SpawnResponse> for ConflictingHandler {
    fn name(&self) -> String {
        "conflict".to_string()
    }

    fn run(&mut self, _req: SpawnRequest, _world: &mut World<V>) -> Result<SpawnResponse, String> {
        Ok(SpawnResponse { ok: true })
    }

    fn access(&self) -> Vec<Access> {
        vec![Param::Res(CONFIG), Param::ResMut(CONFIG)].access()
    }
}

struct FailingHandler;

impl Handler<V, SpawnRequest, SpawnResponse> for FailingHandler {
    fn name(&self) -> String {
        "error_handler".to_string()
    }

    fn run(&mut self, _req: SpawnRequest, _world: &mut World<V>) -> Result<SpawnResponse, String> {
        Err("some error".into())
    }

    fn access(&self) -> Vec<Access> {
        Vec::new()
    }
}

struct ApiError {
    code: u16,
    message: String,
}

impl std::fmt::Display for ApiError {
    fn fmt(&self, f: &mut std::fmt::Formatter<'_>) -> std::fmt::Result {
        f.write_str(&format!("ApiError({}): {}", self.code, self.message))
    }
}

struct DomainErrorHandler {
    with_params: bool,
}

impl Handler<V, SpawnRequest, SpawnResponse> for DomainErrorHandler {
    fn name(&self) -> String {
        "domain_error".to_string()
    }

    fn run(&mut self, _req: SpawnRequest, world: &mut World<V>) -> Result<SpawnResponse, String> {
        let err = if self.with_params {
            let _ = Res::fetch(world, CONFIG);
            ApiError { code: 500, message: "internal".into() }
        } else {
            ApiError { code: 404, message: "not found".into() }
        };
        Err(err.to_string())
    }

    fn access(&self) -> Vec<Access> {
        if self.with_params {
            Param::Res(CONFIG).access()
        } else {
            Vec::new()
        }
    }
}

fn checked(h: Box<dyn Handler<V, SpawnRequest, SpawnResponse>>) -> Box<dyn Handler<V, SpawnRequest, SpawnResponse>> {
    match checked_handler(h) {
        Ok(h) => h,
        Err(m) => panic!("{m}"),
    }
}

#[test]
fn zero_param_handler() {
    let mut handler = checked(Box::new(SpawnNoParams));
    let mut world: World<V> = World::new();
    let result = handler.run(SpawnRequest { unit_id: 1 }, &mut world);
    assert_eq!(result.unwrap(), SpawnResponse { ok: true });
}

#[test]
fn one_param_res_handler() {
    let mut handler = checked(Box::new(SpawnWithRes));
    let mut world: World<V> = World::new();
    world.insert_resource(CONFIG, V::Config(2.0));
    let result = handler.run(SpawnRequest { unit_id: 1 }, &mut world);
    assert_eq!(result.unwrap(), SpawnResponse { ok: true });
}

#[test]
fn one_param_res_mut_handler() {
    let mut handler = checked(Box::new(SpawnWithResMut));
    let mut world: World<V> = World::new();
    world.insert_resource(CONFIG, V::Config(0.0));
    let result = handler.run(SpawnRequest { unit_id: 42 }, &mut world);
    assert_eq!(result.unwrap(), SpawnResponse { ok: true });
    assert!((multiplier(world.resource(CONFIG)) - 42.0).abs() < f32::EPSILON);
}

#[test]
fn one_param_query_handler() {
    let mut handler = checked(Box::new(SpawnWithQuery));
    let mut world: World<V> = World::new();
    world.spawn(vec![(COUNTER, V::Counter(10))]);
    world.spawn(vec![(COUNTER, V::Counter(20))]);
    let result = handler.run(SpawnRequest { unit_id: 2 }, &mut world);
    assert_eq!(result.unwrap(), SpawnResponse { ok: true });
}

#[test]
fn two_param_handler() {
    let mut handler = checked(Box::new(SpawnTwoParams));
    let mut world: World<V> = World::new();
    world.insert_resource(CONFIG, V::Config(1.5));
    world.spawn(vec![(COUNTER, V::Counter(0))]);
    let result = handler.run(SpawnRequest { unit_id: 1 }, &mut world);
    assert_eq!(result.unwrap(), SpawnResponse { ok: true });
}

#[test]
fn handler_reports_access() {
    let handler = checked(Box::new(SpawnWithRes));
    let access = handler.access();
    assert_eq!(access.len(), 1);
    assert!(matches!(access[0], Access::ResRead(_)));
}

#[test]
fn run_handler_free_function() {
    let mut handler = checked(Box::new(SpawnNoParams));
    let mut world: World<V> = World::new();
    let result = run_handler(&mut *handler, SpawnRequest { unit_id: 99 }, &mut world);
    assert_eq!(result.unwrap(), SpawnResponse { ok: true });
}

#[test]
#[should_panic(expected = "conflicting parameter access")]
fn handler_function_self_conflict_panics_on_registration() {
    let _ = checked(Box::new(ConflictingHandler));
}

#[test]
fn handler_error_propagates() {
    let mut handler = checked(Box::new(FailingHandler));
    let mut world: World<V> = World::new();
    let result = handler.run(SpawnRequest { unit_id: 1 }, &mut world);
    assert!(result.is_err());
    assert_eq!(result.unwrap_err(), "some error");
}

#[test]
fn domain_error_type_converts_to_string() {
    let mut handler = checked(Box::new(DomainErrorHandler { with_params: false }));
    let mut world: World<V> = World::new();
    let result = handler.run(SpawnRequest { unit_id: 1 }, &mut world);
    assert!(result.is_err());
    assert_eq!(result.unwrap_err(), "ApiError(404): not found");
}

#[test]
fn domain_error_type_with_params() {
    let mut handler = checked(Box::new(DomainErrorHandler { with_params: true }));
    let mut world: World<V> = World::new();
    world.insert_resource(CONFIG, V::Config(1.0));
    let result = handler.run(SpawnRequest { unit_id: 1 }, &mut world);
    assert!(result.is_err());
    assert_eq!(result.unwrap_err(), "ApiError(500): internal");
}

#[test]
fn conflict_report_names_first_pair() {
    let access = [Access::CompRead(7), Access::ResRead(3), Access::ResWrite(3), Access::CompWrite(7)];
    assert_eq!(find_self_conflict(&access), Some((0, 3)));
    assert_eq!(
        conflict_report("h", &access),
        Some("handler 'h' has conflicting parameter access: CompRead(7) vs CompWrite(7)".to_string())
    );
    assert_eq!(conflict_report("h", &[Access::ResRead(1), Access::ResRead(1)]), None);
    assert_eq!(find_self_conflict(&[Access::ResWrite(12), Access::ResRead(12)]), Some((0, 1)));
}

#[test]
fn conflict_report_matches_debug_text() {
    let a = Access::ResWrite(1234567);
    let b = Access::ResRead(1234567);
    let m = conflict_report("x", &[a, b]).unwrap();
    assert_eq!(m, format!("handler 'x' has conflicting parameter access: {:?} vs {:?}", a, b));
}
