use galeon_engine::manifest::{HandlerRegistration, ManifestEntry, ManifestField, ProtocolManifest};
use galeon_engine::protocol::ProtocolKind;
use galeon_engine::route_scanner::{
    crate_relative_handler_fn_path, generate_axum_routes, resolve_routes, route_to_handler_ident,
    scan_api_routes, strip_type_prefix, to_rust_ident, HandlerMeta, ResolvedRoute,
};
// -- T1: scan_api_routes --

#[test]
fn scan_basic_route_files() {
    let paths = &[
        "api/fleet/dispatch.rs",
        "api/fleet/snapshot.rs",
        "api/physics/apply_force.rs",
    ];
    let routes = scan_api_routes(paths);
    assert_eq!(routes.len(), 3);

    assert_eq!(routes[0].route_path, "/api/fleet/dispatch");
    assert_eq!(routes[0].module_suffix, "api::fleet::dispatch");

    assert_eq!(routes[1].route_path, "/api/fleet/snapshot");
    assert_eq!(routes[1].module_suffix, "api::fleet::snapshot");

    assert_eq!(routes[2].route_path, "/api/physics/apply_force");
    assert_eq!(routes[2].module_suffix, "api::physics::apply_force");
}

#[test]
fn scan_skips_underscore_prefixed_files() {
    let paths = &[
        "api/fleet/dispatch.rs",
        "api/_types.rs",
        "api/fleet/_helpers.rs",
    ];
    let routes = scan_api_routes(paths);
    assert_eq!(routes.len(), 1);
    assert_eq!(routes[0].route_path, "/api/fleet/dispatch");
}

#[test]
fn scan_skips_mod_rs() {
    let paths = &["api/fleet/mod.rs", "api/fleet/dispatch.rs"];
    let routes = scan_api_routes(paths);
    assert_eq!(routes.len(), 1);
    assert_eq!(routes[0].route_path, "/api/fleet/dispatch");
}

#[test]
fn scan_skips_non_rs_files() {
    let paths = &[
        "api/fleet/dispatch.rs",
        "api/fleet/README.md",
        "api/fleet/data.json",
    ];
    let routes = scan_api_routes(paths);
    assert_eq!(routes.len(), 1);
}

#[test]
fn scan_normalizes_backslashes() {
    let paths = &["api\\fleet\\dispatch.rs"];
    let routes = scan_api_routes(paths);
    assert_eq!(routes.len(), 1);
    assert_eq!(routes[0].route_path, "/api/fleet/dispatch");
    assert_eq!(routes[0].module_suffix, "api::fleet::dispatch");
}

#[test]
fn scan_deterministic_sort_order() {
    let paths = &["api/zzz/last.rs", "api/aaa/first.rs", "api/mmm/middle.rs"];
    let routes = scan_api_routes(paths);
    assert_eq!(routes[0].route_path, "/api/aaa/first");
    assert_eq!(routes[1].route_path, "/api/mmm/middle");
    assert_eq!(routes[2].route_path, "/api/zzz/last");
}

#[test]
fn scan_empty_input() {
    let routes = scan_api_routes(&[]);
    assert!(routes.is_empty());
}

// -- T2 + T3: resolve_routes --

fn sample_handlers() -> Vec<HandlerMeta> {
    vec![
        HandlerMeta {
            name: "dispatch_fleet".into(),
            module_name: "my_game::api::fleet::dispatch".into(),
            request_type: "DispatchFleetCmd".into(),
            response_type: "FleetStatus".into(),
            error_type: "String".into(),
        },
        HandlerMeta {
            name: "fleet_snapshot".into(),
            module_name: "my_game::api::fleet::snapshot".into(),
            request_type: "GetFleetSnapshot".into(),
            response_type: "FleetSnapshot".into(),
            error_type: "String".into(),
        },
    ]
}

fn sample_manifest_for_routes() -> ProtocolManifest {
    ProtocolManifest {
        manifest_version: "2".into(),
        protocol_version: "test@0.1".into(),
        default_surface: "default".into(),
        surfaces: vec!["default".into()],
        commands: vec![ManifestEntry {
            name: "DispatchFleetCmd".into(),
            kind: ProtocolKind::Command,
            fields: vec![ManifestField {
                name: "fleet_id".into(),
                ty: "u64".into(),
            }],
            doc: "".into(),
            surfaces: vec![],
        }],
        queries: vec![ManifestEntry {
            name: "GetFleetSnapshot".into(),
            kind: ProtocolKind::Query,
            fields: vec![],
            doc: "".into(),
            surfaces: vec![],
        }],
        events: vec![],
        dtos: vec![],
    }
}

#[test]
fn resolve_matches_handlers_by_module_suffix() {
    let scanned = scan_api_routes(&["api/fleet/dispatch.rs", "api/fleet/snapshot.rs"]);
    let handlers = sample_handlers();
    let manifest = sample_manifest_for_routes();

    let resolved = resolve_routes(&scanned, &handlers, &manifest).unwrap();
    assert_eq!(resolved.len(), 2);

    assert_eq!(resolved[0].route_path, "/api/fleet/dispatch");
    assert_eq!(
        resolved[0].handler_module_path,
        "my_game::api::fleet::dispatch"
    );
    assert_eq!(resolved[0].handler_fn_name, "dispatch_fleet");
    assert_eq!(resolved[0].protocol_name, "DispatchFleetCmd");
    assert_eq!(resolved[0].kind, ProtocolKind::Command);
    assert!(resolved[0].surfaces.is_empty()); // inherits default

    assert_eq!(resolved[1].route_path, "/api/fleet/snapshot");
    assert_eq!(
        resolved[1].handler_module_path,
        "my_game::api::fleet::snapshot"
    );
    assert_eq!(resolved[1].handler_fn_name, "fleet_snapshot");
    assert_eq!(resolved[1].protocol_name, "GetFleetSnapshot");
    assert_eq!(resolved[1].kind, ProtocolKind::Query);
    assert!(resolved[1].surfaces.is_empty());
}

#[test]
fn resolve_errors_on_unmatched_route() {
    let scanned = scan_api_routes(&["api/unknown/route.rs"]);
    let handlers = sample_handlers();
    let manifest = sample_manifest_for_routes();

    let err = resolve_routes(&scanned, &handlers, &manifest).unwrap_err();
    assert_eq!(err.len(), 1);
    assert!(err[0].contains("no matching handler"));
    assert!(err[0].contains("api::unknown::route"));
}

#[test]
fn resolve_errors_on_missing_manifest_entry() {
    let scanned = scan_api_routes(&["api/fleet/dispatch.rs"]);
    let handlers = vec![HandlerMeta {
        name: "dispatch_fleet".into(),
        module_name: "my_game::api::fleet::dispatch".into(),
        request_type: "UnknownType".into(),
        response_type: "()".into(),
        error_type: "String".into(),
    }];
    let manifest = sample_manifest_for_routes();

    let err = resolve_routes(&scanned, &handlers, &manifest).unwrap_err();
    assert_eq!(err.len(), 1);
    assert!(err[0].contains("not found in manifest"));
}

#[test]
fn resolve_carries_surface_membership() {
    let scanned = scan_api_routes(&["api/admin/reset.rs"]);
    let handlers = vec![HandlerMeta {
        name: "admin_reset".into(),
        module_name: "my_game::api::admin::reset".into(),
        request_type: "AdminReset".into(),
        response_type: "()".into(),
        error_type: "String".into(),
    }];
    let manifest = ProtocolManifest {
        manifest_version: "2".into(),
        protocol_version: "test@0.1".into(),
        default_surface: "gameplay".into(),
        surfaces: vec!["authority".into(), "gameplay".into()],
        commands: vec![ManifestEntry {
            name: "AdminReset".into(),
            kind: ProtocolKind::Command,
            fields: vec![],
            doc: "".into(),
            surfaces: vec!["authority".into()],
        }],
        queries: vec![],
        events: vec![],
        dtos: vec![],
    };

    let resolved = resolve_routes(&scanned, &handlers, &manifest).unwrap();
    assert_eq!(resolved[0].surfaces, vec!["authority".to_string()]);
}

// -- T4: generate_axum_routes --

fn sample_manifest_single_surface() -> ProtocolManifest {
    sample_manifest_for_routes()
}

#[test]
fn generate_routes_contains_header() {
    let manifest = sample_manifest_single_surface();
    let code = generate_axum_routes(&[], &manifest).unwrap();
    assert!(code.contains("Auto-generated by Galeon Engine"));
    assert!(code.contains("test@0.1"));
}

#[test]
fn generate_routes_post_command() {
    let manifest = sample_manifest_single_surface();
    let routes = vec![ResolvedRoute {
        route_path: "/api/fleet/dispatch".into(),
        handler_module_path: "my_game::api::fleet::dispatch".into(),
        handler_fn_name: "dispatch_fleet".into(),
        protocol_name: "DispatchFleetCmd".into(),
        kind: ProtocolKind::Command,
        surfaces: vec![],
    }];

    let code = generate_axum_routes(&routes, &manifest).unwrap();
    assert!(code.contains("routing::post(api_fleet_dispatch)"));
    assert!(code.contains("\"/api/fleet/dispatch\""));
    assert!(code.contains("Router<Arc<Mutex<World>>>"));
    assert!(code.contains("run_json_handler_value"));
    assert!(code.contains("// protocol: DispatchFleetCmd"));
    assert!(code.contains("crate::api::fleet::dispatch::dispatch_fleet"));
    assert!(code.contains("Json(body): Json<serde_json::Value>"));
    assert!(code.contains("Result<Json<serde_json::Value>"));
    assert!(code.contains("fn api_fleet_dispatch_json"));
}

#[test]
fn generate_routes_query_is_post() {
    let manifest = sample_manifest_single_surface();
    let routes = vec![ResolvedRoute {
        route_path: "/api/fleet/snapshot".into(),
        handler_module_path: "my_game::api::fleet::snapshot".into(),
        handler_fn_name: "fleet_snapshot".into(),
        protocol_name: "GetFleetSnapshot".into(),
        kind: ProtocolKind::Query,
        surfaces: vec![],
    }];

    let code = generate_axum_routes(&routes, &manifest).unwrap();
    // All routes are POST — avoids unit-struct vs empty-named-struct ambiguity.
    assert!(code.contains("routing::post(api_fleet_snapshot)"));
    assert!(code.contains("run_json_handler_value"));
    assert!(code.contains("crate::api::fleet::snapshot::fleet_snapshot"));
    assert!(code.contains("Json(body): Json<serde_json::Value>"));
    assert!(!code.contains("\"null\""));
}

#[test]
fn generate_routes_multiple_routes() {
    let manifest = sample_manifest_single_surface();
    let routes = vec![
        ResolvedRoute {
            route_path: "/api/fleet/dispatch".into(),
            handler_module_path: "my_game::api::fleet::dispatch".into(),
            handler_fn_name: "dispatch_fleet".into(),
            protocol_name: "DispatchFleetCmd".into(),
            kind: ProtocolKind::Command,
            surfaces: vec![],
        },
        ResolvedRoute {
            route_path: "/api/fleet/snapshot".into(),
            handler_module_path: "my_game::api::fleet::snapshot".into(),
            handler_fn_name: "fleet_snapshot".into(),
            protocol_name: "GetFleetSnapshot".into(),
            kind: ProtocolKind::Query,
            surfaces: vec![],
        },
    ];

    let code = generate_axum_routes(&routes, &manifest).unwrap();
    assert!(code.contains("api_fleet_dispatch"));
    assert!(code.contains("api_fleet_snapshot"));
    assert!(code.contains(".route(\"/api/fleet/dispatch\""));
    assert!(code.contains(".route(\"/api/fleet/snapshot\""));
}

#[test]
fn generate_routes_empty() {
    let manifest = sample_manifest_single_surface();
    let code = generate_axum_routes(&[], &manifest).unwrap();
    assert!(code.contains("Router::new()"));
    assert!(!code.contains(".route("));
}

#[test]
fn generate_routes_single_surface_uses_plain_router() {
    let manifest = sample_manifest_single_surface();
    let routes = vec![ResolvedRoute {
        route_path: "/api/fleet/dispatch".into(),
        handler_module_path: "my_game::api::fleet::dispatch".into(),
        handler_fn_name: "dispatch_fleet".into(),
        protocol_name: "DispatchFleetCmd".into(),
        kind: ProtocolKind::Command,
        surfaces: vec![],
    }];

    let code = generate_axum_routes(&routes, &manifest).unwrap();
    assert!(code.contains("pub fn router()"));
    assert!(!code.contains("_router()"));
}

#[test]
fn generate_routes_multi_surface_filters_by_surface() {
    let manifest = ProtocolManifest {
        manifest_version: "2".into(),
        protocol_version: "test@0.1".into(),
        default_surface: "gameplay".into(),
        surfaces: vec!["authority".into(), "gameplay".into()],
        commands: vec![],
        queries: vec![],
        events: vec![],
        dtos: vec![],
    };

    let routes = vec![
        ResolvedRoute {
            route_path: "/api/fleet/dispatch".into(),
            handler_module_path: "my_game::api::fleet::dispatch".into(),
            handler_fn_name: "dispatch_fleet".into(),
            protocol_name: "DispatchFleetCmd".into(),
            kind: ProtocolKind::Command,
            surfaces: vec![], // default surface = gameplay
        },
        ResolvedRoute {
            route_path: "/api/admin/reset".into(),
            handler_module_path: "my_game::api::admin::reset".into(),
            handler_fn_name: "admin_reset".into(),
            protocol_name: "AdminReset".into(),
            kind: ProtocolKind::Command,
            surfaces: vec!["authority".into()],
        },
    ];

    let code = generate_axum_routes(&routes, &manifest).unwrap();

    // Per-surface router functions.
    assert!(code.contains("pub fn authority_router()"));
    assert!(code.contains("pub fn gameplay_router()"));
    assert!(!code.contains("pub fn router()"));

    // Extract each router function body (up to closing `}`).
    let extract_router_body = |fn_name: &str| -> String {
        let start = code.find(&format!("pub fn {fn_name}()")).unwrap();
        let rest = &code[start..];
        // The function ends at the first `}\n\n` (closing brace + blank line).
        let end = rest.find("}\n\n").unwrap() + 1;
        rest[..end].to_string()
    };

    let authority_body = extract_router_body("authority_router");
    let gameplay_body = extract_router_body("gameplay_router");

    // authority_router contains only AdminReset
    assert!(authority_body.contains("api_admin_reset"));
    assert!(!authority_body.contains("api_fleet_dispatch"));

    // gameplay_router contains only DispatchFleetCmd
    assert!(gameplay_body.contains("api_fleet_dispatch"));
    assert!(!gameplay_body.contains("api_admin_reset"));
}

#[test]
fn crate_relative_handler_fn_path_rewrites_api_modules() {
    assert_eq!(
        crate_relative_handler_fn_path("my_game::api::fleet::dispatch", "dispatch_fleet"),
        "crate::api::fleet::dispatch::dispatch_fleet"
    );
    assert_eq!(
        crate_relative_handler_fn_path("crate::api::admin::reset", "admin_reset"),
        "crate::api::admin::reset::admin_reset"
    );
}

#[test]
fn route_to_handler_ident_converts_paths() {
    assert_eq!(
        route_to_handler_ident("/api/fleet/dispatch"),
        "api_fleet_dispatch"
    );
    assert_eq!(
        route_to_handler_ident("/api/fleet-ops/dispatch"),
        "api_fleet_ops_dispatch"
    );
}

#[test]
fn to_rust_ident_sanitises_non_identifier_chars() {
    assert_eq!(to_rust_ident("qa.v2"), "qa_v2");
    assert_eq!(to_rust_ident("admin ui"), "admin_ui");
    assert_eq!(to_rust_ident("foo-bar_baz"), "foo_bar_baz");
    assert_eq!(to_rust_ident("plain"), "plain");
}

#[test]
fn to_rust_ident_prepends_underscore_for_leading_digit() {
    assert_eq!(to_rust_ident("3d"), "_3d");
    assert_eq!(to_rust_ident("0test"), "_0test");
    assert_eq!(to_rust_ident("abc"), "abc");
}

#[test]
fn resolve_errors_on_handler_ident_collision() {
    // api/foo/bar.rs and api/foo_bar.rs both map to `api_foo_bar`.
    let scanned = scan_api_routes(&["api/foo/bar.rs", "api/foo_bar.rs"]);
    let handlers = vec![
        HandlerMeta {
            name: "bar_handler".into(),
            module_name: "my_game::api::foo::bar".into(),
            request_type: "BarCmd".into(),
            response_type: "()".into(),
            error_type: "String".into(),
        },
        HandlerMeta {
            name: "foo_bar_handler".into(),
            module_name: "my_game::api::foo_bar".into(),
            request_type: "FooBarCmd".into(),
            response_type: "()".into(),
            error_type: "String".into(),
        },
    ];
    let manifest = ProtocolManifest {
        manifest_version: "2".into(),
        protocol_version: "test@0.1".into(),
        default_surface: "default".into(),
        surfaces: vec!["default".into()],
        commands: vec![
            ManifestEntry {
                name: "BarCmd".into(),
                kind: ProtocolKind::Command,
                fields: vec![],
                doc: "".into(),
                surfaces: vec![],
            },
            ManifestEntry {
                name: "FooBarCmd".into(),
                kind: ProtocolKind::Command,
                fields: vec![],
                doc: "".into(),
                surfaces: vec![],
            },
        ],
        queries: vec![],
        events: vec![],
        dtos: vec![],
    };

    let err = resolve_routes(&scanned, &handlers, &manifest).unwrap_err();
    assert_eq!(err.len(), 1);
    assert!(err[0].contains("collision"));
    assert!(err[0].contains("api_foo_bar"));
}

#[test]
fn generate_routes_multi_surface_sanitises_surface_names() {
    let manifest = ProtocolManifest {
        manifest_version: "2".into(),
        protocol_version: "test@0.1".into(),
        default_surface: "qa.v2".into(),
        surfaces: vec!["qa.v2".into()],
        commands: vec![],
        queries: vec![],
        events: vec![],
        dtos: vec![],
    };

    // Two surfaces needed for multi-surface codegen path.
    let mut manifest_multi = manifest.clone();
    manifest_multi.surfaces = vec!["qa.v2".into(), "admin ui".into()];

    let code = generate_axum_routes(&[], &manifest_multi).unwrap();
    assert!(code.contains("pub fn qa_v2_router()"));
    assert!(code.contains("pub fn admin_ui_router()"));
    // No raw dots or spaces in function names.
    assert!(!code.contains("pub fn qa.v2"));
    assert!(!code.contains("pub fn admin ui"));
}

#[test]
fn generate_routes_errors_on_surface_name_collision() {
    let manifest = ProtocolManifest {
        manifest_version: "2".into(),
        protocol_version: "test@0.1".into(),
        default_surface: "qa.v2".into(),
        surfaces: vec!["qa.v2".into(), "qa-v2".into()],
        commands: vec![],
        queries: vec![],
        events: vec![],
        dtos: vec![],
    };

    let err = generate_axum_routes(&[], &manifest).unwrap_err();
    assert!(err.contains("collision"));
    assert!(err.contains("qa_v2"));
}

#[test]
fn generate_routes_digit_surface_produces_valid_ident() {
    let manifest = ProtocolManifest {
        manifest_version: "2".into(),
        protocol_version: "test@0.1".into(),
        default_surface: "3d".into(),
        surfaces: vec!["3d".into(), "ui".into()],
        commands: vec![],
        queries: vec![],
        events: vec![],
        dtos: vec![],
    };

    let code = generate_axum_routes(&[], &manifest).unwrap();
    // Must not start with a digit.
    assert!(code.contains("pub fn _3d_router()"));
    assert!(code.contains("pub fn ui_router()"));
}

#[test]
fn scan_skips_bare_extension_and_keeps_dotted_stems() {
    let routes = scan_api_routes(&["api/.rs", "api/x.tar.rs", "api/mod.rsx", "api/model.rs"]);
    assert_eq!(routes.len(), 2);
    assert_eq!(routes[0].route_path, "/api/model");
    assert_eq!(routes[0].module_suffix, "api::model");
    assert_eq!(routes[1].route_path, "/api/x.tar");
    assert_eq!(routes[1].module_suffix, "api::x.tar");
}

#[test]
fn scan_orders_prefix_first_and_keeps_duplicates() {
    let routes = scan_api_routes(&["api/ab.rs", "api/a.rs", "api/ab.rs", "api/B.rs"]);
    let paths: Vec<&str> = routes.iter().map(|r| r.route_path.as_str()).collect();
    assert_eq!(paths, vec!["/api/B", "/api/a", "/api/ab", "/api/ab"]);
}

#[test]
fn strip_type_prefix_keeps_last_segment() {
    assert_eq!(strip_type_prefix("crate::SpawnUnit"), "SpawnUnit");
    assert_eq!(strip_type_prefix("SpawnUnit"), "SpawnUnit");
    assert_eq!(strip_type_prefix("a::b::C"), "C");
    assert_eq!(strip_type_prefix("a:::b"), "b");
    assert_eq!(strip_type_prefix("Trailing::"), "");
}

#[test]
fn crate_relative_handler_fn_path_without_api_module() {
    assert_eq!(
        crate_relative_handler_fn_path("my_game::handlers", "run"),
        "my_game::handlers::run"
    );
    assert_eq!(
        crate_relative_handler_fn_path("x::api::a::api::b", "f"),
        "crate::api::a::api::b::f"
    );
}

#[test]
fn resolve_reports_ambiguous_handlers_with_count_and_names() {
    let scanned = scan_api_routes(&["api/fleet/dispatch.rs"]);
    let mk = |name: &str, module: &str| HandlerMeta {
        name: name.into(),
        module_name: module.into(),
        request_type: "DispatchFleetCmd".into(),
        response_type: "()".into(),
        error_type: "String".into(),
    };
    let handlers = vec![
        mk("first", "a::api::fleet::dispatch"),
        mk("other", "a::api::fleet::snapshot"),
        mk("second", "api::fleet::dispatch"),
    ];
    let manifest = ProtocolManifest {
        manifest_version: "2".into(),
        protocol_version: "test@0.1".into(),
        default_surface: "default".into(),
        surfaces: vec![],
        commands: vec![],
        queries: vec![],
        events: vec![],
        dtos: vec![],
    };
    let err = resolve_routes(&scanned, &handlers, &manifest).unwrap_err();
    assert_eq!(
        err,
        vec!["route /api/fleet/dispatch matches 2 handlers: first, second".to_string()]
    );
}

#[test]
fn resolve_prefers_commands_and_strips_request_path() {
    let scanned = scan_api_routes(&["api/x.rs"]);
    let handlers = vec![HandlerMeta {
        name: "x".into(),
        module_name: "g::api::x".into(),
        request_type: "crate::proto::Both".into(),
        response_type: "()".into(),
        error_type: "String".into(),
    }];
    let entry = |kind: ProtocolKind| ManifestEntry {
        name: "Both".into(),
        kind,
        fields: vec![],
        doc: "".into(),
        surfaces: vec![],
    };
    let manifest = ProtocolManifest {
        manifest_version: "2".into(),
        protocol_version: "p".into(),
        default_surface: "default".into(),
        surfaces: vec![],
        commands: vec![entry(ProtocolKind::Command)],
        queries: vec![entry(ProtocolKind::Query)],
        events: vec![],
        dtos: vec![],
    };
    let resolved = resolve_routes(&scanned, &handlers, &manifest).unwrap();
    assert_eq!(resolved[0].kind, ProtocolKind::Command);
    assert_eq!(resolved[0].protocol_name, "Both");
}

#[test]
fn resolve_error_messages_are_exact() {
    let scanned = scan_api_routes(&["api/unknown/route.rs"]);
    let err = resolve_routes(&scanned, &[], &ProtocolManifest {
        manifest_version: "2".into(),
        protocol_version: "p".into(),
        default_surface: "d".into(),
        surfaces: vec![],
        commands: vec![],
        queries: vec![],
        events: vec![],
        dtos: vec![],
    })
    .unwrap_err();
    assert_eq!(
        err,
        vec![
            "route /api/unknown/route has no matching handler (expected module suffix 'api::unknown::route')"
                .to_string()
        ]
    );
}

#[test]
fn generate_routes_quotes_and_escapes_literals() {
    let manifest = ProtocolManifest {
        manifest_version: "2".into(),
        protocol_version: "v".into(),
        default_surface: "default".into(),
        surfaces: vec![],
        commands: vec![],
        queries: vec![],
        events: vec![],
        dtos: vec![],
    };
    let routes = vec![ResolvedRoute {
        route_path: "/api/a\"b".into(),
        handler_module_path: "m::api::a".into(),
        handler_fn_name: "h\\x".into(),
        protocol_name: "P".into(),
        kind: ProtocolKind::Query,
        surfaces: vec![],
    }];
    let code = generate_axum_routes(&routes, &manifest).unwrap();
    assert!(code.contains(".route(\"/api/a\\\"b\", routing::post(api_a_b))"));
    assert!(code.contains(".into_handler(\"h\\\\x\")"));
    assert!(code.contains("// protocol: P (Query)"));
    assert!(code.starts_with("// Auto-generated by Galeon Engine \u{2014} do not edit.\n// Protocol: v\n\n"));
}

#[test]
fn generate_routes_emits_each_handler_identifier_once() {
    let manifest = ProtocolManifest {
        manifest_version: "2".into(),
        protocol_version: "v".into(),
        default_surface: "default".into(),
        surfaces: vec![],
        commands: vec![],
        queries: vec![],
        events: vec![],
        dtos: vec![],
    };
    let route = ResolvedRoute {
        route_path: "/api/a".into(),
        handler_module_path: "m::api::a".into(),
        handler_fn_name: "h".into(),
        protocol_name: "P".into(),
        kind: ProtocolKind::Command,
        surfaces: vec![],
    };
    let code = generate_axum_routes(&[route.clone(), route], &manifest).unwrap();
    assert_eq!(code.matches("async fn api_a(").count(), 1);
    assert_eq!(code.matches(".route(\"/api/a\"").count(), 2);
}

#[test]
fn handler_meta_from_registration_copies_fields() {
    let reg = HandlerRegistration {
        name: "n",
        module_name: "m",
        request_type: "rq",
        response_type: "rs",
        error_type: "e",
    };
    let meta = HandlerMeta::from_registration(&reg);
    assert_eq!(meta.name, "n");
    assert_eq!(meta.module_name, "m");
    assert_eq!(meta.request_type, "rq");
    assert_eq!(meta.response_type, "rs");
    assert_eq!(meta.error_type, "e");
}

#[test]
fn resolved_surface_names_fall_back_to_default() {
    let mut manifest = ProtocolManifest {
        manifest_version: "2".into(),
        protocol_version: "v".into(),
        default_surface: "gameplay".into(),
        surfaces: vec![],
        commands: vec![],
        queries: vec![],
        events: vec![],
        dtos: vec![],
    };
    assert_eq!(manifest.resolved_surface_names(), vec!["gameplay".to_string()]);
    manifest.surfaces = vec!["a".into(), "b".into()];
    assert_eq!(manifest.resolved_surface_names(), vec!["a".to_string(), "b".to_string()]);
}

#[test]
fn scan_ignores_trailing_slashes() {
    let routes = scan_api_routes(&["api/foo.rs/", "api\\bar.rs//"]);
    let paths: Vec<&str> = routes.iter().map(|r| r.route_path.as_str()).collect();
    assert_eq!(paths, vec!["/api/bar", "/api/foo"]);
    assert_eq!(routes[1].module_suffix, "api::foo");
}
