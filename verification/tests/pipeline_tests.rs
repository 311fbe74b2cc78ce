use cargo::config::ConfigValue;
use cargo::errors::{CargoError, ResolveError};
use cargo::ops::compile;
use cargo::package::{Dependency, Package, VersionReq};
use cargo::source_id::{SourceId, SourceKind};

fn src() -> SourceId {
    SourceId { kind: SourceKind::Registry, location: "central".to_string() }
}

fn dep(name: &str) -> Dependency {
    Dependency { name: name.to_string(), req: VersionReq::Any, source: src() }
}

fn pkg(name: &str, deps: Vec<Dependency>) -> Package {
    Package { name: name.to_string(), version: 1, dependencies: deps, source_id: src() }
}

#[test]
fn pipeline_plans_the_chain_with_root_last() {
    let root = pkg("root", vec![dep("foo")]);
    let available = vec![pkg("foo", vec![dep("bar")]), pkg("bar", Vec::new())];
    let plan = compile(&root, &Vec::new(), available).unwrap();
    let names: Vec<&str> = plan.order.iter().map(|p| p.name.as_str()).collect();
    assert_eq!(names, vec!["bar", "foo", "root"]);
}

#[test]
fn string_paths_configuration_stops_the_pipeline() {
    let root = pkg("root", Vec::new());
    let configs = vec![("paths".to_string(), ConfigValue::Str("/x".to_string()))];
    let err = compile(&root, &configs, Vec::new()).unwrap_err();
    assert!(matches!(err, CargoError::Config { .. }));
}

#[test]
fn path_overrides_from_configuration_supersede_declared_sources() {
    let mut root = pkg("root", vec![dep("foo")]);
    root.dependencies[0].source = src();
    let available = vec![
        pkg("foo", Vec::new()),
        Package {
            name: "foo".to_string(),
            version: 1,
            dependencies: Vec::new(),
            source_id: SourceId::for_path("/local/foo"),
        },
    ];
    let configs = vec![(
        "paths".to_string(),
        ConfigValue::List(vec!["/local/foo".to_string()]),
    )];
    let plan = compile(&root, &configs, available).unwrap();
    let foo = plan.order.iter().find(|p| p.name == "foo").unwrap();
    assert_eq!(foo.source_id.kind, SourceKind::Path);
    assert_eq!(foo.source_id.location, "/local/foo");
}

#[test]
fn cycle_failure_is_wrapped_with_the_resolution_stage() {
    let root = pkg("root", vec![dep("a")]);
    let available = vec![pkg("a", vec![dep("b")]), pkg("b", vec![dep("a")])];
    let err = compile(&root, &Vec::new(), available).unwrap_err();
    match err {
        CargoError::Wrapped { context, cause } => {
            assert_eq!(context, "unable to resolve dependencies");
            assert!(matches!(
                *cause,
                CargoError::Resolution { kind: ResolveError::Cycle }
            ));
        }
        other => panic!("expected a wrapped resolution error, got {:?}", other),
    }
}

#[test]
fn missing_package_failure_names_the_resolution_stage() {
    let root = pkg("root", vec![dep("ghost")]);
    let err = compile(&root, &Vec::new(), Vec::new()).unwrap_err();
    match err {
        CargoError::Wrapped { context, cause } => {
            assert_eq!(context, "unable to resolve dependencies");
            assert!(matches!(
                *cause,
                CargoError::Resolution { kind: ResolveError::Unsatisfiable { .. } }
            ));
        }
        other => panic!("expected a wrapped resolution error, got {:?}", other),
    }
}

#[test]
fn root_with_no_dependencies_plans_itself_alone() {
    let root = pkg("root", Vec::new());
    let plan = compile(&root, &Vec::new(), Vec::new()).unwrap();
    assert_eq!(plan.order.len(), 1);
    assert_eq!(plan.order[0].name, "root");
}
