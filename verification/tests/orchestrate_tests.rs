use cargo::errors::CargoError;
use cargo::orchestrate::{plan_build, BuildState, PackageSet};
use cargo::package::{Dependency, Package, VersionReq};
use cargo::source_id::{SourceId, SourceKind};

fn src() -> SourceId {
    SourceId { kind: SourceKind::Registry, location: "central".to_string() }
}

fn dep(name: &str) -> Dependency {
    Dependency { name: name.to_string(), req: VersionReq::Any, source: src() }
}

fn pkg(name: &str, deps: Vec<Dependency>) -> Package {
    Package { name: name.to_string(), version: 1, dependencies: deps, source_id: src() }
}

#[test]
fn chain_compiles_dependency_first_and_root_last() {
    let root = pkg("root", vec![dep("foo")]);
    let set = PackageSet::new(vec![pkg("foo", vec![dep("bar")]), pkg("bar", Vec::new())]);
    let plan = plan_build(&root, &set).unwrap();
    let names: Vec<&str> = plan.order.iter().map(|p| p.name.as_str()).collect();
    assert_eq!(names, vec!["bar", "foo", "root"]);
}

#[test]
fn cyclic_edges_in_the_set_are_caught() {
    let root = pkg("root", vec![dep("a")]);
    let set = PackageSet::new(vec![pkg("a", vec![dep("b")]), pkg("b", vec![dep("a")])]);
    let err = plan_build(&root, &set).unwrap_err();
    assert!(matches!(err, CargoError::Resolution { .. }));
}

#[test]
fn root_without_dependencies_builds_alone_with_no_search_locations() {
    let root = pkg("root", Vec::new());
    let plan = plan_build(&root, &PackageSet::new(Vec::new())).unwrap();
    assert_eq!(plan.order.len(), 1);
    let mut state = BuildState::start(plan);
    let request = state.next_request().unwrap();
    assert_eq!(request.name, "root");
    assert!(request.dep_dirs.is_empty());
    state.record(Ok("target/root".to_string()));
    assert!(state.next_request().is_none());
    assert!(state.failure.is_none());
}

#[test]
fn dependents_receive_their_dependencies_artifact_directories() {
    let root = pkg("root", vec![dep("foo"), dep("bar")]);
    let set = PackageSet::new(vec![pkg("foo", Vec::new()), pkg("bar", Vec::new())]);
    let plan = plan_build(&root, &set).unwrap();
    let names: Vec<&str> = plan.order.iter().map(|p| p.name.as_str()).collect();
    assert_eq!(names, vec!["foo", "bar", "root"]);
    let mut state = BuildState::start(plan);

    let first = state.next_request().unwrap();
    assert_eq!(first.name, "foo");
    assert!(first.dep_dirs.is_empty());
    state.record(Ok("target/foo".to_string()));

    let second = state.next_request().unwrap();
    assert_eq!(second.name, "bar");
    assert!(second.dep_dirs.is_empty());
    state.record(Ok("target/bar".to_string()));

    let third = state.next_request().unwrap();
    assert_eq!(third.name, "root");
    assert_eq!(third.dep_dirs, vec!["target/foo".to_string(), "target/bar".to_string()]);
}

#[test]
fn first_failure_stops_the_build_and_names_the_package() {
    let root = pkg("root", vec![dep("foo")]);
    let set = PackageSet::new(vec![pkg("foo", Vec::new())]);
    let plan = plan_build(&root, &set).unwrap();
    let mut state = BuildState::start(plan);

    let first = state.next_request().unwrap();
    assert_eq!(first.name, "foo");
    state.record(Err(CargoError::Config { detail: "compiler broke".to_string() }));

    assert!(state.next_request().is_none());
    match state.failure {
        Some(CargoError::CompileFailed { ref name, version, .. }) => {
            assert_eq!(name, "foo");
            assert_eq!(version, 1);
        }
        ref other => panic!("expected a compile failure, got {:?}", other),
    }
}
