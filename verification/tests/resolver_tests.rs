use cargo::errors::{CargoError, ResolveError};
use cargo::package::{Dependency, Package, VersionReq};
use cargo::registry::PackageRegistry;
use cargo::resolver::resolve;
use cargo::source_id::{SourceId, SourceKind};

fn registry_source() -> SourceId {
    SourceId { kind: SourceKind::Registry, location: "central".to_string() }
}

fn dep(name: &str, req: VersionReq) -> Dependency {
    Dependency { name: name.to_string(), req, source: registry_source() }
}

fn pkg(name: &str, version: u64, deps: Vec<Dependency>) -> Package {
    Package {
        name: name.to_string(),
        version,
        dependencies: deps,
        source_id: registry_source(),
    }
}

fn registry_of(packages: Vec<Package>) -> PackageRegistry {
    let mut reg = PackageRegistry::new(vec![registry_source()], Vec::new());
    for p in packages {
        reg.publish(p);
    }
    reg
}

#[test]
fn empty_dependency_list_resolves_to_nothing() {
    let reg = registry_of(vec![pkg("foo", 1, Vec::new())]);
    let ids = resolve(&Vec::new(), &reg).unwrap();
    assert!(ids.is_empty());
}

#[test]
fn single_dependency_picks_highest_satisfying_version() {
    let reg = registry_of(vec![
        pkg("foo", 1, Vec::new()),
        pkg("foo", 3, Vec::new()),
        pkg("foo", 2, Vec::new()),
    ]);
    let ids = resolve(&vec![dep("foo", VersionReq::Any)], &reg).unwrap();
    assert_eq!(ids.len(), 1);
    assert_eq!(ids[0].name, "foo");
    assert_eq!(ids[0].version, 3);
}

#[test]
fn exact_constraint_selects_that_version() {
    let reg = registry_of(vec![pkg("foo", 1, Vec::new()), pkg("foo", 2, Vec::new())]);
    let ids = resolve(&vec![dep("foo", VersionReq::Exact(1))], &reg).unwrap();
    assert_eq!(ids[0].version, 1);
}

#[test]
fn one_version_per_name_is_shared_by_compatible_dependents() {
    let reg = registry_of(vec![
        pkg("shared", 2, Vec::new()),
        pkg("a", 1, vec![dep("shared", VersionReq::AtLeast(1))]),
        pkg("b", 1, vec![dep("shared", VersionReq::AtLeast(2))]),
    ]);
    let ids = resolve(
        &vec![dep("a", VersionReq::Any), dep("b", VersionReq::Any)],
        &reg,
    )
    .unwrap();
    let shared: Vec<_> = ids.iter().filter(|id| id.name == "shared").collect();
    assert_eq!(shared.len(), 1);
    assert_eq!(shared[0].version, 2);
    assert_eq!(ids.len(), 3);
}

#[test]
fn incompatible_constraints_are_a_version_conflict() {
    let reg = registry_of(vec![pkg("foo", 1, Vec::new()), pkg("foo", 2, Vec::new())]);
    let err = resolve(
        &vec![dep("foo", VersionReq::Exact(1)), dep("foo", VersionReq::Exact(2))],
        &reg,
    )
    .unwrap_err();
    assert!(matches!(
        err,
        CargoError::Resolution { kind: ResolveError::Incompatible { .. } }
    ));
}

#[test]
fn missing_package_is_unsatisfiable() {
    let reg = registry_of(vec![pkg("foo", 1, Vec::new())]);
    let err = resolve(&vec![dep("missing", VersionReq::Any)], &reg).unwrap_err();
    match err {
        CargoError::Resolution { kind: ResolveError::Unsatisfiable { name } } => {
            assert_eq!(name, "missing");
        }
        other => panic!("expected an unsatisfiable error, got {:?}", other),
    }
}

#[test]
fn version_outside_constraint_is_unsatisfiable() {
    let reg = registry_of(vec![pkg("foo", 1, Vec::new())]);
    let err = resolve(&vec![dep("foo", VersionReq::AtLeast(2))], &reg).unwrap_err();
    assert!(matches!(
        err,
        CargoError::Resolution { kind: ResolveError::Unsatisfiable { .. } }
    ));
}

#[test]
fn dependency_cycle_is_a_cycle_error() {
    let reg = registry_of(vec![
        pkg("a", 1, vec![dep("b", VersionReq::Any)]),
        pkg("b", 1, vec![dep("a", VersionReq::Any)]),
    ]);
    let err = resolve(&vec![dep("a", VersionReq::Any)], &reg).unwrap_err();
    assert!(matches!(
        err,
        CargoError::Resolution { kind: ResolveError::Cycle }
    ));
}

#[test]
fn result_lists_dependencies_before_dependents() {
    let reg = registry_of(vec![
        pkg("foo", 1, vec![dep("bar", VersionReq::Any)]),
        pkg("bar", 1, Vec::new()),
    ]);
    let ids = resolve(&vec![dep("foo", VersionReq::Any)], &reg).unwrap();
    let names: Vec<&str> = ids.iter().map(|id| id.name.as_str()).collect();
    assert_eq!(names, vec!["bar", "foo"]);
}

#[test]
fn override_source_supersedes_the_declared_one() {
    let override_id = SourceId::for_path("/local/foo");
    let mut reg = PackageRegistry::new(vec![registry_source()], vec![override_id]);
    reg.publish(pkg("foo", 1, Vec::new()));
    reg.publish(Package {
        name: "foo".to_string(),
        version: 1,
        dependencies: Vec::new(),
        source_id: SourceId::for_path("/local/foo"),
    });
    let ids = resolve(&vec![dep("foo", VersionReq::Any)], &reg).unwrap();
    assert_eq!(ids.len(), 1);
    assert_eq!(ids[0].source.kind, SourceKind::Path);
    assert_eq!(ids[0].source.location, "/local/foo");
}

#[test]
fn materializing_resolved_ids_returns_their_packages() {
    let reg = registry_of(vec![
        pkg("foo", 1, vec![dep("bar", VersionReq::Any)]),
        pkg("bar", 1, Vec::new()),
    ]);
    let ids = resolve(&vec![dep("foo", VersionReq::Any)], &reg).unwrap();
    let packages = reg.get(&ids).unwrap();
    assert_eq!(packages.len(), 2);
    assert_eq!(packages[0].name, "bar");
    assert_eq!(packages[1].name, "foo");
}

#[test]
fn materializing_an_unknown_id_is_a_source_error() {
    let reg = registry_of(vec![pkg("foo", 1, Vec::new())]);
    let ids = vec![cargo::package::ResolvedId {
        name: "ghost".to_string(),
        version: 9,
        source: registry_source(),
    }];
    let err = reg.get(&ids).unwrap_err();
    assert!(matches!(err, CargoError::Source { .. }));
}

#[test]
fn version_tie_keeps_the_earliest_catalog_entry() {
    let first = SourceId { kind: SourceKind::Registry, location: "mirror".to_string() };
    let mut reg = PackageRegistry::new(
        vec![first.clone(), registry_source()],
        Vec::new(),
    );
    reg.publish(Package {
        name: "foo".to_string(),
        version: 2,
        dependencies: Vec::new(),
        source_id: first,
    });
    reg.publish(pkg("foo", 2, Vec::new()));
    let ids = resolve(&vec![dep("foo", VersionReq::Any)], &reg).unwrap();
    assert_eq!(ids.len(), 1);
    assert_eq!(ids[0].version, 2);
    assert_eq!(ids[0].source.location, "mirror");
}

#[test]
fn compatible_constraints_unify_on_a_common_version() {
    let reg = registry_of(vec![pkg("x", 1, Vec::new()), pkg("x", 2, Vec::new())]);
    let ids = resolve(
        &vec![dep("x", VersionReq::Exact(1)), dep("x", VersionReq::Any)],
        &reg,
    )
    .unwrap();
    assert_eq!(ids.len(), 1);
    assert_eq!(ids[0].version, 1);
}

#[test]
fn transitive_constraint_narrows_an_earlier_pick() {
    let reg = registry_of(vec![
        pkg("lib", 1, Vec::new()),
        pkg("lib", 2, Vec::new()),
        pkg("app", 1, vec![dep("lib", VersionReq::Exact(1))]),
    ]);
    let ids = resolve(
        &vec![dep("lib", VersionReq::Any), dep("app", VersionReq::Any)],
        &reg,
    )
    .unwrap();
    let lib: Vec<_> = ids.iter().filter(|id| id.name == "lib").collect();
    assert_eq!(lib.len(), 1);
    assert_eq!(lib[0].version, 1);
}
