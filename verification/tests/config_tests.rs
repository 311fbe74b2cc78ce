use cargo::config::{source_ids_from_config, ConfigValue};
use cargo::errors::CargoError;
use cargo::source_id::SourceKind;

fn configs_with(entries: Vec<(&str, ConfigValue)>) -> Vec<(String, ConfigValue)> {
    entries.into_iter().map(|(k, v)| (k.to_string(), v)).collect()
}

#[test]
fn paths_list_yields_path_ids_in_order() {
    let configs = configs_with(vec![(
        "paths",
        ConfigValue::List(vec!["/one".to_string(), "/two".to_string(), "/three".to_string()]),
    )]);
    let ids = source_ids_from_config(&configs).unwrap();
    assert_eq!(ids.len(), 3);
    assert!(ids.iter().all(|id| id.kind == SourceKind::Path));
    assert_eq!(ids[0].location, "/one");
    assert_eq!(ids[1].location, "/two");
    assert_eq!(ids[2].location, "/three");
}

#[test]
fn paths_string_is_a_configuration_error() {
    let configs = configs_with(vec![("paths", ConfigValue::Str("/one".to_string()))]);
    let err = source_ids_from_config(&configs).unwrap_err();
    assert!(matches!(err, CargoError::Config { .. }));
}

#[test]
fn absent_paths_key_yields_no_overrides() {
    let configs = configs_with(vec![(
        "other",
        ConfigValue::List(vec!["/one".to_string()]),
    )]);
    let ids = source_ids_from_config(&configs).unwrap();
    assert!(ids.is_empty());
    let ids = source_ids_from_config(&Vec::new()).unwrap();
    assert!(ids.is_empty());
}

#[test]
fn empty_paths_list_yields_zero_ids() {
    let configs = configs_with(vec![("paths", ConfigValue::List(Vec::new()))]);
    let ids = source_ids_from_config(&configs).unwrap();
    assert_eq!(ids.len(), 0);
}

#[test]
fn fresh_configuration_value_is_an_empty_list() {
    match ConfigValue::new() {
        ConfigValue::List(l) => assert!(l.is_empty()),
        ConfigValue::Str(_) => panic!("expected a list"),
    }
}
