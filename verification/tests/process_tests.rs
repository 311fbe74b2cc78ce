use cargo::errors::{CargoError, ProcessError};
use cargo::process_builder::{process, ProcessBuilder, SpawnOutputResult, SpawnResult};

fn env_pairs(pairs: Vec<(&str, &str)>) -> Vec<(String, String)> {
    pairs.into_iter().map(|(k, v)| (k.to_string(), v.to_string())).collect()
}

fn builder_with(env: Vec<(&str, &str)>) -> ProcessBuilder {
    process("cc", "/work".to_string(), &env_pairs(env))
}

fn env_value(list: &[(String, String)], key: &str) -> Option<String> {
    list.iter().find(|(k, _)| k == key).map(|(_, v)| v.clone())
}

#[test]
fn search_path_composition_appends_extras_to_the_override() {
    let b = builder_with(vec![("PATH", "/usr/bin")])
        .env("PATH", Some("/a"))
        .extra_path("/b".to_string())
        .extra_path("/c".to_string());
    assert_eq!(b.build_path(), Some("/a:/b:/c".to_string()));
}

#[test]
fn search_path_passes_through_untouched_without_extras() {
    let b = builder_with(vec![("PATH", "/usr/bin")]);
    assert_eq!(b.build_path(), Some("/usr/bin".to_string()));
    let overridden = builder_with(vec![("PATH", "/usr/bin")]).env("PATH", Some("/a"));
    assert_eq!(overridden.build_path(), Some("/a".to_string()));
}

#[test]
fn search_path_is_omitted_when_nothing_provides_it() {
    let b = builder_with(vec![("HOME", "/home/u")]);
    assert_eq!(b.build_path(), None);
    let unset = builder_with(vec![("PATH", "/usr/bin")]).env("PATH", None);
    assert_eq!(unset.build_path(), None);
    let env = unset.build_env();
    assert_eq!(env_value(&env, "PATH"), None);
}

#[test]
fn extras_stand_alone_when_no_base_value_exists() {
    let b = builder_with(vec![("HOME", "/home/u")])
        .extra_path("/b".to_string())
        .extra_path("/c".to_string());
    assert_eq!(b.build_path(), Some("/b:/c".to_string()));
}

#[test]
fn environment_overrides_set_and_unset_keys() {
    let b = builder_with(vec![("A", "1"), ("B", "2")])
        .env("B", Some("3"))
        .env("C", Some("4"))
        .env("A", None);
    let env = b.build_env();
    assert_eq!(env_value(&env, "A"), None);
    assert_eq!(env_value(&env, "B"), Some("3".to_string()));
    assert_eq!(env_value(&env, "C"), Some("4".to_string()));
    assert_eq!(env.len(), 2);
}

#[test]
fn later_snapshot_entries_win_over_earlier_ones() {
    let b = builder_with(vec![("A", "old"), ("A", "new")]);
    let env = b.build_env();
    assert_eq!(env_value(&env, "A"), Some("new".to_string()));
    assert_eq!(env.len(), 1);
}

#[test]
fn configuration_calls_return_independent_values() {
    let base = builder_with(vec![("PATH", "/usr/bin")]);
    let left = base.clone().env("PATH", Some("/left"));
    let right = base.clone().env("PATH", Some("/right"));
    assert_eq!(left.build_path(), Some("/left".to_string()));
    assert_eq!(right.build_path(), Some("/right".to_string()));
    assert_eq!(base.build_path(), Some("/usr/bin".to_string()));
}

#[test]
fn rendered_command_joins_program_and_arguments() {
    let b = builder_with(vec![]).args(&vec!["-o".to_string(), "out".to_string()]);
    assert_eq!(b.debug_string(), "cc -o out");
    assert_eq!(b.display_string(), "`cc -o out`");
    assert_eq!(b.get_args().len(), 2);
    let bare = builder_with(vec![]);
    assert_eq!(bare.debug_string(), "cc ");
    assert_eq!(bare.display_string(), "`cc`");
}

#[test]
fn working_directory_is_replaced_by_cwd() {
    let b = builder_with(vec![]).cwd("/elsewhere".to_string());
    assert_eq!(b.cwd, "/elsewhere");
}

#[test]
fn spawn_failure_is_a_typed_start_failure() {
    let b = builder_with(vec![]);
    let err = b
        .interpret_exec(SpawnResult::Failed { detail: "no such file".to_string() })
        .unwrap_err();
    match err {
        CargoError::Process { error: ProcessError::StartFailure { command, detail } } => {
            assert_eq!(command, "cc ");
            assert_eq!(detail, "no such file");
        }
        other => panic!("expected a start failure, got {:?}", other),
    }
}

#[test]
fn capture_mode_spawn_failure_returns_no_output() {
    let b = builder_with(vec![]);
    let err = b
        .interpret_exec_with_output(SpawnOutputResult::Failed {
            detail: "no such file".to_string(),
        })
        .unwrap_err();
    assert!(matches!(
        err,
        CargoError::Process { error: ProcessError::StartFailure { .. } }
    ));
}

#[test]
fn zero_exit_is_success_and_anything_else_is_not() {
    let b = builder_with(vec![]);
    assert!(b.interpret_exec(SpawnResult::Exited { code: Some(0) }).is_ok());
    let err = b.interpret_exec(SpawnResult::Exited { code: Some(3) }).unwrap_err();
    match err {
        CargoError::Process { error: ProcessError::ExitFailure { code, output, .. } } => {
            assert_eq!(code, Some(3));
            assert!(output.is_none());
        }
        other => panic!("expected an exit failure, got {:?}", other),
    }
    let err = b.interpret_exec(SpawnResult::Exited { code: None }).unwrap_err();
    assert!(matches!(
        err,
        CargoError::Process { error: ProcessError::ExitFailure { .. } }
    ));
}

#[test]
fn capture_mode_returns_output_on_success_and_in_failures() {
    let b = builder_with(vec![]);
    let out = b
        .interpret_exec_with_output(SpawnOutputResult::Captured {
            code: Some(0),
            stdout: b"hello".to_vec(),
            stderr: Vec::new(),
        })
        .unwrap();
    assert_eq!(out.stdout, b"hello".to_vec());
    let err = b
        .interpret_exec_with_output(SpawnOutputResult::Captured {
            code: Some(1),
            stdout: b"partial".to_vec(),
            stderr: b"boom".to_vec(),
        })
        .unwrap_err();
    match err {
        CargoError::Process { error: ProcessError::ExitFailure { output: Some(out), .. } } => {
            assert_eq!(out.stdout, b"partial".to_vec());
            assert_eq!(out.stderr, b"boom".to_vec());
        }
        other => panic!("expected an exit failure with output, got {:?}", other),
    }
}
