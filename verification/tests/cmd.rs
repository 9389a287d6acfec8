use kcv::cmd::{
    import_contents, load_env_set, parse_assignment, resolve_exec_with_base, validate_environment,
};
use kcv::error::{Error, Result};
use kcv::store::{MemStore, Store};
use std::collections::BTreeMap;

/// For assignments that all carry their values: nothing is ever read.
fn no_prompt(_index: usize) -> Result<String> {
    panic!("every assignment here carries its value")
}

fn base() -> Vec<(String, String)> {
    vec![
        ("PATH".to_string(), "/usr/bin".to_string()),
        ("HOME".to_string(), "/Users/test".to_string()),
    ]
}

#[test]
fn splits_on_the_first_equals_only() {
    assert_eq!(
        parse_assignment("URL=https://x/?a=b"),
        ("URL".to_string(), Some("https://x/?a=b".to_string()))
    );
}

#[test]
fn an_empty_value_is_legal() {
    assert_eq!(
        parse_assignment("EMPTY="),
        ("EMPTY".to_string(), Some(String::new()))
    );
}

#[test]
fn an_argument_without_equals_has_no_value() {
    assert_eq!(parse_assignment("FOO"), ("FOO".to_string(), None));
}

#[test]
fn set_creates_a_new_environment() {
    let mut store = MemStore::new();
    let n = kcv::cmd::set(&mut store, "prod", &["FOO=bar".to_string()], no_prompt).unwrap();
    assert_eq!(n, 1);
    let loaded = load_env_set(&store, "prod").unwrap().unwrap();
    assert_eq!(loaded.iter().next().unwrap().1, "bar");
}

#[test]
fn set_merges_and_leaves_other_keys_alone() {
    let mut store = MemStore::new();
    kcv::cmd::set(&mut store, "prod", &["KEEP=untouched".to_string()], no_prompt).unwrap();
    kcv::cmd::set(&mut store, "prod", &["NEW=added".to_string()], no_prompt).unwrap();
    let loaded = load_env_set(&store, "prod").unwrap().unwrap();
    let map: BTreeMap<_, _> = loaded.iter().map(|(k, v)| (k.clone(), v.clone())).collect();
    assert_eq!(map["KEEP"], "untouched");
    assert_eq!(map["NEW"], "added");
    assert_eq!(map.len(), 2);
}

#[test]
fn set_overwrites_an_existing_key() {
    let mut store = MemStore::new();
    kcv::cmd::set(&mut store, "prod", &["FOO=old".to_string()], no_prompt).unwrap();
    kcv::cmd::set(&mut store, "prod", &["FOO=new".to_string()], no_prompt).unwrap();
    let loaded = load_env_set(&store, "prod").unwrap().unwrap();
    assert_eq!(loaded.len(), 1);
    assert_eq!(loaded.iter().next().unwrap().1, "new");
}

#[test]
fn last_value_wins_within_one_invocation() {
    let mut store = MemStore::new();
    kcv::cmd::set(
        &mut store,
        "prod",
        &["FOO=first".to_string(), "FOO=second".to_string()],
        no_prompt,
    )
    .unwrap();
    let loaded = load_env_set(&store, "prod").unwrap().unwrap();
    assert_eq!(loaded.iter().next().unwrap().1, "second");
}

#[test]
fn set_refuses_to_clobber_a_corrupt_item() {
    let mut store = MemStore::new();
    store.save("prod", b"definitely not json").unwrap();
    assert!(matches!(
        kcv::cmd::set(&mut store, "prod", &["FOO=bar".to_string()], no_prompt),
        Err(Error::CorruptItem(_))
    ));
    assert_eq!(
        store.load("prod").unwrap(),
        Some(b"definitely not json".to_vec()),
        "the original bytes must survive"
    );
}

#[test]
fn set_rejects_a_bad_key_before_writing_anything() {
    let mut store = MemStore::new();
    assert!(kcv::cmd::set(&mut store, "prod", &["=novalue".to_string()], no_prompt).is_err());
    assert_eq!(store.load("prod").unwrap(), None, "nothing was written");
}

#[test]
fn environment_names_are_validated() {
    assert!(validate_environment("prod").is_ok());
    assert!(matches!(
        validate_environment(""),
        Err(Error::InvalidEnvironmentName(_))
    ));
    assert!(validate_environment("has\0nul").is_err());
}

#[test]
fn import_creates_an_environment() {
    let mut store = MemStore::new();
    assert_eq!(import_contents(&mut store, "myproject", "create.env", "FOO=bar\nBAZ=qux\n").unwrap(), 2);
    let loaded = load_env_set(&store, "myproject").unwrap().unwrap();
    let map: BTreeMap<_, _> = loaded.iter().map(|(k, v)| (k.clone(), v.clone())).collect();
    assert_eq!(map["FOO"], "bar");
    assert_eq!(map["BAZ"], "qux");
}

#[test]
fn import_merges_with_existing_variables() {
    let mut store = MemStore::new();
    kcv::cmd::set(&mut store, "myproject", &["KEEP=untouched".to_string()], no_prompt).unwrap();
    import_contents(&mut store, "myproject", "merge.env", "ADDED=new\n").unwrap();
    let loaded = load_env_set(&store, "myproject").unwrap().unwrap();
    let map: BTreeMap<_, _> = loaded.iter().map(|(k, v)| (k.clone(), v.clone())).collect();
    assert_eq!(map["KEEP"], "untouched");
    assert_eq!(map["ADDED"], "new");
}

#[test]
fn import_overwrites_a_key_that_already_exists() {
    let mut store = MemStore::new();
    kcv::cmd::set(&mut store, "myproject", &["FOO=old".to_string()], no_prompt).unwrap();
    import_contents(&mut store, "myproject", "overwrite.env", "FOO=new\n").unwrap();
    let loaded = load_env_set(&store, "myproject").unwrap().unwrap();
    assert_eq!(loaded.iter().next().unwrap().1, "new");
}

#[test]
fn a_malformed_file_writes_nothing() {
    let mut store = MemStore::new();
    let err = import_contents(&mut store, "myproject", "malformed.env", "GOOD=1\ngarbage\n").unwrap_err();
    assert!(matches!(err, Error::Dotenv { line: 2, .. }));
    assert!(err.to_string().contains(":2:"), "{}", err.to_string());
    assert_eq!(
        store.load("myproject").unwrap(),
        None,
        "nothing was written"
    );
}

#[test]
fn an_empty_file_is_an_error() {
    let mut store = MemStore::new();
    assert!(matches!(
        import_contents(&mut store, "myproject", "empty.env", "# only a comment\n\n"),
        Err(Error::EmptyImport(_))
    ));
}

#[test]
fn resolve_exec_splits_program_from_arguments() {
    let mut store = MemStore::new();
    kcv::cmd::set(&mut store, "prod", &["FOO=bar".to_string()], no_prompt).unwrap();
    let argv = vec![
        "./server".to_string(),
        "--port".to_string(),
        "8000".to_string(),
    ];
    let plan = resolve_exec_with_base(&store, "prod", &argv, base()).unwrap();
    assert_eq!(plan.program, "./server");
    assert_eq!(plan.args, vec!["--port".to_string(), "8000".to_string()]);
}

#[test]
fn secrets_are_present_in_the_child_environment() {
    let mut store = MemStore::new();
    kcv::cmd::set(&mut store, "prod", &["SECRET=s3cr3t".to_string()], no_prompt).unwrap();
    let argv = vec!["true".to_string()];
    let plan = resolve_exec_with_base(&store, "prod", &argv, base()).unwrap();
    assert_eq!(plan.env_value("SECRET"), Some("s3cr3t"));
}

#[test]
fn the_inherited_environment_is_preserved() {
    let mut store = MemStore::new();
    kcv::cmd::set(&mut store, "prod", &["SECRET=s".to_string()], no_prompt).unwrap();
    let argv = vec!["true".to_string()];
    let plan = resolve_exec_with_base(&store, "prod", &argv, base()).unwrap();
    assert_eq!(plan.env_value("PATH"), Some("/usr/bin"));
    assert_eq!(plan.env_value("HOME"), Some("/Users/test"));
}

#[test]
fn stored_values_win_over_inherited_ones() {
    let mut store = MemStore::new();
    kcv::cmd::set(&mut store, "prod", &["PATH=/from/kcv".to_string()], no_prompt).unwrap();
    let argv = vec!["true".to_string()];
    let plan = resolve_exec_with_base(&store, "prod", &argv, base()).unwrap();
    assert_eq!(plan.env_value("PATH"), Some("/from/kcv"));
    assert_eq!(
        plan.env.iter().filter(|(k, _)| k == "PATH").count(),
        1,
        "the variable must appear exactly once"
    );
}

#[test]
fn a_missing_environment_is_an_error_not_an_empty_set() {
    let store = MemStore::new();
    let argv = vec!["true".to_string()];
    assert!(matches!(
        resolve_exec_with_base(&store, "absent", &argv, base()),
        Err(Error::EnvironmentNotFound(_))
    ));
}

#[test]
fn an_empty_command_is_a_usage_error() {
    let mut store = MemStore::new();
    kcv::cmd::set(&mut store, "prod", &["FOO=bar".to_string()], no_prompt).unwrap();
    let err = resolve_exec_with_base(&store, "prod", &[], base()).unwrap_err();
    assert!(matches!(err, Error::NoCommand));
    assert_eq!(err.exit_code(), 2);
}
