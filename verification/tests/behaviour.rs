use kcv::cmd::{env_set_from_loaded, import_contents, load_env_set, resolve_exec_with_base, ExecPlan};
use kcv::dotenv::parse;
use kcv::envset::{validate_key, EnvSet};
use kcv::error::{Error, IoError, IoErrorKind, KeychainError, Result};
use kcv::prompt::trim_line;
use kcv::store::{sorted_names, MemStore, Store};

fn no_prompt(_index: usize) -> Result<String> {
    panic!("every assignment here carries its value")
}

fn stored(store: &MemStore, environment: &str) -> Vec<(String, String)> {
    load_env_set(store, environment)
        .unwrap()
        .unwrap()
        .iter()
        .map(|(k, v)| (k.clone(), v.clone()))
        .collect()
}

#[test]
fn a_bare_key_takes_the_value_read_for_its_index() {
    let mut store = MemStore::new();
    let args = vec!["A=1".to_string(), "TOKEN".to_string()];
    let n = kcv::cmd::set(&mut store, "prod", &args, |i| {
        assert_eq!(i, 1);
        Ok("from-stdin".to_string())
    })
    .unwrap();
    assert_eq!(n, 2);
    assert_eq!(
        stored(&store, "prod"),
        vec![
            ("A".to_string(), "1".to_string()),
            ("TOKEN".to_string(), "from-stdin".to_string())
        ]
    );
}

#[test]
fn a_failed_read_writes_nothing() {
    let mut store = MemStore::new();
    let args = vec!["A=1".to_string(), "TOKEN".to_string()];
    let r = kcv::cmd::set(&mut store, "prod", &args, |_| Err(Error::NoCommand));
    assert!(matches!(r, Err(Error::NoCommand)));
    assert_eq!(store.load("prod").unwrap(), None);
}

#[test]
fn a_bad_key_is_reported_before_any_later_prompt() {
    let mut store = MemStore::new();
    let args = vec!["=x".to_string(), "TOKEN".to_string()];
    let r = kcv::cmd::set(&mut store, "prod", &args, no_prompt);
    match r {
        Err(Error::InvalidKey(k)) => assert_eq!(k, ""),
        other => panic!("unexpected {:?}", other),
    }
}

#[test]
fn an_invalid_environment_name_is_checked_first() {
    let mut store = MemStore::new();
    let r = kcv::cmd::set(&mut store, "", &["=x".to_string()], no_prompt);
    assert!(matches!(r, Err(Error::InvalidEnvironmentName(_))));
}

#[test]
fn a_value_holding_nul_is_refused_without_naming_it() {
    let mut store = MemStore::new();
    store.save("prod", b"{\"KEEP\":\"1\"}").unwrap();
    let r = kcv::cmd::set(&mut store, "prod", &["K=se\0cret".to_string()], no_prompt);
    match r {
        Err(Error::InvalidKey(text)) => {
            assert_eq!(text, "K (value contains a NUL byte)");
            assert!(!text.contains("cret"));
        }
        other => panic!("unexpected {:?}", other),
    }
    assert_eq!(
        store.load("prod").unwrap(),
        Some(b"{\"KEEP\":\"1\"}".to_vec())
    );
}

#[test]
fn the_stored_json_is_an_object_in_name_order() {
    let mut store = MemStore::new();
    kcv::cmd::set(
        &mut store,
        "prod",
        &["B=2".to_string(), "A=1".to_string(), "B=3".to_string()],
        no_prompt,
    )
    .unwrap();
    assert_eq!(
        store.load("prod").unwrap(),
        Some(b"{\"A\":\"1\",\"B\":\"3\"}".to_vec())
    );
}

#[test]
fn other_environments_are_untouched_by_set() {
    let mut store = MemStore::new();
    store.save("dev", b"raw").unwrap();
    kcv::cmd::set(&mut store, "prod", &["A=1".to_string()], no_prompt).unwrap();
    assert_eq!(store.load("dev").unwrap(), Some(b"raw".to_vec()));
}

#[test]
fn import_contents_reports_the_path_and_line() {
    let mut store = MemStore::new();
    let err = import_contents(&mut store, "p", "dir/.env", "A=1\n\nB='open\n").unwrap_err();
    match &err {
        Error::Dotenv { path, line, reason } => {
            assert_eq!(path, "dir/.env");
            assert_eq!(*line, 3);
            assert_eq!(reason, "unterminated single-quoted value");
        }
        other => panic!("unexpected {:?}", other),
    }
    assert_eq!(err.to_string(), "dir/.env:3: unterminated single-quoted value");
    assert_eq!(err.exit_code(), 1);
}

#[test]
fn import_contents_of_nothing_is_refused() {
    let mut store = MemStore::new();
    let err = import_contents(&mut store, "p", "x.env", "  \n# c\n").unwrap_err();
    assert_eq!(err.to_string(), "no variables found in x.env");
    assert_eq!(store.load("p").unwrap(), None);
}

#[test]
fn import_contents_refuses_a_corrupt_item() {
    let mut store = MemStore::new();
    store.save("p", b"{").unwrap();
    let err = import_contents(&mut store, "p", "x.env", "A=1\n").unwrap_err();
    assert!(matches!(err, Error::CorruptItem(_)));
    assert_eq!(store.load("p").unwrap(), Some(b"{".to_vec()));
}

#[test]
fn import_contents_counts_entries_not_distinct_names() {
    let mut store = MemStore::new();
    let n = import_contents(&mut store, "p", "x.env", "A=1\nA=2\n").unwrap();
    assert_eq!(n, 2);
    assert_eq!(stored(&store, "p"), vec![("A".to_string(), "2".to_string())]);
}

#[test]
fn a_corrupt_item_is_reported_by_resolve_exec() {
    let mut store = MemStore::new();
    store.save("prod", b"[]").unwrap();
    let r = resolve_exec_with_base(&store, "prod", &["true".to_string()], vec![]);
    assert!(matches!(r, Err(Error::CorruptItem(_))));
}

#[test]
fn the_child_environment_is_sorted_and_later_base_entries_win() {
    let mut store = MemStore::new();
    kcv::cmd::set(&mut store, "prod", &["M=stored".to_string()], no_prompt).unwrap();
    let base = vec![
        ("Z".to_string(), "1".to_string()),
        ("A".to_string(), "first".to_string()),
        ("A".to_string(), "second".to_string()),
    ];
    let plan = resolve_exec_with_base(&store, "prod", &["x".to_string()], base).unwrap();
    assert_eq!(
        plan.env,
        vec![
            ("A".to_string(), "second".to_string()),
            ("M".to_string(), "stored".to_string()),
            ("Z".to_string(), "1".to_string())
        ]
    );
    assert!(plan.args.is_empty());
}

#[test]
fn env_value_takes_the_first_match_and_misses_cleanly() {
    let plan = ExecPlan {
        program: "p".to_string(),
        args: vec![],
        env: vec![
            ("K".to_string(), "one".to_string()),
            ("K".to_string(), "two".to_string()),
        ],
    };
    assert_eq!(plan.env_value("K"), Some("one"));
    assert_eq!(plan.env_value("k"), None);
}

#[test]
fn from_json_decodes_an_object() {
    let set = EnvSet::from_json(br#"{"B":"2","A":"1"}"#, "prod").unwrap();
    let pairs: Vec<(String, String)> = set.iter().map(|(k, v)| (k.clone(), v.clone())).collect();
    assert_eq!(
        pairs,
        vec![
            ("A".to_string(), "1".to_string()),
            ("B".to_string(), "2".to_string())
        ]
    );
}

#[test]
fn to_json_writes_the_exact_object() {
    let mut set = EnvSet::new();
    set.insert("Q", "say \"hi\"\n").unwrap();
    assert_eq!(set.to_json(), b"{\"Q\":\"say \\\"hi\\\"\\n\"}".to_vec());
    let empty = EnvSet::new();
    assert_eq!(empty.to_json(), b"{}".to_vec());
    let mut odd = EnvSet::new();
    odd.insert("C", "\u{1}\u{8}\u{c}\r\t\\/é").unwrap();
    odd.insert("B", "x").unwrap();
    assert_eq!(
        odd.to_json(),
        "{\"B\":\"x\",\"C\":\"\\u0001\\b\\f\\r\\t\\\\/é\"}".as_bytes().to_vec()
    );
}

#[test]
fn environments_sort_by_code_point() {
    let mut store = MemStore::new();
    store.save("é", b"1").unwrap();
    store.save("a", b"1").unwrap();
    store.save("B", b"1").unwrap();
    store.save("ab", b"1").unwrap();
    assert_eq!(
        store.environments().unwrap(),
        vec!["B".to_string(), "a".to_string(), "ab".to_string(), "é".to_string()]
    );
}

#[test]
fn error_messages_quote_names() {
    assert_eq!(
        Error::InvalidEnvironmentName("a\"b".to_string()).to_string(),
        "invalid environment name \"a\\\"b\""
    );
    assert_eq!(
        Error::EnvironmentNotFound("prod".to_string()).to_string(),
        "no environment \"prod\"; create it with: kcv -e prod set KEY=VALUE"
    );
    assert_eq!(
        Error::CorruptItem("prod".to_string()).to_string(),
        "the keychain item for environment \"prod\" is not valid kcv data; refusing to overwrite it"
    );
    assert_eq!(
        Error::InvalidKey("A=B".to_string()).to_string(),
        "invalid variable name \"A=B\": names must be non-empty and free of '=' and NUL"
    );
    assert_eq!(
        Error::Dotenv {
            path: "f".to_string(),
            line: 1234567,
            reason: "r".to_string()
        }
        .to_string(),
        "f:1234567: r"
    );
}

#[test]
fn other_errors_exit_1_or_126() {
    let k = Error::Keychain(KeychainError {
        code: -25293,
        message: "auth failed".to_string(),
    });
    assert_eq!(k.exit_code(), 1);
    assert_eq!(k.to_string(), "keychain error: auth failed");
    let other = Error::Exec {
        program: "p".to_string(),
        source: IoError {
            kind: IoErrorKind::Other,
            message: "Argument list too long".to_string(),
        },
    };
    assert_eq!(other.exit_code(), 126);
    assert_eq!(other.to_string(), "cannot execute \"p\": Argument list too long");
    assert_eq!(Error::NoCommand.exit_code(), 2);
    assert_eq!(Error::EmptyImport("x".to_string()).exit_code(), 1);
}

#[test]
fn keys_are_validated() {
    assert!(validate_key("A").is_ok());
    assert!(validate_key("").is_err());
    assert!(validate_key("A=B").is_err());
    assert!(validate_key("A\0").is_err());
    assert!(validate_key("with space").is_ok());
}

#[test]
fn parse_reports_an_invalid_name_with_its_debug_form() {
    let err = parse("  =x\n").unwrap_err();
    assert_eq!(err.line, 1);
    assert_eq!(err.reason, "invalid variable name \"\"");
    let err = parse("A\0B=1").unwrap_err();
    assert_eq!(err.reason, "invalid variable name \"A\\0B\"");
}

#[test]
fn parse_edge_cases() {
    assert_eq!(parse("export=1").unwrap(), vec![("export".to_string(), "1".to_string())]);
    assert_eq!(
        parse("export\t A = b c \t\n").unwrap(),
        vec![("A".to_string(), "b c".to_string())]
    );
    assert_eq!(parse("A=\"x\"y\n").unwrap_err().reason, "expected KEY=VALUE");
    assert_eq!(parse("#only").unwrap(), vec![]);
    assert_eq!(parse("\u{a0}A=1").unwrap(), vec![("A".to_string(), "1".to_string())]);
    assert_eq!(parse("A=1\r\n").unwrap(), vec![("A".to_string(), "1".to_string())]);
    assert_eq!(parse("A=\"a\\qb\"").unwrap(), vec![("A".to_string(), "a\\qb".to_string())]);
    let err = parse("A=\"x\\\ny\nB=\"\nC").unwrap_err();
    assert_eq!(err.line, 4);
}

#[test]
fn format_then_parse_round_trips_keys_and_odd_values() {
    let pairs = vec![
        ("export".to_string(), "\u{0}\u{7f}\u{85}\u{3000}".to_string()),
        ("A B".to_string(), "'\"\\\r\n\t".to_string()),
        ("Z".to_string(), "".to_string()),
    ];
    assert_eq!(parse(&kcv::dotenv::format(&pairs)).unwrap(), pairs);
}

#[test]
fn trim_line_edges() {
    assert_eq!(trim_line("\r"), "\r");
    assert_eq!(trim_line("a\r"), "a\r");
    assert_eq!(trim_line("a\n\r"), "a\n\r");
    assert_eq!(trim_line("\r\n"), "");
    assert_eq!(trim_line("a\r\r\n"), "a\r");
    assert_eq!(trim_line("é\r\n"), "é");
}

#[test]
fn sorted_names_orders_and_drops_repeats() {
    let names: Vec<String> = vec!["zed".to_string(), "alpha".to_string(), "zed".to_string(), "Mid".to_string()];
    assert_eq!(
        sorted_names(&names),
        vec!["Mid".to_string(), "alpha".to_string(), "zed".to_string()]
    );
    assert!(sorted_names(&[]).is_empty());
}

#[test]
fn list_gives_the_names_sorted_and_no_values() {
    let mut store = MemStore::new();
    kcv::cmd::set(&mut store, "prod", &["ZED=1".to_string(), "ALPHA=secret".to_string(), "MID=2".to_string()], no_prompt).unwrap();
    let names = kcv::cmd::list(&store, "prod").unwrap();
    assert_eq!(names, vec!["ALPHA".to_string(), "MID".to_string(), "ZED".to_string()]);
    assert!(!names.iter().any(|n| n.contains("secret")));
}

#[test]
fn list_of_a_missing_environment_is_an_error() {
    let mut store = MemStore::new();
    assert!(matches!(kcv::cmd::list(&store, "absent"), Err(Error::EnvironmentNotFound(n)) if n == "absent"));
    assert!(matches!(kcv::cmd::list(&store, ""), Err(Error::InvalidEnvironmentName(_))));
    store.save("prod", b"not json").unwrap();
    assert!(matches!(kcv::cmd::list(&store, "prod"), Err(Error::CorruptItem(n)) if n == "prod"));
}

#[test]
fn the_flag_wins_and_an_empty_name_is_missing() {
    let name = |f: Option<&str>, e: Option<&str>| {
        kcv::cmd::environment_name(f.map(|s| s.to_string()), e.map(|s| s.to_string()))
    };
    assert_eq!(name(Some("prod"), Some("dev")).unwrap(), "prod");
    assert_eq!(name(None, Some("dev")).unwrap(), "dev");
    assert!(matches!(name(None, None), Err(Error::MissingEnvironment)));
    assert!(matches!(name(None, Some("")), Err(Error::MissingEnvironment)));
    assert!(matches!(name(Some(""), Some("dev")), Err(Error::MissingEnvironment)));
    assert_eq!(Error::MissingEnvironment.exit_code(), 2);
}

#[test]
fn a_store_error_is_passed_on_unchanged() {
    let fault = Error::Keychain(KeychainError { code: -25293, message: "denied".to_string() });
    match env_set_from_loaded(Err(fault), "prod") {
        Err(Error::Keychain(k)) => assert_eq!((k.code, k.message.as_str()), (-25293, "denied")),
        other => panic!("unexpected {:?}", other.map(|_| ())),
    }
    assert!(matches!(env_set_from_loaded(Ok(None), "prod"), Ok(None)));
    assert!(matches!(env_set_from_loaded(Ok(Some(b"[]".to_vec())), "prod"), Err(Error::CorruptItem(n)) if n == "prod"));
    let found = env_set_from_loaded(Ok(Some(br#"{"A":"1"}"#.to_vec())), "prod").unwrap().unwrap();
    assert_eq!(found.len(), 1);
}

#[test]
fn parsed_keys_are_trimmed_and_errors_name_a_line_of_the_text() {
    let pairs = parse("  export  KEY  =  v\n\t B\t= \"x\"\n").unwrap();
    assert_eq!(pairs[0].0, "KEY");
    assert_eq!(pairs[1].0, "B");
    let e = parse("A=1\n\n\nnot an entry").unwrap_err();
    assert_eq!(e.line, 4);
}

#[test]
fn env_sets_compare_by_their_variables() {
    let mut a = EnvSet::new();
    a.insert("B", "2").unwrap();
    a.insert("A", "1").unwrap();
    let mut b = EnvSet::default();
    b.insert("A", "1").unwrap();
    b.insert("B", "2").unwrap();
    assert_eq!(a, b);
    assert_ne!(a, EnvSet::default());
    assert_eq!(EnvSet::default(), EnvSet::new());
    assert!(MemStore::default().environments().unwrap().is_empty());
}

/// A store whose writes all fail, over an empty keychain.
struct FailingStore;

impl Store for FailingStore {
    fn load(&self, _environment: &str) -> Result<Option<Vec<u8>>> {
        Ok(None)
    }
    fn save(&mut self, _environment: &str, _data: &[u8]) -> Result<()> {
        Err(Error::Keychain(KeychainError { code: -61, message: "write denied".to_string() }))
    }
    fn environments(&self) -> Result<Vec<String>> {
        Ok(Vec::new())
    }
    fn delete(&mut self, _environment: &str) -> Result<()> {
        Ok(())
    }
}

#[test]
fn a_store_failure_is_what_set_reports() {
    let mut store = FailingStore;
    match kcv::cmd::set(&mut store, "prod", &["A=1".to_string()], no_prompt) {
        Err(Error::Keychain(k)) => assert_eq!(k.code, -61),
        other => panic!("unexpected {:?}", other.map(|_| ())),
    }
    assert!(matches!(
        kcv::cmd::set(&mut store, "prod", &["=x".to_string()], no_prompt),
        Err(Error::InvalidKey(_))
    ));
}
