use kcv::error::{Error, IoError, IoErrorKind};

#[test]
fn usage_style_errors_exit_2() {
    assert_eq!(Error::MissingEnvironment.exit_code(), 2);
    assert_eq!(Error::InvalidKey("A=B".into()).exit_code(), 2);
}

#[test]
fn missing_command_exits_127_and_permission_denied_exits_126() {
    let enoent = Error::Exec {
        program: "nope".into(),
        source: IoError {
            kind: IoErrorKind::NotFound,
            message: "entity not found".into(),
        },
    };
    assert_eq!(enoent.exit_code(), 127);
    let denied = Error::Exec {
        program: "nope".into(),
        source: IoError {
            kind: IoErrorKind::PermissionDenied,
            message: "permission denied".into(),
        },
    };
    assert_eq!(denied.exit_code(), 126);
}

#[test]
fn display_never_leaks_a_value() {
    let e = Error::InvalidKey("BAD=KEY".into());
    assert!(e.to_string().contains("BAD=KEY"));
    assert!(!e.to_string().contains("secret"));
}
