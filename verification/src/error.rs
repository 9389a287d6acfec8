//! The library's errors, the exit status each one maps to, and the message
//! each one prints. Messages name keys, paths and environments, never values.

use crate::text::{debug_quote, debug_text, decimal, push_decimal};
use vstd::prelude::*;
use vstd::string::StringExecFns;

verus! {

broadcast use vstd::string::group_string_axioms;

/// The classes of failed system operation that the exit status tells apart.
#[derive(Debug, Clone, Copy, PartialEq, Eq)]
pub enum IoErrorKind {
    NotFound,
    PermissionDenied,
    Other,
}

/// A failed system operation: what kind of failure, and its message.
#[derive(Debug)]
pub struct IoError {
    pub kind: IoErrorKind,
    pub message: String,
}

/// A failed keychain call: its status code and its message.
#[derive(Debug)]
pub struct KeychainError {
    pub code: i32,
    pub message: String,
}

#[derive(Debug)]
pub enum Error {
    MissingEnvironment,
    NoCommand,
    InvalidEnvironmentName(String),
    InvalidKey(String),
    EnvironmentNotFound(String),
    CorruptItem(String),
    Dotenv { path: String, line: usize, reason: String },
    EmptyImport(String),
    ReadFile { path: String, source: IoError },
    Keychain(KeychainError),
    Io(IoError),
    Exec { program: String, source: IoError },
}

pub type Result<T> = std::result::Result<T, Error>;

/// Shell-conventional exit statuses: 2 for usage, 127 for a missing command,
/// 126 for one that cannot be executed, 1 otherwise.
pub open spec fn exit_status(e: Error) -> i32 {
    match e {
        Error::MissingEnvironment => 2,
        Error::InvalidEnvironmentName(_) => 2,
        Error::InvalidKey(_) => 2,
        Error::NoCommand => 2,
        Error::Exec { source, .. } => if source.kind == IoErrorKind::NotFound {
            127
        } else {
            126
        },
        _ => 1,
    }
}

/// The message of each error.
pub open spec fn error_text(e: Error) -> Seq<char> {
    match e {
        Error::MissingEnvironment => "no environment given; pass --environment NAME or set KCV_ENV"@,
        Error::NoCommand => "no command given; usage: kcv -e NAME exec -- COMMAND"@,
        Error::InvalidEnvironmentName(n) => "invalid environment name "@ + debug_text(n@),
        Error::InvalidKey(k) => "invalid variable name "@ + debug_text(k@)
            + ": names must be non-empty and free of '=' and NUL"@,
        Error::EnvironmentNotFound(n) => "no environment "@ + debug_text(n@)
            + "; create it with: kcv -e "@ + n@ + " set KEY=VALUE"@,
        Error::CorruptItem(n) => "the keychain item for environment "@ + debug_text(n@)
            + " is not valid kcv data; refusing to overwrite it"@,
        Error::Dotenv { path, line, reason } => path@ + ":"@ + decimal(line as nat) + ": "@
            + reason@,
        Error::EmptyImport(p) => "no variables found in "@ + p@,
        Error::ReadFile { path, source } => path@ + ": "@ + source.message@,
        Error::Keychain(k) => "keychain error: "@ + k.message@,
        Error::Io(io) => io.message@,
        Error::Exec { program, source } => "cannot execute "@ + debug_text(program@) + ": "@
            + source.message@,
    }
}

impl Error {
    pub fn exit_code(&self) -> (code: i32)
        ensures
            code == exit_status(*self),
    {
        match self {
            Error::MissingEnvironment => 2,
            Error::InvalidEnvironmentName(_) => 2,
            Error::InvalidKey(_) => 2,
            Error::NoCommand => 2,
            Error::Exec { source, .. } => match source.kind {
                IoErrorKind::NotFound => 127,
                _ => 126,
            },
            _ => 1,
        }
    }

    /// The error's message.
    pub fn to_string(&self) -> (text: String)
        ensures
            text@ == error_text(*self),
    {
        match self {
            Error::MissingEnvironment => String::from_str(
                "no environment given; pass --environment NAME or set KCV_ENV",
            ),
            Error::NoCommand => String::from_str(
                "no command given; usage: kcv -e NAME exec -- COMMAND",
            ),
            Error::InvalidEnvironmentName(n) => {
                let mut out = String::from_str("invalid environment name ");
                out.append(debug_quote(n.as_str()).as_str());
                out
            },
            Error::InvalidKey(k) => {
                let mut out = String::from_str("invalid variable name ");
                out.append(debug_quote(k.as_str()).as_str());
                out.append(": names must be non-empty and free of '=' and NUL");
                out
            },
            Error::EnvironmentNotFound(n) => {
                let mut out = String::from_str("no environment ");
                out.append(debug_quote(n.as_str()).as_str());
                out.append("; create it with: kcv -e ");
                out.append(n.as_str());
                out.append(" set KEY=VALUE");
                out
            },
            Error::CorruptItem(n) => {
                let mut out = String::from_str("the keychain item for environment ");
                out.append(debug_quote(n.as_str()).as_str());
                out.append(" is not valid kcv data; refusing to overwrite it");
                out
            },
            Error::Dotenv { path, line, reason } => {
                let mut out = String::from_str(path.as_str());
                out.append(":");
                push_decimal(&mut out, *line);
                out.append(": ");
                out.append(reason.as_str());
                out
            },
            Error::EmptyImport(p) => {
                let mut out = String::from_str("no variables found in ");
                out.append(p.as_str());
                out
            },
            Error::ReadFile { path, source } => {
                let mut out = String::from_str(path.as_str());
                out.append(": ");
                out.append(source.message.as_str());
                out
            },
            Error::Keychain(k) => {
                let mut out = String::from_str("keychain error: ");
                out.append(k.message.as_str());
                out
            },
            Error::Io(io) => String::from_str(io.message.as_str()),
            Error::Exec { program, source } => {
                let mut out = String::from_str("cannot execute ");
                out.append(debug_quote(program.as_str()).as_str());
                out.append(": ");
                out.append(source.message.as_str());
                out
            },
        }
    }
}

/// No error exits as success. Usage errors exit with 2; a command that
/// cannot be run with 126, or 127 when it is not found; every other error
/// (a missing environment, unreadable stored data, a keychain or system
/// failure, a bad or empty import, an unreadable file) with 1.
pub proof fn law_exit_statuses(e: Error)
    ensures
        exit_status(e) != 0,
        (e is MissingEnvironment || e is NoCommand || e is InvalidEnvironmentName || e is InvalidKey) ==> exit_status(e)
            == 2,
        (e is EnvironmentNotFound || e is CorruptItem || e is Keychain || e is Io || e is Dotenv || e is EmptyImport
            || e is ReadFile) ==> exit_status(e) == 1,
        e matches Error::Exec { source, .. } ==> exit_status(e) == (if source.kind == IoErrorKind::NotFound {
            127i32
        } else {
            126i32
        }),
{
}

} // verus!
