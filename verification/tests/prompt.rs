use kcv::prompt::{after_import, is_yes_answer, Cleanup};
use kcv::prompt::trim_line;

#[test]
fn trims_exactly_one_trailing_newline() {
    assert_eq!(trim_line("secret\n"), "secret");
    assert_eq!(trim_line("secret\r\n"), "secret");
    assert_eq!(trim_line("secret"), "secret");
    assert_eq!(trim_line("secret\n\n"), "secret\n");
}

#[test]
fn preserves_internal_whitespace_and_empty_input() {
    assert_eq!(trim_line("  padded value  \n"), "  padded value  ");
    assert_eq!(trim_line("\n"), "");
    assert_eq!(trim_line(""), "");
}

#[test]
fn only_a_yes_deletes_the_imported_file() {
    assert_eq!(after_import(false, None), Cleanup::Keep);
    assert_eq!(after_import(false, Some("yes")), Cleanup::Keep);
    assert_eq!(after_import(true, None), Cleanup::Ask);
    assert_eq!(after_import(true, Some("y")), Cleanup::Delete);
    assert_eq!(after_import(true, Some("  YES \t")), Cleanup::Delete);
    assert_eq!(after_import(true, Some("Yes")), Cleanup::Delete);
    assert_eq!(after_import(true, Some("")), Cleanup::Keep);
    assert_eq!(after_import(true, Some("n")), Cleanup::Keep);
    assert_eq!(after_import(true, Some("yess")), Cleanup::Keep);
    assert_eq!(after_import(true, Some("y e s")), Cleanup::Keep);
    assert!(is_yes_answer("\u{a0}y\u{3000}"));
    assert!(!is_yes_answer("ye"));
}
