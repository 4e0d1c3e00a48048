use rust_to_dejagnu::errors::RustcErrorKind;

/// Test that `RustcErrorKind::from_str` correctly parses "help" and "help:" into `RustcErrorKind::Help`.
#[test]
fn from_str_help_returns_help() {
    assert_eq!(
        RustcErrorKind::from_str("help").unwrap(),
        RustcErrorKind::Help
    );
    assert_eq!(
        RustcErrorKind::from_str("help:").unwrap(),
        RustcErrorKind::Help
    );
}

/// Tests that `RustcErrorKind::from_str` correctly parses "error" into `RustcErrorKind::Error`.
#[test]
fn from_str_error_returns_error() {
    assert_eq!(
        RustcErrorKind::from_str("error").unwrap(),
        RustcErrorKind::Error
    );
}

/// Tests that `RustcErrorKind::from_str` correctly parses "note" into `RustcErrorKind::Note`.
#[test]
fn from_str_note_returns_note() {
    assert_eq!(
        RustcErrorKind::from_str("note").unwrap(),
        RustcErrorKind::Note
    );
}

/// Tests that `RustcErrorKind::from_str` correctly parses "suggestion" into `RustcErrorKind::Suggestion`.
#[test]
fn from_str_suggestion_returns_suggestion() {
    assert_eq!(
        RustcErrorKind::from_str("suggestion").unwrap(),
        RustcErrorKind::Suggestion
    );
}

/// Tests that `RustcErrorKind::from_str` correctly parses "warning" into `RustcErrorKind::Warning`.
#[test]
fn from_str_warning_returns_warning() {
    assert_eq!(
        RustcErrorKind::from_str("warning").unwrap(),
        RustcErrorKind::Warning
    );
}

/// Tests that `RustcErrorKind::from_str` correctly parses "warn" into `RustcErrorKind::Warning`.
#[test]
fn from_str_warn_returns_warning() {
    assert_eq!(
        RustcErrorKind::from_str("warn").unwrap(),
        RustcErrorKind::Warning
    );
}

/// Tests that `RustcErrorKind::from_str` returns an error for unrecognized strings.
#[test]
fn from_str_unrecognized_returns_err() {
    assert!(RustcErrorKind::from_str("unrecognized").is_err());
}

/// Tests that `RustcErrorKind::from_str` returns an error for an empty string.
#[test]
fn from_str_empty_string_returns_err() {
    assert!(RustcErrorKind::from_str("").is_err());
}

/// Tests that `RustcErrorKind::Help` is rendered as "help message" according to rust compiletest tool
#[test]
fn display_help_outputs_correct_string() {
    assert_eq!(RustcErrorKind::Help.display_text(), "help message");
}

/// Tests that `RustcErrorKind::Error` is rendered as "error" according to rust compiletest tool
#[test]
fn display_error_outputs_correct_string() {
    assert_eq!(RustcErrorKind::Error.display_text(), "error");
}

/// Tests that `RustcErrorKind::Note` is rendered as "note" according to rust compiletest tool
#[test]
fn display_note_outputs_correct_string() {
    assert_eq!(RustcErrorKind::Note.display_text(), "note");
}

/// Tests that `RustcErrorKind::Suggestion` is rendered as "suggestion" according to rust compiletest tool
#[test]
fn display_suggestion_outputs_correct_string() {
    assert_eq!(RustcErrorKind::Suggestion.display_text(), "suggestion");
}

/// Tests that `RustcErrorKind::Warning` is rendered as "warning" according to rust compiletest tool
#[test]
fn display_warning_outputs_correct_string() {
    assert_eq!(RustcErrorKind::Warning.display_text(), "warning");
}

/// An upper-case word with a trailing qualifier still names its kind.
#[test]
fn from_str_mixed_case_with_qualifier() {
    assert_eq!(
        RustcErrorKind::from_str("WARN:").unwrap(),
        RustcErrorKind::Warning
    );
    assert_eq!(
        RustcErrorKind::from_str("Error:custom").unwrap(),
        RustcErrorKind::Error
    );
}
