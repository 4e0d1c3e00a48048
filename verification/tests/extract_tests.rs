use rust_to_dejagnu::companion::is_error_code;
use rust_to_dejagnu::errors::{classify, load_error, parse_expected, FatalError, RustcErrorKind,
    WhichLine};

/// A recognized leading kind word is stripped from the message.
#[test]
fn classify_strips_recognized_kind() {
    let (kind, msg) = classify("ERROR: foo");
    assert_eq!(kind, Some(RustcErrorKind::Error));
    assert_eq!(msg, "foo");
}

/// An unrecognized leading word leaves kind unset and the message whole.
#[test]
fn classify_keeps_unrecognized_word() {
    let (kind, msg) = classify("helpful note");
    assert_eq!(kind, None);
    assert_eq!(msg, "helpful note");
}

/// Two up-adjust markers at line 10 target line 8 with offset -2.
#[test]
fn adjust_backward_offset_arithmetic() {
    let r = parse_expected(None, 10, "let x = y; //~^^ ERROR no method")
        .unwrap()
        .unwrap();
    assert_eq!(r.0, WhichLine::AdjustBackward(2));
    assert_eq!(r.1.line_num, 8);
    assert_eq!(r.1.relative_line_num, -2);
    assert_eq!(r.1.msg, "no method");
    assert_eq!(
        r.1.to_directive(),
        "// { dg-error \"\" \"\" { target *-*-* } .-2 }"
    );
}

/// A bracketed revision list before the tilde is part of the sigil.
#[test]
fn revision_list_sigil_recognized() {
    let r = parse_expected(None, 3, "foo(); //[rev1,rev-2]~ ERROR bad call")
        .unwrap()
        .unwrap();
    assert_eq!(r.0, WhichLine::ThisLine);
    assert_eq!(r.1.line_num, 3);
    assert_eq!(r.1.relative_line_num, 0);
    assert_eq!(r.1.msg, "bad call");
}

/// A line without the sigil yields no record.
#[test]
fn no_sigil_yields_nothing() {
    assert_eq!(parse_expected(None, 1, "// plain comment").unwrap().is_none(), true);
    assert_eq!(parse_expected(None, 1, "//[abc] ~ ERROR x").unwrap().is_none(), true);
}

/// A this-line annotation at line 5 anchors line 5; a follow annotation at
/// line 6 resolves to the same target with offset -1.
#[test]
fn follow_chain_inherits_anchor() {
    let text = "a\nb\nc\nd\ne //~ ERROR first\nf //~| second";
    let errors = load_error(text, None).unwrap();
    assert_eq!(errors.len(), 2);
    assert_eq!(errors[0].line_num, 5);
    assert_eq!(errors[0].relative_line_num, 0);
    assert_eq!(errors[1].line_num, 5);
    assert_eq!(errors[1].relative_line_num, -1);
    assert_eq!(errors[1].msg, "second");
}

/// A follow marker with no preceding non-follow annotation is fatal.
#[test]
fn follow_without_anchor_is_fatal() {
    let text = "a //~| ERROR orphan";
    assert_eq!(load_error(text, None).unwrap_err(), FatalError::FollowWithoutAnchor);
}

/// An up-adjust count at or beyond the line number would resolve to a
/// non-positive target line and is fatal.
#[test]
fn adjust_out_of_range_is_fatal() {
    let text = "a\nb\nc //~^^^^^ ERROR too far";
    assert_eq!(load_error(text, None).unwrap_err(), FatalError::AdjustOutOfRange);
    assert_eq!(
        load_error("//~^ ERROR line zero", None).unwrap_err(),
        FatalError::AdjustOutOfRange
    );
}

/// An annotation with no word after the sigil is fatal.
#[test]
fn empty_annotation_is_fatal() {
    assert_eq!(load_error("x //~  ", None).unwrap_err(), FatalError::EmptyAnnotation);
}

/// A continuation marker directly followed by an up-adjust marker is fatal.
#[test]
fn conflicting_markers_are_fatal() {
    let text = "a //~ ERROR one\nb //~|^ ERROR two";
    assert_eq!(load_error(text, None).unwrap_err(), FatalError::ConflictingMarkers);
}

/// A companion block with a matching line number fills in the code.
#[test]
fn companion_cross_reference_by_line() {
    let source = "a\nb\nc\nlet x: u32 = s; //~ ERROR mismatched types";
    let stderr = "error[E0308]: mismatched types\n  --> file.rs:4:5";
    let errors = load_error(source, Some(stderr)).unwrap();
    assert_eq!(errors.len(), 1);
    assert_eq!(errors[0].line_num, 4);
    assert_eq!(errors[0].error_code.as_deref(), Some("E0308"));
}

/// A companion block can also match on the message text alone.
#[test]
fn companion_cross_reference_by_message() {
    let source = "let x: u32 = s; //~ ERROR mismatched types";
    let stderr = "error[E0308]: mismatched types\n  --> file.rs:9:5";
    let errors = load_error(source, Some(stderr)).unwrap();
    assert_eq!(errors[0].error_code.as_deref(), Some("E0308"));
}

/// When several companion blocks match one record, the last one scanned
/// wins.
#[test]
fn companion_last_match_wins() {
    let source = "let x: u32 = s; //~ ERROR mismatched types";
    let stderr = "error[E0001]: mismatched types\n  --> f.rs:1:5\nerror[E0002]: mismatched types\n  --> f.rs:1:9";
    let errors = load_error(source, Some(stderr)).unwrap();
    assert_eq!(errors[0].error_code.as_deref(), Some("E0002"));
}

/// A block whose code does not have the structured shape is discarded.
#[test]
fn companion_rejects_malformed_codes() {
    let source = "let x: u32 = s; //~ ERROR mismatched types";
    let stderr = "error[E123]: mismatched types\n  --> f.rs:1:5";
    let errors = load_error(source, Some(stderr)).unwrap();
    assert_eq!(errors[0].error_code, None);
}

/// A kind word with nothing after it is a valid annotation with an empty
/// message; only a sigil with no word at all is fatal.
#[test]
fn kind_word_alone_is_enough() {
    let errors = load_error("x //~ ERROR", None).unwrap();
    assert_eq!(errors.len(), 1);
    assert_eq!(errors[0].kind, Some(RustcErrorKind::Error));
    assert_eq!(errors[0].msg, "");
}

/// Carriage-return line endings are handled as line breaks.
#[test]
fn crlf_input_is_split_on_line_breaks() {
    let errors = load_error("a\r\nb //~^ WARN lint", None).unwrap();
    assert_eq!(errors.len(), 1);
    assert_eq!(errors[0].line_num, 1);
    assert_eq!(errors[0].kind, Some(RustcErrorKind::Warning));
    assert_eq!(errors[0].msg, "lint");
}

/// Vertical tab and form feed count as whitespace around the kind word.
#[test]
fn form_feed_counts_as_blank() {
    let (kind, msg) = classify("\u{B}ERROR\u{C} spaced out \u{C}");
    assert_eq!(kind, Some(RustcErrorKind::Error));
    assert_eq!(msg, "spaced out");
}

/// Structured codes are one `E` followed by exactly four digits.
#[test]
fn error_code_shape() {
    assert!(is_error_code("E1234"));
    assert!(!is_error_code("E123"));
    assert!(!is_error_code("E12345"));
    assert!(!is_error_code("X1234"));
    assert!(!is_error_code("e1234"));
}
