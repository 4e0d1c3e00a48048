use rust_to_dejagnu::errors::{load_error, Error, FatalError, RustcErrorKind};
use rust_to_dejagnu::header::parse_edition_directive;
use rust_to_dejagnu::transform::transform_code;

/// Tests the `transform_code` function with a sample Rust error message:
/// the code line stays, the annotation line becomes the directive carrying
/// the -1 offset.
#[test]
fn test_transform() {
    let dg_msg = "fn main() { let x = 1 +; }\n// { dg-error \"\" \"\" { target *-*-* } .-1 }\n";
    let rust_msg = "fn main() { let x = 1 +; }\n//~^ ERROR expected one of `:`, `@`, or `|`, found `)`";
    assert_eq!(transform_code(rust_msg, None).unwrap(), dg_msg);
}

/// A same-line annotation keeps the code before the sigil and appends the
/// directive in its place.
#[test]
fn same_line_annotation_keeps_prefix() {
    let src = "let x = 1; //~ ERROR bad";
    let out = transform_code(src, None).unwrap();
    assert_eq!(out, "let x = 1; // { dg-error \"\" \"\" { target *-*-* } }\n");
}

/// The rewritten output has exactly as many lines as the input.
#[test]
fn line_count_is_invariant() {
    let src = "fn main() {\n    let a = 1;\n    bad(); //~ ERROR no function\n}\n\nmod t {}";
    let out = transform_code(src, None).unwrap();
    assert_eq!(out.lines().count(), src.lines().count());
}

/// Lines with no annotation and no build directive pass through unchanged.
#[test]
fn untouched_lines_are_preserved() {
    let src = "fn main() {\n    bad(); //~ ERROR no function\n}";
    let out = transform_code(src, None).unwrap();
    let out_lines: Vec<&str> = out.lines().collect();
    assert_eq!(out_lines[0], "fn main() {");
    assert_eq!(out_lines[2], "}");
}

/// Re-running extraction on rewritten output yields no records.
#[test]
fn extraction_is_idempotent_on_output() {
    let src = "//@ edition:2018\nfn main() {\n    bad(); //~ ERROR no function\n    worse();\n    //~^ ERROR no function\n}";
    let out = transform_code(src, None).unwrap();
    assert_eq!(load_error(&out, None).unwrap().len(), 0);
    assert_eq!(transform_code(&out, None).unwrap(), out);
}

/// An edition build directive is rewritten into the configuration
/// directive carrying its value.
#[test]
fn edition_directive_is_rewritten() {
    let out = transform_code("//@ edition:2018\nfn main() {}", None).unwrap();
    assert_eq!(
        out,
        "// { dg-additional-options \"-frust-edition=2018\" }\nfn main() {}\n"
    );
}

/// The directive builder renders the header line form directly.
#[test]
fn parse_edition_directive_renders_value() {
    assert_eq!(
        parse_edition_directive("//@ edition:2021", "//@ edition"),
        "// { dg-additional-options \"-frust-edition=2021\" }"
    );
}

/// A fatal extraction error aborts the whole transformation.
#[test]
fn transform_propagates_fatal_errors() {
    assert_eq!(
        transform_code("x //~| ERROR orphan", None),
        Err(FatalError::FollowWithoutAnchor)
    );
}

/// Several records can target one earlier line; the annotation lines each
/// become directives and the target line stays.
#[test]
fn multiple_records_same_target() {
    let src = "fn f(i32, i32);\n//~^ ERROR anonymous\n//~^^ ERROR anonymous";
    let out = transform_code(src, None).unwrap();
    let lines: Vec<&str> = out.lines().collect();
    assert_eq!(lines[0], "fn f(i32, i32);");
    assert_eq!(lines[1], "// { dg-error \"\" \"\" { target *-*-* } .-1 }");
    assert_eq!(lines[2], "// { dg-error \"\" \"\" { target *-*-* } .-2 }");
}

/// A recovered code is rendered dot-delimited inside the first quoted
/// field, and each kind maps to its directive keyword.
#[test]
fn directive_rendering_with_code_and_kind() {
    let e = Error {
        line_num: 4,
        relative_line_num: 0,
        kind: Some(RustcErrorKind::Warning),
        msg: String::from("unused variable"),
        error_code: Some(String::from("E0308")),
    };
    assert_eq!(
        e.to_directive(),
        "// { dg-warning \".E0308.\" \"\" { target *-*-* } }"
    );
    let h = Error {
        line_num: 2,
        relative_line_num: -1,
        kind: Some(RustcErrorKind::Help),
        msg: String::new(),
        error_code: None,
    };
    assert_eq!(h.to_directive(), "// { help \"\" \"\" { target *-*-* } .-1 }");
}

/// The whole pipeline with a companion text: the code reaches the emitted
/// directive.
#[test]
fn transform_with_companion_code() {
    let src = "let x: u32 = s;\n//~^ ERROR mismatched types";
    let stderr = "error[E0308]: mismatched types\n  --> file.rs:1:14";
    let out = transform_code(src, Some(stderr)).unwrap();
    assert_eq!(
        out,
        "let x: u32 = s;\n// { dg-error \".E0308.\" \"\" { target *-*-* } .-1 }\n"
    );
}

/// An empty input transforms to an empty output.
#[test]
fn empty_input_empty_output() {
    assert_eq!(transform_code("", None).unwrap(), "");
}
