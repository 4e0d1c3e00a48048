//! Converts rustc test-suite annotation comments (`//~`, `//~^`, `//~|`)
//! into DejaGnu test directives, optionally cross-referencing a compiler
//! stderr dump to recover structured error codes.

pub mod companion;
pub mod errors;
pub mod header;
pub mod transform;
pub mod sigil;
pub mod text;
