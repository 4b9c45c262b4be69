//! A small template engine for syntax-highlighting grammar fragments.
//!
//! Template text contains placeholder markers introduced by the sentinel
//! `@_`. The tokenizer splits a template into literal runs and markers,
//! the expander replays those runs for each embedded-language label, and
//! the driver repeats this for every configured host language.

use vstd::prelude::*;

pub mod driver;
pub mod errors;
pub mod expand;
pub mod marker;
pub mod tokenizer;

verus! {

/// Highlighting fixture: sample text kept only so editors can exercise the
/// generated grammars on it.
pub fn __() {
    let _: &str = r##"<tag a={var} b="{var}">text \" {var}</tag>"##;
    let _: &str = r##"<tag a={var} b="{var}">text \" {var}</tag>"##;
    let _: &str = r##"
        <tag a={var} b="{var}">text \" {var}</tag>
    "##;
}

} // verus!
