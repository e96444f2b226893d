//! Tagging engine for a tree of plain-text documentation sources.
//!
//! The library decides which documents need metadata annotations (search
//! keywords, programming-language facets, fixed topical tags), resolves
//! which documents transitively embed a reusable fragment, and applies
//! idempotent structural edits that insert, extend or remove the managed
//! annotation blocks.  All logic works on plain values: a document is its
//! path and its sequence of lines; reading and writing files is left to
//! callers.

pub mod cli;
pub mod includes;
pub mod meta;
pub mod mutate;
pub mod similar;
pub mod text;
pub mod types;

use vstd::prelude::*;

verus! {

/// One spelling of the directive that opens a tabbed code-example section.
pub fn code_tabs_string_1() -> (r: &'static str)
    ensures
        r@ == "tabs-selector:: drivers"@,
{
    "tabs-selector:: drivers"
}

/// The other spelling of the directive that opens a tabbed code-example
/// section.
pub fn code_tabs_string_2() -> (r: &'static str)
    ensures
        r@ == "tabs-drivers::"@,
{
    "tabs-drivers::"
}

} // verus!
