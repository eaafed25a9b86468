//! Formatter for GitHub Flavored Markdown tables.
//!
//! Column widths, cell padding and the delimiter row of every table are
//! normalized; all text outside of tables is left exactly as it was.

pub mod text;
pub mod alignment;
pub mod cell;
pub mod row;
pub mod column;
pub mod delimiter;
pub mod aligner;
pub mod lines;
pub mod span;
pub mod ast;
pub mod table_formatter;
pub mod splicer;
pub mod roundtrip;

use crate::ast::{document_outline, located_tables};
use crate::splicer::formatted_document;
use vstd::prelude::*;

verus! {

/// Format the GitHub Flavored Markdown tables in the `doc` string.
pub fn format_tables(doc: &str) -> (formatted: String)
    ensures
        formatted@ == formatted_document(doc@, located_tables(doc@, document_outline(doc@))),
{
    crate::splicer::format(doc)
}

} // verus!
