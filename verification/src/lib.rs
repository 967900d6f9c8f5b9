//! Structured model of the textual header that precedes the records of a
//! tag-delimited alignment file, together with a writer that emits such a
//! header exactly once before any record.
//!
//! A header is an ordered list of text lines.  Each line is either a record
//! line (`@XX` followed by tab-separated `TAG:VALUE` fields) or a comment
//! line (`@CO` followed by a tab and free text).  The crate offers a builder
//! for record lines, a serializer that joins the lines with `\n`, a parser
//! that turns the serialized bytes back into a grouped, queryable form, and
//! a writer that couples one header to one output stream.

pub mod bytes;
pub mod grouped;
pub mod header;
pub mod laws;
pub mod parser;
pub mod record;
pub mod writer;

use vstd::prelude::*;

verus! {

/// The byte that separates header lines in the serialized form.
pub const NEWLINE: u8 = 10;

/// The byte that separates fields within one header line.
pub const TAB: u8 = 9;

/// The byte that separates a tag from its value inside a field.
pub const COLON: u8 = 58;

/// The byte that opens every header line.
pub const AT_SIGN: u8 = 64;

} // verus!
