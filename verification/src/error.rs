//! The error taxonomy of the cache.
//!
//! `Io` covers path resolution, stat, open and map failures and always carries
//! the offending path; `Parse` means the document bytes are structurally
//! invalid; `Extraction` means one specific page's content could not be turned
//! into text; `PageRange` reports a requested page outside `1..=total`.

use vstd::prelude::*;

verus! {

/// What can go wrong while resolving a document or reading its pages.
#[derive(Debug, Clone, PartialEq, Eq)]
pub enum PdfError {
    /// A filesystem operation failed for the named path.
    Io { path: String },
    /// The document bytes were rejected by the parser.
    Parse,
    /// Text extraction failed for this page.
    Extraction { page: u32 },
    /// A requested page lies outside `1..=total`.
    PageRange { page: u32, total: u32 },
}

} // verus!
