//! A process-wide cache in front of an expensive PDF parse and an expensive
//! per-page text extraction.
//!
//! The cache is keyed by canonical filesystem path and validated against the
//! file's modification time; each cached document carries a lazily filled
//! page-to-text map, so repeated reads and searches of the same page extract
//! its text at most once. The caller's side — canonicalization, stat,
//! reading the file — hands in plain values; everything the cache decides is
//! specified and verified here.

pub mod cache;
pub mod doc;
pub mod error;
pub mod lines;
pub mod pathmap;
pub mod text;

pub use cache::CachedPdf;
pub use cache::PdfCache;
pub use cache::load_pdf;
pub use error::PdfError;
pub use text::GrepMatch;
pub use text::PageText;
pub use text::extract_text_pages;
pub use text::grep_pdf;
