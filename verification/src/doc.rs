//! Bindings to the external document parser and page-text extractor.
//!
//! The parsed document is opaque to this crate: the cache only validates,
//! stores and shares it. The contracts below name what the two external
//! routines compute — whether a byte buffer parses, how many pages a parsed
//! document has, and what text a page yields — all of which are functions of
//! the immutable document value alone.

use std::sync::Arc;
use vstd::prelude::*;

verus! {

#[verifier::external_type_specification]
#[verifier::external_body]
pub struct ExDocument(lopdf::Document);

#[verifier::external_type_specification]
#[verifier::external_body]
pub struct ExLopdfError(lopdf::Error);

#[verifier::external_type_specification]
#[verifier::external_body]
pub struct ExOutputError(pdf_extract::OutputError);

/// The document the external parser builds from these bytes, or `None` where
/// it rejects them. Parsing is deterministic in the bytes alone, so the
/// outcome is a function of them.
pub uninterp spec fn parse_of(bytes: Seq<u8>) -> Option<lopdf::Document>;

/// Whether the external parser accepts these bytes as a structurally valid
/// document.
pub open spec fn parse_ok(bytes: Seq<u8>) -> bool {
    parse_of(bytes) is Some
}

/// The page count of a parsed document, as the external page table reports it.
pub uninterp spec fn page_count_of(doc: lopdf::Document) -> u32;

/// The text the external extraction routine produces for the given 1-indexed
/// page of a parsed document, or `None` where the routine fails for that page.
/// The document is immutable and the routine is deterministic, so the outcome
/// is a function of the document and the page number alone.
pub uninterp spec fn extraction_of(doc: lopdf::Document, page: u32) -> Option<Seq<char>>;

/// Whether the external extraction routine runs to completion — returning
/// text or an error — for this page, rather than aborting. The routine
/// aborts the process on some documents its parser accepts (for instance a
/// page without an inherited MediaBox, or an unsupported font encoding), and
/// the panic is deterministic in the document and page, so completion is a
/// function of them; callers of the extraction must stay within it.
pub uninterp spec fn extraction_completes(doc: lopdf::Document, page: u32) -> bool;

/// Relies on `lopdf::Document::load_mem`: parsing a byte buffer yields a
/// self-contained document value that retains no reference to the buffer, or
/// rejects the bytes with an error.
#[verifier::external_body]
pub(crate) fn parse_document(bytes: &[u8]) -> (r: Result<lopdf::Document, lopdf::Error>)
    ensures
        r is Ok <==> parse_ok(bytes@),
        (r matches Ok(d) ==> parse_of(bytes@) == Some(d)),
{
    lopdf::Document::load_mem(bytes)
}

/// Relies on `lopdf::Document::get_pages`: the page table of an immutable
/// document, whose size is the document's page count.
#[verifier::external_body]
pub(crate) fn page_count(doc: &Arc<lopdf::Document>) -> (n: u32)
    ensures
        n == page_count_of(**doc),
{
    doc.get_pages().len() as u32
}

/// Relies on `pdf_extract::output_doc_page` writing through a
/// `pdf_extract::PlainTextOutput` sink: the plain text of one 1-indexed page
/// of an immutable document, or a failure for that page. The routine panics
/// instead of returning on some malformed pages, so the contract admits only
/// the pages it completes on; on those the outcome is deterministic.
#[verifier::external_body]
pub(crate) fn extract_text_from_doc_page(
    doc: &Arc<lopdf::Document>,
    page_num: u32,
) -> (r: Result<String, pdf_extract::OutputError>)
    requires
        extraction_completes(**doc, page_num),
    ensures
        r is Ok <==> extraction_of(**doc, page_num) is Some,
        (r matches Ok(s) ==> extraction_of(**doc, page_num) == Some(s@)),
        (r is Ok ==> extraction_completes(**doc, page_num)),
{
    let mut text = String::new();
    let mut output = pdf_extract::PlainTextOutput::new(&mut text);
    match pdf_extract::output_doc_page(doc.as_ref(), &mut output, page_num) {
        Ok(()) => Ok(text),
        Err(e) => Err(e),
    }
}

} // verus!
