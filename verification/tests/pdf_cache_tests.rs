//! The cache protocol: install, hit, staleness, and memoized page text.

use pdf_cache::PdfCache;
use pdf_cache::PdfError;
use std::sync::Arc;

/// Build a valid PDF in memory whose pages each draw one line of text.
/// The xref offsets must be accurate for the parser to accept it.
pub fn pdf_with_pages(texts: &[&str]) -> Vec<u8> {
    pdf_with_pages_broken(texts, None)
}

/// Like [`pdf_with_pages`], but the 1-indexed `broken` page's content stream
/// cannot be decoded, so that page yields no text while the document still
/// parses.
pub fn pdf_with_pages_broken(texts: &[&str], broken: Option<usize>) -> Vec<u8> {
    let n = texts.len();
    let mut objects: Vec<String> = Vec::new();
    // object 1: catalog
    objects.push("<< /Type /Catalog /Pages 2 0 R >>".to_string());
    // object 2: page tree
    let kids: Vec<String> = (0..n).map(|i| format!("{} 0 R", 3 + i)).collect();
    objects.push(format!(
        "<< /Type /Pages /Kids [{}] /Count {} >>",
        kids.join(" "),
        n
    ));
    // objects 3..3+n: pages
    let font_id = 3 + n;
    for i in 0..n {
        objects.push(format!(
            "<< /Type /Page /Parent 2 0 R /MediaBox [0 0 612 792] \
             /Resources << /Font << /F1 {} 0 R >> >> /Contents {} 0 R >>",
            font_id,
            font_id + 1 + i
        ));
    }
    // object 3+n: the shared font
    objects.push("<< /Type /Font /Subtype /Type1 /BaseFont /Helvetica >>".to_string());
    // objects 4+n..: one content stream per page; a broken page claims its
    // garbage bytes are Flate-compressed, so decoding it fails
    for (i, text) in texts.iter().enumerate() {
        if broken == Some(i + 1) {
            objects.push(
                "<< /Length 10 /Filter /FlateDecode >>\nstream\ngarbage!!\nendstream".to_string(),
            );
        } else {
            // each `\n` in the page's text becomes a lower text run, which
            // the extractor renders as a new line
            let mut stream = String::from("BT /F1 12 Tf 72 720 Td ");
            for (ri, run) in text.split('\n').enumerate() {
                if ri > 0 {
                    stream.push_str("0 -20 Td ");
                }
                stream.push_str(&format!("({}) Tj ", run));
            }
            stream.push_str("ET");
            objects.push(format!(
                "<< /Length {} >>\nstream\n{}\nendstream",
                stream.len() + 1,
                stream
            ));
        }
    }

    let mut out: Vec<u8> = Vec::new();
    out.extend_from_slice(b"%PDF-1.4\n");
    let mut offsets: Vec<usize> = Vec::new();
    for (i, body) in objects.iter().enumerate() {
        offsets.push(out.len());
        out.extend_from_slice(format!("{} 0 obj\n{}\nendobj\n", i + 1, body).as_bytes());
    }
    let xref_offset = out.len();
    out.extend_from_slice(format!("xref\n0 {}\n", objects.len() + 1).as_bytes());
    out.extend_from_slice(b"0000000000 65535 f \n");
    for off in &offsets {
        out.extend_from_slice(format!("{:010} 00000 n \n", off).as_bytes());
    }
    out.extend_from_slice(
        format!(
            "trailer\n<< /Size {} /Root 1 0 R >>\nstartxref\n{}\n%%EOF\n",
            objects.len() + 1,
            xref_offset
        )
        .as_bytes(),
    );
    out
}

#[test]
fn unchanged_file_serves_same_document_instance() {
    let mut cache = PdfCache::new();
    let bytes = pdf_with_pages(&["hello world"]);
    let canonical = String::from("/docs/stable.pdf");

    let slot = cache.install(&canonical, 100, &bytes).expect("first load");
    let doc1 = Arc::clone(cache.document_at(slot));

    let hit = cache.get(&canonical, 100).expect("unchanged file must hit");
    assert_eq!(hit, slot);
    let doc2 = Arc::clone(cache.document_at(hit));

    assert!(Arc::ptr_eq(&doc1, &doc2), "doc Arcs should be the same");
}

#[test]
fn modified_file_yields_new_document_instance() {
    let mut cache = PdfCache::new();
    let canonical = String::from("/docs/changing.pdf");

    let slot = cache
        .install(&canonical, 100, &pdf_with_pages(&["before"]))
        .expect("first load");
    let doc1 = Arc::clone(cache.document_at(slot));

    // the file's mtime moved: the old entry must not be served
    assert_eq!(cache.get(&canonical, 200), None);

    let slot2 = cache
        .install(&canonical, 200, &pdf_with_pages(&["after"]))
        .expect("reload");
    assert_eq!(slot2, slot, "a reloaded path keeps its slot");
    let doc2 = Arc::clone(cache.document_at(slot2));

    assert!(
        !Arc::ptr_eq(&doc1, &doc2),
        "doc Arcs should differ after modification"
    );
}

#[test]
fn mtime_moving_backward_also_invalidates() {
    let mut cache = PdfCache::new();
    let canonical = String::from("/docs/restored.pdf");
    cache
        .install(&canonical, 500, &pdf_with_pages(&["x"]))
        .expect("load");
    assert_eq!(cache.get(&canonical, 400), None);
    assert!(cache.get(&canonical, 500).is_some());
}

#[test]
fn unknown_path_misses() {
    let mut cache = PdfCache::new();
    cache
        .install(&String::from("/docs/known.pdf"), 1, &pdf_with_pages(&["x"]))
        .expect("load");
    assert_eq!(cache.get(&String::from("/docs/unknown.pdf"), 1), None);
}

#[test]
fn distinct_paths_use_distinct_slots() {
    let mut cache = PdfCache::new();
    let a = cache
        .install(&String::from("/docs/a.pdf"), 1, &pdf_with_pages(&["a"]))
        .expect("load a");
    let b = cache
        .install(&String::from("/docs/b.pdf"), 1, &pdf_with_pages(&["b"]))
        .expect("load b");
    assert_ne!(a, b);
    assert_eq!(cache.get(&String::from("/docs/a.pdf"), 1), Some(a));
    assert_eq!(cache.get(&String::from("/docs/b.pdf"), 1), Some(b));
}

#[test]
fn garbage_bytes_fail_with_parse_error() {
    let mut cache = PdfCache::new();
    let err = cache
        .install(&String::from("/docs/bad.pdf"), 1, b"this is not a pdf")
        .expect_err("garbage must not parse");
    assert_eq!(err, PdfError::Parse);
}

#[test]
fn page_text_is_memoized_and_content_equal() {
    let mut cache = PdfCache::new();
    let canonical = String::from("/docs/memo.pdf");
    let slot = cache
        .install(&canonical, 1, &pdf_with_pages(&["hello world"]))
        .expect("load");

    let t1 = cache.page_text_at(slot, 1).expect("first extraction");
    let t2 = cache.page_text_at(slot, 1).expect("served from cache");
    assert_eq!(t1, t2);
    assert!(t1.contains("hello world"), "extracted text was: {:?}", t1);
}

#[test]
fn page_zero_and_past_end_fail_with_range_error() {
    let mut cache = PdfCache::new();
    let slot = cache
        .install(
            &String::from("/docs/two.pdf"),
            1,
            &pdf_with_pages(&["alpha", "beta"]),
        )
        .expect("load");

    let err = cache.extract_pages_at(slot, &[0]).expect_err("page 0");
    assert_eq!(err, PdfError::PageRange { page: 0, total: 2 });

    let err = cache.extract_pages_at(slot, &[3]).expect_err("page past end");
    assert_eq!(err, PdfError::PageRange { page: 3, total: 2 });

    let first = cache.extract_pages_at(slot, &[1]).expect("page 1 is valid");
    assert_eq!(first.len(), 1);
    assert_eq!(first[0].page, 1);

    let last = cache.extract_pages_at(slot, &[2]).expect("page 2 is valid");
    assert_eq!(last.len(), 1);
    assert_eq!(last[0].page, 2);
}

#[test]
fn first_out_of_range_page_aborts_whole_call() {
    let mut cache = PdfCache::new();
    let slot = cache
        .install(&String::from("/docs/one.pdf"), 1, &pdf_with_pages(&["only"]))
        .expect("load");
    let err = cache
        .extract_pages_at(slot, &[1, 0, 1])
        .expect_err("one bad page fails the call");
    assert_eq!(err, PdfError::PageRange { page: 0, total: 1 });
}

#[test]
fn extraction_accumulates_in_request_order() {
    let mut cache = PdfCache::new();
    let slot = cache
        .install(
            &String::from("/docs/ordered.pdf"),
            1,
            &pdf_with_pages(&["alpha", "beta"]),
        )
        .expect("load");
    let out = cache
        .extract_pages_at(slot, &[2, 1, 2])
        .expect("all pages valid");
    assert_eq!(out.len(), 3);
    assert_eq!(out[0].page, 2);
    assert_eq!(out[1].page, 1);
    assert_eq!(out[2].page, 2);
    assert!(out[0].text.contains("beta"));
    assert!(out[1].text.contains("alpha"));
    assert_eq!(out[0].text, out[2].text);
}

#[test]
fn empty_request_extracts_nothing() {
    let mut cache = PdfCache::new();
    let slot = cache
        .install(&String::from("/docs/none.pdf"), 1, &pdf_with_pages(&["x"]))
        .expect("load");
    let out = cache.extract_pages_at(slot, &[]).expect("empty request");
    assert!(out.is_empty());
}

#[test]
fn search_finds_matches_in_ascending_order_with_offsets() {
    let mut cache = PdfCache::new();
    let slot = cache
        .install(
            &String::from("/docs/potatoes.pdf"),
            1,
            &pdf_with_pages(&["one potato two potato", "three potato"]),
        )
        .expect("load");
    let re = regex::Regex::new("potato").expect("compile pattern");

    let hits = cache.grep_at(slot, &re, 10);
    assert_eq!(hits.len(), 3);

    // the extractor places the text on some line of each page; line numbers
    // reported by the search must be 1-indexed positions in that page's text
    let page1 = cache.page_text_at(slot, 1).expect("page 1 text");
    let line1 = page1
        .lines()
        .position(|l| l.contains("one potato"))
        .expect("line with text") as u32
        + 1;
    let page2 = cache.page_text_at(slot, 2).expect("page 2 text");
    let line2 = page2
        .lines()
        .position(|l| l.contains("three potato"))
        .expect("line with text") as u32
        + 1;

    assert_eq!(hits[0].page, 1);
    assert_eq!(hits[0].line_number, line1);
    assert_eq!(hits[0].match_start, 4);
    assert_eq!(hits[0].match_end, 10);
    assert_eq!(hits[0].text, "one potato two potato");

    assert_eq!(hits[1].page, 1);
    assert_eq!(hits[1].line_number, line1);
    assert_eq!(hits[1].match_start, 15);
    assert_eq!(hits[1].match_end, 21);

    assert_eq!(hits[2].page, 2);
    assert_eq!(hits[2].line_number, line2);
    assert_eq!(hits[2].match_start, 6);
    assert_eq!(hits[2].match_end, 12);
    assert_eq!(hits[2].text, "three potato");
}

#[test]
fn search_stops_at_max_results() {
    let mut cache = PdfCache::new();
    let slot = cache
        .install(
            &String::from("/docs/capped.pdf"),
            1,
            &pdf_with_pages(&["one potato two potato", "three potato"]),
        )
        .expect("load");
    let re = regex::Regex::new("potato").expect("compile pattern");

    let two = cache.grep_at(slot, &re, 2);
    assert_eq!(two.len(), 2);
    assert_eq!(two[0].match_start, 4);
    assert_eq!(two[1].match_start, 15);

    let one = cache.grep_at(slot, &re, 1);
    assert_eq!(one.len(), 1);
    assert_eq!(one[0].page, 1);
    assert_eq!(one[0].match_start, 4);
}

#[test]
fn search_without_matches_is_empty() {
    let mut cache = PdfCache::new();
    let slot = cache
        .install(&String::from("/docs/quiet.pdf"), 1, &pdf_with_pages(&["nothing here"]))
        .expect("load");
    let re = regex::Regex::new("absent").expect("compile pattern");
    assert!(cache.grep_at(slot, &re, 5).is_empty());
}

#[test]
fn entry_level_operations_match_cache_level_ones() {
    let bytes = pdf_with_pages(&["one potato two potato"]);
    let mut entry = pdf_cache::load_pdf(&bytes, 7).expect("parse");
    let re = regex::Regex::new("potato").expect("compile pattern");

    let hits = pdf_cache::grep_pdf(&mut entry, &re, 10);
    assert_eq!(hits.len(), 2);

    let out = pdf_cache::extract_text_pages(&mut entry, &[1]).expect("extract");
    assert_eq!(out.len(), 1);
    assert_eq!(out[0].page, 1);
    assert!(out[0].text.contains("one potato two potato"));

    let err = pdf_cache::extract_text_pages(&mut entry, &[9]).expect_err("out of range");
    assert_eq!(err, PdfError::PageRange { page: 9, total: 1 });
}

#[test]
fn damaged_page_contributes_no_hits_and_other_pages_still_searched() {
    let mut cache = PdfCache::new();
    let slot = cache
        .install(
            &String::from("/docs/damaged.pdf"),
            1,
            &pdf_with_pages_broken(&["first potato", "middle potato", "last potato"], Some(2)),
        )
        .expect("document still parses");

    // the extractor treats the undecodable page as empty rather than failing,
    // so the damaged page simply yields no text
    let middle = cache.extract_pages_at(slot, &[2]).expect("extraction");
    assert_eq!(middle.len(), 1);
    assert_eq!(middle[0].text, "");

    // the search reports the surrounding pages' matches, none for the
    // damaged page, and no error
    let re = regex::Regex::new("potato").expect("compile pattern");
    let hits = cache.grep_at(slot, &re, 10);
    assert_eq!(hits.len(), 2);
    assert_eq!(hits[0].page, 1);
    assert!(hits[0].text.contains("first potato"));
    assert_eq!(hits[1].page, 3);
    assert!(hits[1].text.contains("last potato"));
}

#[test]
fn matches_on_later_lines_report_higher_line_numbers() {
    let mut cache = PdfCache::new();
    let slot = cache
        .install(
            &String::from("/docs/twolines.pdf"),
            1,
            &pdf_with_pages(&["alpha potato\nbeta potato"]),
        )
        .expect("load");

    let text = cache.page_text_at(slot, 1).expect("page text");
    let alpha_line = text
        .lines()
        .position(|l| l.contains("alpha potato"))
        .expect("alpha line") as u32
        + 1;
    let beta_line = text
        .lines()
        .position(|l| l.contains("beta potato"))
        .expect("beta line") as u32
        + 1;
    assert!(alpha_line < beta_line);

    let re = regex::Regex::new("potato").expect("compile pattern");
    let hits = cache.grep_at(slot, &re, 10);
    assert_eq!(hits.len(), 2);
    assert_eq!(hits[0].line_number, alpha_line);
    assert!(hits[0].text.contains("alpha potato"));
    assert_eq!(hits[1].line_number, beta_line);
    assert!(hits[1].text.contains("beta potato"));
}
