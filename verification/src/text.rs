//! The query operations built on the cache: bulk page extraction and
//! line-oriented pattern search.
//!
//! Both operate on a resolved cache entry, so every page they touch goes
//! through the entry's memoizing text cache.

use vstd::prelude::*;

use crate::cache::CachedPdf;
use crate::doc::extraction_completes;
use crate::doc::extraction_of;
use crate::doc::page_count_of;
use crate::error::PdfError;
use crate::lines::spec_lines;
use crate::lines::split_lines;

verus! {

broadcast use vstd::map_lib::lemma_submap_of_trans;

#[verifier::external_type_specification]
#[verifier::external_body]
pub struct ExRegex(regex::Regex);

/// The byte ranges of the successive non-overlapping matches of a compiled
/// pattern in a haystack, leftmost first; they depend on the pattern and the
/// haystack alone.
pub uninterp spec fn regex_matches(re: regex::Regex, hay: Seq<char>) -> Seq<(usize, usize)>;

/// Match ranges as the regex engine yields them: each within-range
/// (`start <= end`) and successive matches non-overlapping, so their
/// positions ascend.
pub open spec fn ranges_ascending(ms: Seq<(usize, usize)>) -> bool {
    &&& forall|k: int| 0 <= k < ms.len() ==> (#[trigger] ms[k]).0 <= ms[k].1
    &&& forall|k: int| 0 <= k && k + 1 < ms.len() ==> (#[trigger] ms[k]).1 <= ms[k + 1].0
}

/// Relies on `regex::Regex::find_iter`: yields the successive non-overlapping
/// matches in the haystack, leftmost first, each as byte offsets of its start
/// and end; the ranges ascend and do not overlap.
#[verifier::external_body]
pub(crate) fn find_matches(re: &regex::Regex, hay: &str) -> (r: Vec<(usize, usize)>)
    ensures
        r@ == regex_matches(*re, hay@),
        ranges_ascending(r@),
{
    let mut v = Vec::new();
    for m in re.find_iter(hay) {
        v.push((m.start(), m.end()));
    }
    v
}

/// One page's extracted text.
#[derive(Debug, Clone)]
pub struct PageText {
    pub page: u32,
    pub text: String,
}

/// Whether a 1-indexed page number lies within a document of `total` pages.
pub open spec fn page_in_range(page: u32, total: u32) -> bool {
    1 <= page && page <= total
}

/// Extract text for the requested 1-indexed pages, in request order.
///
/// Every requested page is validated against the document's page count before
/// any extraction happens; the first out-of-range page aborts the call with
/// `PageRange`, and after validation the first page whose extraction fails
/// aborts it with `Extraction` — the caller asked for that exact page, so the
/// failure is not recovered here. The text cache only grows: nothing already
/// memoized is dropped, and a failed validation touches nothing.
pub fn extract_text_pages(entry: &mut CachedPdf, pages: &[u32]) -> (r: Result<
    Vec<PageText>,
    PdfError,
>)
    requires
        old(entry).wf(),
        forall|k: int|
            0 <= k < pages@.len() && page_in_range(
                pages@[k],
                page_count_of(old(entry).spec_doc()),
            ) ==> extraction_completes(old(entry).spec_doc(), #[trigger] pages@[k]),
    ensures
        final(entry).wf(),
        final(entry).spec_doc() == old(entry).spec_doc(),
        final(entry).spec_mtime() == old(entry).spec_mtime(),
        old(entry).spec_texts().submap_of(final(entry).spec_texts()),
        match r {
            Ok(out) => {
                &&& forall|k: int|
                    0 <= k < pages@.len() ==> page_in_range(
                        #[trigger] pages@[k],
                        page_count_of(old(entry).spec_doc()),
                    )
                &&& out@.len() == pages@.len()
                &&& forall|k: int|
                    0 <= k < pages@.len() ==> (#[trigger] out@[k]).page == pages@[k]
                        && extraction_of(old(entry).spec_doc(), pages@[k]) == Some(out@[k].text@)
            },
            Err(PdfError::PageRange { page, total }) => {
                &&& total == page_count_of(old(entry).spec_doc())
                &&& !page_in_range(page, total)
                &&& *final(entry) == *old(entry)
                &&& exists|k: int|
                    0 <= k < pages@.len() && #[trigger] pages@[k] == page && (forall|j: int|
                        0 <= j < k ==> page_in_range(#[trigger] pages@[j], total))
            },
            Err(PdfError::Extraction { page }) => {
                &&& forall|k: int|
                    0 <= k < pages@.len() ==> page_in_range(
                        #[trigger] pages@[k],
                        page_count_of(old(entry).spec_doc()),
                    )
                &&& extraction_of(old(entry).spec_doc(), page) is None
                &&& exists|k: int|
                    0 <= k < pages@.len() && #[trigger] pages@[k] == page && (forall|j: int|
                        0 <= j < k ==> extraction_of(old(entry).spec_doc(), #[trigger] pages@[j])
                            is Some)
            },
            Err(_) => false,
        },
{
    let total = entry.total_pages();
    let mut k: usize = 0;
    while k < pages.len()
        invariant
            0 <= k <= pages@.len(),
            total == page_count_of(entry.spec_doc()),
            *entry == *old(entry),
            old(entry).wf(),
            forall|j: int| 0 <= j < k ==> page_in_range(#[trigger] pages@[j], total),
        decreases pages@.len() - k,
    {
        let p = pages[k];
        if p == 0 || p > total {
            return Err(PdfError::PageRange { page: p, total });
        }
        k += 1;
    }
    let mut out: Vec<PageText> = Vec::new();
    let mut k: usize = 0;
    while k < pages.len()
        invariant
            0 <= k <= pages@.len(),
            out@.len() == k,
            entry.wf(),
            entry.spec_doc() == old(entry).spec_doc(),
            entry.spec_mtime() == old(entry).spec_mtime(),
            old(entry).spec_texts().submap_of(entry.spec_texts()),
            forall|j: int|
                0 <= j < pages@.len() ==> page_in_range(
                    #[trigger] pages@[j],
                    page_count_of(old(entry).spec_doc()),
                ),
            forall|j: int|
                0 <= j < pages@.len() ==> extraction_completes(
                    old(entry).spec_doc(),
                    #[trigger] pages@[j],
                ),
            forall|j: int|
                0 <= j < k ==> (#[trigger] out@[j]).page == pages@[j] && extraction_of(
                    old(entry).spec_doc(),
                    pages@[j],
                ) == Some(out@[j].text@),
            forall|j: int|
                0 <= j < k ==> extraction_of(old(entry).spec_doc(), #[trigger] pages@[j]) is Some,
        decreases pages@.len() - k,
    {
        let p = pages[k];
        match entry.page_text(p) {
            Ok(text) => {
                out.push(PageText { page: p, text });
            },
            Err(_) => {
                return Err(PdfError::Extraction { page: p });
            },
        }
        k += 1;
    }
    Ok(out)
}

/// One search hit, as the contracts speak of it: the page, the 1-indexed
/// line within the page, the full line, and the match's byte offsets within
/// that line.
pub ghost struct GrepMatchModel {
    pub page: u32,
    pub line_number: u32,
    pub text: Seq<char>,
    pub match_start: u32,
    pub match_end: u32,
}

/// One search hit. `match_start` and `match_end` are the regex engine's byte
/// offsets of the match within the line.
#[derive(Debug, Clone)]
pub struct GrepMatch {
    pub page: u32,
    pub line_number: u32,
    pub text: String,
    pub match_start: u32,
    pub match_end: u32,
}

impl View for GrepMatch {
    type V = GrepMatchModel;

    open spec fn view(&self) -> GrepMatchModel {
        GrepMatchModel {
            page: self.page,
            line_number: self.line_number,
            text: self.text@,
            match_start: self.match_start,
            match_end: self.match_end,
        }
    }
}

/// The models of a sequence of hits.
pub open spec fn models(ms: Seq<GrepMatch>) -> Seq<GrepMatchModel> {
    ms.map_values(|g: GrepMatch| g@)
}

/// The hits of one line, in match order.
pub open spec fn line_hits(
    re: regex::Regex,
    page: u32,
    line_number: u32,
    line: Seq<char>,
) -> Seq<GrepMatchModel> {
    regex_matches(re, line).map_values(
        |m: (usize, usize)|
            GrepMatchModel {
                page,
                line_number,
                text: line,
                match_start: m.0 as u32,
                match_end: m.1 as u32,
            },
    )
}

/// The hits of the first `upto` lines of a page, lines 1-indexed in order.
pub open spec fn text_hits_upto(
    re: regex::Regex,
    page: u32,
    lines: Seq<Seq<char>>,
    upto: int,
) -> Seq<GrepMatchModel>
    decreases upto,
{
    if upto <= 0 {
        Seq::empty()
    } else {
        text_hits_upto(re, page, lines, upto - 1) + line_hits(
            re,
            page,
            upto as u32,
            lines[upto - 1],
        )
    }
}

/// The hits of one page's extracted text.
pub open spec fn text_hits(re: regex::Regex, page: u32, text: Seq<char>) -> Seq<GrepMatchModel> {
    text_hits_upto(re, page, spec_lines(text), spec_lines(text).len() as int)
}

/// The hits of one page: a page whose extraction fails contributes none.
pub open spec fn page_hits(re: regex::Regex, doc: lopdf::Document, page: u32) -> Seq<
    GrepMatchModel,
> {
    match extraction_of(doc, page) {
        Some(t) => text_hits(re, page, t),
        None => Seq::empty(),
    }
}

/// The hits of the document's first `upto` pages, pages ascending.
pub open spec fn doc_hits_upto(re: regex::Regex, doc: lopdf::Document, upto: int) -> Seq<
    GrepMatchModel,
>
    decreases upto,
{
    if upto <= 0 {
        Seq::empty()
    } else {
        doc_hits_upto(re, doc, upto - 1) + page_hits(re, doc, upto as u32)
    }
}

/// Every hit of the document, in ascending page, line and match order.
pub open spec fn doc_hits(re: regex::Regex, doc: lopdf::Document) -> Seq<GrepMatchModel> {
    doc_hits_upto(re, doc, page_count_of(doc) as int)
}

/// What a search with a result cap returns: every hit when they fit, else
/// exactly the first `max` of them.
pub open spec fn grep_result(full: Seq<GrepMatchModel>, max: usize) -> Seq<GrepMatchModel> {
    if full.len() <= max {
        full
    } else {
        full.take(max as int)
    }
}

/// A prefix stays a prefix when the longer side grows.
proof fn lemma_prefix_extend<A>(a: Seq<A>, b: Seq<A>, c: Seq<A>)
    requires
        a.is_prefix_of(b),
    ensures
        a.is_prefix_of(b + c),
{
    assert(a =~= (b + c).subrange(0, a.len() as int));
}

/// The hits of fewer lines are a prefix of the hits of more lines.
proof fn lemma_text_hits_upto_prefix(
    re: regex::Regex,
    page: u32,
    lines: Seq<Seq<char>>,
    k: int,
    n: int,
)
    requires
        0 <= k <= n,
    ensures
        text_hits_upto(re, page, lines, k).is_prefix_of(text_hits_upto(re, page, lines, n)),
    decreases n,
{
    if n == k {
        assert(text_hits_upto(re, page, lines, k).is_prefix_of(
            text_hits_upto(re, page, lines, k),
        ));
    } else {
        lemma_text_hits_upto_prefix(re, page, lines, k, n - 1);
        lemma_prefix_extend(
            text_hits_upto(re, page, lines, k),
            text_hits_upto(re, page, lines, n - 1),
            line_hits(re, page, n as u32, lines[n - 1]),
        );
    }
}

/// The hits of fewer pages are a prefix of the hits of more pages.
proof fn lemma_doc_hits_upto_prefix(re: regex::Regex, doc: lopdf::Document, k: int, n: int)
    requires
        0 <= k <= n,
    ensures
        doc_hits_upto(re, doc, k).is_prefix_of(doc_hits_upto(re, doc, n)),
    decreases n,
{
    if n == k {
        assert(doc_hits_upto(re, doc, k).is_prefix_of(doc_hits_upto(re, doc, k)));
    } else {
        lemma_doc_hits_upto_prefix(re, doc, k, n - 1);
        lemma_prefix_extend(
            doc_hits_upto(re, doc, k),
            doc_hits_upto(re, doc, n - 1),
            page_hits(re, doc, n as u32),
        );
    }
}

/// Extending equal prefixes by a prefix keeps the prefix relation.
proof fn lemma_concat_prefix<A>(c: Seq<A>, x: Seq<A>, y: Seq<A>)
    requires
        x.is_prefix_of(y),
    ensures
        (c + x).is_prefix_of(c + y),
{
    assert((c + x) =~= (c + y).subrange(0, (c + x).len() as int));
}

/// The prefix relation is transitive.
proof fn lemma_prefix_trans<A>(a: Seq<A>, b: Seq<A>, c: Seq<A>)
    requires
        a.is_prefix_of(b),
        b.is_prefix_of(c),
    ensures
        a.is_prefix_of(c),
{
    assert(a =~= c.subrange(0, a.len() as int));
}

/// A prefix is what `take` of its length yields.
proof fn lemma_prefix_is_take<A>(s: Seq<A>, t: Seq<A>)
    requires
        s.is_prefix_of(t),
    ensures
        s =~= t.take(s.len() as int),
{
}

/// Every hit of one page's text carries that page's number.
proof fn lemma_text_hits_upto_page(re: regex::Regex, page: u32, lines: Seq<Seq<char>>, upto: int)
    ensures
        forall|a: int|
            0 <= a < text_hits_upto(re, page, lines, upto).len() ==> (#[trigger] text_hits_upto(
                re,
                page,
                lines,
                upto,
            )[a]).page == page,
    decreases upto,
{
    if upto > 0 {
        lemma_text_hits_upto_page(re, page, lines, upto - 1);
        let prefix = text_hits_upto(re, page, lines, upto - 1);
        let block = line_hits(re, page, upto as u32, lines[upto - 1]);
        assert forall|a: int|
            0 <= a < text_hits_upto(re, page, lines, upto).len() implies (
        #[trigger] text_hits_upto(re, page, lines, upto)[a]).page == page by {
            if a < prefix.len() {
                assert(text_hits_upto(re, page, lines, upto)[a] == prefix[a]);
            } else {
                assert(text_hits_upto(re, page, lines, upto)[a] == block[a - prefix.len()]);
            }
        }
    }
}

/// Within one page, hits of later lines come later: the search model lists a
/// line's matches before any later line's. The line counter is a `u32`, so
/// this holds of pages with at most `u32::MAX` lines.
pub proof fn lemma_text_hits_line_ordered(
    re: regex::Regex,
    page: u32,
    lines: Seq<Seq<char>>,
    upto: int,
)
    requires
        upto <= 0xffff_ffff,
    ensures
        forall|a: int|
            0 <= a < text_hits_upto(re, page, lines, upto).len() ==> 1 <= (
            #[trigger] text_hits_upto(re, page, lines, upto)[a]).line_number <= upto,
        forall|a: int, b: int|
            0 <= a <= b < text_hits_upto(re, page, lines, upto).len() ==> (
            #[trigger] text_hits_upto(re, page, lines, upto)[a]).line_number <= (
            #[trigger] text_hits_upto(re, page, lines, upto)[b]).line_number,
    decreases upto,
{
    if upto > 0 {
        lemma_text_hits_line_ordered(re, page, lines, upto - 1);
        let whole = text_hits_upto(re, page, lines, upto);
        let prefix = text_hits_upto(re, page, lines, upto - 1);
        let block = line_hits(re, page, upto as u32, lines[upto - 1]);
        assert forall|a: int| 0 <= a < whole.len() implies 1 <= (#[trigger] whole[a]).line_number
            <= upto by {
            if a < prefix.len() {
                assert(whole[a] == prefix[a]);
            } else {
                assert(whole[a] == block[a - prefix.len()]);
            }
        }
        assert forall|a: int, b: int| 0 <= a <= b < whole.len() implies (
        #[trigger] whole[a]).line_number <= (#[trigger] whole[b]).line_number by {
            if a < prefix.len() {
                assert(whole[a] == prefix[a]);
            } else {
                assert(whole[a] == block[a - prefix.len()]);
            }
            if b < prefix.len() {
                assert(whole[b] == prefix[b]);
            } else {
                assert(whole[b] == block[b - prefix.len()]);
            }
        }
    }
}

/// Within one line, hits carry ordered, non-overlapping byte offsets: each
/// match's start is at most its end, and a match ends at or before the next
/// one starts. The hit fields are `u32`, so this holds where the engine's
/// ranges fit in `u32` — lines shorter than 4 GiB, where the offsets do not
/// wrap; the range hypothesis is what the match wrapper's contract gives of
/// its result.
pub proof fn lemma_line_hits_offset_ordered(
    re: regex::Regex,
    page: u32,
    line_number: u32,
    line: Seq<char>,
)
    requires
        ranges_ascending(regex_matches(re, line)),
        forall|k: int|
            0 <= k < regex_matches(re, line).len() ==> (#[trigger] regex_matches(re, line)[k]).1
                <= 0xffff_ffff,
    ensures
        forall|a: int|
            0 <= a < line_hits(re, page, line_number, line).len() ==> (#[trigger] line_hits(
                re,
                page,
                line_number,
                line,
            )[a]).match_start <= line_hits(re, page, line_number, line)[a].match_end,
        forall|a: int|
            0 <= a && a + 1 < line_hits(re, page, line_number, line).len() ==> (#[trigger] line_hits(
                re,
                page,
                line_number,
                line,
            )[a]).match_end <= line_hits(re, page, line_number, line)[a + 1].match_start,
{
    let ms = regex_matches(re, line);
    let hits = line_hits(re, page, line_number, line);
    assert(hits.len() == ms.len());
    assert forall|a: int| 0 <= a < hits.len() implies (#[trigger] hits[a]).match_start
        <= hits[a].match_end by {
        assert(ms[a].0 <= ms[a].1);
    }
    assert forall|a: int| 0 <= a && a + 1 < hits.len() implies (#[trigger] hits[a]).match_end
        <= hits[a + 1].match_start by {
        assert(ms[a].1 <= ms[a + 1].0);
        assert(ms[a + 1].0 <= ms[a + 1].1);
        assert(ms[a].1 <= 0xffff_ffff);
        assert(ms[a + 1].1 <= 0xffff_ffff);
        assert(hits[a].match_end == ms[a].1 as u32) by {
            assert(0 <= a < ms.len());
        }
        assert(hits[a + 1].match_start == ms[a + 1].0 as u32) by {
            assert(0 <= a + 1 < ms.len());
        }
    }
}

/// Every hit of one page carries that page's number.
proof fn lemma_page_hits_page(re: regex::Regex, doc: lopdf::Document, page: u32)
    ensures
        forall|a: int|
            0 <= a < page_hits(re, doc, page).len() ==> (#[trigger] page_hits(
                re,
                doc,
                page,
            )[a]).page == page,
{
    match extraction_of(doc, page) {
        Some(t) => {
            lemma_text_hits_upto_page(re, page, spec_lines(t), spec_lines(t).len() as int);
        },
        None => {},
    }
}

/// The search model lists hits in ascending page order: all of page 1's
/// hits, then page 2's, and so on, so any prefix a capped search returns is
/// page-ascending too.
pub proof fn lemma_doc_hits_page_ordered(re: regex::Regex, doc: lopdf::Document, upto: int)
    requires
        upto <= 0xffff_ffff,
    ensures
        forall|a: int|
            0 <= a < doc_hits_upto(re, doc, upto).len() ==> 1 <= (#[trigger] doc_hits_upto(
                re,
                doc,
                upto,
            )[a]).page <= upto,
        forall|a: int, b: int|
            0 <= a <= b < doc_hits_upto(re, doc, upto).len() ==> (#[trigger] doc_hits_upto(
                re,
                doc,
                upto,
            )[a]).page <= (#[trigger] doc_hits_upto(re, doc, upto)[b]).page,
    decreases upto,
{
    if upto > 0 {
        lemma_doc_hits_page_ordered(re, doc, upto - 1);
        lemma_page_hits_page(re, doc, upto as u32);
        let whole = doc_hits_upto(re, doc, upto);
        let prefix = doc_hits_upto(re, doc, upto - 1);
        let block = page_hits(re, doc, upto as u32);
        assert forall|a: int| 0 <= a < whole.len() implies 1 <= (#[trigger] whole[a]).page
            <= upto by {
            if a < prefix.len() {
                assert(whole[a] == prefix[a]);
            } else {
                assert(whole[a] == block[a - prefix.len()]);
            }
        }
        assert forall|a: int, b: int| 0 <= a <= b < whole.len() implies (#[trigger] whole[a]).page
            <= (#[trigger] whole[b]).page by {
            if a < prefix.len() {
                assert(whole[a] == prefix[a]);
            } else {
                assert(whole[a] == block[a - prefix.len()]);
            }
            if b < prefix.len() {
                assert(whole[b] == prefix[b]);
            } else {
                assert(whole[b] == block[b - prefix.len()]);
            }
        }
    }
}

/// With more hits in the document than the cap, a capped search returns
/// exactly the cap, never more.
pub proof fn lemma_search_cutoff(full: Seq<GrepMatchModel>, max: usize)
    requires
        full.len() > max,
    ensures
        grep_result(full, max).len() == max,
        grep_result(full, max) == full.take(max as int),
{
}

/// A page whose extraction fails contributes no hit to the search; the other
/// pages' hits stand on their own, since each page's hits are a function of
/// that page alone.
pub proof fn lemma_failed_page_no_hits(re: regex::Regex, doc: lopdf::Document, page: u32)
    requires
        extraction_of(doc, page) is None,
    ensures
        page_hits(re, doc, page) == Seq::<GrepMatchModel>::empty(),
{
}

/// Search every page's text for the pattern, pages ascending, lines within a
/// page ascending, matches within a line leftmost first, and stop as soon as
/// `max_results` hits are found: the result is exactly the first
/// `max_results` of the document's hits, or all of them when fewer exist. A
/// page whose extraction fails is skipped silently and contributes no hit;
/// hit offsets are the regex engine's byte offsets within the line. The
/// text cache only grows: every page text memoized before the search is
/// still memoized after it.
pub fn grep_pdf(entry: &mut CachedPdf, pattern: &regex::Regex, max_results: usize) -> (r: Vec<
    GrepMatch,
>)
    requires
        old(entry).wf(),
        max_results >= 1,
        forall|p: u32|
            1 <= p <= page_count_of(old(entry).spec_doc())
                ==> #[trigger] extraction_completes(old(entry).spec_doc(), p),
    ensures
        final(entry).wf(),
        final(entry).spec_doc() == old(entry).spec_doc(),
        final(entry).spec_mtime() == old(entry).spec_mtime(),
        old(entry).spec_texts().submap_of(final(entry).spec_texts()),
        models(r@) == grep_result(doc_hits(*pattern, old(entry).spec_doc()), max_results),
{
    let total = entry.total_pages();
    let ghost gdoc = entry.spec_doc();
    let ghost re = *pattern;
    let mut results: Vec<GrepMatch> = Vec::new();
    let mut q: u32 = 0;
    proof {
        assert(models(results@) =~= doc_hits_upto(re, gdoc, 0));
    }
    while q < total
        invariant
            0 <= q <= total,
            max_results >= 1,
            total == page_count_of(gdoc),
            entry.wf(),
            entry.spec_doc() == old(entry).spec_doc(),
            entry.spec_mtime() == old(entry).spec_mtime(),
            old(entry).spec_texts().submap_of(entry.spec_texts()),
            gdoc == old(entry).spec_doc(),
            re == *pattern,
            forall|p: u32| 1 <= p <= total ==> #[trigger] extraction_completes(gdoc, p),
            models(results@) == doc_hits_upto(re, gdoc, q as int),
            results@.len() < max_results,
        decreases total - q,
    {
        let page = q + 1;
        match entry.page_text(page) {
            Err(_) => {
                proof {
                    assert(page_hits(re, gdoc, page) =~= Seq::<GrepMatchModel>::empty());
                    assert(doc_hits_upto(re, gdoc, q as int + 1) == doc_hits_upto(
                        re,
                        gdoc,
                        q as int,
                    ) + page_hits(re, gdoc, page));
                    assert(models(results@) =~= doc_hits_upto(re, gdoc, q as int + 1));
                }
            },
            Ok(text) => {
                let ghost gtext = text@;
                proof {
                    assert(extraction_of(gdoc, page) == Some(gtext));
                }
                let lines = split_lines(text.as_str());
                let ghost glines = lines@.map_values(|l: String| l@);
                let mut li: usize = 0;
                while li < lines.len()
                    invariant
                        0 <= li <= lines@.len(),
                        max_results >= 1,
                        entry.wf(),
                        entry.spec_doc() == old(entry).spec_doc(),
                        entry.spec_mtime() == old(entry).spec_mtime(),
                        old(entry).spec_texts().submap_of(entry.spec_texts()),
                        gdoc == old(entry).spec_doc(),
                        re == *pattern,
                        0 <= q < total,
                        total == page_count_of(gdoc),
                        page == q + 1,
                        extraction_of(gdoc, page) == Some(gtext),
                        glines == lines@.map_values(|l: String| l@),
                        glines == spec_lines(gtext),
                        models(results@) == doc_hits_upto(re, gdoc, q as int) + text_hits_upto(
                            re,
                            page,
                            glines,
                            li as int,
                        ),
                        results@.len() < max_results,
                    decreases lines@.len() - li,
                {
                    let line = &lines[li];
                    let ghost gline = line@;
                    let found = find_matches(pattern, line.as_str());
                    let lnp1 = li + 1;
                    let line_number: u32 = #[verifier::truncate] (lnp1 as u32);
                    let ghost base = doc_hits_upto(re, gdoc, q as int) + text_hits_upto(
                        re,
                        page,
                        glines,
                        li as int,
                    );
                    let ghost lhits = line_hits(re, page, line_number, gline);
                    let mut j: usize = 0;
                    proof {
                        assert(lhits.take(0) =~= Seq::<GrepMatchModel>::empty());
                        assert(models(results@) =~= base + lhits.take(0));
                    }
                    while j < found.len()
                        invariant
                            0 <= j <= found@.len(),
                            max_results >= 1,
                            entry.wf(),
                            entry.spec_doc() == old(entry).spec_doc(),
                            entry.spec_mtime() == old(entry).spec_mtime(),
                            old(entry).spec_texts().submap_of(entry.spec_texts()),
                            gdoc == old(entry).spec_doc(),
                            re == *pattern,
                            0 <= q < total,
                            total == page_count_of(gdoc),
                            page == q + 1,
                            extraction_of(gdoc, page) == Some(gtext),
                            glines == spec_lines(gtext),
                            0 <= li < glines.len(),
                            gline == glines[li as int],
                            line@ == gline,
                            line_number == (li + 1) as u32,
                            found@ == regex_matches(re, gline),
                            lhits == line_hits(re, page, line_number, gline),
                            base == doc_hits_upto(re, gdoc, q as int) + text_hits_upto(
                                re,
                                page,
                                glines,
                                li as int,
                            ),
                            models(results@) == base + lhits.take(j as int),
                            results@.len() < max_results,
                        decreases found@.len() - j,
                    {
                        let m = found[j];
                        let gm = GrepMatch {
                            page,
                            line_number,
                            text: line.as_str().to_owned(),
                            match_start: #[verifier::truncate] (m.0 as u32),
                            match_end: #[verifier::truncate] (m.1 as u32),
                        };
                        let ghost pre = results@;
                        results.push(gm);
                        proof {
                            assert(found@[j as int] == regex_matches(re, gline)[j as int]);
                            assert(lhits[j as int] == GrepMatchModel {
                                page,
                                line_number,
                                text: gline,
                                match_start: (found@[j as int].0 as u32),
                                match_end: (found@[j as int].1 as u32),
                            });
                            assert(gm@ == lhits[j as int]);
                            assert(results@ == pre.push(gm));
                            assert(models(results@) =~= models(pre).push(gm@));
                            assert(lhits.take(j as int + 1) =~= lhits.take(j as int).push(
                                lhits[j as int],
                            ));
                            assert(models(results@) =~= base + lhits.take(j as int + 1));
                        }
                        j += 1;
                        if results.len() >= max_results {
                            proof {
                                let full = doc_hits(re, gdoc);
                                let cur = models(results@);
                                // the accumulated hits are a prefix of the
                                // document's hits, and exactly max_results
                                // of them have been collected
                                assert(lhits.take(j as int).is_prefix_of(lhits));
                                lemma_concat_prefix(
                                    text_hits_upto(re, page, glines, li as int),
                                    lhits.take(j as int),
                                    lhits,
                                );
                                assert(text_hits_upto(re, page, glines, li as int + 1)
                                    == text_hits_upto(re, page, glines, li as int) + line_hits(
                                    re,
                                    page,
                                    (li + 1) as u32,
                                    glines[li as int],
                                ));
                                assert(text_hits_upto(re, page, glines, li as int) + lhits
                                    == text_hits_upto(re, page, glines, li as int + 1));
                                lemma_text_hits_upto_prefix(
                                    re,
                                    page,
                                    glines,
                                    li as int + 1,
                                    glines.len() as int,
                                );
                                lemma_prefix_trans(
                                    text_hits_upto(re, page, glines, li as int) + lhits.take(
                                        j as int,
                                    ),
                                    text_hits_upto(re, page, glines, li as int + 1),
                                    text_hits(re, page, gtext),
                                );
                                lemma_concat_prefix(
                                    doc_hits_upto(re, gdoc, q as int),
                                    text_hits_upto(re, page, glines, li as int) + lhits.take(
                                        j as int,
                                    ),
                                    text_hits(re, page, gtext),
                                );
                                assert(doc_hits_upto(re, gdoc, q as int + 1) == doc_hits_upto(
                                    re,
                                    gdoc,
                                    q as int,
                                ) + page_hits(re, gdoc, page));
                                assert(page_hits(re, gdoc, page) == text_hits(re, page, gtext));
                                lemma_doc_hits_upto_prefix(re, gdoc, q as int + 1, total as int);
                                lemma_prefix_trans(
                                    cur,
                                    doc_hits_upto(re, gdoc, q as int + 1),
                                    full,
                                );
                                lemma_prefix_is_take(cur, full);
                                assert(cur.len() == max_results);
                                assert(cur =~= grep_result(full, max_results));
                            }
                            return results;
                        }
                    }
                    proof {
                        assert(lhits.take(found@.len() as int) =~= lhits);
                        assert(text_hits_upto(re, page, glines, li as int + 1) == text_hits_upto(
                            re,
                            page,
                            glines,
                            li as int,
                        ) + line_hits(re, page, (li + 1) as u32, glines[li as int]));
                        assert(models(results@) =~= doc_hits_upto(re, gdoc, q as int)
                            + text_hits_upto(re, page, glines, li as int + 1));
                    }
                    li += 1;
                }
                proof {
                    assert(text_hits_upto(re, page, glines, glines.len() as int) == text_hits(
                        re,
                        page,
                        gtext,
                    ));
                    assert(doc_hits_upto(re, gdoc, q as int + 1) == doc_hits_upto(
                        re,
                        gdoc,
                        q as int,
                    ) + page_hits(re, gdoc, page));
                    assert(page_hits(re, gdoc, page) == text_hits(re, page, gtext));
                    assert(models(results@) =~= doc_hits_upto(re, gdoc, q as int + 1));
                }
            },
        }
        q += 1;
    }
    proof {
        assert(models(results@) == doc_hits(re, gdoc));
        assert(models(results@) =~= grep_result(doc_hits(re, gdoc), max_results));
    }
    results
}

} // verus!
