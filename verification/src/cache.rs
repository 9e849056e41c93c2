//! The two-level cache core.
//!
//! `CachedPdf` is one immutable-after-load document with its lazily filled
//! page-to-text map; `PdfCache` maps canonical paths to such entries and owns
//! the staleness protocol: an entry is served only while its recorded
//! modification time equals the file's current one, and a changed file gets a
//! wholly new entry installed in its slot, never an edited one.
//!
//! Path canonicalization, stat and file reading are the caller's side of the
//! boundary: the cache takes the canonical path, the observed modification
//! time and, on a miss, the file's bytes, and decides everything else.

use std::collections::HashMap;
use std::sync::Arc;
use vstd::prelude::*;

use crate::doc::extract_text_from_doc_page;
use crate::doc::extraction_completes;
use crate::doc::extraction_of;
use crate::doc::page_count;
use crate::doc::page_count_of;
use crate::doc::parse_document;
use crate::doc::parse_of;
use crate::doc::parse_ok;
use crate::error::PdfError;
use crate::pathmap::path_map_entries;
use crate::pathmap::path_map_get;
use crate::pathmap::path_map_insert;
use crate::pathmap::path_map_new;

verus! {

broadcast use vstd::std_specs::hash::group_hash_axioms;

/// A cached document: the shared parsed document, the file's modification
/// time observed when it was loaded, and the per-page text cache.
pub struct CachedPdf {
    doc: Arc<lopdf::Document>,
    mtime: u128,
    text_cache: HashMap<u32, String>,
}

impl CachedPdf {
    /// The parsed document this entry shares.
    pub closed spec fn spec_doc(self) -> lopdf::Document {
        *self.doc
    }

    /// The modification time recorded when the document was loaded.
    pub closed spec fn spec_mtime(self) -> u128 {
        self.mtime
    }

    /// The page texts memoized so far.
    pub closed spec fn spec_texts(self) -> Map<u32, String> {
        self.text_cache@
    }

    /// Every memoized page text is exactly what extraction yields for that
    /// page of this entry's document.
    pub open spec fn wf(self) -> bool {
        forall|p: u32|
            self.spec_texts().contains_key(p) ==> extraction_of(self.spec_doc(), p) == Some(
                (#[trigger] self.spec_texts()[p])@,
            )
    }

    /// A reference to the shared parsed document.
    pub fn document(&self) -> (r: &Arc<lopdf::Document>)
        ensures
            **r == self.spec_doc(),
    {
        &self.doc
    }

    /// The document's total page count.
    pub fn total_pages(&self) -> (n: u32)
        ensures
            n == page_count_of(self.spec_doc()),
    {
        page_count(&self.doc)
    }

    /// Extracted text for a 1-indexed page, memoized: a page already in the
    /// text cache is served from it without touching the extractor, a miss is
    /// extracted once and recorded, and a page the extractor rejects leaves
    /// the entry unchanged. The extractor aborts rather than returns on some
    /// malformed pages, so an uncached page must be one it completes on.
    pub fn page_text(&mut self, page_num: u32) -> (r: Result<String, PdfError>)
        requires
            old(self).wf(),
            old(self).spec_texts().contains_key(page_num) || extraction_completes(
                old(self).spec_doc(),
                page_num,
            ),
        ensures
            final(self).wf(),
            final(self).spec_doc() == old(self).spec_doc(),
            final(self).spec_mtime() == old(self).spec_mtime(),
            old(self).spec_texts().submap_of(final(self).spec_texts()),
            match r {
                Ok(t) => {
                    &&& extraction_of(old(self).spec_doc(), page_num) == Some(t@)
                    &&& final(self).spec_texts() =~= old(self).spec_texts().insert(page_num, t)
                },
                Err(e) => {
                    &&& e == (PdfError::Extraction { page: page_num })
                    &&& extraction_of(old(self).spec_doc(), page_num) is None
                    &&& *final(self) == *old(self)
                },
            },
    {
        let cached = match self.text_cache.get(&page_num) {
            Some(t) => Some(t.clone()),
            None => None,
        };
        match cached {
            Some(t) => {
                proof {
                    assert(self.spec_texts().contains_key(page_num));
                    assert(t == self.spec_texts()[page_num]);
                    assert(self.spec_texts() =~= self.spec_texts().insert(page_num, t));
                }
                Ok(t)
            },
            None => {
                proof {
                    assert(!self.spec_texts().contains_key(page_num));
                    assert(extraction_completes(self.spec_doc(), page_num));
                }
                match extract_text_from_doc_page(&self.doc, page_num) {
                    Ok(text) => {
                        self.text_cache.insert(page_num, text.clone());
                        proof {
                            assert(self.spec_texts() == old(self).spec_texts().insert(
                                page_num,
                                text,
                            ));
                            assert forall|p: u32| self.spec_texts().contains_key(p) implies
                                extraction_of(self.spec_doc(), p) == Some(
                                (self.spec_texts()[p])@,
                            ) by {
                                if p != page_num {
                                    assert(old(self).spec_texts().contains_key(p));
                                    assert(self.spec_texts()[p] == old(self).spec_texts()[p]);
                                }
                            }
                        }
                        Ok(text)
                    },
                    Err(_) => Err(PdfError::Extraction { page: page_num }),
                }
            },
        }
    }
}

/// Parse an already-read byte buffer into a fresh cache entry with an empty
/// text cache, recording the given modification time. The entry's document
/// is the parse of exactly these bytes.
pub fn load_pdf(bytes: &[u8], mtime: u128) -> (r: Result<CachedPdf, PdfError>)
    ensures
        match r {
            Ok(e) => {
                &&& parse_ok(bytes@)
                &&& parse_of(bytes@) == Some(e.spec_doc())
                &&& e.wf()
                &&& e.spec_mtime() == mtime
                &&& forall|p: u32| !e.spec_texts().contains_key(p)
            },
            Err(e) => e == (PdfError::Parse) && !parse_ok(bytes@),
        },
{
    match parse_document(bytes) {
        Ok(d) => Ok(CachedPdf { doc: Arc::new(d), mtime, text_cache: HashMap::new() }),
        Err(_) => Err(PdfError::Parse),
    }
}

/// The path-keyed cache: a concurrent map from canonical path to the slot of
/// the entry loaded for that path, and the slots themselves. Entries are
/// never removed; a stale entry is replaced in place by a fresh one.
pub struct PdfCache {
    paths: papaya::HashMap<String, usize>,
    entries: Vec<CachedPdf>,
}

impl PdfCache {
    /// The association from canonical path to entry slot.
    pub closed spec fn path_index(self) -> Map<Seq<char>, usize> {
        path_map_entries(self.paths)
    }

    /// The entries, by slot.
    pub closed spec fn entries_seq(self) -> Seq<CachedPdf> {
        self.entries@
    }

    /// Every mapped slot is in bounds, distinct paths use distinct slots, and
    /// every entry is well formed.
    pub open spec fn wf(self) -> bool {
        &&& forall|p: Seq<char>|
            self.path_index().contains_key(p) ==> (#[trigger] self.path_index()[p])
                < self.entries_seq().len()
        &&& forall|p: Seq<char>, q: Seq<char>|
            #![trigger self.path_index()[p], self.path_index()[q]]
            self.path_index().contains_key(p) && self.path_index().contains_key(q) && p != q
                ==> self.path_index()[p] != self.path_index()[q]
        &&& forall|i: int|
            0 <= i < self.entries_seq().len() ==> (#[trigger] self.entries_seq()[i]).wf()
    }

    /// What a lookup returns: the slot cached for this canonical path, if its
    /// recorded modification time equals the current one.
    pub open spec fn spec_lookup(self, path: Seq<char>, mtime: u128) -> Option<usize> {
        if self.path_index().contains_key(path) && self.entries_seq()[self.path_index()[path] as int].spec_mtime()
            == mtime {
            Some(self.path_index()[path])
        } else {
            None
        }
    }

    /// An empty cache.
    pub fn new() -> (r: PdfCache)
        ensures
            r.wf(),
            forall|p: Seq<char>| !r.path_index().contains_key(p),
            r.entries_seq().len() == 0,
    {
        PdfCache { paths: path_map_new(), entries: Vec::new() }
    }

    /// The hot path: the slot cached under this canonical path, provided its
    /// recorded modification time still equals `current_mtime`. `None` means
    /// the path is unknown or its entry is stale; the caller then reads the
    /// file and calls `install`.
    pub fn get(&self, canonical: &String, current_mtime: u128) -> (r: Option<usize>)
        requires
            self.wf(),
        ensures
            r == self.spec_lookup(canonical@, current_mtime),
    {
        match path_map_get(&self.paths, canonical) {
            Some(i) => {
                let e = &self.entries[i];
                if e.mtime == current_mtime {
                    Some(i)
                } else {
                    None
                }
            },
            None => None,
        }
    }

    /// Parse the file's bytes and install the resulting fresh entry under the
    /// canonical path, replacing a stale entry in its slot or appending a new
    /// slot; every other path's entry is untouched. On a parse failure the
    /// cache is left exactly as it was.
    pub fn install(&mut self, canonical: &String, current_mtime: u128, bytes: &[u8]) -> (r: Result<
        usize,
        PdfError,
    >)
        requires
            old(self).wf(),
        ensures
            final(self).wf(),
            match r {
                Ok(i) => {
                    &&& parse_ok(bytes@)
                    &&& i < final(self).entries_seq().len()
                    &&& final(self).path_index() =~= old(self).path_index().insert(canonical@, i)
                    &&& final(self).spec_lookup(canonical@, current_mtime) == Some(i)
                    &&& parse_of(bytes@) == Some(
                        final(self).entries_seq()[i as int].spec_doc(),
                    )
                    &&& final(self).entries_seq()[i as int].spec_mtime() == current_mtime
                    &&& forall|p: u32|
                        !final(self).entries_seq()[i as int].spec_texts().contains_key(p)
                    &&& (old(self).path_index().contains_key(canonical@)
                        ==> i == old(self).path_index()[canonical@]
                        && final(self).entries_seq().len() == old(self).entries_seq().len())
                    &&& (!old(self).path_index().contains_key(canonical@)
                        ==> i == old(self).entries_seq().len()
                        && final(self).entries_seq().len() == old(self).entries_seq().len() + 1)
                    &&& forall|j: int|
                        0 <= j < old(self).entries_seq().len() && j != i
                            ==> final(self).entries_seq()[j]
                            == #[trigger] old(self).entries_seq()[j]
                },
                Err(e) => {
                    &&& e == (PdfError::Parse)
                    &&& !parse_ok(bytes@)
                    &&& *final(self) == *old(self)
                },
            },
    {
        let entry = match load_pdf(bytes, current_mtime) {
            Ok(e) => e,
            Err(e) => {
                return Err(e);
            },
        };
        match path_map_get(&self.paths, canonical) {
            Some(i) => {
                proof {
                    assert(self.path_index().contains_key(canonical@));
                    assert(self.path_index()[canonical@] == i);
                    assert(i < self.entries@.len());
                }
                let ghost before = self.entries@;
                let _stale = self.entries.remove(i);
                self.entries.insert(i, entry);
                proof {
                    assert(self.entries@ =~= before.update(i as int, self.entries@[i as int]));
                    assert(self.path_index() =~= old(self).path_index().insert(
                        canonical@,
                        i,
                    ));
                    assert forall|j: int|
                        0 <= j < self.entries_seq().len() implies (#[trigger] self.entries_seq()[j]).wf() by {
                        if j != i {
                            assert(self.entries_seq()[j] == old(self).entries_seq()[j]);
                        }
                    }
                }
                Ok(i)
            },
            None => {
                let i = self.entries.len();
                self.entries.push(entry);
                path_map_insert(&mut self.paths, canonical.clone(), i);
                proof {
                    assert forall|p: Seq<char>| self.path_index().contains_key(p) implies (
                    #[trigger] self.path_index()[p]) < self.entries_seq().len() by {
                        if p != canonical@ {
                            assert(old(self).path_index().contains_key(p));
                            assert(old(self).path_index()[p] < old(self).entries_seq().len());
                        }
                    }
                    assert forall|p: Seq<char>, q: Seq<char>|
                        self.path_index().contains_key(p) && self.path_index().contains_key(q) && p
                            != q implies #[trigger] self.path_index()[p]
                        != #[trigger] self.path_index()[q] by {
                        if p != canonical@ {
                            assert(old(self).path_index().contains_key(p));
                            assert(old(self).path_index()[p] < old(self).entries_seq().len());
                        }
                        if q != canonical@ {
                            assert(old(self).path_index().contains_key(q));
                            assert(old(self).path_index()[q] < old(self).entries_seq().len());
                        }
                    }
                    assert forall|j: int|
                        0 <= j < self.entries_seq().len() implies (#[trigger] self.entries_seq()[j]).wf() by {
                        if j != i {
                            assert(self.entries_seq()[j] == old(self).entries_seq()[j]);
                        }
                    }
                }
                Ok(i)
            },
        }
    }

    /// A reference to the shared parsed document of the entry in this slot.
    pub fn document_at(&self, i: usize) -> (r: &Arc<lopdf::Document>)
        requires
            i < self.entries_seq().len(),
        ensures
            **r == self.entries_seq()[i as int].spec_doc(),
    {
        let e = &self.entries[i];
        e.document()
    }

    /// Memoized page text of the entry in this slot; see
    /// [`CachedPdf::page_text`].
    pub fn page_text_at(&mut self, i: usize, page_num: u32) -> (r: Result<String, PdfError>)
        requires
            old(self).wf(),
            i < old(self).entries_seq().len(),
            old(self).entries_seq()[i as int].spec_texts().contains_key(page_num)
                || extraction_completes(
                old(self).entries_seq()[i as int].spec_doc(),
                page_num,
            ),
        ensures
            final(self).wf(),
            final(self).path_index() == old(self).path_index(),
            final(self).entries_seq().len() == old(self).entries_seq().len(),
            forall|j: int|
                0 <= j < old(self).entries_seq().len() && j != i ==> final(self).entries_seq()[j]
                    == #[trigger] old(self).entries_seq()[j],
            final(self).entries_seq()[i as int].spec_doc() == old(self).entries_seq()[i as int].spec_doc(),
            final(self).entries_seq()[i as int].spec_mtime() == old(self).entries_seq()[i as int].spec_mtime(),
            old(self).entries_seq()[i as int].spec_texts().submap_of(
                final(self).entries_seq()[i as int].spec_texts(),
            ),
            match r {
                Ok(t) => {
                    &&& extraction_of(old(self).entries_seq()[i as int].spec_doc(), page_num)
                        == Some(t@)
                    &&& final(self).entries_seq()[i as int].spec_texts()
                        =~= old(self).entries_seq()[i as int].spec_texts().insert(page_num, t)
                },
                Err(e) => {
                    &&& e == (PdfError::Extraction { page: page_num })
                    &&& extraction_of(old(self).entries_seq()[i as int].spec_doc(), page_num) is None
                    &&& final(self).entries_seq()[i as int] == old(self).entries_seq()[i as int]
                },
            },
    {
        let ghost before = self.entries@;
        let mut e = self.entries.remove(i);
        let r = e.page_text(page_num);
        self.entries.insert(i, e);
        proof {
            assert(self.path_index() == old(self).path_index());
            self.lemma_reinstall(before, i);
        }
        r
    }

    /// Bulk page extraction against the entry in this slot; see
    /// [`crate::text::extract_text_pages`].
    pub fn extract_pages_at(&mut self, i: usize, pages: &[u32]) -> (r: Result<
        Vec<crate::text::PageText>,
        PdfError,
    >)
        requires
            old(self).wf(),
            i < old(self).entries_seq().len(),
            forall|k: int|
                0 <= k < pages@.len() && crate::text::page_in_range(
                    pages@[k],
                    page_count_of(old(self).entries_seq()[i as int].spec_doc()),
                ) ==> extraction_completes(
                    old(self).entries_seq()[i as int].spec_doc(),
                    #[trigger] pages@[k],
                ),
        ensures
            final(self).wf(),
            final(self).path_index() == old(self).path_index(),
            final(self).entries_seq().len() == old(self).entries_seq().len(),
            forall|j: int|
                0 <= j < old(self).entries_seq().len() && j != i ==> final(self).entries_seq()[j]
                    == #[trigger] old(self).entries_seq()[j],
            final(self).entries_seq()[i as int].spec_doc() == old(self).entries_seq()[i as int].spec_doc(),
            final(self).entries_seq()[i as int].spec_mtime() == old(self).entries_seq()[i as int].spec_mtime(),
            old(self).entries_seq()[i as int].spec_texts().submap_of(
                final(self).entries_seq()[i as int].spec_texts(),
            ),
            match r {
                Ok(out) => {
                    &&& out@.len() == pages@.len()
                    &&& forall|k: int|
                        0 <= k < pages@.len() ==> crate::text::page_in_range(
                            #[trigger] pages@[k],
                            page_count_of(old(self).entries_seq()[i as int].spec_doc()),
                        )
                    &&& forall|k: int|
                        0 <= k < pages@.len() ==> (#[trigger] out@[k]).page == pages@[k]
                            && extraction_of(
                            old(self).entries_seq()[i as int].spec_doc(),
                            pages@[k],
                        ) == Some(out@[k].text@)
                },
                Err(PdfError::PageRange { page, total }) => {
                    &&& total == page_count_of(old(self).entries_seq()[i as int].spec_doc())
                    &&& !crate::text::page_in_range(page, total)
                    &&& exists|k: int| 0 <= k < pages@.len() && #[trigger] pages@[k] == page
                    &&& final(self).entries_seq()[i as int] == old(self).entries_seq()[i as int]
                },
                Err(PdfError::Extraction { page }) => {
                    &&& extraction_of(old(self).entries_seq()[i as int].spec_doc(), page) is None
                    &&& exists|k: int| 0 <= k < pages@.len() && #[trigger] pages@[k] == page
                },
                Err(_) => false,
            },
    {
        let ghost before = self.entries@;
        let mut e = self.entries.remove(i);
        let r = crate::text::extract_text_pages(&mut e, pages);
        self.entries.insert(i, e);
        proof {
            assert(self.path_index() == old(self).path_index());
            self.lemma_reinstall(before, i);
        }
        r
    }

    /// Pattern search against the entry in this slot; see
    /// [`crate::text::grep_pdf`].
    pub fn grep_at(&mut self, i: usize, pattern: &regex::Regex, max_results: usize) -> (r: Vec<
        crate::text::GrepMatch,
    >)
        requires
            old(self).wf(),
            i < old(self).entries_seq().len(),
            max_results >= 1,
            forall|p: u32|
                1 <= p <= page_count_of(old(self).entries_seq()[i as int].spec_doc())
                    ==> #[trigger] extraction_completes(
                    old(self).entries_seq()[i as int].spec_doc(),
                    p,
                ),
        ensures
            final(self).wf(),
            final(self).path_index() == old(self).path_index(),
            final(self).entries_seq().len() == old(self).entries_seq().len(),
            forall|j: int|
                0 <= j < old(self).entries_seq().len() && j != i ==> final(self).entries_seq()[j]
                    == #[trigger] old(self).entries_seq()[j],
            final(self).entries_seq()[i as int].spec_doc() == old(self).entries_seq()[i as int].spec_doc(),
            final(self).entries_seq()[i as int].spec_mtime() == old(self).entries_seq()[i as int].spec_mtime(),
            old(self).entries_seq()[i as int].spec_texts().submap_of(
                final(self).entries_seq()[i as int].spec_texts(),
            ),
            crate::text::models(r@) == crate::text::grep_result(
                crate::text::doc_hits(*pattern, old(self).entries_seq()[i as int].spec_doc()),
                max_results,
            ),
    {
        let ghost before = self.entries@;
        let mut e = self.entries.remove(i);
        let r = crate::text::grep_pdf(&mut e, pattern, max_results);
        self.entries.insert(i, e);
        proof {
            assert(self.path_index() == old(self).path_index());
            self.lemma_reinstall(before, i);
        }
        r
    }

    /// After taking the entry at `i` out and putting a well-formed entry
    /// back, the cache is well formed again and every other slot is as it
    /// was.
    proof fn lemma_reinstall(&self, before: Seq<CachedPdf>, i: usize)
        requires
            self.entries@.len() == before.len(),
            i < before.len(),
            self.entries@ == before.remove(i as int).insert(i as int, self.entries@[i as int]),
            forall|p: Seq<char>|
                self.path_index().contains_key(p) ==> (#[trigger] self.path_index()[p])
                    < before.len(),
            forall|p: Seq<char>, q: Seq<char>|
                #![trigger self.path_index()[p], self.path_index()[q]]
                self.path_index().contains_key(p) && self.path_index().contains_key(q) && p != q
                    ==> self.path_index()[p] != self.path_index()[q],
            forall|j: int| 0 <= j < before.len() && j != i ==> (#[trigger] before[j]).wf(),
            self.entries@[i as int].wf(),
        ensures
            self.wf(),
            forall|j: int|
                0 <= j < before.len() && j != i ==> self.entries_seq()[j] == #[trigger] before[j],
    {
        assert(self.entries@ =~= before.update(i as int, self.entries@[i as int]));
        assert forall|j: int|
            0 <= j < self.entries_seq().len() implies (#[trigger] self.entries_seq()[j]).wf() by {
            if j != i {
                assert(self.entries_seq()[j] == before[j]);
            }
        }
    }
}

/// For an unmodified file — same canonical path, same observed modification
/// time — every lookup serves the one stored slot, hence the very same shared
/// document, not merely equal content.
pub proof fn lemma_stable_reaccess(c: PdfCache, path: Seq<char>, mtime: u128, i: usize, j: usize)
    requires
        c.wf(),
        c.spec_lookup(path, mtime) == Some(i),
        c.spec_lookup(path, mtime) == Some(j),
    ensures
        i == j,
        c.entries_seq()[i as int].spec_doc() == c.entries_seq()[j as int].spec_doc(),
{
}

/// A changed modification time invalidates: the lookup that served the old
/// entry refuses once the time differs, so the caller must reload and
/// `install` a wholly new entry.
pub proof fn lemma_invalidation(c: PdfCache, path: Seq<char>, m_old: u128, m_new: u128)
    requires
        c.wf(),
        m_old != m_new,
        c.spec_lookup(path, m_old) is Some,
    ensures
        c.spec_lookup(path, m_new) is None,
{
}

/// One slot serves one canonical path: lookups of distinct canonical paths
/// never share an entry, whatever modification times they saw. Conversely,
/// every spelling of a path that canonicalizes to the same form shares the
/// one slot the cache keys by that form.
pub proof fn lemma_entry_per_path(
    c: PdfCache,
    p1: Seq<char>,
    p2: Seq<char>,
    m1: u128,
    m2: u128,
    i: usize,
)
    requires
        c.wf(),
        c.spec_lookup(p1, m1) == Some(i),
        c.spec_lookup(p2, m2) == Some(i),
    ensures
        p1 == p2,
{
    if p1 != p2 {
        assert(c.path_index()[p1] == i && c.path_index()[p2] == i);
    }
}

/// A memoized page text is exactly what extraction yields for that page, so
/// serving it from the text cache equals re-extracting it.
pub proof fn lemma_memoized_text_agrees(e: CachedPdf, page: u32)
    requires
        e.wf(),
        e.spec_texts().contains_key(page),
    ensures
        extraction_of(e.spec_doc(), page) == Some(e.spec_texts()[page]@),
{
}

} // verus!
