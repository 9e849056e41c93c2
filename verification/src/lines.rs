//! Line splitting for the page-oriented search.
//!
//! `spec_lines` states exactly how a page's text decomposes into lines:
//! lines end at `'\n'`, a `'\r'` directly before the `'\n'` is dropped, a
//! final segment without a line ending is a line of its own, and a final line
//! ending adds no empty last line.

use vstd::prelude::*;

verus! {

/// The length of the first line segment: the index of the first `'\n'`, or
/// the whole length when there is none.
pub open spec fn line_break(s: Seq<char>) -> nat
    decreases s.len(),
{
    if s.len() == 0 {
        0
    } else if s[0] == '\n' {
        0
    } else {
        1 + line_break(s.drop_first())
    }
}

/// A `'\r'` directly before a line ending is not part of the line.
pub open spec fn strip_cr(l: Seq<char>) -> Seq<char> {
    if l.len() > 0 && l.last() == '\r' {
        l.drop_last()
    } else {
        l
    }
}

/// The lines of a text, 0-indexed here; the search reports them 1-indexed.
pub open spec fn spec_lines(s: Seq<char>) -> Seq<Seq<char>>
    decreases s.len(),
{
    if s.len() == 0 {
        Seq::<Seq<char>>::empty()
    } else {
        let k = line_break(s);
        if k >= s.len() {
            seq![s]
        } else {
            seq![strip_cr(s.take(k as int))] + spec_lines(s.skip(k as int + 1))
        }
    }
}

/// Relies on `str::lines`: splits at `'\n'`, dropping a `'\r'` directly
/// before the `'\n'`; a final segment without a line ending is its own line,
/// and a final line ending adds no empty last line.
#[verifier::external_body]
pub(crate) fn split_lines(s: &str) -> (r: Vec<String>)
    ensures
        r@.map_values(|l: String| l@) == spec_lines(s@),
{
    let mut v = Vec::new();
    for line in s.lines() {
        v.push(line.to_string());
    }
    v
}

} // verus!
