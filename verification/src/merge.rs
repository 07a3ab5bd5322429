//! Which header and footer page is drawn over each body page when the final PDF is
//! composed, and the page count of a rendered PDF.
use vstd::prelude::*;

verus! {

/// The rendered parts of a document: the body PDF, optional header and footer PDFs,
/// and how their pages are chosen.
pub struct MergeInput {
    pub body: Vec<u8>,
    pub header: Option<Vec<u8>>,
    pub footer: Option<Vec<u8>>,
    pub is_header_dynamic: bool,
    pub is_footer_dynamic: bool,
    pub is_print_designer: bool,
}

pub open spec fn sat_dec(n: nat) -> nat {
    if n == 0 {
        0
    } else {
        (n - 1) as nat
    }
}

pub open spec fn min(a: nat, b: nat) -> nat {
    if a <= b {
        a
    } else {
        b
    }
}

/// The first/odd/even/last scheme: variant 0 for the first page, 3 for the last,
/// 2 for other even-indexed pages, 1 for odd ones, capped at the last variant.
pub open spec fn variant_index_spec(i: nat, n: nat, count: nat) -> nat {
    let idx: nat = if i == 0 {
        0
    } else if i == sat_dec(n) {
        3
    } else if i % 2 == 0 {
        2
    } else {
        1
    };
    min(idx, sat_dec(count))
}

/// The header page drawn over body page `i` of `n`, from `count` header pages.
pub open spec fn header_index_spec(i: nat, n: nat, dynamic: bool, pd: bool, count: nat) -> nat {
    if dynamic {
        min(i, sat_dec(count))
    } else if pd {
        variant_index_spec(i, n, count)
    } else {
        0
    }
}

/// The footer page drawn over body page `i` of `n`, from `count` footer pages.
pub open spec fn footer_index_spec(i: nat, n: nat, dynamic: bool, pd: bool, count: nat) -> nat {
    if dynamic && count > 1 {
        min(i, (count - 1) as nat)
    } else if pd {
        variant_index_spec(i, n, count)
    } else {
        0
    }
}

/// print_designer first/last/even/odd scheme: pages [0]=first, [3]=last, [2]=even, [1]=odd.
pub fn variant_index(i: usize, n: usize, count: usize) -> (r: usize)
    ensures
        r == variant_index_spec(i as nat, n as nat, count as nat),
{
    let idx: usize = if i == 0 {
        0
    } else if i == n.saturating_sub(1) {
        3
    } else if i % 2 == 0 {
        2
    } else {
        1
    };
    let cap = count.saturating_sub(1);
    if idx <= cap {
        idx
    } else {
        cap
    }
}

/// The header page for body page `i` of `n`: its own page when dynamic, the
/// first/odd/even/last variant for print designer, otherwise the first.
pub fn header_index(i: usize, n: usize, dynamic: bool, pd: bool, count: usize) -> (r: usize)
    ensures
        r == header_index_spec(i as nat, n as nat, dynamic, pd, count as nat),
{
    if dynamic {
        let cap = count.saturating_sub(1);
        if i <= cap {
            i
        } else {
            cap
        }
    } else if pd {
        variant_index(i, n, count)
    } else {
        0
    }
}

/// The footer page for body page `i` of `n`: its own page when dynamic with more than
/// one page, the first/odd/even/last variant for print designer, otherwise the first.
pub fn footer_index(i: usize, n: usize, dynamic: bool, pd: bool, count: usize) -> (r: usize)
    ensures
        r == footer_index_spec(i as nat, n as nat, dynamic, pd, count as nat),
{
    if dynamic && count > 1 {
        if i <= count - 1 {
            i
        } else {
            count - 1
        }
    } else if pd {
        variant_index(i, n, count)
    } else {
        0
    }
}

/// Every chosen header and footer page exists: where the overlay has pages, the index
/// is one of them.
pub proof fn lemma_overlay_index_in_range(i: nat, n: nat, dynamic: bool, pd: bool, count: nat)
    requires
        count > 0,
    ensures
        header_index_spec(i, n, dynamic, pd, count) < count,
        footer_index_spec(i, n, dynamic, pd, count) < count,
{
}

/// A dynamic header has a page rendered for each body page, and body page `i` gets
/// header page `i` (the last one once they run out), whether or not the format is a
/// print-designer one: the per-page header takes precedence over the
/// first/odd/even/last variants, and different body pages within the header's pages
/// get different header pages. The same holds of a dynamic footer with more than one
/// page.
pub proof fn lemma_dynamic_overlay_per_page(i: nat, j: nat, n: nat, pd: bool, count: nat)
    requires
        count > 0,
    ensures
        i < count ==> header_index_spec(i, n, true, pd, count) == i,
        i >= count ==> header_index_spec(i, n, true, pd, count) == count - 1,
        header_index_spec(i, n, true, true, count) == header_index_spec(i, n, true, false, count),
        i < j < count ==> header_index_spec(i, n, true, pd, count) != header_index_spec(j, n, true, pd, count),
        count > 1 && i < count ==> footer_index_spec(i, n, true, pd, count) == i,
        count > 1 && i >= count ==> footer_index_spec(i, n, true, pd, count) == count - 1,
        count > 1 ==> footer_index_spec(i, n, true, true, count) == footer_index_spec(i, n, true, false, count),
        count > 1 && i < j < count ==> footer_index_spec(i, n, true, pd, count) != footer_index_spec(j, n, true, pd, count),
{
}

/// Without a dynamic overlay, a print-designer format takes the first page's variant
/// for the first body page, the last variant for the last, and the odd and even
/// variants in between; every other format repeats the overlay's first page.
pub proof fn lemma_static_overlay_variants(i: nat, n: nat, count: nat)
    requires
        count >= 4,
        2 <= n,
        i < n,
    ensures
        i == 0 ==> header_index_spec(i, n, false, true, count) == 0,
        i == n - 1 ==> header_index_spec(i, n, false, true, count) == 3,
        0 < i < n - 1 && i % 2 == 1 ==> header_index_spec(i, n, false, true, count) == 1,
        0 < i < n - 1 && i % 2 == 0 ==> header_index_spec(i, n, false, true, count) == 2,
        header_index_spec(i, n, false, true, count) == footer_index_spec(i, n, false, true, count),
        header_index_spec(i, n, false, false, count) == 0,
        footer_index_spec(i, n, false, false, count) == 0,
{
}

/// For each body page of `n`, the header and footer page drawn over it (`None` where
/// there is no header or footer).
pub fn overlay_plan(
    n: usize,
    header_count: Option<usize>,
    footer_count: Option<usize>,
    input_header_dynamic: bool,
    input_footer_dynamic: bool,
    pd: bool,
) -> (r: Vec<(Option<usize>, Option<usize>)>)
    ensures
        r@.len() == n,
        forall|i: int|
            0 <= i < n ==> {
                &&& (#[trigger] r@[i]).0 == match header_count {
                    Some(c) => Some(header_index_spec(i as nat, n as nat, input_header_dynamic, pd, c as nat) as usize),
                    None => None::<usize>,
                }
                &&& r@[i].1 == match footer_count {
                    Some(c) => Some(footer_index_spec(i as nat, n as nat, input_footer_dynamic, pd, c as nat) as usize),
                    None => None::<usize>,
                }
            },
{
    let mut r: Vec<(Option<usize>, Option<usize>)> = Vec::new();
    for i in 0..n
        invariant
            r@.len() == i,
            forall|j: int|
                0 <= j < i ==> {
                    &&& (#[trigger] r@[j]).0 == match header_count {
                        Some(c) => Some(header_index_spec(j as nat, n as nat, input_header_dynamic, pd, c as nat) as usize),
                        None => None::<usize>,
                    }
                    &&& r@[j].1 == match footer_count {
                        Some(c) => Some(footer_index_spec(j as nat, n as nat, input_footer_dynamic, pd, c as nat) as usize),
                        None => None::<usize>,
                    }
                },
    {
        let h = match header_count {
            Some(c) => Some(header_index(i, n, input_header_dynamic, pd, c)),
            None => None,
        };
        let f = match footer_count {
            Some(c) => Some(footer_index(i, n, input_footer_dynamic, pd, c)),
            None => None,
        };
        r.push((h, f));
    }
    r
}

// ----- page count -----

#[verifier::external_type_specification]
#[verifier::external_body]
pub struct ExPdfError(lopdf::Error);

/// The number of pages of the PDF document `bytes`, or `None` where lopdf cannot
/// load it.
pub uninterp spec fn pdf_page_count(bytes: Seq<u8>) -> Option<nat>;

/// Load the PDF `bytes` with lopdf (`Document::load_mem`) and count its pages
/// (`get_pages().len()`). The contract names the count; whether the bytes load is
/// lopdf's to decide. lopdf is built without its `rayon` feature, so its reader
/// parses the objects one after another in cross-reference order and the same bytes
/// always give the same document.
#[verifier::external_body]
fn load_page_count(bytes: &[u8]) -> (r: Result<usize, lopdf::Error>)
    ensures
        match r {
            Ok(n) => pdf_page_count(bytes@) == Some(n as nat),
            Err(_) => pdf_page_count(bytes@) is None,
        },
{
    match lopdf::Document::load_mem(bytes) {
        Ok(doc) => Ok(doc.get_pages().len()),
        Err(e) => Err(e),
    }
}

/// lopdf's own description of a load error (its `Display`). Nothing is promised of
/// the text.
#[verifier::external_body]
fn pdf_error_text(e: &lopdf::Error) -> (r: String) {
    format!("{e}")
}

/// Why a rendered PDF could not be used.
#[derive(Debug)]
pub enum MergeError {
    /// The bytes are not a PDF that lopdf can load; lopdf's message.
    UnreadablePdf(String),
}

/// Number of pages in a PDF byte buffer.
pub fn page_count(bytes: &[u8]) -> (r: Result<usize, MergeError>)
    ensures
        match pdf_page_count(bytes@) {
            Some(n) => r matches Ok(c) && c == n,
            None => r matches Err(MergeError::UnreadablePdf(_)),
        },
{
    match load_page_count(bytes) {
        Ok(n) => Ok(n),
        Err(e) => Err(MergeError::UnreadablePdf(pdf_error_text(&e))),
    }
}

} // verus!
