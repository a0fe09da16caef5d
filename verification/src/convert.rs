//! The whole conversion, from page text to a Fountain document, and the page-range syntax.

use vstd::prelude::*;
use crate::calibrate::{calibrate_layout, calibrated};
use crate::fountain::{format_fountain, fountain_of, lemma_fountain_empty, title_view};
use crate::fsm::{block_views, parse_screenplay, screenplay};
use crate::geom::PageData;
use crate::text::{
    CharClass, chars_of, parse_unsigned, parse_unsigned_spec, split_char, split_on, trim,
    trim_class, views_of,
};

verus! {

/// The pages whose number lies in the range, in order; all of them when there is no range.
pub open spec fn in_range(pages: Seq<PageData>, range: Option<(usize, usize)>) -> Seq<PageData>
    decreases pages.len(),
{
    if pages.len() == 0 {
        Seq::empty()
    } else {
        let prev = in_range(pages.drop_last(), range);
        let p = pages.last();
        match range {
            Some((a, b)) => if a <= p.page_number && p.page_number <= b {
                prev.push(p)
            } else {
                prev
            },
            None => prev.push(p),
        }
    }
}

/// The Fountain document of the pages in the range: their margins learned, their lines read
/// as screenplay elements, and these rendered.
pub open spec fn fountain_document(pages: Seq<PageData>, range: Option<(usize, usize)>) -> Seq<char> {
    let kept = in_range(pages, range);
    let (title, blocks) = screenplay(kept, calibrated(kept));
    fountain_of(title, blocks)
}

/// Converts the pages in the range (all of them when there is none) into a Fountain
/// document.
pub fn pages_to_fountain(pages: Vec<PageData>, range: Option<(usize, usize)>) -> (r: String)
    ensures
        r@ == fountain_document(pages@, range),
{
    let ghost orig = pages@;
    assert(orig.len() == pages.len());
    let mut rest = pages;
    let mut kept: Vec<PageData> = Vec::new();
    let mut i: usize = 0;
    while rest.len() > 0
        invariant
            0 <= i <= orig.len(),
            orig.len() <= usize::MAX,
            rest@ == orig.skip(i as int),
            kept@ == in_range(orig.take(i as int), range),
        decreases rest.len(),
    {
        assert(rest@.len() == orig.len() - i);
        let p = rest.remove(0);
        assert(p == orig[i as int]);
        assert(orig.take(i + 1).drop_last() =~= orig.take(i as int));
        let keep = match range {
            Some((a, b)) => a <= p.page_number && p.page_number <= b,
            None => true,
        };
        if keep {
            kept.push(p);
        }
        i = i + 1;
        assert(rest@ =~= orig.skip(i as int));
    }
    assert(orig.take(i as int) =~= orig);
    let profile = calibrate_layout(&kept);
    let (title, blocks) = parse_screenplay(&kept, &profile);
    match &title {
        Some(t) => format_fountain(Some(t), &blocks),
        None => format_fountain(None, &blocks),
    }
}

/// A number of pages written in a range: digits, as `usize`, around which white space is
/// ignored.
pub open spec fn page_count(s: Seq<char>) -> Option<nat> {
    parse_unsigned_spec(trim(s, CharClass::Space), 10, usize::MAX as nat)
}

/// The pages that a range such as `5`, `1-10`, `2-` or `-3` selects: one page, or a first
/// and last page where a missing first page is 1 and a missing last page is the largest.
pub open spec fn page_range(s: Seq<char>) -> Option<(usize, usize)> {
    let parts = split_on(s, '-');
    if parts.len() == 1 {
        match page_count(parts[0]) {
            Some(n) => Some((n as usize, n as usize)),
            None => None,
        }
    } else if parts.len() == 2 {
        let start = if trim(parts[0], CharClass::Space).len() == 0 {
            Some(1nat)
        } else {
            page_count(parts[0])
        };
        let end = if trim(parts[1], CharClass::Space).len() == 0 {
            Some(usize::MAX as nat)
        } else {
            page_count(parts[1])
        };
        match (start, end) {
            (Some(a), Some(b)) => Some((a as usize, b as usize)),
            _ => None,
        }
    } else {
        None
    }
}

fn page_count_chars(s: &[char]) -> (r: Option<usize>)
    ensures
        match page_count(s@) {
            Some(n) => r == Some(n as usize),
            None => r is None,
        },
{
    let t = trim_class(s, CharClass::Space);
    match parse_unsigned(&t, 10, usize::MAX as u64) {
        Some(v) => Some(v as usize),
        None => None,
    }
}

/// Reads a page range such as `5`, `1-10`, `2-` or `-3`.
pub fn parse_page_range(s: &str) -> (r: Option<(usize, usize)>)
    ensures
        r == page_range(s@),
{
    let parts = split_char(&chars_of(s), '-');
    let ghost pv = views_of(parts@);
    if parts.len() == 1 {
        assert(pv[0] == parts@[0]@);
        match page_count_chars(&parts[0]) {
            Some(n) => Some((n, n)),
            None => None,
        }
    } else if parts.len() == 2 {
        assert(pv[0] == parts@[0]@ && pv[1] == parts@[1]@);
        let start = if trim_class(&parts[0], CharClass::Space).len() == 0 {
            Some(1usize)
        } else {
            page_count_chars(&parts[0])
        };
        let end = if trim_class(&parts[1], CharClass::Space).len() == 0 {
            Some(usize::MAX)
        } else {
            page_count_chars(&parts[1])
        };
        match (start, end) {
            (Some(a), Some(b)) => Some((a, b)),
            _ => None,
        }
    } else {
        None
    }
}


/// Law: without a range, every page is converted.
pub proof fn lemma_no_range_keeps_all(pages: Seq<PageData>)
    ensures
        in_range(pages, None) == pages,
    decreases pages.len(),
{
    if pages.len() > 0 {
        lemma_no_range_keeps_all(pages.drop_last());
        assert(pages.drop_last().push(pages.last()) =~= pages);
    }
}

/// Law: the pages kept for a range are those whose number lies in it, in their order.
pub proof fn lemma_range_keeps_numbers(pages: Seq<PageData>, a: usize, b: usize)
    ensures
        forall|i: int|
            0 <= i < in_range(pages, Some((a, b))).len() ==> a <= (#[trigger] in_range(
                pages,
                Some((a, b)),
            )[i]).page_number <= b,
        in_range(pages, Some((a, b))).len() <= pages.len(),
    decreases pages.len(),
{
    if pages.len() > 0 {
        lemma_range_keeps_numbers(pages.drop_last(), a, b);
    }
}


/// Law: the range from page 1 to the last possible page converts the same document as no
/// range, when every page is numbered from 1.
pub proof fn lemma_full_range(pages: Seq<PageData>)
    requires
        forall|i: int| 0 <= i < pages.len() ==> (#[trigger] pages[i]).page_number >= 1,
    ensures
        in_range(pages, Some((1usize, usize::MAX))) == in_range(pages, None),
        fountain_document(pages, Some((1usize, usize::MAX))) == fountain_document(pages, None),
    decreases pages.len(),
{
    if pages.len() > 0 {
        assert forall|i: int| 0 <= i < pages.drop_last().len() implies (
        #[trigger] pages.drop_last()[i]).page_number >= 1 by {
            assert(pages.drop_last()[i] == pages[i]);
        }
        lemma_full_range(pages.drop_last());
        assert(pages[pages.len() - 1].page_number >= 1);
    }
}

/// Law: a range that ends before it starts converts no page, and gives the empty document.
pub proof fn lemma_empty_range(pages: Seq<PageData>, a: usize, b: usize)
    requires
        a > b,
    ensures
        in_range(pages, Some((a, b))).len() == 0,
        fountain_document(pages, Some((a, b))).len() == 0,
    decreases pages.len(),
{
    if pages.len() > 0 {
        lemma_empty_range(pages.drop_last(), a, b);
    }
    let kept = in_range(pages, Some((a, b)));
    assert(kept =~= Seq::<PageData>::empty());
    lemma_fountain_empty(None, screenplay(kept, calibrated(kept)).1);
}

} // verus!
