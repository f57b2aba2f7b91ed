//! Spans of memory as the kernel takes them.
use vstd::prelude::*;
use super::powers::{down_to, law_rounding, up_to};

verus! {

/// Page size where the system reports none.
pub const DEFAULT_PAGE: usize = 4096;

/// The page size to use for what the system reports.
pub fn page_size(reported: i64) -> (n: usize)
    requires
        reported <= usize::MAX,
    ensures
        n == (if reported > 0 {
            reported as usize
        } else {
            DEFAULT_PAGE
        }),
        n > 0,
        reported <= 0 ==> n == 4096,
{
    if reported > 0 {
        reported as usize
    } else {
        DEFAULT_PAGE
    }
}

/// The end of a span: behind its last byte, or the greatest address.
pub open spec fn span_end(addr: usize, len: usize) -> int {
    if addr + len <= usize::MAX {
        addr + len
    } else {
        usize::MAX as int
    }
}

/// The whole pages that a span touches: where they start and how many bytes they
/// have. At the top of the address space the last page is cut off.
pub open spec fn pages_of(addr: usize, len: usize, page: usize) -> (int, int) {
    let start = down_to(addr as int, page as int);
    let end = span_end(addr, len);
    if end + page - 1 <= usize::MAX {
        (start, up_to(end, page as int) - start)
    } else {
        (start, end - start)
    }
}

/// The whole pages that a span touches. The kernel rejects spans that start inside a
/// page.
pub fn page_span(addr: usize, len: usize, page: usize) -> (r: (usize, usize))
    requires
        page > 0,
    ensures
        r.0 == pages_of(addr, len, page).0,
        r.1 == pages_of(addr, len, page).1,
{
    proof {
        law_rounding(addr as int, page as int);
        law_rounding(span_end(addr, len), page as int);
    }
    let start: usize = addr - addr % page;
    let end: usize = addr.saturating_add(len);
    match end.checked_add(page - 1) {
        Some(e) => (start, e - e % page - start),
        None => (start, end - start),
    }
}

/// The pages of a span start at a page and cover the span.
pub proof fn law_pages_cover_the_span(addr: usize, len: usize, page: usize)
    requires
        page > 0,
        addr + len <= usize::MAX,
    ensures
        ({
            let (start, span) = pages_of(addr, len, page);
            &&& start % page as int == 0
            &&& start <= addr
            &&& addr + len <= start + span
            &&& addr + len + page - 1 <= usize::MAX ==> span % page as int == 0 && start + span
                < addr + len + page
        }),
{
    law_rounding(addr as int, page as int);
    law_rounding(addr + len, page as int);
    let start = down_to(addr as int, page as int);
    let end = up_to(addr + len, page as int);
    vstd::arithmetic::div_mod::lemma_sub_mod_noop(end, start, page as int);
    vstd::arithmetic::div_mod::lemma_small_mod(0, page as nat);
}

/// The pages to fault in for a span; none for an empty one.
pub open spec fn populated_pages(addr: usize, len: usize, page: usize) -> Option<(int, int)> {
    if len == 0 || pages_of(addr, len, page).1 == 0 {
        None
    } else {
        Some(pages_of(addr, len, page))
    }
}

/// The pages to fault in for a span. An empty span has none, wherever it lies:
/// rounded out to pages it would bring in memory that nobody asked for.
pub fn populate_span(addr: usize, len: usize, page: usize) -> (r: Option<(usize, usize)>)
    requires
        page > 0,
    ensures
        match r {
            Some((start, span)) => populated_pages(addr, len, page) == Some(
                (start as int, span as int),
            ),
            None => populated_pages(addr, len, page) is None,
        },
{
    if len == 0 {
        return None;
    }
    let (start, span) = page_span(addr, len, page);
    if span == 0 {
        return None;
    }
    Some((start, span))
}

/// Whether a span is resident now, given what the kernel answered for its pages, if
/// it was asked. Zero stands for success.
pub fn populate_read(addr: usize, len: usize, page: usize, answer: Option<i32>) -> (b: bool)
    requires
        page > 0,
    ensures
        b == (populated_pages(addr, len, page) is Some && answer == Some(0i32)),
{
    match populate_span(addr, len, page) {
        None => false,
        Some(_) => match answer {
            Some(code) => code == 0,
            None => false,
        },
    }
}

/// The pages to spread over memory nodes, given how many nodes are online. One node
/// is no choice.
pub fn interleave_span(addr: usize, len: usize, page: usize, nodes: usize) -> (r: Option<
    (usize, usize),
>)
    requires
        page > 0,
    ensures
        match r {
            Some((start, span)) => {
                &&& nodes >= 2
                &&& span > 0
                &&& (start as int, span as int) == pages_of(addr, len, page)
            },
            None => nodes < 2 || pages_of(addr, len, page).1 == 0,
        },
{
    if nodes < 2 {
        return None;
    }
    let (start, span) = page_span(addr, len, page);
    if span == 0 {
        return None;
    }
    Some((start, span))
}

/// There is nothing to populate for an empty span; otherwise the pages of the
/// span are populated, from the page of the first byte on. A span that runs past
/// the end of memory is cut off there, and pages are not rounded past it.
pub proof fn law_populated_pages(addr: usize, len: usize, page: usize)
    requires
        page > 0,
    ensures
        len == 0 ==> populated_pages(addr, len, page) is None,
        populated_pages(addr, len, page) matches Some((start, span)) ==> {
            let end = if addr + len <= usize::MAX {
                addr + len
            } else {
                usize::MAX as int
            };
            &&& start == addr - addr as int % page as int
            &&& span > 0
            &&& end + page - 1 > usize::MAX ==> start + span == end
            &&& end + page - 1 <= usize::MAX ==> (start + span) % page as int == 0 && end <= start
                + span < end + page
        },
        len > 0 && addr + len + page - 1 <= usize::MAX ==> populated_pages(addr, len, page) is Some,
{
    let end = span_end(addr, len);
    law_rounding(addr as int, page as int);
    law_rounding(end, page as int);
}

} // verus!
