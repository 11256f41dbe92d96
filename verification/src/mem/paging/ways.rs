//! How many tables a hierarchy needs for a set of pages.

use vstd::prelude::*;
use crate::mem::paging::hierarchy::lemma_low_pages_regular;
use crate::mem::paging::mapper::{Mapper, IDENTITY_LIMIT};
use crate::mem::paging::Page;

verus! {

/// The part of a page's number that names one of the tables on the way to
/// the page: the number without its lowest `shift` bits, where `shift` is
/// 27 for the table of the third level, 18 for that of the second and 9
/// for the leaf table.
pub open spec fn way(n: u64, shift: u64) -> u64 {
    n >> shift
}

/// The tables of one level on the ways to the pages `pages`.
pub open spec fn ways(pages: Set<u64>, shift: u64) -> Set<u64> {
    Set::new(|v: u64| exists|n: u64| pages.contains(n) && #[trigger] way(n, shift) == v)
}

/// How many tables a hierarchy needs below its top-level table for the
/// pages `pages`: one for each table of the third level, of the second
/// level and of the leaf level that is on the way to one of the pages.
pub open spec fn tables_for(pages: Set<u64>) -> nat {
    ways(pages, 27).len() + ways(pages, 18).len() + ways(pages, 9).len()
}

/// In the hierarchy below `root` the tables that stand are those on the
/// ways to the pages `pages`: a page misses a table exactly where it
/// shares the table with none of them.
pub open spec fn ways_for(mapper: Mapper, root: u64, pages: Set<u64>) -> bool {
    forall|q: Page|
        q.regular() ==> {
            &&& (#[trigger] mapper.missing_from(root, q) <= 2) == exists|d: u64|
                pages.contains(d) && #[trigger] (Page { number: d }).shared(q) >= 1
            &&& (mapper.missing_from(root, q) <= 1) == exists|d: u64|
                pages.contains(d) && #[trigger] (Page { number: d }).shared(q) >= 2
            &&& (mapper.missing_from(root, q) == 0) == exists|d: u64|
                pages.contains(d) && #[trigger] (Page { number: d }).shared(q) >= 3
        }
}

/// Two pages of the lower half share a table of a level exactly where
/// their numbers agree but for the bits below that level.
pub proof fn lemma_shared_ways(a: u64, b: u64)
    requires
        a < IDENTITY_LIMIT,
        b < IDENTITY_LIMIT,
    ensures
        (way(a, 27) == way(b, 27)) == ((Page { number: a }).shared(Page { number: b }) >= 1),
        (way(a, 18) == way(b, 18)) == ((Page { number: a }).shared(Page { number: b }) >= 2),
        (way(a, 9) == way(b, 9)) == ((Page { number: a }).shared(Page { number: b }) >= 3),
{
    assert({
        &&& (a >> 27 == b >> 27) == ((a >> 27) & 0x1ff == (b >> 27) & 0x1ff)
        &&& (a >> 18 == b >> 18) == ((a >> 27) & 0x1ff == (b >> 27) & 0x1ff && (a >> 18) & 0x1ff
            == (b
            >> 18) & 0x1ff)
        &&& (a >> 9 == b >> 9) == ((a >> 27) & 0x1ff == (b >> 27) & 0x1ff && (a >> 18) & 0x1ff == (b
            >> 18) & 0x1ff && (a >> 9) & 0x1ff == (b >> 9) & 0x1ff)
    }) by (bit_vector)
        requires
            a < 0x8_0000_0000u64,
            b < 0x8_0000_0000u64,
    ;
}

/// One more page adds the table on its way to the tables of a level.
pub proof fn lemma_ways_insert(pages: Set<u64>, n: u64, shift: u64)
    ensures
        ways(pages.insert(n), shift) == ways(pages, shift).insert(way(n, shift)),
{
    let left = ways(pages.insert(n), shift);
    let right = ways(pages, shift).insert(way(n, shift));
    assert forall|v: u64| left.contains(v) == right.contains(v) by {
        if left.contains(v) {
            let d = choose|d: u64| pages.insert(n).contains(d) && #[trigger] way(d, shift) == v;
            if d != n {
                assert(pages.contains(d) && way(d, shift) == v);
            }
        }
        if right.contains(v) {
            if v == way(n, shift) {
                assert(pages.insert(n).contains(n) && way(n, shift) == v);
            } else {
                let d = choose|d: u64| pages.contains(d) && #[trigger] way(d, shift) == v;
                assert(pages.insert(n).contains(d) && way(d, shift) == v);
            }
        }
    }
    assert(left =~= right);
}

/// The tables of one level for finitely many pages are finitely many,
/// and no more than the pages.
pub proof fn lemma_ways_finite(pages: Set<u64>, shift: u64)
    requires
        pages.finite(),
    ensures
        ways(pages, shift).finite(),
        ways(pages, shift).len() <= pages.len(),
    decreases pages.len(),
{
    broadcast use vstd::set::group_set_axioms;

    if pages.len() == 0 {
        vstd::set_lib::lemma_set_empty_equivalency_len(pages);
        assert(ways(pages, shift) =~= Set::<u64>::empty());
    } else {
        let n = pages.choose();
        vstd::set_lib::lemma_set_empty_equivalency_len(pages);
        lemma_ways_finite(pages.remove(n), shift);
        lemma_ways_insert(pages.remove(n), n, shift);
        assert(pages.remove(n).insert(n) =~= pages);
    }
}

/// More pages have no fewer tables of a level on their ways.
pub proof fn lemma_ways_subset(fewer: Set<u64>, more: Set<u64>, shift: u64)
    requires
        more.finite(),
        fewer.subset_of(more),
    ensures
        ways(fewer, shift).len() <= ways(more, shift).len(),
{
    lemma_ways_finite(more, shift);
    assert forall|v: u64| ways(fewer, shift).contains(v) implies ways(more, shift).contains(v) by {
        let d = choose|d: u64| fewer.contains(d) && #[trigger] way(d, shift) == v;
        assert(more.contains(d) && way(d, shift) == v);
    }
    vstd::set_lib::lemma_len_subset(ways(fewer, shift), ways(more, shift));
}

/// More pages need no fewer tables.
pub proof fn lemma_tables_for_subset(fewer: Set<u64>, more: Set<u64>)
    requires
        more.finite(),
        fewer.subset_of(more),
    ensures
        tables_for(fewer) <= tables_for(more),
{
    lemma_ways_subset(fewer, more, 27);
    lemma_ways_subset(fewer, more, 18);
    lemma_ways_subset(fewer, more, 9);
}

/// A page shares a table of a level with one of some pages and one more
/// exactly where it shares it with one of the pages or with the one
/// more.
pub proof fn lemma_ways_made_level(pages: Set<u64>, n: u64, q: Page, level: nat)
    ensures
        (exists|d: u64| pages.insert(n).contains(d) && #[trigger] (Page { number: d }).shared(q)
            >= level)
            == ((exists|d: u64| pages.contains(d) && #[trigger] (Page { number: d }).shared(q)
                >= level)
            || (Page { number: n }).shared(q) >= level),
{
    if exists|d: u64| pages.insert(n).contains(d) && #[trigger] (Page { number: d }).shared(q)
        >= level {
        let d = choose|d: u64|
            pages.insert(n).contains(d) && #[trigger] (Page { number: d }).shared(q) >= level;
        if d != n {
            assert(pages.contains(d) && (Page { number: d }).shared(q) >= level);
        }
    }
    if exists|d: u64| pages.contains(d) && #[trigger] (Page { number: d }).shared(q) >= level {
        let d = choose|d: u64| pages.contains(d) && #[trigger] (Page { number: d }).shared(q)
            >= level;
        assert(pages.insert(n).contains(d) && (Page { number: d }).shared(q) >= level);
    }
    if (Page { number: n }).shared(q) >= level {
        assert(pages.insert(n).contains(n) && (Page { number: n }).shared(q) >= level);
    }
}

/// After the tables on the way to page `n` were made, the tables that
/// stand are those for one more page.
pub proof fn lemma_ways_made(pre: Mapper, post: Mapper, pages: Set<u64>, n: u64)
    requires
        ways_for(pre, pre.root(), pages),
        post.ways_made(pre, Page { number: n }),
    ensures
        ways_for(post, pre.root(), pages.insert(n)),
{
    let root = pre.root();
    let page = Page { number: n };
    assert forall|q: Page| q.regular() implies {
        &&& (#[trigger] post.missing_from(root, q) <= 2) == exists|d: u64|
            pages.insert(n).contains(d) && #[trigger] (Page { number: d }).shared(q) >= 1
        &&& (post.missing_from(root, q) <= 1) == exists|d: u64|
            pages.insert(n).contains(d) && #[trigger] (Page { number: d }).shared(q) >= 2
        &&& (post.missing_from(root, q) == 0) == exists|d: u64|
            pages.insert(n).contains(d) && #[trigger] (Page { number: d }).shared(q) >= 3
    } by {
        let before = pre.missing_from(root, q);
        let after = post.missing_from(root, q);
        assert(after == if before <= 3 - page.shared(q) {
            before
        } else {
            (3 - page.shared(q)) as nat
        });
        lemma_ways_made_level(pages, n, q, 1);
        lemma_ways_made_level(pages, n, q, 2);
        lemma_ways_made_level(pages, n, q, 3);
    }
}

/// One more page of the lower half needs as many more tables as it
/// misses in a hierarchy whose tables are those for the pages so far.
pub proof fn lemma_tables_for_insert(mapper: Mapper, root: u64, pages: Set<u64>, n: u64)
    requires
        pages.finite(),
        forall|d: u64| pages.contains(d) ==> d < IDENTITY_LIMIT,
        n < IDENTITY_LIMIT,
        ways_for(mapper, root, pages),
    ensures
        tables_for(pages.insert(n)) == tables_for(pages) + mapper.missing_from(
            root,
            Page { number: n },
        ),
{
    broadcast use vstd::set::group_set_axioms;

    let q = Page { number: n };
    lemma_low_pages_regular(n);
    let m = mapper.missing_from(root, q);
    lemma_ways_insert(pages, n, 27);
    lemma_ways_insert(pages, n, 18);
    lemma_ways_insert(pages, n, 9);
    lemma_ways_finite(pages, 27);
    lemma_ways_finite(pages, 18);
    lemma_ways_finite(pages, 9);
    assert(ways(pages, 27).contains(way(n, 27)) == (m <= 2)) by {
        if ways(pages, 27).contains(way(n, 27)) {
            let d = choose|d: u64| pages.contains(d) && #[trigger] way(d, 27) == way(n, 27);
            lemma_shared_ways(d, n);
            assert(pages.contains(d) && (Page { number: d }).shared(q) >= 1);
        }
        if m <= 2 {
            let d = choose|d: u64| pages.contains(d)
                && #[trigger] (Page { number: d }).shared(q) >= 1;
            lemma_shared_ways(d, n);
            assert(pages.contains(d) && way(d, 27) == way(n, 27));
        }
    }
    assert(ways(pages, 18).contains(way(n, 18)) == (m <= 1)) by {
        if ways(pages, 18).contains(way(n, 18)) {
            let d = choose|d: u64| pages.contains(d) && #[trigger] way(d, 18) == way(n, 18);
            lemma_shared_ways(d, n);
            assert(pages.contains(d) && (Page { number: d }).shared(q) >= 2);
        }
        if m <= 1 {
            let d = choose|d: u64| pages.contains(d)
                && #[trigger] (Page { number: d }).shared(q) >= 2;
            lemma_shared_ways(d, n);
            assert(pages.contains(d) && way(d, 18) == way(n, 18));
        }
    }
    assert(ways(pages, 9).contains(way(n, 9)) == (m == 0)) by {
        if ways(pages, 9).contains(way(n, 9)) {
            let d = choose|d: u64| pages.contains(d) && #[trigger] way(d, 9) == way(n, 9);
            lemma_shared_ways(d, n);
            assert(pages.contains(d) && (Page { number: d }).shared(q) >= 3);
        }
        if m == 0 {
            let d = choose|d: u64| pages.contains(d)
                && #[trigger] (Page { number: d }).shared(q) >= 3;
            lemma_shared_ways(d, n);
            assert(pages.contains(d) && way(d, 9) == way(n, 9));
        }
    }
}

} // verus!
