//! Sets of page numbers and their ascending listings.

use vstd::prelude::*;
use vstd::std_specs::btree::increasing_seq;
use vstd::std_specs::cmp::OrdSpec;

verus! {

/// The page numbers `start, start + 1, …, end - 1`.
pub open spec fn page_range(start: u32, end: u32) -> Set<u32> {
    Set::new(|page: u32| start <= page < end)
}

/// Each entry is smaller than every later one.
pub open spec fn strictly_increasing(list: Seq<u32>) -> bool {
    forall|i: int, j: int| 0 <= i < j < list.len() ==> list[i] < list[j]
}

/// `list` holds exactly the pages of `pages`, each once, smallest first.
pub open spec fn is_ascending_listing(pages: Set<u32>, list: Seq<u32>) -> bool {
    &&& strictly_increasing(list)
    &&& forall|page: u32| pages.contains(page) <==> list.contains(page)
}

/// The pages of `pages`, each once, smallest first.
///
/// Every set of page numbers has such a listing, and only one: see
/// [`lemma_ascending_lists`] and [`lemma_ascending_listing_unique`].
pub open spec fn ascending(pages: Set<u32>) -> Seq<u32> {
    choose|list: Seq<u32>| is_ascending_listing(pages, list)
}

/// A half-open range is finite and holds `end - start` pages.
pub proof fn lemma_page_range_len(start: u32, end: u32)
    requires
        start <= end,
    ensures
        page_range(start, end).finite(),
        page_range(start, end).len() == end - start,
    decreases end - start,
{
    if start == end {
        assert(page_range(start, end) =~= Set::<u32>::empty());
    } else {
        let shorter: u32 = (end - 1) as u32;
        lemma_page_range_len(start, shorter);
        assert(page_range(start, end) =~= page_range(start, shorter).insert(shorter));
    }
}

/// A set of pages has at most one ascending listing.
pub proof fn lemma_ascending_listing_unique(pages: Set<u32>, first: Seq<u32>, second: Seq<u32>)
    requires
        is_ascending_listing(pages, first),
        is_ascending_listing(pages, second),
    ensures
        first == second,
    decreases first.len(),
{
    if first.len() == 0 {
        if second.len() > 0 {
            assert(second.contains(second[0]));
            assert(first.contains(second[0]));
        }
        assert(first =~= second);
    } else {
        let top = first.last();
        assert(first.contains(top));
        assert(second.contains(top));
        assert(second.len() > 0);
        let other = second.last();
        assert(second.contains(other));
        assert(first.contains(other));
        assert(top == other);
        let rest = pages.remove(top);
        let a = first.drop_last();
        let b = second.drop_last();
        assert forall|page: u32| rest.contains(page) <==> a.contains(page) by {
            if rest.contains(page) {
                assert(first.contains(page));
                let i = choose|i: int| 0 <= i < first.len() && first[i] == page;
                assert(a[i] == page);
            }
            if a.contains(page) {
                let i = choose|i: int| 0 <= i < a.len() && a[i] == page;
                assert(first[i] == page);
                assert(first.contains(page));
            }
        }
        assert forall|page: u32| rest.contains(page) <==> b.contains(page) by {
            if rest.contains(page) {
                assert(second.contains(page));
                let i = choose|i: int| 0 <= i < second.len() && second[i] == page;
                assert(b[i] == page);
            }
            if b.contains(page) {
                let i = choose|i: int| 0 <= i < b.len() && b[i] == page;
                assert(second[i] == page);
                assert(second.contains(page));
            }
        }
        lemma_ascending_listing_unique(rest, a, b);
        assert(first =~= a.push(top));
        assert(second =~= b.push(other));
    }
}

/// Whatever is an ascending listing of a set is the one that [`ascending`] names.
pub proof fn lemma_ascending_is(pages: Set<u32>, list: Seq<u32>)
    requires
        is_ascending_listing(pages, list),
    ensures
        ascending(pages) == list,
{
    lemma_ascending_listing_unique(pages, ascending(pages), list);
}

/// The pages of `pages` that lie below `bound`.
spec fn below(pages: Set<u32>, bound: int) -> Set<u32> {
    Set::new(|page: u32| pages.contains(page) && page < bound)
}

/// The pages below a bound have an ascending listing, whatever the set.
proof fn lemma_listing_below(pages: Set<u32>, bound: int) -> (list: Seq<u32>)
    requires
        0 <= bound <= 0x1_0000_0000,
    ensures
        is_ascending_listing(below(pages, bound), list),
        forall|i: int| 0 <= i < list.len() ==> list[i] < bound,
    decreases bound,
{
    if bound == 0 {
        let list = Seq::<u32>::empty();
        assert forall|page: u32| below(pages, bound).contains(page) <==> list.contains(page) by {}
        list
    } else {
        let shorter = lemma_listing_below(pages, bound - 1);
        let top: u32 = (bound - 1) as u32;
        if pages.contains(top) {
            let list = shorter.push(top);
            assert forall|page: u32| below(pages, bound).contains(page) <==> list.contains(page) by {
                if below(pages, bound).contains(page) {
                    if page == top {
                        assert(list[shorter.len() as int] == page);
                    } else {
                        assert(below(pages, bound - 1).contains(page));
                        assert(shorter.contains(page));
                        let i = choose|i: int| 0 <= i < shorter.len() && shorter[i] == page;
                        assert(list[i] == page);
                    }
                }
                if list.contains(page) {
                    let i = choose|i: int| 0 <= i < list.len() && list[i] == page;
                    if i < shorter.len() {
                        assert(shorter[i] == page);
                        assert(shorter.contains(page));
                    }
                }
            }
            list
        } else {
            assert forall|page: u32| below(pages, bound).contains(page) <==> shorter.contains(page) by {
                if below(pages, bound).contains(page) {
                    assert(below(pages, bound - 1).contains(page));
                }
                if shorter.contains(page) {
                    assert(below(pages, bound - 1).contains(page));
                }
            }
            shorter
        }
    }
}

/// Every set of pages has an ascending listing, and [`ascending`] is it.
pub proof fn lemma_ascending_lists(pages: Set<u32>)
    ensures
        is_ascending_listing(pages, ascending(pages)),
{
    let list = lemma_listing_below(pages, 0x1_0000_0000);
    assert(below(pages, 0x1_0000_0000) =~= pages);
}

/// A walk that hands out the items of a set hands out each of them somewhere,
/// and nothing else.
pub(crate) proof fn lemma_walk_covers(order: Seq<&u32>, pages: Set<u32>)
    requires
        order.unref().to_set() == pages,
    ensures
        forall|page: u32| pages.contains(page) <==> exists|j: int| 0 <= j < order.len() && *order[j] == page,
{
    assert forall|page: u32| pages.contains(page) <==> exists|j: int|
        0 <= j < order.len() && *order[j] == page by {
        if pages.contains(page) {
            assert(order.unref().to_set().contains(page));
            let j = choose|j: int| 0 <= j < order.unref().len() && order.unref()[j] == page;
            assert(*order[j] == page);
        }
        if exists|j: int| 0 <= j < order.len() && *order[j] == page {
            let j = choose|j: int| 0 <= j < order.len() && *order[j] == page;
            assert(order.unref()[j] == page);
            assert(order.unref().contains(page));
        }
    }
}

/// The order in which a `BTreeSet<u32>` hands out its items is ascending.
pub(crate) proof fn lemma_walk_ascends(order: Seq<&u32>)
    requires
        increasing_seq(order),
    ensures
        strictly_increasing(order.unref()),
{
    lemma_references_ordered();
    assert forall|i: int, j: int| 0 <= i < j < order.len() implies *order[i] < *order[j] by {
        assert(OrdSpec::cmp_spec(&order[i], &order[j]) is Less);
    }
}

/// References to `u32` are ordered as the numbers they point to.
proof fn lemma_references_ordered()
    ensures
        vstd::laws_cmp::obeys_cmp::<&u32>(),
{
    broadcast use vstd::laws_eq::group_laws_eq;
    broadcast use vstd::laws_cmp::group_laws_cmp;

    reveal(vstd::laws_eq::obeys_eq_spec_properties);
    reveal(vstd::laws_cmp::obeys_partial_cmp_spec_properties);
    reveal(vstd::laws_cmp::obeys_cmp_partial_ord);
    reveal(vstd::laws_cmp::obeys_cmp_ord);
    assert(vstd::laws_cmp::obeys_cmp::<u32>());
}

} // verus!
