//! The planner: which pages must leave a copy of the source so that only a
//! request's pages stay, and what that leaves of the source's page listing.

use crate::pages::{
    ascending, is_ascending_listing, lemma_ascending_is, lemma_ascending_lists, lemma_walk_ascends,
    lemma_walk_covers, strictly_increasing,
};
use crate::request::{SliceRequest, SliceRequestView};
use std::collections::BTreeSet;
use vstd::prelude::*;
use vstd::std_specs::iter::IteratorSpec;

verus! {

/// The pages of `source` that are not in `kept`, smallest first.
pub fn ascending_difference(source: &BTreeSet<u32>, kept: &BTreeSet<u32>) -> (list: Vec<u32>)
    ensures
        is_ascending_listing(source@.difference(kept@), list@),
        list@ == ascending(source@.difference(kept@)),
{
    let mut list: Vec<u32> = Vec::new();
    let ghost order = source.iter().remaining();
    proof {
        lemma_walk_ascends(order);
    }
    for page in it: source.iter()
        invariant
            it.seq() == order,
            strictly_increasing(order.unref()),
            strictly_increasing(list@),
            forall|k: int, j: int|
                0 <= k < list.len() && it.index() <= j < order.len() ==> list[k] < *order[j],
            forall|p: u32|
                list@.contains(p) <==> !kept@.contains(p) && exists|j: int|
                    0 <= j < it.index() && *order[j] == p,
    {
        let ghost before = list@;
        let ghost at = it.index();
        assert(order.unref()[at] == *page);
        if !kept.contains(page) {
            list.push(*page);
        }
        proof {
            assert forall|k: int, j: int|
                0 <= k < list.len() && at + 1 <= j < order.len() implies list[k] < *order[j] by {
                if k == before.len() {
                    assert(order.unref()[at] < order.unref()[j]);
                }
            }
            assert forall|p: u32|
                list@.contains(p) <==> !kept@.contains(p) && exists|j: int|
                    0 <= j < at + 1 && *order[j] == p by {
                if list@.contains(p) {
                    let k = choose|k: int| 0 <= k < list.len() && list[k] == p;
                    if k < before.len() {
                        assert(before[k] == p);
                        assert(before.contains(p));
                        let j = choose|j: int| 0 <= j < at && *order[j] == p;
                        assert(0 <= j < at + 1 && *order[j] == p);
                    } else {
                        assert(0 <= at < at + 1 && *order[at] == p);
                    }
                }
                if !kept@.contains(p) && exists|j: int| 0 <= j < at + 1 && *order[j] == p {
                    let j = choose|j: int| 0 <= j < at + 1 && *order[j] == p;
                    if j == at {
                        assert(list[before.len() as int] == p);
                    } else {
                        assert(before.contains(p));
                        let k = choose|k: int| 0 <= k < before.len() && before[k] == p;
                        assert(list[k] == p);
                    }
                }
            }
        }
    }
    proof {
        let wanted = source@.difference(kept@);
        lemma_walk_covers(order, source@);
        assert forall|p: u32| wanted.contains(p) <==> list@.contains(p) by {}
        lemma_ascending_is(wanted, list@);
    }
    list
}

/// What is left of `listing` when the pages in `deletions` are taken out: the
/// other pages, in the order in which they stood.
pub open spec fn left_after(listing: Seq<u32>, deletions: Seq<u32>) -> Seq<u32> {
    listing.filter(|page: u32| !deletions.contains(page))
}

/// The deletions for a request that names `pages`, over a source that holds
/// `source`: the pages of the source outside the request, smallest first.
pub open spec fn deletions_for(source: Set<u32>, pages: Set<u32>) -> Seq<u32> {
    ascending(source.difference(pages))
}

/// What is left of the ascending listing of `source` when the deletions for
/// `pages` are taken out.
pub open spec fn pages_left(source: Set<u32>, pages: Set<u32>) -> Seq<u32> {
    left_after(ascending(source), deletions_for(source, pages))
}

/// Taking pages out of an ascending listing leaves an ascending listing of
/// the pages that were not taken out.
pub proof fn lemma_left_after_ascends(listing: Seq<u32>, deletions: Seq<u32>)
    requires
        strictly_increasing(listing),
    ensures
        strictly_increasing(left_after(listing, deletions)),
        forall|page: u32|
            left_after(listing, deletions).contains(page) <==> listing.contains(page)
                && !deletions.contains(page),
    decreases listing.len(),
{
    reveal(Seq::filter);
    let stays = |page: u32| !deletions.contains(page);
    let left = left_after(listing, deletions);
    if listing.len() == 0 {
        assert forall|page: u32| left.contains(page) <==> listing.contains(page) && stays(page) by {}
    } else {
        let shorter = listing.drop_last();
        let top = listing.last();
        lemma_left_after_ascends(shorter, deletions);
        let before = left_after(shorter, deletions);
        assert forall|i: int| 0 <= i < before.len() implies before[i] < top by {
            assert(before.contains(before[i]));
            assert(shorter.contains(before[i]));
            let k = choose|k: int| 0 <= k < shorter.len() && shorter[k] == before[i];
            assert(listing[k] == before[i]);
        }
        assert forall|page: u32| left.contains(page) <==> listing.contains(page) && stays(page) by {
            if left.contains(page) {
                let i = choose|i: int| 0 <= i < left.len() && left[i] == page;
                if i < before.len() {
                    assert(before[i] == page);
                    assert(before.contains(page));
                    let k = choose|k: int| 0 <= k < shorter.len() && shorter[k] == page;
                    assert(listing[k] == page);
                } else {
                    assert(page == top);
                    assert(listing[listing.len() - 1] == page);
                }
            }
            if listing.contains(page) && stays(page) {
                let k = choose|k: int| 0 <= k < listing.len() && listing[k] == page;
                if k < shorter.len() {
                    assert(shorter[k] == page);
                    assert(shorter.contains(page));
                    assert(before.contains(page));
                    let i = choose|i: int| 0 <= i < before.len() && before[i] == page;
                    assert(left[i] == page);
                } else {
                    assert(left[before.len() as int] == page);
                }
            }
        }
    }
}

/// Of a page listing: taking out a request's deletions leaves the request's
/// pages.
///
/// Let `source` be a set of page numbers and `pages` those that a request
/// names. Taking the pages of `source` outside `pages` out of the ascending
/// listing of `source` leaves the ascending listing of the pages of `source`
/// that are in `pages`; where all of `pages` are in `source`, that is the
/// ascending listing of `pages`. This speaks of listings of page numbers, not
/// of what a document holds once its pages have been deleted.
pub proof fn lemma_deletions_leave_request(source: Set<u32>, pages: Set<u32>)
    ensures
        pages_left(source, pages) == ascending(source.intersect(pages)),
        pages.subset_of(source) ==> pages_left(source, pages) == ascending(pages),
{
    let listing = ascending(source);
    let deletions = deletions_for(source, pages);
    lemma_ascending_lists(source);
    lemma_ascending_lists(source.difference(pages));
    lemma_left_after_ascends(listing, deletions);
    lemma_ascending_is(source.intersect(pages), left_after(listing, deletions));
    if pages.subset_of(source) {
        assert(source.intersect(pages) =~= pages);
    }
}

/// Of a page listing: a request that names every page of the source has no
/// deletions.
///
/// Where every page of `source` is in `pages`, the list of deletions is
/// empty, and the listing of `source` is left as it is, in length and in
/// order.
pub proof fn lemma_whole_source_stays(source: Set<u32>, pages: Set<u32>)
    requires
        source.subset_of(pages),
    ensures
        deletions_for(source, pages) == Seq::<u32>::empty(),
        pages_left(source, pages) == ascending(source),
{
    let deletions = deletions_for(source, pages);
    lemma_ascending_lists(source.difference(pages));
    if deletions.len() > 0 {
        assert(deletions.contains(deletions[0]));
    }
    assert(deletions =~= Seq::<u32>::empty());
    lemma_deletions_leave_request(source, pages);
    assert(source.intersect(pages) =~= source);
}

/// Two requests for the same range have the same deletions, whatever they
/// are called: the list depends on the source's pages and on the range alone.
/// So a request that is planned twice is planned the same way twice.
pub proof fn lemma_same_range_same_deletions(source: Set<u32>, first: SliceRequestView, second: SliceRequestView)
    requires
        first.valid(),
        second.valid(),
        first.start_page == second.start_page,
        first.end_page == second.end_page,
    ensures
        deletions_for(source, first.pages) == deletions_for(source, second.pages),
        pages_left(source, first.pages) == pages_left(source, second.pages),
{
    assert(first.pages =~= second.pages);
}

/// The page numbers that the source document held when it was loaded. They
/// are taken once and serve every request.
pub struct SourcePages {
    pages: BTreeSet<u32>,
}

impl View for SourcePages {
    type V = Set<u32>;

    closed spec fn view(&self) -> Set<u32> {
        self.pages@
    }
}

impl SourcePages {
    /// Takes the page numbers of a source.
    pub fn new(pages: BTreeSet<u32>) -> (source: SourcePages)
        ensures
            source@ == pages@,
    {
        SourcePages { pages }
    }

    /// The page numbers of the source.
    pub fn pages(&self) -> (pages: &BTreeSet<u32>)
        ensures
            pages@ == self@,
    {
        &self.pages
    }

    /// The pages to delete from a copy of the source so that only the
    /// request's pages stay: every page of the source outside the request,
    /// each once, smallest first. Pages that the request names and the source
    /// does not hold play no part.
    ///
    /// Taking these pages out of the source's listing leaves the pages that
    /// the source and the request share, in the order of the source: all of
    /// the request's where the source holds them all, and the whole listing,
    /// with nothing to delete, where the request names every page of the
    /// source.
    pub fn required_deletions(&self, request: &SliceRequest) -> (deletions: Vec<u32>)
        ensures
            deletions@ == deletions_for(self@, request@.pages),
            is_ascending_listing(self@.difference(request@.pages), deletions@),
            left_after(ascending(self@), deletions@) == ascending(self@.intersect(request@.pages)),
            request@.pages.subset_of(self@) ==> left_after(ascending(self@), deletions@) == ascending(
                request@.pages,
            ),
            self@.subset_of(request@.pages) ==> deletions@.len() == 0 && left_after(
                ascending(self@),
                deletions@,
            ) == ascending(self@),
    {
        proof {
            lemma_deletions_leave_request(self@, request@.pages);
            if self@.subset_of(request@.pages) {
                lemma_whole_source_stays(self@, request@.pages);
            }
        }
        ascending_difference(&self.pages, request.pages())
    }
}

} // verus!
