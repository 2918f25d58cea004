//! The validated requests of one run, in the order of their rows.

use crate::pages::{lemma_walk_covers, page_range};
use crate::request::{FromRawError, RawSliceRequest, SliceRequest, SliceRequestView};
use std::collections::BTreeSet;
use std::slice::Iter;
use vstd::prelude::*;
use vstd::std_specs::iter::IteratorSpec;

verus! {

/// The pages that at least one of the requests keeps.
pub open spec fn required_pages_of(requests: Seq<SliceRequestView>) -> Set<u32> {
    Set::new(|page: u32| exists|i: int| 0 <= i < requests.len() && requests[i].pages.contains(page))
}

/// What each of the requests asks for, in their order.
pub open spec fn views_of(requests: Seq<SliceRequest>) -> Seq<SliceRequestView> {
    Seq::new(requests.len(), |i: int| requests[i]@)
}

/// The required pages of one request are its own pages.
pub proof fn lemma_required_pages_single(request: SliceRequestView)
    ensures
        required_pages_of(seq![request]) == request.pages,
{
    let single = seq![request];
    assert forall|page: u32| required_pages_of(single).contains(page) <==> request.pages.contains(page) by {
        if request.pages.contains(page) {
            assert(single[0].pages.contains(page));
        }
    }
    assert(required_pages_of(single) =~= request.pages);
}

/// The required pages of two runs of requests, one after the other, are the
/// union of what each run requires.
pub proof fn lemma_required_pages_union(first: Seq<SliceRequestView>, second: Seq<SliceRequestView>)
    ensures
        required_pages_of(first + second) == required_pages_of(first).union(required_pages_of(second)),
{
    let both = first + second;
    assert forall|page: u32|
        required_pages_of(both).contains(page) <==> required_pages_of(first).contains(page)
            || required_pages_of(second).contains(page) by {
        if required_pages_of(both).contains(page) {
            let i = choose|i: int| 0 <= i < both.len() && both[i].pages.contains(page);
            if i < first.len() {
                assert(first[i].pages.contains(page));
            } else {
                assert(second[i - first.len()].pages.contains(page));
            }
        }
        if required_pages_of(first).contains(page) {
            let i = choose|i: int| 0 <= i < first.len() && first[i].pages.contains(page);
            assert(both[i].pages.contains(page));
        }
        if required_pages_of(second).contains(page) {
            let i = choose|i: int| 0 <= i < second.len() && second[i].pages.contains(page);
            assert(both[first.len() + i].pages.contains(page));
        }
    }
    assert(required_pages_of(both) =~= required_pages_of(first).union(required_pages_of(second)));
}

/// The required pages depend on which requests there are, not on their order
/// nor on how often one occurs.
pub proof fn lemma_required_pages_same_requests(first: Seq<SliceRequestView>, second: Seq<SliceRequestView>)
    requires
        forall|request: SliceRequestView| first.contains(request) <==> second.contains(request),
    ensures
        required_pages_of(first) == required_pages_of(second),
{
    assert forall|page: u32|
        required_pages_of(first).contains(page) <==> required_pages_of(second).contains(page) by {
        if required_pages_of(first).contains(page) {
            let i = choose|i: int| 0 <= i < first.len() && first[i].pages.contains(page);
            assert(first.contains(first[i]));
            let j = choose|j: int| 0 <= j < second.len() && second[j] == first[i];
            assert(second[j].pages.contains(page));
        }
        if required_pages_of(second).contains(page) {
            let i = choose|i: int| 0 <= i < second.len() && second[i].pages.contains(page);
            assert(second.contains(second[i]));
            let j = choose|j: int| 0 <= j < first.len() && first[j] == second[i];
            assert(first[j].pages.contains(page));
        }
    }
    assert(required_pages_of(first) =~= required_pages_of(second));
}

/// What a collection holds.
pub ghost struct SliceRequestsView {
    pub individuals: Seq<SliceRequestView>,
    pub required_pages: Set<u32>,
}

impl SliceRequestsView {
    /// Every request is valid, and `required_pages` is the union of their pages.
    pub open spec fn valid(self) -> bool {
        &&& forall|i: int| 0 <= i < self.individuals.len() ==> (#[trigger] self.individuals[i]).valid()
        &&& self.required_pages == required_pages_of(self.individuals)
    }
}

/// Validated requests in the order of their rows, with the union of their pages.
pub struct SliceRequests {
    individuals: Vec<SliceRequest>,
    required_pages: BTreeSet<u32>,
}

impl View for SliceRequests {
    type V = SliceRequestsView;

    closed spec fn view(&self) -> SliceRequestsView {
        SliceRequestsView {
            individuals: views_of(self.individuals@),
            required_pages: self.required_pages@,
        }
    }
}

impl SliceRequests {
    /// Every collection is valid: it is built once and never changed.
    #[verifier::type_invariant]
    pub open spec fn inv(&self) -> bool {
        self@.valid()
    }

    /// Gathers the requests, keeping their order, and works out the union of
    /// their pages.
    pub fn new(individuals: Vec<SliceRequest>) -> (collection: SliceRequests)
        ensures
            collection@.individuals == views_of(individuals@),
            collection@.required_pages == required_pages_of(views_of(individuals@)),
            collection@.valid(),
    {
        let mut required_pages: BTreeSet<u32> = BTreeSet::new();
        let ghost requests = views_of(individuals@);
        let mut done: usize = 0;
        while done < individuals.len()
            invariant
                done <= individuals.len(),
                requests == views_of(individuals@),
                forall|i: int| 0 <= i < done ==> (#[trigger] requests[i]).valid(),
                required_pages@ == required_pages_of(requests.take(done as int)),
            decreases individuals.len() - done,
        {
            let slice_request = &individuals[done];
            proof {
                use_type_invariant(slice_request);
            }
            let start_page = slice_request.start_page();
            let end_page = slice_request.end_page();
            let ghost before = required_pages@;
            let mut page: u32 = start_page;
            while page < end_page
                invariant
                    start_page <= page <= end_page,
                    required_pages@ == before.union(page_range(start_page, page)),
                decreases end_page - page,
            {
                required_pages.insert(page);
                page = page + 1;
            }
            proof {
                let shorter = requests.take(done as int);
                let longer = requests.take(done + 1);
                assert(longer[done as int] == requests[done as int]);
                assert forall|p: u32| required_pages@.contains(p) <==> required_pages_of(longer).contains(p) by {
                    if before.contains(p) {
                        let i = choose|i: int| 0 <= i < shorter.len() && shorter[i].pages.contains(p);
                        assert(longer[i].pages.contains(p));
                    }
                    if required_pages_of(longer).contains(p) {
                        let i = choose|i: int| 0 <= i < longer.len() && longer[i].pages.contains(p);
                        if i < done {
                            assert(shorter[i].pages.contains(p));
                        }
                    }
                }
                assert(required_pages@ =~= required_pages_of(longer));
            }
            done = done + 1;
        }
        proof {
            assert(requests.take(done as int) =~= requests);
        }
        SliceRequests { individuals, required_pages }
    }

    /// The pages of `all_pages` that no request keeps.
    pub fn unnecessary_pages(&self, all_pages: &BTreeSet<u32>) -> (unnecessary: BTreeSet<u32>)
        ensures
            unnecessary@ == all_pages@.difference(self@.required_pages),
    {
        let mut unnecessary: BTreeSet<u32> = BTreeSet::new();
        let ghost order = all_pages.iter().remaining();
        for page in it: all_pages.iter()
            invariant
                it.seq() == order,
                forall|p: u32|
                    unnecessary@.contains(p) <==> !self.required_pages@.contains(p) && exists|j: int|
                        0 <= j < it.index() && *order[j] == p,
        {
            let ghost at = it.index();
            let ghost before = unnecessary@;
            if !self.required_pages.contains(page) {
                unnecessary.insert(*page);
            }
            proof {
                assert forall|p: u32|
                    unnecessary@.contains(p) <==> !self.required_pages@.contains(p) && exists|j: int|
                        0 <= j < at + 1 && *order[j] == p by {
                    if before.contains(p) {
                        let j = choose|j: int| 0 <= j < at && *order[j] == p;
                        assert(0 <= j < at + 1 && *order[j] == p);
                    }
                    if p == *page {
                        assert(0 <= at < at + 1 && *order[at] == p);
                    }
                }
            }
        }
        proof {
            lemma_walk_covers(order, all_pages@);
            assert(unnecessary@ =~= all_pages@.difference(self@.required_pages));
        }
        unnecessary
    }

    /// The pages that at least one request keeps.
    pub fn required_pages(&self) -> (required: &BTreeSet<u32>)
        ensures
            required@ == self@.required_pages,
            required@ == required_pages_of(self@.individuals),
    {
        proof {
            use_type_invariant(self);
        }
        &self.required_pages
    }

    /// The requests, one after the other in the order of their rows.
    pub fn iter(&self) -> (requests: Iter<'_, SliceRequest>)
        ensures
            requests.remaining().len() == self@.individuals.len(),
            forall|i: int|
                0 <= i < self@.individuals.len() ==> (#[trigger] requests.remaining()[i])@
                    == self@.individuals[i],
            IteratorSpec::decrease(&requests) is Some,
            IteratorSpec::initial_value_relation(&requests, &requests),
    {
        self.individuals.iter()
    }
}

/// What each of the rows stands for, in their order.
pub open spec fn accepted_rows(rows: Seq<RawSliceRequest>) -> Seq<SliceRequestView> {
    Seq::new(rows.len(), |i: int| rows[i].accepted())
}

/// Row `at` is the first that is not acceptable.
pub open spec fn first_rejected(rows: Seq<RawSliceRequest>, at: int) -> bool {
    &&& 0 <= at < rows.len()
    &&& !rows[at].acceptable()
    &&& forall|i: int| 0 <= i < at ==> (#[trigger] rows[i]).acceptable()
}

/// Validates the rows of a request table and gathers them.
///
/// Where every row is acceptable the collection holds one request for each,
/// in the order of the rows. Otherwise nothing is gathered, and the error is
/// that of the first row that is not acceptable.
pub fn slice(rows: Vec<RawSliceRequest>) -> (result: Result<SliceRequests, FromRawError>)
    ensures
        match result {
            Ok(collection) => {
                &&& forall|i: int| 0 <= i < rows.len() ==> (#[trigger] rows[i]).acceptable()
                &&& collection@.individuals == accepted_rows(rows@)
                &&& collection@.valid()
            },
            Err(error) => exists|at: int| first_rejected(rows@, at) && error == rows[at].rejection(),
        },
{
    let mut individuals: Vec<SliceRequest> = Vec::new();
    for record in it: rows
        invariant
            it.seq() == rows@,
            individuals.len() == it.index(),
            forall|i: int| 0 <= i < it.index() ==> (#[trigger] rows[i]).acceptable(),
            forall|i: int| 0 <= i < it.index() ==> (#[trigger] individuals[i])@ == rows[i].accepted(),
    {
        let ghost at = it.index();
        match SliceRequest::try_from(record) {
            Ok(request) => {
                individuals.push(request);
            },
            Err(error) => {
                assert(first_rejected(rows@, at));
                return Err(error);
            },
        }
    }
    let collection = SliceRequests::new(individuals);
    assert(collection@.individuals =~= accepted_rows(rows@));
    Ok(collection)
}

} // verus!
