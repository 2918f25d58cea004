//! Slice requests: a raw row, its validation, and the validated request.

use crate::names::{file_name, file_name_for, path_safe};
use crate::pages::{lemma_page_range_len, page_range};
use std::collections::BTreeSet;
use vstd::prelude::*;

verus! {

/// One row of the request table, as it was read: nothing is known of its range yet.
#[derive(Debug)]
pub struct RawSliceRequest {
    pub description: String,
    pub start_page: u32,
    pub end_page: u32,
}

/// Why a row was turned down.
#[derive(Debug, PartialEq, Eq)]
pub enum FromRawError {
    /// The range runs backwards: its start lies after its end.
    InvalidPageRange { description: String, start_page: u32, end_page: u32 },
    /// The range holds no page: its start is its end.
    EmptyPageRange { description: String },
}

impl RawSliceRequest {
    /// The row names at least one page.
    pub open spec fn acceptable(self) -> bool {
        self.start_page < self.end_page
    }

    /// The request that the row stands for, where it is acceptable.
    pub open spec fn accepted(self) -> SliceRequestView {
        SliceRequestView {
            description: self.description@,
            start_page: self.start_page,
            end_page: self.end_page,
            pages: page_range(self.start_page, self.end_page),
        }
    }

    /// The error that the row is turned down with, where it is not acceptable.
    pub open spec fn rejection(self) -> FromRawError {
        if self.start_page == self.end_page {
            FromRawError::EmptyPageRange { description: self.description }
        } else {
            FromRawError::InvalidPageRange {
                description: self.description,
                start_page: self.start_page,
                end_page: self.end_page,
            }
        }
    }
}

/// What a request asks for.
pub ghost struct SliceRequestView {
    pub description: Seq<char>,
    pub start_page: u32,
    pub end_page: u32,
    pub pages: Set<u32>,
}

impl SliceRequestView {
    /// The range is not empty and `pages` is exactly that range.
    pub open spec fn valid(self) -> bool {
        &&& self.start_page < self.end_page
        &&& self.pages == page_range(self.start_page, self.end_page)
    }

    /// The name of the file that the request's pages are written to.
    pub open spec fn file_name(self) -> Seq<char> {
        file_name_for(self.description)
    }
}

/// A named, non-empty, half-open range of pages to keep.
#[derive(Debug)]
pub struct SliceRequest {
    description: String,
    start_page: u32,
    end_page: u32,
    pages: BTreeSet<u32>,
}

impl View for SliceRequest {
    type V = SliceRequestView;

    closed spec fn view(&self) -> SliceRequestView {
        SliceRequestView {
            description: self.description@,
            start_page: self.start_page,
            end_page: self.end_page,
            pages: self.pages@,
        }
    }
}

impl SliceRequest {
    /// Every request is valid: it cannot be built but by [`SliceRequest::try_from`].
    #[verifier::type_invariant]
    pub open spec fn inv(&self) -> bool {
        self@.valid()
    }

    /// Validates one row.
    ///
    /// A row whose start lies before its end is accepted, and the request
    /// holds the `end_page - start_page` pages from `start_page` up to, not
    /// including, `end_page`. A row whose start is its end is turned down as
    /// empty, one whose start lies after its end as reversed; the error
    /// carries what the row held.
    pub fn try_from(record: RawSliceRequest) -> (result: Result<SliceRequest, FromRawError>)
        ensures
            match result {
                Ok(request) => {
                    &&& record.acceptable()
                    &&& request@ == record.accepted()
                    &&& request@.valid()
                    &&& request@.pages.finite()
                    &&& request@.pages.len() == record.end_page - record.start_page
                },
                Err(error) => !record.acceptable() && error == record.rejection(),
            },
    {
        let RawSliceRequest { description, start_page, end_page } = record;
        if start_page < end_page {
            let mut pages: BTreeSet<u32> = BTreeSet::new();
            let mut page: u32 = start_page;
            while page < end_page
                invariant
                    start_page <= page <= end_page,
                    pages@ == page_range(start_page, page),
                decreases end_page - page,
            {
                pages.insert(page);
                page = page + 1;
            }
            proof {
                lemma_page_range_len(start_page, end_page);
            }
            Ok(SliceRequest { description, start_page, end_page, pages })
        } else if start_page == end_page {
            Err(FromRawError::EmptyPageRange { description })
        } else {
            Err(FromRawError::InvalidPageRange { description, start_page, end_page })
        }
    }

    /// The name that the request gives to its output.
    pub fn description(&self) -> (description: &str)
        ensures
            description@ == self@.description,
    {
        self.description.as_str()
    }

    /// The first page that is kept.
    pub fn start_page(&self) -> (start_page: u32)
        ensures
            start_page == self@.start_page,
    {
        self.start_page
    }

    /// The first page after those that are kept.
    pub fn end_page(&self) -> (end_page: u32)
        ensures
            end_page == self@.end_page,
    {
        self.end_page
    }

    /// The pages that are kept.
    pub fn pages(&self) -> (pages: &BTreeSet<u32>)
        ensures
            pages@ == self@.pages,
            pages@ == page_range(self@.start_page, self@.end_page),
    {
        proof {
            use_type_invariant(self);
        }
        &self.pages
    }

    /// The name of the file that the request's pages are written to: the
    /// description, with every path-unsafe character replaced, followed by
    /// `.pdf`. The name holds no path separator, so the file lies in the
    /// directory that the name is joined to.
    pub fn file_name(&self) -> (name: String)
        ensures
            name@ == self@.file_name(),
            path_safe(name@),
            path_safe(self@.description) ==> name@ == self@.description + ".pdf"@,
    {
        file_name(self.description.as_str())
    }
}

} // verus!
