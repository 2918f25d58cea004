//! Plans how a paged document is cut into named sub-documents.
//!
//! A row of the request table names an output and a half-open range of page
//! numbers. Rows are validated one by one ([`request`]) and gathered in their
//! order ([`collection`]). For each request the planner lists, smallest
//! first, the pages that must leave a copy of the source so that only the
//! requested pages stay ([`planner`]), and the output is given a file name
//! that stays inside the output directory ([`names`]). Page sets and their
//! listings are in [`pages`].
//!
//! Reading the table, loading the source, deleting the listed pages from a
//! copy of it and writing the outputs is left to the caller.

pub mod collection;
pub mod names;
pub mod pages;
pub mod planner;
pub mod request;
