use pdf_slicer::planner::{ascending_difference, SourcePages};
use pdf_slicer::request::{RawSliceRequest, SliceRequest};
use std::collections::BTreeSet;

fn request(description: &str, start_page: u32, end_page: u32) -> SliceRequest {
    SliceRequest::try_from(RawSliceRequest { description: description.to_string(), start_page, end_page })
        .unwrap()
}

fn set(pages: &[u32]) -> BTreeSet<u32> {
    pages.iter().copied().collect()
}

fn source_of(pages: &[u32]) -> SourcePages {
    SourcePages::new(set(pages))
}

fn left(source: &SourcePages, deletions: &[u32]) -> Vec<u32> {
    source.pages().iter().copied().filter(|page| !deletions.contains(page)).collect()
}

#[test]
fn deletions_are_the_source_without_the_request() {
    let source = source_of(&[0, 1, 2, 3, 4, 5]);
    let chapter = request("ch1", 1, 4);
    let deletions = source.required_deletions(&chapter);
    assert_eq!(deletions, vec![0, 4, 5]);
    assert_eq!(left(&source, &deletions), vec![1, 2, 3]);
}

#[test]
fn two_adjoining_requests_share_no_page() {
    let source = source_of(&[0, 1, 2, 3]);
    let a = request("a", 0, 2);
    let b = request("b", 2, 4);
    let without_a = source.required_deletions(&a);
    let without_b = source.required_deletions(&b);
    assert_eq!(without_a, vec![2, 3]);
    assert_eq!(without_b, vec![0, 1]);
    assert_eq!(left(&source, &without_a), vec![0, 1]);
    assert_eq!(left(&source, &without_b), vec![2, 3]);
    assert_eq!(a.file_name(), "a.pdf");
    assert_eq!(b.file_name(), "b.pdf");
    // the source is the same for both
    assert_eq!(*source.pages(), set(&[0, 1, 2, 3]));
}

#[test]
fn a_request_for_the_whole_source_deletes_nothing() {
    let source = source_of(&[1, 2, 3, 4]);
    assert!(source.required_deletions(&request("all", 1, 5)).is_empty());
    assert!(source.required_deletions(&request("more", 0, 100)).is_empty());
}

#[test]
fn pages_beyond_the_source_are_passed_over() {
    let source = source_of(&[1, 2, 3]);
    assert_eq!(source.required_deletions(&request("far", 3, 9)), vec![1, 2]);
    assert_eq!(source.required_deletions(&request("off", 7, 9)), vec![1, 2, 3]);
}

#[test]
fn an_empty_source_needs_no_deletion() {
    assert!(source_of(&[]).required_deletions(&request("any", 0, 3)).is_empty());
}

#[test]
fn deletions_come_smallest_first() {
    let source = source_of(&[40, 7, 19, 3, 28, 11]);
    let deletions = source.required_deletions(&request("mid", 10, 20));
    assert_eq!(deletions, vec![3, 7, 28, 40]);
}

#[test]
fn a_source_with_gaps_loses_what_lies_outside() {
    let source = source_of(&[2, 4, 6, 8, 10]);
    let deletions = source.required_deletions(&request("gap", 3, 9));
    assert_eq!(deletions, vec![2, 10]);
    assert_eq!(left(&source, &deletions), vec![4, 6, 8]);
}

#[test]
fn the_same_request_gives_the_same_deletions() {
    let source = source_of(&[0, 1, 2, 3, 4, 5]);
    let chapter = request("ch1", 1, 4);
    assert_eq!(source.required_deletions(&chapter), source.required_deletions(&chapter));
}

#[test]
fn the_difference_of_two_sets_is_listed_smallest_first() {
    assert_eq!(ascending_difference(&set(&[5, 1, 9, 3]), &set(&[3, 4, 5])), vec![1, 9]);
    assert_eq!(ascending_difference(&set(&[5, 1, 9, 3]), &set(&[])), vec![1, 3, 5, 9]);
    assert!(ascending_difference(&set(&[5, 1]), &set(&[1, 5, 6])).is_empty());
    assert_eq!(ascending_difference(&set(&[0, u32::MAX]), &set(&[1])), vec![0, u32::MAX]);
}
