use pdf_slicer::collection::{slice, SliceRequests};
use pdf_slicer::request::{FromRawError, RawSliceRequest, SliceRequest};
use std::collections::BTreeSet;

fn raw(description: &str, start_page: u32, end_page: u32) -> RawSliceRequest {
    RawSliceRequest { description: description.to_string(), start_page, end_page }
}

fn request(description: &str, start_page: u32, end_page: u32) -> SliceRequest {
    SliceRequest::try_from(raw(description, start_page, end_page)).unwrap()
}

fn set(pages: &[u32]) -> BTreeSet<u32> {
    pages.iter().copied().collect()
}

#[test]
fn required_pages_are_the_union() {
    let collection = SliceRequests::new(vec![request("a", 0, 2), request("b", 5, 7), request("c", 1, 3)]);
    assert_eq!(*collection.required_pages(), set(&[0, 1, 2, 5, 6]));
}

#[test]
fn required_pages_do_not_depend_on_the_order() {
    let forward = SliceRequests::new(vec![request("a", 0, 2), request("b", 5, 7), request("c", 1, 3)]);
    let backward = SliceRequests::new(vec![request("c", 1, 3), request("b", 5, 7), request("a", 0, 2)]);
    assert_eq!(forward.required_pages(), backward.required_pages());
}

#[test]
fn a_repeated_request_adds_nothing() {
    let once = SliceRequests::new(vec![request("a", 3, 6)]);
    let twice = SliceRequests::new(vec![request("a", 3, 6), request("a", 3, 6)]);
    assert_eq!(once.required_pages(), twice.required_pages());
    assert_eq!(*once.required_pages(), set(&[3, 4, 5]));
}

#[test]
fn an_empty_collection_requires_nothing() {
    let collection = SliceRequests::new(Vec::new());
    assert!(collection.required_pages().is_empty());
    assert_eq!(collection.iter().count(), 0);
    assert_eq!(collection.unnecessary_pages(&set(&[1, 2, 3])), set(&[1, 2, 3]));
}

#[test]
fn the_requests_keep_their_order() {
    let collection = SliceRequests::new(vec![request("z", 4, 5), request("a", 0, 2), request("m", 2, 4)]);
    let names: Vec<&str> = collection.iter().map(|request| request.description()).collect();
    assert_eq!(names, vec!["z", "a", "m"]);
    let starts: Vec<u32> = collection.iter().map(|request| request.start_page()).collect();
    assert_eq!(starts, vec![4, 0, 2]);
}

#[test]
fn unnecessary_pages_are_those_that_nobody_keeps() {
    let collection = SliceRequests::new(vec![request("a", 1, 3), request("b", 4, 5)]);
    let all_pages = set(&[0, 1, 2, 3, 4, 5, 6]);
    assert_eq!(collection.unnecessary_pages(&all_pages), set(&[0, 3, 5, 6]));
}

#[test]
fn unnecessary_pages_pass_over_what_the_source_lacks() {
    let collection = SliceRequests::new(vec![request("a", 2, 10)]);
    assert_eq!(collection.unnecessary_pages(&set(&[1, 2, 3])), set(&[1]));
    assert_eq!(collection.unnecessary_pages(&set(&[])), set(&[]));
}

#[test]
fn rows_are_gathered_in_their_order() {
    let collection = slice(vec![raw("a", 0, 2), raw("b", 2, 4)]).unwrap();
    let seen: Vec<(String, u32, u32)> = collection
        .iter()
        .map(|request| (request.description().to_string(), request.start_page(), request.end_page()))
        .collect();
    assert_eq!(seen, vec![("a".to_string(), 0, 2), ("b".to_string(), 2, 4)]);
    assert_eq!(*collection.required_pages(), set(&[0, 1, 2, 3]));
}

#[test]
fn no_rows_give_an_empty_collection() {
    let collection = slice(Vec::new()).unwrap();
    assert_eq!(collection.iter().count(), 0);
}

#[test]
fn an_empty_row_stops_the_run() {
    let result = slice(vec![raw("ok", 0, 2), raw("x", 5, 5), raw("later", 2, 4)]);
    match result {
        Ok(_) => panic!("the run went on past an empty range"),
        Err(error) => assert_eq!(error, FromRawError::EmptyPageRange { description: "x".to_string() }),
    }
}

#[test]
fn the_first_bad_row_is_the_one_reported() {
    let result = slice(vec![raw("ok", 0, 2), raw("back", 7, 3), raw("x", 5, 5)]);
    match result {
        Ok(_) => panic!("the run went on past a reversed range"),
        Err(error) => assert_eq!(
            error,
            FromRawError::InvalidPageRange { description: "back".to_string(), start_page: 7, end_page: 3 }
        ),
    }
}
