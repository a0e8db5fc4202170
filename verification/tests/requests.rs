use discovery_engine_core::requests::{MinItemsRequest, RequestResponse, RequestStep};

/// Drives the requests: `respond` answers page requests, `filter` filters.
fn run(
    max_requests: u32,
    min_items: usize,
    page_size: usize,
    respond: impl Fn(u32) -> RequestResponse<u32, String>,
    filter: impl Fn(Vec<u32>) -> Result<Vec<u32>, String>,
) -> Result<Vec<u32>, String> {
    let (mut machine, mut step) = MinItemsRequest::start(max_requests, min_items, page_size);
    loop {
        step = match step {
            RequestStep::Request(n) => machine.on_response(respond(n)),
            RequestStep::Filter(items) => machine.on_filtered(filter(items)),
            RequestStep::Done(outcome) => return outcome,
        };
    }
}

fn ok(items: &[u32]) -> RequestResponse<u32, String> {
    RequestResponse::Batch(items.to_vec())
}

fn err(msg: &str) -> RequestResponse<u32, String> {
    RequestResponse::Failed(msg.to_string())
}

#[test]
fn test_request_min_new_items_filter_filter() {
    let items = run(3, 2, 1, |i| ok(&[i]), |items| Ok(items.into_iter().filter(|item| *item != 2).collect()))
        .unwrap();
    assert_eq!(items.len(), 2);
}

#[test]
fn test_request_min_new_items_filter_error() {
    let res = run(1, 1, 1, |_| ok(&[0]), |_| Err("filter".to_string()));
    assert_eq!(res.unwrap_err(), "filter");
}

#[test]
fn test_request_min_new_items() {
    let items = run(2, 2, 1, |i| ok(&[i]), Ok).unwrap();
    assert_eq!(items.len(), 2);
}

#[test]
fn test_request_min_new_items_only_errors() {
    let res = run(2, 2, 1, |i| err(&format!("{}", i)), Ok);
    assert_eq!(res.unwrap_err(), "1");
}

#[test]
fn test_request_min_new_items_mixed() {
    let items = run(
        2,
        2,
        1,
        |i| match i {
            0 => err(&format!("{}", i)),
            1 => ok(&[i]),
            _ => unreachable!(),
        },
        Ok,
    )
    .unwrap();
    assert_eq!(items.len(), 1);
}

#[test]
fn test_request_min_new_items_less_than_min() {
    let items = run(3, 10, 1, |i| ok(&[i]), Ok).unwrap();
    assert_eq!(items.len(), 3);
}

#[test]
fn test_request_min_new_items_more_than_min() {
    let items = run(
        3,
        1,
        2,
        |i| match i {
            0 => ok(&[i, i + 1]),
            _ => unreachable!(),
        },
        Ok,
    )
    .unwrap();
    assert_eq!(items.len(), 2);
    assert_eq!(items[0], 0);
}

#[test]
fn test_request_min_new_items_no_requests() {
    let items = run(0, 0, 1, |i| ok(&[i]), Ok).unwrap();
    assert!(items.is_empty());
}

#[test]
fn an_empty_page_stops_the_requests() {
    let items = run(5, 10, 2, |i| if i == 0 { ok(&[7, 8]) } else { ok(&[]) }, Ok).unwrap();
    assert_eq!(items, [7, 8]);
}

#[test]
fn aborted_requests_are_skipped() {
    let items = run(3, 10, 1, |i| if i == 1 { RequestResponse::Aborted } else { ok(&[i]) }, Ok).unwrap();
    assert_eq!(items, [0, 2]);
}
