use go_updater::fetch::{fetch, FetchedPart, Response, TransferCause, TransferError};
use go_updater::range::ByteRange;

fn bytes(from: u8, count: usize) -> Vec<u8> {
    (0..count).map(|i| from.wrapping_add(i as u8)).collect()
}

fn answered(status: u16, body: Vec<u8>) -> Response {
    Response::Answered { status, body }
}

const RANGE: ByteRange = ByteRange { index: 1, start: 25, end: 50 };

#[test]
fn fetch_partial_content_is_the_range() {
    let part = fetch(RANGE, answered(206, bytes(25, 25))).unwrap();
    assert_eq!(part, FetchedPart { range: RANGE, bytes: bytes(25, 25) });
}

#[test]
fn fetch_partial_content_one_byte_longer_is_cut() {
    let part = fetch(RANGE, answered(206, bytes(25, 26))).unwrap();
    assert_eq!(part.bytes, bytes(25, 25));
    assert_eq!(part.range, RANGE);
}

#[test]
fn fetch_partial_content_too_short_fails() {
    let err = fetch(RANGE, answered(206, bytes(25, 24))).unwrap_err();
    assert_eq!(
        err,
        TransferError { range: RANGE, cause: TransferCause::Truncated { expected: 25, received: 24 } }
    );
}

#[test]
fn fetch_whole_file_answer_is_cut_to_the_range() {
    let part = fetch(RANGE, answered(200, bytes(0, 100))).unwrap();
    assert_eq!(part, FetchedPart { range: RANGE, bytes: bytes(25, 25) });
    let exact = fetch(RANGE, answered(200, bytes(0, 50))).unwrap();
    assert_eq!(exact.bytes, bytes(25, 25));
}

#[test]
fn fetch_whole_file_answer_too_short_fails() {
    let err = fetch(RANGE, answered(200, bytes(0, 49))).unwrap_err();
    assert_eq!(
        err,
        TransferError { range: RANGE, cause: TransferCause::Truncated { expected: 50, received: 49 } }
    );
}

#[test]
fn fetch_other_success_status_counts_as_whole_file() {
    let part = fetch(RANGE, answered(203, bytes(0, 60))).unwrap();
    assert_eq!(part.bytes, bytes(25, 25));
    let err = fetch(RANGE, answered(204, Vec::new())).unwrap_err();
    assert_eq!(err.cause, TransferCause::Truncated { expected: 50, received: 0 });
}

#[test]
fn fetch_bad_status_fails() {
    for status in [0u16, 100, 199, 300, 304, 404, 416, 500, 503, 65535] {
        let err = fetch(RANGE, answered(status, bytes(25, 25))).unwrap_err();
        assert_eq!(err, TransferError { range: RANGE, cause: TransferCause::Status { code: status } });
    }
}

#[test]
fn fetch_network_failure_and_timeout() {
    assert_eq!(
        fetch(RANGE, Response::Failed),
        Err(TransferError { range: RANGE, cause: TransferCause::Network })
    );
    assert_eq!(
        fetch(RANGE, Response::TimedOut),
        Err(TransferError { range: RANGE, cause: TransferCause::Timeout })
    );
}

#[test]
fn fetch_empty_range_needs_no_bytes() {
    let empty = ByteRange { index: 0, start: 0, end: 0 };
    assert_eq!(
        fetch(empty, answered(206, Vec::new())),
        Ok(FetchedPart { range: empty, bytes: Vec::new() })
    );
    assert_eq!(
        fetch(empty, answered(200, Vec::new())),
        Ok(FetchedPart { range: empty, bytes: Vec::new() })
    );
    assert_eq!(fetch(empty, answered(206, bytes(0, 3))).unwrap().bytes, Vec::<u8>::new());
    assert_eq!(
        fetch(empty, answered(404, Vec::new())).unwrap_err().cause,
        TransferCause::Status { code: 404 }
    );
}

#[test]
fn fetch_part_always_fills_its_range() {
    for start in 0..6u64 {
        for end in 0..8u64 {
            let range = ByteRange { index: 0, start, end };
            for len in 0..10usize {
                for status in [200u16, 206] {
                    match fetch(range, answered(status, bytes(0, len))) {
                        Ok(part) => {
                            assert_eq!(part.range, range);
                            assert_eq!(part.bytes.len() as u64, range.len());
                        }
                        Err(e) => assert_eq!(e.range, range),
                    }
                }
            }
        }
    }
}
