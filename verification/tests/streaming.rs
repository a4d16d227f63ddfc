use go_updater::downloader::curl_status;
use go_updater::fetch::{
    fetch, PartBuffer, Progress, Response, TransferCause, TransferError,
};
use go_updater::installer::unpack_command;
use go_updater::range::ByteRange;
use go_updater::text::trailing_matches;

fn body(len: usize) -> Vec<u8> {
    (0..len).map(|i| (i * 31 + 1) as u8).collect()
}

fn streamed(
    range: ByteRange,
    status: u16,
    body: &[u8],
    chunk: usize,
) -> Result<go_updater::fetch::FetchedPart, TransferError> {
    let mut buffer = PartBuffer::new(range, status);
    let mut sent = 0usize;
    assert_eq!(buffer.received(), 0);
    for piece in body.chunks(chunk) {
        buffer = buffer.push(piece);
        sent += piece.len();
        assert_eq!(buffer.received(), sent as u64);
    }
    buffer.finish()
}

#[test]
fn part_buffer_hundred_bytes_in_pieces() {
    let range = ByteRange { index: 1, start: 25, end: 50 };
    let content = body(100);
    let part = streamed(range, 206, &content[25..50], 7).unwrap();
    assert_eq!(part.range, range);
    assert_eq!(part.bytes, content[25..50].to_vec());
    let part = streamed(range, 200, &content, 7).unwrap();
    assert_eq!(part.bytes, content[25..50].to_vec());
}

#[test]
fn part_buffer_agrees_with_fetch_in_one_piece() {
    for start in 0..5u64 {
        for end in 0..9u64 {
            let range = ByteRange { index: 0, start, end };
            for len in 0..12usize {
                for status in [200u16, 204, 206, 299, 302, 404] {
                    for chunk in 1..5usize {
                        let whole = body(len);
                        let expected =
                            fetch(range, Response::Answered { status, body: whole.clone() });
                        assert_eq!(streamed(range, status, &whole, chunk), expected);
                    }
                }
            }
        }
    }
}

#[test]
fn part_buffer_without_body() {
    let range = ByteRange { index: 0, start: 0, end: 4 };
    assert_eq!(
        PartBuffer::new(range, 206).finish(),
        Err(TransferError { range, cause: TransferCause::Truncated { expected: 4, received: 0 } })
    );
    let empty = ByteRange { index: 0, start: 0, end: 0 };
    assert_eq!(PartBuffer::new(empty, 206).finish().unwrap().bytes, Vec::<u8>::new());
    assert_eq!(
        PartBuffer::new(range, 500).push(&[1, 2, 3, 4]).finish(),
        Err(TransferError { range, cause: TransferCause::Status { code: 500 } })
    );
}

#[test]
fn part_buffer_empty_pieces_change_nothing() {
    let range = ByteRange { index: 0, start: 2, end: 4 };
    let buffer = PartBuffer::new(range, 200).push(&[]).push(&[9, 8]).push(&[]).push(&[7, 6, 5]);
    assert_eq!(buffer.received(), 5);
    assert_eq!(buffer.finish().unwrap().bytes, vec![7, 6]);
}

#[test]
fn progress_counts_each_range_by_itself() {
    let mut progress = Progress::new(3);
    assert_eq!(progress.total(), 0);
    assert_eq!(progress.received(0), Some(0));
    assert_eq!(progress.received(3), None);
    assert!(progress.record(1, 10));
    assert!(progress.record(2, 5));
    assert!(progress.record(1, 25));
    assert!(!progress.record(3, 99));
    assert_eq!(progress.received(0), Some(0));
    assert_eq!(progress.received(1), Some(25));
    assert_eq!(progress.received(2), Some(5));
    assert_eq!(progress.total(), 30);
}

#[test]
fn progress_total_stops_at_the_largest_number() {
    let mut progress = Progress::new(2);
    assert!(progress.record(0, u64::MAX - 1));
    assert_eq!(progress.total(), u64::MAX - 1);
    assert!(progress.record(1, 1));
    assert_eq!(progress.total(), u64::MAX);
    assert!(progress.record(1, 2));
    assert_eq!(progress.total(), u64::MAX);
    assert_eq!(Progress::new(0).total(), 0);
}

#[test]
fn curl_status_reads_what_curl_reports() {
    assert_eq!(curl_status(Some(0), "206"), Ok(206));
    assert_eq!(curl_status(Some(0), "200\n"), Ok(200));
    assert_eq!(curl_status(Some(0), "000"), Ok(0));
    assert_eq!(curl_status(Some(0), "65535"), Ok(65535));
    assert_eq!(curl_status(Some(0), "65536"), Err(TransferCause::Network));
    assert_eq!(curl_status(Some(0), ""), Err(TransferCause::Network));
    assert_eq!(curl_status(Some(0), "HTTP 206"), Err(TransferCause::Network));
    assert_eq!(curl_status(Some(28), "000"), Err(TransferCause::Timeout));
    assert_eq!(curl_status(Some(28), "206"), Err(TransferCause::Timeout));
    assert_eq!(curl_status(Some(6), "000"), Err(TransferCause::Network));
    assert_eq!(curl_status(Some(-1), "206"), Err(TransferCause::Network));
    assert_eq!(curl_status(None, "206"), Err(TransferCause::Network));
}

#[test]
fn unpack_command_goes_above_the_root() {
    assert_eq!(
        unpack_command("/home/me/temp/go1.21.4.linux-amd64.tar.gz"),
        "sudo tar -C /usr/local -xzf /home/me/temp/go1.21.4.linux-amd64.tar.gz"
    );
}

#[test]
fn trailing_matches_agree_with_std() {
    let inputs = ["", "/go", "/usr/local/go", "/usr/local/go/go", "/go/x", "go", "/usr/go/"];
    for text in inputs {
        for suffix in ["/go", "o", "/"] {
            let cs: Vec<char> = text.chars().collect();
            let sx: Vec<char> = suffix.chars().collect();
            let n = trailing_matches(&cs, &sx);
            assert_eq!(cs[..n].iter().collect::<String>(), text.trim_end_matches(suffix));
        }
    }
    assert_eq!(trailing_matches(&['a', 'b'], &[]), 2);
}
