use go_updater::assemble::AssemblyError;
use go_updater::downloader::{download, fetch_command, JobError};
use go_updater::fetch::{fetch, FetchedPart, Response, TransferCause, TransferError};
use go_updater::job::{DownloadJob, FetchRequest};
use go_updater::range::{ByteRange, PlanningError};

fn source(total: usize) -> Vec<u8> {
    (0..total).map(|i| (i * 13 + 5) as u8).collect()
}

fn outcomes_of(job: &DownloadJob, content: &[u8]) -> Vec<Result<FetchedPart, TransferError>> {
    job.ranges()
        .iter()
        .map(|r| {
            fetch(
                *r,
                Response::Answered {
                    status: 206,
                    body: content[r.start as usize..r.end as usize].to_vec(),
                },
            )
        })
        .collect()
}

#[test]
fn job_new_plans_the_ranges() {
    let job = DownloadJob::new("go1.21.4.linux-amd64.tar.gz", 100, 4, "temp/go.tar.gz").unwrap();
    assert_eq!(job.source(), "go1.21.4.linux-amd64.tar.gz");
    assert_eq!(job.destination(), "temp/go.tar.gz");
    assert_eq!(job.total_size(), 100);
    assert_eq!(
        job.ranges(),
        &vec![
            ByteRange { index: 0, start: 0, end: 25 },
            ByteRange { index: 1, start: 25, end: 50 },
            ByteRange { index: 2, start: 50, end: 75 },
            ByteRange { index: 3, start: 75, end: 100 },
        ]
    );
    assert_eq!(job.url(), "https://go.dev/dl/go1.21.4.linux-amd64.tar.gz");
}

#[test]
fn job_new_rejects_zero_workers() {
    let r = DownloadJob::new("f", 100, 0, "d");
    assert!(matches!(r, Err(PlanningError::ZeroWorkers)));
}

#[test]
fn job_requests_one_per_range() {
    let job = DownloadJob::new("go.tar.gz", 10, 3, "d").unwrap();
    let requests = job.requests();
    let url = String::from("https://go.dev/dl/go.tar.gz");
    assert_eq!(
        requests,
        vec![
            FetchRequest {
                range: ByteRange { index: 0, start: 0, end: 3 },
                url: url.clone(),
                header: Some(String::from("bytes=0-2")),
            },
            FetchRequest {
                range: ByteRange { index: 1, start: 3, end: 6 },
                url: url.clone(),
                header: Some(String::from("bytes=3-5")),
            },
            FetchRequest {
                range: ByteRange { index: 2, start: 6, end: 10 },
                url: url.clone(),
                header: Some(String::from("bytes=6-9")),
            },
        ]
    );
}

#[test]
fn job_requests_empty_range_has_no_header() {
    let job = DownloadJob::new("go.tar.gz", 0, 3, "d").unwrap();
    let requests = job.requests();
    assert_eq!(requests.len(), 1);
    assert_eq!(requests[0].header, None);
    assert_eq!(fetch_command(&requests[0], "temp/x"), None);
}

#[test]
fn fetch_command_names_range_and_file() {
    let job = DownloadJob::new("go.tar.gz", 100, 4, "d").unwrap();
    let requests = job.requests();
    assert_eq!(
        fetch_command(&requests[1], "temp/temp_25-50"),
        Some(String::from(
            "curl -s -L -o temp/temp_25-50 -w \"%{http_code}\" -H \"range: bytes=25-49\" https://go.dev/dl/go.tar.gz"
        ))
    );
}

#[test]
fn download_assembles_in_any_completion_order() {
    let content = source(100);
    let job = DownloadJob::new("go.tar.gz", 100, 4, "d").unwrap();
    let orders: [[usize; 4]; 5] =
        [[0, 1, 2, 3], [3, 2, 1, 0], [2, 0, 3, 1], [1, 3, 0, 2], [3, 0, 1, 2]];
    for order in orders {
        let all = outcomes_of(&job, &content);
        let arrived: Vec<_> = order.iter().map(|&i| all[i].clone()).collect();
        let file = download(&job, arrived).unwrap();
        assert_eq!(file.len(), 100);
        assert_eq!(file, content);
    }
}

#[test]
fn download_of_empty_file() {
    let job = DownloadJob::new("empty", 0, 4, "d").unwrap();
    let outcomes = vec![Ok(FetchedPart { range: job.ranges()[0], bytes: Vec::new() })];
    assert_eq!(download(&job, outcomes), Ok(Vec::new()));
}

#[test]
fn download_fails_on_a_single_failed_fetch() {
    let content = source(100);
    let job = DownloadJob::new("go.tar.gz", 100, 4, "d").unwrap();
    for failed in 0..4 {
        let mut outcomes = outcomes_of(&job, &content);
        let error = TransferError { range: job.ranges()[failed], cause: TransferCause::Network };
        outcomes[failed] = Err(error);
        assert_eq!(download(&job, outcomes), Err(JobError::Transfer(error)));
    }
}

#[test]
fn download_reports_the_first_failure() {
    let content = source(100);
    let job = DownloadJob::new("go.tar.gz", 100, 4, "d").unwrap();
    let mut outcomes = outcomes_of(&job, &content);
    let first = TransferError { range: job.ranges()[3], cause: TransferCause::Status { code: 503 } };
    let second = TransferError { range: job.ranges()[1], cause: TransferCause::Timeout };
    outcomes[3] = Err(first);
    outcomes[1] = Err(second);
    outcomes.reverse();
    assert_eq!(download(&job, outcomes), Err(JobError::Transfer(first)));
}

#[test]
fn download_fails_on_truncated_body() {
    let content = source(100);
    let job = DownloadJob::new("go.tar.gz", 100, 4, "d").unwrap();
    let mut outcomes = outcomes_of(&job, &content);
    let r = job.ranges()[2];
    outcomes[2] = fetch(r, Response::Answered { status: 206, body: content[50..70].to_vec() });
    assert_eq!(
        download(&job, outcomes),
        Err(JobError::Transfer(TransferError {
            range: r,
            cause: TransferCause::Truncated { expected: 25, received: 20 },
        }))
    );
}

#[test]
fn download_fails_when_a_part_never_came() {
    let content = source(100);
    let job = DownloadJob::new("go.tar.gz", 100, 4, "d").unwrap();
    let mut outcomes = outcomes_of(&job, &content);
    outcomes.remove(0);
    assert_eq!(
        download(&job, outcomes),
        Err(JobError::Assembly(AssemblyError::MissingPart { range: job.ranges()[0] }))
    );
}

#[test]
fn download_from_whole_file_answers() {
    let content = source(50);
    let job = DownloadJob::new("go.tar.gz", 50, 3, "d").unwrap();
    let outcomes: Vec<_> = job
        .ranges()
        .iter()
        .rev()
        .map(|r| fetch(*r, Response::Answered { status: 200, body: content.clone() }))
        .collect();
    assert_eq!(download(&job, outcomes), Ok(content));
}
