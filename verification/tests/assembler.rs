use go_updater::assemble::{assemble, AssemblyError};
use go_updater::fetch::FetchedPart;
use go_updater::job::DownloadJob;
use go_updater::range::ByteRange;

fn source(total: usize) -> Vec<u8> {
    (0..total).map(|i| (i * 7 + 3) as u8).collect()
}

fn job(total: u64, workers: u64) -> DownloadJob {
    DownloadJob::new("go.tar.gz", total, workers, "out/go.tar.gz").unwrap()
}

fn parts_of(job: &DownloadJob, content: &[u8]) -> Vec<FetchedPart> {
    job.ranges()
        .iter()
        .map(|r| FetchedPart { range: *r, bytes: content[r.start as usize..r.end as usize].to_vec() })
        .collect()
}

fn permutations(n: usize) -> Vec<Vec<usize>> {
    if n == 0 {
        return vec![Vec::new()];
    }
    let mut all = Vec::new();
    for shorter in permutations(n - 1) {
        for at in 0..n {
            let mut p = shorter.clone();
            p.insert(at, n - 1);
            all.push(p);
        }
    }
    all
}

#[test]
fn assemble_hundred_bytes_from_four_parts() {
    let content = source(100);
    let job = job(100, 4);
    let parts = parts_of(&job, &content);
    for p in &parts {
        assert_eq!(p.bytes.len(), 25);
    }
    let file = assemble(&job, &parts).unwrap();
    assert_eq!(file.len(), 100);
    assert_eq!(file, content);
}

#[test]
fn assemble_is_independent_of_part_order() {
    let content = source(103);
    let job = job(103, 5);
    let parts = parts_of(&job, &content);
    let all = permutations(parts.len());
    assert_eq!(all.len(), 120);
    for order in all {
        let shuffled: Vec<FetchedPart> = order.iter().map(|&i| parts[i].clone()).collect();
        assert_eq!(assemble(&job, &shuffled), Ok(content.clone()));
    }
}

#[test]
fn assemble_last_part_first_pads_and_fills() {
    let content = source(10);
    let job = job(10, 3);
    let mut parts = parts_of(&job, &content);
    parts.reverse();
    assert_eq!(assemble(&job, &parts), Ok(content));
}

#[test]
fn assemble_empty_file() {
    let job = job(0, 4);
    assert_eq!(job.ranges().len(), 1);
    let parts = vec![FetchedPart { range: job.ranges()[0], bytes: Vec::new() }];
    assert_eq!(assemble(&job, &parts), Ok(Vec::new()));
}

#[test]
fn assemble_with_empty_ranges() {
    let content = source(3);
    let job = job(3, 4);
    let parts = parts_of(&job, &content);
    assert_eq!(parts.len(), 4);
    for order in permutations(4) {
        let shuffled: Vec<FetchedPart> = order.iter().map(|&i| parts[i].clone()).collect();
        assert_eq!(assemble(&job, &shuffled), Ok(content.clone()));
    }
}

#[test]
fn assemble_reports_missing_part() {
    let content = source(100);
    let job = job(100, 4);
    let mut parts = parts_of(&job, &content);
    let gone = parts.remove(2);
    assert_eq!(assemble(&job, &parts), Err(AssemblyError::MissingPart { range: gone.range }));
    assert_eq!(
        assemble(&job, &Vec::new()),
        Err(AssemblyError::MissingPart { range: job.ranges()[0] })
    );
    let only_last = vec![parts[2].clone()];
    assert_eq!(
        assemble(&job, &only_last),
        Err(AssemblyError::MissingPart { range: job.ranges()[0] })
    );
}

#[test]
fn assemble_reports_duplicate_part() {
    let content = source(100);
    let job = job(100, 4);
    let mut parts = parts_of(&job, &content);
    parts.push(parts[1].clone());
    assert_eq!(assemble(&job, &parts), Err(AssemblyError::DuplicatePart { range: parts[1].range }));
}

#[test]
fn assemble_reports_unknown_range() {
    let content = source(100);
    let job = job(100, 4);
    let mut parts = parts_of(&job, &content);
    let shifted = ByteRange { index: 1, start: 26, end: 50 };
    parts[1] = FetchedPart { range: shifted, bytes: content[26..50].to_vec() };
    assert_eq!(assemble(&job, &parts), Err(AssemblyError::UnknownRange { range: shifted }));
    let beyond = ByteRange { index: 4, start: 100, end: 125 };
    let mut more = parts_of(&job, &content);
    more.insert(0, FetchedPart { range: beyond, bytes: vec![0; 25] });
    assert_eq!(assemble(&job, &more), Err(AssemblyError::UnknownRange { range: beyond }));
}

#[test]
fn assemble_reports_length_mismatch() {
    let content = source(100);
    let job = job(100, 4);
    let mut parts = parts_of(&job, &content);
    parts[3].bytes.pop();
    assert_eq!(
        assemble(&job, &parts),
        Err(AssemblyError::LengthMismatch { range: parts[3].range, received: 24 })
    );
    let mut longer = parts_of(&job, &content);
    longer[0].bytes.push(9);
    assert_eq!(
        assemble(&job, &longer),
        Err(AssemblyError::LengthMismatch { range: longer[0].range, received: 26 })
    );
}

#[test]
fn assemble_reports_the_first_defect() {
    let content = source(100);
    let job = job(100, 4);
    let good = parts_of(&job, &content);
    let unknown = ByteRange { index: 9, start: 0, end: 1 };
    let parts = vec![
        good[0].clone(),
        good[0].clone(),
        FetchedPart { range: unknown, bytes: vec![1] },
    ];
    assert_eq!(assemble(&job, &parts), Err(AssemblyError::DuplicatePart { range: good[0].range }));
    let parts = vec![
        FetchedPart { range: unknown, bytes: vec![1] },
        good[0].clone(),
        good[0].clone(),
    ];
    assert_eq!(assemble(&job, &parts), Err(AssemblyError::UnknownRange { range: unknown }));
}
