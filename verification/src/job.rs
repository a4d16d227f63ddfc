//! A download job: one file, its size, the ranges it was cut into, and where
//! the assembled file is to go.

use vstd::prelude::*;
use crate::config::URL;
use crate::range::{plan, planned, tiles, ByteRange, PlanningError};

verus! {

/// One download: the file to fetch, its size, the plan of its ranges, and the
/// destination of the assembled file. The plan always lies end to end over
/// the whole file.
#[derive(Debug)]
pub struct DownloadJob {
    source: String,
    total_size: u64,
    ranges: Vec<ByteRange>,
    destination: String,
}

/// What a [`DownloadJob`] stands for.
pub ghost struct JobView {
    pub source: Seq<char>,
    pub total_size: u64,
    pub ranges: Seq<ByteRange>,
    pub destination: Seq<char>,
}

impl View for DownloadJob {
    type V = JobView;

    closed spec fn view(&self) -> JobView {
        JobView {
            source: self.source@,
            total_size: self.total_size,
            ranges: self.ranges@,
            destination: self.destination@,
        }
    }
}

/// What is asked of the server for one range of a job.
#[derive(Debug, Clone, PartialEq, Eq)]
pub struct FetchRequest {
    /// The range that the request is for.
    pub range: ByteRange,
    /// The address of the file.
    pub url: String,
    /// The value of the `Range` header; `None` where the range is empty and
    /// nothing needs to be asked.
    pub header: Option<String>,
}

/// The address from which the file named `source` is downloaded.
pub open spec fn download_url(source: Seq<char>) -> Seq<char> {
    URL@ + source
}

/// The request for `range` of the file named `source` is `request`.
pub open spec fn is_request_for(request: FetchRequest, source: Seq<char>, range: ByteRange) -> bool {
    &&& request.range == range
    &&& request.url@ == download_url(source)
    &&& range.span() == 0 <==> request.header is None
    &&& request.header matches Some(text) ==> text@ == range.header_text()
}

impl DownloadJob {
    #[verifier::type_invariant]
    spec fn well_formed(&self) -> bool {
        tiles(self.ranges@, self.total_size)
    }

    /// Plans the download of the file named `source`, of `total_size` bytes,
    /// in `worker_count` ranges, to be assembled at `destination`.
    pub fn new(source: &str, total_size: u64, worker_count: u64, destination: &str) -> (r: Result<
        DownloadJob,
        PlanningError,
    >)
        ensures
            worker_count == 0 <==> r is Err,
            r matches Err(e) ==> e == PlanningError::ZeroWorkers,
            r matches Ok(job) ==> job@ == (JobView {
                source: source@,
                total_size,
                ranges: planned(total_size, worker_count),
                destination: destination@,
            }),
    {
        match plan(total_size, worker_count) {
            Err(e) => Err(e),
            Ok(ranges) => Ok(
                DownloadJob {
                    source: String::from_str(source),
                    total_size,
                    ranges,
                    destination: String::from_str(destination),
                },
            ),
        }
    }

    /// The name of the file to fetch.
    pub fn source(&self) -> (s: &str)
        ensures
            s@ == self@.source,
    {
        self.source.as_str()
    }

    /// The size of the file, in bytes.
    pub fn total_size(&self) -> (n: u64)
        ensures
            n == self@.total_size,
    {
        self.total_size
    }

    /// The planned ranges, in order. They lie end to end over the whole file.
    pub fn ranges(&self) -> (ranges: &Vec<ByteRange>)
        ensures
            ranges@ == self@.ranges,
            tiles(ranges@, self@.total_size),
    {
        proof {
            use_type_invariant(self);
        }
        &self.ranges
    }

    /// Where the assembled file is to go.
    pub fn destination(&self) -> (s: &str)
        ensures
            s@ == self@.destination,
    {
        self.destination.as_str()
    }

    /// The address from which the file is downloaded.
    pub fn url(&self) -> (url: String)
        ensures
            url@ == download_url(self@.source),
    {
        let mut url = String::from_str(URL);
        url.append(self.source.as_str());
        url
    }

    /// The requests of the job: one for each planned range, in the order of
    /// the plan, so that every range is asked for exactly once.
    pub fn requests(&self) -> (requests: Vec<FetchRequest>)
        ensures
            requests@.len() == self@.ranges.len(),
            forall|i: int|
                0 <= i < requests@.len() ==> is_request_for(
                    #[trigger] requests@[i],
                    self@.source,
                    self@.ranges[i],
                ),
    {
        let mut requests: Vec<FetchRequest> = Vec::new();
        let mut i: usize = 0;
        while i < self.ranges.len()
            invariant
                i <= self.ranges@.len(),
                requests@.len() == i,
                forall|k: int|
                    0 <= k < i ==> is_request_for(
                        #[trigger] requests@[k],
                        self@.source,
                        self@.ranges[k],
                    ),
            decreases self.ranges@.len() - i,
        {
            let range = self.ranges[i];
            requests.push(FetchRequest { range, url: self.url(), header: range.header() });
            i = i + 1;
        }
        requests
    }
}

} // verus!
