//! The download as a whole: finding the release to fetch, asking for its
//! size, and turning what the fetches brought into the file.
//!
//! The fetches themselves run outside this library, side by side and in no
//! particular order. The caller waits for all of them, and then hands their
//! outcomes to [`download`] in the order in which they ended.

use vstd::prelude::*;
use vstd::slice::slice_subrange;
use crate::assemble::{
    assemble, assembled, complete, in_range_order, lemma_assembled_iff_complete,
    lemma_complete_written, AssemblyError,
};
use crate::config::URL;
use crate::fetch::{part_views, FetchedPart, Part, TransferCause, TransferError};
use crate::installer::Version;
use crate::job::{download_url, DownloadJob, FetchRequest};
use crate::range::{tiles, ByteRange};
use crate::text::{
    all_digits, decimal_text, first_piece, leading_matches, lemma_decimal_text, lemma_find,
    parse_decimal, parse_number, push_decimal, same_chars, same_text, split_first, to_chars,
    trim_end, trim_start_matches, trimmed_end, NumberError,
};

verus! {

/// The release to download: its version and the name of its file.
#[derive(Debug)]
pub struct VersionMeta {
    pub version: Version,
    pub filename: String,
}

/// One release in the list of releases, with the files it offers.
#[derive(Debug)]
pub struct JsonResponse {
    pub files: Vec<FileDownload>,
    pub version: Version,
}

/// One file of a release, and the system and machine it is built for.
#[derive(Debug)]
pub struct FileDownload {
    pub filename: String,
    pub os: String,
    pub arch: String,
}

/// Why the list of releases names no file to download.
#[derive(Debug, Clone, Copy, PartialEq, Eq, Structural)]
pub enum UpdateError {
    /// The list holds no release.
    NoRelease,
    /// The newest release has no file for this system and machine.
    NoMatchingFile,
}

/// The name under which Go releases are built for the machine that Rust
/// calls `arch`; empty where there is none.
pub open spec fn go_arch(arch: Seq<char>) -> Seq<char> {
    if arch == "x86"@ {
        "386"@
    } else if arch == "x86_64"@ {
        "amd64"@
    } else if arch == "arm"@ {
        "armv6l"@
    } else if arch == "aarch64"@ {
        "arm64"@
    } else if arch == "loongarch64"@ {
        "loong64"@
    } else if arch == "m68k"@ || arch == "csky"@ || arch == "mips"@ {
        "mips"@
    } else if arch == "mips64"@ {
        "mips64"@
    } else if arch == "powerpc"@ || arch == "powerpc64"@ {
        "ppc64"@
    } else if arch == "riscv64"@ {
        "riscv64"@
    } else if arch == "s390x"@ {
        "s390x"@
    } else if arch == "sparc64"@ {
        "amd64"@
    } else {
        ""@
    }
}

/// The file is built for the system `os` and the machine `arch`.
pub open spec fn is_for(file: FileDownload, os: Seq<char>, arch: Seq<char>) -> bool {
    file.os@ == os && file.arch@ == arch
}

/// The command that asks the server for the list of releases.
pub open spec fn update_text() -> Seq<char> {
    "curl "@ + URL@ + "?mode=json -H \"Accept: application/json\""@
}

/// The command that asks the server for the size of the file `filename`.
pub open spec fn file_size_text(filename: Seq<char>) -> Seq<char> {
    "curl -I -L "@ + download_url(filename) + " | awk '/content-length/ {print $2}'"@
}

/// The command that fetches the range asked for with the header value
/// `header` from `url` into the file `out`, and prints the status of the
/// answer.
pub open spec fn fetch_text(out: Seq<char>, header: Seq<char>, url: Seq<char>) -> Seq<char> {
    "curl -s -L -o "@ + out + " -w \"%{http_code}\" -H \"range: "@ + header + "\" "@ + url
}

/// What a run of the fetch command says of the transfer, given the code
/// with which the command ended and what it printed. If it ended with 0, what
/// it printed, less the whitespace at its end, is the status of the answer;
/// if that is no number that fits 16 bits, the transfer counts as failed. If
/// it ended with 28, the transfer took too long. In every other case the
/// transfer failed.
pub open spec fn transfer_status(exit_code: Option<i32>, stdout: Seq<char>) -> Result<
    u16,
    TransferCause,
> {
    if exit_code == Some(0i32) {
        match parse_decimal(trim_end(stdout), u16::MAX as nat) {
            Ok(status) => Ok(status as u16),
            Err(_) => Err(TransferCause::Network),
        }
    } else if exit_code == Some(28i32) {
        Err(TransferCause::Timeout)
    } else {
        Err(TransferCause::Network)
    }
}

/// The name of the temporary file that holds the part for `range`.
pub open spec fn part_file_text(range: ByteRange) -> Seq<char> {
    "temp_"@ + decimal_text(range.start as nat) + "-"@ + decimal_text(range.end as nat)
}

/// The offset that the name of a temporary file gives: the number between
/// the leading `temp_` and the first `-`.
pub open spec fn part_offset_of(name: Seq<char>) -> Result<nat, NumberError> {
    parse_decimal(first_piece(trim_start_matches(name, "temp_"@), '-'), u64::MAX as nat)
}

/// Whether the characters `a` spell the text `text`.
fn spells(a: &[char], text: &str) -> (same: bool)
    ensures
        same == (a@ == text@),
{
    let b = to_chars(text);
    same_chars(a, b.as_slice())
}

/// The name under which Go releases are built for the machine that Rust
/// calls `arch`; empty where there is none.
pub fn get_arch(arch: &str) -> (name: &'static str)
    ensures
        name@ == go_arch(arch@),
{
    let chars = to_chars(arch);
    let a = chars.as_slice();
    if spells(a, "x86") {
        "386"
    } else if spells(a, "x86_64") {
        "amd64"
    } else if spells(a, "arm") {
        "armv6l"
    } else if spells(a, "aarch64") {
        "arm64"
    } else if spells(a, "loongarch64") {
        "loong64"
    } else if spells(a, "m68k") || spells(a, "csky") || spells(a, "mips") {
        "mips"
    } else if spells(a, "mips64") {
        "mips64"
    } else if spells(a, "powerpc") || spells(a, "powerpc64") {
        "ppc64"
    } else if spells(a, "riscv64") {
        "riscv64"
    } else if spells(a, "s390x") {
        "s390x"
    } else if spells(a, "sparc64") {
        "amd64"
    } else {
        ""
    }
}

/// The command that asks the server for the list of releases.
pub fn update_command() -> (command: String)
    ensures
        command@ == update_text(),
{
    let mut command = String::from_str("curl ");
    command.append(URL);
    command.append("?mode=json -H \"Accept: application/json\"");
    command
}

/// Picks the file to download from the list of releases, newest first: the
/// first file of the first release that is built for the system `os` and the
/// machine `arch`.
pub fn check_update(responses: &Vec<JsonResponse>, os: &str, arch: &str) -> (r: Result<
    VersionMeta,
    UpdateError,
>)
    ensures
        match r {
            Ok(meta) => responses@.len() > 0 && meta.version == responses@[0].version && exists|
                i: int,
            |
                {
                    &&& 0 <= i < responses@[0].files@.len()
                    &&& is_for(#[trigger] responses@[0].files@[i], os@, arch@)
                    &&& forall|k: int| 0 <= k < i ==> !is_for(responses@[0].files@[k], os@, arch@)
                    &&& meta.filename@ == responses@[0].files@[i].filename@
                },
            Err(UpdateError::NoRelease) => responses@.len() == 0,
            Err(UpdateError::NoMatchingFile) => responses@.len() > 0 && forall|i: int|
                0 <= i < responses@[0].files@.len() ==> !is_for(
                    #[trigger] responses@[0].files@[i],
                    os@,
                    arch@,
                ),
        },
{
    if responses.len() == 0 {
        return Err(UpdateError::NoRelease);
    }
    let latest = &responses[0];
    let mut i: usize = 0;
    while i < latest.files.len()
        invariant
            i <= latest.files@.len(),
            responses@.len() > 0,
            *latest == responses@[0],
            forall|k: int| 0 <= k < i ==> !is_for(#[trigger] latest.files@[k], os@, arch@),
        decreases latest.files@.len() - i,
    {
        let file = &latest.files[i];
        if same_text(file.os.as_str(), os) && same_text(file.arch.as_str(), arch) {
            return Ok(VersionMeta { version: latest.version, filename: file.filename.clone() });
        }
        i = i + 1;
    }
    Err(UpdateError::NoMatchingFile)
}

/// The command that asks the server for the size of the file `filename`.
pub fn file_size_command(filename: &str) -> (command: String)
    ensures
        command@ == file_size_text(filename@),
{
    let mut command = String::from_str("curl -I -L ");
    command.append(URL);
    command.append(filename);
    command.append(" | awk '/content-length/ {print $2}'");
    proof {
        assert(command@ =~= file_size_text(filename@));
    }
    command
}

/// The size of the file, read from what the size command printed: the
/// output without the whitespace at its end, as a decimal number that fits
/// 64 bits.
pub fn get_file_size(output: &str) -> (r: Result<u64, NumberError>)
    ensures
        match r {
            Ok(size) => parse_decimal(trim_end(output@), u64::MAX as nat) == Ok::<
                nat,
                NumberError,
            >(size as nat),
            Err(e) => parse_decimal(trim_end(output@), u64::MAX as nat) == Err::<
                nat,
                NumberError,
            >(e),
        },
{
    let chars = to_chars(output);
    let end = trimmed_end(chars.as_slice());
    let digits = slice_subrange(chars.as_slice(), 0, end);
    proof {
        assert(digits@ =~= trim_end(output@));
    }
    parse_number(digits, u64::MAX)
}

/// The command that carries out `request` and stores what comes back in the
/// file `out`. There is none for a request without a header, which asks for
/// nothing.
pub fn fetch_command(request: &FetchRequest, out: &str) -> (command: Option<String>)
    ensures
        command is Some <==> request.header is Some,
        command matches Some(text) ==> text@ == fetch_text(
            out@,
            request.header->0@,
            request.url@,
        ),
{
    match &request.header {
        None => None,
        Some(header) => {
            let mut command = String::from_str("curl -s -L -o ");
            command.append(out);
            command.append(" -w \"%{http_code}\" -H \"range: ");
            command.append(header.as_str());
            command.append("\" ");
            command.append(request.url.as_str());
            Some(command)
        },
    }
}

/// What a run of the fetch command says of the transfer: the status of the
/// answer, or why there is none.
pub fn curl_status(exit_code: Option<i32>, stdout: &str) -> (r: Result<u16, TransferCause>)
    ensures
        r == transfer_status(exit_code, stdout@),
{
    match exit_code {
        Some(code) => {
            if code == 0 {
                let chars = to_chars(stdout);
                let end = trimmed_end(chars.as_slice());
                let digits = slice_subrange(chars.as_slice(), 0, end);
                proof {
                    assert(digits@ =~= trim_end(stdout@));
                }
                match parse_number(digits, u16::MAX as u64) {
                    Ok(status) => Ok(status as u16),
                    Err(_) => Err(TransferCause::Network),
                }
            } else if code == 28 {
                Err(TransferCause::Timeout)
            } else {
                Err(TransferCause::Network)
            }
        },
        None => Err(TransferCause::Network),
    }
}

/// The name of the temporary file that holds the part for `range`.
pub fn part_file_name(range: ByteRange) -> (name: String)
    ensures
        name@ == part_file_text(range),
{
    let mut name = String::from_str("temp_");
    push_decimal(&mut name, range.start);
    name.append("-");
    push_decimal(&mut name, range.end);
    name
}

/// The offset at which the part in the temporary file `name` belongs.
pub fn part_offset(name: &str) -> (r: Result<u64, NumberError>)
    ensures
        match r {
            Ok(offset) => part_offset_of(name@) == Ok::<nat, NumberError>(offset as nat),
            Err(e) => part_offset_of(name@) == Err::<nat, NumberError>(e),
        },
{
    let chars = to_chars(name);
    let prefix = to_chars("temp_");
    let start = leading_matches(chars.as_slice(), prefix.as_slice());
    let body = slice_subrange(chars.as_slice(), start, chars.len());
    proof {
        assert(body@ =~= trim_start_matches(name@, "temp_"@));
    }
    let (digits, _) = split_first(body, '-');
    parse_number(digits, u64::MAX)
}

/// The name of the temporary file of a range gives back the offset at which
/// the range starts.
pub proof fn lemma_part_offset_of_file_name(range: ByteRange)
    ensures
        part_offset_of(part_file_text(range)) == Ok::<nat, NumberError>(range.start as nat),
{
    reveal_strlit("temp_");
    reveal_strlit("-");
    let start = decimal_text(range.start as nat);
    let end = decimal_text(range.end as nat);
    let rest = start + "-"@ + end;
    let name = part_file_text(range);
    lemma_decimal_text(range.start as nat);
    lemma_decimal_text(range.end as nat);
    assert(name =~= "temp_"@ + rest);
    assert("temp_"@.is_prefix_of(name));
    assert(name.skip(5) =~= rest);
    assert(rest[0] == start[0]);
    let prefix = "temp_"@;
    assert(!prefix.is_prefix_of(rest)) by {
        assert(all_digits(start));
        assert(prefix[0] == 't');
        if prefix.is_prefix_of(rest) {
            assert(rest.subrange(0, prefix.len() as int)[0] == prefix[0]);
        }
    }
    assert(trim_start_matches(rest, prefix) == rest);
    assert(name.skip(prefix.len() as int) =~= rest);
    assert(trim_start_matches(name, prefix) == rest);
    assert forall|i: int| 0 <= i < start.len() implies rest[i] != '-' by {
        assert(rest[i] == start[i]);
    }
    assert(rest[start.len() as int] == '-');
    lemma_find(rest, '-', start.len() as int);
    assert(first_piece(rest, '-') =~= start);
}

/// Why a download produced no file.
#[derive(Debug, Clone, Copy, PartialEq, Eq, Structural)]
pub enum JobError {
    /// The fetch of a range failed.
    Transfer(TransferError),
    /// The parts could not be put together.
    Assembly(AssemblyError),
}

/// What each outcome of a fetch stands for, in the same order.
pub open spec fn outcome_views(outcomes: Seq<Result<FetchedPart, TransferError>>) -> Seq<
    Result<Part, TransferError>,
> {
    Seq::new(
        outcomes.len(),
        |i: int|
            match outcomes[i] {
                Ok(part) => Ok(part@),
                Err(e) => Err(e),
            },
    )
}

/// The error of the first outcome that is a failure.
pub open spec fn first_failure(outcomes: Seq<Result<Part, TransferError>>) -> Option<TransferError>
    decreases outcomes.len(),
{
    if outcomes.len() == 0 {
        None
    } else {
        match first_failure(outcomes.drop_last()) {
            Some(e) => Some(e),
            None => match outcomes.last() {
                Ok(_) => None,
                Err(e) => Some(e),
            },
        }
    }
}

/// The parts that the outcomes brought, in the order of the outcomes.
pub open spec fn delivered(outcomes: Seq<Result<Part, TransferError>>) -> Seq<Part>
    decreases outcomes.len(),
{
    if outcomes.len() == 0 {
        Seq::empty()
    } else {
        match outcomes.last() {
            Ok(part) => delivered(outcomes.drop_last()).push(part),
            Err(_) => delivered(outcomes.drop_last()),
        }
    }
}

/// What a download comes to, given the outcomes of its fetches in the order
/// in which they ended: if a fetch failed, the job fails with the error of
/// the first that did; otherwise the parts are assembled.
pub open spec fn job_result(
    ranges: Seq<ByteRange>,
    total: u64,
    outcomes: Seq<Result<Part, TransferError>>,
) -> Result<Seq<u8>, JobError> {
    match first_failure(outcomes) {
        Some(e) => Err(JobError::Transfer(e)),
        None => match assembled(ranges, total, delivered(outcomes)) {
            Ok(file) => Ok(file),
            Err(e) => Err(JobError::Assembly(e)),
        },
    }
}

/// No outcome is a failure exactly if there is no first failure.
pub proof fn lemma_first_failure(outcomes: Seq<Result<Part, TransferError>>)
    ensures
        first_failure(outcomes) is None <==> (forall|i: int|
            0 <= i < outcomes.len() ==> (#[trigger] outcomes[i]) is Ok),
    decreases outcomes.len(),
{
    if outcomes.len() > 0 {
        let init = outcomes.drop_last();
        lemma_first_failure(init);
        if first_failure(outcomes) is None {
            assert forall|i: int| 0 <= i < outcomes.len() implies (#[trigger] outcomes[i]) is Ok by {
                if i < init.len() {
                    assert(init[i] is Ok);
                }
            }
        } else if first_failure(init) is Some {
            let i = choose|i: int| 0 <= i < init.len() && !((#[trigger] init[i]) is Ok);
            assert(!(outcomes[i] is Ok));
        }
    }
}

/// One failed fetch fails the whole job: no file comes of it.
pub proof fn lemma_failure_fails_job(
    ranges: Seq<ByteRange>,
    total: u64,
    outcomes: Seq<Result<Part, TransferError>>,
    i: int,
)
    requires
        0 <= i < outcomes.len(),
        outcomes[i] is Err,
    ensures
        job_result(ranges, total, outcomes) matches Err(JobError::Transfer(_)),
{
    lemma_first_failure(outcomes);
}

/// Where every fetch brought its part and the parts are a complete set for
/// the plan, the download gives the file: it has exactly `total` bytes and
/// holds the parts' bytes in the order of their ranges. The order in which the
/// fetches ended plays no part in it.
pub proof fn lemma_complete_job(
    ranges: Seq<ByteRange>,
    total: u64,
    outcomes: Seq<Result<Part, TransferError>>,
)
    requires
        tiles(ranges, total),
        total <= usize::MAX,
        forall|i: int| 0 <= i < outcomes.len() ==> (#[trigger] outcomes[i]) is Ok,
        complete(ranges, delivered(outcomes)),
    ensures
        job_result(ranges, total, outcomes) == Ok::<Seq<u8>, JobError>(
            in_range_order(delivered(outcomes), ranges.len()),
        ),
        in_range_order(delivered(outcomes), ranges.len()).len() == total,
{
    lemma_first_failure(outcomes);
    lemma_assembled_iff_complete(ranges, total, delivered(outcomes));
    lemma_complete_written(ranges, total, delivered(outcomes));
}

/// Brings a download to its end. `outcomes` holds what each fetch of the job
/// came to, in the order in which the fetches ended, all of them having
/// ended.
///
/// If a fetch failed, the job fails with the error of the first one in
/// `outcomes` that did, and nothing is assembled. Otherwise the parts are
/// assembled, and the file comes back: of a complete set of parts it has the
/// job's size and holds the parts' bytes in the order of their ranges,
/// whatever the order in which the fetches ended.
pub fn download(job: &DownloadJob, outcomes: Vec<Result<FetchedPart, TransferError>>) -> (r: Result<
    Vec<u8>,
    JobError,
>)
    ensures
        match r {
            Ok(file) => job_result(job@.ranges, job@.total_size, outcome_views(outcomes@)) == Ok::<
                Seq<u8>,
                JobError,
            >(file@),
            Err(e) => job_result(job@.ranges, job@.total_size, outcome_views(outcomes@)) == Err::<
                Seq<u8>,
                JobError,
            >(e),
        },
        r matches Ok(file) ==> file@.len() == job@.total_size && file@ == in_range_order(
            delivered(outcome_views(outcomes@)),
            job@.ranges.len(),
        ),
{
    let ghost all = outcome_views(outcomes@);
    let mut parts: Vec<FetchedPart> = Vec::new();
    for outcome in it: outcomes
        invariant
            it.seq() == outcomes@,
            all == outcome_views(outcomes@),
            first_failure(all.take(it.index() as int)) is None,
            part_views(parts@) == delivered(all.take(it.index() as int)),
    {
        proof {
            let k = it.index() as int;
            assert(all.take(k + 1).drop_last() =~= all.take(k));
        }
        match outcome {
            Err(e) => {
                proof {
                    lemma_first_failure_extends(all, it.index() + 1);
                }
                return Err(JobError::Transfer(e));
            },
            Ok(part) => {
                parts.push(part);
                proof {
                    let k = it.index() as int;
                    assert(part_views(parts@) =~= delivered(all.take(k)).push(part@));
                }
            },
        }
    }
    proof {
        assert(all.take(all.len() as int) =~= all);
    }
    match assemble(job, &parts) {
        Ok(file) => Ok(file),
        Err(e) => Err(JobError::Assembly(e)),
    }
}

/// A failure among the first `k` outcomes is the first failure of them all.
proof fn lemma_first_failure_extends(outcomes: Seq<Result<Part, TransferError>>, k: int)
    requires
        0 <= k <= outcomes.len(),
        first_failure(outcomes.take(k)) is Some,
    ensures
        first_failure(outcomes) == first_failure(outcomes.take(k)),
    decreases outcomes.len() - k,
{
    if k < outcomes.len() {
        assert(outcomes.take(k + 1).drop_last() =~= outcomes.take(k));
        lemma_first_failure_extends(outcomes, k + 1);
    } else {
        assert(outcomes.take(k) =~= outcomes);
    }
}

} // verus!
