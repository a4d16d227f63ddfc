//! One fetch of one range: what is asked of the server, and what is made of
//! its answer.
//!
//! The transfer itself is the caller's business. The caller hands over what
//! came back as a [`Response`], and [`fetch`] decides whether it yields the
//! bytes of the range or an error that names the range and the cause.

use vstd::prelude::*;
use vstd::slice::{slice_subrange, slice_to_vec};
use crate::range::ByteRange;

verus! {

/// The bytes that were downloaded for one range.
#[derive(Debug, Clone, PartialEq, Eq)]
pub struct FetchedPart {
    pub range: ByteRange,
    pub bytes: Vec<u8>,
}

/// What a [`FetchedPart`] stands for: a range and the bytes for it.
pub ghost struct Part {
    pub range: ByteRange,
    pub bytes: Seq<u8>,
}

impl View for FetchedPart {
    type V = Part;

    open spec fn view(&self) -> Part {
        Part { range: self.range, bytes: self.bytes@ }
    }
}

/// What each of the parts stands for, in the same order.
pub open spec fn part_views(parts: Seq<FetchedPart>) -> Seq<Part> {
    Seq::new(parts.len(), |i: int| parts[i]@)
}

/// Why the fetch of a range failed.
#[derive(Debug, Clone, Copy, PartialEq, Eq, Structural)]
pub enum TransferCause {
    /// The transfer broke off, or never began.
    Network,
    /// The transfer took longer than the caller allows.
    Timeout,
    /// The server answered with a status that is not one of success.
    Status { code: u16 },
    /// The body holds fewer bytes than are needed: `expected` are needed,
    /// `received` came.
    Truncated { expected: u64, received: u64 },
}

/// The fetch of `range` failed, for the reason `cause`.
#[derive(Debug, Clone, Copy, PartialEq, Eq, Structural)]
pub struct TransferError {
    pub range: ByteRange,
    pub cause: TransferCause,
}

/// What came back from the transport for one request.
#[derive(Debug, Clone, PartialEq, Eq)]
pub enum Response {
    /// Nothing usable came back: the connection failed or broke off.
    Failed,
    /// Nothing came back in time.
    TimedOut,
    /// The server answered with this status and this body.
    Answered { status: u16, body: Vec<u8> },
}

/// What a [`Response`] stands for.
pub ghost enum ResponseView {
    Failed,
    TimedOut,
    Answered { status: u16, body: Seq<u8> },
}

impl View for Response {
    type V = ResponseView;

    open spec fn view(&self) -> ResponseView {
        match *self {
            Response::Failed => ResponseView::Failed,
            Response::TimedOut => ResponseView::TimedOut,
            Response::Answered { status, body } => ResponseView::Answered { status, body: body@ },
        }
    }
}

/// The status says that the body is the range that was asked for
/// (206 Partial Content).
pub open spec fn is_partial(status: u16) -> bool {
    status == 206
}

/// The status is one of success, and the body is the file from its first
/// byte on, because the server did not honour the `Range` header.
pub open spec fn is_whole(status: u16) -> bool {
    200 <= status <= 299 && status != 206
}

/// What the answer `status`, `body` yields for `range`.
///
/// A partial answer must hold at least as many bytes as the range; the range
/// is the first of them, and what follows is left out. A whole-file answer
/// must reach to the end of the range; the range is cut out of it. An empty
/// range needs no byte of either. Any other status is an error.
pub open spec fn answered(range: ByteRange, status: u16, body: Seq<u8>) -> Result<
    Part,
    TransferError,
> {
    if is_partial(status) {
        if body.len() < range.span() {
            Err(
                TransferError {
                    range,
                    cause: TransferCause::Truncated {
                        expected: range.span() as u64,
                        received: body.len() as u64,
                    },
                },
            )
        } else {
            Ok(Part { range, bytes: body.take(range.span() as int) })
        }
    } else if is_whole(status) {
        if range.span() == 0 {
            Ok(Part { range, bytes: Seq::empty() })
        } else if body.len() < range.end {
            Err(
                TransferError {
                    range,
                    cause: TransferCause::Truncated {
                        expected: range.end,
                        received: body.len() as u64,
                    },
                },
            )
        } else {
            Ok(Part { range, bytes: body.subrange(range.start as int, range.end as int) })
        }
    } else {
        Err(TransferError { range, cause: TransferCause::Status { code: status } })
    }
}

/// What the response yields for `range`: its bytes, or the error that names
/// the range and says why there are none.
pub open spec fn fetched(range: ByteRange, response: ResponseView) -> Result<Part, TransferError> {
    match response {
        ResponseView::Failed => Err(TransferError { range, cause: TransferCause::Network }),
        ResponseView::TimedOut => Err(TransferError { range, cause: TransferCause::Timeout }),
        ResponseView::Answered { status, body } => answered(range, status, body),
    }
}

/// A part that a fetch yields holds exactly the bytes of its range.
pub proof fn lemma_fetched_part_fills_range(range: ByteRange, response: ResponseView)
    ensures
        fetched(range, response) matches Ok(part) ==> part.range == range && part.bytes.len()
            == range.span(),
        fetched(range, response) matches Err(e) ==> e.range == range,
{
}

/// Turns what came back for `range` into the part for that range, or into
/// the error that names the range and the cause.
pub fn fetch(range: ByteRange, response: Response) -> (r: Result<FetchedPart, TransferError>)
    ensures
        match r {
            Ok(part) => fetched(range, response@) == Ok::<Part, TransferError>(part@),
            Err(e) => fetched(range, response@) == Err::<Part, TransferError>(e),
        },
{
    match response {
        Response::Failed => Err(TransferError { range, cause: TransferCause::Network }),
        Response::TimedOut => Err(TransferError { range, cause: TransferCause::Timeout }),
        Response::Answered { status, body } => {
            let span: u64 = range.len();
            let received: u64 = body.len() as u64;
            if status == 206 {
                if received < span {
                    Err(
                        TransferError {
                            range,
                            cause: TransferCause::Truncated { expected: span, received },
                        },
                    )
                } else {
                    let bytes = slice_to_vec(slice_subrange(body.as_slice(), 0, span as usize));
                    Ok(FetchedPart { range, bytes })
                }
            } else if 200 <= status && status <= 299 {
                if span == 0 {
                    Ok(FetchedPart { range, bytes: Vec::new() })
                } else if received < range.end {
                    Err(
                        TransferError {
                            range,
                            cause: TransferCause::Truncated { expected: range.end, received },
                        },
                    )
                } else {
                    let bytes = slice_to_vec(
                        slice_subrange(body.as_slice(), range.start as usize, range.end as usize),
                    );
                    Ok(FetchedPart { range, bytes })
                }
            } else {
                Err(TransferError { range, cause: TransferCause::Status { code: status } })
            }
        },
    }
}

/// The offset in the body at which the bytes of `range` begin, for an answer
/// with the status `status`: the start of the body where it is the range
/// itself, the start of the range where it is the whole file.
pub open spec fn wanted_from(range: ByteRange, status: u16) -> nat {
    if is_partial(status) {
        0
    } else {
        range.start as nat
    }
}

/// The bytes of `body` that belong to `range`, as far as `body` reaches:
/// nothing for an empty range or a status that is not one of success.
pub open spec fn wanted(range: ByteRange, status: u16, body: Seq<u8>) -> Seq<u8> {
    let from = wanted_from(range, status);
    let to = from + range.span();
    if !(is_partial(status) || is_whole(status)) {
        Seq::empty()
    } else if body.len() <= from {
        Seq::empty()
    } else if body.len() <= to {
        body.subrange(from as int, body.len() as int)
    } else {
        body.subrange(from as int, to as int)
    }
}

/// The buffer of one fetch. The body of the answer is handed to it piece by
/// piece as it arrives; it keeps the bytes that belong to its range and no
/// others, so that it never holds more than the range, and it counts how
/// much of the body has come.
pub struct PartBuffer {
    range: ByteRange,
    status: u16,
    seen: u64,
    kept: Vec<u8>,
    body: Ghost<Seq<u8>>,
}

/// What a [`PartBuffer`] stands for: the range it is for, the status of the
/// answer, and all of the body that has come so far.
pub ghost struct PartBufferView {
    pub range: ByteRange,
    pub status: u16,
    pub body: Seq<u8>,
}

impl View for PartBuffer {
    type V = PartBufferView;

    closed spec fn view(&self) -> PartBufferView {
        PartBufferView { range: self.range, status: self.status, body: self.body@ }
    }
}

impl PartBuffer {
    #[verifier::type_invariant]
    spec fn well_formed(&self) -> bool {
        &&& self.seen == (if self.body@.len() <= u64::MAX {
            self.body@.len() as int
        } else {
            u64::MAX as int
        })
        &&& self.kept@ == wanted(self.range, self.status, self.body@)
    }

    /// A buffer for the answer to the request for `range`, which came with
    /// the status `status`. None of the body has come yet.
    pub fn new(range: ByteRange, status: u16) -> (buffer: PartBuffer)
        ensures
            buffer@ == (PartBufferView { range, status, body: Seq::empty() }),
    {
        PartBuffer { range, status, seen: 0, kept: Vec::new(), body: Ghost(Seq::empty()) }
    }

    /// Takes the next piece of the body.
    pub fn push(self, chunk: &[u8]) -> (buffer: PartBuffer)
        ensures
            buffer@ == (PartBufferView { body: self@.body + chunk@, ..self@ }),
    {
        proof {
            use_type_invariant(&self);
        }
        let PartBuffer { range, status, seen, kept, body } = self;
        let mut kept = kept;
        let ghost after = body@ + chunk@;
        let success = 200 <= status && status <= 299;
        let from: u64 = if status == 206 {
            0
        } else {
            range.start
        };
        let span: u64 = range.len();
        let count: u64 = chunk.len() as u64;
        let next: u64 = if count > u64::MAX - seen {
            u64::MAX
        } else {
            seen + count
        };
        if success && span > 0 && next > from && (seen < from || seen - from < span) {
            let to: u64 = from + span;
            let lo: u64 = if seen < from {
                from
            } else {
                seen
            };
            let hi: u64 = if next < to {
                next
            } else {
                to
            };
            let mut at: usize = (lo - seen) as usize;
            let end: usize = (hi - seen) as usize;
            let ghost kept_before = kept@;
            let ghost first: int = lo - seen;
            while at < end
                invariant
                    0 <= first <= at <= end <= chunk@.len(),
                    kept@ == kept_before + chunk@.subrange(first, at as int),
                decreases end - at,
            {
                kept.push(chunk[at]);
                at = at + 1;
                assert(kept@ =~= kept_before + chunk@.subrange(first, at as int));
            }
            assert(kept@ =~= wanted(range, status, after));
        } else {
            assert(kept@ =~= wanted(range, status, after));
        }
        PartBuffer { range, status, seen: next, kept, body: Ghost(after) }
    }

    /// How many bytes of the body have come so far.
    pub fn received(&self) -> (received: u64)
        ensures
            received == (if self@.body.len() <= u64::MAX {
                self@.body.len() as int
            } else {
                u64::MAX as int
            }),
    {
        proof {
            use_type_invariant(self);
        }
        self.seen
    }

    /// Ends the fetch once the body has come to its end: what the whole
    /// answer yields for the range, as [`fetch`] would say of the body in one
    /// piece.
    pub fn finish(self) -> (r: Result<FetchedPart, TransferError>)
        ensures
            match r {
                Ok(part) => answered(self@.range, self@.status, self@.body) == Ok::<
                    Part,
                    TransferError,
                >(part@),
                Err(e) => answered(self@.range, self@.status, self@.body) == Err::<
                    Part,
                    TransferError,
                >(e),
            },
    {
        proof {
            use_type_invariant(&self);
        }
        let range = self.range;
        let span: u64 = range.len();
        if self.status == 206 {
            if self.seen < span {
                Err(
                    TransferError {
                        range,
                        cause: TransferCause::Truncated { expected: span, received: self.seen },
                    },
                )
            } else {
                assert(self.kept@ =~= self.body@.take(span as int));
                Ok(FetchedPart { range, bytes: self.kept })
            }
        } else if 200 <= self.status && self.status <= 299 {
            if span == 0 {
                assert(self.kept@ =~= Seq::<u8>::empty());
                Ok(FetchedPart { range, bytes: self.kept })
            } else if self.seen < range.end {
                Err(
                    TransferError {
                        range,
                        cause: TransferCause::Truncated { expected: range.end, received: self.seen },
                    },
                )
            } else {
                Ok(FetchedPart { range, bytes: self.kept })
            }
        } else {
            Err(TransferError { range, cause: TransferCause::Status { code: self.status } })
        }
    }
}

/// The sum of the numbers in `counts`.
pub open spec fn sum(counts: Seq<u64>) -> nat
    decreases counts.len(),
{
    if counts.len() == 0 {
        0
    } else {
        sum(counts.drop_last()) + counts.last() as nat
    }
}

/// How far the fetches of a job have come: for each range, by its number,
/// the bytes received for it so far. Each fetch has a counter of its own, so
/// that what one fetch reports never touches what another has reported.
#[derive(Debug)]
pub struct Progress {
    counters: Vec<u64>,
}

impl View for Progress {
    type V = Seq<u64>;

    closed spec fn view(&self) -> Seq<u64> {
        self.counters@
    }
}

impl Progress {
    /// The progress of `count` fetches of which none has received anything.
    pub fn new(count: usize) -> (progress: Progress)
        ensures
            progress@ == Seq::new(count as nat, |i: int| 0u64),
    {
        let counters: Vec<u64> = vec![0u64; count];
        assert(counters@ =~= Seq::new(count as nat, |i: int| 0u64));
        Progress { counters }
    }

    /// Notes that the fetch of the range with number `index` has received
    /// `received` bytes so far. Says whether there is such a range; if there
    /// is none, nothing changes.
    pub fn record(&mut self, index: usize, received: u64) -> (known: bool)
        ensures
            known == (index < old(self)@.len()),
            known ==> final(self)@ == old(self)@.update(index as int, received),
            !known ==> final(self)@ == old(self)@,
    {
        if index < self.counters.len() {
            self.counters.set(index, received);
            true
        } else {
            false
        }
    }

    /// The bytes received so far for the range with number `index`.
    pub fn received(&self, index: usize) -> (received: Option<u64>)
        ensures
            received == (if index < self@.len() {
                Some(self@[index as int])
            } else {
                None
            }),
    {
        if index < self.counters.len() {
            Some(self.counters[index])
        } else {
            None
        }
    }

    /// The bytes received so far for all ranges together; `u64::MAX` if they
    /// are more than that.
    pub fn total(&self) -> (total: u64)
        ensures
            total == (if sum(self@) <= u64::MAX {
                sum(self@) as int
            } else {
                u64::MAX as int
            }),
    {
        let mut total: u64 = 0;
        let mut i: usize = 0;
        proof {
            assert(self.counters@.take(0) =~= Seq::<u64>::empty());
        }
        while i < self.counters.len()
            invariant
                i <= self.counters@.len(),
                total == (if sum(self.counters@.take(i as int)) <= u64::MAX {
                    sum(self.counters@.take(i as int)) as int
                } else {
                    u64::MAX as int
                }),
            decreases self.counters@.len() - i,
        {
            proof {
                assert(self.counters@.take(i + 1).drop_last() =~= self.counters@.take(i as int));
            }
            let count = self.counters[i];
            total = if count > u64::MAX - total {
                u64::MAX
            } else {
                total + count
            };
            i = i + 1;
        }
        proof {
            assert(self.counters@.take(self.counters@.len() as int) =~= self.counters@);
        }
        total
    }
}

} // verus!
