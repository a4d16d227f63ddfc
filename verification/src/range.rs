//! Byte ranges and the planner that cuts a file into them.
//!
//! A range is half open: it holds the offsets from `start` up to, but not
//! including, `end`. A plan for a file of `total` bytes is a sequence of
//! ranges that lie end to end from offset 0 to offset `total`.

use vstd::prelude::*;
use vstd::arithmetic::mul::*;
use vstd::arithmetic::div_mod::*;
use crate::text::{decimal_text, push_decimal};

verus! {

/// A contiguous span of byte offsets of a file: `start` is the first offset
/// in it, `end` the first offset after it. `index` is the position of the
/// range among the planned ranges; it says where the range stands in the
/// plan, not when it is fetched.
#[derive(Debug, Clone, Copy, PartialEq, Eq, Structural)]
pub struct ByteRange {
    pub index: u64,
    pub start: u64,
    pub end: u64,
}

/// The planner was given input for which there is no plan.
#[derive(Debug, Clone, Copy, PartialEq, Eq, Structural)]
pub enum PlanningError {
    /// A file cannot be cut into zero ranges.
    ZeroWorkers,
}

impl ByteRange {
    /// The number of bytes in the range; a range whose `end` is not above
    /// its `start` holds none.
    pub open spec fn span(self) -> nat {
        if self.end >= self.start {
            (self.end - self.start) as nat
        } else {
            0
        }
    }

    /// The range holds the byte at `offset`.
    pub open spec fn covers(self, offset: int) -> bool {
        self.start <= offset < self.end
    }

    /// The value of the HTTP `Range` header that asks for this range: the
    /// unit `bytes`, the first offset and the last offset, both inclusive.
    pub open spec fn header_text(self) -> Seq<char>
        recommends
            self.span() > 0,
    {
        "bytes="@ + decimal_text(self.start as nat) + "-"@ + decimal_text((self.end - 1) as nat)
    }

    /// The number of bytes in the range.
    pub fn len(&self) -> (n: u64)
        ensures
            n == self.span(),
    {
        if self.end >= self.start {
            self.end - self.start
        } else {
            0
        }
    }

    /// Whether the range holds no byte.
    pub fn is_empty(&self) -> (e: bool)
        ensures
            e == (self.span() == 0),
    {
        self.end <= self.start
    }

    /// The last offset in the range; `None` for an empty range, which has none.
    pub fn last(&self) -> (l: Option<u64>)
        ensures
            l == (if self.span() > 0 {
                Some((self.end - 1) as u64)
            } else {
                None
            }),
    {
        if self.end > self.start {
            Some(self.end - 1)
        } else {
            None
        }
    }

    /// The value of the `Range` header that asks for this range. An empty
    /// range cannot be asked for, so it has none.
    pub fn header(&self) -> (h: Option<String>)
        ensures
            self.span() == 0 <==> h is None,
            h matches Some(text) ==> text@ == self.header_text(),
    {
        if self.end <= self.start {
            return None;
        }
        let mut text = String::from_str("bytes=");
        push_decimal(&mut text, self.start);
        text.append("-");
        push_decimal(&mut text, self.end - 1);
        Some(text)
    }
}

/// The size of every planned range but the last: the whole part of
/// `total / workers`.
pub open spec fn chunk_size(total: u64, workers: u64) -> nat
    recommends
        workers > 0,
{
    (total as nat) / (workers as nat)
}

/// The range with number `i` of the plan for `total` bytes and `workers`
/// ranges: it starts at `i` chunks, and ends one chunk later, except for the
/// last one, which ends where the file ends.
pub open spec fn planned_range(total: u64, workers: u64, i: int) -> ByteRange
    recommends
        0 <= i < workers,
{
    ByteRange {
        index: i as u64,
        start: (chunk_size(total, workers) * i) as u64,
        end: if i + 1 == workers {
            total
        } else {
            (chunk_size(total, workers) * (i + 1)) as u64
        },
    }
}

/// The plan for a file of `total` bytes and `workers` ranges. An empty file
/// gets a single empty range, whatever the number of workers.
pub open spec fn planned(total: u64, workers: u64) -> Seq<ByteRange>
    recommends
        workers > 0,
{
    if total == 0 {
        seq![ByteRange { index: 0, start: 0, end: 0 }]
    } else {
        Seq::new(workers as nat, |i: int| planned_range(total, workers, i))
    }
}

/// The ranges lie end to end from offset 0 to offset `total`, each numbered
/// by its position.
pub open spec fn tiles(ranges: Seq<ByteRange>, total: u64) -> bool {
    &&& ranges.len() > 0
    &&& ranges[0].start == 0
    &&& ranges.last().end == total
    &&& forall|i: int|
        0 <= i < ranges.len() ==> (#[trigger] ranges[i]).index == i && ranges[i].start
            <= ranges[i].end
    &&& forall|i: int|
        0 <= i < ranges.len() - 1 ==> (#[trigger] ranges[i]).end == ranges[i + 1].start
}

/// No two of the ranges share an offset.
pub open spec fn pairwise_disjoint(ranges: Seq<ByteRange>) -> bool {
    forall|i: int, j: int, offset: int|
        0 <= i < ranges.len() && 0 <= j < ranges.len() && i != j ==> !(#[trigger] ranges[i].covers(
            offset,
        ) && #[trigger] ranges[j].covers(offset))
}

/// One of the ranges holds the byte at `offset`.
pub open spec fn covered(ranges: Seq<ByteRange>, offset: int) -> bool {
    exists|i: int| 0 <= i < ranges.len() && #[trigger] ranges[i].covers(offset)
}

/// The offsets that the ranges hold are exactly those from 0 up to `total`.
pub open spec fn covers_exactly(ranges: Seq<ByteRange>, total: u64) -> bool {
    forall|offset: int| (0 <= offset < total) <==> #[trigger] covered(ranges, offset)
}

/// In a tiling, a later range starts where an earlier one ends, or after it.
pub proof fn lemma_tiles_ordered(ranges: Seq<ByteRange>, total: u64, i: int, j: int)
    requires
        tiles(ranges, total),
        0 <= i < j < ranges.len(),
    ensures
        ranges[i].end <= ranges[j].start,
    decreases j - i,
{
    if i + 1 < j {
        lemma_tiles_ordered(ranges, total, i, j - 1);
        assert(ranges[j - 1].end == ranges[j].start);
        assert(ranges[j - 1].start <= ranges[j - 1].end);
    } else {
        assert(ranges[i].end == ranges[i + 1].start);
    }
}

/// In a tiling, every range lies within the file.
pub proof fn lemma_tiles_bounded(ranges: Seq<ByteRange>, total: u64, i: int)
    requires
        tiles(ranges, total),
        0 <= i < ranges.len(),
    ensures
        ranges[i].start <= ranges[i].end <= total,
{
    let last = ranges.len() - 1;
    assert(ranges[i].start <= ranges[i].end);
    assert(ranges[last].start <= ranges[last].end);
    if i < last {
        lemma_tiles_ordered(ranges, total, i, last);
    }
}

/// In a tiling, the range that holds `offset` is at `k` or after it, for
/// every `k` whose range does not start after `offset`.
proof fn lemma_tiles_find(ranges: Seq<ByteRange>, total: u64, offset: int, k: int) -> (i: int)
    requires
        tiles(ranges, total),
        0 <= k < ranges.len(),
        ranges[k].start <= offset < total,
    ensures
        k <= i < ranges.len(),
        ranges[i].covers(offset),
    decreases ranges.len() - k,
{
    if offset < ranges[k].end {
        k
    } else {
        assert(ranges[k].end == ranges[k + 1].start) by {
            assert(ranges.last().end == total);
        }
        lemma_tiles_find(ranges, total, offset, k + 1)
    }
}

/// Ranges that lie end to end from 0 to `total` do not overlap, and together
/// they hold every offset of the file and no other: no gap, and nothing lost
/// at the end.
pub proof fn lemma_tiles_partition(ranges: Seq<ByteRange>, total: u64)
    requires
        tiles(ranges, total),
    ensures
        pairwise_disjoint(ranges),
        covers_exactly(ranges, total),
{
    assert forall|i: int, j: int, offset: int|
        0 <= i < ranges.len() && 0 <= j < ranges.len() && i != j implies !(
        #[trigger] ranges[i].covers(offset) && #[trigger] ranges[j].covers(offset)) by {
        if i < j {
            lemma_tiles_ordered(ranges, total, i, j);
        } else {
            lemma_tiles_ordered(ranges, total, j, i);
        }
    }
    assert forall|offset: int| (0 <= offset < total) <==> #[trigger] covered(
        ranges,
        offset,
    ) by {
        if 0 <= offset < total {
            let i = lemma_tiles_find(ranges, total, offset, 0);
            assert(ranges[i].covers(offset));
        }
        if covered(ranges, offset) {
            let i = choose|i: int| 0 <= i < ranges.len() && #[trigger] ranges[i].covers(offset);
            lemma_tiles_bounded(ranges, total, i);
        }
    }
}

/// A boundary of the plan lies within the file.
proof fn lemma_boundary(total: u64, workers: u64, i: int)
    requires
        workers > 0,
        0 <= i <= workers,
    ensures
        0 <= chunk_size(total, workers) * i <= total,
        i < workers ==> chunk_size(total, workers) * i + chunk_size(total, workers)
            == chunk_size(total, workers) * (i + 1),
{
    let c = chunk_size(total, workers) as int;
    let w = workers as int;
    lemma_fundamental_div_mod(total as int, w);
    lemma_mod_bound(total as int, w);
    assert(c * w <= total) by {
        lemma_mul_is_commutative(c, w);
    }
    assert(0 <= c) by {
        lemma_div_pos_is_pos(total as int, w);
    }
    lemma_mul_inequality(i, w, c);
    lemma_mul_is_commutative(c, i);
    lemma_mul_is_commutative(c, w);
    lemma_mul_nonnegative(c, i);
    lemma_mul_is_distributive_add(c, i, 1);
}

/// The plan for a file is a tiling of it.
pub proof fn lemma_planned_tiles(total: u64, workers: u64)
    requires
        workers > 0,
    ensures
        tiles(planned(total, workers), total),
{
    let ranges = planned(total, workers);
    if total > 0 {
        assert forall|i: int| 0 <= i < ranges.len() implies (#[trigger] ranges[i]).index == i
            && ranges[i].start <= ranges[i].end by {
            lemma_boundary(total, workers, i);
            lemma_boundary(total, workers, i + 1);
        }
        assert forall|i: int| 0 <= i < ranges.len() - 1 implies (#[trigger] ranges[i]).end
            == ranges[i + 1].start by {
            lemma_boundary(total, workers, i + 1);
        }
        lemma_boundary(total, workers, 0);
    }
}

/// For every size and every number of workers from one on, the planned
/// ranges do not overlap, and together they hold exactly the offsets from 0
/// up to the size: there is no gap, and nothing is lost at the end.
pub proof fn lemma_plan_partitions(total: u64, workers: u64)
    requires
        workers >= 1,
    ensures
        pairwise_disjoint(planned(total, workers)),
        covers_exactly(planned(total, workers), total),
{
    lemma_planned_tiles(total, workers);
    lemma_tiles_partition(planned(total, workers), total);
}

/// Cuts a file of `total_size` bytes into `worker_count` ranges that lie end
/// to end: each but the last holds `total_size / worker_count` bytes, rounded
/// down, and the last one runs to the end of the file, so that no byte at the
/// end is left out. An empty file gets one empty range. The ranges do not
/// overlap, and together they hold every offset of the file and no other.
pub fn plan(total_size: u64, worker_count: u64) -> (r: Result<Vec<ByteRange>, PlanningError>)
    ensures
        worker_count == 0 <==> r is Err,
        r matches Err(e) ==> e == PlanningError::ZeroWorkers,
        r matches Ok(ranges) ==> {
            &&& ranges@ == planned(total_size, worker_count)
            &&& tiles(ranges@, total_size)
            &&& pairwise_disjoint(ranges@)
            &&& covers_exactly(ranges@, total_size)
        },
{
    if worker_count == 0 {
        return Err(PlanningError::ZeroWorkers);
    }
    let mut ranges: Vec<ByteRange> = Vec::new();
    proof {
        lemma_planned_tiles(total_size, worker_count);
        lemma_plan_partitions(total_size, worker_count);
    }
    if total_size == 0 {
        ranges.push(ByteRange { index: 0, start: 0, end: 0 });
        assert(ranges@ =~= planned(total_size, worker_count));
        return Ok(ranges);
    }
    let chunk: u64 = total_size / worker_count;
    let mut i: u64 = 0;
    let mut start: u64 = 0;
    while i < worker_count
        invariant
            worker_count > 0,
            total_size > 0,
            chunk == chunk_size(total_size, worker_count),
            i <= worker_count,
            start == chunk * i,
            ranges@.len() == i,
            forall|k: int|
                0 <= k < i ==> ranges@[k] == planned_range(total_size, worker_count, k),
        decreases worker_count - i,
    {
        proof {
            lemma_boundary(total_size, worker_count, i as int);
            lemma_boundary(total_size, worker_count, i + 1);
        }
        let end: u64 = if i + 1 == worker_count {
            total_size
        } else {
            start + chunk
        };
        ranges.push(ByteRange { index: i, start, end });
        start = start + chunk;
        i = i + 1;
    }
    assert(ranges@ =~= planned(total_size, worker_count));
    Ok(ranges)
}

} // verus!
