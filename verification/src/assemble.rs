//! Putting the fetched parts together into the file.
//!
//! The file is modelled as a sequence of bytes that grows as it is written
//! to. Each part is written at the offset at which its range starts, so the
//! place of a byte in the file depends on its part alone, and the order in
//! which the parts are written makes no difference to what the file holds in
//! the end.

use vstd::prelude::*;
use crate::fetch::{part_views, FetchedPart, Part};
use crate::job::DownloadJob;
use crate::range::{
    lemma_tiles_bounded, lemma_tiles_ordered, lemma_tiles_partition, covered, tiles, ByteRange,
};

verus! {

/// Why the parts could not be put together.
#[derive(Debug, Clone, Copy, PartialEq, Eq, Structural)]
pub enum AssemblyError {
    /// The file has more bytes than can be held at once: `needed` of them.
    InsufficientSpace { needed: u64 },
    /// A part is for a range that the plan does not have.
    UnknownRange { range: ByteRange },
    /// A part holds `received` bytes, which is not the size of its range.
    LengthMismatch { range: ByteRange, received: u64 },
    /// A second part came for a range that has one already.
    DuplicatePart { range: ByteRange },
    /// No part came for a planned range.
    MissingPart { range: ByteRange },
}

/// The file after `bytes` have been written to it at `offset`. The bytes
/// replace what stood there and lengthen the file where they reach past its
/// end; a gap between the old end and `offset` is filled with zeros. Writing
/// no bytes leaves the file as it is.
pub open spec fn after_write(file: Seq<u8>, offset: nat, bytes: Seq<u8>) -> Seq<u8> {
    if bytes.len() == 0 {
        file
    } else {
        Seq::new(
            if file.len() >= offset + bytes.len() {
                file.len()
            } else {
                offset + bytes.len()
            },
            |i: int|
                if offset <= i < offset + bytes.len() {
                    bytes[i - offset]
                } else if i < file.len() {
                    file[i]
                } else {
                    0u8
                },
        )
    }
}

/// The file after the parts have been written to an empty file one after
/// another, in the order of the sequence, each at the start of its range.
pub open spec fn written(parts: Seq<Part>) -> Seq<u8>
    decreases parts.len(),
{
    if parts.len() == 0 {
        Seq::empty()
    } else {
        after_write(written(parts.drop_last()), parts.last().range.start as nat, parts.last().bytes)
    }
}

/// The part is for one of the planned ranges.
pub open spec fn is_planned(ranges: Seq<ByteRange>, part: Part) -> bool {
    part.range.index < ranges.len() && ranges[part.range.index as int] == part.range
}

/// One of the parts is for the range with number `index`.
pub open spec fn has_part(parts: Seq<Part>, index: int) -> bool {
    exists|j: int| 0 <= j < parts.len() && (#[trigger] parts[j]).range.index == index
}

/// What is wrong with the part at position `j`, given the parts before it:
/// its range is not in the plan, or it does not hold as many bytes as its
/// range, or an earlier part is for the same range. `None` if nothing is.
pub open spec fn defect(ranges: Seq<ByteRange>, parts: Seq<Part>, j: int) -> Option<AssemblyError>
    recommends
        0 <= j < parts.len(),
{
    let part = parts[j];
    if !is_planned(ranges, part) {
        Some(AssemblyError::UnknownRange { range: part.range })
    } else if part.bytes.len() != part.range.span() {
        Some(AssemblyError::LengthMismatch { range: part.range, received: part.bytes.len() as u64 })
    } else if has_part(parts.take(j), part.range.index as int) {
        Some(AssemblyError::DuplicatePart { range: part.range })
    } else {
        None
    }
}

/// The defect of the first part that has one.
pub open spec fn first_defect(ranges: Seq<ByteRange>, parts: Seq<Part>) -> Option<AssemblyError>
    decreases parts.len(),
{
    if parts.len() == 0 {
        None
    } else {
        match first_defect(ranges, parts.drop_last()) {
            Some(e) => Some(e),
            None => defect(ranges, parts, parts.len() - 1),
        }
    }
}

/// The first of the first `upto` planned ranges for which no part came.
pub open spec fn first_missing(ranges: Seq<ByteRange>, parts: Seq<Part>, upto: nat) -> Option<
    AssemblyError,
>
    recommends
        upto <= ranges.len(),
    decreases upto,
{
    if upto == 0 {
        None
    } else {
        match first_missing(ranges, parts, (upto - 1) as nat) {
            Some(e) => Some(e),
            None => if has_part(parts, upto - 1) {
                None
            } else {
                Some(AssemblyError::MissingPart { range: ranges[upto - 1] })
            },
        }
    }
}

/// The parts are a complete set for the plan: each is for a planned range
/// and holds as many bytes as its range, no two are for the same range, and
/// every planned range has one.
pub open spec fn complete(ranges: Seq<ByteRange>, parts: Seq<Part>) -> bool {
    &&& forall|j: int|
        0 <= j < parts.len() ==> is_planned(ranges, #[trigger] parts[j]) && parts[j].bytes.len()
            == parts[j].range.span()
    &&& forall|j: int, k: int|
        0 <= j < k < parts.len() ==> (#[trigger] parts[j]).range.index != (
        #[trigger] parts[k]).range.index
    &&& forall|i: int| 0 <= i < ranges.len() ==> #[trigger] has_part(parts, i)
}

/// The part for the range with number `index`.
pub open spec fn part_for(parts: Seq<Part>, index: int) -> Part {
    parts[choose|j: int| 0 <= j < parts.len() && (#[trigger] parts[j]).range.index == index]
}

/// The bytes of the parts for the first `count` ranges, one part after
/// another in the order of the ranges.
pub open spec fn in_range_order(parts: Seq<Part>, count: nat) -> Seq<u8>
    decreases count,
{
    if count == 0 {
        Seq::empty()
    } else {
        in_range_order(parts, (count - 1) as nat) + part_for(parts, count - 1).bytes
    }
}

/// What assembling the parts of a file of `total` bytes, planned as
/// `ranges`, gives: the written file, or the first thing that is wrong. A
/// file too large to be held comes first, then the first part with a defect,
/// then the first range without a part.
pub open spec fn assembled(ranges: Seq<ByteRange>, total: u64, parts: Seq<Part>) -> Result<
    Seq<u8>,
    AssemblyError,
> {
    if total > usize::MAX {
        Err(AssemblyError::InsufficientSpace { needed: total })
    } else if let Some(e) = first_defect(ranges, parts) {
        Err(e)
    } else if let Some(e) = first_missing(ranges, parts, ranges.len()) {
        Err(e)
    } else {
        Ok(written(parts))
    }
}

/// No part has a defect exactly if every part is for a planned range, holds
/// as many bytes as its range, and shares its range with no other part.
pub proof fn lemma_first_defect(ranges: Seq<ByteRange>, parts: Seq<Part>)
    ensures
        first_defect(ranges, parts) is None <==> {
            &&& forall|j: int|
                0 <= j < parts.len() ==> is_planned(ranges, #[trigger] parts[j])
                    && parts[j].bytes.len() == parts[j].range.span()
            &&& forall|j: int, k: int|
                0 <= j < k < parts.len() ==> (#[trigger] parts[j]).range.index != (
                #[trigger] parts[k]).range.index
        },
    decreases parts.len(),
{
    if parts.len() > 0 {
        let init = parts.drop_last();
        let last = parts.len() - 1;
        lemma_first_defect(ranges, init);
        assert(parts.take(last) =~= init);
        assert forall|j: int| 0 <= j < init.len() implies init[j] == parts[j] by {}
        if first_defect(ranges, parts) is None {
            assert forall|j: int, k: int| 0 <= j < k < parts.len() implies (
            #[trigger] parts[j]).range.index != (#[trigger] parts[k]).range.index by {
                if k == last {
                    if parts[j].range.index == parts[k].range.index {
                        assert(init[j].range.index == parts[last].range.index);
                        assert(has_part(init, parts[last].range.index as int));
                    }
                } else {
                    assert(init[j].range.index != init[k].range.index);
                }
            }
            assert forall|j: int| 0 <= j < parts.len() implies is_planned(
                ranges,
                #[trigger] parts[j],
            ) && parts[j].bytes.len() == parts[j].range.span() by {
                if j < last {
                    assert(is_planned(ranges, init[j]));
                }
            }
        } else {
            if first_defect(ranges, init) is None {
                assert(defect(ranges, parts, last) is Some);
                if has_part(init, parts[last].range.index as int) {
                    let j = choose|j: int|
                        0 <= j < init.len() && (#[trigger] init[j]).range.index
                            == parts[last].range.index;
                    assert(parts[j].range.index == parts[last].range.index);
                }
            } else {
                if forall|j: int|
                    0 <= j < parts.len() ==> is_planned(ranges, #[trigger] parts[j])
                        && parts[j].bytes.len() == parts[j].range.span() {
                    assert forall|j: int| 0 <= j < init.len() implies is_planned(
                        ranges,
                        #[trigger] init[j],
                    ) && init[j].bytes.len() == init[j].range.span() by {
                        assert(is_planned(ranges, parts[j]));
                    }
                }
                if forall|j: int, k: int|
                    0 <= j < k < parts.len() ==> (#[trigger] parts[j]).range.index != (
                    #[trigger] parts[k]).range.index {
                    assert forall|j: int, k: int| 0 <= j < k < init.len() implies (
                    #[trigger] init[j]).range.index != (#[trigger] init[k]).range.index by {
                        assert(parts[j].range.index != parts[k].range.index);
                    }
                }
            }
        }
    }
}

/// None of the first `upto` ranges is without a part exactly if each of them
/// has one.
pub proof fn lemma_first_missing(ranges: Seq<ByteRange>, parts: Seq<Part>, upto: nat)
    ensures
        first_missing(ranges, parts, upto) is None <==> (forall|i: int|
            0 <= i < upto ==> #[trigger] has_part(parts, i)),
    decreases upto,
{
    if upto > 0 {
        lemma_first_missing(ranges, parts, (upto - 1) as nat);
        if first_missing(ranges, parts, upto) is None {
            assert forall|i: int| 0 <= i < upto implies #[trigger] has_part(parts, i) by {
                if i < upto - 1 {
                } else {
                    assert(has_part(parts, upto - 1));
                }
            }
        } else if first_missing(ranges, parts, (upto - 1) as nat) is None {
            assert(!has_part(parts, upto - 1));
        }
    }
}

/// Assembling succeeds exactly on a complete set of parts, for a file that
/// can be held.
pub proof fn lemma_assembled_iff_complete(ranges: Seq<ByteRange>, total: u64, parts: Seq<Part>)
    ensures
        assembled(ranges, total, parts) is Ok <==> total <= usize::MAX && complete(ranges, parts),
{
    lemma_first_defect(ranges, parts);
    lemma_first_missing(ranges, parts, ranges.len());
}

/// What the file holds after the first `k` parts of a complete set have been
/// written: it is no longer than `total`, it reaches to the end of every
/// range written that is not empty, and within each range written it holds
/// the bytes of that range's part.
proof fn lemma_written_prefix(ranges: Seq<ByteRange>, total: u64, parts: Seq<Part>, k: int)
    requires
        tiles(ranges, total),
        complete(ranges, parts),
        0 <= k <= parts.len(),
    ensures
        written(parts.take(k)).len() <= total,
        forall|j: int|
            0 <= j < k && (#[trigger] parts[j]).range.span() > 0 ==> parts[j].range.end <= written(
                parts.take(k),
            ).len(),
        forall|j: int, p: int|
            0 <= j < k && (#[trigger] parts[j]).range.covers(p) ==> #[trigger] written(
                parts.take(k),
            )[p] == parts[j].bytes[p - parts[j].range.start],
    decreases k,
{
    if k > 0 {
        lemma_written_prefix(ranges, total, parts, k - 1);
        let before = written(parts.take(k - 1));
        let after = written(parts.take(k));
        let part = parts[k - 1];
        assert(parts.take(k).drop_last() =~= parts.take(k - 1));
        assert(parts.take(k).last() == part);
        assert(after == after_write(before, part.range.start as nat, part.bytes));
        assert(is_planned(ranges, part));
        lemma_tiles_bounded(ranges, total, part.range.index as int);
        lemma_tiles_partition(ranges, total);
        assert forall|j: int, p: int|
            0 <= j < k && (#[trigger] parts[j]).range.covers(p) implies #[trigger] after[p]
            == parts[j].bytes[p - parts[j].range.start] by {
            if j < k - 1 {
                assert(is_planned(ranges, parts[j]));
                assert(parts[j].range.index != parts[k - 1].range.index);
                let a = parts[j].range.index as int;
                let b = part.range.index as int;
                assert(ranges[a].covers(p));
                assert(!ranges[b].covers(p));
                assert(before[p] == parts[j].bytes[p - parts[j].range.start]);
            }
        }
    } else {
        assert(parts.take(0) =~= Seq::<Part>::empty());
    }
}

/// The length of what the parts for the first `count` ranges of a complete
/// set hold together is the offset at which those ranges end, and within
/// each of those ranges the bytes are those of the range's part.
proof fn lemma_in_range_order(ranges: Seq<ByteRange>, total: u64, parts: Seq<Part>, count: nat)
    requires
        tiles(ranges, total),
        complete(ranges, parts),
        count <= ranges.len(),
    ensures
        in_range_order(parts, count).len() == (if count == 0 {
            0
        } else {
            ranges[count - 1].end as int
        }),
        forall|i: int, p: int|
            0 <= i < count && (#[trigger] ranges[i]).covers(p) ==> #[trigger] in_range_order(
                parts,
                count,
            )[p] == part_for(parts, i).bytes[p - ranges[i].start],
    decreases count,
{
    if count > 0 {
        let i = count - 1;
        lemma_in_range_order(ranges, total, parts, i as nat);
        assert(has_part(parts, i));
        let part = part_for(parts, i);
        assert(is_planned(ranges, part));
        assert(part.range == ranges[i]);
        if i > 0 {
            assert(ranges[i - 1].end == ranges[i].start);
        }
        let before = in_range_order(parts, i as nat);
        let now = in_range_order(parts, count);
        assert(before.len() == ranges[i].start);
        assert forall|h: int, p: int|
            0 <= h < count && (#[trigger] ranges[h]).covers(p) implies #[trigger] now[p]
            == part_for(parts, h).bytes[p - ranges[h].start] by {
            if h < i {
                lemma_tiles_ordered(ranges, total, h, i);
                assert(now[p] == before[p]);
            }
        }
    }
}

/// The positioned writes of a complete set of parts give a file of exactly
/// `total` bytes that holds the parts' bytes in the order of their ranges,
/// whatever the order in which the parts were written.
pub proof fn lemma_complete_written(ranges: Seq<ByteRange>, total: u64, parts: Seq<Part>)
    requires
        tiles(ranges, total),
        complete(ranges, parts),
    ensures
        written(parts).len() == total,
        written(parts) == in_range_order(parts, ranges.len()),
{
    let file = written(parts);
    let wanted = in_range_order(parts, ranges.len());
    assert(parts.take(parts.len() as int) =~= parts);
    lemma_written_prefix(ranges, total, parts, parts.len() as int);
    lemma_in_range_order(ranges, total, parts, ranges.len());
    lemma_tiles_partition(ranges, total);
    assert(wanted.len() == total);
    if total > 0 {
        assert(covered(ranges, total - 1));
        let i = choose|i: int| 0 <= i < ranges.len() && #[trigger] ranges[i].covers(total - 1);
        lemma_tiles_bounded(ranges, total, i);
        assert(has_part(parts, i));
        let j = choose|j: int| 0 <= j < parts.len() && (#[trigger] parts[j]).range.index == i;
        assert(is_planned(ranges, parts[j]));
        assert(parts[j].range.span() > 0);
    }
    assert(file.len() == total);
    assert forall|p: int| 0 <= p < total implies file[p] == wanted[p] by {
        assert(covered(ranges, p));
        let i = choose|i: int| 0 <= i < ranges.len() && #[trigger] ranges[i].covers(p);
        assert(has_part(parts, i));
        let part = part_for(parts, i);
        let j = choose|j: int| 0 <= j < parts.len() && (#[trigger] parts[j]).range.index == i;
        assert(part == parts[j]);
        assert(is_planned(ranges, parts[j]));
        assert(parts[j].range.covers(p));
    }
    assert(file =~= wanted);
}

/// Two sequences with the same members, each as often in one as in the
/// other, have the same members.
proof fn lemma_same_members(a: Seq<Part>, b: Seq<Part>, x: Part)
    requires
        a.to_multiset() == b.to_multiset(),
        a.contains(x),
    ensures
        b.contains(x),
{
    a.to_multiset_ensures();
    b.to_multiset_ensures();
    assert(a.to_multiset().count(x) > 0);
    assert(b.to_multiset().count(x) > 0);
}

/// A rearrangement of a complete set of parts is a complete set, and the
/// file that its writes give is the same, byte for byte.
pub proof fn lemma_order_independent(
    ranges: Seq<ByteRange>,
    total: u64,
    parts: Seq<Part>,
    rearranged: Seq<Part>,
)
    requires
        tiles(ranges, total),
        complete(ranges, parts),
        parts.to_multiset() == rearranged.to_multiset(),
    ensures
        complete(ranges, rearranged),
        written(rearranged) == written(parts),
{
    assert forall|j: int| 0 <= j < rearranged.len() implies is_planned(
        ranges,
        #[trigger] rearranged[j],
    ) && rearranged[j].bytes.len() == rearranged[j].range.span() by {
        assert(rearranged.contains(rearranged[j]));
        lemma_same_members(rearranged, parts, rearranged[j]);
        let k = choose|k: int| 0 <= k < parts.len() && parts[k] == rearranged[j];
        assert(is_planned(ranges, parts[k]));
    }
    assert forall|i: int| 0 <= i < ranges.len() implies #[trigger] has_part(rearranged, i) by {
        assert(has_part(parts, i));
        let k = choose|k: int| 0 <= k < parts.len() && (#[trigger] parts[k]).range.index == i;
        assert(parts.contains(parts[k]));
        lemma_same_members(parts, rearranged, parts[k]);
        let j = choose|j: int| 0 <= j < rearranged.len() && rearranged[j] == parts[k];
        assert(rearranged[j].range.index == i);
    }
    assert(parts.no_duplicates()) by {
        assert forall|j: int, k: int|
            0 <= j < parts.len() && 0 <= k < parts.len() && j != k implies parts[j]
            != parts[k] by {
            if j < k {
                assert(parts[j].range.index != parts[k].range.index);
            } else {
                assert(parts[k].range.index != parts[j].range.index);
            }
        }
    }
    parts.lemma_multiset_has_no_duplicates();
    rearranged.lemma_multiset_has_no_duplicates_conv();
    assert forall|j: int, k: int| 0 <= j < k < rearranged.len() implies (
    #[trigger] rearranged[j]).range.index != (#[trigger] rearranged[k]).range.index by {
        if rearranged[j].range.index == rearranged[k].range.index {
            assert(rearranged.contains(rearranged[j]));
            assert(rearranged.contains(rearranged[k]));
            lemma_same_members(rearranged, parts, rearranged[j]);
            lemma_same_members(rearranged, parts, rearranged[k]);
            let a = choose|a: int| 0 <= a < parts.len() && parts[a] == rearranged[j];
            let b = choose|b: int| 0 <= b < parts.len() && parts[b] == rearranged[k];
            if a < b {
                assert(parts[a].range.index != parts[b].range.index);
            } else if b < a {
                assert(parts[b].range.index != parts[a].range.index);
            }
            assert(rearranged[j] == rearranged[k]);
        }
    }
    lemma_complete_written(ranges, total, parts);
    lemma_complete_written(ranges, total, rearranged);
    assert forall|i: int| 0 <= i < ranges.len() implies part_for(parts, i) == part_for(
        rearranged,
        i,
    ) by {
        assert(has_part(parts, i));
        assert(has_part(rearranged, i));
        let x = part_for(rearranged, i);
        assert(rearranged.contains(x));
        lemma_same_members(rearranged, parts, x);
        let a = choose|a: int| 0 <= a < parts.len() && parts[a] == x;
        let b = choose|b: int| 0 <= b < parts.len() && (#[trigger] parts[b]).range.index == i;
        if a < b {
            assert(parts[a].range.index != parts[b].range.index);
        } else if b < a {
            assert(parts[b].range.index != parts[a].range.index);
        }
    }
    lemma_same_parts_same_order(parts, rearranged, ranges.len());
}

/// Two sets of parts with the same part for each of the first `count`
/// ranges hold the same bytes in the order of those ranges.
proof fn lemma_same_parts_same_order(a: Seq<Part>, b: Seq<Part>, count: nat)
    requires
        forall|i: int| 0 <= i < count ==> part_for(a, i) == part_for(b, i),
    ensures
        in_range_order(a, count) == in_range_order(b, count),
    decreases count,
{
    if count > 0 {
        lemma_same_parts_same_order(a, b, (count - 1) as nat);
    }
}

/// Writes `bytes` into `file` at `offset`.
fn write_at(file: &mut Vec<u8>, offset: usize, bytes: &Vec<u8>)
    requires
        offset + bytes@.len() <= usize::MAX,
    ensures
        final(file)@ == after_write(old(file)@, offset as nat, bytes@),
{
    if bytes.len() == 0 {
        return ;
    }
    while file.len() < offset
        invariant
            file@.len() <= offset || file@.len() == old(file)@.len(),
            file@.len() >= old(file)@.len(),
            forall|i: int| 0 <= i < old(file)@.len() ==> file@[i] == old(file)@[i],
            forall|i: int| old(file)@.len() <= i < file@.len() ==> file@[i] == 0u8,
        decreases offset - file@.len(),
    {
        file.push(0u8);
    }
    let ghost padded = file@;
    let mut k: usize = 0;
    while k < bytes.len()
        invariant
            k <= bytes@.len(),
            offset + bytes@.len() <= usize::MAX,
            padded.len() >= offset,
            file@.len() == (if padded.len() >= offset + k {
                padded.len()
            } else {
                (offset + k) as nat
            }),
            forall|i: int|
                0 <= i < file@.len() ==> file@[i] == (if offset <= i < offset + k {
                    bytes@[i - offset]
                } else {
                    padded[i]
                }),
        decreases bytes@.len() - k,
    {
        if offset + k < file.len() {
            file.set(offset + k, bytes[k]);
        } else {
            file.push(bytes[k]);
        }
        k = k + 1;
    }
    assert(file@ =~= after_write(old(file)@, offset as nat, bytes@));
}

/// Puts the parts of a job together: writes each part at the offset at which
/// its range starts, in the order in which the parts are given, and hands
/// back the file.
///
/// The parts must be a complete set for the job's plan. Of a complete set
/// the file has exactly the job's size and holds the parts' bytes in the
/// order of their ranges, in whatever order the parts are given.
pub fn assemble(job: &DownloadJob, parts: &Vec<FetchedPart>) -> (r: Result<Vec<u8>, AssemblyError>)
    ensures
        match r {
            Ok(file) => assembled(job@.ranges, job@.total_size, part_views(parts@)) == Ok::<
                Seq<u8>,
                AssemblyError,
            >(file@),
            Err(e) => assembled(job@.ranges, job@.total_size, part_views(parts@)) == Err::<
                Seq<u8>,
                AssemblyError,
            >(e),
        },
        r matches Ok(file) ==> file@.len() == job@.total_size && file@ == in_range_order(
            part_views(parts@),
            job@.ranges.len(),
        ),
{
    let ranges = job.ranges();
    let total: u64 = job.total_size();
    let ghost views = part_views(parts@);
    if total > usize::MAX as u64 {
        return Err(AssemblyError::InsufficientSpace { needed: total });
    }
    let mut seen: Vec<bool> = vec![false; ranges.len()];
    let mut j: usize = 0;
    while j < parts.len()
        invariant
            j <= parts@.len(),
            views == part_views(parts@),
            ranges@ == job@.ranges,
            total == job@.total_size,
            total <= usize::MAX,
            seen@.len() == ranges@.len(),
            first_defect(ranges@, views.take(j as int)) is None,
            forall|i: int| 0 <= i < seen@.len() ==> seen@[i] == has_part(views.take(j as int), i),
        decreases parts@.len() - j,
    {
        let part = &parts[j];
        let index: u64 = part.range.index;
        let ghost next = views.take(j + 1);
        proof {
            assert(next.drop_last() =~= views.take(j as int));
            assert(next.take(j as int) =~= views.take(j as int));
            assert(next[j as int] == part@);
        }
        if index >= ranges.len() as u64 || ranges[index as usize] != part.range {
            proof {
                lemma_first_defect_extends(ranges@, views, j + 1);
            }
            return Err(AssemblyError::UnknownRange { range: part.range });
        }
        let received: u64 = part.bytes.len() as u64;
        if received != part.range.len() {
            proof {
                lemma_first_defect_extends(ranges@, views, j + 1);
            }
            return Err(AssemblyError::LengthMismatch { range: part.range, received });
        }
        if seen[index as usize] {
            proof {
                lemma_first_defect_extends(ranges@, views, j + 1);
            }
            return Err(AssemblyError::DuplicatePart { range: part.range });
        }
        seen.set(index as usize, true);
        proof {
            let before = views.take(j as int);
            assert forall|i: int| 0 <= i < seen@.len() implies seen@[i] == has_part(next, i) by {
                if has_part(before, i) {
                    let k = choose|k: int|
                        0 <= k < before.len() && (#[trigger] before[k]).range.index == i;
                    assert(next[k].range.index == i);
                }
                if i == index {
                    assert(next[j as int].range.index == i);
                }
                if has_part(next, i) && i != index {
                    let k = choose|k: int|
                        0 <= k < next.len() && (#[trigger] next[k]).range.index == i;
                    assert(before[k].range.index == i);
                }
            }
        }
        j = j + 1;
    }
    proof {
        assert(views.take(parts@.len() as int) =~= views);
    }
    let mut i: usize = 0;
    while i < ranges.len()
        invariant
            i <= ranges@.len(),
            views == part_views(parts@),
            ranges@ == job@.ranges,
            total == job@.total_size,
            total <= usize::MAX,
            seen@.len() == ranges@.len(),
            first_defect(ranges@, views) is None,
            first_missing(ranges@, views, i as nat) is None,
            forall|h: int| 0 <= h < seen@.len() ==> seen@[h] == has_part(views, h),
        decreases ranges@.len() - i,
    {
        if !seen[i] {
            proof {
                lemma_first_missing_extends(ranges@, views, i as nat + 1, ranges@.len());
            }
            return Err(AssemblyError::MissingPart { range: ranges[i] });
        }
        i = i + 1;
    }
    proof {
        lemma_assembled_iff_complete(ranges@, total, views);
        lemma_complete_written(ranges@, total, views);
    }
    let mut file: Vec<u8> = Vec::new();
    let mut w: usize = 0;
    while w < parts.len()
        invariant
            w <= parts@.len(),
            total <= usize::MAX,
            views == part_views(parts@),
            tiles(ranges@, total),
            complete(ranges@, views),
            file@ == written(views.take(w as int)),
        decreases parts@.len() - w,
    {
        let part = &parts[w];
        proof {
            assert(views.take(w + 1).drop_last() =~= views.take(w as int));
            assert(views.take(w + 1).last() == part@);
            assert(is_planned(ranges@, views[w as int]));
            lemma_tiles_bounded(ranges@, total, part.range.index as int);
        }
        write_at(&mut file, part.range.start as usize, &part.bytes);
        w = w + 1;
    }
    proof {
        assert(views.take(parts@.len() as int) =~= views);
    }
    Ok(file)
}

/// A defect among the first `k` parts is the first defect of all the parts.
proof fn lemma_first_defect_extends(ranges: Seq<ByteRange>, parts: Seq<Part>, k: int)
    requires
        0 <= k <= parts.len(),
        first_defect(ranges, parts.take(k)) is Some,
    ensures
        first_defect(ranges, parts) == first_defect(ranges, parts.take(k)),
    decreases parts.len() - k,
{
    if k < parts.len() {
        let next = parts.take(k + 1);
        assert(next.drop_last() =~= parts.take(k));
        lemma_first_defect_extends(ranges, parts, k + 1);
    } else {
        assert(parts.take(k) =~= parts);
    }
}

/// A range missing among the first `k` is the first range missing of the
/// first `upto`, for every `upto` from `k` on.
proof fn lemma_first_missing_extends(ranges: Seq<ByteRange>, parts: Seq<Part>, k: nat, upto: nat)
    requires
        k <= upto,
        first_missing(ranges, parts, k) is Some,
    ensures
        first_missing(ranges, parts, upto) == first_missing(ranges, parts, k),
    decreases upto - k,
{
    if k < upto {
        lemma_first_missing_extends(ranges, parts, k, (upto - 1) as nat);
    }
}

} // verus!
