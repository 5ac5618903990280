//! The index of the byte ranges that a rescue did not recover.
//!
//! The ranges are kept in ascending order and apart from each other, which is
//! what lets a query look at two neighbours only.

use crate::data::{Block, BlockStatus, MapFile};
use vstd::prelude::*;

verus! {

/// The bytes in one sector of a disc image.
pub const SECTOR_SIZE: u64 = 2048;

/// Why no index can be built from a sequence of blocks.
#[derive(Debug, PartialEq, Eq, Clone, Copy, Structural)]
pub enum IndexError {
    /// The block at `index` starts before the block ahead of it has ended.
    OverlappingBlocks { index: usize },
    /// The block at `index` ends beyond the last offset that 64 bits can hold.
    AddressOverflow { index: usize },
}

/// Every range ends no earlier than it starts, and no later than any range
/// after it starts.
pub open spec fn ascending_disjoint(intervals: Seq<(u64, u64)>) -> bool {
    &&& forall|i: int| 0 <= i < intervals.len() ==> (#[trigger] intervals[i]).0 <= intervals[i].1
    &&& forall|i: int, j: int|
        0 <= i < j < intervals.len() ==> (#[trigger] intervals[i]).1 <= (#[trigger] intervals[j]).0
}

/// The number of ranges that start below `key`. In an ascending sequence this
/// is the first place at which a range starting at `key` could be inserted.
pub open spec fn insertion_point(intervals: Seq<(u64, u64)>, key: u64) -> int
    decreases intervals.len(),
{
    if intervals.len() == 0 {
        0
    } else {
        insertion_point(intervals.drop_last(), key) + if intervals.last().0 < key {
            1int
        } else {
            0int
        }
    }
}

/// The range and the query have an offset in common when both are taken with
/// their end points: the query is reported against such a range.
pub open spec fn meets(interval: (u64, u64), start: u64, end: u64) -> bool {
    interval.0 <= end && start <= interval.1
}

/// The half-open range and the half-open query share at least one byte.
pub open spec fn intersects(interval: (u64, u64), start: u64, end: u64) -> bool {
    interval.0 < end && start < interval.1 && start < end && interval.0 < interval.1
}

/// The range is reported against the query although they share no byte: they
/// touch at an end point, or one of them is empty and lies on the other.
pub open spec fn only_touches(interval: (u64, u64), start: u64, end: u64) -> bool {
    meets(interval, start, end) && !intersects(interval, start, end)
}

/// What a query for `[start, end)` answers: the neighbour below the insertion
/// point of `end` if it reaches `start`, else the range at the insertion point
/// if it starts at `end`, else nothing.
pub open spec fn lookup(intervals: Seq<(u64, u64)>, start: u64, end: u64) -> Result<
    (),
    (u64, u64),
> {
    let at = insertion_point(intervals, end);
    if at > 0 && intervals[at - 1].1 >= start {
        Err(intervals[at - 1])
    } else if at < intervals.len() && intervals[at].0 <= end {
        Err(intervals[at])
    } else {
        Ok(())
    }
}

/// What is wrong with the block at `i`, given the block ahead of it.
pub open spec fn fault_at(blocks: Seq<Block>, i: int) -> Option<IndexError> {
    if i > 0 && blocks[i].start() < blocks[i - 1].end() {
        Some(IndexError::OverlappingBlocks { index: i as usize })
    } else if blocks[i].end() > u64::MAX {
        Some(IndexError::AddressOverflow { index: i as usize })
    } else {
        None
    }
}

/// The fault of the first block that has one.
pub open spec fn first_fault(blocks: Seq<Block>) -> Option<IndexError>
    decreases blocks.len(),
{
    if blocks.len() == 0 {
        None
    } else {
        match first_fault(blocks.drop_last()) {
            Some(fault) => Some(fault),
            None => fault_at(blocks, blocks.len() - 1),
        }
    }
}

/// The ranges of the blocks that are not finished, in file order.
pub open spec fn bad_intervals(blocks: Seq<Block>) -> Seq<(u64, u64)>
    decreases blocks.len(),
{
    if blocks.len() == 0 {
        Seq::empty()
    } else if blocks.last().status.is_bad() {
        bad_intervals(blocks.drop_last()).push(block_range(blocks.last()))
    } else {
        bad_intervals(blocks.drop_last())
    }
}

/// The fault is that of some block, and no block ahead of that one has any.
pub open spec fn is_first_fault(blocks: Seq<Block>, fault: IndexError) -> bool {
    exists|i: int|
        0 <= i < blocks.len() && #[trigger] fault_at(blocks, i) == Some(fault) && forall|j: int|
            0 <= j < i ==> #[trigger] fault_at(blocks, j) is None
}

/// The index that a sequence of blocks gives: the bad ranges, unless a block
/// is at fault.
pub open spec fn built_index(blocks: Seq<Block>) -> Result<Seq<(u64, u64)>, IndexError> {
    match first_fault(blocks) {
        Some(fault) => Err(fault),
        None => Ok(bad_intervals(blocks)),
    }
}

/// Each block starts where the one ahead of it ends, or later, and ends
/// within the offsets that 64 bits can hold.
pub open spec fn blocks_in_order(blocks: Seq<Block>) -> bool {
    &&& forall|i: int|
        0 < i < blocks.len() ==> blocks[i - 1].end() <= (#[trigger] blocks[i]).start()
    &&& forall|i: int| 0 <= i < blocks.len() ==> (#[trigger] blocks[i]).end() <= u64::MAX
}

/// The range of a block as the index holds it.
pub open spec fn block_range(block: Block) -> (u64, u64) {
    (block.pos.0, block.end() as u64)
}

/// The first offset of an extent that begins at sector `extent_loc`.
pub open spec fn extent_start(extent_loc: u32) -> u64 {
    (extent_loc * SECTOR_SIZE) as u64
}

/// The first offset after an extent of `extent_length` bytes that begins at
/// sector `extent_loc`.
pub open spec fn extent_end(extent_loc: u32, extent_length: u32) -> u64 {
    (extent_loc * SECTOR_SIZE + extent_length) as u64
}

/// In an ascending sequence, a place with only lower starts before it and no
/// lower start from it on is the insertion point.
pub proof fn lemma_insertion_point_is(intervals: Seq<(u64, u64)>, key: u64, at: int)
    requires
        0 <= at <= intervals.len(),
        forall|j: int| 0 <= j < at ==> (#[trigger] intervals[j]).0 < key,
        forall|j: int| at <= j < intervals.len() ==> (#[trigger] intervals[j]).0 >= key,
    ensures
        insertion_point(intervals, key) == at,
    decreases intervals.len(),
{
    if intervals.len() > 0 {
        let shorter = intervals.drop_last();
        if at == intervals.len() {
            lemma_insertion_point_is(shorter, key, at - 1);
        } else {
            lemma_insertion_point_is(shorter, key, at);
        }
    }
}

/// The insertion point parts an ascending sequence into the ranges that start
/// below the key and those that do not.
pub proof fn lemma_insertion_point_parts(intervals: Seq<(u64, u64)>, key: u64)
    requires
        ascending_disjoint(intervals),
    ensures
        0 <= insertion_point(intervals, key) <= intervals.len(),
        forall|j: int|
            0 <= j < insertion_point(intervals, key) ==> (#[trigger] intervals[j]).0 < key,
        forall|j: int|
            insertion_point(intervals, key) <= j < intervals.len() ==> (#[trigger] intervals[j]).0
                >= key,
    decreases intervals.len(),
{
    if intervals.len() > 0 {
        let shorter = intervals.drop_last();
        lemma_insertion_point_parts(shorter, key);
        let at = insertion_point(shorter, key);
        if intervals.last().0 < key {
            assert forall|j: int| 0 <= j < intervals.len() implies (#[trigger] intervals[j]).0
                < key by {
                if j < shorter.len() {
                    assert(intervals[j].0 <= intervals[j].1);
                    assert(intervals[j].1 <= intervals.last().0);
                }
            }
            assert(at == shorter.len()) by {
                if at < shorter.len() {
                    assert(shorter[at].0 >= key);
                    assert(intervals[at].0 < key);
                }
            }
        } else {
            assert forall|j: int| at <= j < intervals.len() implies (#[trigger] intervals[j]).0
                >= key by {
                if j < shorter.len() {
                    assert(shorter[j].0 >= key);
                }
            }
            assert forall|j: int| 0 <= j < at implies (#[trigger] intervals[j]).0 < key by {
                assert(shorter[j].0 < key);
            }
        }
    }
}

/// A query on ascending, disjoint ranges is answered with a range exactly
/// when some range meets it, and the range it is answered with is one of
/// those.
pub proof fn lemma_lookup_finds_meeting(intervals: Seq<(u64, u64)>, start: u64, end: u64)
    requires
        ascending_disjoint(intervals),
        start <= end,
    ensures
        lookup(intervals, start, end) is Err <==> exists|i: int|
            0 <= i < intervals.len() && meets(#[trigger] intervals[i], start, end),
        lookup(intervals, start, end) matches Err(found) ==> meets(found, start, end)
            && intervals.contains(found),
{
    lemma_insertion_point_parts(intervals, end);
    let at = insertion_point(intervals, end);
    match lookup(intervals, start, end) {
        Err(found) => {
            if at > 0 && intervals[at - 1].1 >= start {
                assert(meets(intervals[at - 1], start, end));
            } else {
                assert(meets(intervals[at], start, end));
            }
        },
        Ok(_) => {
            assert forall|i: int| 0 <= i < intervals.len() implies !meets(
                #[trigger] intervals[i],
                start,
                end,
            ) by {
                if i < at {
                    assert(intervals[at - 1].1 < start);
                    if i < at - 1 {
                        assert(intervals[i].1 <= intervals[at - 1].0);
                        assert(intervals[at - 1].0 <= intervals[at - 1].1);
                    }
                } else {
                    assert(intervals[at].0 > end);
                    if i > at {
                        assert(intervals[at].1 <= intervals[i].0);
                        assert(intervals[at].0 <= intervals[at].1);
                    }
                }
            }
        },
    }
}

/// A query that ends where a range starts, or starts where a range ends, is
/// answered with a range, though the two share no byte.
pub proof fn lemma_touching_query_is_reported(
    intervals: Seq<(u64, u64)>,
    start: u64,
    end: u64,
    i: int,
)
    requires
        ascending_disjoint(intervals),
        start <= end,
        0 <= i < intervals.len(),
        intervals[i].0 == end || intervals[i].1 == start,
    ensures
        lookup(intervals, start, end) is Err,
{
    lemma_lookup_finds_meeting(intervals, start, end);
    assert(meets(intervals[i], start, end));
}

/// The ranges that an index holds, ascending and disjoint.
#[derive(Debug)]
pub struct BadSectors {
    non_overlapping_intervals: Vec<(u64, u64)>,
}

impl View for BadSectors {
    type V = Seq<(u64, u64)>;

    closed spec fn view(&self) -> Seq<(u64, u64)> {
        self.non_overlapping_intervals@
    }
}

impl BadSectors {
    #[verifier::type_invariant]
    spec fn well_formed(self) -> bool {
        ascending_disjoint(self.non_overlapping_intervals@)
    }

    /// An index of the given ranges.
    pub fn new(non_overlapping_intervals: Vec<(u64, u64)>) -> (index: BadSectors)
        requires
            ascending_disjoint(non_overlapping_intervals@),
        ensures
            index@ == non_overlapping_intervals@,
    {
        BadSectors { non_overlapping_intervals }
    }

    /// The ranges of the index, in order.
    pub fn intervals(&self) -> (intervals: &Vec<(u64, u64)>)
        ensures
            intervals@ == self@,
            ascending_disjoint(intervals@),
    {
        proof {
            use_type_invariant(self);
        }
        &self.non_overlapping_intervals
    }

    /// Builds the index of the blocks of a map that are not finished, or says
    /// which block is the first that overlaps the one ahead of it or ends
    /// beyond the 64-bit offsets.
    pub fn from_mapfile(map: &MapFile) -> (built: Result<BadSectors, IndexError>)
        ensures
            match built {
                Ok(index) => built_index(map@.blocks) == Ok::<Seq<(u64, u64)>, IndexError>(index@),
                Err(fault) => built_index(map@.blocks) == Err::<Seq<(u64, u64)>, IndexError>(fault),
            },
            built is Ok <==> blocks_in_order(map@.blocks),
            built matches Ok(index) ==> ascending_disjoint(index@),
            built matches Err(fault) ==> is_first_fault(map@.blocks, fault),
    {
        let ghost blocks = map.blocks@;
        let mut end: u64 = 0;
        let mut bad: Vec<(u64, u64)> = Vec::new();
        let mut i: usize = 0;
        proof {
            assert(blocks.take(0) =~= Seq::empty());
            lemma_no_fault_is_order(blocks);
        }
        while i < map.blocks.len()
            invariant
                blocks == map.blocks@,
                0 <= i <= blocks.len(),
                first_fault(blocks.take(i as int)) is None,
                bad@ == bad_intervals(blocks.take(i as int)),
                ascending_disjoint(bad@),
                forall|k: int| 0 <= k < bad@.len() ==> (#[trigger] bad@[k]).1 <= end,
                i > 0 ==> end == blocks[i - 1].end(),
                i == 0 ==> end == 0,
            decreases blocks.len() - i,
        {
            let block = map.blocks[i];
            let start = block.pos.0;
            proof {
                lemma_one_more_block(blocks, i as int);
            }
            if start < end {
                proof {
                    lemma_first_fault_of_prefix(blocks, i + 1);
                    lemma_first_fault_is_first(blocks);
                }
                return Err(IndexError::OverlappingBlocks { index: i });
            }
            let stop = match start.checked_add(block.size.0) {
                Some(stop) => stop,
                None => {
                    proof {
                        lemma_first_fault_of_prefix(blocks, i + 1);
                        lemma_first_fault_is_first(blocks);
                    }
                    return Err(IndexError::AddressOverflow { index: i });
                },
            };
            end = stop;
            match block.status {
                BlockStatus::Finished => {},
                _ => {
                    bad.push((start, stop));
                },
            }
            i = i + 1;
        }
        proof {
            assert(blocks.take(i as int) =~= blocks);
        }
        Ok(BadSectors { non_overlapping_intervals: bad })
    }

    /// The place at which a range starting at `key` would be inserted.
    fn insertion_index(&self, key: u64) -> (at: usize)
        ensures
            at == insertion_point(self@, key),
            at <= self@.len(),
    {
        proof {
            use_type_invariant(self);
        }
        let mut low: usize = 0;
        let mut high: usize = self.non_overlapping_intervals.len();
        while low < high
            invariant
                low <= high <= self@.len(),
                ascending_disjoint(self@),
                forall|j: int| 0 <= j < low ==> (#[trigger] self@[j]).0 < key,
                forall|j: int| high <= j < self@.len() ==> (#[trigger] self@[j]).0 >= key,
            decreases high - low,
        {
            let middle = low + (high - low) / 2;
            if self.non_overlapping_intervals[middle].0 < key {
                proof {
                    assert forall|j: int| 0 <= j < middle + 1 implies (#[trigger] self@[j]).0
                        < key by {
                        if j < middle {
                            assert(self@[j].0 <= self@[j].1);
                            assert(self@[j].1 <= self@[middle as int].0);
                        }
                    }
                }
                low = middle + 1;
            } else {
                proof {
                    assert forall|j: int| middle <= j < self@.len() implies (#[trigger] self@[j]).0
                        >= key by {
                        if j > middle {
                            assert(self@[middle as int].0 <= self@[middle as int].1);
                            assert(self@[middle as int].1 <= self@[j].0);
                        }
                    }
                }
                high = middle;
            }
        }
        proof {
            lemma_insertion_point_is(self@, key, low as int);
        }
        low
    }

    /// Whether the query `[start, end)` meets a bad range, and which.
    ///
    /// Only the two neighbours of the place where `end` belongs among the
    /// starts are looked at. A range counts as met when it has an offset in
    /// common with the query, both taken with their end points: a query
    /// that ends where a bad range starts, or starts where one ends, is
    /// reported.
    pub fn contains_bad_sector(&self, start: u64, end: u64) -> (answer: Result<(), (u64, u64)>)
        ensures
            answer == lookup(self@, start, end),
            start <= end ==> (answer is Err <==> exists|i: int|
                0 <= i < self@.len() && meets(#[trigger] self@[i], start, end)),
            start <= end ==> (answer matches Err(found) ==> meets(found, start, end)
                && self@.contains(found)),
    {
        proof {
            use_type_invariant(self);
            if start <= end {
                lemma_lookup_finds_meeting(self@, start, end);
            }
        }
        let at = self.insertion_index(end);
        if at >= 1 {
            let below = self.non_overlapping_intervals[at - 1];
            if below.1 >= start {
                return Err(below);
            }
        }
        if at < self.non_overlapping_intervals.len() {
            let above = self.non_overlapping_intervals[at];
            if end >= above.0 {
                return Err(above);
            }
        }
        Ok(())
    }

    /// The bad range, if any, that is met by the extent which begins at sector
    /// `extent_loc` and is `extent_length` bytes long.
    pub fn test_bad(&self, extent_loc: u32, extent_length: u32) -> (bad: Option<(u64, u64)>)
        ensures
            bad == match lookup(
                self@,
                extent_start(extent_loc),
                extent_end(extent_loc, extent_length),
            ) {
                Ok(_) => None::<(u64, u64)>,
                Err(found) => Some(found),
            },
    {
        let start: u64 = extent_loc as u64 * SECTOR_SIZE;
        let end: u64 = start + extent_length as u64;
        match self.contains_bad_sector(start, end) {
            Ok(_) => None,
            Err(found) => Some(found),
        }
    }
}

/// What the block at `i` adds to the first fault and to the bad ranges of the
/// blocks ahead of it.
pub proof fn lemma_one_more_block(blocks: Seq<Block>, i: int)
    requires
        0 <= i < blocks.len(),
    ensures
        first_fault(blocks.take(i + 1)) == match first_fault(blocks.take(i)) {
            Some(fault) => Some(fault),
            None => fault_at(blocks, i),
        },
        bad_intervals(blocks.take(i + 1)) == if blocks[i].status.is_bad() {
            bad_intervals(blocks.take(i)).push(block_range(blocks[i]))
        } else {
            bad_intervals(blocks.take(i))
        },
{
    let longer = blocks.take(i + 1);
    assert(longer.drop_last() =~= blocks.take(i));
    assert(longer.last() == blocks[i]);
    if i > 0 {
        assert(longer[i - 1] == blocks[i - 1]);
    }
}

/// Once a prefix of the blocks has a fault, the whole sequence has that one.
pub proof fn lemma_first_fault_of_prefix(blocks: Seq<Block>, n: int)
    requires
        0 <= n <= blocks.len(),
        first_fault(blocks.take(n)) is Some,
    ensures
        first_fault(blocks) == first_fault(blocks.take(n)),
    decreases blocks.len() - n,
{
    if n < blocks.len() {
        lemma_one_more_block(blocks, n);
        lemma_first_fault_of_prefix(blocks, n + 1);
    } else {
        assert(blocks.take(n) =~= blocks);
    }
}

/// The first fault is the fault of a block that has no faulty block ahead
/// of it.
pub proof fn lemma_first_fault_is_first(blocks: Seq<Block>)
    ensures
        first_fault(blocks) matches Some(fault) ==> is_first_fault(blocks, fault),
    decreases blocks.len(),
{
    if blocks.len() > 0 {
        let shorter = blocks.drop_last();
        lemma_first_fault_is_first(shorter);
        lemma_no_fault_is_order(shorter);
        assert forall|j: int| 0 <= j < shorter.len() implies #[trigger] fault_at(shorter, j)
            == fault_at(blocks, j) by {
            assert(shorter[j] == blocks[j]);
            if j > 0 {
                assert(shorter[j - 1] == blocks[j - 1]);
            }
        }
        match first_fault(shorter) {
            Some(fault) => {
                let i = choose|i: int|
                    0 <= i < shorter.len() && #[trigger] fault_at(shorter, i) == Some(fault)
                        && forall|j: int| 0 <= j < i ==> #[trigger] fault_at(shorter, j) is None;
                assert(fault_at(blocks, i) == Some(fault));
                assert forall|j: int| 0 <= j < i implies #[trigger] fault_at(blocks, j) is None by {
                    assert(fault_at(shorter, j) is None);
                }
            },
            None => {
                if let Some(fault) = fault_at(blocks, blocks.len() - 1) {
                    assert forall|j: int| 0 <= j < blocks.len() - 1 implies #[trigger] fault_at(
                        blocks,
                        j,
                    ) is None by {
                        assert(fault_at(shorter, j) == fault_at(blocks, j));
                        if j > 0 {
                            assert(shorter[j].start() >= shorter[j - 1].end());
                        }
                        assert(shorter[j].end() <= u64::MAX);
                    }
                }
            },
        }
    }
}

/// A sequence of blocks has no fault exactly when it is in order.
pub proof fn lemma_no_fault_is_order(blocks: Seq<Block>)
    ensures
        first_fault(blocks) is None <==> blocks_in_order(blocks),
    decreases blocks.len(),
{
    if blocks.len() > 0 {
        let shorter = blocks.drop_last();
        let last = blocks.len() - 1;
        lemma_no_fault_is_order(shorter);
        if first_fault(blocks) is None {
            assert forall|i: int| 0 < i < blocks.len() implies blocks[i - 1].end() <= (
            #[trigger] blocks[i]).start() by {
                if i < last {
                    assert(shorter[i].start() >= shorter[i - 1].end());
                }
            }
            assert forall|i: int| 0 <= i < blocks.len() implies (#[trigger] blocks[i]).end()
                <= u64::MAX by {
                if i < last {
                    assert(shorter[i].end() <= u64::MAX);
                }
            }
        }
        if blocks_in_order(blocks) {
            assert forall|i: int| 0 < i < shorter.len() implies shorter[i - 1].end() <= (
            #[trigger] shorter[i]).start() by {
                assert(blocks[i].start() >= blocks[i - 1].end());
            }
            assert forall|i: int| 0 <= i < shorter.len() implies (#[trigger] shorter[i]).end()
                <= u64::MAX by {
                assert(blocks[i].end() <= u64::MAX);
            }
            assert(blocks[last].end() <= u64::MAX);
            if last > 0 {
                assert(blocks[last].start() >= blocks[last - 1].end());
            }
        }
    }
}

/// The bad ranges of blocks in order are ascending and disjoint, end no
/// later than the last block, and are the ranges of the blocks that are not
/// finished.
pub proof fn lemma_bad_intervals_of_ordered(blocks: Seq<Block>)
    requires
        blocks_in_order(blocks),
    ensures
        ascending_disjoint(bad_intervals(blocks)),
        forall|k: int|
            0 <= k < bad_intervals(blocks).len() ==> (#[trigger] bad_intervals(blocks)[k]).1
                <= blocks.last().end(),
        forall|k: int|
            0 <= k < bad_intervals(blocks).len() ==> exists|i: int|
                0 <= i < blocks.len() && (#[trigger] blocks[i]).status.is_bad() && block_range(
                    blocks[i],
                ) == #[trigger] bad_intervals(blocks)[k],
        forall|i: int|
            0 <= i < blocks.len() && (#[trigger] blocks[i]).status.is_bad() ==> bad_intervals(
                blocks,
            ).contains(block_range(blocks[i])),
    decreases blocks.len(),
{
    if blocks.len() > 0 {
        let shorter = blocks.drop_last();
        let last = blocks.len() - 1;
        assert(blocks_in_order(shorter)) by {
            assert forall|i: int| 0 < i < shorter.len() implies shorter[i - 1].end() <= (
            #[trigger] shorter[i]).start() by {
                assert(blocks[i].start() >= blocks[i - 1].end());
            }
            assert forall|i: int| 0 <= i < shorter.len() implies (#[trigger] shorter[i]).end()
                <= u64::MAX by {
                assert(blocks[i].end() <= u64::MAX);
            }
        }
        lemma_bad_intervals_of_ordered(shorter);
        let before = bad_intervals(shorter);
        let now = bad_intervals(blocks);
        assert(blocks[last].end() <= u64::MAX);
        if last > 0 {
            assert(blocks[last].start() >= blocks[last - 1].end());
            assert(shorter.last() == blocks[last - 1]);
        }
        assert forall|k: int| 0 <= k < now.len() implies exists|i: int|
            0 <= i < blocks.len() && (#[trigger] blocks[i]).status.is_bad() && block_range(
                blocks[i],
            ) == #[trigger] now[k] by {
            if k < before.len() {
                let i = choose|i: int|
                    0 <= i < shorter.len() && (#[trigger] shorter[i]).status.is_bad()
                        && block_range(shorter[i]) == before[k];
                assert(blocks[i] == shorter[i]);
            } else {
                assert(block_range(blocks[last]) == now[k]);
            }
        }
        assert forall|i: int|
            0 <= i < blocks.len() && (#[trigger] blocks[i]).status.is_bad() implies now.contains(
            block_range(blocks[i]),
        ) by {
            if i < last {
                assert(shorter[i] == blocks[i]);
                let k = choose|k: int|
                    0 <= k < before.len() && before[k] == block_range(shorter[i]);
                assert(now[k] == block_range(blocks[i]));
            } else {
                assert(now[now.len() - 1] == block_range(blocks[i]));
            }
        }
    }
}

/// For blocks in order the index is built, and a query is answered with a
/// range exactly when it meets the range of a block that is not finished.
pub proof fn lemma_report_is_meeting_block(blocks: Seq<Block>, start: u64, end: u64)
    requires
        blocks_in_order(blocks),
        start <= end,
    ensures
        built_index(blocks) == Ok::<Seq<(u64, u64)>, IndexError>(bad_intervals(blocks)),
        lookup(bad_intervals(blocks), start, end) is Err <==> exists|i: int|
            0 <= i < blocks.len() && (#[trigger] blocks[i]).status.is_bad() && meets(
                block_range(blocks[i]),
                start,
                end,
            ),
{
    let bad = bad_intervals(blocks);
    lemma_no_fault_is_order(blocks);
    lemma_bad_intervals_of_ordered(blocks);
    lemma_lookup_finds_meeting(bad, start, end);
    if lookup(bad, start, end) is Err {
        let k = choose|k: int| 0 <= k < bad.len() && meets(#[trigger] bad[k], start, end);
        let i = choose|i: int|
            0 <= i < blocks.len() && (#[trigger] blocks[i]).status.is_bad() && block_range(
                blocks[i],
            ) == bad[k];
        assert(meets(block_range(blocks[i]), start, end));
    }
    if exists|i: int|
        0 <= i < blocks.len() && (#[trigger] blocks[i]).status.is_bad() && meets(
            block_range(blocks[i]),
            start,
            end,
        ) {
        let i = choose|i: int|
            0 <= i < blocks.len() && (#[trigger] blocks[i]).status.is_bad() && meets(
                block_range(blocks[i]),
                start,
                end,
            );
        assert(bad.contains(block_range(blocks[i])));
        let k = choose|k: int| 0 <= k < bad.len() && bad[k] == block_range(blocks[i]);
        assert(meets(bad[k], start, end));
    }
}

/// For blocks in order the index is built, and a query is answered with a
/// range exactly when it shares a byte with a block that is not finished.
///
/// This is stated of the queries of which it holds: those that share a byte
/// with such a block, and those that no such block only touches. A query
/// that a bad block touches without sharing a byte with any is answered
/// with a range all the same.
pub proof fn lemma_query_reports_intersection(blocks: Seq<Block>, start: u64, end: u64)
    requires
        blocks_in_order(blocks),
        start <= end,
        (exists|i: int|
            0 <= i < blocks.len() && (#[trigger] blocks[i]).status.is_bad() && intersects(
                block_range(blocks[i]),
                start,
                end,
            )) || (forall|i: int|
            0 <= i < blocks.len() && (#[trigger] blocks[i]).status.is_bad() ==> !only_touches(
                block_range(blocks[i]),
                start,
                end,
            )),
    ensures
        built_index(blocks) == Ok::<Seq<(u64, u64)>, IndexError>(bad_intervals(blocks)),
        lookup(bad_intervals(blocks), start, end) is Err <==> exists|i: int|
            0 <= i < blocks.len() && (#[trigger] blocks[i]).status.is_bad() && intersects(
                block_range(blocks[i]),
                start,
                end,
            ),
{
    lemma_report_is_meeting_block(blocks, start, end);
    if exists|i: int|
        0 <= i < blocks.len() && (#[trigger] blocks[i]).status.is_bad() && intersects(
            block_range(blocks[i]),
            start,
            end,
        ) {
        let i = choose|i: int|
            0 <= i < blocks.len() && (#[trigger] blocks[i]).status.is_bad() && intersects(
                block_range(blocks[i]),
                start,
                end,
            );
        assert(meets(block_range(blocks[i]), start, end));
    } else if lookup(bad_intervals(blocks), start, end) is Err {
        let i = choose|i: int|
            0 <= i < blocks.len() && (#[trigger] blocks[i]).status.is_bad() && meets(
                block_range(blocks[i]),
                start,
                end,
            );
        assert(!only_touches(block_range(blocks[i]), start, end));
        assert(intersects(block_range(blocks[i]), start, end));
    }
}

/// Without blocks the index is empty, and every query is answered with
/// nothing.
pub proof fn lemma_no_blocks_no_bad_sector(blocks: Seq<Block>, start: u64, end: u64)
    requires
        blocks.len() == 0,
    ensures
        built_index(blocks) == Ok::<Seq<(u64, u64)>, IndexError>(Seq::empty()),
        lookup(Seq::empty(), start, end) is Ok,
{
}

} // verus!
