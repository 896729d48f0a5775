//! How much space there is, and where the free part of it lies.

use vstd::prelude::*;
use vstd::slice::*;
use crate::allocation;
use crate::allocation::{AllocView, BlockAllocator};
use crate::allocation_disk;
use crate::allocation_disk::load_allocator;
use crate::block;
use crate::block::{BlockDevice, Disk, BLOCK_SIZE_U64};
use crate::error::{Error, ErrorKind};
use crate::file_blocks::{invalid_data, invalid_input};
use crate::format::Superblock;
use crate::fsck;
use crate::fsck::{check_device, FsckReport};
use crate::journal_checkpoint;
use crate::journal_checkpoint::recover_journal_and_checkpoint;
use crate::journal_region;
use crate::soundness;
use crate::step;
use crate::step::Step;

verus! {

/// The space of a file system in blocks.
#[derive(Clone, Copy, Debug, PartialEq, Eq, Structural)]
pub struct FilesystemSpace {
    pub block_size: u64,
    pub total_blocks: u64,
    pub reserved_blocks: u64,
    pub data_blocks: u64,
    pub allocated_data_blocks: u64,
    pub free_data_blocks: u64,
}

/// Adjacent free data blocks.
#[derive(Clone, Copy, Debug, PartialEq, Eq, Structural)]
pub struct FreeSpaceExtent {
    pub start_block: u64,
    pub block_count: u64,
}

impl FreeSpaceExtent {
    /// The block behind the last one.
    pub open spec fn end(self) -> int {
        self.start_block + self.block_count
    }

    /// The part from the block `first` on.
    pub open spec fn clipped(self, first: int) -> FreeSpaceExtent {
        if self.start_block < first {
            FreeSpaceExtent { start_block: first as u64, block_count: (self.end() - first) as u64 }
        } else {
            self
        }
    }
}

/// The free data blocks: how many there are, the length of the longest run, and all runs.
#[derive(Clone, Debug, PartialEq, Eq)]
pub struct FilesystemFreeSpace {
    pub total_free_blocks: u64,
    pub largest_extent_blocks: u64,
    pub extents: Vec<FreeSpaceExtent>,
}

/// The free data blocks with a page of their runs, and the cursor for the next page where there is
/// more.
#[derive(Clone, Debug, PartialEq, Eq)]
pub struct FilesystemFreeSpacePage {
    pub total_free_blocks: u64,
    pub largest_extent_blocks: u64,
    pub extents: Vec<FreeSpaceExtent>,
    pub next_after: Option<u64>,
}

/// Free space as a value; `next_after` is for a page of it.
pub struct FreeSpaceView {
    pub total_free_blocks: u64,
    pub largest_extent_blocks: u64,
    pub extents: Seq<FreeSpaceExtent>,
    pub next_after: Option<u64>,
}

impl View for FilesystemFreeSpace {
    type V = FreeSpaceView;

    open spec fn view(&self) -> FreeSpaceView {
        FreeSpaceView {
            total_free_blocks: self.total_free_blocks,
            largest_extent_blocks: self.largest_extent_blocks,
            extents: self.extents@,
            next_after: None,
        }
    }
}

impl View for FilesystemFreeSpacePage {
    type V = FreeSpaceView;

    open spec fn view(&self) -> FreeSpaceView {
        FreeSpaceView {
            total_free_blocks: self.total_free_blocks,
            largest_extent_blocks: self.largest_extent_blocks,
            extents: self.extents@,
            next_after: self.next_after,
        }
    }
}

/// Free space as a result on values.
pub open spec fn free_space(r: Result<FilesystemFreeSpace, Error>) -> Result<FreeSpaceView, ErrorKind> {
    match r {
        Ok(space) => Ok(space@),
        Err(e) => Err(e.kind),
    }
}

/// A page of free space as a result on values.
pub open spec fn free_space_page(r: Result<FilesystemFreeSpacePage, Error>) -> Result<FreeSpaceView, ErrorKind> {
    match r {
        Ok(page) => Ok(page@),
        Err(e) => Err(e.kind),
    }
}

/// The runs of free blocks among blocks that are numbered from `first` on.
pub open spec fn free_runs(first: u64, owned: Seq<bool>) -> Seq<FreeSpaceExtent>
    decreases owned.len(),
{
    if owned.len() == 0 {
        Seq::empty()
    } else {
        let front = free_runs(first, owned.drop_last());
        let n = owned.len() - 1;
        if owned[n] {
            front
        } else if n > 0 && !owned[n - 1] {
            front.update(
                front.len() - 1,
                FreeSpaceExtent {
                    block_count: (front.last().block_count + 1) as u64,
                    ..front.last()
                },
            )
        } else {
            front.push(FreeSpaceExtent { start_block: (first + n) as u64, block_count: 1 })
        }
    }
}

/// The length of the longest run; 0 where there is none.
pub open spec fn longest_run(runs: Seq<FreeSpaceExtent>) -> u64
    decreases runs.len(),
{
    if runs.len() == 0 {
        0
    } else {
        let front = longest_run(runs.drop_last());
        if runs.last().block_count > front {
            runs.last().block_count
        } else {
            front
        }
    }
}

/// How many blocks the runs hold.
pub open spec fn blocks_in(runs: Seq<FreeSpaceExtent>) -> int
    decreases runs.len(),
{
    if runs.len() == 0 {
        0
    } else {
        blocks_in(runs.drop_last()) + runs.last().block_count
    }
}

/// The runs that reach beyond the block `first`, each from there on.
pub open spec fn runs_from(runs: Seq<FreeSpaceExtent>, first: int) -> Seq<FreeSpaceExtent>
    decreases runs.len(),
{
    if runs.len() == 0 {
        Seq::empty()
    } else {
        let front = runs_from(runs.drop_last(), first);
        if runs.last().end() <= first {
            front
        } else {
            front.push(runs.last().clipped(first))
        }
    }
}

/// The first block behind a cursor.
pub open spec fn first_after(after_block: Option<u64>) -> int {
    match after_block {
        None => 0,
        Some(cursor) => cursor + 1,
    }
}

/// Free space with at most `limit` of its runs behind a cursor.
pub open spec fn space_page(space: FreeSpaceView, after_block: Option<u64>, limit: int) -> FreeSpaceView {
    let rest = runs_from(space.extents, first_after(after_block));
    if rest.len() <= limit {
        FreeSpaceView { extents: rest, next_after: None, ..space }
    } else {
        FreeSpaceView {
            extents: rest.subrange(0, limit),
            next_after: Some((rest[limit - 1].end() - 1) as u64),
            ..space
        }
    }
}

/// The report of a strict inspection of a settled device, which must agree with the superblock.
pub open spec fn surveyed(disk: Disk, sb: Superblock) -> Result<FsckReport, ErrorKind> {
    match fsck::checked(disk) {
        Err(k) => Err(k),
        Ok(report) => if report.total_blocks != sb.total_blocks || report.reserved_blocks
            != sb.data_start() {
            Err(ErrorKind::InvalidData)
        } else {
            Ok(report)
        },
    }
}

/// The space of a file system.
pub open spec fn space_step(disk: Disk, sb: Superblock) -> Step<FilesystemSpace> {
    journal_checkpoint::settled_then(
        disk,
        sb,
        |d: Disk|
            step::stay(
                d,
                match surveyed(d, sb) {
                    Err(k) => Err(k),
                    Ok(report) => Ok(
                        FilesystemSpace {
                            block_size: BLOCK_SIZE_U64,
                            total_blocks: report.total_blocks,
                            reserved_blocks: report.reserved_blocks,
                            data_blocks: report.data_blocks,
                            allocated_data_blocks: report.allocated_blocks,
                            free_data_blocks: report.free_blocks,
                        },
                    ),
                },
            ),
    )
}

/// The free blocks of an allocation state.
pub open spec fn free_space_of(a: AllocView) -> FreeSpaceView {
    let runs = free_runs(a.first, a.owned);
    FreeSpaceView {
        total_free_blocks: (a.owned.len() - allocation::owned_count(a.owned)) as u64,
        largest_extent_blocks: longest_run(runs),
        extents: runs,
        next_after: None,
    }
}

/// The free blocks of a settled device.
pub open spec fn free_space_on(disk: Disk, sb: Superblock) -> Result<FreeSpaceView, ErrorKind> {
    match surveyed(disk, sb) {
        Err(k) => Err(k),
        Ok(report) => match allocation_disk::allocator_on(disk, sb) {
            Err(k) => Err(k),
            Ok(a) => if free_space_of(a).total_free_blocks != report.free_blocks {
                Err(ErrorKind::InvalidData)
            } else {
                Ok(free_space_of(a))
            },
        },
    }
}

/// The free blocks of a file system.
pub open spec fn free_space_step(disk: Disk, sb: Superblock) -> Step<FreeSpaceView> {
    journal_checkpoint::settled_then(disk, sb, |d: Disk| step::stay(d, free_space_on(d, sb)))
}

/// The free blocks of a file system with a page of their runs.
pub open spec fn free_space_page_step(disk: Disk, sb: Superblock, after_block: Option<u64>, limit: int) -> Step<FreeSpaceView> {
    if limit == 0 {
        step::stay(disk, Err(ErrorKind::InvalidInput))
    } else {
        let space = free_space_step(disk, sb);
        Step {
            disk: space.disk,
            result: match space.result {
                Ok(view) => Ok(space_page(view, after_block, limit)),
                Err(k) => Err(k),
            },
        }
    }
}

/// Runs in ascending order, none of them empty, with a gap between any two.
pub open spec fn apart(runs: Seq<FreeSpaceExtent>) -> bool {
    &&& forall|i: int|
        0 <= i < runs.len() ==> (#[trigger] runs[i]).block_count > 0 && runs[i].end() <= u64::MAX
    &&& forall|i: int, j: int|
        0 <= i < j < runs.len() ==> (#[trigger] runs[i]).end() < (#[trigger] runs[j]).start_block
}

/// Runs that hold exactly the free blocks.
pub open spec fn holds_free(runs: Seq<FreeSpaceExtent>, first: u64, owned: Seq<bool>) -> bool {
    &&& forall|k: int|
        0 <= k < runs.len() ==> first <= (#[trigger] runs[k]).start_block && runs[k].end() <= first
            + owned.len()
    &&& forall|k: int, i: int|
        0 <= k < runs.len() && (#[trigger] runs[k]).start_block <= first + i < runs[k].end()
            ==> !#[trigger] owned[i]
    &&& forall|i: int|
        0 <= i < owned.len() && !#[trigger] owned[i] ==> exists|k: int|
            0 <= k < runs.len() && (#[trigger] runs[k]).start_block <= first + i < runs[k].end()
}

/// The runs of free blocks are maximal and in ascending order, hold exactly the free blocks, and
/// their lengths add up to the number of free blocks.
pub proof fn law_free_runs(first: u64, owned: Seq<bool>)
    requires
        first + owned.len() <= u64::MAX,
    ensures
        apart(free_runs(first, owned)),
        holds_free(free_runs(first, owned), first, owned),
        blocks_in(free_runs(first, owned)) == owned.len() - allocation::owned_count(owned),
        owned.len() > 0 && !owned.last() ==> free_runs(first, owned).len() > 0 && free_runs(
            first,
            owned,
        ).last().end() == first + owned.len(),
        owned.len() > 0 && owned.last() && free_runs(first, owned).len() > 0 ==> free_runs(
            first,
            owned,
        ).last().end() < first + owned.len(),
    decreases owned.len(),
{
    if owned.len() > 0 {
        let before = owned.drop_last();
        let front = free_runs(first, before);
        let runs = free_runs(first, owned);
        let n = owned.len() - 1;
        law_free_runs(first, before);
        if owned[n] {
            lemma_run_ends(front, first, before);
            assert(before.push(owned[n]) =~= owned);
        } else if n > 0 && !owned[n - 1] {
            assert(before.last() == owned[n - 1]);
            lemma_run_grows(front, first, before);
            assert(before.push(false) =~= owned);
        } else {
            assert(n > 0 ==> before.last() == owned[n - 1]);
            lemma_run_starts(front, first, before);
            assert(before.push(false) =~= owned);
        }
    }
}

proof fn lemma_run_ends(front: Seq<FreeSpaceExtent>, first: u64, before: Seq<bool>)
    requires
        holds_free(front, first, before),
    ensures
        holds_free(front, first, before.push(true)),
{
    let owned = before.push(true);
    assert forall|k: int, i: int|
        0 <= k < front.len() && (#[trigger] front[k]).start_block <= first + i
            < front[k].end() implies !#[trigger] owned[i] by {
        assert(!before[i]);
    }
    assert forall|i: int| 0 <= i < owned.len() && !#[trigger] owned[i] implies exists|k: int|
        0 <= k < front.len() && (#[trigger] front[k]).start_block <= first + i
            < front[k].end() by {
        assert(!before[i]);
    }
}

proof fn lemma_run_grows(front: Seq<FreeSpaceExtent>, first: u64, before: Seq<bool>)
    requires
        apart(front),
        holds_free(front, first, before),
        first + before.len() < u64::MAX,
        front.len() > 0,
        front.last().end() == first + before.len(),
    ensures
        ({
            let runs = front.update(
                front.len() - 1,
                FreeSpaceExtent {
                    block_count: (front.last().block_count + 1) as u64,
                    ..front.last()
                },
            );
            &&& apart(runs)
            &&& holds_free(runs, first, before.push(false))
            &&& blocks_in(runs) == blocks_in(front) + 1
            &&& runs.last().end() == first + before.len() + 1
        }),
{
    let at = front.len() - 1;
    let grown = FreeSpaceExtent { block_count: (front[at].block_count + 1) as u64, ..front[at] };
    let runs = front.update(at, grown);
    let owned = before.push(false);
    assert(front[at].end() <= u64::MAX);
    assert(runs.drop_last() =~= front.drop_last());
    assert forall|i: int| 0 <= i < runs.len() implies (#[trigger] runs[i]).block_count > 0
        && runs[i].end() <= u64::MAX by {
        assert(front[i].block_count > 0 && front[i].end() <= u64::MAX);
    }
    assert forall|i: int, j: int| 0 <= i < j < runs.len() implies (#[trigger] runs[i]).end() < (
    #[trigger] runs[j]).start_block by {
        assert(front[i].end() < front[j].start_block);
    }
    assert forall|k: int| 0 <= k < runs.len() implies first <= (#[trigger] runs[k]).start_block
        && runs[k].end() <= first + owned.len() by {
        assert(first <= front[k].start_block && front[k].end() <= first + before.len());
    }
    assert forall|k: int, i: int|
        0 <= k < runs.len() && (#[trigger] runs[k]).start_block <= first + i
            < runs[k].end() implies !#[trigger] owned[i] by {
        if i < before.len() {
            assert(front[k].start_block <= first + i < front[k].end());
            assert(!before[i]);
        }
    }
    assert forall|i: int| 0 <= i < owned.len() && !#[trigger] owned[i] implies exists|k: int|
        0 <= k < runs.len() && (#[trigger] runs[k]).start_block <= first + i < runs[k].end() by {
        if i < before.len() {
            assert(!before[i]);
            let k = choose|k: int|
                0 <= k < front.len() && (#[trigger] front[k]).start_block <= first + i
                    < front[k].end();
            assert(runs[k].start_block <= first + i < runs[k].end());
        } else {
            assert(runs[at].start_block <= first + i < runs[at].end());
        }
    }
}

proof fn lemma_run_starts(front: Seq<FreeSpaceExtent>, first: u64, before: Seq<bool>)
    requires
        apart(front),
        holds_free(front, first, before),
        first + before.len() < u64::MAX,
        front.len() > 0 ==> front.last().end() < first + before.len(),
    ensures
        ({
            let runs = front.push(
                FreeSpaceExtent { start_block: (first + before.len()) as u64, block_count: 1 },
            );
            &&& apart(runs)
            &&& holds_free(runs, first, before.push(false))
            &&& blocks_in(runs) == blocks_in(front) + 1
            &&& runs.last().end() == first + before.len() + 1
        }),
{
    let at = front.len() as int;
    let n = before.len() as int;
    let added = FreeSpaceExtent { start_block: (first + n) as u64, block_count: 1 };
    let runs = front.push(added);
    let owned = before.push(false);
    assert(runs.drop_last() =~= front);
    assert forall|i: int| 0 <= i < runs.len() implies (#[trigger] runs[i]).block_count > 0
        && runs[i].end() <= u64::MAX by {
        if i < at {
            assert(front[i].block_count > 0 && front[i].end() <= u64::MAX);
        }
    }
    assert forall|i: int, j: int| 0 <= i < j < runs.len() implies (#[trigger] runs[i]).end() < (
    #[trigger] runs[j]).start_block by {
        if j < at {
            assert(front[i].end() < front[j].start_block);
        } else if i < at - 1 {
            assert(front[i].end() < front[at - 1].start_block);
        }
    }
    assert forall|k: int| 0 <= k < runs.len() implies first <= (#[trigger] runs[k]).start_block
        && runs[k].end() <= first + owned.len() by {
        if k < at {
            assert(first <= front[k].start_block && front[k].end() <= first + before.len());
        }
    }
    assert forall|k: int, i: int|
        0 <= k < runs.len() && (#[trigger] runs[k]).start_block <= first + i
            < runs[k].end() implies !#[trigger] owned[i] by {
        if k < at {
            assert(front[k].end() <= first + before.len());
            assert(!before[i]);
        }
    }
    assert forall|i: int| 0 <= i < owned.len() && !#[trigger] owned[i] implies exists|k: int|
        0 <= k < runs.len() && (#[trigger] runs[k]).start_block <= first + i < runs[k].end() by {
        if i < before.len() {
            assert(!before[i]);
            let k = choose|k: int|
                0 <= k < front.len() && (#[trigger] front[k]).start_block <= first + i
                    < front[k].end();
            assert(runs[k] == front[k]);
        } else {
            assert(runs[at].start_block <= first + i < runs[at].end());
        }
    }
}

proof fn lemma_runs_from(runs: Seq<FreeSpaceExtent>, first: int, m: int, n: int)
    requires
        apart(runs),
        0 <= m <= n <= runs.len(),
        forall|k: int| 0 <= k < m ==> (#[trigger] runs[k]).end() <= first,
        m < runs.len() ==> runs[m].end() > first,
    ensures
        runs_from(runs.subrange(0, n), first) == Seq::new(
            (n - m) as nat,
            |k: int| runs[m + k].clipped(first),
        ),
        forall|k: int| m < k < n ==> (#[trigger] runs[k]).clipped(first) == runs[k],
    decreases n,
{
    let part = runs.subrange(0, n);
    if n > 0 {
        assert(part.drop_last() =~= runs.subrange(0, n - 1));
        assert(part.last() == runs[n - 1]);
        if m < n {
            lemma_runs_from(runs, first, m, n - 1);
            assert(m < n - 1 ==> runs[m].end() <= runs[n - 1].start_block);
            assert(runs[n - 1].end() > first);
        } else {
            lemma_skipped(runs, first, n);
        }
    }
    assert(runs_from(part, first) =~= Seq::new(
        (n - m) as nat,
        |k: int| runs[m + k].clipped(first),
    ));
    assert forall|k: int| m < k < n implies (#[trigger] runs[k]).clipped(first) == runs[k] by {
        assert(runs[m].end() <= runs[k].start_block);
    }
}

proof fn lemma_skipped(runs: Seq<FreeSpaceExtent>, first: int, n: int)
    requires
        0 <= n <= runs.len(),
        forall|k: int| 0 <= k < n ==> (#[trigger] runs[k]).end() <= first,
    ensures
        runs_from(runs.subrange(0, n), first) == Seq::<FreeSpaceExtent>::empty(),
    decreases n,
{
    let part = runs.subrange(0, n);
    if n > 0 {
        assert(part.drop_last() =~= runs.subrange(0, n - 1));
        assert(part.last() == runs[n - 1]);
        lemma_skipped(runs, first, n - 1);
    }
}

/// How many runs end at or before `first`.
spec fn skipped(runs: Seq<FreeSpaceExtent>, first: int) -> int
    decreases runs.len(),
{
    if runs.len() == 0 || runs.last().end() <= first {
        runs.len() as int
    } else {
        skipped(runs.drop_last(), first)
    }
}

proof fn lemma_skipped_count(runs: Seq<FreeSpaceExtent>, first: int)
    requires
        apart(runs),
    ensures
        0 <= skipped(runs, first) <= runs.len(),
        forall|k: int|
            0 <= k < skipped(runs, first) ==> (#[trigger] runs[k]).end() <= first,
        skipped(runs, first) < runs.len() ==> runs[skipped(runs, first)].end() > first,
    decreases runs.len(),
{
    if runs.len() > 0 {
        let n = runs.len() - 1;
        let front = runs.drop_last();
        if runs[n].end() <= first {
            assert forall|k: int| 0 <= k < runs.len() implies (#[trigger] runs[k]).end()
                <= first by {
                assert(k == n || runs[k].end() <= runs[n].start_block);
            }
        } else {
            assert(apart(front)) by {
                assert forall|i: int| 0 <= i < front.len() implies (#[trigger] front[i]).block_count
                    > 0 && front[i].end() <= u64::MAX by {
                    assert(runs[i].block_count > 0);
                }
                assert forall|i: int, j: int| 0 <= i < j < front.len() implies (
                #[trigger] front[i]).end() < (#[trigger] front[j]).start_block by {
                    assert(runs[i].end() < runs[j].start_block);
                }
            }
            lemma_skipped_count(front, first);
            let s = skipped(front, first);
            assert forall|k: int| 0 <= k < s implies (#[trigger] runs[k]).end() <= first by {
                assert(front[k].end() <= first);
            }
        }
    }
}

/// The page after a page starts where that one stopped: over advancing pages every free block is
/// seen exactly once.
pub proof fn law_free_space_pages(space: FreeSpaceView, after_block: Option<u64>, limit: int)
    requires
        apart(space.extents),
        limit > 0,
    ensures
        ({
            let page = space_page(space, after_block, limit);
            let rest = runs_from(space.extents, first_after(after_block));
            match page.next_after {
                None => page.extents == rest,
                Some(cursor) => rest == page.extents + runs_from(
                    space.extents,
                    first_after(Some(cursor)),
                ) && page.extents.len() == limit,
            }
        }),
{
    let runs = space.extents;
    let first = first_after(after_block);
    let rest = runs_from(runs, first);
    if rest.len() > limit {
        lemma_skipped_count(runs, first);
        let m = skipped(runs, first);
        let n = runs.len() as int;
        assert(runs.subrange(0, n) =~= runs);
        lemma_runs_from(runs, first, m, n);
        assert(rest[limit - 1] == runs[m + limit - 1].clipped(first));
        let next = rest[limit - 1].end();
        assert(next == runs[m + limit - 1].end());
        assert forall|k: int| 0 <= k < m + limit implies (#[trigger] runs[k]).end() <= next by {
            assert(k == m + limit - 1 || runs[k].end() < runs[m + limit - 1].start_block);
        }
        assert(runs[m + limit - 1].end() < runs[m + limit].start_block);
        lemma_runs_from(runs, next, m + limit, n);
        assert(rest =~= rest.subrange(0, limit) + runs_from(runs, next)) by {
            assert forall|k: int| limit <= k < rest.len() implies rest[k] == runs_from(runs, next)[k
                - limit] by {
                assert(rest[k] == runs[m + k].clipped(first));
                assert(runs[m + k].clipped(first) == runs[m + k]);
                assert(runs[m + limit].clipped(next) == runs[m + limit]);
                assert(runs_from(runs, next)[k - limit] == runs[m + k].clipped(next));
            }
        }
    }
}

/// Collects the runs of free blocks.
fn collect_runs(allocator: &BlockAllocator) -> (r: FilesystemFreeSpace)
    requires
        allocator@.wf(),
    ensures
        r@ == free_space_of(allocator@),
{
    let mut extents: Vec<FreeSpaceExtent> = Vec::new();
    let mut total: u64 = 0;
    let mut i: usize = 0;
    let ghost owned = allocator@.owned;
    assert(allocator.owned.len() == owned.len());
    while i < allocator.owned.len()
        invariant
            i <= owned.len() <= usize::MAX,
            owned == allocator@.owned,
            owned == allocator.owned@,
            allocator@.wf(),
            total <= i,
            total == i - allocation::owned_count(owned.subrange(0, i as int)),
            extents@ == free_runs(allocator.first, owned.subrange(0, i as int)),
        decreases owned.len() - i,
    {
        proof {
            let next = owned.subrange(0, i + 1);
            assert(next.drop_last() =~= owned.subrange(0, i as int));
            law_free_runs(allocator.first, owned.subrange(0, i as int));
        }
        if !allocator.owned[i] {
            total += 1;
            if i > 0 && !allocator.owned[i - 1] {
                assert(owned.subrange(0, i as int).last() == owned[i - 1]);
                let last: usize = extents.len() - 1;
                let extent = extents[last];
                extents.set(
                    last,
                    FreeSpaceExtent {
                        start_block: extent.start_block,
                        block_count: extent.block_count + 1,
                    },
                );
            } else {
                extents.push(
                    FreeSpaceExtent { start_block: allocator.first + i as u64, block_count: 1 },
                );
            }
        }
        i += 1;
    }
    assert(owned.subrange(0, owned.len() as int) =~= owned);
    let mut largest: u64 = 0;
    let mut k: usize = 0;
    while k < extents.len()
        invariant
            k <= extents@.len(),
            largest == longest_run(extents@.subrange(0, k as int)),
        decreases extents@.len() - k,
    {
        proof {
            let next = extents@.subrange(0, k + 1);
            assert(next.drop_last() =~= extents@.subrange(0, k as int));
        }
        if extents[k].block_count > largest {
            largest = extents[k].block_count;
        }
        k += 1;
    }
    assert(extents@.subrange(0, extents@.len() as int) =~= extents@);
    FilesystemFreeSpace { total_free_blocks: total, largest_extent_blocks: largest, extents }
}

/// Cuts free space down to a page of its runs.
fn paginate_free_space_extents(space: FilesystemFreeSpace, after_block: Option<u64>, limit: usize) -> (r: FilesystemFreeSpacePage)
    requires
        limit > 0,
        apart(space.extents@),
    ensures
        r@ == space_page(space@, after_block, limit as int),
{
    let first: u128 = match after_block {
        None => 0,
        Some(cursor) => cursor as u128 + 1,
    };
    let ghost from = first_after(after_block);
    let extents = space.extents;
    let mut rest: Vec<FreeSpaceExtent> = Vec::new();
    let mut i: usize = 0;
    while i < extents.len()
        invariant
            i <= extents@.len(),
            first == from,
            apart(extents@),
            rest@ == runs_from(extents@.subrange(0, i as int), from),
            forall|k: int| 0 <= k < rest@.len() ==> 0 < (#[trigger] rest@[k]).end() <= u64::MAX,
        decreases extents@.len() - i,
    {
        proof {
            let next = extents@.subrange(0, i + 1);
            assert(next.drop_last() =~= extents@.subrange(0, i as int));
            assert(next.last() == extents@[i as int]);
        }
        let extent = extents[i];
        assert(extents@[i as int].end() <= u64::MAX);
        let end: u64 = extent.start_block + extent.block_count;
        if end as u128 > first {
            if (extent.start_block as u128) < first {
                rest.push(
                    FreeSpaceExtent {
                        start_block: first as u64,
                        block_count: end - first as u64,
                    },
                );
            } else {
                rest.push(extent);
            }
        }
        i += 1;
    }
    assert(extents@.subrange(0, extents@.len() as int) =~= extents@);
    if rest.len() <= limit {
        return FilesystemFreeSpacePage {
            total_free_blocks: space.total_free_blocks,
            largest_extent_blocks: space.largest_extent_blocks,
            extents: rest,
            next_after: None,
        };
    }
    let page = slice_to_vec(slice_subrange(rest.as_slice(), 0, limit));
    let last = rest[limit - 1];
    assert(rest@[limit - 1].end() <= u64::MAX);
    FilesystemFreeSpacePage {
        total_free_blocks: space.total_free_blocks,
        largest_extent_blocks: space.largest_extent_blocks,
        extents: page,
        next_after: Some(last.start_block + last.block_count - 1),
    }
}

/// Inspects a settled device, which must agree with the superblock.
fn survey<D: BlockDevice>(device: &mut D, superblock: &Superblock) -> (r: Result<FsckReport, Error>)
    requires
        superblock.fits(old(device).blocks()),
    ensures
        block::untouched(old(device), final(device)),
        r is Ok || old(device).healthy() ==> step::kinded(r) == surveyed(
            old(device).blocks(),
            *superblock,
        ),
{
    let report = check_device(device)?;
    if report.total_blocks != superblock.total_blocks || report.reserved_blocks
        != superblock.reserved_blocks() {
        return Err(invalid_data("durable geometry does not match the superblock"));
    }
    Ok(report)
}

/// Reports the space of a file system, once the journal is replayed and empty and the device has
/// passed a strict inspection.
pub fn filesystem_space<D: BlockDevice>(device: &mut D, superblock: &Superblock) -> (r: Result<FilesystemSpace, Error>)
    ensures
        journal_region::carried_out(
            old(device),
            final(device),
            *superblock,
            step::kinded(r),
            space_step(old(device).blocks(), *superblock),
        ),
{
    broadcast use journal_checkpoint::group_settled;

    recover_journal_and_checkpoint(device, *superblock)?;
    let report = survey(device, superblock)?;
    Ok(
        FilesystemSpace {
            block_size: BLOCK_SIZE_U64,
            total_blocks: report.total_blocks,
            reserved_blocks: report.reserved_blocks,
            data_blocks: report.data_blocks,
            allocated_data_blocks: report.allocated_blocks,
            free_data_blocks: report.free_blocks,
        },
    )
}

/// Lists the runs of free data blocks, once the journal is replayed and empty and the device has
/// passed a strict inspection, whose count of free blocks the runs must match.
pub fn filesystem_free_space_extents<D: BlockDevice>(device: &mut D, superblock: &Superblock) -> (r: Result<FilesystemFreeSpace, Error>)
    ensures
        journal_region::carried_out(
            old(device),
            final(device),
            *superblock,
            free_space(r),
            free_space_step(old(device).blocks(), *superblock),
        ),
        r matches Ok(space) ==> apart(space.extents@),
{
    broadcast use journal_checkpoint::group_settled;

    recover_journal_and_checkpoint(device, *superblock)?;
    let report = survey(device, superblock)?;
    let allocator = load_allocator(device, superblock)?;
    let space = collect_runs(&allocator);
    if space.total_free_blocks != report.free_blocks {
        return Err(invalid_data("free-space extents disagree with the free-block count"));
    }
    proof {
        law_free_runs(allocator.first, allocator.owned@);
    }
    Ok(space)
}

/// Lists at most `limit` runs of free data blocks behind a cursor. A run that the cursor cuts is
/// given from the block behind the cursor on.
pub fn filesystem_free_space_extents_page<D: BlockDevice>(device: &mut D, superblock: &Superblock, after_block: Option<u64>, limit: usize) -> (r: Result<FilesystemFreeSpacePage, Error>)
    ensures
        journal_region::carried_out(
            old(device),
            final(device),
            *superblock,
            free_space_page(r),
            free_space_page_step(
                old(device).blocks(),
                *superblock,
                after_block,
                limit as int,
            ),
        ),
        step::turned_away(
            old(device),
            final(device),
            free_space_page(r),
            limit == 0,
        ),
{
    broadcast use journal_checkpoint::group_settled;

    if limit == 0 {
        return Err(invalid_input("free-space extent page limit must be greater than zero"));
    }
    let space = filesystem_free_space_extents(device, superblock)?;
    Ok(paginate_free_space_extents(space, after_block, limit))
}

/// The numbers of blocks add up: reserved and data blocks to the whole device, blocks in use and
/// free blocks to the data blocks.
pub proof fn law_space_adds_up(disk: Disk, sb: Superblock)
    ensures
        space_step(disk, sb).result matches Ok(space) ==> {
            &&& space.block_size == 4096
            &&& space.reserved_blocks + space.data_blocks == space.total_blocks
            &&& space.allocated_data_blocks + space.free_data_blocks == space.data_blocks
        },
{
    reveal(fsck::inspected);
}

/// On a sound device the free runs agree with the count of free blocks, and are reported.
pub proof fn law_free_space_agrees(disk: Disk, sb: Superblock)
    requires
        soundness::sound_on(disk, sb),
    ensures
        free_space_on(disk, sb) matches Ok(space) && space == free_space_of(
            soundness::tables_of(disk, sb).allocator,
        ) && blocks_in(space.extents) == space.total_free_blocks,
{
    reveal(fsck::inspected);
    soundness::lemma_sound_parts(disk, sb);
    let a = soundness::tables_of(disk, sb).allocator;
    allocation::lemma_owned_count(a.owned);
    law_free_runs(a.first, a.owned);
}

/// The longest of some runs is one of them, and none is longer.
proof fn lemma_longest_run(runs: Seq<FreeSpaceExtent>)
    ensures
        forall|k: int| 0 <= k < runs.len() ==> (#[trigger] runs[k]).block_count <= longest_run(runs),
        runs.len() == 0 ==> longest_run(runs) == 0,
        runs.len() > 0 ==> exists|k: int|
            0 <= k < runs.len() && (#[trigger] runs[k]).block_count == longest_run(runs),
    decreases runs.len(),
{
    if runs.len() > 0 {
        let front = runs.drop_last();
        lemma_longest_run(front);
        assert forall|k: int| 0 <= k < runs.len() implies (#[trigger] runs[k]).block_count
            <= longest_run(runs) by {
            if k < front.len() {
                assert(front[k] == runs[k]);
            }
        }
        if front.len() > 0 && longest_run(runs) != runs.last().block_count {
            let k = choose|k: int|
                0 <= k < front.len() && (#[trigger] front[k]).block_count == longest_run(front);
            assert(runs[k] == front[k]);
        } else {
            assert(runs[runs.len() - 1] == runs.last());
        }
    }
}

/// The space that is reported is that of the device: all its blocks, those in front of the data
/// blocks, the data blocks, and of these the ones in use and the free ones. Asking settles the journal
/// and changes nothing else, and a sound device has an answer.
pub proof fn law_space(disk: Disk, sb: Superblock)
    requires
        soundness::sound_on(journal_checkpoint::settle_step(disk, sb).disk, sb),
        journal_checkpoint::settle_step(disk, sb).result is Ok,
    ensures
        ({
            let base = journal_checkpoint::settle_step(disk, sb).disk;
            let a = soundness::tables_of(base, sb).allocator;
            let step = space_step(disk, sb);
            &&& step.disk == base
            &&& step.result matches Ok(space) && space.total_blocks == sb.total_blocks
                && space.reserved_blocks == sb.data_start() && space.data_blocks == a.owned.len()
                && space.free_data_blocks == blocks_in(free_runs(a.first, a.owned))
                && space.allocated_data_blocks == a.owned.len() - blocks_in(
                free_runs(a.first, a.owned),
            )
        }),
{
    reveal(fsck::inspected);
    let base = journal_checkpoint::settle_step(disk, sb).disk;
    soundness::lemma_sound_parts(base, sb);
    let a = soundness::tables_of(base, sb).allocator;
    allocation::lemma_owned_count(a.owned);
    law_free_runs(a.first, a.owned);
    law_space_adds_up(disk, sb);
}

/// The free blocks that are reported are those of the device: the runs are maximal, in ascending order
/// and hold exactly the free blocks, their lengths add up to the number of free blocks, and the largest
/// is the longest of them. Asking settles the journal and changes nothing else, and a sound device has
/// an answer.
pub proof fn law_free_space(disk: Disk, sb: Superblock)
    requires
        soundness::sound_on(journal_checkpoint::settle_step(disk, sb).disk, sb),
        journal_checkpoint::settle_step(disk, sb).result is Ok,
    ensures
        ({
            let base = journal_checkpoint::settle_step(disk, sb).disk;
            let a = soundness::tables_of(base, sb).allocator;
            let step = free_space_step(disk, sb);
            &&& step.disk == base
            &&& step.result matches Ok(space) && {
                &&& apart(space.extents)
                &&& holds_free(space.extents, a.first, a.owned)
                &&& space.total_free_blocks == blocks_in(space.extents)
                &&& space.next_after is None
                &&& forall|k: int|
                    0 <= k < space.extents.len() ==> (#[trigger] space.extents[k]).block_count
                        <= space.largest_extent_blocks
                &&& space.extents.len() == 0 ==> space.largest_extent_blocks == 0
                &&& space.extents.len() > 0 ==> exists|k: int|
                    0 <= k < space.extents.len() && (#[trigger] space.extents[k]).block_count
                        == space.largest_extent_blocks
            }
        }),
{
    let base = journal_checkpoint::settle_step(disk, sb).disk;
    soundness::lemma_sound_parts(base, sb);
    let a = soundness::tables_of(base, sb).allocator;
    law_free_space_agrees(base, sb);
    law_free_runs(a.first, a.owned);
    lemma_longest_run(free_runs(a.first, a.owned));
}

} // verus!
