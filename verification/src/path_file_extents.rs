//! The runs of physical blocks behind a file.

use vstd::prelude::*;
use vstd::slice::*;
use crate::block::{BlockDevice, Disk};
use crate::error::{Error, ErrorKind};
use crate::file_blocks;
use crate::file_blocks::{find_inode, invalid_data, invalid_input};
use crate::format::Superblock;
use crate::fsck;
use crate::fsck::check_device;
use crate::inode::InodeKind;
use crate::inode_table;
use crate::inode_table::load_inode_table;
use crate::journal_checkpoint;
use crate::journal_checkpoint::recover_journal_and_checkpoint;
use crate::journal_region;
use crate::path_lookup;
use crate::path_lookup::resolve_path_following_symlinks;
use crate::soundness;
use crate::step;
use crate::step::Step;

verus! {

/// Adjacent logical blocks behind which stand adjacent physical blocks.
#[derive(Clone, Copy, Debug, PartialEq, Eq, Structural)]
pub struct FileExtent {
    pub logical_start: usize,
    pub physical_start: u64,
    pub block_count: usize,
}

impl FileExtent {
    /// The logical block behind the last one.
    pub open spec fn end(self) -> int {
        self.logical_start + self.block_count
    }

    /// The part from the logical block `first` on.
    pub open spec fn clipped(self, first: int) -> FileExtent {
        if self.logical_start < first {
            FileExtent {
                logical_start: first as usize,
                physical_start: (self.physical_start + (first - self.logical_start)) as u64,
                block_count: (self.end() - first) as usize,
            }
        } else {
            self
        }
    }

    /// Whether the extent and its part from `first` on can be represented.
    pub open spec fn representable(self, first: int) -> bool {
        &&& self.end() <= usize::MAX
        &&& self.logical_start < first < self.end() ==> self.physical_start + (first
            - self.logical_start) <= u64::MAX
    }
}

/// A page of extents, and the cursor for the next where there is more.
#[derive(Clone, Debug, PartialEq, Eq)]
pub struct FileExtentPage {
    pub extents: Vec<FileExtent>,
    pub next_after_logical: Option<usize>,
}

/// A page of extents as a value.
pub struct ExtentPageView {
    pub extents: Seq<FileExtent>,
    pub next_after_logical: Option<usize>,
}

impl View for FileExtentPage {
    type V = ExtentPageView;

    open spec fn view(&self) -> ExtentPageView {
        ExtentPageView { extents: self.extents@, next_after_logical: self.next_after_logical }
    }
}

/// A page of extents as a result on values.
pub open spec fn extent_page(r: Result<FileExtentPage, Error>) -> Result<ExtentPageView, ErrorKind> {
    match r {
        Ok(page) => Ok(page@),
        Err(e) => Err(e.kind),
    }
}

/// The extents of a mapping: a block that follows its predecessor on the device joins its extent.
pub open spec fn extents_of(blocks: Seq<u64>) -> Seq<FileExtent>
    decreases blocks.len(),
{
    if blocks.len() == 0 {
        Seq::empty()
    } else {
        let front = extents_of(blocks.drop_last());
        let n = blocks.len() - 1;
        if n > 0 && blocks[n - 1] + 1 == blocks[n] {
            front.update(
                front.len() - 1,
                FileExtent { block_count: (front.last().block_count + 1) as usize, ..front.last() },
            )
        } else {
            front.push(
                FileExtent {
                    logical_start: n as usize,
                    physical_start: blocks[n],
                    block_count: 1,
                },
            )
        }
    }
}

/// The extents that reach beyond the logical block `first`, each from there on.
pub open spec fn extents_from(extents: Seq<FileExtent>, first: int) -> Seq<FileExtent>
    decreases extents.len(),
{
    if extents.len() == 0 {
        Seq::empty()
    } else {
        let front = extents_from(extents.drop_last(), first);
        if extents.last().end() <= first {
            front
        } else {
            front.push(extents.last().clipped(first))
        }
    }
}

/// The first logical block behind a cursor.
pub open spec fn first_after(after_logical: Option<usize>) -> int {
    match after_logical {
        None => 0,
        Some(cursor) => cursor + 1,
    }
}

/// At most `limit` of the extents behind a cursor.
pub open spec fn extents_page(extents: Seq<FileExtent>, after_logical: Option<usize>, limit: int) -> Result<ExtentPageView, ErrorKind> {
    let first = first_after(after_logical);
    if limit == 0 {
        Err(ErrorKind::InvalidInput)
    } else if exists|i: int|
        0 <= i < extents.len() && !(#[trigger] extents[i]).representable(first) {
        Err(ErrorKind::InvalidData)
    } else {
        let rest = extents_from(extents, first);
        if rest.len() <= limit {
            Ok(ExtentPageView { extents: rest, next_after_logical: None })
        } else {
            Ok(
                ExtentPageView {
                    extents: rest.subrange(0, limit),
                    next_after_logical: Some((rest[limit - 1].end() - 1) as usize),
                },
            )
        }
    }
}

/// Extents in ascending order, none of them empty, no two with a block in common.
pub open spec fn in_order(extents: Seq<FileExtent>) -> bool {
    &&& forall|i: int|
        0 <= i < extents.len() ==> (#[trigger] extents[i]).block_count > 0 && extents[i].end()
            <= usize::MAX
    &&& forall|i: int, j: int|
        0 <= i < j < extents.len() ==> (#[trigger] extents[i]).end() <= (
        #[trigger] extents[j]).logical_start
}

/// Extents without gaps that hold a mapping: each block of the mapping is where its extent says, and
/// no two neighbours could be joined.
pub open spec fn describes(extents: Seq<FileExtent>, blocks: Seq<u64>) -> bool {
    &&& in_order(extents)
    &&& if blocks.len() == 0 {
        extents.len() == 0
    } else {
        extents.len() > 0 && extents[0].logical_start == 0 && extents.last().end() == blocks.len()
    }
    &&& forall|k: int, m: int|
        0 <= k && m == k + 1 && m < extents.len() ==> (#[trigger] extents[k]).end() == (
        #[trigger] extents[m]).logical_start && extents[k].physical_start + extents[k].block_count
            != extents[m].physical_start
    &&& forall|k: int, j: int|
        0 <= k < extents.len() && (#[trigger] extents[k]).logical_start <= j < extents[k].end()
            ==> #[trigger] blocks[j] == extents[k].physical_start + (j - extents[k].logical_start)
}

proof fn lemma_extent_grows(front: Seq<FileExtent>, before: Seq<u64>, block: u64)
    requires
        describes(front, before),
        0 < before.len() < usize::MAX,
        before.last() + 1 == block,
    ensures
        describes(
            front.update(
                front.len() - 1,
                FileExtent { block_count: (front.last().block_count + 1) as usize, ..front.last() },
            ),
            before.push(block),
        ),
{
    let n = before.len() as int;
    let at = front.len() - 1;
    let grown = FileExtent { block_count: (front[at].block_count + 1) as usize, ..front[at] };
    let all = front.update(at, grown);
    let blocks = before.push(block);
    assert(before[n - 1] == front[at].physical_start + (n - 1 - front[at].logical_start));
    assert(all[at].end() == n + 1);
    assert forall|i: int| 0 <= i < all.len() implies (#[trigger] all[i]).block_count > 0
        && all[i].end() <= usize::MAX by {
        assert(front[i].block_count > 0 && front[i].end() <= usize::MAX);
    }
    assert forall|i: int, j: int| 0 <= i < j < all.len() implies (#[trigger] all[i]).end() <= (
    #[trigger] all[j]).logical_start by {
        assert(front[i].end() <= front[j].logical_start);
    }
    assert forall|k: int, m: int| 0 <= k && m == k + 1 && m < all.len() implies (
    #[trigger] all[k]).end() == (#[trigger] all[m]).logical_start && all[k].physical_start
        + all[k].block_count != all[m].physical_start by {
        assert(front[k].end() == front[m].logical_start);
    }
    assert forall|k: int, j: int|
        0 <= k < all.len() && (#[trigger] all[k]).logical_start <= j
            < all[k].end() implies #[trigger] blocks[j] == all[k].physical_start + (j
        - all[k].logical_start) by {
        if j < n {
            assert(front[k].logical_start <= j < front[k].end());
            assert(before[j] == front[k].physical_start + (j - front[k].logical_start));
        } else if k < at {
            assert(front[k].end() <= front[at].logical_start);
        }
    }
}

proof fn lemma_extent_starts(front: Seq<FileExtent>, before: Seq<u64>, block: u64)
    requires
        describes(front, before),
        before.len() < usize::MAX,
        before.len() > 0 ==> before.last() + 1 != block,
    ensures
        describes(
            front.push(
                FileExtent {
                    logical_start: before.len() as usize,
                    physical_start: block,
                    block_count: 1,
                },
            ),
            before.push(block),
        ),
{
    let n = before.len() as int;
    let at = front.len() as int;
    let added = FileExtent { logical_start: n as usize, physical_start: block, block_count: 1 };
    let all = front.push(added);
    let blocks = before.push(block);
    assert forall|i: int| 0 <= i < all.len() implies (#[trigger] all[i]).block_count > 0
        && all[i].end() <= usize::MAX by {
        if i < at {
            assert(front[i].block_count > 0 && front[i].end() <= usize::MAX);
        }
    }
    if at > 0 {
        assert(front[at - 1].end() == n);
        assert(before[n - 1] == front[at - 1].physical_start + (n - 1 - front[at
            - 1].logical_start));
    }
    assert forall|i: int, j: int| 0 <= i < j < all.len() implies (#[trigger] all[i]).end() <= (
    #[trigger] all[j]).logical_start by {
        if j < at {
            assert(front[i].end() <= front[j].logical_start);
        } else if i < at - 1 {
            assert(front[i].end() <= front[at - 1].logical_start);
        }
    }
    assert forall|k: int, m: int| 0 <= k && m == k + 1 && m < all.len() implies (
    #[trigger] all[k]).end() == (#[trigger] all[m]).logical_start && all[k].physical_start
        + all[k].block_count != all[m].physical_start by {
        if m < at {
            assert(front[k].end() == front[m].logical_start);
        }
    }
    assert forall|k: int, j: int|
        0 <= k < all.len() && (#[trigger] all[k]).logical_start <= j
            < all[k].end() implies #[trigger] blocks[j] == all[k].physical_start + (j
        - all[k].logical_start) by {
        if k < at {
            assert(front[k].end() <= n) by {
                assert(k == at - 1 || front[k].end() <= front[at - 1].logical_start);
            }
            assert(before[j] == front[k].physical_start + (j - front[k].logical_start));
        }
    }
}

/// The extents of a mapping stand in order and without gaps, each block of the mapping is where its
/// extent says, and no two neighbours could be joined.
pub proof fn law_extents(blocks: Seq<u64>)
    requires
        blocks.len() <= usize::MAX,
    ensures
        describes(extents_of(blocks), blocks),
    decreases blocks.len(),
{
    if blocks.len() > 0 {
        let before = blocks.drop_last();
        let n = blocks.len() - 1;
        law_extents(before);
        assert(before.push(blocks[n]) =~= blocks);
        if n > 0 && blocks[n - 1] + 1 == blocks[n] {
            assert(before.last() == blocks[n - 1]);
            lemma_extent_grows(extents_of(before), before, blocks[n]);
        } else {
            lemma_extent_starts(extents_of(before), before, blocks[n]);
        }
    }
}

proof fn lemma_extents_from(extents: Seq<FileExtent>, first: int, m: int, n: int)
    requires
        in_order(extents),
        0 <= m <= n <= extents.len(),
        forall|k: int| 0 <= k < m ==> (#[trigger] extents[k]).end() <= first,
        m < extents.len() ==> extents[m].end() > first,
    ensures
        extents_from(extents.subrange(0, n), first) == Seq::new(
            (n - m) as nat,
            |k: int| extents[m + k].clipped(first),
        ),
        forall|k: int| m < k < n ==> (#[trigger] extents[k]).clipped(first) == extents[k],
    decreases n,
{
    let part = extents.subrange(0, n);
    if n > 0 {
        assert(part.drop_last() =~= extents.subrange(0, n - 1));
        assert(part.last() == extents[n - 1]);
        if m < n {
            lemma_extents_from(extents, first, m, n - 1);
            assert(m < n - 1 ==> extents[m].end() <= extents[n - 1].logical_start);
            assert(extents[n - 1].end() > first);
        } else {
            lemma_skipped(extents, first, n);
        }
    }
    assert(extents_from(part, first) =~= Seq::new(
        (n - m) as nat,
        |k: int| extents[m + k].clipped(first),
    ));
    assert forall|k: int| m < k < n implies (#[trigger] extents[k]).clipped(first) == extents[k] by {
        assert(extents[m].end() <= extents[k].logical_start);
    }
}

proof fn lemma_skipped(extents: Seq<FileExtent>, first: int, n: int)
    requires
        0 <= n <= extents.len(),
        forall|k: int| 0 <= k < n ==> (#[trigger] extents[k]).end() <= first,
    ensures
        extents_from(extents.subrange(0, n), first) == Seq::<FileExtent>::empty(),
    decreases n,
{
    let part = extents.subrange(0, n);
    if n > 0 {
        assert(part.drop_last() =~= extents.subrange(0, n - 1));
        assert(part.last() == extents[n - 1]);
        lemma_skipped(extents, first, n - 1);
    }
}

/// How many extents end at or before `first`.
spec fn skipped(extents: Seq<FileExtent>, first: int) -> int
    decreases extents.len(),
{
    if extents.len() == 0 || extents.last().end() <= first {
        extents.len() as int
    } else {
        skipped(extents.drop_last(), first)
    }
}

proof fn lemma_skipped_count(extents: Seq<FileExtent>, first: int)
    requires
        in_order(extents),
    ensures
        0 <= skipped(extents, first) <= extents.len(),
        forall|k: int|
            0 <= k < skipped(extents, first) ==> (#[trigger] extents[k]).end() <= first,
        skipped(extents, first) < extents.len() ==> extents[skipped(extents, first)].end() > first,
    decreases extents.len(),
{
    if extents.len() > 0 {
        let n = extents.len() - 1;
        let front = extents.drop_last();
        if extents[n].end() <= first {
            assert forall|k: int| 0 <= k < extents.len() implies (#[trigger] extents[k]).end()
                <= first by {
                assert(k == n || extents[k].end() <= extents[n].logical_start);
            }
        } else {
            assert(in_order(front)) by {
                assert forall|i: int| 0 <= i < front.len() implies (#[trigger] front[i]).block_count
                    > 0 && front[i].end() <= usize::MAX by {
                    assert(extents[i].block_count > 0);
                }
                assert forall|i: int, j: int| 0 <= i < j < front.len() implies (
                #[trigger] front[i]).end() <= (#[trigger] front[j]).logical_start by {
                    assert(extents[i].end() <= extents[j].logical_start);
                }
            }
            lemma_skipped_count(front, first);
            let s = skipped(front, first);
            assert forall|k: int| 0 <= k < s implies (#[trigger] extents[k]).end() <= first by {
                assert(front[k].end() <= first);
            }
        }
    }
}

/// The page after a page starts where that one stopped: over advancing pages every block is seen
/// exactly once.
pub proof fn law_extent_pages(extents: Seq<FileExtent>, after_logical: Option<usize>, limit: int)
    requires
        in_order(extents),
        limit > 0,
    ensures
        extents_page(extents, after_logical, limit) matches Ok(page) ==> {
            let rest = extents_from(extents, first_after(after_logical));
            match page.next_after_logical {
                None => page.extents == rest,
                Some(cursor) => rest == page.extents + extents_from(
                    extents,
                    first_after(Some(cursor)),
                ) && page.extents.len() == limit,
            }
        },
{
    let first = first_after(after_logical);
    let rest = extents_from(extents, first);
    if rest.len() > limit {
        lemma_skipped_count(extents, first);
        let m = skipped(extents, first);
        let n = extents.len() as int;
        assert(extents.subrange(0, n) =~= extents);
        lemma_extents_from(extents, first, m, n);
        let last = rest[limit - 1];
        assert(last == extents[m + limit - 1].clipped(first));
        let next = last.end();
        assert(next == extents[m + limit - 1].end());
        assert forall|k: int| 0 <= k < m + limit implies (#[trigger] extents[k]).end() <= next by {
            assert(k == m + limit - 1 || extents[k].end() <= extents[m + limit - 1].logical_start);
        }
        assert(extents[m + limit - 1].end() <= extents[m + limit].logical_start);
        assert(extents[m + limit].end() > next);
        lemma_extents_from(extents, next, m + limit, n);
        assert(rest =~= rest.subrange(0, limit) + extents_from(extents, next)) by {
            assert forall|k: int| limit <= k < rest.len() implies rest[k] == extents_from(
                extents,
                next,
            )[k - limit] by {
                assert(rest[k] == extents[m + k].clipped(first));
                assert(extents[m + k].clipped(first) == extents[m + k]);
                assert(extents[m + limit].clipped(next) == extents[m + limit]);
                assert(extents_from(extents, next)[k - limit] == extents[m + k].clipped(next));
            }
        }
    }
}

/// The mapping of a regular file.
pub open spec fn mapping_of(disk: Disk, sb: Superblock, id: u64) -> Result<Seq<u64>, ErrorKind> {
    match inode_table::inodes_on(disk, sb) {
        Err(k) => Err(k),
        Ok(inodes) => match file_blocks::index_of(inodes, id) {
            None => Err(ErrorKind::InvalidData),
            Some(i) => if inodes[i].kind != InodeKind::File {
                Err(ErrorKind::InvalidInput)
            } else {
                Ok(inodes[i].blocks)
            },
        },
    }
}

/// The mapping of the regular file that a path names, on a device that passes a strict inspection.
pub open spec fn mapping_step(disk: Disk, sb: Superblock, path: Seq<char>) -> Step<Seq<u64>> {
    journal_checkpoint::settled_then(
        disk,
        sb,
        |d: Disk|
            match fsck::checked(d) {
                Err(k) => step::stay(d, Err(k)),
                Ok(_) => path_lookup::resolved_then(
                    d,
                    sb,
                    path,
                    |id: u64| step::stay(d, mapping_of(d, sb, id)),
                ),
            },
    )
}

/// The extents of the regular file that a path names.
pub open spec fn extents_step(disk: Disk, sb: Superblock, path: Seq<char>) -> Step<Seq<FileExtent>> {
    let mapping = mapping_step(disk, sb, path);
    Step {
        disk: mapping.disk,
        result: match mapping.result {
            Ok(blocks) => Ok(extents_of(blocks)),
            Err(k) => Err(k),
        },
    }
}

/// A page of the extents of the regular file that a path names.
pub open spec fn extents_page_step(disk: Disk, sb: Superblock, path: Seq<char>, after_logical: Option<usize>, limit: int) -> Step<ExtentPageView> {
    if limit == 0 {
        step::stay(disk, Err(ErrorKind::InvalidInput))
    } else {
        let mapping = mapping_step(disk, sb, path);
        Step {
            disk: mapping.disk,
            result: match mapping.result {
                Ok(blocks) => extents_page(extents_of(blocks), after_logical, limit),
                Err(k) => Err(k),
            },
        }
    }
}

/// Joins the blocks of a mapping to extents.
pub fn coalesce_extents(blocks: &[u64]) -> (r: Result<Vec<FileExtent>, Error>)
    ensures
        step::listed(r) == Ok::<Seq<FileExtent>, ErrorKind>(extents_of(blocks@)),
{
    let mut extents: Vec<FileExtent> = Vec::new();
    let mut i: usize = 0;
    assert(blocks.len() == blocks@.len());
    while i < blocks.len()
        invariant
            i <= blocks@.len() <= usize::MAX,
            extents@ == extents_of(blocks@.subrange(0, i as int)),
        decreases blocks@.len() - i,
    {
        proof {
            let next = blocks@.subrange(0, i + 1);
            assert(next.drop_last() =~= blocks@.subrange(0, i as int));
            law_extents(blocks@.subrange(0, i as int));
        }
        if i > 0 && blocks[i - 1] < u64::MAX && blocks[i - 1] + 1 == blocks[i] {
            let last: usize = extents.len() - 1;
            let extent = extents[last];
            assert(extents@[last as int].end() == i);
            extents.set(
                last,
                FileExtent {
                    logical_start: extent.logical_start,
                    physical_start: extent.physical_start,
                    block_count: extent.block_count + 1,
                },
            );
        } else {
            extents.push(
                FileExtent { logical_start: i, physical_start: blocks[i], block_count: 1 },
            );
        }
        i += 1;
    }
    assert(blocks@.subrange(0, blocks@.len() as int) =~= blocks@);
    Ok(extents)
}

/// At most `limit` of the extents behind the logical block `after_logical`. An extent that the
/// cursor cuts is given from the block behind the cursor on.
pub fn paginate_extents(extents: Vec<FileExtent>, after_logical: Option<usize>, limit: usize) -> (r: Result<FileExtentPage, Error>)
    ensures
        extent_page(r) == extents_page(extents@, after_logical, limit as int),
{
    if limit == 0 {
        return Err(invalid_input("extent page limit must be greater than zero"));
    }
    let first: u128 = match after_logical {
        None => 0,
        Some(cursor) => cursor as u128 + 1,
    };
    let ghost from = first_after(after_logical);
    let mut rest: Vec<FileExtent> = Vec::new();
    let mut i: usize = 0;
    while i < extents.len()
        invariant
            i <= extents@.len(),
            limit > 0,
            first == from,
            from == first_after(after_logical),
            rest@ == extents_from(extents@.subrange(0, i as int), from),
            rest@.len() <= i,
            forall|k: int| 0 <= k < i ==> (#[trigger] extents@[k]).representable(from),
            forall|k: int| 0 <= k < rest@.len() ==> 0 < (#[trigger] rest@[k]).end() <= usize::MAX,
        decreases extents@.len() - i,
    {
        proof {
            let next = extents@.subrange(0, i + 1);
            assert(next.drop_last() =~= extents@.subrange(0, i as int));
            assert(next.last() == extents@[i as int]);
        }
        let extent = extents[i];
        let end: usize = match extent.logical_start.checked_add(extent.block_count) {
            Some(end) => end,
            None => {
                assert(!extents@[i as int].representable(from));
                return Err(invalid_data("file extent logical end overflow"));
            },
        };
        if end as u128 > first {
            if (extent.logical_start as u128) < first {
                let skip: usize = (first - extent.logical_start as u128) as usize;
                let physical_start: u64 = match extent.physical_start.checked_add(skip as u64) {
                    Some(p) => p,
                    None => {
                        assert(!extents@[i as int].representable(from));
                        return Err(invalid_data("file extent physical cursor overflow"));
                    },
                };
                rest.push(
                    FileExtent {
                        logical_start: first as usize,
                        physical_start,
                        block_count: extent.block_count - skip,
                    },
                );
            } else {
                rest.push(extent);
            }
        }
        i += 1;
    }
    assert(extents@.subrange(0, extents@.len() as int) =~= extents@);
    if rest.len() <= limit {
        return Ok(FileExtentPage { extents: rest, next_after_logical: None });
    }
    let page = slice_to_vec(slice_subrange(rest.as_slice(), 0, limit));
    let last = rest[limit - 1];
    let next: usize = last.logical_start + last.block_count - 1;
    Ok(FileExtentPage { extents: page, next_after_logical: Some(next) })
}

/// The mapping of the regular file that a path names.
fn recovered_file_blocks<D: BlockDevice>(device: &mut D, superblock: &Superblock, path: &str) -> (r: Result<Vec<u64>, Error>)
    ensures
        journal_region::carried_out(
            old(device),
            final(device),
            *superblock,
            step::listed(r),
            mapping_step(old(device).blocks(), *superblock, path@),
        ),
{
    broadcast use journal_checkpoint::group_settled;

    recover_journal_and_checkpoint(device, *superblock)?;
    check_device(device)?;
    let inode_id: u64 = resolve_path_following_symlinks(device, superblock, path)?;
    let inodes = load_inode_table(device, superblock)?;
    let index: usize = match find_inode(inodes.as_slice(), inode_id) {
        Some(i) => i,
        None => return Err(
            invalid_data("resolved inode is missing from validated inode table"),
        ),
    };
    if inodes[index].kind != InodeKind::File {
        return Err(invalid_input("resolved pathname is not a regular file"));
    }
    Ok(slice_to_vec(inodes[index].blocks.as_slice()))
}

/// Lists the extents of the regular file that a path names, once the journal is replayed and empty
/// and the device has passed a strict inspection.
pub fn file_extents_at_path<D: BlockDevice>(device: &mut D, superblock: &Superblock, path: &str) -> (r: Result<Vec<FileExtent>, Error>)
    ensures
        journal_region::carried_out(
            old(device),
            final(device),
            *superblock,
            step::listed(r),
            extents_step(old(device).blocks(), *superblock, path@),
        ),
{
    broadcast use journal_checkpoint::group_settled;

    let blocks = recovered_file_blocks(device, superblock, path)?;
    coalesce_extents(blocks.as_slice())
}

/// Lists at most `limit` extents of the regular file that a path names, behind a cursor.
pub fn file_extents_page_at_path<D: BlockDevice>(
    device: &mut D,
    superblock: &Superblock,
    path: &str,
    after_logical: Option<usize>,
    limit: usize,
) -> (r: Result<FileExtentPage, Error>)
    ensures
        journal_region::carried_out(
            old(device),
            final(device),
            *superblock,
            extent_page(r),
            extents_page_step(
                old(device).blocks(),
                *superblock,
                path@,
                after_logical,
                limit as int,
            ),
        ),
        step::turned_away(
            old(device),
            final(device),
            extent_page(r),
            limit == 0,
        ),
{
    broadcast use journal_checkpoint::group_settled;

    if limit == 0 {
        return Err(invalid_input("extent page limit must be greater than zero"));
    }
    let blocks = recovered_file_blocks(device, superblock, path)?;
    let extents = coalesce_extents(blocks.as_slice())?;
    paginate_extents(extents, after_logical, limit)
}

/// The mapping and the extents at a path are those of the file that the path names: the extents hold
/// its blocks in order and without gaps. Reading them settles the journal and changes nothing else. The
/// device has to be sound once its journal is settled.
pub proof fn law_extents_at_path(disk: Disk, sb: Superblock, path: Seq<char>)
    requires
        soundness::sound_on(journal_checkpoint::settle_step(disk, sb).disk, sb),
        journal_checkpoint::settle_step(disk, sb).result is Ok,
    ensures
        ({
            let base = journal_checkpoint::settle_step(disk, sb).disk;
            let t = soundness::tables_of(base, sb);
            let step = extents_step(disk, sb, path);
            &&& step.disk == base
            &&& step.result matches Ok(extents) ==> (path_lookup::file_at(base, sb, path) matches Ok(
                i,
            ) && describes(extents, t.inodes[i].blocks))
            &&& fsck::checked(base) is Ok && path_lookup::file_at(base, sb, path) is Ok
                ==> step.result is Ok
        }),
{
    let base = journal_checkpoint::settle_step(disk, sb).disk;
    let t = soundness::tables_of(base, sb);
    soundness::lemma_sound_parts(base, sb);
    inode_table::lemma_inodes_exact(base, sb);
    path_lookup::law_file_at(base, sb, path);
    if let Ok(id) = path_lookup::resolved(base, sb, path, true) {
        file_blocks::lemma_index_from(t.inodes, id, 0);
        if let Ok(i) = path_lookup::file_at(base, sb, path) {
            law_extents(t.inodes[i].blocks);
        }
    }
}

/// A page at a path is a page of the extents at that path.
pub proof fn law_extents_page_at_path(disk: Disk, sb: Superblock, path: Seq<char>, after_logical: Option<usize>, limit: int)
    requires
        limit > 0,
    ensures
        extents_page_step(disk, sb, path, after_logical, limit) == (Step {
            disk: extents_step(disk, sb, path).disk,
            result: match extents_step(disk, sb, path).result {
                Ok(extents) => extents_page(extents, after_logical, limit),
                Err(kind) => Err(kind),
            },
        }),
{
}

} // verus!
