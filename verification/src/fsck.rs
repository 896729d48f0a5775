//! Read-only inspection of a whole file system.

use vstd::prelude::*;
use crate::allocation;
use crate::allocation::{AllocView, BlockAllocator};
use crate::allocation_disk;
use crate::allocation_disk::load_allocator;
use crate::block;
use crate::block::{BlockDevice, Disk};
use crate::directory_codec::PersistedDirectoryEntry;
use crate::directory_table;
use crate::directory_table::load_directory_table;
use crate::error::{Error, ErrorKind};
use crate::file_blocks;
use crate::file_blocks::{are_distinct, are_owned};
use crate::format::{read_superblock, Superblock};
use crate::inode::InodeKind;
use crate::inode_codec::{InodeView, PersistedInode, SPARSE_HOLE_BLOCK};
use crate::inode_table;
use crate::inode_table::load_inode_table;
use crate::journal;
use crate::journal::{EntryView, JournalEntry};
use crate::journal_region;
use crate::journal_region::load_journal_image;
use crate::namespace;
use crate::namespace::{is_sound_namespace, list_unreachable};
use crate::recovery;

verus! {

/// What an inspection found.
#[derive(Debug, Clone, PartialEq, Eq)]
pub struct FsckReport {
    pub total_blocks: u64,
    pub reserved_blocks: u64,
    pub data_blocks: u64,
    pub allocated_blocks: u64,
    pub free_blocks: u64,
    pub journal_writes: usize,
    pub committed_transactions: usize,
    pub pending_transaction: Option<u64>,
}

/// The number of writes in a log, committed or not.
pub open spec fn write_count(entries: Seq<EntryView>) -> nat
    decreases entries.len(),
{
    if entries.len() == 0 {
        0
    } else {
        write_count(entries.drop_last()) + if entries.last() is Write {
            1nat
        } else {
            0nat
        }
    }
}

/// The report on a file system with this log and these numbers of blocks; none where the blocks do
/// not add up, or the log is out of order or writes where no log may.
pub open spec fn audited(sb: Superblock, entries: Seq<EntryView>, allocated: u64, free: u64) -> Option<FsckReport> {
    if sb.valid() && allocated + free == sb.total_blocks - sb.data_start()
        && journal_region::admissible(sb, entries) {
        Some(
            FsckReport {
                total_blocks: sb.total_blocks,
                reserved_blocks: sb.data_start() as u64,
                data_blocks: (sb.total_blocks - sb.data_start()) as u64,
                allocated_blocks: allocated,
                free_blocks: free,
                journal_writes: write_count(entries) as usize,
                committed_transactions: recovery::plan_of(entries).transactions as usize,
                pending_transaction: recovery::open_after(entries)->Some_0,
            },
        )
    } else {
        None
    }
}

/// The blocks of a mapping that have storage.
pub open spec fn stored_blocks(blocks: Seq<u64>) -> Seq<u64>
    decreases blocks.len(),
{
    if blocks.len() == 0 {
        Seq::empty()
    } else {
        let front = stored_blocks(blocks.drop_last());
        if blocks.last() == SPARSE_HOLE_BLOCK {
            front
        } else {
            front.push(blocks.last())
        }
    }
}

/// Every storage block that an inode references, in table order.
pub open spec fn references(inodes: Seq<InodeView>) -> Seq<u64>
    decreases inodes.len(),
{
    if inodes.len() == 0 {
        Seq::empty()
    } else {
        references(inodes.drop_last()) + stored_blocks(inodes.last().blocks)
    }
}

/// Only regular files have holes.
pub open spec fn holes_in_files(inodes: Seq<InodeView>) -> bool {
    forall|i: int|
        0 <= i < inodes.len() && (#[trigger] inodes[i]).kind != InodeKind::File
            ==> !inodes[i].blocks.contains(SPARSE_HOLE_BLOCK)
}

/// No block is referenced twice, every referenced block is in use, and only regular files have
/// holes.
pub open spec fn sound_ownership(a: AllocView, inodes: Seq<InodeView>) -> bool {
    &&& references(inodes).no_duplicates()
    &&& file_blocks::all_owned(a, references(inodes))
    &&& holes_in_files(inodes)
}

/// The blocks in use among the first `count` that are not in `referenced`, in ascending order.
pub open spec fn unreferenced(a: AllocView, referenced: Seq<u64>, count: nat) -> Seq<u64>
    decreases count,
{
    if count == 0 {
        Seq::empty()
    } else {
        let front = unreferenced(a, referenced, (count - 1) as nat);
        let block = (a.first + count - 1) as u64;
        if a.owned[count - 1] && !referenced.contains(block) {
            front.push(block)
        } else {
            front
        }
    }
}

/// The blocks in use that no inode references, in ascending order.
pub open spec fn orphaned_blocks(a: AllocView, inodes: Seq<InodeView>) -> Seq<u64> {
    unreferenced(a, references(inodes), a.owned.len())
}

/// The findings of an inspection: the report, and what strict inspection does not tolerate.
pub struct Findings {
    pub report: FsckReport,
    pub orphaned: Seq<u64>,
    pub unreachable: Seq<u64>,
}

/// The findings on a device, or how it is refused.
#[verifier::opaque]
pub open spec fn inspected(disk: Disk) -> Result<Findings, ErrorKind> {
    match crate::format::superblock_on(disk) {
        None => Err(ErrorKind::InvalidData),
        Some(sb) => match (
            journal_region::image_on(disk, sb),
            allocation_disk::allocator_on(disk, sb),
            inode_table::inodes_on(disk, sb),
            directory_table::entries_on(disk, sb),
        ) {
            (Err(kind), _, _, _) => Err(kind),
            (_, Err(kind), _, _) => Err(kind),
            (_, _, Err(kind), _) => Err(kind),
            (_, _, _, Err(kind)) => Err(kind),
            (Ok(log), Ok(a), Ok(inodes), Ok(entries)) => {
                let allocated = allocation::owned_count(a.owned);
                match audited(
                    sb,
                    log,
                    allocated as u64,
                    (a.owned.len() - allocated) as u64,
                ) {
                    None => Err(ErrorKind::InvalidData),
                    Some(report) => if !sound_ownership(a, inodes) || !namespace::sound_namespace(
                        inodes,
                        entries,
                    ) {
                        Err(ErrorKind::InvalidData)
                    } else {
                        Ok(
                            Findings {
                                report,
                                orphaned: orphaned_blocks(a, inodes),
                                unreachable: namespace::unreachable_ids(inodes, entries),
                            },
                        )
                    },
                }
            },
        },
    }
}

/// The report of a strict inspection: no block in use without an inode, no inode without a path.
pub open spec fn checked(disk: Disk) -> Result<FsckReport, ErrorKind> {
    match inspected(disk) {
        Err(kind) => Err(kind),
        Ok(found) => if found.orphaned.len() == 0 && found.unreachable.len() == 0 {
            Ok(found.report)
        } else {
            Err(ErrorKind::InvalidData)
        },
    }
}

/// The report and the blocks in use without an inode.
pub open spec fn checked_but_orphans(disk: Disk) -> Result<(FsckReport, Seq<u64>), ErrorKind> {
    match inspected(disk) {
        Err(kind) => Err(kind),
        Ok(found) => if found.unreachable.len() == 0 {
            Ok((found.report, found.orphaned))
        } else {
            Err(ErrorKind::InvalidData)
        },
    }
}

/// The report and the inodes without a path.
pub open spec fn checked_but_unreachable(disk: Disk) -> Result<(FsckReport, Seq<u64>), ErrorKind> {
    match inspected(disk) {
        Err(kind) => Err(kind),
        Ok(found) => if found.orphaned.len() == 0 {
            Ok((found.report, found.unreachable))
        } else {
            Err(ErrorKind::InvalidData)
        },
    }
}

proof fn lemma_write_count(entries: Seq<EntryView>)
    ensures
        write_count(entries) <= entries.len(),
    decreases entries.len(),
{
    if entries.len() > 0 {
        lemma_write_count(entries.drop_last());
    }
}

fn invalid_data(message: &'static str) -> (e: Error)
    ensures
        e.kind == ErrorKind::InvalidData,
        e.message == message,
{
    Error::new(ErrorKind::InvalidData, message)
}

fn validate_home_block(superblock: &Superblock, block: u64) -> (b: bool)
    ensures
        b == journal_region::is_home(*superblock, block),
{
    superblock.allocation_start <= block && block < superblock.total_blocks
}

/// Holds a log and the numbers of blocks in use and free against the superblock. A transaction
/// without its commit at the end of the log is reported, not refused.
pub fn audit_journal(superblock: Superblock, entries: &[JournalEntry], allocated_blocks: u64, free_blocks: u64) -> (r: Result<FsckReport, Error>)
    ensures
        match r {
            Ok(report) => audited(
                superblock,
                journal::entry_views(entries@),
                allocated_blocks,
                free_blocks,
            ) == Some(report),
            Err(e) => audited(
                superblock,
                journal::entry_views(entries@),
                allocated_blocks,
                free_blocks,
            ) is None && e.kind == ErrorKind::InvalidData,
        },
{
    let ghost views = journal::entry_views(entries@);
    if !superblock.describes(superblock.total_blocks) {
        return Err(invalid_data("superblock declares invalid geometry"));
    }
    let reserved_blocks: u64 = superblock.reserved_blocks();
    let data_blocks: u64 = superblock.total_blocks - reserved_blocks;
    match allocated_blocks.checked_add(free_blocks) {
        Some(total) => if total != data_blocks {
            return Err(invalid_data("allocation accounting does not cover data blocks"));
        },
        None => return Err(invalid_data("allocation accounting overflows")),
    }
    let mut active: Option<u64> = None;
    let mut journal_writes: usize = 0;
    let mut committed_transactions: usize = 0;
    let mut i: usize = 0;
    assert(views.subrange(0, 0) =~= Seq::<EntryView>::empty());
    while i < entries.len()
        invariant
            i <= entries@.len(),
            views == journal::entry_views(entries@),
            recovery::open_after(views.subrange(0, i as int)) == Some(active),
            journal_region::home_only(superblock, views.subrange(0, i as int)),
            journal_writes == write_count(views.subrange(0, i as int)),
            journal_writes <= i,
            committed_transactions == recovery::plan_of(
                views.subrange(0, i as int),
            ).transactions,
            committed_transactions <= i,
        decreases entries@.len() - i,
    {
        let ghost next = views.subrange(0, i + 1);
        proof {
            assert(next.drop_last() =~= views.subrange(0, i as int));
            assert(next.last() == entries@[i as int]@);
            assert(views[i as int] == entries@[i as int]@);
            if recovery::open_after(next) is None {
                recovery::lemma_open_prefix(views, i + 1);
            }
        }
        match &entries[i] {
            JournalEntry::Begin { txid } => {
                if active.is_some() {
                    return Err(invalid_data("nested journal transaction"));
                }
                active = Some(*txid);
            },
            JournalEntry::Write { txid, block, data } => {
                if active.is_none() || active.unwrap() != *txid {
                    return Err(invalid_data("journal write outside active transaction"));
                }
                if !validate_home_block(&superblock, *block) {
                    return Err(invalid_data("journal write targets protected metadata"));
                }
                journal_writes += 1;
            },
            JournalEntry::Commit { txid } => {
                if active.is_none() || active.unwrap() != *txid {
                    return Err(invalid_data("journal commit outside active transaction"));
                }
                active = None;
                committed_transactions += 1;
            },
        }
        assert forall|k: int| 0 <= k < next.len() implies (#[trigger] next[k] matches EntryView::Write {
            txid,
            block,
            data,
        } ==> journal_region::is_home(superblock, block)) by {
            if k < i {
                assert(views.subrange(0, i as int)[k] == next[k]);
            }
        }
        i += 1;
    }
    assert(views.subrange(0, views.len() as int) =~= views);
    Ok(
        FsckReport {
            total_blocks: superblock.total_blocks,
            reserved_blocks,
            data_blocks,
            allocated_blocks,
            free_blocks,
            journal_writes,
            committed_transactions,
            pending_transaction: active,
        },
    )
}

fn list_stored_blocks(blocks: &[u64]) -> (r: Vec<u64>)
    ensures
        r@ == stored_blocks(blocks@),
{
    let mut stored: Vec<u64> = Vec::new();
    let mut i: usize = 0;
    while i < blocks.len()
        invariant
            i <= blocks@.len(),
            stored@ == stored_blocks(blocks@.subrange(0, i as int)),
        decreases blocks@.len() - i,
    {
        proof {
            let next = blocks@.subrange(0, i + 1);
            assert(next.drop_last() =~= blocks@.subrange(0, i as int));
        }
        if blocks[i] != SPARSE_HOLE_BLOCK {
            stored.push(blocks[i]);
        }
        i += 1;
    }
    assert(blocks@.subrange(0, blocks@.len() as int) =~= blocks@);
    stored
}

fn list_references(inodes: &[PersistedInode]) -> (r: Vec<u64>)
    ensures
        r@ == references(inode_table::inode_views(inodes@)),
{
    let ghost views = inode_table::inode_views(inodes@);
    let mut all: Vec<u64> = Vec::new();
    let mut i: usize = 0;
    while i < inodes.len()
        invariant
            i <= inodes@.len(),
            views == inode_table::inode_views(inodes@),
            all@ == references(views.subrange(0, i as int)),
        decreases inodes@.len() - i,
    {
        proof {
            let next = views.subrange(0, i + 1);
            assert(next.drop_last() =~= views.subrange(0, i as int));
            assert(next.last() == inodes@[i as int]@);
        }
        let mut stored = list_stored_blocks(inodes[i].blocks.as_slice());
        all.append(&mut stored);
        i += 1;
    }
    assert(views.subrange(0, views.len() as int) =~= views);
    all
}

fn contains_block(blocks: &[u64], block: u64) -> (b: bool)
    ensures
        b == blocks@.contains(block),
{
    let mut i: usize = 0;
    while i < blocks.len()
        invariant
            i <= blocks@.len(),
            forall|k: int| 0 <= k < i ==> #[trigger] blocks@[k] != block,
        decreases blocks@.len() - i,
    {
        if blocks[i] == block {
            return true;
        }
        i += 1;
    }
    false
}

fn are_holes_in_files(inodes: &[PersistedInode]) -> (b: bool)
    ensures
        b == holes_in_files(inode_table::inode_views(inodes@)),
{
    let ghost views = inode_table::inode_views(inodes@);
    let mut i: usize = 0;
    while i < inodes.len()
        invariant
            i <= inodes@.len(),
            views == inode_table::inode_views(inodes@),
            forall|k: int|
                0 <= k < i && (#[trigger] views[k]).kind != InodeKind::File
                    ==> !views[k].blocks.contains(SPARSE_HOLE_BLOCK),
        decreases inodes@.len() - i,
    {
        assert(views[i as int] == inodes@[i as int]@);
        if inodes[i].kind != InodeKind::File && contains_block(
            inodes[i].blocks.as_slice(),
            SPARSE_HOLE_BLOCK,
        ) {
            return false;
        }
        i += 1;
    }
    true
}

fn list_orphans(allocator: &BlockAllocator, referenced: &[u64]) -> (r: Vec<u64>)
    requires
        allocator@.wf(),
    ensures
        r@ == unreferenced(allocator@, referenced@, allocator@.owned.len()),
{
    let mut orphans: Vec<u64> = Vec::new();
    let mut i: usize = 0;
    while i < allocator.owned.len()
        invariant
            i <= allocator.owned@.len(),
            allocator@.wf(),
            orphans@ == unreferenced(allocator@, referenced@, i as nat),
        decreases allocator.owned@.len() - i,
    {
        let block: u64 = allocator.first + i as u64;
        if allocator.owned[i] && !contains_block(referenced, block) {
            orphans.push(block);
        }
        i += 1;
    }
    orphans
}

/// Inspects a device: the report, the blocks in use without an inode, the inodes without a path.
fn inspect_device<D: BlockDevice>(device: &mut D) -> (r: Result<(FsckReport, Vec<u64>, Vec<u64>), Error>)
    ensures
        block::untouched(old(device), final(device)),
        old(device).blocks().len() == 0 ==> r is Err,
        match r {
            Ok((report, orphaned, unreachable)) => inspected(old(device).blocks()) == Ok::<
                Findings,
                ErrorKind,
            >(Findings { report, orphaned: orphaned@, unreachable: unreachable@ }),
            Err(e) => !old(device).healthy() || old(device).blocks().len() == 0 || inspected(
                old(device).blocks(),
            ) == Err::<Findings, ErrorKind>(e.kind),
        },
{
    proof {
        reveal(inspected);
    }
    let superblock = read_superblock(device)?;
    let log = load_journal_image(device, superblock)?;
    let allocator = load_allocator(device, &superblock)?;
    let inodes = load_inode_table(device, &superblock)?;
    let entries = load_directory_table(device, &superblock)?;
    let report = audit_journal(
        superblock,
        log.as_slice(),
        allocator.allocated_blocks(),
        allocator.free_blocks(),
    )?;
    let referenced = list_references(inodes.as_slice());
    if !are_distinct(referenced.as_slice()) || !are_owned(&allocator, referenced.as_slice())
        || !are_holes_in_files(inodes.as_slice()) {
        return Err(invalid_data("inode references disagree with the allocator"));
    }
    if !is_sound_namespace(inodes.as_slice(), entries.as_slice()) {
        return Err(invalid_data("namespace is inconsistent"));
    }
    let orphaned = list_orphans(&allocator, referenced.as_slice());
    let unreachable = list_unreachable(inodes.as_slice(), entries.as_slice());
    Ok((report, orphaned, unreachable))
}

/// Inspects a device strictly: superblock, journal, allocation, inodes and namespace must each be
/// intact and agree with each other. Nothing is written.
pub fn check_device<D: BlockDevice>(device: &mut D) -> (r: Result<FsckReport, Error>)
    ensures
        block::untouched(old(device), final(device)),
        old(device).blocks().len() == 0 ==> r is Err,
        match r {
            Ok(report) => checked(old(device).blocks()) == Ok::<FsckReport, ErrorKind>(report),
            Err(e) => !old(device).healthy() || old(device).blocks().len() == 0 || checked(
                old(device).blocks(),
            ) == Err::<FsckReport, ErrorKind>(e.kind),
        },
{
    let (report, orphaned, unreachable) = inspect_device(device)?;
    if orphaned.len() != 0 {
        return Err(invalid_data("allocated block has no inode owner"));
    }
    if unreachable.len() != 0 {
        return Err(invalid_data("inode is unreachable from the root"));
    }
    Ok(report)
}

/// Inspects a device, tolerating blocks in use that no inode references, and lists them.
pub fn check_device_allowing_orphaned_allocations<D: BlockDevice>(device: &mut D) -> (r: Result<(FsckReport, Vec<u64>), Error>)
    ensures
        block::untouched(old(device), final(device)),
        old(device).blocks().len() == 0 ==> r is Err,
        match r {
            Ok((report, orphaned)) => checked_but_orphans(old(device).blocks()) == Ok::<
                (FsckReport, Seq<u64>),
                ErrorKind,
            >((report, orphaned@)),
            Err(e) => !old(device).healthy() || old(device).blocks().len() == 0
                || checked_but_orphans(old(device).blocks()) == Err::<
                (FsckReport, Seq<u64>),
                ErrorKind,
            >(e.kind),
        },
{
    let (report, orphaned, unreachable) = inspect_device(device)?;
    if unreachable.len() != 0 {
        return Err(invalid_data("inode is unreachable from the root"));
    }
    Ok((report, orphaned))
}

/// Inspects a device, tolerating inodes without a path, and lists them.
pub fn check_device_allowing_unreachable_inodes<D: BlockDevice>(device: &mut D) -> (r: Result<(FsckReport, Vec<u64>), Error>)
    ensures
        block::untouched(old(device), final(device)),
        old(device).blocks().len() == 0 ==> r is Err,
        match r {
            Ok((report, unreachable)) => checked_but_unreachable(old(device).blocks()) == Ok::<
                (FsckReport, Seq<u64>),
                ErrorKind,
            >((report, unreachable@)),
            Err(e) => !old(device).healthy() || old(device).blocks().len() == 0
                || checked_but_unreachable(old(device).blocks()) == Err::<
                (FsckReport, Seq<u64>),
                ErrorKind,
            >(e.kind),
        },
{
    let (report, orphaned, unreachable) = inspect_device(device)?;
    if orphaned.len() != 0 {
        return Err(invalid_data("allocated block has no inode owner"));
    }
    Ok((report, unreachable))
}

/// The namespace is sound and every inode has a path.
pub open spec fn strict_namespace(inodes: Seq<InodeView>, entries: Seq<crate::directory_codec::DirEntryView>) -> bool {
    namespace::sound_namespace(inodes, entries) && namespace::unreachable_ids(inodes, entries).len()
        == 0
}

/// Checks that inodes and entries form a namespace in which every inode has a path.
pub fn validate_namespace_snapshot(inodes: &[PersistedInode], entries: &[PersistedDirectoryEntry]) -> (r: Result<(), Error>)
    ensures
        match r {
            Ok(_) => strict_namespace(
                inode_table::inode_views(inodes@),
                directory_table::entry_views(entries@),
            ),
            Err(e) => !strict_namespace(
                inode_table::inode_views(inodes@),
                directory_table::entry_views(entries@),
            ) && e.kind == ErrorKind::InvalidData,
        },
{
    if !is_sound_namespace(inodes, entries) {
        return Err(invalid_data("namespace is inconsistent"));
    }
    let unreachable = list_unreachable(inodes, entries);
    if unreachable.len() != 0 {
        return Err(invalid_data("inode is unreachable from the root"));
    }
    Ok(())
}

proof fn lemma_writes_counted(entries: Seq<EntryView>)
    ensures
        write_count(entries) == recovery::count_of(entries, |e: EntryView| recovery::is_write(e)),
    decreases entries.len(),
{
    if entries.len() > 0 {
        lemma_writes_counted(entries.drop_last());
    }
}

/// A strict inspection reports the sizes of the regions, blocks in use and free blocks that add up to
/// the data blocks, and of the log how many writes and commits it holds and which transaction is open.
pub proof fn law_inspection_report(disk: Disk, sb: Superblock)
    requires
        crate::format::superblock_on(disk) == Some(sb),
    ensures
        checked(disk) matches Ok(report) ==> (journal_region::image_on(disk, sb) matches Ok(log) && (
        allocation_disk::allocator_on(disk, sb) matches Ok(a) && {
            &&& report.total_blocks == sb.total_blocks
            &&& report.reserved_blocks == sb.data_start()
            &&& report.reserved_blocks + report.data_blocks == report.total_blocks
            &&& report.allocated_blocks + report.free_blocks == report.data_blocks
            &&& report.allocated_blocks == allocation::owned_count(a.owned) as u64
            &&& report.journal_writes == recovery::count_of(
                log,
                |e: EntryView| recovery::is_write(e),
            ) as usize
            &&& report.committed_transactions == recovery::count_of(
                log,
                |e: EntryView| recovery::is_commit(e),
            ) as usize
            &&& recovery::open_after(log) == Some(report.pending_transaction)
        })),
{
    reveal(inspected);
    if checked(disk) is Ok {
        let log = journal_region::image_on(disk, sb)->Ok_0;
        lemma_writes_counted(log);
        recovery::law_plan(log);
    }
}

} // verus!
