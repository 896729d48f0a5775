//! Metadata changes as transactions: tables are laid out, compared with the device block by
//! block, and what differs is committed together with new data blocks.

use vstd::prelude::*;
use crate::allocation::{AllocView, BlockAllocator};
use crate::allocation_disk;
use crate::allocation_disk::render_allocator;
use crate::block;
use crate::block::{Block, BlockDevice, Disk, BLOCK_SIZE};
use crate::bytes::same_bytes;
use crate::directory_codec::{DirEntryView, PersistedDirectoryEntry};
use crate::directory_table;
use crate::directory_table::render_directory_table;
use crate::error::{Error, ErrorKind};
use crate::format::Superblock;
use crate::inode_codec::{InodeView, PersistedInode};
use crate::inode_table;
use crate::inode_table::render_inode_table;
use crate::journal_region;
use crate::recovery;
use crate::recovery::{HomeWrite, RecoveryReport};
use crate::region;
use crate::region::block_from;
use crate::step;
use crate::step::Step;
use crate::transaction;
use crate::transaction::{commit_blocks, commit_blocks_and_checkpoint};

verus! {

/// New contents of the metadata regions that change, and new contents of data blocks.
pub struct Update {
    pub allocator: Option<AllocView>,
    pub inodes: Option<Seq<InodeView>>,
    pub entries: Option<Seq<DirEntryView>>,
    pub data: Seq<HomeWrite>,
}

/// The blocks of a region that differ from `data`, each with its new contents.
pub open spec fn region_changes(disk: Disk, start: int, count: nat, data: Seq<u8>) -> Seq<HomeWrite>
    decreases count,
{
    if count == 0 {
        Seq::empty()
    } else {
        let front = region_changes(disk, start, (count - 1) as nat, data);
        let last = start + count - 1;
        if disk[last] == region::chunk(data, count - 1) {
            front
        } else {
            front.push((last as u64, region::chunk(data, count - 1)))
        }
    }
}

pub open spec fn allocator_changes(disk: Disk, sb: Superblock, a: Option<AllocView>) -> Option<Seq<HomeWrite>> {
    match a {
        Some(a) => if allocation_disk::matches_geometry(sb, a) {
            Some(
                region_changes(
                    disk,
                    sb.allocation_start as int,
                    sb.allocation_blocks as nat,
                    allocation_disk::allocation_region(sb, a),
                ),
            )
        } else {
            None
        },
        None => Some(Seq::empty()),
    }
}

pub open spec fn inode_changes(disk: Disk, sb: Superblock, inodes: Option<Seq<InodeView>>) -> Option<Seq<HomeWrite>> {
    match inodes {
        Some(inodes) => match inode_table::inode_region(sb, inodes) {
            Some(data) => Some(
                region_changes(disk, sb.inode_start as int, sb.inode_blocks as nat, data),
            ),
            None => None,
        },
        None => Some(Seq::empty()),
    }
}

pub open spec fn entry_changes(disk: Disk, sb: Superblock, entries: Option<Seq<DirEntryView>>) -> Option<Seq<HomeWrite>> {
    match entries {
        Some(entries) => match directory_table::directory_region(sb, entries) {
            Some(data) => Some(
                region_changes(disk, sb.directory_start as int, sb.directory_blocks as nat, data),
            ),
            None => None,
        },
        None => Some(Seq::empty()),
    }
}

/// Every block that an update changes; none where a table cannot be laid out.
pub open spec fn changes(disk: Disk, sb: Superblock, u: Update) -> Option<Seq<HomeWrite>> {
    match (
        allocator_changes(disk, sb, u.allocator),
        inode_changes(disk, sb, u.inodes),
        entry_changes(disk, sb, u.entries),
    ) {
        (Some(a), Some(i), Some(e)) => Some(a + i + e + u.data),
        _ => None,
    }
}

/// An update as one transaction that stays in the journal.
#[verifier::opaque]
pub open spec fn update_step(disk: Disk, sb: Superblock, u: Update) -> Step<RecoveryReport> {
    if !sb.fits(disk) {
        step::stay(disk, Err(ErrorKind::InvalidInput))
    } else {
        match changes(disk, sb, u) {
            Some(writes) => if writes.len() == 0 {
                step::stay(disk, Ok(recovery::no_recovery()))
            } else {
                transaction::commit_step(disk, sb, writes)
            },
            None => step::stay(disk, Err(ErrorKind::InvalidInput)),
        }
    }
}

/// An update as one transaction that is taken out of the journal once it is home. An update that
/// changes nothing is left out altogether, unless `always` asks for a transaction.
#[verifier::opaque]
pub open spec fn settled_update_step(disk: Disk, sb: Superblock, u: Update, always: bool) -> Step<RecoveryReport> {
    if !sb.fits(disk) {
        step::stay(disk, Err(ErrorKind::InvalidInput))
    } else {
        match changes(disk, sb, u) {
            Some(writes) => if writes.len() == 0 && !always {
                step::stay(disk, Ok(recovery::no_recovery()))
            } else {
                transaction::commit_settled_step(disk, sb, writes)
            },
            None => step::stay(disk, Err(ErrorKind::InvalidInput)),
        }
    }
}

pub proof fn lemma_region_changes(disk: Disk, start: int, count: nat, data: Seq<u8>)
    requires
        0 <= start,
        start + count <= disk.len() <= u64::MAX,
        data.len() == count * BLOCK_SIZE,
    ensures
        forall|k: int|
            0 <= k < region_changes(disk, start, count, data).len() ==> {
                let w = #[trigger] region_changes(disk, start, count, data)[k];
                start <= w.0 < start + count && w.1 == region::chunk(data, w.0 - start)
                    && w.1.len() == BLOCK_SIZE
            },
        forall|i: int|
            start <= i < start + count && #[trigger] disk[i] != region::chunk(data, i - start)
                ==> recovery::targets(region_changes(disk, start, count, data), i),
{
    lemma_region_changes_part(disk, start, count, count, data);
}

proof fn lemma_region_changes_part(disk: Disk, start: int, part: nat, count: nat, data: Seq<u8>)
    requires
        0 <= start,
        part <= count,
        start + count <= disk.len() <= u64::MAX,
        data.len() == count * BLOCK_SIZE,
    ensures
        forall|k: int|
            0 <= k < region_changes(disk, start, part, data).len() ==> {
                let w = #[trigger] region_changes(disk, start, part, data)[k];
                start <= w.0 < start + part && w.1 == region::chunk(data, w.0 - start)
                    && w.1.len() == BLOCK_SIZE
            },
        forall|i: int|
            start <= i < start + part && #[trigger] disk[i] != region::chunk(data, i - start)
                ==> recovery::targets(region_changes(disk, start, part, data), i),
    decreases part,
{
    if part > 0 {
        lemma_region_changes_part(disk, start, (part - 1) as nat, count, data);
        let front = region_changes(disk, start, (part - 1) as nat, data);
        let all = region_changes(disk, start, part, data);
        let last = start + part - 1;
        assert(region::chunk(data, part - 1).len() == BLOCK_SIZE);
        assert forall|i: int|
            start <= i < start + part && #[trigger] disk[i] != region::chunk(
                data,
                i - start,
            ) implies recovery::targets(all, i) by {
            if i == last {
                assert(all[all.len() - 1].0 == i);
            } else {
                assert(recovery::targets(front, i));
                let k = choose|k: int| 0 <= k < front.len() && (#[trigger] front[k]).0 == i;
                assert(all[k].0 == i);
            }
        }
    }
}

/// A region that holds what is asked for already has no block to change.
proof fn lemma_no_changes(disk: Disk, start: int, count: nat, part: nat, data: Seq<u8>)
    requires
        part <= count,
        region::region_of(disk, start, count) == data,
        forall|i: int| start <= i < start + count ==> (#[trigger] disk[i]).len() == BLOCK_SIZE,
    ensures
        region_changes(disk, start, part, data) == Seq::<HomeWrite>::empty(),
    decreases part,
{
    if part > 0 {
        lemma_no_changes(disk, start, count, (part - 1) as nat, data);
        region::lemma_region_blocks(disk, start, count, part - 1);
        assert(start + (part - 1) == start + part - 1);
    }
}

/// A directory table that is asked for again changes no block.
pub proof fn law_same_entries(disk: Disk, sb: Superblock, entries: Seq<DirEntryView>)
    requires
        directory_table::entries_on(disk, sb) == Ok::<Seq<DirEntryView>, ErrorKind>(entries),
        forall|i: int|
            sb.directory_start <= i < sb.directory_start + sb.directory_blocks ==> (
            #[trigger] disk[i]).len() == BLOCK_SIZE,
    ensures
        changes(
            disk,
            sb,
            Update { allocator: None, inodes: None, entries: Some(entries), data: Seq::empty() },
        ) == Some(Seq::<HomeWrite>::empty()),
{
    reveal(directory_table::entries_on);
    let start = sb.directory_start as int;
    let count = sb.directory_blocks as nat;
    let data = region::region_of(disk, start, count);
    region::lemma_region_first(disk, start, count);
    directory_table::law_directory_table_encoding(sb, data);
    lemma_no_changes(disk, start, count, count, data);
    let none = Seq::<HomeWrite>::empty();
    assert(none + none + none + none =~= none);
}

pub proof fn lemma_applied_concat(disk: Disk, a: Seq<HomeWrite>, b: Seq<HomeWrite>)
    ensures
        recovery::applied(disk, a + b) == recovery::applied(recovery::applied(disk, a), b),
    decreases b.len(),
{
    if b.len() == 0 {
        assert(a + b =~= a);
    } else {
        assert((a + b).drop_last() =~= a + b.drop_last());
        lemma_applied_concat(disk, a, b.drop_last());
    }
}

/// Writing the changed blocks of a region makes it hold its new contents and leaves the rest.
pub proof fn lemma_region_applied(disk: Disk, base: Disk, start: int, count: nat, data: Seq<u8>)
    requires
        0 <= start,
        start + count <= disk.len() <= u64::MAX,
        base.len() == disk.len(),
        data.len() == count * BLOCK_SIZE,
        forall|i: int| start <= i < start + count ==> #[trigger] base[i] == disk[i],
    ensures
        ({
            let end = recovery::applied(base, region_changes(disk, start, count, data));
            &&& end.len() == disk.len()
            &&& region::region_of(end, start, count) == data
            &&& forall|i: int|
                0 <= i < disk.len() && !(start <= i < start + count) ==> #[trigger] end[i]
                    == base[i]
        }),
{
    let writes = region_changes(disk, start, count, data);
    let end = recovery::applied(base, writes);
    lemma_region_changes(disk, start, count, data);
    recovery::lemma_applied(base, writes);
    assert forall|i: int| 0 <= i < disk.len() && !(start <= i < start + count) implies #[trigger] end[i]
        == base[i] by {
        if recovery::targets(writes, i) {
            let k = choose|k: int| 0 <= k < writes.len() && (#[trigger] writes[k]).0 == i;
            assert(start <= writes[k].0 < start + count);
        }
    }
    assert forall|k: int| 0 <= k < count implies end[start + k] == #[trigger] region::chunk(
        data,
        k,
    ) by {
        let i = start + k;
        assert(base[i] == disk[i]);
        if recovery::targets(writes, i) {
            let j = choose|j: int|
                0 <= j < writes.len() && (#[trigger] writes[j]).0 == i && writes[j].1 == end[i];
            assert(writes[j].1 == region::chunk(data, writes[j].0 - start));
        } else {
            assert(end[i] == base[i]);
            if disk[i] != region::chunk(data, i - start) {
                assert(recovery::targets(writes, i));
            }
        }
    }
    region::lemma_region_chunks(end, start, data, count);
    assert(data.subrange(0, data.len() as int) =~= data);
}

/// Collects the blocks of a region that differ from `data`.
fn collect_changed<D: BlockDevice>(device: &mut D, start: u64, count: u64, data: &[u8], changed: &mut Vec<(u64, Block)>) -> (r: Result<(), Error>)
    requires
        start + count <= old(device).blocks().len(),
        start + count <= u64::MAX,
        data@.len() == count * BLOCK_SIZE,
    ensures
        block::untouched(old(device), final(device)),
        old(device).healthy() ==> r is Ok,
        r is Ok ==> recovery::write_views(final(changed)@) == recovery::write_views(old(changed)@)
            + region_changes(old(device).blocks(), start as int, count as nat, data@),
{
    let ghost disk = device.blocks();
    let ghost before = recovery::write_views(changed@);
    let mut k: u64 = 0;
    assert(before + Seq::<HomeWrite>::empty() =~= before);
    assert(data.len() == data@.len());
    while k < count
        invariant
            start + count <= disk.len(),
            start + count <= u64::MAX,
            disk == old(device).blocks(),
            before == recovery::write_views(old(changed)@),
            data@.len() == count * BLOCK_SIZE <= usize::MAX,
            k <= count,
            block::untouched(old(device), device),
            recovery::write_views(changed@) == before + region_changes(
                disk,
                start as int,
                k as nat,
                data@,
            ),
        decreases count - k,
    {
        let mut current: Block = [0u8; BLOCK_SIZE];
        let at: usize = k as usize * BLOCK_SIZE;
        device.read_block(start + k, &mut current)?;
        let next: Block = block_from(data, at);
        assert(next@ == region::chunk(data@, k as int));
        if !same_bytes(&current, &next) {
            let ghost list = recovery::write_views(changed@);
            changed.push((start + k, next));
            assert(recovery::write_views(changed@) =~= list.push(((start + k) as u64, next@)));
            assert(list.push(((start + k) as u64, next@)) =~= before + region_changes(
                disk,
                start as int,
                (k + 1) as nat,
                data@,
            ));
        }
        k += 1;
    }
    Ok(())
}

/// The tables of an update and its data blocks.
pub open spec fn update_of(
    allocator: Option<&BlockAllocator>,
    inodes: Option<&[PersistedInode]>,
    entries: Option<&[PersistedDirectoryEntry]>,
    data: Seq<(u64, Block)>,
) -> Update {
    Update {
        allocator: match allocator {
            Some(a) => Some(a@),
            None => None,
        },
        inodes: match inodes {
            Some(list) => Some(inode_table::inode_views(list@)),
            None => None,
        },
        entries: match entries {
            Some(list) => Some(directory_table::entry_views(list@)),
            None => None,
        },
        data: recovery::write_views(data),
    }
}

/// Collects every block that an update changes.
pub fn collect_changes<D: BlockDevice>(
    device: &mut D,
    superblock: &Superblock,
    allocator: Option<&BlockAllocator>,
    inodes: Option<&[PersistedInode]>,
    entries: Option<&[PersistedDirectoryEntry]>,
    data: &[(u64, Block)],
) -> (r: Result<Vec<(u64, Block)>, Error>)
    ensures
        block::untouched(old(device), final(device)),
        match r {
            Ok(changed) => {
                &&& superblock.fits(old(device).blocks())
                &&& changes(
                    old(device).blocks(),
                    *superblock,
                    update_of(allocator, inodes, entries, data@),
                ) == Some(recovery::write_views(changed@))
            },
            Err(e) => !old(device).healthy() || (e.kind == ErrorKind::InvalidInput && (
            !superblock.fits(old(device).blocks()) || changes(
                old(device).blocks(),
                *superblock,
                update_of(allocator, inodes, entries, data@),
            ) is None)),
        },
{
    let ghost disk = device.blocks();
    let ghost u = update_of(allocator, inodes, entries, data@);
    if !superblock.describes(device.block_count()) {
        return Err(
            Error::new(ErrorKind::InvalidInput, "superblock does not describe the device"),
        );
    }
    let allocation: Option<Vec<u8>> = match allocator {
        Some(a) => Some(render_allocator(superblock, a)?),
        None => None,
    };
    let inode: Option<Vec<u8>> = match inodes {
        Some(list) => Some(render_inode_table(superblock, list)?),
        None => None,
    };
    let directory: Option<Vec<u8>> = match entries {
        Some(list) => Some(render_directory_table(superblock, list)?),
        None => None,
    };
    let mut changed: Vec<(u64, Block)> = Vec::new();
    let ghost none = Seq::<HomeWrite>::empty();
    assert(recovery::write_views(changed@) =~= none);
    if let Some(bytes) = &allocation {
        proof {
            allocation_disk::law_allocation_round_trip(*superblock, u.allocator->Some_0);
        }
        collect_changed(
            device,
            superblock.allocation_start,
            superblock.allocation_blocks,
            bytes.as_slice(),
            &mut changed,
        )?;
    }
    let ghost a = allocator_changes(disk, *superblock, u.allocator)->Some_0;
    assert(recovery::write_views(changed@) =~= a);
    if let Some(bytes) = &inode {
        proof {
            inode_table::law_inode_table_round_trip(*superblock, u.inodes->Some_0);
        }
        collect_changed(
            device,
            superblock.inode_start,
            superblock.inode_blocks,
            bytes.as_slice(),
            &mut changed,
        )?;
    }
    let ghost i = inode_changes(disk, *superblock, u.inodes)->Some_0;
    assert(recovery::write_views(changed@) =~= a + i);
    if let Some(bytes) = &directory {
        proof {
            directory_table::law_directory_table_round_trip(*superblock, u.entries->Some_0);
        }
        collect_changed(
            device,
            superblock.directory_start,
            superblock.directory_blocks,
            bytes.as_slice(),
            &mut changed,
        )?;
    }
    let ghost e = entry_changes(disk, *superblock, u.entries)->Some_0;
    assert(recovery::write_views(changed@) =~= a + i + e);
    let mut k: usize = 0;
    assert(u.data.subrange(0, 0) =~= none);
    while k < data.len()
        invariant
            k <= data@.len(),
            u.data == recovery::write_views(data@),
            recovery::write_views(changed@) == a + i + e + u.data.subrange(0, k as int),
            block::untouched(old(device), device),
        decreases data@.len() - k,
    {
        let ghost before = recovery::write_views(changed@);
        changed.push(data[k]);
        assert(recovery::write_views(changed@) =~= before.push(u.data[k as int]));
        assert(before.push(u.data[k as int]) =~= a + i + e + u.data.subrange(0, k + 1));
        k += 1;
    }
    assert(u.data.subrange(0, u.data.len() as int) =~= u.data);
    Ok(changed)
}

/// Carries an update out as one transaction that stays in the journal.
pub fn store_update<D: BlockDevice>(
    device: &mut D,
    superblock: &Superblock,
    allocator: Option<&BlockAllocator>,
    inodes: Option<&[PersistedInode]>,
    entries: Option<&[PersistedDirectoryEntry]>,
    data: &[(u64, Block)],
) -> (r: Result<RecoveryReport, Error>)
    ensures
        journal_region::carried_out(
            old(device),
            final(device),
            *superblock,
            step::kinded(r),
            update_step(
                old(device).blocks(),
                *superblock,
                update_of(allocator, inodes, entries, data@),
            ),
        ),
{
    broadcast use journal_region::group_atomic;

    proof {
        reveal(update_step);
    }
    let changed = collect_changes(device, superblock, allocator, inodes, entries, data)?;
    if changed.is_empty() {
        return Ok(RecoveryReport::default());
    }
    commit_blocks(device, *superblock, changed.as_slice())
}

/// Carries an update out as one transaction and empties the journal.
pub fn store_update_and_checkpoint<D: BlockDevice>(
    device: &mut D,
    superblock: &Superblock,
    allocator: Option<&BlockAllocator>,
    inodes: Option<&[PersistedInode]>,
    entries: Option<&[PersistedDirectoryEntry]>,
    data: &[(u64, Block)],
    always: bool,
) -> (r: Result<RecoveryReport, Error>)
    ensures
        journal_region::carried_out(
            old(device),
            final(device),
            *superblock,
            step::kinded(r),
            settled_update_step(
                old(device).blocks(),
                *superblock,
                update_of(allocator, inodes, entries, data@),
                always,
            ),
        ),
{
    broadcast use journal_region::group_atomic;

    proof {
        reveal(settled_update_step);
    }
    let changed = collect_changes(device, superblock, allocator, inodes, entries, data)?;
    if changed.is_empty() && !always {
        return Ok(RecoveryReport::default());
    }
    commit_blocks_and_checkpoint(device, *superblock, changed.as_slice())
}

/// Every data write of an update goes to a data block and fills it.
pub open spec fn data_only(sb: Superblock, data: Seq<HomeWrite>) -> bool {
    forall|k: int|
        0 <= k < data.len() ==> sb.data_start() <= (#[trigger] data[k]).0 < sb.total_blocks
            && data[k].1.len() == BLOCK_SIZE
}

/// The tables of `end` are those of the update where it gives any, and those of `disk` elsewhere;
/// the data blocks are those of `disk` after the update's data writes.
pub open spec fn updated(disk: Disk, end: Disk, sb: Superblock, u: Update) -> bool {
    &&& end.len() == disk.len()
    &&& allocation_disk::allocator_on(end, sb) == match u.allocator {
        Some(a) => Ok(a),
        None => allocation_disk::allocator_on(disk, sb),
    }
    &&& inode_table::inodes_on(end, sb) == match u.inodes {
        Some(inodes) => Ok(inode_table::canonical_inodes(inodes)),
        None => inode_table::inodes_on(disk, sb),
    }
    &&& directory_table::entries_on(end, sb) == match u.entries {
        Some(entries) => Ok(entries),
        None => directory_table::entries_on(disk, sb),
    }
    &&& forall|i: int|
        sb.data_start() <= i < disk.len() ==> #[trigger] end[i] == recovery::applied(
            disk,
            u.data,
        )[i]
    &&& end[0] == disk[0]
}

/// `a` and `b` hold the same outside the journal.
pub open spec fn beside_journal(a: Disk, b: Disk, sb: Superblock) -> bool {
    a.len() == b.len() && forall|i: int|
        0 <= i < a.len() && !(sb.journal_start <= i < sb.journal_start + sb.journal_blocks)
            ==> #[trigger] a[i] == b[i]
}

proof fn lemma_data_beside(disk: Disk, base: Disk, sb: Superblock, data: Seq<HomeWrite>)
    requires
        sb.fits(disk),
        base.len() == disk.len(),
        data_only(sb, data),
        forall|i: int| sb.data_start() <= i < disk.len() ==> #[trigger] base[i] == disk[i],
    ensures
        recovery::applied(base, data).len() == disk.len(),
        forall|i: int|
            sb.data_start() <= i < disk.len() ==> #[trigger] recovery::applied(base, data)[i]
                == recovery::applied(disk, data)[i],
        forall|i: int|
            0 <= i < sb.data_start() ==> #[trigger] recovery::applied(base, data)[i] == base[i],
    decreases data.len(),
{
    if data.len() > 0 {
        assert(forall|k: int|
            0 <= k < data.len() - 1 ==> #[trigger] data.drop_last()[k] == data[k]);
        assert(data.last() == data[data.len() - 1]);
        lemma_data_beside(disk, base, sb, data.drop_last());
        lemma_data_beside(disk, disk, sb, data.drop_last());
    }
}

/// The writes of an update make a disk hold what the update asks for.
pub proof fn lemma_changes_effect(disk: Disk, sb: Superblock, u: Update)
    requires
        sb.fits(disk),
        changes(disk, sb, u) is Some,
        data_only(sb, u.data),
    ensures
        updated(disk, recovery::applied(disk, changes(disk, sb, u)->Some_0), sb, u),
{
    reveal(allocation_disk::allocator_on);
    reveal(inode_table::inodes_on);
    reveal(directory_table::entries_on);
    let a = allocator_changes(disk, sb, u.allocator)->Some_0;
    let i = inode_changes(disk, sb, u.inodes)->Some_0;
    let e = entry_changes(disk, sb, u.entries)->Some_0;
    let d1 = recovery::applied(disk, a);
    let d2 = recovery::applied(d1, i);
    let d3 = recovery::applied(d2, e);
    let d4 = recovery::applied(d3, u.data);
    lemma_applied_concat(disk, a + i + e, u.data);
    lemma_applied_concat(disk, a + i, e);
    lemma_applied_concat(disk, a, i);
    let (as_, ac) = (sb.allocation_start as int, sb.allocation_blocks as nat);
    let (is_, ic) = (sb.inode_start as int, sb.inode_blocks as nat);
    let (es_, ec) = (sb.directory_start as int, sb.directory_blocks as nat);
    match u.allocator {
        Some(x) => {
            allocation_disk::law_allocation_round_trip(sb, x);
            lemma_region_applied(disk, disk, as_, ac, allocation_disk::allocation_region(sb, x));
        },
        None => {},
    }
    match u.inodes {
        Some(x) => {
            inode_table::law_inode_table_round_trip(sb, x);
            lemma_region_applied(disk, d1, is_, ic, inode_table::inode_region(sb, x)->Some_0);
        },
        None => {},
    }
    match u.entries {
        Some(x) => {
            directory_table::law_directory_table_round_trip(sb, x);
            lemma_region_applied(
                disk,
                d2,
                es_,
                ec,
                directory_table::directory_region(sb, x)->Some_0,
            );
        },
        None => {},
    }
    lemma_data_beside(disk, d3, sb, u.data);
    region::lemma_region_agree(d4, d1, as_, ac);
    region::lemma_region_agree(d4, d2, is_, ic);
    region::lemma_region_agree(d4, d3, es_, ec);
    if u.inodes is None {
        region::lemma_region_agree(d2, disk, is_, ic);
    }
    if u.entries is None {
        region::lemma_region_agree(d3, disk, es_, ec);
    }
}

/// What an update did does not depend on the journal.
pub proof fn lemma_updated_beside(disk: Disk, a: Disk, b: Disk, sb: Superblock, u: Update)
    requires
        sb.fits(disk),
        updated(disk, a, sb, u),
        beside_journal(a, b, sb),
    ensures
        updated(disk, b, sb, u),
{
    reveal(allocation_disk::allocator_on);
    reveal(inode_table::inodes_on);
    reveal(directory_table::entries_on);
    region::lemma_region_agree(a, b, sb.allocation_start as int, sb.allocation_blocks as nat);
    region::lemma_region_agree(a, b, sb.inode_start as int, sb.inode_blocks as nat);
    region::lemma_region_agree(a, b, sb.directory_start as int, sb.directory_blocks as nat);
    assert(a[0] == b[0]);
    assert forall|i: int| sb.data_start() <= i < disk.len() implies #[trigger] b[i]
        == recovery::applied(disk, u.data)[i] by {
        assert(a[i] == b[i]);
    }
}

/// The writes of an update fill their blocks and go where a log may write.
pub proof fn lemma_changes_whole(disk: Disk, sb: Superblock, u: Update)
    requires
        sb.fits(disk),
        changes(disk, sb, u) is Some,
        data_only(sb, u.data),
    ensures
        forall|k: int|
            0 <= k < changes(disk, sb, u)->Some_0.len() ==> (#[trigger] changes(
                disk,
                sb,
                u,
            )->Some_0[k]).1.len() == BLOCK_SIZE && journal_region::is_home(
                sb,
                changes(disk, sb, u)->Some_0[k].0,
            ),
{
    let a = allocator_changes(disk, sb, u.allocator)->Some_0;
    let i = inode_changes(disk, sb, u.inodes)->Some_0;
    let e = entry_changes(disk, sb, u.entries)->Some_0;
    match u.allocator {
        Some(x) => {
            allocation_disk::law_allocation_round_trip(sb, x);
            lemma_region_changes(
                disk,
                sb.allocation_start as int,
                sb.allocation_blocks as nat,
                allocation_disk::allocation_region(sb, x),
            );
        },
        None => {},
    }
    match u.inodes {
        Some(x) => {
            inode_table::law_inode_table_round_trip(sb, x);
            lemma_region_changes(
                disk,
                sb.inode_start as int,
                sb.inode_blocks as nat,
                inode_table::inode_region(sb, x)->Some_0,
            );
        },
        None => {},
    }
    match u.entries {
        Some(x) => {
            directory_table::law_directory_table_round_trip(sb, x);
            lemma_region_changes(
                disk,
                sb.directory_start as int,
                sb.directory_blocks as nat,
                directory_table::directory_region(sb, x)->Some_0,
            );
        },
        None => {},
    }
    let all = changes(disk, sb, u)->Some_0;
    assert forall|k: int| 0 <= k < all.len() implies (#[trigger] all[k]).1.len() == BLOCK_SIZE
        && journal_region::is_home(sb, all[k].0) by {
        if k < a.len() {
            assert(all[k] == a[k]);
        } else if k < a.len() + i.len() {
            assert(all[k] == i[k - a.len()]);
        } else if k < a.len() + i.len() + e.len() {
            assert(all[k] == e[k - a.len() - i.len()]);
        } else {
            assert(all[k] == u.data[k - a.len() - i.len() - e.len()]);
        }
    }
}

/// An update that succeeds leaves the tables and data that it asks for, and everything else as it
/// was.
pub proof fn law_update(disk: Disk, sb: Superblock, u: Update)
    requires
        update_step(disk, sb, u).result is Ok,
        data_only(sb, u.data),
    ensures
        updated(disk, update_step(disk, sb, u).disk, sb, u),
{
    reveal(update_step);
    let writes = changes(disk, sb, u)->Some_0;
    lemma_changes_effect(disk, sb, u);
    if writes.len() > 0 {
        lemma_changes_whole(disk, sb, u);
        transaction::law_commit(disk, sb, writes);
        lemma_updated_beside(
            disk,
            recovery::applied(disk, writes),
            update_step(disk, sb, u).disk,
            sb,
            u,
        );
    }
}

/// The same for an update that is taken out of the journal; the journal is then empty, or is left
/// alone where nothing changes.
pub proof fn law_settled_update(disk: Disk, sb: Superblock, u: Update, always: bool)
    requires
        settled_update_step(disk, sb, u, always).result is Ok,
        data_only(sb, u.data),
    ensures
        updated(disk, settled_update_step(disk, sb, u, always).disk, sb, u),
        journal_region::log_on(settled_update_step(disk, sb, u, always).disk, sb) == Some(
            Seq::<crate::journal::EntryView>::empty(),
        ) || settled_update_step(disk, sb, u, always).disk == disk,
{
    reveal(settled_update_step);
    let writes = changes(disk, sb, u)->Some_0;
    lemma_changes_effect(disk, sb, u);
    if writes.len() > 0 || always {
        lemma_changes_whole(disk, sb, u);
        transaction::law_commit_settled(disk, sb, writes);
        lemma_updated_beside(
            disk,
            recovery::applied(disk, writes),
            settled_update_step(disk, sb, u, always).disk,
            sb,
            u,
        );
    }
}

/// An update that is refused leaves everything outside the journal as it was, and what the file
/// system holds.
pub proof fn law_refused_update(disk: Disk, sb: Superblock, u: Update, always: bool)
    requires
        settled_update_step(disk, sb, u, always).result is Err,
    ensures
        beside_journal(disk, settled_update_step(disk, sb, u, always).disk, sb),
        journal_region::home_of(settled_update_step(disk, sb, u, always).disk, sb)
            == journal_region::home_of(disk, sb),
{
    reveal(settled_update_step);
    reveal(transaction::commit_settled_step);
    let end = settled_update_step(disk, sb, u, always).disk;
    if end != disk {
        journal_region::lemma_same_home(end, disk, sb);
    }
}

/// While a log stands in the journal an update that changes something is told to wait, and nothing
/// is written.
pub proof fn law_update_waits(disk: Disk, sb: Superblock, u: Update, always: bool)
    requires
        sb.fits(disk),
        data_only(sb, u.data),
        changes(disk, sb, u) matches Some(writes) && (writes.len() > 0 || always),
        journal_region::log_on(disk, sb) matches Some(log) && log.len() > 0,
    ensures
        settled_update_step(disk, sb, u, always) == step::stay::<RecoveryReport>(
            disk,
            Err(ErrorKind::WouldBlock),
        ),
{
    reveal(settled_update_step);
    reveal(transaction::commit_settled_step);
    let writes = changes(disk, sb, u)->Some_0;
    lemma_changes_whole(disk, sb, u);
    transaction::lemma_transaction_log(sb, writes);
}

} // verus!
