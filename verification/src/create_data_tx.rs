//! Storing new tables together with the first contents of new blocks.

use vstd::prelude::*;
use crate::allocation::{AllocView, BlockAllocator};
use crate::allocation_disk;
use crate::block;
use crate::block::{Block, BlockDevice, Disk, BLOCK_SIZE};
use crate::bytes::same_bytes;
use crate::contents;
use crate::directory_codec::{DirEntryView, PersistedDirectoryEntry};
use crate::directory_table;
use crate::error::{Error, ErrorKind};
use crate::file_blocks::invalid_input;
use crate::file_blocks;
use crate::format::Superblock;
use crate::inode_codec::{InodeView, PersistedInode};
use crate::inode_table;
use crate::journal_region;
use crate::recovery;
use crate::recovery::{HomeWrite, RecoveryReport};
use crate::step;
use crate::step::Step;
use crate::update;
use crate::update::{store_update_and_checkpoint, Update};

verus! {

/// How often a block occurs in a mapping.
pub open spec fn occurrences(blocks: Seq<u64>, block: u64) -> nat
    decreases blocks.len(),
{
    if blocks.len() == 0 {
        0
    } else {
        occurrences(blocks.drop_last(), block) + if blocks.last() == block {
            1nat
        } else {
            0nat
        }
    }
}

/// How often the inodes reference a block.
pub open spec fn reference_count(inodes: Seq<InodeView>, block: u64) -> nat
    decreases inodes.len(),
{
    if inodes.len() == 0 {
        0
    } else {
        reference_count(inodes.drop_last(), block) + occurrences(inodes.last().blocks, block)
    }
}

/// Every initialised block is in use and referenced exactly once.
pub open spec fn initialisable(a: AllocView, inodes: Seq<InodeView>, data: Seq<HomeWrite>) -> bool {
    forall|k: int|
        0 <= k < data.len() ==> a.owns((#[trigger] data[k]).0) && reference_count(inodes, data[k].0)
            == 1
}

/// The writes that change a block.
pub open spec fn effective(disk: Disk, data: Seq<HomeWrite>) -> Seq<HomeWrite>
    decreases data.len(),
{
    if data.len() == 0 {
        Seq::empty()
    } else {
        let front = effective(disk, data.drop_last());
        if disk[data.last().0 as int] == data.last().1 {
            front
        } else {
            front.push(data.last())
        }
    }
}

/// New tables and the first contents of new blocks as one transaction.
pub open spec fn create_step(
    disk: Disk,
    sb: Superblock,
    a: AllocView,
    inodes: Seq<InodeView>,
    entries: Seq<DirEntryView>,
    data: Seq<HomeWrite>,
) -> Step<RecoveryReport> {
    if !sb.fits(disk) || !a.wf() || !initialisable(a, inodes, data)
        || !allocation_disk::matches_geometry(sb, a) {
        step::stay(disk, Err(ErrorKind::InvalidInput))
    } else {
        update::settled_update_step(
            disk,
            sb,
            Update {
                allocator: Some(a),
                inodes: Some(inodes),
                entries: Some(entries),
                data: effective(disk, data),
            },
            false,
        )
    }
}

fn count_occurrences(blocks: &[u64], block: u64) -> (n: usize)
    ensures
        n == occurrences(blocks@, block),
        n <= blocks@.len(),
{
    let mut n: usize = 0;
    let mut i: usize = 0;
    while i < blocks.len()
        invariant
            i <= blocks@.len(),
            n == occurrences(blocks@.subrange(0, i as int), block),
            n <= i,
        decreases blocks@.len() - i,
    {
        proof {
            let next = blocks@.subrange(0, i + 1);
            assert(next.drop_last() =~= blocks@.subrange(0, i as int));
        }
        if blocks[i] == block {
            n += 1;
        }
        i += 1;
    }
    assert(blocks@.subrange(0, blocks@.len() as int) =~= blocks@);
    n
}

proof fn lemma_prefix_references(inodes: Seq<InodeView>, block: u64, k: int)
    requires
        0 <= k <= inodes.len(),
    ensures
        reference_count(inodes.subrange(0, k), block) <= reference_count(inodes, block),
    decreases inodes.len(),
{
    if k == inodes.len() {
        assert(inodes.subrange(0, k) =~= inodes);
    } else {
        assert(inodes.drop_last().subrange(0, k) =~= inodes.subrange(0, k));
        lemma_prefix_references(inodes.drop_last(), block, k);
    }
}

/// Whether the inodes reference a block exactly once.
fn is_referenced_once(inodes: &[PersistedInode], block: u64) -> (b: bool)
    ensures
        b == (reference_count(inode_table::inode_views(inodes@), block) == 1),
{
    let ghost views = inode_table::inode_views(inodes@);
    let mut found = false;
    let mut i: usize = 0;
    while i < inodes.len()
        invariant
            i <= inodes@.len(),
            views == inode_table::inode_views(inodes@),
            reference_count(views.subrange(0, i as int), block) == if found {
                1nat
            } else {
                0nat
            },
        decreases inodes@.len() - i,
    {
        proof {
            let next = views.subrange(0, i + 1);
            assert(next.drop_last() =~= views.subrange(0, i as int));
            assert(next.last() == inodes@[i as int]@);
            lemma_prefix_references(views, block, i + 1);
        }
        let n: usize = count_occurrences(inodes[i].blocks.as_slice(), block);
        if n > 1 || (n == 1 && found) {
            return false;
        }
        if n == 1 {
            found = true;
        }
        i += 1;
    }
    assert(views.subrange(0, views.len() as int) =~= views);
    found
}

fn are_initialisable(allocator: &BlockAllocator, inodes: &[PersistedInode], initialized: &[(u64, Block)]) -> (b: bool)
    ensures
        b == initialisable(
            allocator@,
            inode_table::inode_views(inodes@),
            recovery::write_views(initialized@),
        ),
{
    let ghost views = recovery::write_views(initialized@);
    let ghost inode_views = inode_table::inode_views(inodes@);
    let mut k: usize = 0;
    while k < initialized.len()
        invariant
            k <= initialized@.len(),
            views == recovery::write_views(initialized@),
            inode_views == inode_table::inode_views(inodes@),
            forall|j: int|
                0 <= j < k ==> allocator@.owns((#[trigger] views[j]).0) && reference_count(
                    inode_views,
                    views[j].0,
                ) == 1,
        decreases initialized@.len() - k,
    {
        let block: u64 = initialized[k].0;
        assert(views[k as int].0 == block);
        let owned = match allocator.is_owned(block) {
            Ok(owned) => owned,
            Err(_) => false,
        };
        if !owned || !is_referenced_once(inodes, block) {
            return false;
        }
        k += 1;
    }
    true
}

/// Stores new tables and the first contents of new blocks as one transaction, and empties the
/// journal. Each of these blocks must be in use and referenced exactly once.
pub fn store_create_with_blocks_journaled<D: BlockDevice>(
    device: &mut D,
    superblock: &Superblock,
    allocator: &BlockAllocator,
    inodes: &[PersistedInode],
    entries: &[PersistedDirectoryEntry],
    initialized: &[(u64, Block)],
) -> (r: Result<RecoveryReport, Error>)
    ensures
        journal_region::carried_out(
            old(device),
            final(device),
            *superblock,
            step::kinded(r),
            create_step(
                old(device).blocks(),
                *superblock,
                allocator@,
                inode_table::inode_views(inodes@),
                directory_table::entry_views(entries@),
                recovery::write_views(initialized@),
            ),
        ),
{
    broadcast use journal_region::group_atomic;

    if !superblock.describes(device.block_count()) {
        return Err(invalid_input("create device geometry does not match superblock"));
    }
    allocator.validate()?;
    let reserved: u64 = superblock.reserved_blocks();
    if allocator.first != reserved || allocator.owned.len() as u64 != superblock.total_blocks
        - reserved {
        return Err(invalid_input("allocator does not match filesystem geometry"));
    }
    if !are_initialisable(allocator, inodes, initialized) {
        return Err(
            invalid_input("created block must be allocator-owned and have exactly one inode owner"),
        );
    }
    let data = effective_writes(device, initialized)?;
    store_update_and_checkpoint(
        device,
        superblock,
        Some(allocator),
        Some(inodes),
        Some(entries),
        data.as_slice(),
        false,
    )
}

/// Leaves out the writes to blocks that hold their contents already.
fn effective_writes<D: BlockDevice>(device: &mut D, initialized: &[(u64, Block)]) -> (r: Result<Vec<(u64, Block)>, Error>)
    requires
        forall|k: int|
            0 <= k < initialized@.len() ==> (#[trigger] recovery::write_views(initialized@)[k]).0
                < old(device).blocks().len(),
    ensures
        block::untouched(old(device), final(device)),
        old(device).healthy() ==> r is Ok,
        r matches Ok(writes) ==> recovery::write_views(writes@) == effective(
            old(device).blocks(),
            recovery::write_views(initialized@),
        ),
{
    let ghost disk = device.blocks();
    let ghost views = recovery::write_views(initialized@);
    let mut writes: Vec<(u64, Block)> = Vec::new();
    let mut k: usize = 0;
    assert(recovery::write_views(writes@) =~= Seq::<HomeWrite>::empty());
    while k < initialized.len()
        invariant
            k <= initialized@.len(),
            disk == old(device).blocks(),
            views == recovery::write_views(initialized@),
            block::untouched(old(device), device),
            forall|j: int| 0 <= j < initialized@.len() ==> (#[trigger] views[j]).0 < disk.len(),
            recovery::write_views(writes@) == effective(disk, views.subrange(0, k as int)),
        decreases initialized@.len() - k,
    {
        proof {
            let next = views.subrange(0, k + 1);
            assert(next.drop_last() =~= views.subrange(0, k as int));
            assert(next.last() == views[k as int]);
            assert(views[k as int].0 < disk.len());
        }
        let mut current: Block = [0u8; BLOCK_SIZE];
        device.read_block(initialized[k].0, &mut current)?;
        if !same_bytes(&current, &initialized[k].1) {
            let ghost list = recovery::write_views(writes@);
            writes.push(initialized[k]);
            assert(recovery::write_views(writes@) =~= list.push(views[k as int]));
        }
        k += 1;
    }
    assert(views.subrange(0, views.len() as int) =~= views);
    Ok(writes)
}

/// Stores new tables and the first contents of one new block as one transaction, and empties the
/// journal. The block must be in use and referenced exactly once.
pub fn store_create_with_data_journaled<D: BlockDevice>(
    device: &mut D,
    superblock: &Superblock,
    allocator: &BlockAllocator,
    inodes: &[PersistedInode],
    entries: &[PersistedDirectoryEntry],
    data_block: u64,
    data: &[u8; BLOCK_SIZE],
) -> (r: Result<RecoveryReport, Error>)
    ensures
        journal_region::carried_out(
            old(device),
            final(device),
            *superblock,
            step::kinded(r),
            create_step(
                old(device).blocks(),
                *superblock,
                allocator@,
                inode_table::inode_views(inodes@),
                directory_table::entry_views(entries@),
                seq![(data_block, data@)],
            ),
        ),
{
    let initialized: [(u64, Block); 1] = [(data_block, *data)];
    assert(recovery::write_views(initialized@) =~= seq![(data_block, data@)]);
    store_create_with_blocks_journaled(
        device,
        superblock,
        allocator,
        inodes,
        entries,
        &initialized,
    )
}

/// Leaving out the writes that change nothing makes no difference where no block is written twice.
pub proof fn lemma_effective(disk: Disk, blocks: Seq<u64>, images: Seq<Seq<u8>>)
    requires
        blocks.no_duplicates(),
        images.len() == blocks.len(),
        forall|i: int| 0 <= i < blocks.len() ==> (#[trigger] blocks[i]) < disk.len(),
    ensures
        recovery::applied(disk, effective(disk, file_blocks::paired(blocks, images)))
            == recovery::applied(disk, file_blocks::paired(blocks, images)),
        forall|k: int|
            0 <= k < effective(disk, file_blocks::paired(blocks, images)).len()
                ==> file_blocks::paired(blocks, images).contains(
                #[trigger] effective(disk, file_blocks::paired(blocks, images))[k],
            ),
    decreases blocks.len(),
{
    let all = file_blocks::paired(blocks, images);
    if blocks.len() > 0 {
        let n = blocks.len() - 1;
        let front = blocks.drop_last();
        let earlier = file_blocks::paired(front, images.drop_last());
        assert(all.drop_last() =~= earlier);
        assert(forall|i: int| 0 <= i < n ==> #[trigger] front[i] == blocks[i]);
        lemma_effective(disk, front, images.drop_last());
        contents::lemma_paired(disk, front, images.drop_last());
        let mid = recovery::applied(disk, earlier);
        assert forall|i: int| 0 <= i < front.len() implies #[trigger] front[i] != blocks[n] by {
            assert(blocks[i] != blocks[n]);
        }
        assert(mid[blocks[n] as int] == disk[blocks[n] as int]);
        let list = effective(disk, all);
        assert(all.last() == (blocks[n], images[n]));
        if disk[blocks[n] as int] == images[n] {
            assert(mid.update(blocks[n] as int, images[n]) =~= mid);
        } else {
            assert(list.drop_last() =~= effective(disk, earlier));
        }
        assert forall|k: int| 0 <= k < list.len() implies all.contains(#[trigger] list[k]) by {
            if k < effective(disk, earlier).len() {
                assert(list[k] == effective(disk, earlier)[k]);
                assert(earlier.contains(list[k]));
                let i = choose|i: int| 0 <= i < earlier.len() && earlier[i] == list[k];
                assert(all[i] == list[k]);
            } else {
                assert(all[n] == list[k]);
            }
        }
    }
}

/// What a creation stores: the tables that it is given, with the exact lengths written out, and the
/// first contents of the new blocks; the other data blocks are as before.
pub proof fn law_create_step(
    disk: Disk,
    sb: Superblock,
    a: AllocView,
    inodes: Seq<InodeView>,
    entries: Seq<DirEntryView>,
    blocks: Seq<u64>,
    images: Seq<Seq<u8>>,
)
    requires
        blocks.no_duplicates(),
        images.len() == blocks.len(),
        forall|k: int| 0 <= k < images.len() ==> (#[trigger] images[k]).len() == BLOCK_SIZE,
        create_step(
            disk,
            sb,
            a,
            inodes,
            entries,
            file_blocks::paired(blocks, images),
        ).result is Ok,
    ensures
        ({
            let end = create_step(
                disk,
                sb,
                a,
                inodes,
                entries,
                file_blocks::paired(blocks, images),
            ).disk;
            &&& allocation_disk::allocator_on(end, sb) == Ok::<AllocView, ErrorKind>(a)
            &&& inode_table::inodes_on(end, sb) == Ok::<Seq<InodeView>, ErrorKind>(
                inode_table::canonical_inodes(inodes),
            )
            &&& directory_table::entries_on(end, sb) == Ok::<Seq<DirEntryView>, ErrorKind>(entries)
            &&& forall|k: int|
                0 <= k < blocks.len() ==> a.owns(#[trigger] blocks[k]) && end[blocks[k] as int]
                    == images[k]
            &&& forall|i: int|
                sb.data_start() <= i < disk.len() && (forall|k: int|
                    0 <= k < blocks.len() ==> #[trigger] blocks[k] != i) ==> #[trigger] end[i]
                    == disk[i]
        }),
{
    let data = file_blocks::paired(blocks, images);
    assert forall|k: int| 0 <= k < blocks.len() implies a.owns(#[trigger] blocks[k]) by {
        assert(a.owns(data[k].0));
    }
    assert forall|k: int| 0 <= k < blocks.len() implies (#[trigger] blocks[k]) < disk.len()
        && sb.data_start() <= blocks[k] < sb.total_blocks by {
        assert(a.owns(blocks[k]));
    }
    lemma_effective(disk, blocks, images);
    let u = Update {
        allocator: Some(a),
        inodes: Some(inodes),
        entries: Some(entries),
        data: effective(disk, data),
    };
    assert forall|k: int| 0 <= k < u.data.len() implies sb.data_start() <= (#[trigger] u.data[k]).0
        < sb.total_blocks && u.data[k].1.len() == BLOCK_SIZE by {
        assert(data.contains(u.data[k]));
        let i = choose|i: int| 0 <= i < data.len() && data[i] == u.data[k];
        assert(data[i] == (blocks[i], images[i]));
    }
    update::law_settled_update(disk, sb, u, false);
    contents::lemma_paired(disk, blocks, images);
}

} // verus!
