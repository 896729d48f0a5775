//! Writing a fresh file system.

use vstd::prelude::*;
use crate::allocation::{AllocView, BlockAllocator};
use crate::allocation_disk;
use crate::allocation_disk::render_allocator;
use crate::block;
use crate::block::{Block, BlockDevice, Disk, BLOCK_SIZE};
use crate::directory_codec::{DirEntryView, PersistedDirectoryEntry};
use crate::directory_table;
use crate::directory_table::render_directory_table;
use crate::error::{Error, ErrorKind};
use crate::format::{Superblock, DEFAULT_DIRECTORY_BLOCKS, DEFAULT_INODE_BLOCKS, DEFAULT_JOURNAL_BLOCKS, SUPERBLOCK_BLOCK};
use crate::inode::InodeKind;
use crate::inode_codec;
use crate::inode_codec::{InodeView, PersistedInode};
use crate::inode_table;
use crate::inode_table::render_inode_table;
use crate::journal_region;
use crate::path_lookup::ROOT_INODE_ID;
use crate::records;
use crate::region;
use crate::region::block_from;
use crate::soundness;
use crate::step;
use crate::step::Step;

verus! {

/// The allocation state of a fresh file system: every data block is free.
pub open spec fn fresh_allocator(sb: Superblock) -> AllocView {
    AllocView {
        first: sb.data_start() as u64,
        owned: Seq::new((sb.total_blocks - sb.data_start()) as nat, |i: int| false),
    }
}

/// The inodes of a fresh file system: the root directory alone.
pub open spec fn fresh_inodes() -> Seq<InodeView> {
    seq![InodeView { id: ROOT_INODE_ID, kind: InodeKind::Directory, blocks: Seq::empty(), byte_len: 0 }]
}

/// A device after it was formatted. The journal blocks and the data blocks stay as they are.
pub open spec fn formatted(disk: Disk, sb: Superblock) -> Disk {
    let d1 = journal_region::with_region(
        disk,
        sb.allocation_start as int,
        sb.allocation_blocks as int,
        allocation_disk::allocation_region(sb, fresh_allocator(sb)),
    );
    let d2 = journal_region::with_region(
        d1,
        sb.inode_start as int,
        sb.inode_blocks as int,
        inode_table::inode_region(sb, fresh_inodes())->Some_0,
    );
    let d3 = journal_region::with_region(
        d2,
        sb.directory_start as int,
        sb.directory_blocks as int,
        directory_table::directory_region(sb, Seq::empty())->Some_0,
    );
    d3.update(SUPERBLOCK_BLOCK as int, crate::format::superblock_bytes(sb))
}

/// Formatting with these numbers of blocks.
#[verifier::opaque]
pub open spec fn format_step(disk: Disk, journal: int, inode: int, directory: int) -> Step<Superblock> {
    if crate::format::sound(disk.len() as int, journal, inode, directory) {
        let sb = crate::format::layout(disk.len() as int, journal, inode, directory);
        Step { disk: formatted(disk, sb), result: Ok(sb) }
    } else {
        step::stay(disk, Err(ErrorKind::InvalidInput))
    }
}

/// Whenever power is lost while a device is formatted, block zero is still what it was, or the
/// whole file system is in place.
pub open spec fn published_last<D: BlockDevice>(before: &D, after: &D, end: Disk) -> bool {
    block::settled(before) ==> forall|image: Disk| #[trigger]
        after.durable().contains(image) ==> image[SUPERBLOCK_BLOCK as int]
            == before.blocks()[SUPERBLOCK_BLOCK as int] || image == end
}

/// Whatever the medium may hold now, it may have held the same block zero before.
spec fn same_front(before: Set<Disk>, after: Set<Disk>) -> bool {
    forall|image: Disk| #[trigger]
        after.contains(image) ==> exists|base: Disk| #[trigger]
            before.contains(base) && base[SUPERBLOCK_BLOCK as int]
                == image[SUPERBLOCK_BLOCK as int]
}

proof fn lemma_fresh_tables(sb: Superblock)
    requires
        sb.valid(),
    ensures
        allocation_disk::matches_geometry(sb, fresh_allocator(sb)),
        inode_table::inode_region(sb, fresh_inodes()) is Some,
        inode_table::canonical_inodes(fresh_inodes()) == fresh_inodes(),
        directory_table::directory_region(sb, Seq::empty()) is Some,
{
    let root = fresh_inodes()[0];
    assert(inode_codec::exact(root));
    inode_table::lemma_canonical_exact(root);
    inode_codec::law_inode_round_trip(root);
    let record = inode_codec::encoded(root)->Some_0;
    assert(fresh_inodes().drop_last() =~= Seq::<InodeView>::empty());
    let list = inode_table::inode_records(fresh_inodes())->Some_0;
    assert(inode_table::inode_records(Seq::<InodeView>::empty()) == Some(Seq::<Seq<u8>>::empty()));
    assert(list =~= seq![record]);
    assert(list.drop_last() =~= Seq::<Seq<u8>>::empty());
    assert(records::joined(Seq::<Seq<u8>>::empty()) =~= Seq::<u8>::empty());
    assert(records::joined(list) =~= record);
    assert(inode_table::canonical_inodes(fresh_inodes()) =~= fresh_inodes());
    assert(directory_table::entry_records(Seq::<DirEntryView>::empty()) == Some(
        Seq::<Seq<u8>>::empty(),
    ));
}

/// A formatted device holds its superblock, a root directory and nothing else.
pub proof fn law_formatted(disk: Disk, sb: Superblock)
    requires
        sb.fits(disk),
    ensures
        formatted(disk, sb).len() == disk.len(),
        crate::format::superblock_on(formatted(disk, sb)) == Some(sb),
        allocation_disk::allocator_on(formatted(disk, sb), sb) == Ok::<AllocView, ErrorKind>(
            fresh_allocator(sb),
        ),
        inode_table::inodes_on(formatted(disk, sb), sb) == Ok::<Seq<InodeView>, ErrorKind>(
            fresh_inodes(),
        ),
        directory_table::entries_on(formatted(disk, sb), sb) == Ok::<
            Seq<DirEntryView>,
            ErrorKind,
        >(Seq::empty()),
        journal_region::log_on(formatted(disk, sb), sb) == journal_region::log_on(disk, sb),
{
    reveal(allocation_disk::allocator_on);
    reveal(inode_table::inodes_on);
    reveal(directory_table::entries_on);
    let end = formatted(disk, sb);
    lemma_fresh_tables(sb);
    allocation_disk::law_allocation_round_trip(sb, fresh_allocator(sb));
    inode_table::law_inode_table_round_trip(sb, fresh_inodes());
    directory_table::law_directory_table_round_trip(sb, Seq::empty());
    crate::format::law_superblock_round_trip(sb);
    lemma_region_in(
        end,
        sb.allocation_start as int,
        sb.allocation_blocks as nat,
        allocation_disk::allocation_region(sb, fresh_allocator(sb)),
    );
    lemma_region_in(
        end,
        sb.inode_start as int,
        sb.inode_blocks as nat,
        inode_table::inode_region(sb, fresh_inodes())->Some_0,
    );
    lemma_region_in(
        end,
        sb.directory_start as int,
        sb.directory_blocks as nat,
        directory_table::directory_region(sb, Seq::empty())->Some_0,
    );
    journal_region::lemma_log_agree(end, disk, sb);
}

proof fn lemma_region_in(disk: Disk, start: int, count: nat, data: Seq<u8>)
    requires
        data.len() == count * BLOCK_SIZE,
        forall|i: int|
            start <= i < start + count ==> #[trigger] disk[i] == region::chunk(data, i - start),
    ensures
        region::region_of(disk, start, count) == data,
{
    assert forall|k: int| 0 <= k < count implies disk[start + k] == #[trigger] region::chunk(
        data,
        k,
    ) by {
        assert(disk[start + k] == region::chunk(data, start + k - start));
    }
    region::lemma_region_chunks(disk, start, data, count);
    assert(data.subrange(0, data.len() as int) =~= data);
}

/// Writes the bytes of a region block by block.
fn write_region<D: BlockDevice>(device: &mut D, start: u64, count: u64, data: &[u8]) -> (r: Result<(), Error>)
    requires
        start > SUPERBLOCK_BLOCK,
        start + count <= old(device).blocks().len(),
        start + count <= u64::MAX,
        data@.len() == count * BLOCK_SIZE,
    ensures
        same_front(old(device).durable(), final(device).durable()),
        final(device).blocks()[SUPERBLOCK_BLOCK as int]
            == old(device).blocks()[SUPERBLOCK_BLOCK as int],
        old(device).healthy() ==> final(device).healthy() && r is Ok,
        final(device).blocks().len() == old(device).blocks().len(),
        r is Ok ==> final(device).blocks() == journal_region::with_region(
            old(device).blocks(),
            start as int,
            count as int,
            data@,
        ),
{
    let ghost base = device.blocks();
    let mut k: u64 = 0;
    assert(data.len() == data@.len());
    assert(journal_region::with_region(base, start as int, 0, data@) =~= base);
    while k < count
        invariant
            base == old(device).blocks(),
            start > SUPERBLOCK_BLOCK,
            same_front(old(device).durable(), device.durable()),
            start + count <= base.len(),
            start + count <= u64::MAX,
            data@.len() == count * BLOCK_SIZE <= usize::MAX,
            k <= count,
            old(device).healthy() ==> device.healthy(),
            device.blocks() == journal_region::with_region(base, start as int, k as int, data@),
            device.blocks().len() == base.len(),
        decreases count - k,
    {
        let at: usize = k as usize * BLOCK_SIZE;
        let image: Block = block_from(data, at);
        assert(image@ == region::chunk(data@, k as int));
        device.write_block(start + k, &image)?;
        k += 1;
        assert(device.blocks() =~= journal_region::with_region(
            base,
            start as int,
            k as int,
            data@,
        ));
    }
    Ok(())
}

fn free_allocator(superblock: &Superblock) -> (a: BlockAllocator)
    requires
        superblock.valid(),
    ensures
        a@ == fresh_allocator(*superblock),
{
    let reserved: u64 = superblock.reserved_blocks();
    let count: usize = (superblock.total_blocks - reserved) as usize;
    let owned: Vec<bool> = vec![false; count];
    let a = BlockAllocator { first: reserved, owned };
    assert(a@.owned =~= fresh_allocator(*superblock).owned);
    a
}

/// Writes a fresh file system with its own journal, inode-table and directory-table lengths. The
/// metadata regions are durable before the superblock is written; a geometry that does not fit
/// writes nothing.
pub fn format_device_with_metadata_blocks<D: BlockDevice>(
    device: &mut D,
    journal_blocks: u64,
    inode_blocks: u64,
    directory_blocks: u64,
) -> (r: Result<Superblock, Error>)
    ensures
        step::follows(
            old(device),
            final(device),
            step::kinded(r),
            format_step(
                old(device).blocks(),
                journal_blocks as int,
                inode_blocks as int,
                directory_blocks as int,
            ),
        ),
        published_last(
            old(device),
            final(device),
            format_step(
                old(device).blocks(),
                journal_blocks as int,
                inode_blocks as int,
                directory_blocks as int,
            ).disk,
        ),
        step::turned_away(
            old(device),
            final(device),
            step::kinded(r),
            !crate::format::sound(
                old(device).blocks().len() as int,
                journal_blocks as int,
                inode_blocks as int,
                directory_blocks as int,
            ),
        ),
        r is Ok ==> block::settled(final(device)),
        r matches Ok(sb) ==> sb.fits(final(device).blocks()),
{
    proof {
        reveal(format_step);
    }
    let superblock = Superblock::with_all_metadata_blocks(
        device.block_count(),
        journal_blocks,
        inode_blocks,
        directory_blocks,
    )?;
    proof {
        lemma_fresh_tables(superblock);
        allocation_disk::law_allocation_round_trip(superblock, fresh_allocator(superblock));
        inode_table::law_inode_table_round_trip(superblock, fresh_inodes());
        directory_table::law_directory_table_round_trip(superblock, Seq::empty());
    }
    let allocator = free_allocator(&superblock);
    let allocation = render_allocator(&superblock, &allocator)?;
    let none: Vec<u64> = Vec::new();
    let root = PersistedInode {
        id: ROOT_INODE_ID,
        kind: InodeKind::Directory,
        blocks: none,
        byte_len: 0,
    };
    let inodes: [PersistedInode; 1] = [root];
    assert(inodes@[0]@.blocks =~= Seq::<u64>::empty());
    assert(inode_table::inode_views(inodes@) =~= fresh_inodes());
    let inode = render_inode_table(&superblock, &inodes)?;
    let entries: Vec<PersistedDirectoryEntry> = Vec::new();
    assert(directory_table::entry_views(entries@) =~= Seq::<DirEntryView>::empty());
    let directory = render_directory_table(&superblock, entries.as_slice())?;
    write_region(
        device,
        superblock.allocation_start,
        superblock.allocation_blocks,
        allocation.as_slice(),
    )?;
    write_region(device, superblock.inode_start, superblock.inode_blocks, inode.as_slice())?;
    write_region(
        device,
        superblock.directory_start,
        superblock.directory_blocks,
        directory.as_slice(),
    )?;
    device.flush()?;
    device.write_block(SUPERBLOCK_BLOCK, &superblock.encode())?;
    device.flush()?;
    Ok(superblock)
}

/// Writes a fresh file system with its own journal length.
pub fn format_device_with_journal_blocks<D: BlockDevice>(device: &mut D, journal_blocks: u64) -> (r: Result<Superblock, Error>)
    ensures
        step::follows(
            old(device),
            final(device),
            step::kinded(r),
            format_step(
                old(device).blocks(),
                journal_blocks as int,
                DEFAULT_INODE_BLOCKS as int,
                DEFAULT_DIRECTORY_BLOCKS as int,
            ),
        ),
        published_last(
            old(device),
            final(device),
            format_step(
                old(device).blocks(),
                journal_blocks as int,
                DEFAULT_INODE_BLOCKS as int,
                DEFAULT_DIRECTORY_BLOCKS as int,
            ).disk,
        ),
        step::turned_away(
            old(device),
            final(device),
            step::kinded(r),
            !crate::format::sound(
                old(device).blocks().len() as int,
                journal_blocks as int,
                DEFAULT_INODE_BLOCKS as int,
                DEFAULT_DIRECTORY_BLOCKS as int,
            ),
        ),
        r is Ok ==> block::settled(final(device)),
{
    format_device_with_metadata_blocks(
        device,
        journal_blocks,
        DEFAULT_INODE_BLOCKS,
        DEFAULT_DIRECTORY_BLOCKS,
    )
}

/// Writes a fresh file system of default geometry.
pub fn format_device<D: BlockDevice>(device: &mut D) -> (r: Result<Superblock, Error>)
    ensures
        step::follows(
            old(device),
            final(device),
            step::kinded(r),
            format_step(
                old(device).blocks(),
                DEFAULT_JOURNAL_BLOCKS as int,
                DEFAULT_INODE_BLOCKS as int,
                DEFAULT_DIRECTORY_BLOCKS as int,
            ),
        ),
        published_last(
            old(device),
            final(device),
            format_step(
                old(device).blocks(),
                DEFAULT_JOURNAL_BLOCKS as int,
                DEFAULT_INODE_BLOCKS as int,
                DEFAULT_DIRECTORY_BLOCKS as int,
            ).disk,
        ),
        step::turned_away(
            old(device),
            final(device),
            step::kinded(r),
            !crate::format::sound(
                old(device).blocks().len() as int,
                DEFAULT_JOURNAL_BLOCKS as int,
                DEFAULT_INODE_BLOCKS as int,
                DEFAULT_DIRECTORY_BLOCKS as int,
            ),
        ),
        r is Ok ==> block::settled(final(device)),
{
    format_device_with_journal_blocks(device, DEFAULT_JOURNAL_BLOCKS)
}

/// A device that was formatted passes a strict inspection where its journal is intact.
pub proof fn law_formatted_is_sound(disk: Disk, sb: Superblock)
    requires
        sb.fits(disk),
        journal_region::log_on(disk, sb) is Some,
    ensures
        soundness::sound_on(formatted(disk, sb), sb),
        soundness::tables_of(formatted(disk, sb), sb) == (soundness::Tables {
            allocator: fresh_allocator(sb),
            inodes: fresh_inodes(),
            entries: Seq::empty(),
        }),
{
    let end = formatted(disk, sb);
    let t = soundness::Tables {
        allocator: fresh_allocator(sb),
        inodes: fresh_inodes(),
        entries: Seq::empty(),
    };
    law_formatted(disk, sb);
    assert(t.inodes.drop_last() =~= Seq::<InodeView>::empty());
    reveal_with_fuel(crate::fsck::references, 2);
    assert(crate::fsck::references(t.inodes) =~= Seq::<u64>::empty());
    assert forall|block: u64| !#[trigger] t.allocator.owns(block) by {}
    assert(crate::namespace::reached(t.entries, 0, ROOT_INODE_ID));
    reveal_with_fuel(crate::namespace::unreachable_ids, 2);
    assert(soundness::holds_tables(end, sb, t));
    assert(soundness::sound_tables(t));
    soundness::law_sound(end, sb);
}

/// Formatting lays the regions out one behind the other, of the sizes that were asked for, on the
/// whole device. The file system then has a root directory and nothing else, every data block is free,
/// and the journal and the data blocks are as they were.
pub proof fn law_format(disk: Disk, journal: int, inode: int, directory: int, sb: Superblock)
    requires
        format_step(disk, journal, inode, directory).result == Ok::<Superblock, ErrorKind>(sb),
    ensures
        ({
            let end = format_step(disk, journal, inode, directory).disk;
            &&& end.len() == disk.len()
            &&& sb.total_blocks == disk.len()
            &&& sb.journal_start == 1
            &&& sb.journal_blocks == journal
            &&& sb.allocation_start == sb.journal_start + sb.journal_blocks
            &&& sb.inode_start == sb.allocation_start + sb.allocation_blocks
            &&& sb.inode_blocks == inode
            &&& sb.directory_start == sb.inode_start + sb.inode_blocks
            &&& sb.directory_blocks == directory
            &&& sb.directory_start + sb.directory_blocks <= disk.len()
            &&& crate::format::superblock_on(end) == Some(sb)
            &&& allocation_disk::allocator_on(end, sb) matches Ok(a) && a.first
                == sb.directory_start + sb.directory_blocks && a.first + a.owned.len()
                == disk.len() && forall|i: int| 0 <= i < a.owned.len() ==> !#[trigger] a.owned[i]
            &&& inode_table::inodes_on(end, sb) matches Ok(inodes) && inodes.len() == 1
                && inodes[0].id == ROOT_INODE_ID && inodes[0].kind == InodeKind::Directory
                && inodes[0].blocks.len() == 0 && inodes[0].byte_len == 0
            &&& directory_table::entries_on(end, sb) matches Ok(entries) && entries.len() == 0
            &&& forall|i: int|
                0 <= i < disk.len() && (sb.journal_start <= i < sb.journal_start + sb.journal_blocks
                    || i >= sb.directory_start + sb.directory_blocks) ==> #[trigger] end[i]
                    == disk[i]
        }),
{
    reveal(format_step);
    law_formatted(disk, sb);
}

} // verus!
