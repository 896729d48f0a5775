//! Reading and overwriting blocks that a file already has, and appending one.

use vstd::prelude::*;
use vstd::slice::*;
use crate::allocation_disk;
use crate::allocation_disk::load_allocator;
use crate::block;
use crate::block::{Block, BlockDevice, Disk, BLOCK_SIZE};
use crate::bytes;
use crate::bytes::same_bytes;
use crate::contents;
use crate::error::{Error, ErrorKind};
use crate::file_blocks;
use crate::file_blocks::{find_file, invalid_data, invalid_input, load_tables, patched_block, splice_file};
use crate::format::Superblock;
use crate::inode_codec;
use crate::inode_table;
use crate::inode_table::load_inode_table;
use crate::journal_region;
use crate::path_contiguous_defrag;
use crate::recovery;
use crate::recovery::{HomeWrite, RecoveryReport};
use crate::soundness;
use crate::step;
use crate::step::Step;
use crate::transaction;
use crate::transaction::commit_blocks_and_checkpoint;

verus! {

/// The storage block of logical block `index` of a file, or how it is refused: a missing inode, an
/// inode of another kind and an index past the end as invalid input, a block that is not in use as
/// invalid data.
pub open spec fn owned_block(disk: Disk, sb: Superblock, id: u64, index: int) -> Result<u64, ErrorKind> {
    match inode_table::inodes_on(disk, sb) {
        Err(kind) => Err(kind),
        Ok(inodes) => match file_blocks::file_index(inodes, id) {
            Err(kind) => Err(kind),
            Ok(i) => if index >= inodes[i].blocks.len() {
                Err(ErrorKind::InvalidInput)
            } else {
                match allocation_disk::allocator_on(disk, sb) {
                    Err(kind) => Err(kind),
                    Ok(a) => if a.owns(inodes[i].blocks[index]) {
                        Ok(inodes[i].blocks[index])
                    } else {
                        Err(ErrorKind::InvalidData)
                    },
                }
            },
        },
    }
}

/// New contents for one block: a transaction unless it holds them already.
pub open spec fn overwrite_step(disk: Disk, sb: Superblock, block: u64, data: Seq<u8>) -> Step<RecoveryReport> {
    if disk[block as int] == data {
        step::stay(disk, Ok(recovery::no_recovery()))
    } else {
        transaction::commit_settled_step(disk, sb, seq![(block, data)])
    }
}

/// Logical block `index` of a file overwritten.
pub open spec fn write_block_step(disk: Disk, sb: Superblock, id: u64, index: int, data: Seq<u8>) -> Step<RecoveryReport> {
    match owned_block(disk, sb, id, index) {
        Err(kind) => step::stay(disk, Err(kind)),
        Ok(block) => overwrite_step(disk, sb, block, data),
    }
}

/// Bytes inside logical block `index` of a file overwritten.
pub open spec fn write_block_range_step(
    disk: Disk,
    sb: Superblock,
    id: u64,
    index: int,
    offset: int,
    data: Seq<u8>,
) -> Step<RecoveryReport> {
    if data.len() == 0 || offset >= BLOCK_SIZE || offset + data.len() > BLOCK_SIZE {
        step::stay(disk, Err(ErrorKind::InvalidInput))
    } else {
        match owned_block(disk, sb, id, index) {
            Err(kind) => step::stay(disk, Err(kind)),
            Ok(block) => overwrite_step(
                disk,
                sb,
                block,
                bytes::patch(disk[block as int], offset, data),
            ),
        }
    }
}

/// Fresh blocks with given contents at the end of a file.
pub open spec fn append_step(disk: Disk, sb: Superblock, id: u64, images: Seq<Seq<u8>>, contiguous: bool) -> Step<(Seq<u64>, RecoveryReport)> {
    match file_blocks::tables_on(disk, sb) {
        Err(kind) => step::stay(disk, Err(kind)),
        Ok((a, inodes)) => match file_blocks::file_index(inodes, id) {
            Err(kind) => step::stay(disk, Err(kind)),
            Ok(i) => file_blocks::first_list(
                file_blocks::splice_step(
                    disk,
                    sb,
                    a,
                    inodes,
                    i,
                    inodes[i].blocks.len() as int,
                    inodes[i].blocks.len() as int,
                    images,
                    contiguous,
                ),
            ),
        },
    }
}

/// The result of a request that appends a single block.
pub open spec fn single(s: Step<(Seq<u64>, RecoveryReport)>) -> Step<(u64, RecoveryReport)> {
    Step {
        disk: s.disk,
        result: match s.result {
            Ok((blocks, report)) => Ok((blocks[0], report)),
            Err(kind) => Err(kind),
        },
    }
}

fn resolve_owned_file_block<D: BlockDevice>(
    device: &mut D,
    superblock: &Superblock,
    inode_id: u64,
    file_block_index: usize,
) -> (r: Result<u64, Error>)
    ensures
        block::untouched(old(device), final(device)),
        match r {
            Ok(b) => {
                &&& owned_block(
                    old(device).blocks(),
                    *superblock,
                    inode_id,
                    file_block_index as int,
                ) == Ok::<u64, ErrorKind>(b)
                &&& superblock.fits(old(device).blocks())
                &&& superblock.data_start() <= b < superblock.total_blocks
            },
            Err(e) => !old(device).healthy() || owned_block(
                old(device).blocks(),
                *superblock,
                inode_id,
                file_block_index as int,
            ) == Err::<u64, ErrorKind>(e.kind),
        },
{
    let inodes = load_inode_table(device, superblock)?;
    let index: usize = find_file(inodes.as_slice(), inode_id)?;
    if file_block_index >= inodes[index].blocks.len() {
        return Err(invalid_input("file-data logical block index is out of range"));
    }
    let block: u64 = inodes[index].blocks[file_block_index];
    let allocator = load_allocator(device, superblock)?;
    let owned = match allocator.is_owned(block) {
        Ok(owned) => owned,
        Err(_) => return Err(invalid_data("file-data inode references no data block")),
    };
    if !owned {
        return Err(invalid_data("file-data inode references an unowned block"));
    }
    Ok(block)
}

/// Reads one logical block of a regular file.
pub fn read_file_block<D: BlockDevice>(device: &mut D, superblock: &Superblock, inode_id: u64, file_block_index: usize) -> (r: Result<[u8; BLOCK_SIZE], Error>)
    ensures
        block::untouched(old(device), final(device)),
        match r {
            Ok(data) => owned_block(
                old(device).blocks(),
                *superblock,
                inode_id,
                file_block_index as int,
            ) matches Ok(b) && data@ == old(device).blocks()[b as int],
            Err(e) => !old(device).healthy() || owned_block(
                old(device).blocks(),
                *superblock,
                inode_id,
                file_block_index as int,
            ) == Err::<u64, ErrorKind>(e.kind),
        },
{
    let block: u64 = resolve_owned_file_block(device, superblock, inode_id, file_block_index)?;
    let mut data: Block = [0u8; BLOCK_SIZE];
    device.read_block(block, &mut data)?;
    Ok(data)
}

fn journal_block_image<D: BlockDevice>(device: &mut D, superblock: &Superblock, block: u64, data: &Block) -> (r: Result<RecoveryReport, Error>)
    requires
        block < old(device).blocks().len(),
    ensures
        journal_region::carried_out(
            old(device),
            final(device),
            *superblock,
            step::kinded(r),
            overwrite_step(old(device).blocks(), *superblock, block, data@),
        ),
{
    broadcast use journal_region::group_atomic;

    let mut current: Block = [0u8; BLOCK_SIZE];
    device.read_block(block, &mut current)?;
    if same_bytes(&current, data) {
        return Ok(RecoveryReport::default());
    }
    let changed: [(u64, Block); 1] = [(block, *data)];
    assert(recovery::write_views(changed@) =~= seq![(block, data@)]);
    commit_blocks_and_checkpoint(device, *superblock, &changed)
}

/// Overwrites one logical block of a regular file as one transaction.
pub fn write_file_block_journaled<D: BlockDevice>(
    device: &mut D,
    superblock: &Superblock,
    inode_id: u64,
    file_block_index: usize,
    data: [u8; BLOCK_SIZE],
) -> (r: Result<RecoveryReport, Error>)
    ensures
        journal_region::carried_out(
            old(device),
            final(device),
            *superblock,
            step::kinded(r),
            write_block_step(
                old(device).blocks(),
                *superblock,
                inode_id,
                file_block_index as int,
                data@,
            ),
        ),
{
    broadcast use journal_region::group_atomic;

    let block: u64 = resolve_owned_file_block(device, superblock, inode_id, file_block_index)?;
    journal_block_image(device, superblock, block, &data)
}

/// Overwrites bytes inside one logical block of a regular file as one transaction. The bytes must
/// not be empty and must not cross the end of the block.
pub fn write_file_block_range_journaled<D: BlockDevice>(
    device: &mut D,
    superblock: &Superblock,
    inode_id: u64,
    file_block_index: usize,
    offset: usize,
    data: &[u8],
) -> (r: Result<RecoveryReport, Error>)
    ensures
        journal_region::carried_out(
            old(device),
            final(device),
            *superblock,
            step::kinded(r),
            write_block_range_step(
                old(device).blocks(),
                *superblock,
                inode_id,
                file_block_index as int,
                offset as int,
                data@,
            ),
        ),
        step::turned_away(
            old(device),
            final(device),
            step::kinded(r),
            data@.len() == 0 || offset + data@.len() > BLOCK_SIZE,
        ),
{
    broadcast use journal_region::group_atomic;

    if data.is_empty() || offset >= BLOCK_SIZE || data.len() > BLOCK_SIZE - offset {
        return Err(
            invalid_input("partial file-data write must be non-empty and stay within one block"),
        );
    }
    let block: u64 = resolve_owned_file_block(device, superblock, inode_id, file_block_index)?;
    let mut image: Block = [0u8; BLOCK_SIZE];
    device.read_block(block, &mut image)?;
    let next: Block = patched_block(&image, offset, data);
    journal_block_image(device, superblock, block, &next)
}

/// Appends fresh blocks with given contents to a regular file as one transaction.
pub(crate) fn append_blocks<D: BlockDevice>(
    device: &mut D,
    superblock: &Superblock,
    inode_id: u64,
    images: &[Block],
    contiguous: bool,
) -> (r: Result<(Vec<u64>, RecoveryReport), Error>)
    ensures
        journal_region::carried_out(
            old(device),
            final(device),
            *superblock,
            file_blocks::block_list(r),
            append_step(
                old(device).blocks(),
                *superblock,
                inode_id,
                file_blocks::image_views(images@),
                contiguous,
            ),
        ),
        r matches Ok((blocks, _)) ==> blocks@.len() == images@.len(),
{
    broadcast use journal_region::group_atomic;

    let (allocator, inodes) = load_tables(device, superblock)?;
    let index: usize = find_file(inodes.as_slice(), inode_id)?;
    let end: usize = inodes[index].blocks.len();
    proof {
        file_blocks::lemma_fresh_len(allocator@, images@.len(), contiguous);
    }
    let (fresh, _displaced, report) = splice_file(
        device,
        superblock,
        allocator,
        inodes,
        index,
        end,
        end,
        images,
        contiguous,
    )?;
    Ok((fresh, report))
}

/// Appends one block to a regular file as one transaction and returns its storage block.
pub fn append_file_block_journaled<D: BlockDevice>(device: &mut D, superblock: &Superblock, inode_id: u64, data: [u8; BLOCK_SIZE]) -> (r: Result<(u64, RecoveryReport), Error>)
    ensures
        journal_region::carried_out(
            old(device),
            final(device),
            *superblock,
            step::kinded(r),
            single(
                append_step(old(device).blocks(), *superblock, inode_id, seq![data@], false),
            ),
        ),
{
    let images: [Block; 1] = [data];
    assert(file_blocks::image_views(images@) =~= seq![data@]);
    let (blocks, report) = append_blocks(device, superblock, inode_id, &images, false)?;
    Ok((blocks[0], report))
}

/// Blocks appended to a file stand behind what it held, and nothing else changes.
pub proof fn law_append(disk: Disk, sb: Superblock, id: u64, index: int, images: Seq<Seq<u8>>, contiguous: bool)
    requires
        soundness::sound_on(disk, sb),
        file_blocks::file_index(soundness::tables_of(disk, sb).inodes, id) == Ok::<int, ErrorKind>(
            index,
        ),
        forall|i: int| 0 <= i < images.len() ==> (#[trigger] images[i]).len() == BLOCK_SIZE,
        append_step(disk, sb, id, images, contiguous).result is Ok,
    ensures
        contents::rewritten(
            disk,
            append_step(disk, sb, id, images, contiguous).disk,
            sb,
            index,
            contents::images_of(disk, soundness::tables_of(disk, sb).inodes[index]) + images,
        ),
        ({
            let step = append_step(disk, sb, id, images, contiguous);
            let n = soundness::tables_of(disk, sb).inodes[index].blocks.len() as int;
            &&& contents::exchanged_range(
                disk,
                step.disk,
                sb,
                index,
                n,
                n,
                images,
                step.result->Ok_0.0,
                Seq::empty(),
            )
            &&& contiguous ==> path_contiguous_defrag::consecutive(step.result->Ok_0.0)
        }),
{
    let t = soundness::tables_of(disk, sb);
    let before = contents::images_of(disk, t.inodes[index]);
    let n = before.len() as int;
    soundness::lemma_sound_parts(disk, sb);
    file_blocks::lemma_index_from(t.inodes, id, 0);
    contents::law_splice_lists(disk, sb, index, n, n, images, contiguous);
    assert(t.inodes[index].blocks.subrange(n, n) =~= Seq::<u64>::empty());
    assert(before.subrange(0, n) + images + before.subrange(n, n) =~= before + images);
}

/// New contents for a block in use that a file holds.
proof fn lemma_overwrite(disk: Disk, sb: Superblock, id: u64, index: int, at: int, data: Seq<u8>)
    requires
        soundness::sound_on(disk, sb),
        file_blocks::file_index(soundness::tables_of(disk, sb).inodes, id) == Ok::<int, ErrorKind>(
            index,
        ),
        0 <= at,
        owned_block(disk, sb, id, at) is Ok,
        data.len() == BLOCK_SIZE,
        overwrite_step(disk, sb, owned_block(disk, sb, id, at)->Ok_0, data).result is Ok,
    ensures
        contents::rewritten(
            disk,
            overwrite_step(disk, sb, owned_block(disk, sb, id, at)->Ok_0, data).disk,
            sb,
            index,
            contents::images_of(disk, soundness::tables_of(disk, sb).inodes[index]).update(
                at,
                data,
            ),
        ),
{
    let t = soundness::tables_of(disk, sb);
    soundness::lemma_sound_parts(disk, sb);
    file_blocks::lemma_index_from(t.inodes, id, 0);
    let inode = t.inodes[index];
    let block = inode.blocks[at];
    let images = contents::images_of(disk, inode);
    let wanted = images.update(at, data);
    assert(t.allocator.owns(block));
    assert(t.inodes.update(index, inode) =~= t.inodes);
    if disk[block as int] == data {
        assert(wanted =~= images);
    } else {
        let writes = seq![(block, data)];
        let u = contents::data_update(writes);
        contents::lemma_data_update(disk, sb, writes);
        reveal_with_fuel(recovery::applied, 2);
        assert(writes.drop_last() =~= Seq::<recovery::HomeWrite>::empty());
        let replayed = recovery::applied(disk, writes);
        assert forall|i: int| 0 <= i < wanted.len() implies contents::block_image(
            replayed,
            #[trigger] inode.blocks[i],
        ) == wanted[i] by {
            contents::lemma_mapped_owned(t.allocator, t.inodes, index, i);
            if i != at {
                assert(crate::inode_codec::exact(inode));
                assert(inode.blocks[i] == inode.blocks[at] ==> inode.blocks[i]
                    == crate::inode_codec::SPARSE_HOLE_BLOCK);
            }
        }
        assert forall|k: int, j: int, m: int|
            #![trigger u.data[k], t.inodes[j].blocks[m]]
            0 <= k < u.data.len() && 0 <= j < t.inodes.len() && j != index && 0 <= m
                < t.inodes[j].blocks.len() implies u.data[k].0 != t.inodes[j].blocks[m] by {
            contents::lemma_sole_owner(t.allocator, t.inodes, index, at, j, m);
        }
        contents::lemma_file_update(disk, sb, index, inode, u, true, wanted);
    }
}

/// A block that is written holds its new contents, and nothing else changes.
pub proof fn law_write_block(disk: Disk, sb: Superblock, id: u64, index: int, at: int, data: Seq<u8>)
    requires
        soundness::sound_on(disk, sb),
        file_blocks::file_index(soundness::tables_of(disk, sb).inodes, id) == Ok::<int, ErrorKind>(
            index,
        ),
        0 <= at,
        data.len() == BLOCK_SIZE,
        write_block_step(disk, sb, id, at, data).result is Ok,
    ensures
        contents::rewritten(
            disk,
            write_block_step(disk, sb, id, at, data).disk,
            sb,
            index,
            contents::images_of(disk, soundness::tables_of(disk, sb).inodes[index]).update(
                at,
                data,
            ),
        ),
{
    lemma_overwrite(disk, sb, id, index, at, data);
}

/// Bytes that are written inside a block stand there, and nothing else changes.
pub proof fn law_write_block_range(disk: Disk, sb: Superblock, id: u64, index: int, at: int, offset: int, data: Seq<u8>)
    requires
        soundness::sound_on(disk, sb),
        contents::full_blocks(disk),
        file_blocks::file_index(soundness::tables_of(disk, sb).inodes, id) == Ok::<int, ErrorKind>(
            index,
        ),
        0 <= at,
        0 <= offset,
        write_block_range_step(disk, sb, id, at, offset, data).result is Ok,
    ensures
        ({
            let images = contents::images_of(disk, soundness::tables_of(disk, sb).inodes[index]);
            contents::rewritten(
                disk,
                write_block_range_step(disk, sb, id, at, offset, data).disk,
                sb,
                index,
                images.update(at, bytes::patch(images[at], offset, data)),
            )
        }),
{
    broadcast use bytes::group_bytes;

    let t = soundness::tables_of(disk, sb);
    soundness::lemma_sound_parts(disk, sb);
    file_blocks::lemma_index_from(t.inodes, id, 0);
    let block = owned_block(disk, sb, id, at)->Ok_0;
    assert(t.allocator.owns(block));
    lemma_overwrite(
        disk,
        sb,
        id,
        index,
        at,
        bytes::patch(disk[block as int], offset, data),
    );
}

/// The block that is read, or overwritten, is the logical block of the file; every stored one has a
/// block in use.
pub proof fn law_owned_block(disk: Disk, sb: Superblock, id: u64, at: int)
    requires
        soundness::sound_on(disk, sb),
        0 <= at,
    ensures
        ({
            let t = soundness::tables_of(disk, sb);
            match file_blocks::file_index(t.inodes, id) {
                Err(kind) => owned_block(disk, sb, id, at) == Err::<u64, ErrorKind>(kind),
                Ok(i) => {
                    &&& owned_block(disk, sb, id, at) matches Ok(block) ==> at
                        < t.inodes[i].blocks.len() && disk[block as int] == contents::images_of(
                        disk,
                        t.inodes[i],
                    )[at]
                    &&& at < t.inodes[i].blocks.len() && t.inodes[i].blocks[at]
                        != inode_codec::SPARSE_HOLE_BLOCK ==> owned_block(disk, sb, id, at) is Ok
                    &&& at >= t.inodes[i].blocks.len() ==> owned_block(disk, sb, id, at) == Err::<
                        u64,
                        ErrorKind,
                    >(ErrorKind::InvalidInput)
                },
            }
        }),
{
    let t = soundness::tables_of(disk, sb);
    soundness::lemma_sound_parts(disk, sb);
    file_blocks::lemma_index_from(t.inodes, id, 0);
    if let Ok(i) = file_blocks::file_index(t.inodes, id) {
        if at < t.inodes[i].blocks.len() {
            contents::lemma_mapped_owned(t.allocator, t.inodes, i, at);
        }
    }
}

} // verus!
