//! Inserting blocks at a block boundary of a file.

use vstd::prelude::*;
use crate::block::{BlockDevice, Disk, BLOCK_SIZE};
use crate::contents;
use crate::error::{Error, ErrorKind};
use crate::file_blocks;
use crate::file_blocks::{find_file, invalid_input, load_tables, splice_file};
use crate::format::Superblock;
use crate::journal_region;
use crate::path_contiguous_defrag;
use crate::recovery::RecoveryReport;
use crate::soundness;
use crate::step;
use crate::step::Step;

verus! {

/// Fresh blocks with given contents in front of logical block `at` of a file.
pub open spec fn insert_step(disk: Disk, sb: Superblock, id: u64, at: int, images: Seq<Seq<u8>>, contiguous: bool) -> Step<(Seq<u64>, RecoveryReport)> {
    if images.len() == 0 {
        step::stay(disk, Err(ErrorKind::InvalidInput))
    } else {
        match file_blocks::tables_on(disk, sb) {
            Err(kind) => step::stay(disk, Err(kind)),
            Ok((a, inodes)) => match file_blocks::file_index(inodes, id) {
                Err(kind) => step::stay(disk, Err(kind)),
                Ok(i) => if at > inodes[i].blocks.len() {
                    step::stay(disk, Err(ErrorKind::InvalidInput))
                } else {
                    file_blocks::first_list(
                        file_blocks::splice_step(disk, sb, a, inodes, i, at, at, images, contiguous),
                    )
                },
            },
        }
    }
}

fn insert_blocks<D: BlockDevice>(
    device: &mut D,
    superblock: &Superblock,
    inode_id: u64,
    insert_index: usize,
    data_blocks: &[[u8; BLOCK_SIZE]],
    contiguous: bool,
) -> (r: Result<(Vec<u64>, RecoveryReport), Error>)
    ensures
        journal_region::carried_out(
            old(device),
            final(device),
            *superblock,
            file_blocks::block_list(r),
            insert_step(
                old(device).blocks(),
                *superblock,
                inode_id,
                insert_index as int,
                file_blocks::image_views(data_blocks@),
                contiguous,
            ),
        ),
        step::turned_away(
            old(device),
            final(device),
            file_blocks::block_list(r),
            data_blocks@.len() == 0,
        ),
{
    broadcast use journal_region::group_atomic;

    if data_blocks.is_empty() {
        return Err(invalid_input("multi-block insert requires at least one data block"));
    }
    let (allocator, inodes) = load_tables(device, superblock)?;
    let index: usize = find_file(inodes.as_slice(), inode_id)?;
    if insert_index > inodes[index].blocks.len() {
        return Err(invalid_input("file insert logical index is beyond the end"));
    }
    let (fresh, _displaced, report) = splice_file(
        device,
        superblock,
        allocator,
        inodes,
        index,
        insert_index,
        insert_index,
        data_blocks,
        contiguous,
    )?;
    Ok((fresh, report))
}

/// Inserts blocks into a regular file as one transaction; what follows moves back.
pub fn insert_file_blocks_journaled<D: BlockDevice>(
    device: &mut D,
    superblock: &Superblock,
    inode_id: u64,
    insert_index: usize,
    data_blocks: &[[u8; BLOCK_SIZE]],
) -> (r: Result<(Vec<u64>, RecoveryReport), Error>)
    ensures
        journal_region::carried_out(
            old(device),
            final(device),
            *superblock,
            file_blocks::block_list(r),
            insert_step(
                old(device).blocks(),
                *superblock,
                inode_id,
                insert_index as int,
                file_blocks::image_views(data_blocks@),
                false,
            ),
        ),
        step::turned_away(
            old(device),
            final(device),
            file_blocks::block_list(r),
            data_blocks@.len() == 0,
        ),
{
    insert_blocks(device, superblock, inode_id, insert_index, data_blocks, false)
}

/// Inserts blocks into a regular file as one contiguous run.
pub fn insert_file_blocks_contiguous_journaled<D: BlockDevice>(
    device: &mut D,
    superblock: &Superblock,
    inode_id: u64,
    insert_index: usize,
    data_blocks: &[[u8; BLOCK_SIZE]],
) -> (r: Result<(Vec<u64>, RecoveryReport), Error>)
    ensures
        journal_region::carried_out(
            old(device),
            final(device),
            *superblock,
            file_blocks::block_list(r),
            insert_step(
                old(device).blocks(),
                *superblock,
                inode_id,
                insert_index as int,
                file_blocks::image_views(data_blocks@),
                true,
            ),
        ),
        step::turned_away(
            old(device),
            final(device),
            file_blocks::block_list(r),
            data_blocks@.len() == 0,
        ),
{
    insert_blocks(device, superblock, inode_id, insert_index, data_blocks, true)
}

/// Blocks inserted into a file stand in front of the block at which they were inserted, and nothing
/// else changes.
pub proof fn law_insert(disk: Disk, sb: Superblock, id: u64, index: int, at: int, images: Seq<Seq<u8>>, contiguous: bool)
    requires
        soundness::sound_on(disk, sb),
        file_blocks::file_index(soundness::tables_of(disk, sb).inodes, id) == Ok::<int, ErrorKind>(
            index,
        ),
        forall|i: int| 0 <= i < images.len() ==> (#[trigger] images[i]).len() == BLOCK_SIZE,
        0 <= at,
        insert_step(disk, sb, id, at, images, contiguous).result is Ok,
    ensures
        ({
            let before = contents::images_of(disk, soundness::tables_of(disk, sb).inodes[index]);
            contents::rewritten(
                disk,
                insert_step(disk, sb, id, at, images, contiguous).disk,
                sb,
                index,
                before.subrange(0, at) + images + before.subrange(at, before.len() as int),
            )
        }),
        ({
            let step = insert_step(disk, sb, id, at, images, contiguous);
            &&& contents::exchanged_range(
                disk,
                step.disk,
                sb,
                index,
                at,
                at,
                images,
                step.result->Ok_0.0,
                Seq::empty(),
            )
            &&& contiguous ==> path_contiguous_defrag::consecutive(step.result->Ok_0.0)
        }),
{
    let t = soundness::tables_of(disk, sb);
    soundness::lemma_sound_parts(disk, sb);
    file_blocks::lemma_index_from(t.inodes, id, 0);
    contents::law_splice_lists(disk, sb, index, at, at, images, contiguous);
    assert(t.inodes[index].blocks.subrange(at, at) =~= Seq::<u64>::empty());
}



} // verus!
