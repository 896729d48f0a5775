//! Inserting contiguous runs of blocks by path name.

use vstd::prelude::*;
use crate::block::{BlockDevice, Disk, BLOCK_SIZE};
use crate::contents;
use crate::error::{Error, ErrorKind};
use crate::file_append_batch;
use crate::file_append_batch::zero_blocks;
use crate::file_blocks;
use crate::file_blocks::invalid_input;
use crate::file_insert_batch::insert_file_blocks_contiguous_journaled;
use crate::file_insert_batch;
use crate::format::Superblock;
use crate::journal_checkpoint;
use crate::journal_checkpoint::recover_journal_and_checkpoint;
use crate::journal_region;
use crate::path_contiguous_defrag;
use crate::path_insert;
use crate::path_lookup::resolve_path_following_symlinks;
use crate::path_lookup;
use crate::recovery::RecoveryReport;
use crate::soundness;
use crate::step;
use crate::step::Step;

verus! {

/// Inserts blocks as one contiguous run into the regular file that a path names, once the journal
/// is replayed and empty.
pub fn insert_file_blocks_contiguous_at_path_journaled<D: BlockDevice>(
    device: &mut D,
    superblock: &Superblock,
    path: &str,
    insert_index: usize,
    data_blocks: &[[u8; BLOCK_SIZE]],
) -> (r: Result<(Vec<u64>, RecoveryReport), Error>)
    ensures
        journal_region::carried_out(
            old(device),
            final(device),
            *superblock,
            file_blocks::block_list(r),
            path_insert::insert_at_step(
                old(device).blocks(),
                *superblock,
                path@,
                insert_index as int,
                file_blocks::image_views(data_blocks@),
                true,
            ),
        ),
{
    broadcast use journal_checkpoint::group_settled;

    recover_journal_and_checkpoint(device, *superblock)?;
    let inode_id: u64 = resolve_path_following_symlinks(device, superblock, path)?;
    insert_file_blocks_contiguous_journaled(device, superblock, inode_id, insert_index, data_blocks)
}

/// One contiguous run of zeroed blocks inserted into the file that a path names.
pub open spec fn insert_zeroed_at_step(disk: Disk, sb: Superblock, path: Seq<char>, at: int, count: int) -> Step<(Seq<u64>, RecoveryReport)> {
    if count == 0 || count > usize::MAX {
        step::stay(disk, Err(ErrorKind::InvalidInput))
    } else {
        path_insert::insert_at_step(
            disk,
            sb,
            path,
            at,
            file_append_batch::zero_images(count as nat),
            true,
        )
    }
}

/// Inserts zeroed blocks as one contiguous run into the regular file that a path names.
pub fn insert_zeroed_blocks_contiguous_at_path_journaled<D: BlockDevice>(
    device: &mut D,
    superblock: &Superblock,
    path: &str,
    insert_index: usize,
    block_count: u64,
) -> (r: Result<(Vec<u64>, RecoveryReport), Error>)
    ensures
        journal_region::carried_out(
            old(device),
            final(device),
            *superblock,
            file_blocks::block_list(r),
            insert_zeroed_at_step(
                old(device).blocks(),
                *superblock,
                path@,
                insert_index as int,
                block_count as int,
            ),
        ),
        step::turned_away(
            old(device),
            final(device),
            file_blocks::block_list(r),
            block_count == 0 || block_count > usize::MAX,
        ),
{
    broadcast use journal_checkpoint::group_settled;

    if block_count == 0 {
        return Err(invalid_input("zeroed blocks must number at least one"));
    }
    if block_count > usize::MAX as u64 {
        return Err(invalid_input("zeroed block count exceeds addressable memory"));
    }
    let images = zero_blocks(block_count as usize);
    insert_file_blocks_contiguous_at_path_journaled(
        device,
        superblock,
        path,
        insert_index,
        images.as_slice(),
    )
}

/// Zeroed blocks that are inserted at a path, `count` of them in one run, stand in front of the block at
/// which they were inserted, in the file that the path names; they are the blocks that are handed back.
/// Nothing else changes, and the path still names the file. The device has to be sound once its journal
/// is settled, which the request does first.
pub proof fn law_insert_zeroed_at_path(disk: Disk, sb: Superblock, path: Seq<char>, at: int, count: int)
    requires
        soundness::sound_on(journal_checkpoint::settle_step(disk, sb).disk, sb),
        0 <= at,
        0 <= count,
        insert_zeroed_at_step(disk, sb, path, at, count).result is Ok,
    ensures
        ({
            let base = journal_checkpoint::settle_step(disk, sb).disk;
            let step = insert_zeroed_at_step(disk, sb, path, at, count);
            &&& path_lookup::file_at(base, sb, path) matches Ok(i) && ({
                &&& path_contiguous_defrag::consecutive(step.result->Ok_0.0)
                &&& step.result->Ok_0.0.len() == count
                &&& contents::exchanged_range(
                    base,
                    step.disk,
                    sb,
                    i,
                    at,
                    at,
                    file_append_batch::zero_images(count as nat),
                    step.result->Ok_0.0,
                    Seq::empty(),
                )
            })
            &&& path_lookup::resolved(step.disk, sb, path, true) == path_lookup::resolved(
                base,
                sb,
                path,
                true,
            )
        }),
{
    let base = journal_checkpoint::settle_step(disk, sb).disk;
    let t = soundness::tables_of(base, sb);
    let end = insert_zeroed_at_step(disk, sb, path, at, count).disk;
    soundness::lemma_sound_parts(base, sb);
    path_lookup::law_file_at(base, sb, path);
    let id = path_lookup::resolved(base, sb, path, true)->Ok_0;
    let i = file_blocks::file_index(t.inodes, id)->Ok_0;
    let zeros = file_append_batch::zero_images(count as nat);
    file_append_batch::law_zero_images(count as nat);
    file_insert_batch::law_insert(base, sb, id, i, at, zeros, true);
    path_lookup::law_same_paths(
        base,
        end,
        sb,
        i,
        contents::images_of(end, soundness::tables_of(end, sb).inodes[i]),
        path,
        true,
    );
}

} // verus!
