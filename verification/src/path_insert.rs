//! Inserting blocks into files by path name.

use vstd::prelude::*;
use crate::block::{BlockDevice, Disk, BLOCK_SIZE};
use crate::contents;
use crate::error::Error;
use crate::file_blocks;
use crate::file_insert_batch;
use crate::file_insert_batch::insert_file_blocks_journaled;
use crate::format::Superblock;
use crate::journal_checkpoint;
use crate::journal_checkpoint::recover_journal_and_checkpoint;
use crate::journal_region;
use crate::path_contiguous_defrag;
use crate::path_lookup;
use crate::path_lookup::resolve_path_following_symlinks;
use crate::recovery::RecoveryReport;
use crate::soundness;
use crate::step::Step;

verus! {

/// Blocks inserted into the file that a path names.
pub open spec fn insert_at_step(disk: Disk, sb: Superblock, path: Seq<char>, at: int, images: Seq<Seq<u8>>, contiguous: bool) -> Step<(Seq<u64>, RecoveryReport)> {
    journal_checkpoint::settled_then(
        disk,
        sb,
        |d: Disk|
            path_lookup::resolved_then(
                d,
                sb,
                path,
                |id: u64| file_insert_batch::insert_step(d, sb, id, at, images, contiguous),
            ),
    )
}

/// Inserts blocks into the regular file that a path names, once the journal is replayed and empty.
pub fn insert_file_blocks_at_path_journaled<D: BlockDevice>(
    device: &mut D,
    superblock: &Superblock,
    path: &str,
    insert_index: usize,
    data_blocks: &[[u8; BLOCK_SIZE]],
) -> (r: Result<(Vec<u64>, RecoveryReport), Error>)
    ensures
        journal_region::carried_out(
            old(device),
            final(device),
            *superblock,
            file_blocks::block_list(r),
            insert_at_step(
                old(device).blocks(),
                *superblock,
                path@,
                insert_index as int,
                file_blocks::image_views(data_blocks@),
                false,
            ),
        ),
{
    broadcast use journal_checkpoint::group_settled;

    recover_journal_and_checkpoint(device, *superblock)?;
    let inode_id: u64 = resolve_path_following_symlinks(device, superblock, path)?;
    insert_file_blocks_journaled(device, superblock, inode_id, insert_index, data_blocks)
}

/// Blocks that are inserted at a path stand in front of the block at which they were inserted, in the
/// file that the path names; they are the blocks that are handed back, in one run where that was asked
/// for. Nothing else changes, and the path still names the file. The device has to be sound once its
/// journal is settled, which the request does first.
pub proof fn law_insert_at_path(disk: Disk, sb: Superblock, path: Seq<char>, at: int, images: Seq<Seq<u8>>, contiguous: bool)
    requires
        soundness::sound_on(journal_checkpoint::settle_step(disk, sb).disk, sb),
        0 <= at,
        forall|k: int| 0 <= k < images.len() ==> (#[trigger] images[k]).len() == BLOCK_SIZE,
        insert_at_step(disk, sb, path, at, images, contiguous).result is Ok,
    ensures
        ({
            let base = journal_checkpoint::settle_step(disk, sb).disk;
            let step = insert_at_step(disk, sb, path, at, images, contiguous);
            &&& path_lookup::file_at(base, sb, path) matches Ok(i) && ({
                &&& contiguous ==> path_contiguous_defrag::consecutive(step.result->Ok_0.0)
                &&& contents::exchanged_range(
                    base,
                    step.disk,
                    sb,
                    i,
                    at,
                    at,
                    images,
                    step.result->Ok_0.0,
                    Seq::empty(),
                )
            })
            &&& path_lookup::resolved(step.disk, sb, path, true) == path_lookup::resolved(
                base,
                sb,
                path,
                true,
            )
        }),
{
    let base = journal_checkpoint::settle_step(disk, sb).disk;
    let t = soundness::tables_of(base, sb);
    let end = insert_at_step(disk, sb, path, at, images, contiguous).disk;
    soundness::lemma_sound_parts(base, sb);
    path_lookup::law_file_at(base, sb, path);
    let id = path_lookup::resolved(base, sb, path, true)->Ok_0;
    let i = file_blocks::file_index(t.inodes, id)->Ok_0;
    file_insert_batch::law_insert(base, sb, id, i, at, images, contiguous);
    path_lookup::law_same_paths(
        base,
        end,
        sb,
        i,
        contents::images_of(end, soundness::tables_of(end, sb).inodes[i]),
        path,
        true,
    );
}

} // verus!
