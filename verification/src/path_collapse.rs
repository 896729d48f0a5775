//! Removing blocks from files by path name.

use vstd::prelude::*;
use crate::block::{BlockDevice, Disk};
use crate::contents;
use crate::error::Error;
use crate::file_blocks;
use crate::file_collapse;
use crate::file_collapse::collapse_file_block_range_journaled;
use crate::format::Superblock;
use crate::journal_region;
use crate::path_lookup;
use crate::path_lookup::resolve_path_following_symlinks;
use crate::recovery::RecoveryReport;
use crate::soundness;
use crate::step::Step;

verus! {

/// Blocks removed from the file that a path names.
pub open spec fn collapse_at_step(disk: Disk, sb: Superblock, path: Seq<char>, start: int, count: int) -> Step<(Seq<u64>, RecoveryReport)> {
    path_lookup::resolved_then(disk, sb, path, |id: u64| file_collapse::collapse_step(disk, sb, id, start, count))
}

/// Removes a range of blocks from the regular file that a path names.
pub fn collapse_file_block_range_at_path_journaled<D: BlockDevice>(
    device: &mut D,
    superblock: &Superblock,
    path: &str,
    start_index: usize,
    block_count: usize,
) -> (r: Result<(Vec<u64>, RecoveryReport), Error>)
    ensures
        journal_region::carried_out(
            old(device),
            final(device),
            *superblock,
            file_blocks::block_list(r),
            collapse_at_step(
                old(device).blocks(),
                *superblock,
                path@,
                start_index as int,
                block_count as int,
            ),
        ),
{
    broadcast use journal_region::group_atomic;

    let inode_id: u64 = resolve_path_following_symlinks(device, superblock, path)?;
    collapse_file_block_range_journaled(device, superblock, inode_id, start_index, block_count)
}

/// A range that is removed at a path is gone from the file that the path names, and what follows moves
/// forward; the blocks that it had are handed back. Nothing else changes, and the path still names the
/// file.
pub proof fn law_collapse_at_path(disk: Disk, sb: Superblock, path: Seq<char>, start: int, count: int)
    requires
        soundness::sound_on(disk, sb),
        0 <= start,
        0 <= count,
        collapse_at_step(disk, sb, path, start, count).result is Ok,
    ensures
        ({
            let step = collapse_at_step(disk, sb, path, start, count);
            &&& path_lookup::file_at(disk, sb, path) matches Ok(i) && ({
                contents::exchanged_range(
                    disk,
                    step.disk,
                    sb,
                    i,
                    start,
                    start + count,
                    Seq::empty(),
                    Seq::empty(),
                    step.result->Ok_0.0,
                )
            })
            &&& path_lookup::resolved(step.disk, sb, path, true) == path_lookup::resolved(
                disk,
                sb,
                path,
                true,
            )
        }),
{
    let t = soundness::tables_of(disk, sb);
    let end = collapse_at_step(disk, sb, path, start, count).disk;
    soundness::lemma_sound_parts(disk, sb);
    path_lookup::law_file_at(disk, sb, path);
    let id = path_lookup::resolved(disk, sb, path, true)->Ok_0;
    let i = file_blocks::file_index(t.inodes, id)->Ok_0;
    file_collapse::law_collapse(disk, sb, id, i, start, count);
    path_lookup::law_same_paths(
        disk,
        end,
        sb,
        i,
        contents::images_of(end, soundness::tables_of(end, sb).inodes[i]),
        path,
        true,
    );
}

} // verus!
