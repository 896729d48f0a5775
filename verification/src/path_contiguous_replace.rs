//! Replacing ranges of files by contiguous runs, by path name.

use vstd::prelude::*;
use crate::block::{BlockDevice, Disk, BLOCK_SIZE};
use crate::contents;
use crate::error::{Error, ErrorKind};
use crate::file_append_batch;
use crate::file_append_batch::zero_blocks;
use crate::file_blocks;
use crate::file_blocks::invalid_input;
use crate::file_replace;
use crate::file_replace_contiguous::replace_file_blocks_contiguous_journaled;
use crate::format::Superblock;
use crate::journal_checkpoint;
use crate::journal_checkpoint::recover_journal_and_checkpoint;
use crate::journal_region;
use crate::path_contiguous_defrag;
use crate::path_lookup;
use crate::path_lookup::resolve_path_following_symlinks;
use crate::recovery::RecoveryReport;
use crate::soundness;
use crate::step;
use crate::step::Step;

verus! {

/// A range of the file that a path names exchanged for one contiguous run.
pub open spec fn replace_run_at_step(disk: Disk, sb: Superblock, path: Seq<char>, start: int, count: int, images: Seq<Seq<u8>>) -> Step<(Seq<u64>, Seq<u64>, RecoveryReport)> {
    journal_checkpoint::settled_then(
        disk,
        sb,
        |d: Disk|
            path_lookup::resolved_then(
                d,
                sb,
                path,
                |id: u64| file_replace::replace_step(d, sb, id, start, count, images, true),
            ),
    )
}

/// Replaces a range of the regular file that a path names by one contiguous run of blocks, once the
/// journal is replayed and empty.
pub fn replace_file_blocks_contiguous_at_path_journaled<D: BlockDevice>(
    device: &mut D,
    superblock: &Superblock,
    path: &str,
    start: usize,
    remove_count: usize,
    replacements: &[[u8; BLOCK_SIZE]],
) -> (r: Result<(Vec<u64>, Vec<u64>, RecoveryReport), Error>)
    ensures
        journal_region::carried_out(
            old(device),
            final(device),
            *superblock,
            file_blocks::block_lists(r),
            replace_run_at_step(
                old(device).blocks(),
                *superblock,
                path@,
                start as int,
                remove_count as int,
                file_blocks::image_views(replacements@),
            ),
        ),
{
    broadcast use journal_checkpoint::group_settled;

    recover_journal_and_checkpoint(device, *superblock)?;
    let inode_id: u64 = resolve_path_following_symlinks(device, superblock, path)?;
    replace_file_blocks_contiguous_journaled(
        device,
        superblock,
        inode_id,
        start,
        remove_count,
        replacements,
    )
}

/// A range of the file that a path names exchanged for as many zeroed blocks in one run.
pub open spec fn replace_zeroed_at_step(disk: Disk, sb: Superblock, path: Seq<char>, start: int, count: int) -> Step<(Seq<u64>, Seq<u64>, RecoveryReport)> {
    if count == 0 || count > usize::MAX {
        step::stay(disk, Err(ErrorKind::InvalidInput))
    } else {
        replace_run_at_step(
            disk,
            sb,
            path,
            start,
            count,
            file_append_batch::zero_images(count as nat),
        )
    }
}

/// Replaces a range of the regular file that a path names by as many zeroed blocks in one
/// contiguous run.
pub fn replace_with_zeroed_blocks_contiguous_at_path_journaled<D: BlockDevice>(
    device: &mut D,
    superblock: &Superblock,
    path: &str,
    start: usize,
    block_count: u64,
) -> (r: Result<(Vec<u64>, Vec<u64>, RecoveryReport), Error>)
    ensures
        journal_region::carried_out(
            old(device),
            final(device),
            *superblock,
            file_blocks::block_lists(r),
            replace_zeroed_at_step(
                old(device).blocks(),
                *superblock,
                path@,
                start as int,
                block_count as int,
            ),
        ),
        step::turned_away(
            old(device),
            final(device),
            file_blocks::block_lists(r),
            block_count == 0 || block_count > usize::MAX,
        ),
{
    broadcast use journal_checkpoint::group_settled;

    if block_count == 0 {
        return Err(invalid_input("zeroed blocks must number at least one"));
    }
    if block_count > usize::MAX as u64 {
        return Err(invalid_input("zeroed block count exceeds addressable memory"));
    }
    let images = zero_blocks(block_count as usize);
    replace_file_blocks_contiguous_at_path_journaled(
        device,
        superblock,
        path,
        start,
        block_count as usize,
        images.as_slice(),
    )
}

/// A range that is exchanged at a path for one run of blocks holds these, in the file that the path
/// names. The blocks that the range has now, each the one after its predecessor, and those that it had
/// are handed back. Nothing else changes, and the path still names the file. The device has to be sound
/// once its journal is settled, which the request does first.
pub proof fn law_replace_run_at_path(disk: Disk, sb: Superblock, path: Seq<char>, start: int, count: int, images: Seq<Seq<u8>>)
    requires
        soundness::sound_on(journal_checkpoint::settle_step(disk, sb).disk, sb),
        0 <= start,
        0 <= count,
        forall|k: int| 0 <= k < images.len() ==> (#[trigger] images[k]).len() == BLOCK_SIZE,
        replace_run_at_step(disk, sb, path, start, count, images).result is Ok,
    ensures
        ({
            let base = journal_checkpoint::settle_step(disk, sb).disk;
            let step = replace_run_at_step(disk, sb, path, start, count, images);
            &&& path_lookup::file_at(base, sb, path) matches Ok(i) && ({
                let (fresh, gone, _) = step.result->Ok_0;
                &&& path_contiguous_defrag::consecutive(fresh)
                &&& contents::exchanged_range(
                    base,
                    step.disk,
                    sb,
                    i,
                    start,
                    start + count,
                    images,
                    fresh,
                    gone,
                )
            })
            &&& path_lookup::resolved(step.disk, sb, path, true) == path_lookup::resolved(
                base,
                sb,
                path,
                true,
            )
        }),
{
    let base = journal_checkpoint::settle_step(disk, sb).disk;
    let t = soundness::tables_of(base, sb);
    let end = replace_run_at_step(disk, sb, path, start, count, images).disk;
    soundness::lemma_sound_parts(base, sb);
    path_lookup::law_file_at(base, sb, path);
    let id = path_lookup::resolved(base, sb, path, true)->Ok_0;
    let i = file_blocks::file_index(t.inodes, id)->Ok_0;
    file_replace::law_replace(base, sb, id, i, start, count, images, true);
    path_lookup::law_same_paths(
        base,
        end,
        sb,
        i,
        contents::images_of(end, soundness::tables_of(end, sb).inodes[i]),
        path,
        true,
    );
}

/// The same of a range that is exchanged for as many zeroed blocks.
pub proof fn law_replace_zeroed_at_path(disk: Disk, sb: Superblock, path: Seq<char>, start: int, count: int)
    requires
        soundness::sound_on(journal_checkpoint::settle_step(disk, sb).disk, sb),
        0 <= start,
        0 <= count,
        replace_zeroed_at_step(disk, sb, path, start, count).result is Ok,
    ensures
        ({
            let base = journal_checkpoint::settle_step(disk, sb).disk;
            let step = replace_zeroed_at_step(disk, sb, path, start, count);
            &&& path_lookup::file_at(base, sb, path) matches Ok(i) && ({
                let (fresh, gone, _) = step.result->Ok_0;
                &&& path_contiguous_defrag::consecutive(fresh)
                &&& contents::exchanged_range(
                    base,
                    step.disk,
                    sb,
                    i,
                    start,
                    start + count,
                    file_append_batch::zero_images(count as nat),
                    fresh,
                    gone,
                )
            })
            &&& path_lookup::resolved(step.disk, sb, path, true) == path_lookup::resolved(
                base,
                sb,
                path,
                true,
            )
        }),
{
    let base = journal_checkpoint::settle_step(disk, sb).disk;
    let t = soundness::tables_of(base, sb);
    let end = replace_zeroed_at_step(disk, sb, path, start, count).disk;
    soundness::lemma_sound_parts(base, sb);
    path_lookup::law_file_at(base, sb, path);
    let id = path_lookup::resolved(base, sb, path, true)->Ok_0;
    let i = file_blocks::file_index(t.inodes, id)->Ok_0;
    let zeros = file_append_batch::zero_images(count as nat);
    file_append_batch::law_zero_images(count as nat);
    file_replace::law_replace(base, sb, id, i, start, count, zeros, true);
    path_lookup::law_same_paths(
        base,
        end,
        sb,
        i,
        contents::images_of(end, soundness::tables_of(end, sb).inodes[i]),
        path,
        true,
    );
}

} // verus!
