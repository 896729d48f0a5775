//! Replacing a range of blocks of a file.

use vstd::prelude::*;
use crate::block::{BlockDevice, Disk, BLOCK_SIZE};
use crate::contents;
use crate::error::{Error, ErrorKind};
use crate::file_blocks;
use crate::file_blocks::{find_file, invalid_input, load_tables, splice_file};
use crate::format::Superblock;
use crate::journal_region;
use crate::path_contiguous_defrag;
use crate::recovery::RecoveryReport;
use crate::soundness;
use crate::step;
use crate::step::Step;

verus! {

/// `count` logical blocks of a file from `start` on exchanged for fresh blocks with given
/// contents: the fresh and the displaced blocks are handed back.
pub open spec fn replace_step(
    disk: Disk,
    sb: Superblock,
    id: u64,
    start: int,
    count: int,
    images: Seq<Seq<u8>>,
    contiguous: bool,
) -> Step<(Seq<u64>, Seq<u64>, RecoveryReport)> {
    if count == 0 || images.len() == 0 || start + count > usize::MAX {
        step::stay(disk, Err(ErrorKind::InvalidInput))
    } else {
        match file_blocks::tables_on(disk, sb) {
            Err(kind) => step::stay(disk, Err(kind)),
            Ok((a, inodes)) => match file_blocks::file_index(inodes, id) {
                Err(kind) => step::stay(disk, Err(kind)),
                Ok(i) => if start + count > inodes[i].blocks.len() {
                    step::stay(disk, Err(ErrorKind::InvalidInput))
                } else {
                    file_blocks::splice_step(
                        disk,
                        sb,
                        a,
                        inodes,
                        i,
                        start,
                        start + count,
                        images,
                        contiguous,
                    )
                },
            },
        }
    }
}

/// Replaces a range of a regular file, by single blocks or by one contiguous run.
pub(crate) fn replace_blocks<D: BlockDevice>(
    device: &mut D,
    superblock: &Superblock,
    inode_id: u64,
    start: usize,
    remove_count: usize,
    replacements: &[[u8; BLOCK_SIZE]],
    contiguous: bool,
) -> (r: Result<(Vec<u64>, Vec<u64>, RecoveryReport), Error>)
    ensures
        journal_region::carried_out(
            old(device),
            final(device),
            *superblock,
            file_blocks::block_lists(r),
            replace_step(
                old(device).blocks(),
                *superblock,
                inode_id,
                start as int,
                remove_count as int,
                file_blocks::image_views(replacements@),
                contiguous,
            ),
        ),
        step::turned_away(
            old(device),
            final(device),
            file_blocks::block_lists(r),
            remove_count == 0 || replacements@.len() == 0 || start + remove_count > usize::MAX,
        ),
{
    broadcast use journal_region::group_atomic;

    if remove_count == 0 || replacements.is_empty() {
        return Err(
            invalid_input("block replacement requires non-empty removed and replacement ranges"),
        );
    }
    let end: usize = match start.checked_add(remove_count) {
        Some(end) => end,
        None => return Err(
            invalid_input("block replacement destination range overflows usize"),
        ),
    };
    let (allocator, inodes) = load_tables(device, superblock)?;
    let index: usize = find_file(inodes.as_slice(), inode_id)?;
    if end > inodes[index].blocks.len() {
        return Err(invalid_input("block replacement range exceeds existing logical blocks"));
    }
    splice_file(
        device,
        superblock,
        allocator,
        inodes,
        index,
        start,
        end,
        replacements,
        contiguous,
    )
}

/// Replaces a range of a regular file by blocks of given contents, as many or as few as there
/// are, as one transaction.
pub fn replace_file_blocks_journaled<D: BlockDevice>(
    device: &mut D,
    superblock: &Superblock,
    inode_id: u64,
    start: usize,
    remove_count: usize,
    replacements: &[[u8; BLOCK_SIZE]],
) -> (r: Result<(Vec<u64>, Vec<u64>, RecoveryReport), Error>)
    ensures
        journal_region::carried_out(
            old(device),
            final(device),
            *superblock,
            file_blocks::block_lists(r),
            replace_step(
                old(device).blocks(),
                *superblock,
                inode_id,
                start as int,
                remove_count as int,
                file_blocks::image_views(replacements@),
                false,
            ),
        ),
        step::turned_away(
            old(device),
            final(device),
            file_blocks::block_lists(r),
            remove_count == 0 || replacements@.len() == 0 || start + remove_count > usize::MAX,
        ),
{
    replace_blocks(device, superblock, inode_id, start, remove_count, replacements, false)
}

/// A range of a file that is replaced holds the new blocks, and nothing else changes.
pub proof fn law_replace(
    disk: Disk,
    sb: Superblock,
    id: u64,
    index: int,
    start: int,
    count: int,
    images: Seq<Seq<u8>>,
    contiguous: bool,
)
    requires
        soundness::sound_on(disk, sb),
        file_blocks::file_index(soundness::tables_of(disk, sb).inodes, id) == Ok::<int, ErrorKind>(
            index,
        ),
        forall|i: int| 0 <= i < images.len() ==> (#[trigger] images[i]).len() == BLOCK_SIZE,
        0 <= start,
        0 <= count,
        replace_step(disk, sb, id, start, count, images, contiguous).result is Ok,
    ensures
        ({
            let before = contents::images_of(disk, soundness::tables_of(disk, sb).inodes[index]);
            contents::rewritten(
                disk,
                replace_step(disk, sb, id, start, count, images, contiguous).disk,
                sb,
                index,
                before.subrange(0, start) + images + before.subrange(
                    start + count,
                    before.len() as int,
                ),
            )
        }),
        ({
            let step = replace_step(disk, sb, id, start, count, images, contiguous);
            let (fresh, gone, _) = step.result->Ok_0;
            &&& contents::exchanged_range(
                disk,
                step.disk,
                sb,
                index,
                start,
                start + count,
                images,
                fresh,
                gone,
            )
            &&& contiguous ==> path_contiguous_defrag::consecutive(fresh)
        }),
{
    soundness::lemma_sound_parts(disk, sb);
    file_blocks::lemma_index_from(soundness::tables_of(disk, sb).inodes, id, 0);
    contents::law_splice_lists(disk, sb, index, start, start + count, images, contiguous);
}



} // verus!
