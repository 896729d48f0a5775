//! Replacing a range of blocks of a file by one contiguous run.

use vstd::prelude::*;
use crate::block::{BlockDevice, BLOCK_SIZE};
use crate::error::Error;
use crate::file_blocks;
use crate::file_replace;
use crate::file_replace::replace_blocks;
use crate::format::Superblock;
use crate::journal_region;
use crate::recovery::RecoveryReport;
use crate::step;

verus! {

/// Replaces a range of a regular file by one contiguous run of blocks of given contents. The run
/// is taken while the displaced blocks are still in use, so that it never overlaps them.
pub fn replace_file_blocks_contiguous_journaled<D: BlockDevice>(
    device: &mut D,
    superblock: &Superblock,
    inode_id: u64,
    start: usize,
    remove_count: usize,
    replacements: &[[u8; BLOCK_SIZE]],
) -> (r: Result<(Vec<u64>, Vec<u64>, RecoveryReport), Error>)
    ensures
        journal_region::carried_out(
            old(device),
            final(device),
            *superblock,
            file_blocks::block_lists(r),
            file_replace::replace_step(
                old(device).blocks(),
                *superblock,
                inode_id,
                start as int,
                remove_count as int,
                file_blocks::image_views(replacements@),
                true,
            ),
        ),
        step::turned_away(
            old(device),
            final(device),
            file_blocks::block_lists(r),
            remove_count == 0 || replacements@.len() == 0 || start + remove_count > usize::MAX,
        ),
{
    replace_blocks(device, superblock, inode_id, start, remove_count, replacements, true)
}

} // verus!
