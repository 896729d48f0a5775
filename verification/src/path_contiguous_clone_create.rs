//! Creating contiguous files that hold copies of blocks of others, by path name.

use vstd::prelude::*;
use crate::block::{BlockDevice, BLOCK_SIZE};
use crate::error::Error;
use crate::file_blocks::invalid_input;
use crate::format::Superblock;
use crate::journal_checkpoint;
use crate::journal_checkpoint::recover_journal_and_checkpoint;
use crate::journal_region;
use crate::path_clone_create;
use crate::path_contiguous_clone_append::read_clone_images;
use crate::path_contiguous_create::create_contiguous_file_with_blocks_at_path_journaled;
use crate::path_lookup::resolve_path_following_symlinks;
use crate::recovery::RecoveryReport;
use crate::step;

verus! {

/// Creates a regular file at a path that holds copies of a range of blocks of another in one run.
pub fn clone_file_blocks_contiguous_to_path_journaled<D: BlockDevice>(
    device: &mut D,
    superblock: &Superblock,
    source: &str,
    source_first_block: usize,
    block_count: usize,
    destination: &str,
) -> (r: Result<(u64, RecoveryReport), Error>)
    ensures
        journal_region::carried_out(
            old(device),
            final(device),
            *superblock,
            step::kinded(r),
            path_clone_create::clone_create_step(
                old(device).blocks(),
                *superblock,
                source@,
                source_first_block as int,
                block_count as int,
                destination@,
                true,
            ),
        ),
        step::turned_away(
            old(device),
            final(device),
            step::kinded(r),
            block_count == 0 || block_count * BLOCK_SIZE > usize::MAX,
        ),
{
    broadcast use journal_checkpoint::group_settled;

    if block_count == 0 || block_count.checked_mul(BLOCK_SIZE).is_none() {
        return Err(invalid_input("clone requires a non-empty range of logical blocks"));
    }
    recover_journal_and_checkpoint(device, *superblock)?;
    let source_inode: u64 = resolve_path_following_symlinks(device, superblock, source)?;
    let images = read_clone_images(
        device,
        superblock,
        source_inode,
        source_first_block,
        block_count,
    )?;
    create_contiguous_file_with_blocks_at_path_journaled(device, superblock, destination, images.as_slice())
}

} // verus!
