//! Creating files of one contiguous run of blocks by path name.

use vstd::prelude::*;
use crate::block::{BlockDevice, BLOCK_SIZE};
use crate::error::Error;
use crate::file_blocks;
use crate::file_blocks::invalid_input;
use crate::format::Superblock;
use crate::inode::InodeKind;
use crate::journal_checkpoint;
use crate::journal_region;
use crate::path_create;
use crate::path_create::create_at_path;
use crate::recovery::RecoveryReport;
use crate::step;

verus! {

/// Creates a regular file at a path whose blocks form the lowest free run that is long enough, and
/// returns its identifier.
pub fn create_contiguous_file_with_blocks_at_path_journaled<D: BlockDevice>(device: &mut D, superblock: &Superblock, destination: &str, data: &[[u8; BLOCK_SIZE]]) -> (r: Result<(u64, RecoveryReport), Error>)
    ensures
        journal_region::carried_out(
            old(device),
            final(device),
            *superblock,
            step::kinded(r),
            path_create::create_file_at_step(
                old(device).blocks(),
                *superblock,
                destination@,
                file_blocks::image_views(data@),
                true,
            ),
        ),
        step::turned_away(
            old(device),
            final(device),
            step::kinded(r),
            data@.len() == 0 || path_create::destination_parts(destination@) is None,
        ),
{
    broadcast use journal_checkpoint::group_settled;

    if data.len() == 0 {
        return Err(invalid_input("contiguous file create requires at least one logical block"));
    }
    create_at_path(device, superblock, destination, InodeKind::File, data, true)
}

} // verus!
