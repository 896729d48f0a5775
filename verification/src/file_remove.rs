//! Removing one block from a file.

use vstd::prelude::*;
use crate::block::BlockDevice;
use crate::error::Error;
use crate::file_collapse;
use crate::file_collapse::collapse_file_block_range_journaled;
use crate::file_data;
use crate::format::Superblock;
use crate::journal_region;
use crate::recovery::RecoveryReport;
use crate::step;

verus! {

/// Removes one block from a regular file as one transaction and returns its storage block; what
/// follows moves forward by one.
pub fn remove_file_block_journaled<D: BlockDevice>(device: &mut D, superblock: &Superblock, inode_id: u64, remove_index: usize) -> (r: Result<(u64, RecoveryReport), Error>)
    ensures
        journal_region::carried_out(
            old(device),
            final(device),
            *superblock,
            step::kinded(r),
            file_data::single(
                file_collapse::collapse_step(
                    old(device).blocks(),
                    *superblock,
                    inode_id,
                    remove_index as int,
                    1,
                ),
            ),
        ),
{
    let (released, report) = collapse_file_block_range_journaled(
        device,
        superblock,
        inode_id,
        remove_index,
        1,
    )?;
    Ok((released[0], report))
}

} // verus!
