//! Appending one contiguous run of blocks.

use vstd::prelude::*;
use crate::block::{BlockDevice, Disk, BLOCK_SIZE};
use crate::error::{Error, ErrorKind};
use crate::file_blocks;
use crate::file_blocks::invalid_input;
use crate::file_data;
use crate::file_data::append_blocks;
use crate::format::Superblock;
use crate::journal_region;
use crate::recovery::RecoveryReport;
use crate::step;
use crate::step::Step;

verus! {

/// The lowest run of free blocks that is long enough, appended to a file with given contents.
pub open spec fn append_run_step(disk: Disk, sb: Superblock, id: u64, images: Seq<Seq<u8>>) -> Step<(Seq<u64>, RecoveryReport)> {
    if images.len() == 0 {
        step::stay(disk, Err(ErrorKind::InvalidInput))
    } else {
        file_data::append_step(disk, sb, id, images, true)
    }
}

/// Appends blocks to a regular file in one contiguous run, as one transaction.
pub fn append_file_blocks_contiguous_journaled<D: BlockDevice>(
    device: &mut D,
    superblock: &Superblock,
    inode_id: u64,
    data_blocks: &[[u8; BLOCK_SIZE]],
) -> (r: Result<(Vec<u64>, RecoveryReport), Error>)
    ensures
        journal_region::carried_out(
            old(device),
            final(device),
            *superblock,
            file_blocks::block_list(r),
            append_run_step(
                old(device).blocks(),
                *superblock,
                inode_id,
                file_blocks::image_views(data_blocks@),
            ),
        ),
        step::turned_away(
            old(device),
            final(device),
            file_blocks::block_list(r),
            data_blocks@.len() == 0,
        ),
{
    broadcast use journal_region::group_atomic;

    if data_blocks.is_empty() {
        return Err(
            invalid_input("contiguous multi-block append requires at least one data block"),
        );
    }
    append_blocks(device, superblock, inode_id, data_blocks, true)
}

} // verus!
