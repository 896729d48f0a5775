//! Copying byte ranges between files.

use vstd::prelude::*;
use crate::block::{BlockDevice, Disk, BLOCK_SIZE};
use crate::contents;
use crate::error::{Error, ErrorKind};
use crate::file_blocks;
use crate::file_range_read;
use crate::file_range_read::{read_file_range, write_file_range_journaled};
use crate::format::Superblock;
use crate::journal_region;
use crate::recovery::RecoveryReport;
use crate::soundness;
use crate::step;
use crate::step::Step;

verus! {

/// A position in a file.
#[derive(Clone, Copy, Debug, PartialEq, Eq, Structural)]
pub struct FileRangeEndpoint {
    pub inode: u64,
    pub first_block: usize,
    pub offset: usize,
}

/// `len` bytes read at one position and written at another. All of them are read before any is
/// written.
pub open spec fn copy_step(disk: Disk, sb: Superblock, source: FileRangeEndpoint, destination: FileRangeEndpoint, len: int) -> Step<RecoveryReport> {
    match file_range_read::read_range(
        disk,
        sb,
        source.inode,
        source.first_block as int,
        source.offset as int,
        len,
    ) {
        Err(kind) => step::stay(disk, Err(kind)),
        Ok(data) => file_range_read::write_range_step(
            disk,
            sb,
            destination.inode,
            destination.first_block as int,
            destination.offset as int,
            data,
        ),
    }
}

/// Copies bytes between positions of regular files as one transaction. The ranges may overlap.
pub fn copy_file_range_journaled<D: BlockDevice>(
    device: &mut D,
    superblock: &Superblock,
    source: FileRangeEndpoint,
    destination: FileRangeEndpoint,
    len: usize,
) -> (r: Result<RecoveryReport, Error>)
    ensures
        journal_region::carried_out(
            old(device),
            final(device),
            *superblock,
            step::kinded(r),
            copy_step(old(device).blocks(), *superblock, source, destination, len as int),
        ),
        step::turned_away(
            old(device),
            final(device),
            step::kinded(r),
            !file_range_read::proper_range(
                source.first_block as int,
                source.offset as int,
                len as int,
            ),
        ),
{
    broadcast use journal_region::group_atomic;

    let data = read_file_range(
        device,
        superblock,
        source.inode,
        source.first_block,
        source.offset,
        len,
    )?;
    write_file_range_journaled(
        device,
        superblock,
        destination.inode,
        destination.first_block,
        destination.offset,
        data.as_slice(),
    )
}

/// Bytes that are copied stand at their destination, and nothing else changes; all of them are read
/// before any is written.
pub proof fn law_copy(disk: Disk, sb: Superblock, source: FileRangeEndpoint, destination: FileRangeEndpoint, len: int, index: int)
    requires
        soundness::sound_on(disk, sb),
        file_blocks::file_index(soundness::tables_of(disk, sb).inodes, destination.inode) == Ok::<
            int,
            ErrorKind,
        >(index),
        copy_step(disk, sb, source, destination, len).result is Ok,
    ensures
        contents::rewritten(
            disk,
            copy_step(disk, sb, source, destination, len).disk,
            sb,
            index,
            file_range_read::images_with(
                contents::images_of(disk, soundness::tables_of(disk, sb).inodes[index]),
                destination.first_block as int,
                destination.offset as int,
                file_range_read::read_range(
                    disk,
                    sb,
                    source.inode,
                    source.first_block as int,
                    source.offset as int,
                    len,
                )->Ok_0,
            ),
        ),
{
    let data = file_range_read::read_range(
        disk,
        sb,
        source.inode,
        source.first_block as int,
        source.offset as int,
        len,
    )->Ok_0;
    file_range_read::law_write_range(
        disk,
        sb,
        destination.inode,
        index,
        destination.first_block as int,
        destination.offset as int,
        data,
    );
}

/// From the destination on, the destination's file holds the bytes that the source's file held from
/// the source on; every other byte of every file, and the length of every file, is as before.
pub proof fn law_copy_bytes(disk: Disk, sb: Superblock, source: FileRangeEndpoint, destination: FileRangeEndpoint, len: int)
    requires
        soundness::sound_on(disk, sb),
        copy_step(disk, sb, source, destination, len).result is Ok,
    ensures
        ({
            let t = soundness::tables_of(disk, sb);
            let end = copy_step(disk, sb, source, destination, len).disk;
            let from = source.first_block * BLOCK_SIZE + source.offset;
            let to = destination.first_block * BLOCK_SIZE + destination.offset;
            &&& soundness::tables_of(end, sb) == t
            &&& file_blocks::file_index(t.inodes, source.inode) matches Ok(a) && (
            file_blocks::file_index(t.inodes, destination.inode) matches Ok(b) && {
                &&& from + len <= t.inodes[a].byte_len
                &&& to + len <= t.inodes[b].blocks.len() * BLOCK_SIZE
                &&& contents::only_changed(disk, end, sb, b)
                &&& forall|p: int|
                    0 <= p < t.inodes[b].blocks.len() * BLOCK_SIZE ==> #[trigger] contents::byte_at(
                        end,
                        t.inodes[b],
                        p,
                    ) == if to <= p < to + len {
                        contents::byte_at(disk, t.inodes[a], from + (p - to))
                    } else {
                        contents::byte_at(disk, t.inodes[b], p)
                    }
            })
        }),
{
    let t = soundness::tables_of(disk, sb);
    let end = copy_step(disk, sb, source, destination, len).disk;
    let from = source.first_block * BLOCK_SIZE + source.offset;
    let to = destination.first_block * BLOCK_SIZE + destination.offset;
    let data = file_range_read::read_range(
        disk,
        sb,
        source.inode,
        source.first_block as int,
        source.offset as int,
        len,
    )->Ok_0;
    file_range_read::law_read_range(
        disk,
        sb,
        source.inode,
        source.first_block as int,
        source.offset as int,
        len,
    );
    file_range_read::law_write_bytes(
        disk,
        sb,
        destination.inode,
        destination.first_block as int,
        destination.offset as int,
        data,
    );
    let a = file_blocks::file_index(t.inodes, source.inode)->Ok_0;
    let b = file_blocks::file_index(t.inodes, destination.inode)->Ok_0;
    assert forall|p: int|
        0 <= p < t.inodes[b].blocks.len() * BLOCK_SIZE implies #[trigger] contents::byte_at(
        end,
        t.inodes[b],
        p,
    ) == if to <= p < to + len {
        contents::byte_at(disk, t.inodes[a], from + (p - to))
    } else {
        contents::byte_at(disk, t.inodes[b], p)
    } by {
        if to <= p < to + len {
            assert(data[p - to] == contents::byte_at(disk, t.inodes[a], from + (p - to)));
        }
    }
}

} // verus!
