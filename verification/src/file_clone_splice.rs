//! Replacing blocks of one file by copies of blocks of another.

use vstd::prelude::*;
use vstd::slice::*;
use crate::block::{BlockDevice, Disk};
use crate::contents;
use crate::error::{Error, ErrorKind};
use crate::file_blocks;
use crate::file_blocks::{invalid_input, load_tables, snapshot_owned_blocks, splice_file};
use crate::file_clone_insert;
use crate::file_clone_insert::find_file_pair;
use crate::format::Superblock;
use crate::inode_codec::{InodeView, PersistedInode};
use crate::inode_table;
use crate::journal_region;
use crate::recovery::RecoveryReport;
use crate::soundness;
use crate::step;
use crate::step::Step;

verus! {

/// A range of logical blocks of a file.
#[derive(Clone, Copy, Debug, PartialEq, Eq, Structural)]
pub struct FileBlockRange {
    pub inode: u64,
    pub start: usize,
    pub block_count: usize,
}

/// The indices of the two files, if the ranges are not empty, the files are distinct regular
/// files, and each range lies inside its file.
pub open spec fn range_pair(inodes: Seq<InodeView>, source: FileBlockRange, destination: FileBlockRange) -> Option<(int, int)> {
    if source.inode == destination.inode || source.block_count == 0 || destination.block_count
        == 0 {
        None
    } else {
        match file_clone_insert::file_pair(inodes, source.inode, destination.inode) {
            Some((s, d)) => if source.start + source.block_count <= inodes[s].blocks.len()
                && destination.start + destination.block_count <= inodes[d].blocks.len() {
                Some((s, d))
            } else {
                None
            },
            None => None,
        }
    }
}

/// The destination range exchanged for copies of the source range.
pub open spec fn clone_splice_step(disk: Disk, sb: Superblock, source: FileBlockRange, destination: FileBlockRange) -> Step<(Seq<u64>, Seq<u64>, RecoveryReport)> {
    match file_blocks::tables_on(disk, sb) {
        Err(kind) => step::stay(disk, Err(kind)),
        Ok((a, inodes)) => match range_pair(inodes, source, destination) {
            None => step::stay(disk, Err(ErrorKind::InvalidInput)),
            Some((s, d)) => match file_blocks::snapshot(
                disk,
                a,
                inodes[s].blocks.subrange(
                    source.start as int,
                    source.start + source.block_count,
                ),
            ) {
                None => step::stay(disk, Err(ErrorKind::InvalidData)),
                Some(images) => file_blocks::splice_step(
                    disk,
                    sb,
                    a,
                    inodes,
                    d,
                    destination.start as int,
                    destination.start + destination.block_count,
                    images,
                    false,
                ),
            },
        },
    }
}

fn range_end(range: FileBlockRange) -> (r: Result<usize, Error>)
    ensures
        match r {
            Ok(end) => range.block_count > 0 && end == range.start + range.block_count,
            Err(e) => (range.block_count == 0 || range.start + range.block_count > usize::MAX)
                && e.kind == ErrorKind::InvalidInput,
        },
{
    if range.block_count == 0 {
        return Err(
            invalid_input("clone splice requires non-empty source and destination ranges"),
        );
    }
    match range.start.checked_add(range.block_count) {
        Some(end) => Ok(end),
        None => Err(invalid_input("clone splice range overflows usize")),
    }
}

fn validate_ranges(inodes: &[PersistedInode], source: FileBlockRange, destination: FileBlockRange) -> (r: Result<(usize, usize, usize, usize), Error>)
    ensures
        match r {
            Ok((s, source_end, d, destination_end)) => {
                &&& s < inodes@.len()
                &&& d < inodes@.len()
                &&& range_pair(inode_table::inode_views(inodes@), source, destination) == Some(
                    (s as int, d as int),
                )
                &&& source_end == source.start + source.block_count
                &&& destination_end == destination.start + destination.block_count
            },
            Err(e) => range_pair(inode_table::inode_views(inodes@), source, destination) is None
                && e.kind == ErrorKind::InvalidInput,
        },
{
    if source.inode == destination.inode {
        return Err(
            invalid_input("clone splice requires distinct source and destination inodes"),
        );
    }
    proof {
        let views = inode_table::inode_views(inodes@);
        if let Some((s, d)) = file_clone_insert::file_pair(views, source.inode, destination.inode) {
            file_blocks::lemma_index_from(views, source.inode, 0);
            file_blocks::lemma_index_from(views, destination.inode, 0);
            assert(inodes@[s].blocks.len() == inodes@[s].blocks@.len());
            assert(inodes@[d].blocks.len() == inodes@[d].blocks@.len());
        }
    }
    let source_end: usize = range_end(source)?;
    let destination_end: usize = range_end(destination)?;
    let (s, d) = find_file_pair(inodes, source.inode, destination.inode)?;
    if source_end > inodes[s].blocks.len() {
        return Err(invalid_input("clone source range exceeds existing logical blocks"));
    }
    if destination_end > inodes[d].blocks.len() {
        return Err(invalid_input("clone destination range exceeds existing logical blocks"));
    }
    Ok((s, source_end, d, destination_end))
}

/// Replaces a range of one regular file by fresh copies of a range of another, as one
/// transaction. The source is read before anything changes, and the copies are taken before the
/// displaced blocks are released.
pub fn clone_file_blocks_splice_journaled<D: BlockDevice>(
    device: &mut D,
    superblock: &Superblock,
    source: FileBlockRange,
    destination: FileBlockRange,
) -> (r: Result<(Vec<u64>, Vec<u64>, RecoveryReport), Error>)
    ensures
        journal_region::carried_out(
            old(device),
            final(device),
            *superblock,
            file_blocks::block_lists(r),
            clone_splice_step(old(device).blocks(), *superblock, source, destination),
        ),
{
    broadcast use journal_region::group_atomic;

    let (allocator, inodes) = load_tables(device, superblock)?;
    let (source_index, source_end, destination_index, destination_end) = validate_ranges(
        inodes.as_slice(),
        source,
        destination,
    )?;
    let source_blocks: Vec<u64> = slice_to_vec(
        slice_subrange(inodes[source_index].blocks.as_slice(), source.start, source_end),
    );
    let snapshots = snapshot_owned_blocks(device, &allocator, source_blocks.as_slice())?;
    splice_file(
        device,
        superblock,
        allocator,
        inodes,
        destination_index,
        destination.start,
        destination_end,
        snapshots.as_slice(),
        false,
    )
}

/// Replaces a range of one regular file by fresh copies of a range of the same length of another.
pub fn clone_file_blocks_replace_journaled<D: BlockDevice>(
    device: &mut D,
    superblock: &Superblock,
    source_inode: u64,
    source_start: usize,
    block_count: usize,
    destination_inode: u64,
    destination_start: usize,
) -> (r: Result<(Vec<u64>, Vec<u64>, RecoveryReport), Error>)
    ensures
        journal_region::carried_out(
            old(device),
            final(device),
            *superblock,
            file_blocks::block_lists(r),
            clone_splice_step(
                old(device).blocks(),
                *superblock,
                (FileBlockRange { inode: source_inode, start: source_start, block_count }),
                (FileBlockRange { inode: destination_inode, start: destination_start, block_count }),
            ),
        ),
{
    clone_file_blocks_splice_journaled(
        device,
        superblock,
        FileBlockRange { inode: source_inode, start: source_start, block_count },
        FileBlockRange { inode: destination_inode, start: destination_start, block_count },
    )
}

/// A range that is exchanged for copies holds what the source range holds, the source keeps it, and
/// nothing else changes.
pub proof fn law_clone_splice(disk: Disk, sb: Superblock, source: FileBlockRange, destination: FileBlockRange, s: int, d: int)
    requires
        soundness::sound_on(disk, sb),
        contents::full_blocks(disk),
        range_pair(soundness::tables_of(disk, sb).inodes, source, destination) == Some((s, d)),
        clone_splice_step(disk, sb, source, destination).result is Ok,
    ensures
        ({
            let t = soundness::tables_of(disk, sb);
            let x = contents::images_of(disk, t.inodes[s]);
            let y = contents::images_of(disk, t.inodes[d]);
            contents::rewritten(
                disk,
                clone_splice_step(disk, sb, source, destination).disk,
                sb,
                d,
                y.subrange(0, destination.start as int) + x.subrange(
                    source.start as int,
                    source.start + source.block_count,
                ) + y.subrange(destination.start + destination.block_count, y.len() as int),
            )
        }),
        ({
            let step = clone_splice_step(disk, sb, source, destination);
            let (fresh, gone, _) = step.result->Ok_0;
            contents::exchanged_range(
                disk,
                step.disk,
                sb,
                d,
                destination.start as int,
                destination.start + destination.block_count,
                contents::images_of(disk, soundness::tables_of(disk, sb).inodes[s]).subrange(
                    source.start as int,
                    source.start + source.block_count,
                ),
                fresh,
                gone,
            )
        }),
{
    let t = soundness::tables_of(disk, sb);
    soundness::lemma_sound_parts(disk, sb);
    file_blocks::lemma_index_from(t.inodes, source.inode, 0);
    file_blocks::lemma_index_from(t.inodes, destination.inode, 0);
    let (from, to) = (source.start as int, source.start + source.block_count);
    let images = file_blocks::snapshot(
        disk,
        t.allocator,
        t.inodes[s].blocks.subrange(from, to),
    )->Some_0;
    contents::lemma_snapshot(disk, sb, s, from, to);
    contents::law_splice_lists(
        disk,
        sb,
        d,
        destination.start as int,
        destination.start + destination.block_count,
        images,
        false,
    );
}

} // verus!
