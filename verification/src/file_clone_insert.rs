//! Copying blocks of one file into another as fresh blocks.

use vstd::prelude::*;
use vstd::slice::*;
use crate::block::{BlockDevice, Disk};
use crate::contents;
use crate::error::{Error, ErrorKind};
use crate::file_blocks;
use crate::file_blocks::{find_inode, invalid_input, load_tables, snapshot_owned_blocks, splice_file};
use crate::format::Superblock;
use crate::inode::InodeKind;
use crate::inode_codec::InodeView;
use crate::inode_table;
use crate::journal_region;
use crate::recovery::RecoveryReport;
use crate::soundness;
use crate::step;
use crate::step::Step;

verus! {

/// The indices of two regular files; a missing inode and one of another kind are refused.
pub open spec fn file_pair(inodes: Seq<InodeView>, a: u64, b: u64) -> Option<(int, int)> {
    match (file_blocks::index_of(inodes, a), file_blocks::index_of(inodes, b)) {
        (Some(i), Some(j)) => if inodes[i].kind == InodeKind::File && inodes[j].kind
            == InodeKind::File {
            Some((i, j))
        } else {
            None
        },
        _ => None,
    }
}

/// `count` blocks of the source from `start` on copied into fresh blocks in front of logical block
/// `at` of the destination, which may be the same file.
pub open spec fn clone_insert_step(
    disk: Disk,
    sb: Superblock,
    source: u64,
    start: int,
    count: int,
    destination: u64,
    at: int,
) -> Step<(Seq<u64>, RecoveryReport)> {
    if count == 0 {
        step::stay(disk, Err(ErrorKind::InvalidInput))
    } else {
        match file_blocks::tables_on(disk, sb) {
            Err(kind) => step::stay(disk, Err(kind)),
            Ok((a, inodes)) => match file_pair(inodes, source, destination) {
                None => step::stay(disk, Err(ErrorKind::InvalidInput)),
                Some((s, d)) => if start + count > inodes[s].blocks.len() || at
                    > inodes[d].blocks.len() {
                    step::stay(disk, Err(ErrorKind::InvalidInput))
                } else {
                    match file_blocks::snapshot(
                        disk,
                        a,
                        inodes[s].blocks.subrange(start, start + count),
                    ) {
                        None => step::stay(disk, Err(ErrorKind::InvalidData)),
                        Some(images) => file_blocks::first_list(
                            file_blocks::splice_step(
                                disk,
                                sb,
                                a,
                                inodes,
                                d,
                                at,
                                at,
                                images,
                                false,
                            ),
                        ),
                    }
                },
            },
        }
    }
}

/// Finds two regular files by their identifiers.
pub(crate) fn find_file_pair(inodes: &[crate::inode_codec::PersistedInode], a: u64, b: u64) -> (r: Result<(usize, usize), Error>)
    ensures
        match r {
            Ok((i, j)) => {
                &&& i < inodes@.len()
                &&& j < inodes@.len()
                &&& file_pair(inode_table::inode_views(inodes@), a, b) == Some((i as int, j as int))
            },
            Err(e) => file_pair(inode_table::inode_views(inodes@), a, b) is None && e.kind
                == ErrorKind::InvalidInput,
        },
{
    let i: usize = match find_inode(inodes, a) {
        Some(i) => i,
        None => return Err(invalid_input("source inode is missing")),
    };
    let j: usize = match find_inode(inodes, b) {
        Some(j) => j,
        None => return Err(invalid_input("destination inode is missing")),
    };
    if inodes[i].kind != InodeKind::File || inodes[j].kind != InodeKind::File {
        return Err(invalid_input("source and destination must be regular files"));
    }
    Ok((i, j))
}

/// Copies a range of blocks of one regular file into fresh blocks of another, or of the same, as
/// one transaction. The source is read before anything changes.
pub fn clone_file_blocks_insert_journaled<D: BlockDevice>(
    device: &mut D,
    superblock: &Superblock,
    source_inode: u64,
    source_start: usize,
    block_count: usize,
    destination_inode: u64,
    destination_logical_index: usize,
) -> (r: Result<(Vec<u64>, RecoveryReport), Error>)
    ensures
        journal_region::carried_out(
            old(device),
            final(device),
            *superblock,
            file_blocks::block_list(r),
            clone_insert_step(
                old(device).blocks(),
                *superblock,
                source_inode,
                source_start as int,
                block_count as int,
                destination_inode,
                destination_logical_index as int,
            ),
        ),
        step::turned_away(
            old(device),
            final(device),
            file_blocks::block_list(r),
            block_count == 0,
        ),
{
    broadcast use journal_region::group_atomic;

    if block_count == 0 {
        return Err(invalid_input("clone insertion requires at least one source block"));
    }
    let (allocator, inodes) = load_tables(device, superblock)?;
    let (source_index, destination_index) = find_file_pair(
        inodes.as_slice(),
        source_inode,
        destination_inode,
    )?;
    assert(inodes[source_index as int].blocks.len() == inodes[source_index as int].blocks@.len());
    let source_end: usize = match source_start.checked_add(block_count) {
        Some(end) => end,
        None => return Err(invalid_input("clone source range overflows usize")),
    };
    if source_end > inodes[source_index].blocks.len() {
        return Err(invalid_input("clone source range exceeds existing logical blocks"));
    }
    if destination_logical_index > inodes[destination_index].blocks.len() {
        return Err(
            invalid_input("clone destination index exceeds existing logical block boundary"),
        );
    }
    let source_blocks: Vec<u64> = slice_to_vec(
        slice_subrange(inodes[source_index].blocks.as_slice(), source_start, source_end),
    );
    let snapshots = snapshot_owned_blocks(device, &allocator, source_blocks.as_slice())?;
    let (fresh, _displaced, report) = splice_file(
        device,
        superblock,
        allocator,
        inodes,
        destination_index,
        destination_logical_index,
        destination_logical_index,
        snapshots.as_slice(),
        false,
    )?;
    Ok((fresh, report))
}

/// Copies that are inserted hold what the source range holds, the source keeps it, and nothing else
/// changes.
pub proof fn law_clone_insert(
    disk: Disk,
    sb: Superblock,
    source: u64,
    start: int,
    count: int,
    destination: u64,
    at: int,
    s: int,
    d: int,
)
    requires
        soundness::sound_on(disk, sb),
        contents::full_blocks(disk),
        file_pair(soundness::tables_of(disk, sb).inodes, source, destination) == Some((s, d)),
        0 <= start,
        0 <= count,
        0 <= at,
        clone_insert_step(disk, sb, source, start, count, destination, at).result is Ok,
    ensures
        ({
            let t = soundness::tables_of(disk, sb);
            let x = contents::images_of(disk, t.inodes[s]);
            let y = contents::images_of(disk, t.inodes[d]);
            contents::rewritten(
                disk,
                clone_insert_step(disk, sb, source, start, count, destination, at).disk,
                sb,
                d,
                y.subrange(0, at) + x.subrange(start, start + count) + y.subrange(
                    at,
                    y.len() as int,
                ),
            )
        }),
        ({
            let step = clone_insert_step(disk, sb, source, start, count, destination, at);
            contents::exchanged_range(
                disk,
                step.disk,
                sb,
                d,
                at,
                at,
                contents::images_of(disk, soundness::tables_of(disk, sb).inodes[s]).subrange(
                    start,
                    start + count,
                ),
                step.result->Ok_0.0,
                Seq::empty(),
            )
        }),
{
    let t = soundness::tables_of(disk, sb);
    soundness::lemma_sound_parts(disk, sb);
    file_blocks::lemma_index_from(t.inodes, source, 0);
    file_blocks::lemma_index_from(t.inodes, destination, 0);
    let images = file_blocks::snapshot(
        disk,
        t.allocator,
        t.inodes[s].blocks.subrange(start, start + count),
    )->Some_0;
    contents::lemma_snapshot(disk, sb, s, start, start + count);
    contents::law_splice_lists(disk, sb, d, at, at, images, false);
    assert(t.inodes[d].blocks.subrange(at, at) =~= Seq::<u64>::empty());
}

} // verus!
