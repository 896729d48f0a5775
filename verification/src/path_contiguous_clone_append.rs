//! Appending contiguous copies of blocks by path name.

use vstd::prelude::*;
use crate::block;
use crate::block::{Block, BlockDevice, Disk, BLOCK_SIZE};
use crate::contents;
use crate::error::{Error, ErrorKind};
use crate::file_append_contiguous;
use crate::file_append_contiguous::append_file_blocks_contiguous_journaled;
use crate::file_blocks;
use crate::file_blocks::invalid_input;
use crate::file_data;
use crate::file_range_read;
use crate::file_range_read::read_file_range;
use crate::format::Superblock;
use crate::journal_checkpoint;
use crate::journal_checkpoint::recover_journal_and_checkpoint;
use crate::journal_region;
use crate::path_contiguous_defrag;
use crate::path_lookup;
use crate::path_lookup::resolve_path_following_symlinks;
use crate::recovery::RecoveryReport;
use crate::region;
use crate::region::cut_blocks;
use crate::soundness;
use crate::step;
use crate::step::Step;

verus! {

/// A range of the file that a path names.
#[derive(Clone, Copy, Debug, PartialEq, Eq)]
pub struct PathCloneAppendRange<'a> {
    pub path: &'a str,
    pub start: usize,
    pub block_count: usize,
}

/// The contents of `count` blocks of a file from `start` on, all before its end.
pub open spec fn clone_images(disk: Disk, sb: Superblock, id: u64, start: int, count: int) -> Result<Seq<Seq<u8>>, ErrorKind> {
    if count * BLOCK_SIZE > usize::MAX {
        Err(ErrorKind::InvalidInput)
    } else {
        match file_range_read::read_range(disk, sb, id, start, 0, count * BLOCK_SIZE) {
            Err(kind) => Err(kind),
            Ok(data) => Ok(region::chunks(data)),
        }
    }
}

/// Reads the contents of a range of blocks of a regular file.
pub(crate) fn read_clone_images<D: BlockDevice>(device: &mut D, superblock: &Superblock, inode_id: u64, start: usize, block_count: usize) -> (r: Result<Vec<Block>, Error>)
    ensures
        block::untouched(old(device), final(device)),
        match r {
            Ok(images) => clone_images(
                old(device).blocks(),
                *superblock,
                inode_id,
                start as int,
                block_count as int,
            ) == Ok::<Seq<Seq<u8>>, ErrorKind>(file_blocks::image_views(images@)),
            Err(e) => !old(device).healthy() || clone_images(
                old(device).blocks(),
                *superblock,
                inode_id,
                start as int,
                block_count as int,
            ) == Err::<Seq<Seq<u8>>, ErrorKind>(e.kind),
        },
{
    let byte_len: usize = match block_count.checked_mul(BLOCK_SIZE) {
        Some(n) => n,
        None => return Err(invalid_input("clone byte length overflow")),
    };
    let data = read_file_range(device, superblock, inode_id, start, 0, byte_len)?;
    let images = cut_blocks(data.as_slice());
    assert(file_blocks::image_views(images@) =~= region::chunks(data@));
    Ok(images)
}

/// Copies of a range of one file appended in one run to another, both by path name.
pub open spec fn clone_append_at_step(disk: Disk, sb: Superblock, source: PathCloneAppendRange<'_>, destination: Seq<char>) -> Step<(Seq<u64>, RecoveryReport)> {
    if source.block_count == 0 {
        step::stay(disk, Err(ErrorKind::InvalidInput))
    } else {
        journal_checkpoint::settled_then(
            disk,
            sb,
            |d: Disk|
                path_lookup::resolved_then(
                    d,
                    sb,
                    source.path@,
                    |a: u64|
                        path_lookup::resolved_then(
                            d,
                            sb,
                            destination,
                            |b: u64|
                                match clone_images(
                                    d,
                                    sb,
                                    a,
                                    source.start as int,
                                    source.block_count as int,
                                ) {
                                    Err(kind) => step::stay(d, Err(kind)),
                                    Ok(images) => file_append_contiguous::append_run_step(
                                        d,
                                        sb,
                                        b,
                                        images,
                                    ),
                                },
                        ),
                ),
        )
    }
}

/// Appends fresh copies of a range of one file in one contiguous run to another, or to the same,
/// both named by paths, once the journal is replayed and empty.
pub fn clone_file_blocks_contiguous_append_at_path_journaled<D: BlockDevice>(
    device: &mut D,
    superblock: &Superblock,
    source: PathCloneAppendRange<'_>,
    destination_path: &str,
) -> (r: Result<(Vec<u64>, RecoveryReport), Error>)
    ensures
        journal_region::carried_out(
            old(device),
            final(device),
            *superblock,
            file_blocks::block_list(r),
            clone_append_at_step(
                old(device).blocks(),
                *superblock,
                source,
                destination_path@,
            ),
        ),
        step::turned_away(
            old(device),
            final(device),
            file_blocks::block_list(r),
            source.block_count == 0,
        ),
{
    broadcast use journal_checkpoint::group_settled;

    if source.block_count == 0 {
        return Err(invalid_input("contiguous clone append requires at least one source block"));
    }
    recover_journal_and_checkpoint(device, *superblock)?;
    let source_inode: u64 = resolve_path_following_symlinks(device, superblock, source.path)?;
    let destination_inode: u64 = resolve_path_following_symlinks(
        device,
        superblock,
        destination_path,
    )?;
    let images = read_clone_images(
        device,
        superblock,
        source_inode,
        source.start,
        source.block_count,
    )?;
    append_file_blocks_contiguous_journaled(
        device,
        superblock,
        destination_inode,
        images.as_slice(),
    )
}

/// What is read for copies is what the source holds.
pub proof fn law_clone_images(disk: Disk, sb: Superblock, id: u64, index: int, start: int, count: int)
    requires
        soundness::sound_on(disk, sb),
        contents::full_blocks(disk),
        file_blocks::file_index(soundness::tables_of(disk, sb).inodes, id) == Ok::<int, ErrorKind>(
            index,
        ),
        0 <= start,
        0 <= count,
    ensures
        clone_images(disk, sb, id, start, count) matches Ok(images) ==> images
            == contents::images_of(disk, soundness::tables_of(disk, sb).inodes[index]).subrange(
            start,
            start + count,
        ) && images.len() == count && start + count <= soundness::tables_of(
            disk,
            sb,
        ).inodes[index].blocks.len() && forall|k: int|
            0 <= k < count ==> (#[trigger] images[k]).len() == BLOCK_SIZE,
{
    if let Ok(images) = clone_images(disk, sb, id, start, count) {
        let t = soundness::tables_of(disk, sb);
        let len = count * BLOCK_SIZE;
        let held = contents::images_of(disk, t.inodes[index]);
        soundness::lemma_sound_parts(disk, sb);
        file_range_read::lemma_range_blocks(disk, sb, id, index, start, 0, len, false);
        let blocks = file_range_read::range_blocks(disk, sb, id, start, 0, len, false)->Ok_0;
        let data = file_range_read::file_bytes(disk, blocks, 0, len as nat);
        assert(blocks.len() == count);
        assert(images.len() == count);
        assert forall|k: int| 0 <= k < count implies images[k] == held[start + k] by {
            let block = blocks[k];
            assert(t.allocator.owns(blocks[k]));
            assert(block == t.inodes[index].blocks[start + k]);
            assert(disk[block as int].len() == BLOCK_SIZE);
            assert(images[k] =~= disk[block as int]) by {
                assert forall|i: int| 0 <= i < BLOCK_SIZE implies images[k][i]
                    == disk[block as int][i] by {
                    let p = k * BLOCK_SIZE + i;
                    assert(images[k][i] == data[p]);
                    assert(p / (BLOCK_SIZE as int) == k && p % (BLOCK_SIZE as int) == i);
                }
            }
        }
        assert(images =~= held.subrange(start, start + count));
    }
}

/// Copies that are appended in one run at a path hold what the source range holds, behind what the file
/// held that the destination names; they are the blocks that are handed back, and each is the one after
/// its predecessor. The source keeps what it holds, nothing else changes, and the destination still
/// names its file. The device has to be sound once its journal is settled, which the request does first.
pub proof fn law_clone_append_at_path(disk: Disk, sb: Superblock, source: PathCloneAppendRange<'_>, destination: Seq<char>)
    requires
        soundness::sound_on(journal_checkpoint::settle_step(disk, sb).disk, sb),
        contents::full_blocks(journal_checkpoint::settle_step(disk, sb).disk),
        clone_append_at_step(disk, sb, source, destination).result is Ok,
    ensures
        ({
            let base = journal_checkpoint::settle_step(disk, sb).disk;
            let t = soundness::tables_of(base, sb);
            let step = clone_append_at_step(disk, sb, source, destination);
            &&& path_lookup::file_at(base, sb, source.path@) matches Ok(s) && (path_lookup::file_at(base, sb, destination) matches Ok(d) && ({
                let n = t.inodes[d].blocks.len() as int;
                &&& path_contiguous_defrag::consecutive(step.result->Ok_0.0)
                &&& contents::exchanged_range(
                    base,
                    step.disk,
                    sb,
                    d,
                    n,
                    n,
                    contents::images_of(base, t.inodes[s]).subrange(
                        source.start as int,
                        source.start + source.block_count,
                    ),
                    step.result->Ok_0.0,
                    Seq::empty(),
                )
            }))
            &&& path_lookup::resolved(step.disk, sb, destination, true) == path_lookup::resolved(
                base,
                sb,
                destination,
                true,
            )
        }),
{
    let base = journal_checkpoint::settle_step(disk, sb).disk;
    let t = soundness::tables_of(base, sb);
    let end = clone_append_at_step(disk, sb, source, destination).disk;
    soundness::lemma_sound_parts(base, sb);
    path_lookup::law_file_at(base, sb, source.path@);
    let a = path_lookup::resolved(base, sb, source.path@, true)->Ok_0;
    let s = file_blocks::file_index(t.inodes, a)->Ok_0;
    path_lookup::law_file_at(base, sb, destination);
    let b = path_lookup::resolved(base, sb, destination, true)->Ok_0;
    let d = file_blocks::file_index(t.inodes, b)->Ok_0;
    let (start, count) = (source.start as int, source.block_count as int);
    law_clone_images(base, sb, a, s, start, count);
    let images = clone_images(base, sb, a, start, count)->Ok_0;
    file_data::law_append(base, sb, b, d, images, true);
    path_lookup::law_same_paths(
        base,
        end,
        sb,
        d,
        contents::images_of(end, soundness::tables_of(end, sb).inodes[d]),
        destination,
        true,
    );
}

} // verus!
