//! Replacing ranges by contiguous copies of others, by path name.

use vstd::prelude::*;
use crate::block::{BlockDevice, Disk};
use crate::contents;
use crate::error::{Error, ErrorKind};
use crate::file_blocks;
use crate::file_blocks::invalid_input;
use crate::file_replace;
use crate::file_replace_contiguous::replace_file_blocks_contiguous_journaled;
use crate::format::Superblock;
use crate::journal_checkpoint;
use crate::journal_checkpoint::recover_journal_and_checkpoint;
use crate::journal_region;
use crate::path_clone_replace::PathCloneReplaceRange;
use crate::path_clone_splice::PathCloneSpliceRange;
use crate::path_contiguous_clone_append;
use crate::path_contiguous_clone_append::read_clone_images;
use crate::path_contiguous_defrag;
use crate::path_lookup;
use crate::path_lookup::resolve_path_following_symlinks;
use crate::recovery::RecoveryReport;
use crate::soundness;
use crate::step;
use crate::step::Step;

verus! {

/// `remove` blocks of one file from `at` on exchanged for one run of copies of `count` blocks of
/// another from `start` on, both by path name.
pub open spec fn clone_run_at_step(
    disk: Disk,
    sb: Superblock,
    source: Seq<char>,
    start: int,
    count: int,
    destination: Seq<char>,
    at: int,
    remove: int,
) -> Step<(Seq<u64>, Seq<u64>, RecoveryReport)> {
    if count == 0 || remove == 0 {
        step::stay(disk, Err(ErrorKind::InvalidInput))
    } else {
        journal_checkpoint::settled_then(
            disk,
            sb,
            |d: Disk|
                path_lookup::resolved_then(
                    d,
                    sb,
                    source,
                    |a: u64|
                        path_lookup::resolved_then(
                            d,
                            sb,
                            destination,
                            |b: u64|
                                if a == b {
                                    step::stay(d, Err(ErrorKind::InvalidInput))
                                } else {
                                    match path_contiguous_clone_append::clone_images(
                                        d,
                                        sb,
                                        a,
                                        start,
                                        count,
                                    ) {
                                        Err(kind) => step::stay(d, Err(kind)),
                                        Ok(images) => file_replace::replace_step(
                                            d,
                                            sb,
                                            b,
                                            at,
                                            remove,
                                            images,
                                            true,
                                        ),
                                    }
                                },
                        ),
                ),
        )
    }
}

fn clone_run_at_path<D: BlockDevice>(
    device: &mut D,
    superblock: &Superblock,
    source_path: &str,
    source_start: usize,
    block_count: usize,
    destination_path: &str,
    destination_start: usize,
    remove_count: usize,
) -> (r: Result<(Vec<u64>, Vec<u64>, RecoveryReport), Error>)
    ensures
        journal_region::carried_out(
            old(device),
            final(device),
            *superblock,
            file_blocks::block_lists(r),
            clone_run_at_step(
                old(device).blocks(),
                *superblock,
                source_path@,
                source_start as int,
                block_count as int,
                destination_path@,
                destination_start as int,
                remove_count as int,
            ),
        ),
        step::turned_away(
            old(device),
            final(device),
            file_blocks::block_lists(r),
            block_count == 0 || remove_count == 0,
        ),
{
    broadcast use journal_checkpoint::group_settled;

    if block_count == 0 || remove_count == 0 {
        return Err(
            invalid_input("contiguous clone requires non-empty source and destination ranges"),
        );
    }
    recover_journal_and_checkpoint(device, *superblock)?;
    let source_inode: u64 = resolve_path_following_symlinks(device, superblock, source_path)?;
    let destination_inode: u64 = resolve_path_following_symlinks(
        device,
        superblock,
        destination_path,
    )?;
    if source_inode == destination_inode {
        return Err(
            invalid_input("contiguous clone requires distinct source and destination inodes"),
        );
    }
    let images = read_clone_images(device, superblock, source_inode, source_start, block_count)?;
    replace_file_blocks_contiguous_journaled(
        device,
        superblock,
        destination_inode,
        destination_start,
        remove_count,
        images.as_slice(),
    )
}

/// Replaces a range of one file by one contiguous run of copies of a range of the same length of
/// another, both named by paths, once the journal is replayed and empty.
pub fn clone_file_blocks_contiguous_replace_at_path_journaled<D: BlockDevice>(
    device: &mut D,
    superblock: &Superblock,
    source: PathCloneReplaceRange<'_>,
    destination_path: &str,
    destination_start: usize,
) -> (r: Result<(Vec<u64>, Vec<u64>, RecoveryReport), Error>)
    ensures
        journal_region::carried_out(
            old(device),
            final(device),
            *superblock,
            file_blocks::block_lists(r),
            clone_run_at_step(
                old(device).blocks(),
                *superblock,
                source.path@,
                source.start as int,
                source.block_count as int,
                destination_path@,
                destination_start as int,
                source.block_count as int,
            ),
        ),
        step::turned_away(
            old(device),
            final(device),
            file_blocks::block_lists(r),
            source.block_count == 0,
        ),
{
    clone_run_at_path(
        device,
        superblock,
        source.path,
        source.start,
        source.block_count,
        destination_path,
        destination_start,
        source.block_count,
    )
}

/// Replaces a range of one file by one contiguous run of copies of a range of any length of
/// another, both named by paths, once the journal is replayed and empty.
pub fn clone_file_blocks_contiguous_splice_at_path_journaled<D: BlockDevice>(
    device: &mut D,
    superblock: &Superblock,
    source: PathCloneSpliceRange<'_>,
    destination: PathCloneSpliceRange<'_>,
) -> (r: Result<(Vec<u64>, Vec<u64>, RecoveryReport), Error>)
    ensures
        journal_region::carried_out(
            old(device),
            final(device),
            *superblock,
            file_blocks::block_lists(r),
            clone_run_at_step(
                old(device).blocks(),
                *superblock,
                source.path@,
                source.start as int,
                source.block_count as int,
                destination.path@,
                destination.start as int,
                destination.block_count as int,
            ),
        ),
        step::turned_away(
            old(device),
            final(device),
            file_blocks::block_lists(r),
            source.block_count == 0 || destination.block_count == 0,
        ),
{
    clone_run_at_path(
        device,
        superblock,
        source.path,
        source.start,
        source.block_count,
        destination.path,
        destination.start,
        destination.block_count,
    )
}

/// A range that is exchanged at a path for one run of copies holds what the source range holds, in the
/// file that the destination names. The blocks that the range has now, each the one after its
/// predecessor, and those that it had are handed back. The source keeps what it holds, nothing else
/// changes, and the destination still names its file. The device has to be sound once its journal is
/// settled, which the request does first.
pub proof fn law_clone_run_at_path(disk: Disk, sb: Superblock, source: Seq<char>, start: int, count: int, destination: Seq<char>, at: int, remove: int)
    requires
        soundness::sound_on(journal_checkpoint::settle_step(disk, sb).disk, sb),
        contents::full_blocks(journal_checkpoint::settle_step(disk, sb).disk),
        0 <= start,
        0 <= count,
        0 <= at,
        0 <= remove,
        clone_run_at_step(disk, sb, source, start, count, destination, at, remove).result is Ok,
    ensures
        ({
            let base = journal_checkpoint::settle_step(disk, sb).disk;
            let t = soundness::tables_of(base, sb);
            let step = clone_run_at_step(disk, sb, source, start, count, destination, at, remove);
            &&& path_lookup::file_at(base, sb, source) matches Ok(s) && (path_lookup::file_at(base, sb, destination) matches Ok(d) && ({
                let (fresh, gone, _) = step.result->Ok_0;
                &&& s != d
                &&& path_contiguous_defrag::consecutive(fresh)
                &&& contents::exchanged_range(
                    base,
                    step.disk,
                    sb,
                    d,
                    at,
                    at + remove,
                    contents::images_of(base, t.inodes[s]).subrange(start, start + count),
                    fresh,
                    gone,
                )
            }))
            &&& path_lookup::resolved(step.disk, sb, destination, true) == path_lookup::resolved(
                base,
                sb,
                destination,
                true,
            )
        }),
{
    let base = journal_checkpoint::settle_step(disk, sb).disk;
    let t = soundness::tables_of(base, sb);
    let end = clone_run_at_step(disk, sb, source, start, count, destination, at, remove).disk;
    soundness::lemma_sound_parts(base, sb);
    path_lookup::law_file_at(base, sb, source);
    let a = path_lookup::resolved(base, sb, source, true)->Ok_0;
    let s = file_blocks::file_index(t.inodes, a)->Ok_0;
    path_lookup::law_file_at(base, sb, destination);
    let b = path_lookup::resolved(base, sb, destination, true)->Ok_0;
    let d = file_blocks::file_index(t.inodes, b)->Ok_0;
    path_contiguous_clone_append::law_clone_images(base, sb, a, s, start, count);
    let images = path_contiguous_clone_append::clone_images(base, sb, a, start, count)->Ok_0;
    file_replace::law_replace(base, sb, b, d, at, remove, images, true);
    path_lookup::law_same_paths(
        base,
        end,
        sb,
        d,
        contents::images_of(end, soundness::tables_of(end, sb).inodes[d]),
        destination,
        true,
    );
}

} // verus!
