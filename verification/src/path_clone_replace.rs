//! Replacing ranges and whole files by copies of others, by path name.

use vstd::prelude::*;
use crate::allocation_disk::load_allocator;
use crate::allocation_disk;
use crate::block::{Block, BlockDevice, Disk};
use crate::block;
use crate::contents;
use crate::error::{Error, ErrorKind};
use crate::file_blocks;
use crate::file_blocks::{find_inode, invalid_data, invalid_input, snapshot_owned_blocks};
use crate::file_clone_splice;
use crate::file_clone_splice::{clone_file_blocks_replace_journaled, FileBlockRange};
use crate::format::Superblock;
use crate::inode::InodeKind;
use crate::inode_table::load_inode_table;
use crate::inode_table;
use crate::journal::EntryView;
use crate::journal_checkpoint;
use crate::journal_checkpoint::{
    recover_journal_and_checkpoint, recover_journal_and_checkpoint_checked,
};
use crate::journal_region;
use crate::path_file_write;
use crate::path_file_write::replace_file_at_path_journaled;
use crate::path_lookup;
use crate::path_lookup::resolve_path_following_symlinks;
use crate::recovery::RecoveryReport;
use crate::soundness;
use crate::step;
use crate::step::Step;

verus! {

/// A range of the file that a path names.
#[derive(Clone, Copy, Debug, PartialEq, Eq)]
pub struct PathCloneReplaceRange<'a> {
    pub path: &'a str,
    pub start: usize,
    pub block_count: usize,
}

/// A range of one file exchanged for copies of a range of the same length of another, both by
/// path name.
pub open spec fn clone_replace_at_step(disk: Disk, sb: Superblock, source: PathCloneReplaceRange<'_>, destination: Seq<char>, start: usize) -> Step<(Seq<u64>, Seq<u64>, RecoveryReport)> {
    journal_checkpoint::settled_then(
        disk,
        sb,
        |d: Disk|
            path_lookup::resolved_then(
                d,
                sb,
                source.path@,
                |a: u64|
                    path_lookup::resolved_then(
                        d,
                        sb,
                        destination,
                        |b: u64|
                            file_clone_splice::clone_splice_step(
                                d,
                                sb,
                                FileBlockRange {
                                    inode: a,
                                    start: source.start,
                                    block_count: source.block_count,
                                },
                                FileBlockRange { inode: b, start, block_count: source.block_count },
                            ),
                    ),
            ),
    )
}

/// Replaces a range of one file by fresh copies of a range of another, both named by paths, once
/// the journal is replayed and empty.
pub fn clone_file_blocks_replace_at_path_journaled<D: BlockDevice>(
    device: &mut D,
    superblock: &Superblock,
    source: PathCloneReplaceRange<'_>,
    destination_path: &str,
    destination_start: usize,
) -> (r: Result<(Vec<u64>, Vec<u64>, RecoveryReport), Error>)
    ensures
        journal_region::carried_out(
            old(device),
            final(device),
            *superblock,
            file_blocks::block_lists(r),
            clone_replace_at_step(
                old(device).blocks(),
                *superblock,
                source,
                destination_path@,
                destination_start,
            ),
        ),
{
    broadcast use journal_checkpoint::group_settled;

    recover_journal_and_checkpoint(device, *superblock)?;
    let source_inode: u64 = resolve_path_following_symlinks(device, superblock, source.path)?;
    let destination_inode: u64 = resolve_path_following_symlinks(
        device,
        superblock,
        destination_path,
    )?;
    clone_file_blocks_replace_journaled(
        device,
        superblock,
        source_inode,
        source.start,
        source.block_count,
        destination_inode,
        destination_start,
    )
}

/// The contents of every logical block of a file, or how it is refused.
pub open spec fn whole_images(disk: Disk, sb: Superblock, id: u64) -> Result<Seq<Seq<u8>>, ErrorKind> {
    match inode_table::inodes_on(disk, sb) {
        Err(kind) => Err(kind),
        Ok(inodes) => match file_blocks::index_of(inodes, id) {
            None => Err(ErrorKind::InvalidData),
            Some(i) => if inodes[i].kind != InodeKind::File {
                Err(ErrorKind::InvalidInput)
            } else if inodes[i].blocks.len() == 0 {
                Ok(Seq::empty())
            } else {
                match allocation_disk::allocator_on(disk, sb) {
                    Err(kind) => Err(kind),
                    Ok(a) => match file_blocks::snapshot(disk, a, inodes[i].blocks) {
                        None => Err(ErrorKind::InvalidData),
                        Some(images) => Ok(images),
                    },
                }
            },
        },
    }
}

/// The contents of every logical block of the file that a path names.
pub open spec fn images_at_step(disk: Disk, sb: Superblock, path: Seq<char>) -> Step<Seq<Seq<u8>>> {
    journal_checkpoint::checked_then(
        disk,
        sb,
        |d: Disk|
            path_lookup::resolved_then(d, sb, path, |id: u64| step::stay(d, whole_images(d, sb, id))),
    )
}

/// All blocks of one file exchanged for copies of all logical blocks of another, whether its last
/// one is full or not.
pub open spec fn clone_whole_step(disk: Disk, sb: Superblock, source: Seq<char>, destination: Seq<char>) -> Step<RecoveryReport> {
    let s = images_at_step(disk, sb, source);
    match s.result {
        Err(kind) => Step { disk: s.disk, result: Err(kind) },
        Ok(images) => path_file_write::replace_at_step(s.disk, sb, destination, images),
    }
}

/// All blocks of one file exchanged for copies of those of another, both by path name.
pub open spec fn clone_over_step(disk: Disk, sb: Superblock, source: Seq<char>, destination: Seq<char>) -> Step<RecoveryReport> {
    journal_checkpoint::settled_then(
        disk,
        sb,
        |d: Disk|
            path_lookup::resolved_then(
                d,
                sb,
                source,
                |a: u64|
                    path_lookup::resolved_then(
                        d,
                        sb,
                        destination,
                        |b: u64|
                            if a == b {
                                step::stay(d, Err(ErrorKind::InvalidInput))
                            } else {
                                clone_whole_step(d, sb, source, destination)
                            },
                    ),
            ),
    )
}

/// Exchanges all blocks of one regular file for fresh copies of those of another, both named by
/// paths, once the journal is replayed and empty. Every logical block of the source is copied,
/// whether its last one is full or not.
pub fn clone_file_to_existing_path_journaled<D: BlockDevice>(device: &mut D, superblock: &Superblock, source_path: &str, destination_path: &str) -> (r: Result<RecoveryReport, Error>)
    ensures
        journal_region::carried_out(
            old(device),
            final(device),
            *superblock,
            step::kinded(r),
            clone_over_step(
                old(device).blocks(),
                *superblock,
                source_path@,
                destination_path@,
            ),
        ),
{
    broadcast use journal_checkpoint::group_settled;

    recover_journal_and_checkpoint(device, *superblock)?;
    let source_inode: u64 = resolve_path_following_symlinks(device, superblock, source_path)?;
    let destination_inode: u64 = resolve_path_following_symlinks(
        device,
        superblock,
        destination_path,
    )?;
    if source_inode == destination_inode {
        return Err(
            invalid_input(
                "whole-file clone replacement requires distinct source and destination inodes",
            ),
        );
    }
    clone_whole(device, superblock, source_path, destination_path)
}

/// Reads every logical block of a regular file.
fn read_whole_images<D: BlockDevice>(device: &mut D, superblock: &Superblock, inode_id: u64) -> (r: Result<Vec<Block>, Error>)
    ensures
        block::untouched(old(device), final(device)),
        match r {
            Ok(images) => whole_images(old(device).blocks(), *superblock, inode_id) == Ok::<
                Seq<Seq<u8>>,
                ErrorKind,
            >(file_blocks::image_views(images@)),
            Err(e) => !old(device).healthy() || whole_images(
                old(device).blocks(),
                *superblock,
                inode_id,
            ) == Err::<Seq<Seq<u8>>, ErrorKind>(e.kind),
        },
{
    let inodes = load_inode_table(device, superblock)?;
    let index: usize = match find_inode(inodes.as_slice(), inode_id) {
        Some(i) => i,
        None => return Err(invalid_data("resolved inode is missing")),
    };
    if inodes[index].kind != InodeKind::File {
        return Err(invalid_input("resolved pathname is not a regular file"));
    }
    if inodes[index].blocks.len() == 0 {
        let none: Vec<Block> = Vec::new();
        assert(file_blocks::image_views(none@) =~= Seq::<Seq<u8>>::empty());
        return Ok(none);
    }
    let allocator = load_allocator(device, superblock)?;
    snapshot_owned_blocks(device, &allocator, inodes[index].blocks.as_slice())
}

fn clone_whole<D: BlockDevice>(device: &mut D, superblock: &Superblock, source_path: &str, destination_path: &str) -> (r: Result<RecoveryReport, Error>)
    requires
        old(device).blocks().len() > 0,
    ensures
        journal_region::carried_out(
            old(device),
            final(device),
            *superblock,
            step::kinded(r),
            clone_whole_step(
                old(device).blocks(),
                *superblock,
                source_path@,
                destination_path@,
            ),
        ),
{
    broadcast use journal_checkpoint::group_settled;

    recover_journal_and_checkpoint_checked(device, *superblock)?;
    let source_inode: u64 = resolve_path_following_symlinks(device, superblock, source_path)?;
    let images = read_whole_images(device, superblock, source_inode)?;
    replace_file_at_path_journaled(device, superblock, destination_path, images.as_slice())
}

/// After a whole file was cloned over another, that one holds the contents of all logical blocks of
/// the source, the source keeps its own, and nothing else changes.
pub proof fn law_clone_over(disk: Disk, sb: Superblock, source: Seq<char>, destination: Seq<char>, s: int, d: int)
    requires
        soundness::sound_on(disk, sb),
        contents::full_blocks(disk),
        journal_region::image_on(disk, sb) == Ok::<Seq<EntryView>, ErrorKind>(Seq::empty()),
        path_lookup::resolved(disk, sb, source, true) matches Ok(a) && file_blocks::index_of(
            soundness::tables_of(disk, sb).inodes,
            a,
        ) == Some(s),
        path_lookup::resolved(disk, sb, destination, true) matches Ok(b) && file_blocks::index_of(
            soundness::tables_of(disk, sb).inodes,
            b,
        ) == Some(d),
        clone_over_step(disk, sb, source, destination).result is Ok,
    ensures
        contents::rewritten(
            disk,
            clone_over_step(disk, sb, source, destination).disk,
            sb,
            d,
            contents::images_of(disk, soundness::tables_of(disk, sb).inodes[s]),
        ),
{
    let t = soundness::tables_of(disk, sb);
    let b = path_lookup::resolved(disk, sb, destination, true)->Ok_0;
    soundness::lemma_sound_parts(disk, sb);
    reveal(journal_checkpoint::settle_step);
    reveal(journal_checkpoint::checked_settle_step);
    let a = path_lookup::resolved(disk, sb, source, true)->Ok_0;
    file_blocks::lemma_index_from(t.inodes, a, 0);
    file_blocks::lemma_index_from(t.inodes, b, 0);
    let images = whole_images(disk, sb, a)->Ok_0;
    let held = contents::images_of(disk, t.inodes[s]);
    let blocks = t.inodes[s].blocks;
    if blocks.len() == 0 {
        assert(images =~= held);
    } else {
        assert(blocks.subrange(0, blocks.len() as int) =~= blocks);
        assert(held.subrange(0, held.len() as int) =~= held);
        contents::lemma_snapshot(disk, sb, s, 0, blocks.len() as int);
    }
    path_file_write::law_replace_whole(disk, sb, b, d, images);
}

/// A range that is exchanged at a path for copies holds what the source range holds, in the file that the
/// destination names. The blocks that the range has now and those that it had are handed back. The
/// source keeps what it holds, nothing else changes, and the destination still names its file. The
/// device has to be sound once its journal is settled, which the request does first.
pub proof fn law_clone_replace_at_path(disk: Disk, sb: Superblock, source: PathCloneReplaceRange<'_>, destination: Seq<char>, start: usize)
    requires
        soundness::sound_on(journal_checkpoint::settle_step(disk, sb).disk, sb),
        contents::full_blocks(journal_checkpoint::settle_step(disk, sb).disk),
        clone_replace_at_step(disk, sb, source, destination, start).result is Ok,
    ensures
        ({
            let base = journal_checkpoint::settle_step(disk, sb).disk;
            let t = soundness::tables_of(base, sb);
            let step = clone_replace_at_step(disk, sb, source, destination, start);
            &&& path_lookup::file_at(base, sb, source.path@) matches Ok(s) && (path_lookup::file_at(base, sb, destination) matches Ok(d) && ({
                let (fresh, gone, _) = step.result->Ok_0;
                &&& s != d
                &&& contents::exchanged_range(
                    base,
                    step.disk,
                    sb,
                    d,
                    start as int,
                    start + source.block_count,
                    contents::images_of(base, t.inodes[s]).subrange(
                        source.start as int,
                        source.start + source.block_count,
                    ),
                    fresh,
                    gone,
                )
            }))
            &&& path_lookup::resolved(step.disk, sb, destination, true) == path_lookup::resolved(
                base,
                sb,
                destination,
                true,
            )
        }),
{
    let base = journal_checkpoint::settle_step(disk, sb).disk;
    let t = soundness::tables_of(base, sb);
    let end = clone_replace_at_step(disk, sb, source, destination, start).disk;
    soundness::lemma_sound_parts(base, sb);
    path_lookup::law_file_at(base, sb, source.path@);
    let a = path_lookup::resolved(base, sb, source.path@, true)->Ok_0;
    let s = file_blocks::file_index(t.inodes, a)->Ok_0;
    path_lookup::law_file_at(base, sb, destination);
    let b = path_lookup::resolved(base, sb, destination, true)->Ok_0;
    let d = file_blocks::file_index(t.inodes, b)->Ok_0;
    file_clone_splice::law_clone_splice(
        base,
        sb,
        FileBlockRange { inode: a, start: source.start, block_count: source.block_count },
        FileBlockRange { inode: b, start, block_count: source.block_count },
        s,
        d,
    );
    path_lookup::law_same_paths(
        base,
        end,
        sb,
        d,
        contents::images_of(end, soundness::tables_of(end, sb).inodes[d]),
        destination,
        true,
    );
}

/// The same at paths: the file that the destination names holds the contents of all logical blocks of
/// the one that the source names, which is another file and keeps its own. Nothing else changes. The
/// device has to be sound once its journal is settled, which the request does first.
pub proof fn law_clone_over_at_path(disk: Disk, sb: Superblock, source: Seq<char>, destination: Seq<char>)
    requires
        soundness::sound_on(journal_checkpoint::settle_step(disk, sb).disk, sb),
        contents::full_blocks(journal_checkpoint::settle_step(disk, sb).disk),
        clone_over_step(disk, sb, source, destination).result is Ok,
    ensures
        ({
            let base = journal_checkpoint::settle_step(disk, sb).disk;
            path_lookup::file_at(base, sb, source) matches Ok(s) && (path_lookup::file_at(
                base,
                sb,
                destination,
            ) matches Ok(d) && s != d && contents::rewritten(
                base,
                clone_over_step(disk, sb, source, destination).disk,
                sb,
                d,
                contents::images_of(base, soundness::tables_of(base, sb).inodes[s]),
            ))
        }),
{
    let base = journal_checkpoint::settle_step(disk, sb).disk;
    let t = soundness::tables_of(base, sb);
    soundness::lemma_sound_parts(base, sb);
    assert(journal_region::image_on(disk, sb) is Ok) by {
        reveal(journal_checkpoint::settle_step);
    }
    journal_checkpoint::law_settle_keeps_home(disk, sb);
    journal_checkpoint::lemma_settled_already(base, sb);
    reveal(journal_checkpoint::checked_settle_step);
    let a = path_lookup::resolved(base, sb, source, true)->Ok_0;
    let b = path_lookup::resolved(base, sb, destination, true)->Ok_0;
    file_blocks::lemma_index_from(t.inodes, a, 0);
    file_blocks::lemma_index_from(t.inodes, b, 0);
    let s = file_blocks::index_of(t.inodes, a)->Some_0;
    let d = file_blocks::index_of(t.inodes, b)->Some_0;
    law_clone_over(base, sb, source, destination, s, d);
}

} // verus!
