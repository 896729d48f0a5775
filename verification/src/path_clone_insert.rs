//! Inserting copies of blocks by path name.

use vstd::prelude::*;
use crate::block::{BlockDevice, Disk};
use crate::contents;
use crate::error::Error;
use crate::file_blocks;
use crate::file_clone_insert;
use crate::file_clone_insert::clone_file_blocks_insert_journaled;
use crate::format::Superblock;
use crate::journal_region;
use crate::path_lookup;
use crate::path_lookup::resolve_path_following_symlinks;
use crate::recovery::RecoveryReport;
use crate::soundness;
use crate::step::Step;

verus! {

/// A range of the file that a path names.
#[derive(Clone, Copy, Debug, PartialEq, Eq)]
pub struct PathCloneInsertRange<'a> {
    pub path: &'a str,
    pub start: usize,
    pub block_count: usize,
}

/// Copies of a range of one file inserted into another, both by path name.
pub open spec fn clone_insert_at_step(disk: Disk, sb: Superblock, source: PathCloneInsertRange<'_>, destination: Seq<char>, at: int) -> Step<(Seq<u64>, RecoveryReport)> {
    path_lookup::resolved_then(
        disk,
        sb,
        source.path@,
        |a: u64|
            path_lookup::resolved_then(disk, sb, destination, |b: u64| file_clone_insert::clone_insert_step(
                    disk,
                    sb,
                    a,
                    source.start as int,
                    source.block_count as int,
                    b,
                    at,
                )),
    )
}

/// Inserts fresh copies of a range of one file into another, or into the same, both named by paths.
pub fn clone_file_blocks_insert_at_path_journaled<D: BlockDevice>(
    device: &mut D,
    superblock: &Superblock,
    source: PathCloneInsertRange<'_>,
    destination_path: &str,
    destination_logical_index: usize,
) -> (r: Result<(Vec<u64>, RecoveryReport), Error>)
    ensures
        journal_region::carried_out(
            old(device),
            final(device),
            *superblock,
            file_blocks::block_list(r),
            clone_insert_at_step(
                old(device).blocks(),
                *superblock,
                source,
                destination_path@,
                destination_logical_index as int,
            ),
        ),
{
    broadcast use journal_region::group_atomic;

    let source_inode: u64 = resolve_path_following_symlinks(device, superblock, source.path)?;
    let destination_inode: u64 = resolve_path_following_symlinks(
        device,
        superblock,
        destination_path,
    )?;
    clone_file_blocks_insert_journaled(
        device,
        superblock,
        source_inode,
        source.start,
        source.block_count,
        destination_inode,
        destination_logical_index,
    )
}

/// Copies that are inserted at a path hold what the source range holds, in front of the block at which
/// they were inserted, in the file that the destination names; they are the blocks that are handed back.
/// The source keeps what it holds, nothing else changes, and the destination still names its file.
pub proof fn law_clone_insert_at_path(disk: Disk, sb: Superblock, source: PathCloneInsertRange<'_>, destination: Seq<char>, at: int)
    requires
        soundness::sound_on(disk, sb),
        contents::full_blocks(disk),
        0 <= at,
        clone_insert_at_step(disk, sb, source, destination, at).result is Ok,
    ensures
        ({
            let t = soundness::tables_of(disk, sb);
            let step = clone_insert_at_step(disk, sb, source, destination, at);
            &&& path_lookup::file_at(disk, sb, source.path@) matches Ok(s) && (path_lookup::file_at(disk, sb, destination) matches Ok(d) && ({
                contents::exchanged_range(
                    disk,
                    step.disk,
                    sb,
                    d,
                    at,
                    at,
                    contents::images_of(disk, t.inodes[s]).subrange(
                        source.start as int,
                        source.start + source.block_count,
                    ),
                    step.result->Ok_0.0,
                    Seq::empty(),
                )
            }))
            &&& path_lookup::resolved(step.disk, sb, destination, true) == path_lookup::resolved(
                disk,
                sb,
                destination,
                true,
            )
        }),
{
    let t = soundness::tables_of(disk, sb);
    let end = clone_insert_at_step(disk, sb, source, destination, at).disk;
    soundness::lemma_sound_parts(disk, sb);
    path_lookup::law_file_at(disk, sb, source.path@);
    let a = path_lookup::resolved(disk, sb, source.path@, true)->Ok_0;
    let s = file_blocks::file_index(t.inodes, a)->Ok_0;
    path_lookup::law_file_at(disk, sb, destination);
    let b = path_lookup::resolved(disk, sb, destination, true)->Ok_0;
    let d = file_blocks::file_index(t.inodes, b)->Ok_0;
    file_clone_insert::law_clone_insert(
        disk,
        sb,
        a,
        source.start as int,
        source.block_count as int,
        b,
        at,
        s,
        d,
    );
    path_lookup::law_same_paths(
        disk,
        end,
        sb,
        d,
        contents::images_of(end, soundness::tables_of(end, sb).inodes[d]),
        destination,
        true,
    );
}

} // verus!
