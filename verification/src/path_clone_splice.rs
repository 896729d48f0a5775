//! Replacing ranges by copies of ranges of any length, by path name.

use vstd::prelude::*;
use crate::block::{BlockDevice, Disk};
use crate::contents;
use crate::error::Error;
use crate::file_blocks;
use crate::file_clone_splice;
use crate::file_clone_splice::{clone_file_blocks_splice_journaled, FileBlockRange};
use crate::format::Superblock;
use crate::journal_checkpoint;
use crate::journal_checkpoint::recover_journal_and_checkpoint;
use crate::journal_region;
use crate::path_lookup;
use crate::path_lookup::resolve_path_following_symlinks;
use crate::recovery::RecoveryReport;
use crate::soundness;
use crate::step::Step;

verus! {

/// A range of the file that a path names.
#[derive(Clone, Copy, Debug, PartialEq, Eq)]
pub struct PathCloneSpliceRange<'a> {
    pub path: &'a str,
    pub start: usize,
    pub block_count: usize,
}

/// The same range of the file `inode`.
pub open spec fn splice_range(range: PathCloneSpliceRange<'_>, inode: u64) -> FileBlockRange {
    FileBlockRange { inode, start: range.start, block_count: range.block_count }
}

/// A range of one file exchanged for copies of a range of another, both by path name.
pub open spec fn clone_splice_at_step(disk: Disk, sb: Superblock, source: PathCloneSpliceRange<'_>, destination: PathCloneSpliceRange<'_>) -> Step<(Seq<u64>, Seq<u64>, RecoveryReport)> {
    journal_checkpoint::settled_then(
        disk,
        sb,
        |d: Disk|
            path_lookup::resolved_then(
                d,
                sb,
                source.path@,
                |a: u64|
                    path_lookup::resolved_then(
                        d,
                        sb,
                        destination.path@,
                        |b: u64| file_clone_splice::clone_splice_step(
                            d,
                            sb,
                            splice_range(source, a),
                            splice_range(destination, b),
                        ),
                    ),
            ),
    )
}

/// Replaces a range of one file by fresh copies of a range of another, both named by paths, once the
/// journal is replayed and empty.
pub fn clone_file_blocks_splice_at_path_journaled<D: BlockDevice>(
    device: &mut D,
    superblock: &Superblock,
    source: PathCloneSpliceRange<'_>,
    destination: PathCloneSpliceRange<'_>,
) -> (r: Result<(Vec<u64>, Vec<u64>, RecoveryReport), Error>)
    ensures
        journal_region::carried_out(
            old(device),
            final(device),
            *superblock,
            file_blocks::block_lists(r),
            clone_splice_at_step(
                old(device).blocks(),
                *superblock,
                source,
                destination,
            ),
        ),
{
    broadcast use journal_checkpoint::group_settled;

    recover_journal_and_checkpoint(device, *superblock)?;
    let source_inode: u64 = resolve_path_following_symlinks(device, superblock, source.path)?;
    let destination_inode: u64 = resolve_path_following_symlinks(
        device,
        superblock,
        destination.path,
    )?;
    clone_file_blocks_splice_journaled(
        device,
        superblock,
        FileBlockRange {
            inode: source_inode,
            start: source.start,
            block_count: source.block_count,
        },
        FileBlockRange {
            inode: destination_inode,
            start: destination.start,
            block_count: destination.block_count,
        },
    )
}

/// A range that is exchanged at a path for copies of a range of another file holds what that range holds.
/// The blocks that the range has now and those that it had are handed back. The source keeps what it
/// holds, nothing else changes, and the destination still names its file. The device has to be sound
/// once its journal is settled, which the request does first.
pub proof fn law_clone_splice_at_path(disk: Disk, sb: Superblock, source: PathCloneSpliceRange<'_>, destination: PathCloneSpliceRange<'_>)
    requires
        soundness::sound_on(journal_checkpoint::settle_step(disk, sb).disk, sb),
        contents::full_blocks(journal_checkpoint::settle_step(disk, sb).disk),
        clone_splice_at_step(disk, sb, source, destination).result is Ok,
    ensures
        ({
            let base = journal_checkpoint::settle_step(disk, sb).disk;
            let t = soundness::tables_of(base, sb);
            let step = clone_splice_at_step(disk, sb, source, destination);
            &&& path_lookup::file_at(base, sb, source.path@) matches Ok(s) && (path_lookup::file_at(base, sb, destination.path@) matches Ok(d) && ({
                let (fresh, gone, _) = step.result->Ok_0;
                &&& s != d
                &&& contents::exchanged_range(
                    base,
                    step.disk,
                    sb,
                    d,
                    destination.start as int,
                    destination.start + destination.block_count,
                    contents::images_of(base, t.inodes[s]).subrange(
                        source.start as int,
                        source.start + source.block_count,
                    ),
                    fresh,
                    gone,
                )
            }))
            &&& path_lookup::resolved(step.disk, sb, destination.path@, true) == path_lookup::resolved(
                base,
                sb,
                destination.path@,
                true,
            )
        }),
{
    let base = journal_checkpoint::settle_step(disk, sb).disk;
    let t = soundness::tables_of(base, sb);
    let end = clone_splice_at_step(disk, sb, source, destination).disk;
    soundness::lemma_sound_parts(base, sb);
    path_lookup::law_file_at(base, sb, source.path@);
    let a = path_lookup::resolved(base, sb, source.path@, true)->Ok_0;
    let s = file_blocks::file_index(t.inodes, a)->Ok_0;
    path_lookup::law_file_at(base, sb, destination.path@);
    let b = path_lookup::resolved(base, sb, destination.path@, true)->Ok_0;
    let d = file_blocks::file_index(t.inodes, b)->Ok_0;
    file_clone_splice::law_clone_splice(
        base,
        sb,
        splice_range(source, a),
        splice_range(destination, b),
        s,
        d,
    );
    path_lookup::law_same_paths(
        base,
        end,
        sb,
        d,
        contents::images_of(end, soundness::tables_of(end, sb).inodes[d]),
        destination.path@,
        true,
    );
}

} // verus!
