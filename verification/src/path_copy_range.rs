//! Copying byte ranges between files by path name.

use vstd::prelude::*;
use crate::block::{BlockDevice, Disk, BLOCK_SIZE};
use crate::contents;
use crate::error::Error;
use crate::file_blocks;
use crate::file_copy_range;
use crate::file_copy_range::{copy_file_range_journaled, FileRangeEndpoint};
use crate::format::Superblock;
use crate::journal_region;
use crate::path_lookup;
use crate::path_lookup::resolve_path_following_symlinks;
use crate::recovery::RecoveryReport;
use crate::soundness;
use crate::step;
use crate::step::Step;

verus! {

/// A position in the file that a path names.
#[derive(Clone, Copy, Debug, PartialEq, Eq)]
pub struct PathFileRangeEndpoint<'a> {
    pub path: &'a str,
    pub first_block: usize,
    pub offset: usize,
}

/// The same position in the file `inode`.
pub open spec fn endpoint(e: PathFileRangeEndpoint<'_>, inode: u64) -> FileRangeEndpoint {
    FileRangeEndpoint { inode, first_block: e.first_block, offset: e.offset }
}

/// Bytes copied between positions of the files that two paths name.
pub open spec fn copy_at_step(disk: Disk, sb: Superblock, source: PathFileRangeEndpoint<'_>, destination: PathFileRangeEndpoint<'_>, len: int) -> Step<RecoveryReport> {
    path_lookup::resolved_then(
        disk,
        sb,
        source.path@,
        |a: u64|
            path_lookup::resolved_then(disk, sb, destination.path@, |b: u64| file_copy_range::copy_step(
                    disk,
                    sb,
                    endpoint(source, a),
                    endpoint(destination, b),
                    len,
                )),
    )
}

/// Copies bytes between positions of the regular files that two paths name, as one transaction. The
/// ranges may overlap.
pub fn copy_file_range_at_path_journaled<D: BlockDevice>(
    device: &mut D,
    superblock: &Superblock,
    source: PathFileRangeEndpoint<'_>,
    destination: PathFileRangeEndpoint<'_>,
    len: usize,
) -> (r: Result<RecoveryReport, Error>)
    ensures
        journal_region::carried_out(
            old(device),
            final(device),
            *superblock,
            step::kinded(r),
            copy_at_step(
                old(device).blocks(),
                *superblock,
                source,
                destination,
                len as int,
            ),
        ),
{
    broadcast use journal_region::group_atomic;

    let source_inode: u64 = resolve_path_following_symlinks(device, superblock, source.path)?;
    let destination_inode: u64 = resolve_path_following_symlinks(
        device,
        superblock,
        destination.path,
    )?;
    copy_file_range_journaled(
        device,
        superblock,
        FileRangeEndpoint {
            inode: source_inode,
            first_block: source.first_block,
            offset: source.offset,
        },
        FileRangeEndpoint {
            inode: destination_inode,
            first_block: destination.first_block,
            offset: destination.offset,
        },
        len,
    )
}

/// From the destination on, the file that the destination's path names holds the bytes that the file
/// at the source's path held from the source on; every other byte of every file, every length and
/// every path is as before.
pub proof fn law_copy_at_path(disk: Disk, sb: Superblock, source: PathFileRangeEndpoint<'_>, destination: PathFileRangeEndpoint<'_>, len: int, path: Seq<char>, follow: bool)
    requires
        soundness::sound_on(disk, sb),
        copy_at_step(disk, sb, source, destination, len).result is Ok,
    ensures
        ({
            let t = soundness::tables_of(disk, sb);
            let end = copy_at_step(disk, sb, source, destination, len).disk;
            let from = source.first_block * BLOCK_SIZE + source.offset;
            let to = destination.first_block * BLOCK_SIZE + destination.offset;
            &&& soundness::tables_of(end, sb) == t
            &&& path_lookup::resolved(end, sb, path, follow) == path_lookup::resolved(
                disk,
                sb,
                path,
                follow,
            )
            &&& path_lookup::resolved(disk, sb, source.path@, true) matches Ok(x) && (
            path_lookup::resolved(disk, sb, destination.path@, true) matches Ok(y) && (
            file_blocks::file_index(t.inodes, x) matches Ok(a) && (file_blocks::file_index(
                t.inodes,
                y,
            ) matches Ok(b) && {
                &&& from + len <= t.inodes[a].byte_len
                &&& to + len <= t.inodes[b].blocks.len() * BLOCK_SIZE
                &&& contents::only_changed(disk, end, sb, b)
                &&& forall|p: int|
                    0 <= p < t.inodes[b].blocks.len() * BLOCK_SIZE ==> #[trigger] contents::byte_at(
                        end,
                        t.inodes[b],
                        p,
                    ) == if to <= p < to + len {
                        contents::byte_at(disk, t.inodes[a], from + (p - to))
                    } else {
                        contents::byte_at(disk, t.inodes[b], p)
                    }
            })))
        }),
{
    let t = soundness::tables_of(disk, sb);
    let end = copy_at_step(disk, sb, source, destination, len).disk;
    let x = path_lookup::resolved(disk, sb, source.path@, true)->Ok_0;
    let y = path_lookup::resolved(disk, sb, destination.path@, true)->Ok_0;
    file_copy_range::law_copy_bytes(disk, sb, endpoint(source, x), endpoint(destination, y), len);
    let b = file_blocks::file_index(t.inodes, y)->Ok_0;
    soundness::lemma_sound_parts(disk, sb);
    file_blocks::lemma_index_from(t.inodes, y, 0);
    path_lookup::law_same_paths(
        disk,
        end,
        sb,
        b,
        contents::images_of(end, t.inodes[b]),
        path,
        follow,
    );
}

} // verus!
