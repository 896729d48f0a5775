//! Changing the size of files by path name.

use vstd::prelude::*;
use crate::block::{BlockDevice, Disk, BLOCK_SIZE};
use crate::contents;
use crate::error::{Error, ErrorKind};
use crate::file_append_batch;
use crate::file_append_batch::{append_file_blocks_journaled, grow_file_to_bytes_journaled, zero_blocks};
use crate::file_blocks;
use crate::file_blocks::invalid_input;
use crate::format::Superblock;
use crate::inode::InodeKind;
use crate::inode_table;
use crate::journal_checkpoint;
use crate::journal_region;
use crate::path_lookup;
use crate::path_metadata;
use crate::path_metadata::{metadata_at_path, PathMetadata};
use crate::recovery::RecoveryReport;
use crate::soundness;
use crate::step;
use crate::step::Step;
use crate::truncate_tx;
use crate::truncate_tx::{truncate_file_to_blocks_journaled, truncate_file_to_bytes_journaled};

verus! {

/// What a request does to the regular file that a path names, given its metadata.
pub open spec fn sized_then(disk: Disk, sb: Superblock, path: Seq<char>, next: spec_fn(Disk, PathMetadata) -> Step<(Seq<u64>, RecoveryReport)>) -> Step<(Seq<u64>, RecoveryReport)> {
    let m = path_metadata::metadata_step(disk, sb, path);
    match m.result {
        Err(kind) => Step { disk: m.disk, result: Err(kind) },
        Ok(metadata) => if metadata.kind != InodeKind::File {
            Step { disk: m.disk, result: Err(ErrorKind::InvalidInput) }
        } else {
            next(m.disk, metadata)
        },
    }
}

/// A file grown to a larger number of blocks by zeroed blocks.
pub open spec fn grow_blocks_at_step(disk: Disk, sb: Superblock, path: Seq<char>, target: int) -> Step<(Seq<u64>, RecoveryReport)> {
    sized_then(
        disk,
        sb,
        path,
        |d: Disk, m: PathMetadata|
            if target <= m.logical_blocks {
                step::stay(d, Err(ErrorKind::InvalidInput))
            } else {
                file_append_batch::append_batch_step(
                    d,
                    sb,
                    m.inode_id,
                    file_append_batch::zero_images((target - m.logical_blocks) as nat),
                )
            },
    )
}

/// A file grown to a larger number of bytes.
pub open spec fn grow_bytes_at_step(disk: Disk, sb: Superblock, path: Seq<char>, target: u64) -> Step<(Seq<u64>, RecoveryReport)> {
    sized_then(
        disk,
        sb,
        path,
        |d: Disk, m: PathMetadata|
            if target <= m.byte_len {
                step::stay(d, Err(ErrorKind::InvalidInput))
            } else {
                file_append_batch::grow_step(d, sb, m.inode_id, target)
            },
    )
}

/// A file brought to another number of bytes.
pub open spec fn resize_bytes_at_step(disk: Disk, sb: Superblock, path: Seq<char>, target: u64) -> Step<(Seq<u64>, RecoveryReport)> {
    sized_then(
        disk,
        sb,
        path,
        |d: Disk, m: PathMetadata|
            if target > m.byte_len {
                file_append_batch::grow_step(d, sb, m.inode_id, target)
            } else if target < m.byte_len {
                truncate_tx::truncate_bytes_step(d, sb, m.inode_id, target)
            } else {
                step::stay(d, Err(ErrorKind::InvalidInput))
            },
    )
}

/// A file brought to another number of blocks.
pub open spec fn resize_blocks_at_step(disk: Disk, sb: Superblock, path: Seq<char>, target: int) -> Step<(Seq<u64>, RecoveryReport)> {
    sized_then(
        disk,
        sb,
        path,
        |d: Disk, m: PathMetadata|
            if target > m.logical_blocks {
                grow_blocks_at_step(d, sb, path, target)
            } else if target < m.logical_blocks {
                truncate_tx::truncate_blocks_step(d, sb, m.inode_id, target)
            } else {
                step::stay(d, Err(ErrorKind::InvalidInput))
            },
    )
}

/// Grows the regular file that a path names to a larger number of blocks by zeroed blocks. The end
/// of file moves by whole blocks.
pub fn grow_file_at_path_to_blocks_journaled<D: BlockDevice>(device: &mut D, superblock: &Superblock, path: &str, target_blocks: usize) -> (r: Result<(Vec<u64>, RecoveryReport), Error>)
    ensures
        journal_region::carried_out(
            old(device),
            final(device),
            *superblock,
            file_blocks::block_list(r),
            grow_blocks_at_step(
                old(device).blocks(),
                *superblock,
                path@,
                target_blocks as int,
            ),
        ),
{
    broadcast use journal_checkpoint::group_settled;

    let metadata = metadata_at_path(device, superblock, path)?;
    if metadata.kind != InodeKind::File {
        return Err(invalid_input("pathname zero-growth target must be a regular file"));
    }
    if target_blocks <= metadata.logical_blocks {
        return Err(
            invalid_input("pathname zero-growth target must exceed current logical-block count"),
        );
    }
    let images = zero_blocks(target_blocks - metadata.logical_blocks);
    append_file_blocks_journaled(device, superblock, metadata.inode_id, images.as_slice())
}

/// Grows the regular file that a path names to exactly `target_bytes` bytes; all new bytes are
/// zero.
pub fn grow_file_at_path_to_bytes_journaled<D: BlockDevice>(device: &mut D, superblock: &Superblock, path: &str, target_bytes: u64) -> (r: Result<(Vec<u64>, RecoveryReport), Error>)
    ensures
        journal_region::carried_out(
            old(device),
            final(device),
            *superblock,
            file_blocks::block_list(r),
            grow_bytes_at_step(old(device).blocks(), *superblock, path@, target_bytes),
        ),
{
    broadcast use journal_checkpoint::group_settled;

    let metadata = metadata_at_path(device, superblock, path)?;
    if metadata.kind != InodeKind::File {
        return Err(invalid_input("pathname byte-growth target must be a regular file"));
    }
    if target_bytes <= metadata.byte_len {
        return Err(invalid_input("pathname byte-growth target must exceed current EOF"));
    }
    grow_file_to_bytes_journaled(device, superblock, metadata.inode_id, target_bytes)
}

/// Brings the regular file that a path names to exactly `target_bytes` bytes, and returns the
/// blocks that were taken or released. A file that has this size already is refused.
pub fn resize_file_at_path_to_bytes_journaled<D: BlockDevice>(device: &mut D, superblock: &Superblock, path: &str, target_bytes: u64) -> (r: Result<(Vec<u64>, RecoveryReport), Error>)
    ensures
        journal_region::carried_out(
            old(device),
            final(device),
            *superblock,
            file_blocks::block_list(r),
            resize_bytes_at_step(old(device).blocks(), *superblock, path@, target_bytes),
        ),
{
    broadcast use journal_checkpoint::group_settled;

    let metadata = metadata_at_path(device, superblock, path)?;
    if metadata.kind != InodeKind::File {
        return Err(invalid_input("pathname byte-resize target must be a regular file"));
    }
    if target_bytes > metadata.byte_len {
        grow_file_to_bytes_journaled(device, superblock, metadata.inode_id, target_bytes)
    } else if target_bytes < metadata.byte_len {
        truncate_file_to_bytes_journaled(device, superblock, metadata.inode_id, target_bytes)
    } else {
        Err(invalid_input("pathname byte-resize target must differ from current EOF"))
    }
}

/// Brings the regular file that a path names to a number of blocks, and returns the blocks that
/// were taken or released. A file that has this size already is refused.
pub fn resize_file_at_path_to_blocks_journaled<D: BlockDevice>(device: &mut D, superblock: &Superblock, path: &str, target_blocks: usize) -> (r: Result<(Vec<u64>, RecoveryReport), Error>)
    ensures
        journal_region::carried_out(
            old(device),
            final(device),
            *superblock,
            file_blocks::block_list(r),
            resize_blocks_at_step(
                old(device).blocks(),
                *superblock,
                path@,
                target_blocks as int,
            ),
        ),
{
    broadcast use journal_checkpoint::group_settled;

    let metadata = metadata_at_path(device, superblock, path)?;
    if metadata.kind != InodeKind::File {
        return Err(invalid_input("pathname block-resize target must be a regular file"));
    }
    if target_blocks > metadata.logical_blocks {
        grow_file_at_path_to_blocks_journaled(device, superblock, path, target_blocks)
    } else if target_blocks < metadata.logical_blocks {
        truncate_file_to_blocks_journaled(device, superblock, metadata.inode_id, target_blocks)
    } else {
        Err(
            invalid_input(
                "pathname block-resize target must differ from current logical-block count",
            ),
        )
    }
}

/// What is known of a request on the size of a file that succeeds: its path names a regular file,
/// and the request was made on the settled device with the metadata of that file.
proof fn lemma_sized(disk: Disk, sb: Superblock, path: Seq<char>, next: spec_fn(Disk, PathMetadata) -> Step<(Seq<u64>, RecoveryReport)>)
    requires
        soundness::sound_on(journal_checkpoint::settle_step(disk, sb).disk, sb),
        sized_then(disk, sb, path, next).result is Ok,
    ensures
        ({
            let base = journal_checkpoint::settle_step(disk, sb).disk;
            let inodes = soundness::tables_of(base, sb).inodes;
            path_lookup::resolved(base, sb, path, true) matches Ok(id) && (file_blocks::file_index(
                inodes,
                id,
            ) matches Ok(i) && sized_then(disk, sb, path, next) == next(
                base,
                PathMetadata {
                    inode_id: id,
                    kind: InodeKind::File,
                    logical_blocks: inodes[i].blocks.len() as usize,
                    byte_len: inodes[i].byte_len,
                },
            ) && 0 <= i < inodes.len() && inodes[i].kind == InodeKind::File)
        }),
{
    let base = journal_checkpoint::settle_step(disk, sb).disk;
    soundness::lemma_sound_parts(base, sb);
    let id = path_lookup::resolved(base, sb, path, true)->Ok_0;
    file_blocks::lemma_index_from(soundness::tables_of(base, sb).inodes, id, 0);
}

/// A file that is brought to another number of bytes at a path has exactly that length. Its bytes up
/// to the shorter of both lengths are as before, and zeros follow them to the end of the last block.
/// The blocks that are handed back are those it has more, or fewer, than before. Nothing else
/// changes, and the path still names the file. The device has to be sound once its journal is
/// settled, which the request does first.
pub proof fn law_resize_bytes_at_path(disk: Disk, sb: Superblock, path: Seq<char>, target: u64)
    requires
        soundness::sound_on(journal_checkpoint::settle_step(disk, sb).disk, sb),
        contents::full_blocks(journal_checkpoint::settle_step(disk, sb).disk),
        resize_bytes_at_step(disk, sb, path, target).result is Ok,
    ensures
        ({
            let base = journal_checkpoint::settle_step(disk, sb).disk;
            let t = soundness::tables_of(base, sb);
            let end = resize_bytes_at_step(disk, sb, path, target).disk;
            let blocks = resize_bytes_at_step(disk, sb, path, target).result->Ok_0.0;
            &&& path_lookup::resolved(end, sb, path, true) == path_lookup::resolved(
                base,
                sb,
                path,
                true,
            )
            &&& path_lookup::resolved(base, sb, path, true) matches Ok(id) && (
            file_blocks::file_index(t.inodes, id) matches Ok(i) && {
                let before = t.inodes[i];
                let after = soundness::tables_of(end, sb).inodes[i];
                &&& contents::only_changed(base, end, sb, i)
                &&& after.byte_len == target
                &&& target <= after.blocks.len() * BLOCK_SIZE
                &&& target != before.byte_len
                &&& if target > before.byte_len {
                    after.blocks == before.blocks + blocks
                } else {
                    before.blocks == after.blocks + blocks
                }
                &&& forall|p: int|
                    0 <= p < after.blocks.len() * BLOCK_SIZE ==> #[trigger] contents::byte_at(
                        end,
                        after,
                        p,
                    ) == if p < target && p < before.byte_len {
                        contents::byte_at(base, before, p)
                    } else {
                        0
                    }
            })
        }),
{
    let base = journal_checkpoint::settle_step(disk, sb).disk;
    let t = soundness::tables_of(base, sb);
    let next = |d: Disk, m: PathMetadata|
        if target > m.byte_len {
            file_append_batch::grow_step(d, sb, m.inode_id, target)
        } else if target < m.byte_len {
            truncate_tx::truncate_bytes_step(d, sb, m.inode_id, target)
        } else {
            step::stay(d, Err(ErrorKind::InvalidInput))
        };
    let end = resize_bytes_at_step(disk, sb, path, target).disk;
    assert(resize_bytes_at_step(disk, sb, path, target) == sized_then(disk, sb, path, next));
    lemma_sized(disk, sb, path, next);
    let id = path_lookup::resolved(base, sb, path, true)->Ok_0;
    let i = file_blocks::file_index(t.inodes, id)->Ok_0;
    if target > t.inodes[i].byte_len {
        file_append_batch::law_grow(base, sb, id, i, target);
    } else {
        truncate_tx::law_truncate_bytes(base, sb, id, i, target);
    }
    path_lookup::law_same_paths(
        base,
        end,
        sb,
        i,
        contents::images_of(end, soundness::tables_of(end, sb).inodes[i]),
        path,
        true,
    );
}

/// A file that grows to a larger number of bytes at a path does what a file does that is brought to
/// that number of bytes. A number that is not larger is refused as invalid input.
pub proof fn law_grow_bytes_at_path(disk: Disk, sb: Superblock, path: Seq<char>, target: u64)
    requires
        soundness::sound_on(journal_checkpoint::settle_step(disk, sb).disk, sb),
    ensures
        ({
            let base = journal_checkpoint::settle_step(disk, sb).disk;
            let t = soundness::tables_of(base, sb);
            let step = grow_bytes_at_step(disk, sb, path, target);
            &&& step.result is Ok ==> step == resize_bytes_at_step(disk, sb, path, target)
            &&& path_lookup::resolved(base, sb, path, true) matches Ok(id) ==> (
            file_blocks::file_index(t.inodes, id) matches Ok(i) ==> (target > t.inodes[i].byte_len
                ==> step == resize_bytes_at_step(disk, sb, path, target)) && (target
                <= t.inodes[i].byte_len ==> step.result is Err))
        }),
{
    soundness::lemma_sound_parts(journal_checkpoint::settle_step(disk, sb).disk, sb);
}

/// A file that grows to a larger number of blocks at a path has that many, the further ones zeroed;
/// they are the blocks that are handed back. Nothing else changes, and the path still names the
/// file. The device has to be sound once its journal is settled, which the request does first.
pub proof fn law_grow_blocks_at_path(disk: Disk, sb: Superblock, path: Seq<char>, target: int)
    requires
        target <= usize::MAX,
        soundness::sound_on(journal_checkpoint::settle_step(disk, sb).disk, sb),
        grow_blocks_at_step(disk, sb, path, target).result is Ok,
    ensures
        ({
            let base = journal_checkpoint::settle_step(disk, sb).disk;
            let t = soundness::tables_of(base, sb);
            let step = grow_blocks_at_step(disk, sb, path, target);
            &&& path_lookup::resolved(step.disk, sb, path, true) == path_lookup::resolved(
                base,
                sb,
                path,
                true,
            )
            &&& path_lookup::resolved(base, sb, path, true) matches Ok(id) && (
            file_blocks::file_index(t.inodes, id) matches Ok(i) && {
                let n = t.inodes[i].blocks.len() as int;
                &&& soundness::tables_of(step.disk, sb).inodes[i].blocks.len() == target
                &&& n < target
                &&& contents::exchanged_range(
                    base,
                    step.disk,
                    sb,
                    i,
                    n,
                    n,
                    file_append_batch::zero_images((target - n) as nat),
                    step.result->Ok_0.0,
                    Seq::empty(),
                )
            })
        }),
{
    let base = journal_checkpoint::settle_step(disk, sb).disk;
    let t = soundness::tables_of(base, sb);
    let next = |d: Disk, m: PathMetadata|
        if target <= m.logical_blocks {
            step::stay(d, Err(ErrorKind::InvalidInput))
        } else {
            file_append_batch::append_batch_step(
                d,
                sb,
                m.inode_id,
                file_append_batch::zero_images((target - m.logical_blocks) as nat),
            )
        };
    let end = grow_blocks_at_step(disk, sb, path, target).disk;
    assert(grow_blocks_at_step(disk, sb, path, target) == sized_then(disk, sb, path, next));
    lemma_sized(disk, sb, path, next);
    let id = path_lookup::resolved(base, sb, path, true)->Ok_0;
    let i = file_blocks::file_index(t.inodes, id)->Ok_0;
    let n = t.inodes[i].blocks.len() as int;
    lemma_few_blocks(base, sb, i);
    let zeros = file_append_batch::zero_images((target - n) as nat);
    crate::file_data::law_append(base, sb, id, i, zeros, false);
    assert(contents::images_of(end, soundness::tables_of(end, sb).inodes[i]).len() == target);
    path_lookup::law_same_paths(
        base,
        end,
        sb,
        i,
        contents::images_of(base, t.inodes[i]) + zeros,
        path,
        true,
    );
}

/// A file that is brought to another number of blocks at a path has that many: further ones are
/// zeroed, and those that go are its last. The blocks that are handed back are those it has more, or
/// fewer, than before. Nothing else changes, and the path still names the file. The device has to be
/// sound once its journal is settled, which the request does first.
pub proof fn law_resize_blocks_at_path(disk: Disk, sb: Superblock, path: Seq<char>, target: int)
    requires
        0 <= target <= usize::MAX,
        soundness::sound_on(journal_checkpoint::settle_step(disk, sb).disk, sb),
        resize_blocks_at_step(disk, sb, path, target).result is Ok,
    ensures
        ({
            let base = journal_checkpoint::settle_step(disk, sb).disk;
            let t = soundness::tables_of(base, sb);
            let step = resize_blocks_at_step(disk, sb, path, target);
            &&& path_lookup::resolved(step.disk, sb, path, true) == path_lookup::resolved(
                base,
                sb,
                path,
                true,
            )
            &&& path_lookup::resolved(base, sb, path, true) matches Ok(id) && (
            file_blocks::file_index(t.inodes, id) matches Ok(i) && {
                let n = t.inodes[i].blocks.len() as int;
                &&& soundness::tables_of(step.disk, sb).inodes[i].blocks.len() == target
                &&& n != target
                &&& if target > n {
                    contents::exchanged_range(
                        base,
                        step.disk,
                        sb,
                        i,
                        n,
                        n,
                        file_append_batch::zero_images((target - n) as nat),
                        step.result->Ok_0.0,
                        Seq::empty(),
                    )
                } else {
                    contents::exchanged_range(
                        base,
                        step.disk,
                        sb,
                        i,
                        target,
                        n,
                        Seq::empty(),
                        Seq::empty(),
                        step.result->Ok_0.0,
                    )
                }
            })
        }),
{
    let base = journal_checkpoint::settle_step(disk, sb).disk;
    let t = soundness::tables_of(base, sb);
    let next = |d: Disk, m: PathMetadata|
        if target > m.logical_blocks {
            grow_blocks_at_step(d, sb, path, target)
        } else if target < m.logical_blocks {
            truncate_tx::truncate_blocks_step(d, sb, m.inode_id, target)
        } else {
            step::stay(d, Err(ErrorKind::InvalidInput))
        };
    let end = resize_blocks_at_step(disk, sb, path, target).disk;
    assert(resize_blocks_at_step(disk, sb, path, target) == sized_then(disk, sb, path, next));
    lemma_sized(disk, sb, path, next);
    let id = path_lookup::resolved(base, sb, path, true)->Ok_0;
    let i = file_blocks::file_index(t.inodes, id)->Ok_0;
    lemma_few_blocks(base, sb, i);
    if target > t.inodes[i].blocks.len() {
        assert(journal_region::image_on(disk, sb) is Ok) by {
            reveal(journal_checkpoint::settle_step);
        }
        journal_checkpoint::law_settle_keeps_home(disk, sb);
        journal_checkpoint::lemma_settled_already(base, sb);
        law_grow_blocks_at_path(base, sb, path, target);
    } else {
        truncate_tx::law_truncate_blocks(base, sb, id, i, target);
        let images = contents::images_of(base, t.inodes[i]).subrange(0, target);
        assert(contents::images_of(end, soundness::tables_of(end, sb).inodes[i]).len() == target);
        path_lookup::law_same_paths(base, end, sb, i, images, path, true);
    }
}

/// The number of blocks of a file on a device can be told.
proof fn lemma_few_blocks(disk: Disk, sb: Superblock, index: int)
    requires
        soundness::sound_on(disk, sb),
        0 <= index < soundness::tables_of(disk, sb).inodes.len(),
    ensures
        soundness::tables_of(disk, sb).inodes[index].blocks.len() <= usize::MAX,
{
    soundness::lemma_sound_parts(disk, sb);
    inode_table::lemma_inodes_exact(disk, sb);
}

} // verus!
