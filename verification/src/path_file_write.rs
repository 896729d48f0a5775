//! Overwriting and replacing whole files by path name.

use vstd::prelude::*;
use crate::block::{BlockDevice, Disk, BLOCK_SIZE};
use crate::contents;
use crate::error::{Error, ErrorKind};
use crate::file_append_batch;
use crate::file_append_batch::append_file_blocks_journaled;
use crate::file_blocks;
use crate::file_blocks::{find_inode, invalid_data, invalid_input};
use crate::file_range_read;
use crate::file_range_read::write_file_range_journaled;
use crate::file_replace;
use crate::file_replace::replace_file_blocks_journaled;
use crate::format::Superblock;
use crate::inode::InodeKind;
use crate::inode_codec::{InodeView, PersistedInode};
use crate::inode_table;
use crate::inode_table::load_inode_table;
use crate::journal::EntryView;
use crate::journal_checkpoint;
use crate::journal_checkpoint::recover_journal_and_checkpoint;
use crate::journal_region;
use crate::path_file_read;
use crate::path_lookup;
use crate::path_lookup::resolve_path_following_symlinks;
use crate::recovery;
use crate::recovery::RecoveryReport;
use crate::soundness;
use crate::step;
use crate::step::Step;
use crate::truncate_tx;
use crate::truncate_tx::truncate_file_to_blocks_journaled;

verus! {

/// The number of blocks of the file that lookup found: a missing inode is invalid data, another
/// kind invalid input.
pub open spec fn found_blocks(inodes: Seq<InodeView>, id: u64) -> Result<nat, ErrorKind> {
    match file_blocks::index_of(inodes, id) {
        None => Err(ErrorKind::InvalidData),
        Some(i) => if inodes[i].kind != InodeKind::File {
            Err(ErrorKind::InvalidInput)
        } else {
            Ok(inodes[i].blocks.len())
        },
    }
}

/// Every block of a file overwritten.
pub open spec fn write_whole_step(disk: Disk, sb: Superblock, id: u64, data: Seq<u8>) -> Step<RecoveryReport> {
    match inode_table::inodes_on(disk, sb) {
        Err(kind) => step::stay(disk, Err(kind)),
        Ok(inodes) => match found_blocks(inodes, id) {
            Err(kind) => step::stay(disk, Err(kind)),
            Ok(count) => if data.len() != count * BLOCK_SIZE {
                step::stay(disk, Err(ErrorKind::InvalidInput))
            } else if data.len() == 0 {
                step::stay(disk, Ok(recovery::no_recovery()))
            } else {
                file_range_read::write_range_step(disk, sb, id, 0, 0, data)
            },
        },
    }
}

/// Every block of the file that a path names overwritten.
pub open spec fn write_at_step(disk: Disk, sb: Superblock, path: Seq<char>, data: Seq<u8>) -> Step<RecoveryReport> {
    journal_checkpoint::settled_then(
        disk,
        sb,
        |d: Disk|
            path_lookup::resolved_then(d, sb, path, |id: u64| write_whole_step(d, sb, id, data)),
    )
}

/// The report of a request that also hands back blocks.
pub open spec fn report_of_list(s: Step<(Seq<u64>, RecoveryReport)>) -> Step<RecoveryReport> {
    Step {
        disk: s.disk,
        result: match s.result {
            Ok((blocks, report)) => Ok(report),
            Err(kind) => Err(kind),
        },
    }
}

/// All blocks of a file exchanged for blocks of given contents: appended to an empty file, cut off
/// where there are none, replaced otherwise.
pub open spec fn replace_whole_step(disk: Disk, sb: Superblock, id: u64, images: Seq<Seq<u8>>) -> Step<RecoveryReport> {
    match inode_table::inodes_on(disk, sb) {
        Err(kind) => step::stay(disk, Err(kind)),
        Ok(inodes) => match found_blocks(inodes, id) {
            Err(kind) => step::stay(disk, Err(kind)),
            Ok(count) => if count == 0 && images.len() == 0 {
                step::stay(disk, Ok(recovery::no_recovery()))
            } else if count == 0 {
                report_of_list(file_append_batch::append_batch_step(disk, sb, id, images))
            } else if images.len() == 0 {
                report_of_list(truncate_tx::truncate_blocks_step(disk, sb, id, 0))
            } else {
                report_of_list(
                    file_blocks::first_list(
                        file_replace::replace_step(disk, sb, id, 0, count as int, images, false),
                    ),
                )
            },
        },
    }
}

/// All blocks of the file that a path names exchanged.
pub open spec fn replace_at_step(disk: Disk, sb: Superblock, path: Seq<char>, images: Seq<Seq<u8>>) -> Step<RecoveryReport> {
    journal_checkpoint::settled_then(
        disk,
        sb,
        |d: Disk|
            path_lookup::resolved_then(
                d,
                sb,
                path,
                |id: u64| replace_whole_step(d, sb, id, images),
            ),
    )
}

fn count_blocks(inodes: &[PersistedInode], inode_id: u64) -> (r: Result<usize, Error>)
    ensures
        match r {
            Ok(n) => found_blocks(inode_table::inode_views(inodes@), inode_id) == Ok::<
                nat,
                ErrorKind,
            >(n as nat),
            Err(e) => found_blocks(inode_table::inode_views(inodes@), inode_id) == Err::<
                nat,
                ErrorKind,
            >(e.kind),
        },
{
    match find_inode(inodes, inode_id) {
        Some(i) => if inodes[i].kind == InodeKind::File {
            Ok(inodes[i].blocks.len())
        } else {
            Err(invalid_input("resolved pathname is not a regular file"))
        },
        None => Err(invalid_data("resolved inode is missing")),
    }
}

/// Overwrites every block of the regular file that a path names, once the journal is replayed and
/// empty. The data must fill the blocks of the file exactly.
pub fn write_file_blocks_at_path_journaled<D: BlockDevice>(device: &mut D, superblock: &Superblock, path: &str, data: &[u8]) -> (r: Result<RecoveryReport, Error>)
    ensures
        journal_region::carried_out(
            old(device),
            final(device),
            *superblock,
            step::kinded(r),
            write_at_step(old(device).blocks(), *superblock, path@, data@),
        ),
{
    broadcast use journal_checkpoint::group_settled;

    recover_journal_and_checkpoint(device, *superblock)?;
    let inode_id: u64 = resolve_path_following_symlinks(device, superblock, path)?;
    let inodes = load_inode_table(device, superblock)?;
    let count: usize = count_blocks(inodes.as_slice(), inode_id)?;
    assert(data.len() == data@.len());
    match count.checked_mul(BLOCK_SIZE) {
        Some(expected) => if data.len() != expected {
            return Err(
                invalid_input("whole-file write length must match persisted block capacity"),
            );
        },
        None => return Err(invalid_input("whole-file logical-block byte length overflow")),
    }
    if data.is_empty() {
        return Ok(RecoveryReport::default());
    }
    write_file_range_journaled(device, superblock, inode_id, 0, 0, data)
}

/// Exchanges all blocks of the regular file that a path names for blocks of given contents, as many
/// or as few as there are, once the journal is replayed and empty.
pub fn replace_file_at_path_journaled<D: BlockDevice>(device: &mut D, superblock: &Superblock, path: &str, blocks: &[[u8; BLOCK_SIZE]]) -> (r: Result<RecoveryReport, Error>)
    ensures
        journal_region::carried_out(
            old(device),
            final(device),
            *superblock,
            step::kinded(r),
            replace_at_step(
                old(device).blocks(),
                *superblock,
                path@,
                file_blocks::image_views(blocks@),
            ),
        ),
{
    broadcast use journal_checkpoint::group_settled;

    recover_journal_and_checkpoint(device, *superblock)?;
    let inode_id: u64 = resolve_path_following_symlinks(device, superblock, path)?;
    let inodes = load_inode_table(device, superblock)?;
    let count: usize = count_blocks(inodes.as_slice(), inode_id)?;
    if count == 0 && blocks.len() == 0 {
        return Ok(RecoveryReport::default());
    }
    if count == 0 {
        let (_fresh, report) = append_file_blocks_journaled(device, superblock, inode_id, blocks)?;
        return Ok(report);
    }
    if blocks.len() == 0 {
        let (_released, report) = truncate_file_to_blocks_journaled(
            device,
            superblock,
            inode_id,
            0,
        )?;
        return Ok(report);
    }
    let (_fresh, _displaced, report) = replace_file_blocks_journaled(
        device,
        superblock,
        inode_id,
        0,
        count,
        blocks,
    )?;
    Ok(report)
}

/// A file whose blocks are all overwritten reads back as what was written, up to its end.
pub proof fn law_write_whole(disk: Disk, sb: Superblock, id: u64, index: int, data: Seq<u8>)
    requires
        soundness::sound_on(disk, sb),
        file_blocks::file_index(soundness::tables_of(disk, sb).inodes, id) == Ok::<int, ErrorKind>(
            index,
        ),
        data.len() <= usize::MAX,
        write_whole_step(disk, sb, id, data).result is Ok,
    ensures
        path_file_read::whole_file(write_whole_step(disk, sb, id, data).disk, sb, id) == Ok::<
            Seq<u8>,
            ErrorKind,
        >(data.subrange(0, soundness::tables_of(disk, sb).inodes[index].byte_len as int)),
        contents::only_changed(disk, write_whole_step(disk, sb, id, data).disk, sb, index),
        write_whole_step(disk, sb, id, data).disk == disk || journal_region::log_on(
            write_whole_step(disk, sb, id, data).disk,
            sb,
        ) == Some(Seq::<EntryView>::empty()),
{
    let t = soundness::tables_of(disk, sb);
    soundness::lemma_sound_parts(disk, sb);
    file_blocks::lemma_index_from(t.inodes, id, 0);
    let inode = t.inodes[index];
    let end = write_whole_step(disk, sb, id, data).disk;
    let len = inode.byte_len as int;
    assert(crate::inode_codec::exact(inode));
    assert(len <= data.len());
    if data.len() == 0 {
        assert(data.subrange(0, 0) =~= Seq::<u8>::empty());
    } else {
        file_range_read::law_write_range(disk, sb, id, index, 0, 0, data);
        file_range_read::lemma_range_blocks(
            disk,
            sb,
            id,
            index,
            0,
            0,
            data.len() as int,
            true,
        );
        soundness::lemma_sound_parts(end, sb);
        let all = inode.blocks;
        let used = file_append_batch::blocks_for(len);
        assert(all.subrange(0, all.len() as int) =~= all);
        let blocks = all.subrange(0, used);
        assert forall|i: int| 0 <= i < blocks.len() implies t.allocator.owns(#[trigger] blocks[i]) by {
            assert(blocks[i] == all[i]);
        }
        assert(len > 0);
        assert(file_range_read::range_blocks(end, sb, id, 0, 0, len, false) == Ok::<
            Seq<u64>,
            ErrorKind,
        >(blocks));
        let before = contents::images_of(disk, inode);
        let after = file_range_read::images_with(before, 0, 0, data);
        assert(file_range_read::file_bytes(end, blocks, 0, len as nat) =~= data.subrange(0, len)) by {
            assert forall|k: int| 0 <= k < len implies file_range_read::file_bytes(
                end,
                blocks,
                0,
                len as nat,
            )[k] == data[k] by {
                let j = k / (BLOCK_SIZE as int);
                let i = k % (BLOCK_SIZE as int);
                assert(j * BLOCK_SIZE + i == k);
                assert(0 <= j < blocks.len());
                assert(t.allocator.owns(blocks[j]));
                assert(contents::images_of(end, inode)[j] == after[j]);
                assert(end[blocks[j] as int] == file_range_read::overwritten(
                    before[j],
                    j,
                    0,
                    data,
                ));
            }
        }
    }
}

/// A file whose blocks are all replaced holds the new ones, and nothing else changes.
pub proof fn law_replace_whole(disk: Disk, sb: Superblock, id: u64, index: int, images: Seq<Seq<u8>>)
    requires
        soundness::sound_on(disk, sb),
        file_blocks::file_index(soundness::tables_of(disk, sb).inodes, id) == Ok::<int, ErrorKind>(
            index,
        ),
        forall|i: int| 0 <= i < images.len() ==> (#[trigger] images[i]).len() == BLOCK_SIZE,
        replace_whole_step(disk, sb, id, images).result is Ok,
    ensures
        contents::rewritten(
            disk,
            replace_whole_step(disk, sb, id, images).disk,
            sb,
            index,
            images,
        ),
{
    let t = soundness::tables_of(disk, sb);
    soundness::lemma_sound_parts(disk, sb);
    file_blocks::lemma_index_from(t.inodes, id, 0);
    let before = contents::images_of(disk, t.inodes[index]);
    let count = before.len() as int;
    if count == 0 && images.len() == 0 {
        assert(before =~= images);
    } else if count == 0 {
        crate::file_data::law_append(disk, sb, id, index, images, false);
        assert(before + images =~= images);
    } else if images.len() == 0 {
        truncate_tx::law_truncate_blocks(disk, sb, id, index, 0);
        assert(before.subrange(0, 0) =~= images);
    } else {
        file_replace::law_replace(disk, sb, id, index, 0, count, images, false);
        assert(before.subrange(0, 0) + images + before.subrange(count, count) =~= images);
    }
}

/// A file whose blocks are all overwritten at a path reads back at that path as what was written, up
/// to its end. Reading changes nothing, and reading again gives the same. The device has to be sound
/// once its journal is settled, which the write does first.
pub proof fn law_write_read_at_path(disk: Disk, sb: Superblock, path: Seq<char>, data: Seq<u8>)
    requires
        soundness::sound_on(journal_checkpoint::settle_step(disk, sb).disk, sb),
        data.len() <= usize::MAX,
        write_at_step(disk, sb, path, data).result is Ok,
    ensures
        ({
            let base = journal_checkpoint::settle_step(disk, sb).disk;
            let inodes = soundness::tables_of(base, sb).inodes;
            let end = write_at_step(disk, sb, path, data).disk;
            let read = path_file_read::read_at_step(end, sb, path);
            &&& path_lookup::resolved(base, sb, path, true) matches Ok(id) && (
            file_blocks::file_index(inodes, id) matches Ok(i) && inodes[i].byte_len <= data.len()
                && read == step::stay(
                end,
                Ok::<Seq<u8>, ErrorKind>(data.subrange(0, inodes[i].byte_len as int)),
            ))
            &&& path_file_read::read_at_step(read.disk, sb, path) == read
        }),
{
    let base = journal_checkpoint::settle_step(disk, sb).disk;
    let t = soundness::tables_of(base, sb);
    let end = write_at_step(disk, sb, path, data).disk;
    assert(journal_region::image_on(disk, sb) is Ok) by {
        reveal(journal_checkpoint::settle_step);
    }
    journal_checkpoint::law_settle_keeps_home(disk, sb);
    soundness::lemma_sound_parts(base, sb);
    let id = path_lookup::resolved(base, sb, path, true)->Ok_0;
    let index = file_blocks::file_index(t.inodes, id)->Ok_0;
    file_blocks::lemma_index_from(t.inodes, id, 0);
    law_write_whole(base, sb, id, index, data);
    path_lookup::law_same_paths(
        base,
        end,
        sb,
        index,
        contents::images_of(end, soundness::tables_of(end, sb).inodes[index]),
        path,
        true,
    );
    soundness::lemma_sound_parts(end, sb);
    journal_checkpoint::lemma_settled_already(end, sb);
    assert(crate::inode_codec::exact(t.inodes[index]));
}

/// A file whose blocks are all exchanged at a path holds the new ones and nothing more. Nothing else
/// changes, and the path still names the file. The device has to be sound once its journal is settled,
/// which the request does first.
pub proof fn law_replace_at_path(disk: Disk, sb: Superblock, path: Seq<char>, images: Seq<Seq<u8>>)
    requires
        soundness::sound_on(journal_checkpoint::settle_step(disk, sb).disk, sb),
        forall|k: int| 0 <= k < images.len() ==> (#[trigger] images[k]).len() == BLOCK_SIZE,
        replace_at_step(disk, sb, path, images).result is Ok,
    ensures
        ({
            let base = journal_checkpoint::settle_step(disk, sb).disk;
            let step = replace_at_step(disk, sb, path, images);
            &&& path_lookup::file_at(base, sb, path) matches Ok(i) && ({
                contents::rewritten(base, step.disk, sb, i, images)
            })
            &&& path_lookup::resolved(step.disk, sb, path, true) == path_lookup::resolved(
                base,
                sb,
                path,
                true,
            )
        }),
{
    let base = journal_checkpoint::settle_step(disk, sb).disk;
    let t = soundness::tables_of(base, sb);
    let end = replace_at_step(disk, sb, path, images).disk;
    soundness::lemma_sound_parts(base, sb);
    path_lookup::law_file_at(base, sb, path);
    let id = path_lookup::resolved(base, sb, path, true)->Ok_0;
    let i = file_blocks::file_index(t.inodes, id)->Ok_0;
    law_replace_whole(base, sb, id, i, images);
    path_lookup::law_same_paths(
        base,
        end,
        sb,
        i,
        contents::images_of(end, soundness::tables_of(end, sb).inodes[i]),
        path,
        true,
    );
}

} // verus!
