//! Creating files that hold copies of blocks of others, by path name.

use vstd::prelude::*;
use crate::block::{BlockDevice, Disk, BLOCK_SIZE};
use crate::contents;
use crate::error::{Error, ErrorKind};
use crate::file_blocks::invalid_input;
use crate::file_blocks;
use crate::format::Superblock;
use crate::inode::InodeKind;
use crate::journal_checkpoint;
use crate::journal_checkpoint::recover_journal_and_checkpoint;
use crate::journal_region;
use crate::path_contiguous_clone_append;
use crate::path_contiguous_clone_append::read_clone_images;
use crate::path_contiguous_defrag;
use crate::path_create;
use crate::path_create::{create_empty_file_at_path_journaled, create_file_with_blocks_at_path_journaled};
use crate::path_lookup;
use crate::path_lookup::resolve_path_following_symlinks;
use crate::path_metadata;
use crate::path_metadata::metadata_at_path;
use crate::recovery::RecoveryReport;
use crate::soundness;
use crate::step;
use crate::step::Step;

verus! {

/// A new file at a path that holds copies of `count` blocks of another from `start` on.
pub open spec fn clone_create_step(
    disk: Disk,
    sb: Superblock,
    source: Seq<char>,
    start: int,
    count: int,
    destination: Seq<char>,
    contiguous: bool,
) -> Step<(u64, RecoveryReport)> {
    if count == 0 || count * BLOCK_SIZE > usize::MAX {
        step::stay(disk, Err(ErrorKind::InvalidInput))
    } else {
        journal_checkpoint::settled_then(
            disk,
            sb,
            |d: Disk|
                path_lookup::resolved_then(
                    d,
                    sb,
                    source,
                    |id: u64|
                        match path_contiguous_clone_append::clone_images(d, sb, id, start, count) {
                            Err(kind) => step::stay(d, Err(kind)),
                            Ok(images) => path_create::create_file_at_step(
                                d,
                                sb,
                                destination,
                                images,
                                contiguous,
                            ),
                        },
                ),
        )
    }
}

/// A new file at a path that holds copies of all blocks of another.
pub open spec fn clone_whole_step(disk: Disk, sb: Superblock, source: Seq<char>, destination: Seq<char>) -> Step<(u64, RecoveryReport)> {
    let found = path_metadata::metadata_step(disk, sb, source);
    match found.result {
        Err(kind) => step::stay(found.disk, Err(kind)),
        Ok(m) => if m.kind != InodeKind::File {
            step::stay(found.disk, Err(ErrorKind::InvalidInput))
        } else if m.logical_blocks == 0 {
            path_create::create_at_step(
                found.disk,
                sb,
                destination,
                InodeKind::File,
                Seq::<Seq<u8>>::empty(),
                false,
            )
        } else {
            clone_create_step(
                found.disk,
                sb,
                source,
                0,
                m.logical_blocks as int,
                destination,
                false,
            )
        },
    }
}

/// Creates a regular file at a path that holds copies of a range of blocks of another.
pub fn clone_file_blocks_to_path_journaled<D: BlockDevice>(
    device: &mut D,
    superblock: &Superblock,
    source: &str,
    source_first_block: usize,
    block_count: usize,
    destination: &str,
) -> (r: Result<(u64, RecoveryReport), Error>)
    ensures
        journal_region::carried_out(
            old(device),
            final(device),
            *superblock,
            step::kinded(r),
            clone_create_step(
                old(device).blocks(),
                *superblock,
                source@,
                source_first_block as int,
                block_count as int,
                destination@,
                false,
            ),
        ),
        step::turned_away(
            old(device),
            final(device),
            step::kinded(r),
            block_count == 0 || block_count * BLOCK_SIZE > usize::MAX,
        ),
{
    broadcast use journal_checkpoint::group_settled;

    if block_count == 0 || block_count.checked_mul(BLOCK_SIZE).is_none() {
        return Err(invalid_input("clone requires a non-empty range of logical blocks"));
    }
    recover_journal_and_checkpoint(device, *superblock)?;
    let source_inode: u64 = resolve_path_following_symlinks(device, superblock, source)?;
    let images = read_clone_images(
        device,
        superblock,
        source_inode,
        source_first_block,
        block_count,
    )?;
    create_file_with_blocks_at_path_journaled(device, superblock, destination, images.as_slice())
}

/// Creates a regular file at a path that holds copies of all blocks of another, which must be full.
pub fn clone_file_to_path_journaled<D: BlockDevice>(device: &mut D, superblock: &Superblock, source: &str, destination: &str) -> (r: Result<(u64, RecoveryReport), Error>)
    ensures
        journal_region::carried_out(
            old(device),
            final(device),
            *superblock,
            step::kinded(r),
            clone_whole_step(old(device).blocks(), *superblock, source@, destination@),
        ),
{
    broadcast use journal_checkpoint::group_settled;

    let metadata = metadata_at_path(device, superblock, source)?;
    if metadata.kind != InodeKind::File {
        return Err(invalid_input("whole-file clone source must be a regular file"));
    }
    if metadata.logical_blocks == 0 {
        create_empty_file_at_path_journaled(device, superblock, destination)
    } else {
        clone_file_blocks_to_path_journaled(
            device,
            superblock,
            source,
            0,
            metadata.logical_blocks,
            destination,
        )
    }
}

/// A new file at a path that is made of copies holds what the source range holds, and has the length
/// of its blocks; the source keeps what it holds. The copies lie in one run where that was asked for.
/// A well-formed destination names the new file, and nothing else changes. The device has to be sound
/// once its journal is settled, which the request does first.
pub proof fn law_clone_create_at_path(
    disk: Disk,
    sb: Superblock,
    source: Seq<char>,
    start: int,
    count: int,
    destination: Seq<char>,
    contiguous: bool,
)
    requires
        soundness::sound_on(journal_checkpoint::settle_step(disk, sb).disk, sb),
        contents::full_blocks(journal_checkpoint::settle_step(disk, sb).disk),
        0 <= start,
        0 <= count,
        clone_create_step(disk, sb, source, start, count, destination, contiguous).result is Ok,
    ensures
        ({
            let base = journal_checkpoint::settle_step(disk, sb).disk;
            let t = soundness::tables_of(base, sb);
            let step = clone_create_step(disk, sb, source, start, count, destination, contiguous);
            &&& path_lookup::file_at(base, sb, source) matches Ok(s) && 0 <= start < start + count
                <= t.inodes[s].blocks.len() && made_at(
                base,
                step,
                sb,
                destination,
                contents::images_of(base, t.inodes[s]).subrange(start, start + count),
            )
            &&& contiguous ==> path_contiguous_defrag::consecutive(
                soundness::tables_of(step.disk, sb).inodes[t.inodes.len() as int].blocks,
            )
        }),
{
    let base = journal_checkpoint::settle_step(disk, sb).disk;
    let t = soundness::tables_of(base, sb);
    soundness::lemma_sound_parts(base, sb);
    path_lookup::law_file_at(base, sb, source);
    let id = path_lookup::resolved(base, sb, source, true)->Ok_0;
    file_blocks::lemma_index_from(t.inodes, id, 0);
    let s = file_blocks::file_index(t.inodes, id)->Ok_0;
    path_contiguous_clone_append::law_clone_images(base, sb, id, s, start, count);
    let images = path_contiguous_clone_append::clone_images(base, sb, id, start, count)->Ok_0;
    lemma_made(disk, sb, destination, images, contiguous);
}

/// The step made a regular file with these contents at a path.
pub open spec fn made_at(base: Disk, step: Step<(u64, RecoveryReport)>, sb: Superblock, path: Seq<char>, images: Seq<Seq<u8>>) -> bool {
    &&& path_create::destination_parts(path) matches Some((parent_path, name)) && (
    path_lookup::resolved(base, sb, parent_path, true) matches Ok(parent)
        && path_create::newly_made(
        base,
        step.disk,
        sb,
        parent,
        name,
        step.result->Ok_0.0,
        InodeKind::File,
        images,
    ))
    &&& path_lookup::path_components(path) is Some ==> path_lookup::resolved(
        step.disk,
        sb,
        path,
        true,
    ) == Ok::<u64, ErrorKind>(step.result->Ok_0.0)
}

/// A file that is made on a settled device.
proof fn lemma_made(disk: Disk, sb: Superblock, path: Seq<char>, images: Seq<Seq<u8>>, contiguous: bool)
    requires
        soundness::sound_on(journal_checkpoint::settle_step(disk, sb).disk, sb),
        journal_checkpoint::settle_step(disk, sb).result is Ok,
        forall|i: int| 0 <= i < images.len() ==> (#[trigger] images[i]).len() == BLOCK_SIZE,
        path_create::create_at_step(
            journal_checkpoint::settle_step(disk, sb).disk,
            sb,
            path,
            InodeKind::File,
            images,
            contiguous,
        ).result is Ok,
    ensures
        ({
            let base = journal_checkpoint::settle_step(disk, sb).disk;
            let step = path_create::create_at_step(
                base,
                sb,
                path,
                InodeKind::File,
                images,
                contiguous,
            );
            &&& made_at(base, step, sb, path, images)
            &&& contiguous ==> path_contiguous_defrag::consecutive(
                soundness::tables_of(step.disk, sb).inodes[soundness::tables_of(
                    base,
                    sb,
                ).inodes.len() as int].blocks,
            )
        }),
{
    let base = journal_checkpoint::settle_step(disk, sb).disk;
    assert(journal_region::image_on(disk, sb) is Ok) by {
        reveal(journal_checkpoint::settle_step);
    }
    journal_checkpoint::law_settle_keeps_home(disk, sb);
    journal_checkpoint::lemma_settled_already(base, sb);
    path_create::law_create_at_path(base, sb, path, InodeKind::File, images, contiguous, true);
}

/// A new file at a path that is a copy of a whole file holds the contents of all its logical blocks,
/// and has the length of these; the source keeps what it holds. A well-formed destination names the
/// new file, and nothing else changes. The device has to be sound once its journal is settled, which
/// the request does first.
pub proof fn law_clone_whole_at_path(disk: Disk, sb: Superblock, source: Seq<char>, destination: Seq<char>)
    requires
        soundness::sound_on(journal_checkpoint::settle_step(disk, sb).disk, sb),
        contents::full_blocks(journal_checkpoint::settle_step(disk, sb).disk),
        clone_whole_step(disk, sb, source, destination).result is Ok,
    ensures
        ({
            let base = journal_checkpoint::settle_step(disk, sb).disk;
            path_lookup::file_at(base, sb, source) matches Ok(s) && made_at(
                base,
                clone_whole_step(disk, sb, source, destination),
                sb,
                destination,
                contents::images_of(base, soundness::tables_of(base, sb).inodes[s]),
            )
        }),
{
    let base = journal_checkpoint::settle_step(disk, sb).disk;
    let t = soundness::tables_of(base, sb);
    soundness::lemma_sound_parts(base, sb);
    path_lookup::law_file_at(base, sb, source);
    let id = path_lookup::resolved(base, sb, source, true)->Ok_0;
    file_blocks::lemma_index_from(t.inodes, id, 0);
    crate::inode_table::lemma_inodes_exact(base, sb);
    let s = file_blocks::file_index(t.inodes, id)->Ok_0;
    let images = contents::images_of(base, t.inodes[s]);
    if t.inodes[s].blocks.len() == 0 {
        assert(images =~= Seq::<Seq<u8>>::empty());
        lemma_made(disk, sb, destination, images, false);
    } else {
        assert(journal_region::image_on(disk, sb) is Ok) by {
            reveal(journal_checkpoint::settle_step);
        }
        journal_checkpoint::law_settle_keeps_home(disk, sb);
        journal_checkpoint::lemma_settled_already(base, sb);
        let count = images.len() as int;
        law_clone_create_at_path(base, sb, source, 0, count, destination, false);
        assert(images.subrange(0, count) =~= images);
    }
}

} // verus!
