//! Bringing the blocks of files together, by path name.

use vstd::prelude::*;
use crate::allocation;
use crate::allocation::AllocView;
use crate::block::{BlockDevice, Disk};
use crate::contents;
use crate::error::{Error, ErrorKind};
use crate::file_blocks;
use crate::file_blocks::{find_file, invalid_input, load_tables, mapping_range, snapshot_owned_blocks};
use crate::file_replace;
use crate::file_replace_contiguous::replace_file_blocks_contiguous_journaled;
use crate::format::Superblock;
use crate::journal::EntryView;
use crate::journal_checkpoint;
use crate::journal_checkpoint::recover_journal_and_checkpoint;
use crate::journal_region;
use crate::ownership;
use crate::path_lookup;
use crate::path_lookup::resolve_path_following_symlinks;
use crate::recovery;
use crate::recovery::RecoveryReport;
use crate::soundness;
use crate::step;
use crate::step::Step;

verus! {

/// Each block of the list is the one after its predecessor.
pub open spec fn consecutive(blocks: Seq<u64>) -> bool {
    forall|i: int| 0 <= i < blocks.len() - 1 ==> #[trigger] blocks[i] + 1 == blocks[i + 1]
}

/// A range of a file moved to one contiguous run: left alone where it lies in one already.
pub open spec fn defragment_step(disk: Disk, sb: Superblock, id: u64, range: Option<(int, int)>) -> Step<(Seq<u64>, RecoveryReport)> {
    match file_blocks::tables_on(disk, sb) {
        Err(kind) => step::stay(disk, Err(kind)),
        Ok((a, inodes)) => match file_blocks::file_index(inodes, id) {
            Err(kind) => step::stay(disk, Err(kind)),
            Ok(i) => {
                let blocks = inodes[i].blocks;
                let (start, count) = match range {
                    Some((start, count)) => (start, count),
                    None => (0int, blocks.len() as int),
                };
                if count == 0 || start + count > blocks.len() {
                    step::stay(disk, Err(ErrorKind::InvalidInput))
                } else {
                    let selected = blocks.subrange(start, start + count);
                    match file_blocks::snapshot(disk, a, selected) {
                        None => step::stay(disk, Err(ErrorKind::InvalidData)),
                        Some(images) => if consecutive(selected) {
                            step::stay(disk, Ok((selected, recovery::no_recovery())))
                        } else {
                            file_blocks::first_list(
                                file_replace::replace_step(
                                    disk,
                                    sb,
                                    id,
                                    start,
                                    count,
                                    images,
                                    true,
                                ),
                            )
                        },
                    }
                }
            },
        },
    }
}

/// All blocks of the file that a path names moved to one contiguous run.
pub open spec fn defragment_at_step(disk: Disk, sb: Superblock, path: Seq<char>) -> Step<(Seq<u64>, RecoveryReport)> {
    journal_checkpoint::settled_then(
        disk,
        sb,
        |d: Disk|
            path_lookup::resolved_then(d, sb, path, |id: u64| defragment_step(d, sb, id, None)),
    )
}

/// A range of the file that a path names moved to one contiguous run.
pub open spec fn defragment_range_at_step(disk: Disk, sb: Superblock, path: Seq<char>, start: int, count: int) -> Step<(Seq<u64>, RecoveryReport)> {
    if count == 0 || start + count > usize::MAX {
        step::stay(disk, Err(ErrorKind::InvalidInput))
    } else {
        journal_checkpoint::settled_then(
            disk,
            sb,
            |d: Disk|
                path_lookup::resolved_then(
                    d,
                    sb,
                    path,
                    |id: u64| defragment_step(d, sb, id, Some((start, count))),
                ),
        )
    }
}

fn are_consecutive(blocks: &[u64]) -> (b: bool)
    ensures
        b == consecutive(blocks@),
{
    let mut i: usize = 1;
    while i < blocks.len()
        invariant
            1 <= i,
            i <= blocks@.len() || blocks@.len() == 0,
            forall|k: int| 0 <= k < i - 1 && k < blocks@.len() - 1 ==> #[trigger] blocks@[k] + 1 == blocks@[k + 1],
        decreases blocks@.len() - i,
    {
        if blocks[i - 1] == u64::MAX || blocks[i - 1] + 1 != blocks[i] {
            assert(blocks@[i - 1] + 1 != blocks@[i - 1 + 1]);
            return false;
        }
        i += 1;
    }
    true
}

fn defragment<D: BlockDevice>(device: &mut D, superblock: &Superblock, inode_id: u64, range: Option<(usize, usize)>) -> (r: Result<(Vec<u64>, RecoveryReport), Error>)
    ensures
        journal_region::carried_out(
            old(device),
            final(device),
            *superblock,
            file_blocks::block_list(r),
            defragment_step(
                old(device).blocks(),
                *superblock,
                inode_id,
                match range {
                    Some((start, count)) => Some((start as int, count as int)),
                    None => None,
                },
            ),
        ),
{
    broadcast use journal_region::group_atomic;

    let (allocator, inodes) = load_tables(device, superblock)?;
    let index: usize = find_file(inodes.as_slice(), inode_id)?;
    let len: usize = inodes[index].blocks.len();
    let (start, count): (usize, usize) = match range {
        Some((start, count)) => (start, count),
        None => (0, len),
    };
    if count == 0 || start > len || count > len - start {
        return Err(invalid_input("defragment range must be non-empty and inside the file"));
    }
    let selected = mapping_range(&inodes[index], start, start + count);
    let images = snapshot_owned_blocks(device, &allocator, selected.as_slice())?;
    if are_consecutive(selected.as_slice()) {
        return Ok((selected, RecoveryReport::default()));
    }
    let (fresh, _displaced, report) = replace_file_blocks_contiguous_journaled(
        device,
        superblock,
        inode_id,
        start,
        count,
        images.as_slice(),
    )?;
    Ok((fresh, report))
}

/// Moves all blocks of the regular file that a path names to one contiguous run, once the journal
/// is replayed and empty. Contents and logical order stay; a file that lies in one run already is
/// left alone.
pub fn defragment_file_contiguous_at_path_journaled<D: BlockDevice>(device: &mut D, superblock: &Superblock, path: &str) -> (r: Result<(Vec<u64>, RecoveryReport), Error>)
    ensures
        journal_region::carried_out(
            old(device),
            final(device),
            *superblock,
            file_blocks::block_list(r),
            defragment_at_step(old(device).blocks(), *superblock, path@),
        ),
{
    broadcast use journal_checkpoint::group_settled;

    recover_journal_and_checkpoint(device, *superblock)?;
    let inode_id: u64 = resolve_path_following_symlinks(device, superblock, path)?;
    defragment(device, superblock, inode_id, None)
}

/// Moves a range of the regular file that a path names to one contiguous run, once the journal is
/// replayed and empty. A range that lies in one run already is left alone.
pub fn defragment_file_range_contiguous_at_path_journaled<D: BlockDevice>(
    device: &mut D,
    superblock: &Superblock,
    path: &str,
    start: usize,
    block_count: usize,
) -> (r: Result<(Vec<u64>, RecoveryReport), Error>)
    ensures
        journal_region::carried_out(
            old(device),
            final(device),
            *superblock,
            file_blocks::block_list(r),
            defragment_range_at_step(
                old(device).blocks(),
                *superblock,
                path@,
                start as int,
                block_count as int,
            ),
        ),
        step::turned_away(
            old(device),
            final(device),
            file_blocks::block_list(r),
            block_count == 0 || start + block_count > usize::MAX,
        ),
{
    broadcast use journal_checkpoint::group_settled;

    if block_count == 0 {
        return Err(invalid_input("defragment range must contain at least one logical block"));
    }
    if start.checked_add(block_count).is_none() {
        return Err(invalid_input("defragment range overflows usize"));
    }
    recover_journal_and_checkpoint(device, *superblock)?;
    let inode_id: u64 = resolve_path_following_symlinks(device, superblock, path)?;
    defragment(device, superblock, inode_id, Some((start, block_count)))
}

proof fn lemma_run_is_consecutive(a: AllocView, count: nat)
    requires
        a.wf(),
        count > 0,
    ensures
        file_blocks::fresh_blocks(a, count, true) matches Some((b, fresh)) ==> fresh.len() == count
            && consecutive(fresh),
{
    allocation::law_taking_run(a, count);
    if let Some((b, first)) = a.taking_run(count) {
        let fresh = AllocView::run_of(first, count);
        assert forall|i: int| 0 <= i < fresh.len() - 1 implies #[trigger] fresh[i] + 1 == fresh[i
            + 1] by {
            assert(first + count <= u64::MAX);
        }
    }
}

/// A range that is defragmented lies in one run and holds what it held; nothing else changes.
pub proof fn law_defragment(disk: Disk, sb: Superblock, id: u64, index: int, range: Option<(int, int)>)
    requires
        soundness::sound_on(disk, sb),
        contents::full_blocks(disk),
        file_blocks::file_index(soundness::tables_of(disk, sb).inodes, id) == Ok::<int, ErrorKind>(
            index,
        ),
        range matches Some((start, count)) ==> 0 <= start && 0 <= count,
        defragment_step(disk, sb, id, range).result is Ok,
    ensures
        consecutive(defragment_step(disk, sb, id, range).result->Ok_0.0),
        ({
            let n = soundness::tables_of(defragment_step(disk, sb, id, range).disk, sb);
            let (start, count) = match range {
                Some((start, count)) => (start, count),
                None => (0int, soundness::tables_of(disk, sb).inodes[index].blocks.len() as int),
            };
            n.inodes[index].blocks.subrange(start, start + count) == defragment_step(
                disk,
                sb,
                id,
                range,
            ).result->Ok_0.0
        }),
        contents::rewritten(
            disk,
            defragment_step(disk, sb, id, range).disk,
            sb,
            index,
            contents::images_of(disk, soundness::tables_of(disk, sb).inodes[index]),
        ),
        defragment_step(disk, sb, id, range).disk == disk || journal_region::log_on(
            defragment_step(disk, sb, id, range).disk,
            sb,
        ) == Some(Seq::<EntryView>::empty()),
{
    let t = soundness::tables_of(disk, sb);
    soundness::lemma_sound_parts(disk, sb);
    file_blocks::lemma_index_from(t.inodes, id, 0);
    let blocks = t.inodes[index].blocks;
    let (start, count) = match range {
        Some((start, count)) => (start, count),
        None => (0int, blocks.len() as int),
    };
    let selected = blocks.subrange(start, start + count);
    let before = contents::images_of(disk, t.inodes[index]);
    let images = file_blocks::snapshot(disk, t.allocator, selected)->Some_0;
    contents::lemma_snapshot(disk, sb, index, start, start + count);
    if !consecutive(selected) {
        contents::law_splice(disk, sb, index, start, start + count, images, true);
        assert(before.subrange(0, start) + images + before.subrange(
            start + count,
            before.len() as int,
        ) =~= before);
        let s = file_blocks::splice(
            t.allocator,
            t.inodes[index],
            start,
            start + count,
            images.len(),
            true,
        )->Ok_0;
        lemma_run_is_consecutive(t.allocator, images.len());
        assert(s.inode.blocks.subrange(start, start + count) =~= s.fresh);
    }
}

/// A range that was defragmented is left alone by the next defragmentation, which hands back the
/// same blocks and commits nothing.
pub proof fn law_defragment_again(disk: Disk, sb: Superblock, id: u64, range: Option<(int, int)>)
    requires
        soundness::sound_on(disk, sb),
        contents::full_blocks(disk),
        range matches Some((start, count)) ==> 0 <= start && 0 <= count,
        defragment_step(disk, sb, id, range).result is Ok,
    ensures
        defragment_step(defragment_step(disk, sb, id, range).disk, sb, id, range) == step::stay(
            defragment_step(disk, sb, id, range).disk,
            Ok::<(Seq<u64>, RecoveryReport), ErrorKind>(
                (defragment_step(disk, sb, id, range).result->Ok_0.0, recovery::no_recovery()),
            ),
        ),
{
    let t = soundness::tables_of(disk, sb);
    soundness::lemma_sound_parts(disk, sb);
    let index = file_blocks::file_index(t.inodes, id)->Ok_0;
    file_blocks::lemma_index_from(t.inodes, id, 0);
    let blocks = t.inodes[index].blocks;
    let (start, count) = match range {
        Some((start, count)) => (start, count),
        None => (0int, blocks.len() as int),
    };
    let selected = blocks.subrange(start, start + count);
    law_defragment(disk, sb, id, index, range);
    if !consecutive(selected) {
        let images = file_blocks::snapshot(disk, t.allocator, selected)->Some_0;
        let end = defragment_step(disk, sb, id, range).disk;
        let m = soundness::tables_of(end, sb);
        contents::lemma_snapshot(disk, sb, index, start, start + count);
        contents::law_splice(disk, sb, index, start, start + count, images, true);
        let s = file_blocks::splice(
            t.allocator,
            t.inodes[index],
            start,
            start + count,
            images.len(),
            true,
        )->Ok_0;
        soundness::lemma_sound_parts(end, sb);
        soundness::lemma_same_index(t.inodes, m.inodes, id, 0);
        ownership::lemma_fresh(t.allocator, images.len(), true);
        let (taken, fresh) = file_blocks::fresh_blocks(t.allocator, images.len(), true)->Some_0;
        allocation::law_releasing(taken, s.displaced);
        assert(s.inode.blocks.subrange(start, start + count) =~= s.fresh);
        assert forall|i: int| 0 <= i < s.fresh.len() implies s.allocator.owns(#[trigger] s.fresh[i]) by {
            assert(fresh.contains(s.fresh[i]));
            assert(taken.owns(s.fresh[i]));
            if s.displaced.contains(s.fresh[i]) {
                let k = choose|k: int| 0 <= k < s.displaced.len() && s.displaced[k] == s.fresh[i];
                assert(t.allocator.owns(s.displaced[k]));
            }
        }
    }
}

/// What a path request settles to: the same request on the inode that the path names, which is as
/// settled afterwards.
proof fn lemma_defragment_at(disk: Disk, sb: Superblock, path: Seq<char>, range: Option<(int, int)>)
    requires
        soundness::sound_on(journal_checkpoint::settle_step(disk, sb).disk, sb),
        contents::full_blocks(journal_checkpoint::settle_step(disk, sb).disk),
        journal_checkpoint::settle_step(disk, sb).result is Ok,
        range matches Some((start, count)) ==> 0 <= start && 0 <= count,
        path_lookup::resolved(journal_checkpoint::settle_step(disk, sb).disk, sb, path, true) is Ok,
        defragment_step(
            journal_checkpoint::settle_step(disk, sb).disk,
            sb,
            path_lookup::resolved(
                journal_checkpoint::settle_step(disk, sb).disk,
                sb,
                path,
                true,
            )->Ok_0,
            range,
        ).result is Ok,
    ensures
        ({
            let base = journal_checkpoint::settle_step(disk, sb).disk;
            let id = path_lookup::resolved(base, sb, path, true)->Ok_0;
            let s = defragment_step(base, sb, id, range);
            let t = soundness::tables_of(base, sb);
            &&& file_blocks::file_index(t.inodes, id) matches Ok(i) && contents::rewritten(
                base,
                s.disk,
                sb,
                i,
                contents::images_of(base, t.inodes[i]),
            )
            &&& consecutive(s.result->Ok_0.0)
            &&& file_blocks::file_index(t.inodes, id) matches Ok(i) && ({
                let blocks = soundness::tables_of(s.disk, sb).inodes[i].blocks;
                s.result->Ok_0.0 == match range {
                    Some((start, count)) => blocks.subrange(start, start + count),
                    None => blocks,
                }
            })
            &&& journal_checkpoint::settle_step(s.disk, sb) == step::stay(
                s.disk,
                Ok::<RecoveryReport, ErrorKind>(recovery::no_recovery()),
            )
            &&& path_lookup::resolved(s.disk, sb, path, true) == Ok::<u64, ErrorKind>(id)
            &&& defragment_step(s.disk, sb, id, range) == step::stay(
                s.disk,
                Ok::<(Seq<u64>, RecoveryReport), ErrorKind>(
                    (s.result->Ok_0.0, recovery::no_recovery()),
                ),
            )
        }),
{
    let base = journal_checkpoint::settle_step(disk, sb).disk;
    let t = soundness::tables_of(base, sb);
    let id = path_lookup::resolved(base, sb, path, true)->Ok_0;
    let end = defragment_step(base, sb, id, range).disk;
    assert(journal_region::image_on(disk, sb) is Ok) by {
        reveal(journal_checkpoint::settle_step);
    }
    journal_checkpoint::law_settle_keeps_home(disk, sb);
    soundness::lemma_sound_parts(base, sb);
    let index = file_blocks::file_index(t.inodes, id)->Ok_0;
    file_blocks::lemma_index_from(t.inodes, id, 0);
    law_defragment(base, sb, id, index, range);
    law_defragment_again(base, sb, id, range);
    let blocks = soundness::tables_of(end, sb).inodes[index].blocks;
    assert(blocks.len() == contents::images_of(end, soundness::tables_of(end, sb).inodes[index]).len());
    assert(t.inodes[index].blocks.len() == contents::images_of(base, t.inodes[index]).len());
    assert(blocks.subrange(0, blocks.len() as int) =~= blocks);
    path_lookup::law_same_paths(
        base,
        end,
        sb,
        index,
        contents::images_of(base, t.inodes[index]),
        path,
        true,
    );
    soundness::lemma_sound_parts(end, sb);
    journal_checkpoint::lemma_settled_already(end, sb);
}

/// A file that is defragmented at a path lies in one run and holds what it held, and nothing else
/// changes. The next defragmentation at that path hands back the same blocks, commits nothing and
/// changes nothing. The device has to be sound once its journal is settled, which the request does
/// first.
pub proof fn law_defragment_at_path(disk: Disk, sb: Superblock, path: Seq<char>)
    requires
        soundness::sound_on(journal_checkpoint::settle_step(disk, sb).disk, sb),
        contents::full_blocks(journal_checkpoint::settle_step(disk, sb).disk),
        defragment_at_step(disk, sb, path).result is Ok,
    ensures
        ({
            let base = journal_checkpoint::settle_step(disk, sb).disk;
            let t = soundness::tables_of(base, sb);
            let s = defragment_at_step(disk, sb, path);
            &&& path_lookup::resolved(base, sb, path, true) matches Ok(id) && (
            file_blocks::file_index(t.inodes, id) matches Ok(i) && contents::rewritten(
                base,
                s.disk,
                sb,
                i,
                contents::images_of(base, t.inodes[i]),
            ) && soundness::tables_of(s.disk, sb).inodes[i].blocks == s.result->Ok_0.0)
            &&& consecutive(s.result->Ok_0.0)
            &&& defragment_at_step(s.disk, sb, path) == step::stay(
                s.disk,
                Ok::<(Seq<u64>, RecoveryReport), ErrorKind>(
                    (s.result->Ok_0.0, recovery::no_recovery()),
                ),
            )
        }),
{
    lemma_defragment_at(disk, sb, path, None);
}

/// The same of a range of a file that is defragmented at a path.
pub proof fn law_defragment_range_at_path(disk: Disk, sb: Superblock, path: Seq<char>, start: int, count: int)
    requires
        0 <= start,
        0 <= count,
        soundness::sound_on(journal_checkpoint::settle_step(disk, sb).disk, sb),
        contents::full_blocks(journal_checkpoint::settle_step(disk, sb).disk),
        defragment_range_at_step(disk, sb, path, start, count).result is Ok,
    ensures
        ({
            let base = journal_checkpoint::settle_step(disk, sb).disk;
            let t = soundness::tables_of(base, sb);
            let s = defragment_range_at_step(disk, sb, path, start, count);
            &&& path_lookup::resolved(base, sb, path, true) matches Ok(id) && (
            file_blocks::file_index(t.inodes, id) matches Ok(i) && contents::rewritten(
                base,
                s.disk,
                sb,
                i,
                contents::images_of(base, t.inodes[i]),
            ) && soundness::tables_of(s.disk, sb).inodes[i].blocks.subrange(start, start + count)
                == s.result->Ok_0.0)
            &&& consecutive(s.result->Ok_0.0)
            &&& defragment_range_at_step(s.disk, sb, path, start, count) == step::stay(
                s.disk,
                Ok::<(Seq<u64>, RecoveryReport), ErrorKind>(
                    (s.result->Ok_0.0, recovery::no_recovery()),
                ),
            )
        }),
{
    lemma_defragment_at(disk, sb, path, Some((start, count)));
}

} // verus!
