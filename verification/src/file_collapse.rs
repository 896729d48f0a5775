//! Removing blocks from a file.

use vstd::prelude::*;
use crate::allocation::AllocView;
use crate::allocation;
use crate::block::BLOCK_SIZE;
use crate::block::{Block, BlockDevice, Disk};
use crate::contents;
use crate::directory_table;
use crate::directory_table::load_directory_table;
use crate::error::{Error, ErrorKind};
use crate::file_blocks;
use crate::file_blocks::{find_file, invalid_input, load_tables, splice_blocks};
use crate::file_insert_batch;
use crate::format::Superblock;
use crate::inode_codec;
use crate::inode_table;
use crate::journal_region;
use crate::ownership;
use crate::recovery::{HomeWrite, RecoveryReport};
use crate::soundness;
use crate::step;
use crate::step::Step;
use crate::update;
use crate::update::{store_update_and_checkpoint, Update};

verus! {

/// `count` logical blocks of a file from `start` on removed and released.
pub open spec fn collapse_step(disk: Disk, sb: Superblock, id: u64, start: int, count: int) -> Step<(Seq<u64>, RecoveryReport)> {
    if count == 0 || start + count > usize::MAX {
        step::stay(disk, Err(ErrorKind::InvalidInput))
    } else {
        match (file_blocks::tables_on(disk, sb), directory_table::entries_on(disk, sb)) {
            (Err(kind), _) => step::stay(disk, Err(kind)),
            (_, Err(kind)) => step::stay(disk, Err(kind)),
            (Ok((a, inodes)), Ok(entries)) => match file_blocks::file_index(inodes, id) {
                Err(kind) => step::stay(disk, Err(kind)),
                Ok(i) => if start + count > inodes[i].blocks.len() {
                    step::stay(disk, Err(ErrorKind::InvalidInput))
                } else {
                    match file_blocks::splice(a, inodes[i], start, start + count, 0, false) {
                        Err(kind) => step::stay(disk, Err(kind)),
                        Ok(s) => {
                            let u = Update {
                                allocator: Some(s.allocator),
                                inodes: Some(inodes.update(i, s.inode)),
                                entries: Some(entries),
                                data: Seq::empty(),
                            };
                            let stored = update::settled_update_step(disk, sb, u, false);
                            Step {
                                disk: stored.disk,
                                result: match stored.result {
                                    Ok(report) => Ok((s.displaced, report)),
                                    Err(kind) => Err(kind),
                                },
                            }
                        },
                    }
                },
            },
        }
    }
}

/// Removes a range of blocks from a regular file as one transaction and returns the released
/// storage blocks; what follows moves forward.
pub fn collapse_file_block_range_journaled<D: BlockDevice>(
    device: &mut D,
    superblock: &Superblock,
    inode_id: u64,
    start_index: usize,
    block_count: usize,
) -> (r: Result<(Vec<u64>, RecoveryReport), Error>)
    ensures
        journal_region::carried_out(
            old(device),
            final(device),
            *superblock,
            file_blocks::block_list(r),
            collapse_step(
                old(device).blocks(),
                *superblock,
                inode_id,
                start_index as int,
                block_count as int,
            ),
        ),
        r matches Ok((released, _)) ==> released@.len() == block_count,
        step::turned_away(
            old(device),
            final(device),
            file_blocks::block_list(r),
            block_count == 0 || start_index + block_count > usize::MAX,
        ),
{
    broadcast use journal_region::group_atomic;

    if block_count == 0 {
        return Err(invalid_input("file collapse range must remove at least one block"));
    }
    let end_index: usize = match start_index.checked_add(block_count) {
        Some(end) => end,
        None => return Err(invalid_input("file collapse range index overflow")),
    };
    let (mut allocator, mut inodes) = load_tables(device, superblock)?;
    let entries = load_directory_table(device, superblock)?;
    let index: usize = find_file(inodes.as_slice(), inode_id)?;
    if end_index > inodes[index].blocks.len() {
        return Err(invalid_input("file collapse range is outside the file"));
    }
    let ghost before = inodes@;
    let (_fresh, released) = splice_blocks(
        &mut allocator,
        &mut inodes[index],
        start_index,
        end_index,
        0,
        false,
    )?;
    proof {
        file_blocks::lemma_views_update(before, inodes@, index as int);
    }
    let none: Vec<(u64, Block)> = Vec::new();
    assert(crate::recovery::write_views(none@) =~= Seq::<HomeWrite>::empty());
    let report = store_update_and_checkpoint(
        device,
        superblock,
        Some(&allocator),
        Some(inodes.as_slice()),
        Some(entries.as_slice()),
        none.as_slice(),
        false,
    )?;
    Ok((released, report))
}

/// A range of a file that is removed is gone, what follows moves forward, and nothing else changes.
pub proof fn law_collapse(disk: Disk, sb: Superblock, id: u64, index: int, start: int, count: int)
    requires
        soundness::sound_on(disk, sb),
        file_blocks::file_index(soundness::tables_of(disk, sb).inodes, id) == Ok::<int, ErrorKind>(
            index,
        ),
        0 <= start,
        0 <= count,
        collapse_step(disk, sb, id, start, count).result is Ok,
    ensures
        ({
            let before = contents::images_of(disk, soundness::tables_of(disk, sb).inodes[index]);
            let t = soundness::tables_of(disk, sb);
            let s = file_blocks::splice(
                t.allocator,
                t.inodes[index],
                start,
                start + count,
                0,
                false,
            )->Ok_0;
            &&& contents::rewritten(
                disk,
                collapse_step(disk, sb, id, start, count).disk,
                sb,
                index,
                before.subrange(0, start) + before.subrange(start + count, before.len() as int),
            )
            &&& soundness::tables_of(collapse_step(disk, sb, id, start, count).disk, sb) == (
            soundness::Tables {
                allocator: s.allocator,
                inodes: t.inodes.update(index, s.inode),
                entries: t.entries,
            })
            &&& contents::exchanged_range(
                disk,
                collapse_step(disk, sb, id, start, count).disk,
                sb,
                index,
                start,
                start + count,
                Seq::empty(),
                Seq::empty(),
                collapse_step(disk, sb, id, start, count).result->Ok_0.0,
            )
        }),
{
    let t = soundness::tables_of(disk, sb);
    let inode = t.inodes[index];
    let before = contents::images_of(disk, inode);
    soundness::lemma_sound_parts(disk, sb);
    file_blocks::lemma_index_from(t.inodes, id, 0);
    ownership::law_splice_keeps_ownership(
        t.allocator,
        t.inodes,
        index,
        start,
        start + count,
        0,
        false,
    );
    let s = file_blocks::splice(t.allocator, inode, start, start + count, 0, false)->Ok_0;
    let wanted = before.subrange(0, start) + before.subrange(start + count, before.len() as int);
    let u = Update {
        allocator: Some(s.allocator),
        inodes: Some(t.inodes.update(index, s.inode)),
        entries: Some(t.entries),
        data: Seq::empty(),
    };
    ownership::lemma_fresh(t.allocator, 0, false);
    assert forall|i: int| 0 <= i < wanted.len() implies contents::block_image(
        disk,
        #[trigger] s.inode.blocks[i],
    ) == wanted[i] by {}
    contents::lemma_file_update(disk, sb, index, s.inode, u, false, wanted);
    assert(soundness::tables_of(collapse_step(disk, sb, id, start, count).disk, sb).inodes
        =~= t.inodes.update(index, s.inode));
    assert(s.fresh =~= Seq::<u64>::empty());
    contents::lemma_removed_range(
        disk,
        collapse_step(disk, sb, id, start, count).disk,
        sb,
        index,
        start,
        start + count,
    );
}

/// Two allocation states of the same blocks with the same blocks in use are one.
proof fn lemma_same_state(a: AllocView, b: AllocView)
    requires
        a.wf(),
        a.first == b.first,
        a.owned.len() == b.owned.len(),
        forall|block: u64| #[trigger] a.owns(block) == b.owns(block),
    ensures
        a == b,
{
    assert forall|i: int| 0 <= i < a.owned.len() implies a.owned[i] == b.owned[i] by {
        assert(a.owns((a.first + i) as u64) == b.owns((a.first + i) as u64));
    }
    assert(a.owned =~= b.owned);
}

/// What the insertion of blocks does to the tables.
proof fn lemma_insert_tables(disk: Disk, sb: Superblock, id: u64, at: int, images: Seq<Seq<u8>>, contiguous: bool)
    requires
        forall|i: int| 0 <= i < images.len() ==> (#[trigger] images[i]).len() == BLOCK_SIZE,
        0 <= at,
        file_insert_batch::insert_step(disk, sb, id, at, images, contiguous).result is Ok,
    ensures
        ({
            let t = soundness::tables_of(disk, sb);
            let end = file_insert_batch::insert_step(disk, sb, id, at, images, contiguous).disk;
            &&& t.allocator.wf()
            &&& images.len() > 0
            &&& file_blocks::file_index(t.inodes, id) matches Ok(i) && 0 <= i < t.inodes.len() && at
                <= t.inodes[i].blocks.len() && inode_codec::exact(t.inodes[i]) && (
            file_blocks::splice(t.allocator, t.inodes[i], at, at, images.len(), contiguous) matches Ok(
                s,
            ) && soundness::tables_of(end, sb) == (soundness::Tables {
                allocator: s.allocator,
                inodes: t.inodes.update(i, s.inode),
                entries: t.entries,
            }))
            &&& soundness::readable_on(disk, sb) ==> soundness::readable_on(end, sb)
        }),
{
    let t = soundness::tables_of(disk, sb);
    let index = file_blocks::file_index(t.inodes, id)->Ok_0;
    file_blocks::lemma_index_from(t.inodes, id, 0);
    inode_table::lemma_inodes_exact(disk, sb);
    soundness::lemma_allocator_shape(disk, sb);
    let inode = t.inodes[index];
    assert(inode_codec::exact(inode));
    let s = file_blocks::splice(t.allocator, inode, at, at, images.len(), contiguous)->Ok_0;
    ownership::lemma_fresh(t.allocator, images.len(), contiguous);
    let u = Update {
        allocator: Some(s.allocator),
        inodes: Some(t.inodes.update(index, s.inode)),
        entries: None,
        data: file_blocks::paired(s.fresh, images),
    };
    assert forall|k: int| 0 <= k < u.data.len() implies sb.data_start() <= (#[trigger] u.data[k]).0
        < sb.total_blocks && u.data[k].1.len() == BLOCK_SIZE by {
        assert(t.allocator.covers(s.fresh[k]));
    }
    soundness::lemma_update_tables(disk, sb, u, true);
}

/// What the removal of blocks does to the tables.
proof fn lemma_collapse_tables(disk: Disk, sb: Superblock, id: u64, start: int, count: int)
    requires
        0 <= start,
        0 <= count,
        collapse_step(disk, sb, id, start, count).result is Ok,
    ensures
        ({
            let t = soundness::tables_of(disk, sb);
            let end = collapse_step(disk, sb, id, start, count).disk;
            &&& file_blocks::file_index(t.inodes, id) matches Ok(i) && (file_blocks::splice(
                t.allocator,
                t.inodes[i],
                start,
                start + count,
                0,
                false,
            ) matches Ok(s) && soundness::tables_of(end, sb) == (soundness::Tables {
                allocator: s.allocator,
                inodes: t.inodes.update(i, s.inode),
                entries: t.entries,
            }))
            &&& soundness::readable_on(disk, sb) ==> soundness::readable_on(end, sb)
        }),
{
    let t = soundness::tables_of(disk, sb);
    let index = file_blocks::file_index(t.inodes, id)->Ok_0;
    file_blocks::lemma_index_from(t.inodes, id, 0);
    inode_table::lemma_inodes_exact(disk, sb);
    let s = file_blocks::splice(
        t.allocator,
        t.inodes[index],
        start,
        start + count,
        0,
        false,
    )->Ok_0;
    let u = Update {
        allocator: Some(s.allocator),
        inodes: Some(t.inodes.update(index, s.inode)),
        entries: Some(t.entries),
        data: Seq::empty(),
    };
    soundness::lemma_update_tables(disk, sb, u, false);
}

/// A range of blocks that is inserted into a file and removed again leaves every table as it was:
/// mapping, byte length, blocks in use and names. A sound device stays sound.
pub proof fn law_insert_collapse(disk: Disk, sb: Superblock, id: u64, at: int, images: Seq<Seq<u8>>, contiguous: bool)
    requires
        forall|i: int| 0 <= i < images.len() ==> (#[trigger] images[i]).len() == BLOCK_SIZE,
        0 <= at,
        file_insert_batch::insert_step(disk, sb, id, at, images, contiguous).result is Ok,
        collapse_step(
            file_insert_batch::insert_step(disk, sb, id, at, images, contiguous).disk,
            sb,
            id,
            at,
            images.len() as int,
        ).result is Ok,
    ensures
        ({
            let end = collapse_step(
                file_insert_batch::insert_step(disk, sb, id, at, images, contiguous).disk,
                sb,
                id,
                at,
                images.len() as int,
            ).disk;
            &&& soundness::tables_of(end, sb) == soundness::tables_of(disk, sb)
            &&& soundness::sound_on(disk, sb) ==> soundness::sound_on(end, sb)
        }),
{
    let n = images.len();
    let mid = file_insert_batch::insert_step(disk, sb, id, at, images, contiguous).disk;
    let end = collapse_step(mid, sb, id, at, n as int).disk;
    let t = soundness::tables_of(disk, sb);
    let m = soundness::tables_of(mid, sb);
    lemma_insert_tables(disk, sb, id, at, images, contiguous);
    let index = file_blocks::file_index(t.inodes, id)->Ok_0;
    let inode = t.inodes[index];
    soundness::lemma_same_index(t.inodes, m.inodes, id, 0);
    lemma_collapse_tables(mid, sb, id, at, n as int);
    let s = file_blocks::splice(t.allocator, inode, at, at, n, contiguous)->Ok_0;
    let (taken, fresh) = file_blocks::fresh_blocks(t.allocator, n, contiguous)->Some_0;
    let back = file_blocks::splice(s.allocator, s.inode, at, at + n, 0, false)->Ok_0;
    ownership::lemma_fresh(t.allocator, n, contiguous);
    assert(inode.blocks.subrange(at, at) =~= Seq::<u64>::empty());
    assert(s.allocator == taken);
    assert(s.inode.blocks.subrange(at, at + n) =~= fresh);
    inode_codec::law_replaced_back(inode, at, at, fresh);
    assert(back.inode == inode);
    allocation::law_releasing(taken, fresh);
    assert forall|block: u64| #[trigger] t.allocator.owns(block) == back.allocator.owns(block) by {
        if fresh.contains(block) {
            let i = choose|i: int| 0 <= i < fresh.len() && fresh[i] == block;
            assert(!t.allocator.owns(fresh[i]));
        }
        assert(taken.owns(block) == (t.allocator.owns(block) || fresh.contains(block)));
    }
    lemma_same_state(t.allocator, back.allocator);
    assert(m.inodes.update(index, back.inode) =~= t.inodes);
    soundness::lemma_sound_again(disk, end, sb);
}

} // verus!
