//! Shortening files.

use vstd::prelude::*;
use crate::allocation::{AllocView, BlockAllocator};
use crate::allocation;
use crate::block;
use crate::block::{Block, BlockDevice, Disk, BLOCK_SIZE};
use crate::bytes;
use crate::contents;
use crate::error::{Error, ErrorKind};
use crate::file_append_batch;
use crate::file_append_batch::{byte_len_to_block_count, prepare_existing_tail_zero};
use crate::file_blocks;
use crate::file_blocks::{find_file, invalid_data, invalid_input, load_tables, splice_blocks};
use crate::format::Superblock;
use crate::inode::InodeKind;
use crate::inode_codec;
use crate::inode_codec::{InodeView, PersistedInode};
use crate::inode_table;
use crate::journal_region;
use crate::ownership;
use crate::recovery;
use crate::recovery::{HomeWrite, RecoveryReport};
use crate::soundness;
use crate::step;
use crate::step::Step;
use crate::update;
use crate::update::{store_update_and_checkpoint, Update};

verus! {

/// A file after it was shortened.
pub struct Shortened {
    pub allocator: AllocView,
    pub inode: InodeView,
    pub released: Seq<u64>,
    pub tail: Seq<HomeWrite>,
}

/// A file shortened to `target` blocks: the blocks behind are released, and the end of file stays
/// as far before the end of the last block as it was.
pub open spec fn shorten_blocks(a: AllocView, inode: InodeView, target: int) -> Result<Shortened, ErrorKind> {
    if target >= inode.blocks.len() {
        Err(ErrorKind::InvalidInput)
    } else {
        match file_blocks::splice(a, inode, target, inode.blocks.len() as int, 0, false) {
            Err(kind) => Err(kind),
            Ok(s) => Ok(
                Shortened {
                    allocator: s.allocator,
                    inode: s.inode,
                    released: s.displaced,
                    tail: Seq::empty(),
                },
            ),
        }
    }
}

/// A file shortened to exactly `target` bytes: the blocks that are not needed any more are
/// released, and the rest of the last block is zeroed.
pub open spec fn shorten_bytes(disk: Disk, a: AllocView, inode: InodeView, target: u64) -> Result<Shortened, ErrorKind> {
    let have = inode.blocks.len() as int;
    let need = file_append_batch::blocks_for(target as int);
    match inode_codec::checked_len(inode, true) {
        None => Err(ErrorKind::InvalidData),
        Some(len) => if target >= len {
            Err(ErrorKind::InvalidInput)
        } else {
            match file_blocks::splice(a, inode, need, have, 0, false) {
                Err(kind) => Err(kind),
                Ok(s) => {
                    let next = InodeView { byte_len: target, ..s.inode };
                    match file_append_batch::tail_zeroing(disk, s.allocator, next, target as int) {
                        Err(kind) => Err(kind),
                        Ok(tail) => if inode_codec::exact(next) {
                            Ok(
                                Shortened {
                                    allocator: s.allocator,
                                    inode: next,
                                    released: s.displaced,
                                    tail,
                                },
                            )
                        } else {
                            Err(ErrorKind::InvalidInput)
                        },
                    }
                },
            }
        },
    }
}

/// The transaction that makes a file as short as planned.
pub open spec fn shortened_step(disk: Disk, sb: Superblock, inodes: Seq<InodeView>, index: int, plan: Result<Shortened, ErrorKind>) -> Step<(Seq<u64>, RecoveryReport)> {
    match plan {
        Err(kind) => step::stay(disk, Err(kind)),
        Ok(s) => {
            let u = Update {
                allocator: Some(s.allocator),
                inodes: Some(inodes.update(index, s.inode)),
                entries: None,
                data: s.tail,
            };
            let stored = update::settled_update_step(disk, sb, u, true);
            Step {
                disk: stored.disk,
                result: match stored.result {
                    Ok(report) => Ok((s.released, report)),
                    Err(kind) => Err(kind),
                },
            }
        },
    }
}

/// A file shortened to a number of blocks as one transaction.
pub open spec fn truncate_blocks_step(disk: Disk, sb: Superblock, id: u64, target: int) -> Step<(Seq<u64>, RecoveryReport)> {
    match file_blocks::tables_on(disk, sb) {
        Err(kind) => step::stay(disk, Err(kind)),
        Ok((a, inodes)) => match file_blocks::file_index(inodes, id) {
            Err(kind) => step::stay(disk, Err(kind)),
            Ok(i) => shortened_step(disk, sb, inodes, i, shorten_blocks(a, inodes[i], target)),
        },
    }
}

/// A file shortened to a number of bytes as one transaction.
pub open spec fn truncate_bytes_step(disk: Disk, sb: Superblock, id: u64, target: u64) -> Step<(Seq<u64>, RecoveryReport)> {
    match file_blocks::tables_on(disk, sb) {
        Err(kind) => step::stay(disk, Err(kind)),
        Ok((a, inodes)) => match file_blocks::file_index(inodes, id) {
            Err(kind) => step::stay(disk, Err(kind)),
            Ok(i) => shortened_step(
                disk,
                sb,
                inodes,
                i,
                shorten_bytes(disk, a, inodes[i], target),
            ),
        },
    }
}

/// Shortens a regular file to a number of blocks as one transaction and returns the released
/// storage blocks.
pub fn truncate_file_to_blocks_journaled<D: BlockDevice>(device: &mut D, superblock: &Superblock, inode_id: u64, target_blocks: usize) -> (r: Result<(Vec<u64>, RecoveryReport), Error>)
    ensures
        journal_region::carried_out(
            old(device),
            final(device),
            *superblock,
            file_blocks::block_list(r),
            truncate_blocks_step(
                old(device).blocks(),
                *superblock,
                inode_id,
                target_blocks as int,
            ),
        ),
{
    broadcast use journal_region::group_atomic;

    let (mut allocator, mut inodes) = load_tables(device, superblock)?;
    let index: usize = find_file(inodes.as_slice(), inode_id)?;
    let len: usize = inodes[index].blocks.len();
    if target_blocks >= len {
        return Err(invalid_input("truncate target must be below current logical-block count"));
    }
    let ghost before = inodes@;
    let (_fresh, released) = splice_blocks(
        &mut allocator,
        &mut inodes[index],
        target_blocks,
        len,
        0,
        false,
    )?;
    proof {
        file_blocks::lemma_views_update(before, inodes@, index as int);
    }
    let none: Vec<(u64, Block)> = Vec::new();
    assert(recovery::write_views(none@) =~= Seq::<HomeWrite>::empty());
    let report = store_update_and_checkpoint(
        device,
        superblock,
        Some(&allocator),
        Some(inodes.as_slice()),
        None,
        none.as_slice(),
        true,
    )?;
    Ok((released, report))
}

/// Plans the shortening of one file to a number of bytes; the allocator and the inode are changed
/// in place.
fn prepare_shortening<D: BlockDevice>(device: &mut D, allocator: &mut BlockAllocator, inode: &mut PersistedInode, target_bytes: u64) -> (r: Result<(Vec<u64>, Vec<(u64, Block)>), Error>)
    requires
        old(allocator)@.wf(),
        old(allocator)@.first + old(allocator)@.owned.len() <= old(device).blocks().len(),
        old(inode)@.kind == InodeKind::File,
    ensures
        block::untouched(old(device), final(device)),
        match r {
            Ok((released, tail)) => shorten_bytes(
                old(device).blocks(),
                old(allocator)@,
                old(inode)@,
                target_bytes,
            ) == Ok::<Shortened, ErrorKind>(
                Shortened {
                    allocator: final(allocator)@,
                    inode: final(inode)@,
                    released: released@,
                    tail: recovery::write_views(tail@),
                },
            ),
            Err(e) => !old(device).healthy() || shorten_bytes(
                old(device).blocks(),
                old(allocator)@,
                old(inode)@,
                target_bytes,
            ) == Err::<Shortened, ErrorKind>(e.kind),
        },
{
    let current_bytes: u64 = match inode.canonical_byte_len() {
        Ok(n) => n,
        Err(_) => return Err(invalid_data("truncate inode is invalid")),
    };
    if target_bytes >= current_bytes {
        return Err(invalid_input("truncate target must be below current EOF"));
    }
    let have: usize = inode.blocks.len();
    assert(file_append_batch::blocks_for(target_bytes as int) <= have);
    let need: usize = byte_len_to_block_count(target_bytes)?;
    proof {
        lemma_splice_geometry(allocator@, inode@, need as int, have as int);
    }
    let (_fresh, released) = splice_blocks(allocator, inode, need, have, 0, false)?;
    inode.byte_len = target_bytes;
    let tail = prepare_existing_tail_zero(device, allocator, inode, target_bytes)?;
    inode.set_file_byte_len(target_bytes)?;
    Ok((released, tail))
}

proof fn lemma_splice_geometry(a: AllocView, inode: InodeView, start: int, end: int)
    requires
        a.wf(),
    ensures
        file_blocks::splice(a, inode, start, end, 0, false) matches Ok(s) ==> s.allocator.first
            == a.first && s.allocator.owned.len() == a.owned.len() && s.inode.kind == inode.kind,
{
    crate::allocation::law_releasing(a, inode.blocks.subrange(start, end));
}

/// Shortens a regular file to exactly `target_bytes` bytes as one transaction and returns the
/// released storage blocks.
pub fn truncate_file_to_bytes_journaled<D: BlockDevice>(device: &mut D, superblock: &Superblock, inode_id: u64, target_bytes: u64) -> (r: Result<(Vec<u64>, RecoveryReport), Error>)
    ensures
        journal_region::carried_out(
            old(device),
            final(device),
            *superblock,
            file_blocks::block_list(r),
            truncate_bytes_step(old(device).blocks(), *superblock, inode_id, target_bytes),
        ),
{
    broadcast use journal_region::group_atomic;

    let (mut allocator, mut inodes) = load_tables(device, superblock)?;
    let index: usize = find_file(inodes.as_slice(), inode_id)?;
    let ghost before = inodes@;
    let (released, tail) = prepare_shortening(
        device,
        &mut allocator,
        &mut inodes[index],
        target_bytes,
    )?;
    proof {
        file_blocks::lemma_views_update(before, inodes@, index as int);
    }
    let report = store_update_and_checkpoint(
        device,
        superblock,
        Some(&allocator),
        Some(inodes.as_slice()),
        None,
        tail.as_slice(),
        true,
    )?;
    Ok((released, report))
}

/// A file that is shortened to a number of bytes has that length, keeps its bytes up to there and
/// holds zeros behind them in its last block, and nothing else changes. The blocks that are handed
/// back are those it has no longer.
pub proof fn law_truncate_bytes(disk: Disk, sb: Superblock, id: u64, index: int, target: u64)
    requires
        soundness::sound_on(disk, sb),
        contents::full_blocks(disk),
        file_blocks::file_index(soundness::tables_of(disk, sb).inodes, id) == Ok::<int, ErrorKind>(
            index,
        ),
        truncate_bytes_step(disk, sb, id, target).result is Ok,
    ensures
        ({
            let end = truncate_bytes_step(disk, sb, id, target).disk;
            let before = soundness::tables_of(disk, sb).inodes[index];
            let after = soundness::tables_of(end, sb).inodes[index];
            &&& contents::only_changed(disk, end, sb, index)
            &&& after.byte_len == target
            &&& target <= after.blocks.len() * BLOCK_SIZE
            &&& before.blocks == after.blocks + truncate_bytes_step(
                disk,
                sb,
                id,
                target,
            ).result->Ok_0.0
            &&& forall|p: int|
                0 <= p < after.blocks.len() * BLOCK_SIZE ==> #[trigger] contents::byte_at(
                    end,
                    after,
                    p,
                ) == if p < target {
                    contents::byte_at(disk, before, p)
                } else {
                    0
                }
        }),
{
    broadcast use bytes::group_bytes;

    let t = soundness::tables_of(disk, sb);
    soundness::lemma_sound_parts(disk, sb);
    file_blocks::lemma_index_from(t.inodes, id, 0);
    let inode = t.inodes[index];
    let have = inode.blocks.len() as int;
    let need = file_append_batch::blocks_for(target as int);
    let offset = target as int % (BLOCK_SIZE as int);
    let plan = shorten_bytes(disk, t.allocator, inode, target)->Ok_0;
    let next = plan.inode;
    assert(inode_codec::exact(inode));
    inode_table::lemma_canonical_exact(inode);
    let s = file_blocks::splice(t.allocator, inode, need, have, 0, false)->Ok_0;
    assert(need <= have);
    ownership::lemma_fresh(t.allocator, 0, false);
    assert(s.inode.blocks =~= inode.blocks.subrange(0, need));
    ownership::law_splice_keeps_ownership(t.allocator, t.inodes, index, need, have, 0, false);
    ownership::lemma_same_blocks(s.allocator, t.inodes, index, s.inode, next);
    let u = Update {
        allocator: Some(plan.allocator),
        inodes: Some(t.inodes.update(index, next)),
        entries: None,
        data: plan.tail,
    };
    allocation::law_releasing(t.allocator, s.displaced);
    let taken = file_blocks::fresh_blocks(t.allocator, 0, false)->Some_0.0;
    allocation::law_releasing(taken, s.displaced);
    assert forall|k: int| 0 <= k < u.data.len() implies sb.data_start() <= (#[trigger] u.data[k]).0
        < sb.total_blocks && u.data[k].1.len() == BLOCK_SIZE && t.inodes[index].blocks.contains(
        u.data[k].0,
    ) && u.data[k].0 == next.blocks.last() by {
        assert(s.allocator.owns(next.blocks.last()));
        assert(inode.blocks[need - 1] == next.blocks.last());
        assert(t.allocator.covers(next.blocks.last()));
    }
    assert forall|k: int, j: int, m: int|
        #![trigger u.data[k], t.inodes[j].blocks[m]]
        0 <= k < u.data.len() && 0 <= j < t.inodes.len() && j != index && 0 <= m
            < t.inodes[j].blocks.len() implies u.data[k].0 != t.inodes[j].blocks[m] by {
        contents::lemma_stays_clear(t.allocator, t.inodes, index, u.data[k].0, j, m);
    }
    let replayed = recovery::applied(disk, u.data);
    let images = contents::images_of(replayed, next);
    contents::lemma_file_update(disk, sb, index, next, u, true, images);
    let end = truncate_bytes_step(disk, sb, id, target).disk;
    recovery::lemma_applied(disk, u.data);
    assert(next.blocks.len() == need);
    assert forall|p: int| 0 <= p < need * BLOCK_SIZE implies #[trigger] contents::byte_at(
        end,
        next,
        p,
    ) == if p < target {
        contents::byte_at(disk, inode, p)
    } else {
        0
    } by {
        let q = p / (BLOCK_SIZE as int);
        let r = p % (BLOCK_SIZE as int);
        assert(0 <= q < need);
        assert(contents::images_of(end, next)[q] == images[q]);
        assert(next.blocks[q] == inode.blocks[q]);
        contents::lemma_mapped_owned(t.allocator, t.inodes, index, q);
        if u.data.len() > 0 {
            reveal_with_fuel(recovery::applied, 2);
            let block = next.blocks.last();
            assert(u.data.drop_last() =~= Seq::<HomeWrite>::empty());
            assert(replayed == disk.update(block as int, u.data[0].1));
            if q == need - 1 {
                assert(p < target ==> r < offset);
                assert(p >= target ==> r >= offset);
                assert(u.data[0].1[r] == if r < offset {
                    disk[block as int][r]
                } else {
                    0
                });
            } else {
                assert(inode.blocks[q] != inode.blocks[need - 1] || inode.blocks[q]
                    == inode_codec::SPARSE_HOLE_BLOCK);
            }
        } else if p >= target {
            let image = disk[next.blocks.last() as int];
            assert(q == need - 1 && r >= offset);
            assert(image == bytes::patch(
                image,
                offset,
                bytes::zeros((BLOCK_SIZE - offset) as nat),
            ));
        }
    }
}

/// A file that is shortened to a number of blocks keeps these blocks, and nothing else changes.
pub proof fn law_truncate_blocks(disk: Disk, sb: Superblock, id: u64, index: int, target: int)
    requires
        soundness::sound_on(disk, sb),
        file_blocks::file_index(soundness::tables_of(disk, sb).inodes, id) == Ok::<int, ErrorKind>(
            index,
        ),
        0 <= target,
        truncate_blocks_step(disk, sb, id, target).result is Ok,
    ensures
        contents::rewritten(
            disk,
            truncate_blocks_step(disk, sb, id, target).disk,
            sb,
            index,
            contents::images_of(disk, soundness::tables_of(disk, sb).inodes[index]).subrange(
                0,
                target,
            ),
        ),
        contents::exchanged_range(
            disk,
            truncate_blocks_step(disk, sb, id, target).disk,
            sb,
            index,
            target,
            soundness::tables_of(disk, sb).inodes[index].blocks.len() as int,
            Seq::empty(),
            Seq::empty(),
            truncate_blocks_step(disk, sb, id, target).result->Ok_0.0,
        ),
{
    let t = soundness::tables_of(disk, sb);
    soundness::lemma_sound_parts(disk, sb);
    file_blocks::lemma_index_from(t.inodes, id, 0);
    let inode = t.inodes[index];
    let have = inode.blocks.len() as int;
    let s = file_blocks::splice(t.allocator, inode, target, have, 0, false)->Ok_0;
    ownership::lemma_fresh(t.allocator, 0, false);
    ownership::law_splice_keeps_ownership(t.allocator, t.inodes, index, target, have, 0, false);
    let u = Update {
        allocator: Some(s.allocator),
        inodes: Some(t.inodes.update(index, s.inode)),
        entries: None,
        data: Seq::empty(),
    };
    let wanted = contents::images_of(disk, inode).subrange(0, target);
    assert forall|i: int| 0 <= i < wanted.len() implies contents::block_image(
        disk,
        #[trigger] s.inode.blocks[i],
    ) == wanted[i] by {}
    contents::lemma_file_update(disk, sb, index, s.inode, u, true, wanted);
    assert(s.fresh =~= Seq::<u64>::empty());
    let before = contents::images_of(disk, inode);
    assert(wanted =~= before.subrange(0, target) + before.subrange(have, have));
    contents::lemma_removed_range(
        disk,
        truncate_blocks_step(disk, sb, id, target).disk,
        sb,
        index,
        target,
        have,
    );
}

} // verus!
