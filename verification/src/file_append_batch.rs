//! Appending several blocks, and growing a file to an exact size.

use vstd::prelude::*;
use crate::allocation::{AllocView, BlockAllocator};
use crate::allocation;
use crate::block;
use crate::block::{Block, BlockDevice, Disk, BLOCK_SIZE, BLOCK_SIZE_U64};
use crate::bytes;
use crate::bytes::{same_bytes, zero_vec};
use crate::contents;
use crate::error::{Error, ErrorKind};
use crate::file_blocks;
use crate::file_blocks::{find_file, invalid_data, invalid_input, load_tables, patched_block};
use crate::file_data;
use crate::file_data::append_blocks;
use crate::format::Superblock;
use crate::inode::InodeKind;
use crate::inode_codec;
use crate::inode_codec::{InodeView, PersistedInode};
use crate::inode_table;
use crate::journal_region;
use crate::ownership;
use crate::recovery;
use crate::recovery::{HomeWrite, RecoveryReport};
use crate::soundness;
use crate::step;
use crate::step::Step;
use crate::update;
use crate::update::{store_update_and_checkpoint, Update};

verus! {

/// Several fresh blocks with given contents at the end of a file.
pub open spec fn append_batch_step(disk: Disk, sb: Superblock, id: u64, images: Seq<Seq<u8>>) -> Step<(Seq<u64>, RecoveryReport)> {
    if images.len() == 0 {
        step::stay(disk, Err(ErrorKind::InvalidInput))
    } else {
        file_data::append_step(disk, sb, id, images, false)
    }
}

/// Appends blocks to a regular file as one transaction. The end of file moves by whole blocks.
pub fn append_file_blocks_journaled<D: BlockDevice>(
    device: &mut D,
    superblock: &Superblock,
    inode_id: u64,
    data_blocks: &[[u8; BLOCK_SIZE]],
) -> (r: Result<(Vec<u64>, RecoveryReport), Error>)
    ensures
        journal_region::carried_out(
            old(device),
            final(device),
            *superblock,
            file_blocks::block_list(r),
            append_batch_step(
                old(device).blocks(),
                *superblock,
                inode_id,
                file_blocks::image_views(data_blocks@),
            ),
        ),
        step::turned_away(
            old(device),
            final(device),
            file_blocks::block_list(r),
            data_blocks@.len() == 0,
        ),
{
    broadcast use journal_region::group_atomic;

    if data_blocks.is_empty() {
        return Err(invalid_input("multi-block append requires at least one data block"));
    }
    append_blocks(device, superblock, inode_id, data_blocks, false)
}

/// Blocks that `bytes` bytes take.
pub open spec fn blocks_for(bytes: int) -> int {
    (bytes + BLOCK_SIZE - 1) / (BLOCK_SIZE as int)
}

/// The write that zeroes the last block of a file behind its end: none where the end lies on a
/// block boundary or the block is zero there already.
pub open spec fn tail_zeroing(disk: Disk, a: AllocView, inode: InodeView, len: int) -> Result<Seq<HomeWrite>, ErrorKind> {
    let offset = len % (BLOCK_SIZE as int);
    let block = inode.blocks.last();
    let image = disk[block as int];
    let zeroed = bytes::patch(image, offset, bytes::zeros((BLOCK_SIZE - offset) as nat));
    if inode.blocks.len() == 0 || offset == 0 {
        Ok(Seq::empty())
    } else if !a.owns(block) {
        Err(ErrorKind::InvalidData)
    } else if zeroed == image {
        Ok(Seq::empty())
    } else {
        Ok(seq![(block, zeroed)])
    }
}

/// A file grown to an exact size.
pub struct Grown {
    pub allocator: AllocView,
    pub inode: InodeView,
    pub fresh: Seq<u64>,
    pub tail: Seq<HomeWrite>,
}

/// `count` blocks of zeros.
pub open spec fn zero_images(count: nat) -> Seq<Seq<u8>> {
    Seq::new(count, |i: int| bytes::zeros(BLOCK_SIZE as nat))
}

/// Growth of a file to exactly `target` bytes: the rest of the old last block is zeroed, and only
/// the blocks that are needed are taken.
pub open spec fn grow(disk: Disk, a: AllocView, inode: InodeView, target: u64) -> Result<Grown, ErrorKind> {
    let have = inode.blocks.len();
    let need = blocks_for(target as int);
    match inode_codec::checked_len(inode, true) {
        None => Err(ErrorKind::InvalidData),
        Some(len) => if target <= len || need > usize::MAX {
            Err(ErrorKind::InvalidInput)
        } else if need < have {
            Err(ErrorKind::InvalidData)
        } else {
            match tail_zeroing(disk, a, inode, len as int) {
                Err(kind) => Err(kind),
                Ok(tail) => match a.taking((need - have) as nat) {
                    None => Err(ErrorKind::InvalidInput),
                    Some((allocator, fresh)) => {
                        let mapped = if fresh.len() == 0 {
                            Some(inode)
                        } else {
                            inode_codec::replaced_range(inode, have as int, have as int, fresh)
                        };
                        match mapped {
                            None => Err(ErrorKind::InvalidInput),
                            Some(m) => {
                                let next = InodeView { byte_len: target, ..m };
                                if inode_codec::exact(next) {
                                    Ok(Grown { allocator, inode: next, fresh, tail })
                                } else {
                                    Err(ErrorKind::InvalidInput)
                                }
                            },
                        }
                    },
                },
            }
        },
    }
}

/// Growth of a file as one transaction.
pub open spec fn grow_step(disk: Disk, sb: Superblock, id: u64, target: u64) -> Step<(Seq<u64>, RecoveryReport)> {
    match file_blocks::tables_on(disk, sb) {
        Err(kind) => step::stay(disk, Err(kind)),
        Ok((a, inodes)) => match file_blocks::file_index(inodes, id) {
            Err(kind) => step::stay(disk, Err(kind)),
            Ok(i) => match grow(disk, a, inodes[i], target) {
                Err(kind) => step::stay(disk, Err(kind)),
                Ok(g) => {
                    let u = Update {
                        allocator: Some(g.allocator),
                        inodes: Some(inodes.update(i, g.inode)),
                        entries: None,
                        data: g.tail + file_blocks::paired(g.fresh, zero_images(g.fresh.len())),
                    };
                    let stored = update::settled_update_step(disk, sb, u, true);
                    Step {
                        disk: stored.disk,
                        result: match stored.result {
                            Ok(report) => Ok((g.fresh, report)),
                            Err(kind) => Err(kind),
                        },
                    }
                },
            },
        },
    }
}

pub(crate) fn byte_len_to_block_count(target_bytes: u64) -> (r: Result<usize, Error>)
    ensures
        match r {
            Ok(n) => n == blocks_for(target_bytes as int),
            Err(e) => blocks_for(target_bytes as int) > usize::MAX && e.kind
                == ErrorKind::InvalidInput,
        },
{
    let blocks: u64 = target_bytes / BLOCK_SIZE_U64 + if target_bytes % BLOCK_SIZE_U64 == 0 {
        0
    } else {
        1
    };
    if blocks > usize::MAX as u64 {
        return Err(invalid_input("byte-grow target block count exceeds usize"));
    }
    Ok(blocks as usize)
}

pub(crate) fn prepare_existing_tail_zero<D: BlockDevice>(
    device: &mut D,
    allocator: &BlockAllocator,
    inode: &PersistedInode,
    current_bytes: u64,
) -> (r: Result<Vec<(u64, Block)>, Error>)
    requires
        allocator@.first + allocator@.owned.len() <= old(device).blocks().len(),
    ensures
        block::untouched(old(device), final(device)),
        match r {
            Ok(writes) => tail_zeroing(
                old(device).blocks(),
                allocator@,
                inode@,
                current_bytes as int,
            ) == Ok::<Seq<HomeWrite>, ErrorKind>(recovery::write_views(writes@)),
            Err(e) => !old(device).healthy() || tail_zeroing(
                old(device).blocks(),
                allocator@,
                inode@,
                current_bytes as int,
            ) == Err::<Seq<HomeWrite>, ErrorKind>(e.kind),
        },
{
    let mut writes: Vec<(u64, Block)> = Vec::new();
    assert(recovery::write_views(writes@) =~= Seq::<HomeWrite>::empty());
    let tail_offset: usize = (current_bytes % BLOCK_SIZE_U64) as usize;
    if inode.blocks.is_empty() || tail_offset == 0 {
        return Ok(writes);
    }
    let block: u64 = inode.blocks[inode.blocks.len() - 1];
    match allocator.is_owned(block) {
        Ok(owned) => if !owned {
            return Err(invalid_data("byte-grow final block is not allocator-owned"));
        },
        Err(_) => return Err(invalid_data("byte-grow final block is no data block")),
    }
    let mut image: Block = [0u8; BLOCK_SIZE];
    device.read_block(block, &mut image)?;
    let blank = zero_vec(BLOCK_SIZE - tail_offset);
    let zeroed: Block = patched_block(&image, tail_offset, blank.as_slice());
    if !same_bytes(&zeroed, &image) {
        writes.push((block, zeroed));
        assert(recovery::write_views(writes@) =~= seq![(block, zeroed@)]);
    }
    Ok(writes)
}

/// A list of blocks of zeros.
pub(crate) fn zero_blocks(count: usize) -> (images: Vec<Block>)
    ensures
        file_blocks::image_views(images@) == zero_images(count as nat),
        images@.len() == count,
{
    let mut images: Vec<Block> = Vec::new();
    let mut i: usize = 0;
    while i < count
        invariant
            i <= count,
            images@.len() == i,
            forall|k: int| 0 <= k < i ==> (#[trigger] images@[k])@ == bytes::zeros(BLOCK_SIZE as nat),
        decreases count - i,
    {
        let image: Block = [0u8; BLOCK_SIZE];
        assert(image@ =~= bytes::zeros(BLOCK_SIZE as nat));
        images.push(image);
        i += 1;
    }
    assert(file_blocks::image_views(images@) =~= zero_images(count as nat));
    images
}

/// Plans the growth of one file: the allocator and the inode are changed in place, the fresh
/// blocks and the write that zeroes the old tail are returned.
fn prepare_byte_grow_plan<D: BlockDevice>(
    device: &mut D,
    allocator: &mut BlockAllocator,
    inode: &mut PersistedInode,
    target_bytes: u64,
) -> (r: Result<(Vec<u64>, Vec<(u64, Block)>), Error>)
    requires
        old(allocator)@.wf(),
        old(allocator)@.first + old(allocator)@.owned.len() <= old(device).blocks().len(),
    ensures
        block::untouched(old(device), final(device)),
        match r {
            Ok((fresh, tail)) => grow(
                old(device).blocks(),
                old(allocator)@,
                old(inode)@,
                target_bytes,
            ) == Ok::<Grown, ErrorKind>(
                Grown {
                    allocator: final(allocator)@,
                    inode: final(inode)@,
                    fresh: fresh@,
                    tail: recovery::write_views(tail@),
                },
            ),
            Err(e) => !old(device).healthy() || grow(
                old(device).blocks(),
                old(allocator)@,
                old(inode)@,
                target_bytes,
            ) == Err::<Grown, ErrorKind>(e.kind),
        },
{
    let current_bytes: u64 = match inode.canonical_byte_len() {
        Ok(n) => n,
        Err(_) => return Err(invalid_data("byte-grow inode is invalid")),
    };
    if target_bytes <= current_bytes {
        return Err(invalid_input("byte-grow target must exceed current EOF"));
    }
    let target_blocks: usize = byte_len_to_block_count(target_bytes)?;
    let current_blocks: usize = inode.blocks.len();
    if target_blocks < current_blocks {
        return Err(
            invalid_data("byte-grow target requires fewer blocks than current inode mapping"),
        );
    }
    let tail = prepare_existing_tail_zero(device, allocator, inode, current_bytes)?;
    let fresh = allocator.allocate_many(target_blocks - current_blocks)?;
    if !fresh.is_empty() {
        inode.replace_block_range(current_blocks..current_blocks, fresh.as_slice())?;
    }
    inode.set_file_byte_len(target_bytes)?;
    Ok((fresh, tail))
}

/// Grows a regular file to exactly `target_bytes` bytes, all new bytes zero, as one transaction.
pub fn grow_file_to_bytes_journaled<D: BlockDevice>(device: &mut D, superblock: &Superblock, inode_id: u64, target_bytes: u64) -> (r: Result<(Vec<u64>, RecoveryReport), Error>)
    ensures
        journal_region::carried_out(
            old(device),
            final(device),
            *superblock,
            file_blocks::block_list(r),
            grow_step(old(device).blocks(), *superblock, inode_id, target_bytes),
        ),
{
    broadcast use journal_region::group_atomic;

    let (mut allocator, mut inodes) = load_tables(device, superblock)?;
    let index: usize = find_file(inodes.as_slice(), inode_id)?;
    let ghost before = inodes@;
    let (fresh, tail) = prepare_byte_grow_plan(
        device,
        &mut allocator,
        &mut inodes[index],
        target_bytes,
    )?;
    proof {
        file_blocks::lemma_views_update(before, inodes@, index as int);
    }
    let images = zero_blocks(fresh.len());
    let mut data = tail;
    let ghost tail_view = recovery::write_views(data@);
    let mut added = file_blocks::pair_blocks(fresh.as_slice(), images.as_slice());
    let ghost added_view = recovery::write_views(added@);
    data.append(&mut added);
    assert(recovery::write_views(data@) =~= tail_view + added_view);
    let report = store_update_and_checkpoint(
        device,
        superblock,
        Some(&allocator),
        Some(inodes.as_slice()),
        None,
        data.as_slice(),
        true,
    )?;
    Ok((fresh, report))
}

/// What growth writes: the bytes before the old end stay, and zeros follow up to the new one.
proof fn lemma_grown_bytes(disk: Disk, a: AllocView, inode: InodeView, target: u64, p: int)
    requires
        contents::full_blocks(disk),
        a.wf(),
        a.first > 0,
        a.first + a.owned.len() <= disk.len(),
        inode_codec::exact(inode),
        inode.kind == InodeKind::File,
        forall|i: int|
            0 <= i < inode.blocks.len() ==> #[trigger] inode.blocks[i]
                == inode_codec::SPARSE_HOLE_BLOCK || a.owns(inode.blocks[i]),
        grow(disk, a, inode, target) is Ok,
        0 <= p < blocks_for(target as int) * BLOCK_SIZE,
    ensures
        ({
            let g = grow(disk, a, inode, target)->Ok_0;
            let data = g.tail + file_blocks::paired(g.fresh, zero_images(g.fresh.len()));
            let after = contents::byte_at(recovery::applied(disk, data), g.inode, p);
            if p < inode.byte_len {
                after == contents::byte_at(disk, inode, p)
            } else {
                after == 0
            }
        }),
{
    broadcast use bytes::group_bytes;

    let g = grow(disk, a, inode, target)->Ok_0;
    let have = inode.blocks.len() as int;
    let need = blocks_for(target as int);
    let len = inode.byte_len as int;
    let offset = len % (BLOCK_SIZE as int);
    let q = p / (BLOCK_SIZE as int);
    let r = p % (BLOCK_SIZE as int);
    crate::inode_table::lemma_canonical_exact(inode);
    allocation::law_taking(a, (need - have) as nat);
    let zeros = zero_images(g.fresh.len());
    let mid = recovery::applied(disk, g.tail);
    reveal_with_fuel(recovery::applied, 2);
    if g.tail.len() > 0 {
        assert(g.tail.drop_last() =~= Seq::<HomeWrite>::empty());
        assert(a.owns(inode.blocks.last()));
    }
    assert(mid.len() == disk.len());
    assert forall|i: int| 0 <= i < g.fresh.len() implies (#[trigger] g.fresh[i]) < mid.len() by {
        assert(a.covers(g.fresh[i]));
    }
    contents::lemma_paired(mid, g.fresh, zeros);
    update::lemma_applied_concat(disk, g.tail, file_blocks::paired(g.fresh, zeros));
    let end = recovery::applied(disk, g.tail + file_blocks::paired(g.fresh, zeros));
    assert(g.inode.blocks =~= inode.blocks + g.fresh);
    assert(0 <= q < need);
    if q < have {
        let block = inode.blocks[q];
        assert(g.inode.blocks[q] == block);
        if block != inode_codec::SPARSE_HOLE_BLOCK {
            assert(a.owns(block));
            assert forall|i: int| 0 <= i < g.fresh.len() implies #[trigger] g.fresh[i] != block by {
                assert(!a.owns(g.fresh[i]));
            }
            assert(end[block as int] == mid[block as int]);
            if q == have - 1 {
                assert(disk[block as int].len() == BLOCK_SIZE);
                if offset > 0 {
                    assert(p < len ==> r < offset);
                    assert(p >= len ==> r >= offset);
                    let zeroed = bytes::patch(
                        disk[block as int],
                        offset,
                        bytes::zeros((BLOCK_SIZE - offset) as nat),
                    );
                    assert(zeroed[r] == if r < offset {
                        disk[block as int][r]
                    } else {
                        0
                    });
                }
            } else {
                assert(p < len);
                assert(inode.blocks[q] != inode.blocks[have - 1]);
            }
        } else if q < have - 1 {
            assert(p < len);
        }
    } else {
        assert(g.inode.blocks[q] == g.fresh[q - have]);
        assert(a.covers(g.fresh[q - have]));
        assert(end[g.fresh[q - have] as int] == zeros[q - have]);
    }
}

/// A file that grows has its new length, keeps its bytes and holds zeros behind them, to the end of
/// its last block, and nothing else changes. The blocks that are handed back are those it has more.
pub proof fn law_grow(disk: Disk, sb: Superblock, id: u64, index: int, target: u64)
    requires
        soundness::sound_on(disk, sb),
        contents::full_blocks(disk),
        file_blocks::file_index(soundness::tables_of(disk, sb).inodes, id) == Ok::<int, ErrorKind>(
            index,
        ),
        grow_step(disk, sb, id, target).result is Ok,
    ensures
        ({
            let end = grow_step(disk, sb, id, target).disk;
            let before = soundness::tables_of(disk, sb).inodes[index];
            let after = soundness::tables_of(end, sb).inodes[index];
            &&& contents::only_changed(disk, end, sb, index)
            &&& after.byte_len == target
            &&& target <= after.blocks.len() * BLOCK_SIZE
            &&& after.blocks == before.blocks + grow_step(disk, sb, id, target).result->Ok_0.0
            &&& forall|p: int|
                0 <= p < after.blocks.len() * BLOCK_SIZE ==> #[trigger] contents::byte_at(
                    end,
                    after,
                    p,
                ) == if p < before.byte_len {
                    contents::byte_at(disk, before, p)
                } else {
                    0
                }
        }),
{
    broadcast use bytes::group_bytes;

    let t = soundness::tables_of(disk, sb);
    soundness::lemma_sound_parts(disk, sb);
    file_blocks::lemma_index_from(t.inodes, id, 0);
    let inode = t.inodes[index];
    assert(inode_codec::exact(inode));
    crate::inode_table::lemma_canonical_exact(inode);
    let g = grow(disk, t.allocator, inode, target)->Ok_0;
    let have = inode.blocks.len() as int;
    let need = blocks_for(target as int);
    let count = (need - have) as nat;
    let zeros = zero_images(g.fresh.len());
    let u = Update {
        allocator: Some(g.allocator),
        inodes: Some(t.inodes.update(index, g.inode)),
        entries: None,
        data: g.tail + file_blocks::paired(g.fresh, zeros),
    };
    ownership::lemma_fresh(t.allocator, count, false);
    assert(g.inode.blocks =~= inode.blocks + g.fresh);
    if g.fresh.len() == 0 {
        assert(g.inode.blocks =~= inode.blocks);
        assert(t.inodes.update(index, inode) =~= t.inodes);
        ownership::lemma_same_blocks(t.allocator, t.inodes, index, inode, g.inode);
        reveal_with_fuel(AllocView::taking, 2);
    } else {
        ownership::law_splice_keeps_ownership(
            t.allocator,
            t.inodes,
            index,
            have,
            have,
            count,
            false,
        );
        let s = file_blocks::splice(t.allocator, inode, have, have, count, false)->Ok_0;
        assert(inode.blocks.subrange(have, have) =~= Seq::<u64>::empty());
        ownership::lemma_same_blocks(g.allocator, t.inodes, index, s.inode, g.inode);
    }
    assert forall|k: int| 0 <= k < u.data.len() implies sb.data_start() <= (#[trigger] u.data[k]).0
        < sb.total_blocks && u.data[k].1.len() == BLOCK_SIZE && (!t.allocator.owns(u.data[k].0)
        || inode.blocks.contains(u.data[k].0)) by {
        if k < g.tail.len() {
            assert(u.data[k] == g.tail[k]);
            assert(t.allocator.owns(inode.blocks.last()));
            assert(inode.blocks[have - 1] == inode.blocks.last());
        } else {
            assert(u.data[k] == file_blocks::paired(g.fresh, zeros)[k - g.tail.len()]);
            assert(t.allocator.covers(g.fresh[k - g.tail.len()]));
        }
    }
    assert forall|k: int, j: int, m: int|
        #![trigger u.data[k], t.inodes[j].blocks[m]]
        0 <= k < u.data.len() && 0 <= j < t.inodes.len() && j != index && 0 <= m
            < t.inodes[j].blocks.len() implies u.data[k].0 != t.inodes[j].blocks[m] by {
        contents::lemma_stays_clear(t.allocator, t.inodes, index, u.data[k].0, j, m);
    }
    let replayed = recovery::applied(disk, u.data);
    let images = contents::images_of(replayed, g.inode);
    contents::lemma_file_update(disk, sb, index, g.inode, u, true, images);
    let end = grow_step(disk, sb, id, target).disk;
    assert forall|i: int| 0 <= i < inode.blocks.len() implies #[trigger] inode.blocks[i]
        == inode_codec::SPARSE_HOLE_BLOCK || t.allocator.owns(inode.blocks[i]) by {
        contents::lemma_mapped_owned(t.allocator, t.inodes, index, i);
    }
    assert(g.inode.blocks.len() == need);
    assert forall|p: int| 0 <= p < need * BLOCK_SIZE implies #[trigger] contents::byte_at(
        end,
        g.inode,
        p,
    ) == if p < inode.byte_len {
        contents::byte_at(disk, inode, p)
    } else {
        0
    } by {
        let q = p / (BLOCK_SIZE as int);
        assert(0 <= q < need);
        assert(contents::images_of(end, g.inode)[q] == images[q]);
        lemma_grown_bytes(disk, t.allocator, inode, target, p);
    }
}

/// Zeroed blocks are full blocks of zeros.
pub proof fn law_zero_images(count: nat)
    ensures
        zero_images(count).len() == count,
        forall|i: int| 0 <= i < count ==> (#[trigger] zero_images(count)[i]).len() == BLOCK_SIZE,
        forall|i: int, p: int|
            0 <= i < count && 0 <= p < BLOCK_SIZE ==> #[trigger] zero_images(count)[i][p] == 0,
{
    broadcast use bytes::group_bytes;

}

} // verus!
