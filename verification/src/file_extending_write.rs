//! Writing bytes at any position of a file, which grows where the write passes its end.

use vstd::prelude::*;
use crate::allocation::{AllocView, BlockAllocator};
use crate::block;
use crate::block::{Block, BlockDevice, Disk, BLOCK_SIZE, BLOCK_SIZE_U64};
use crate::bytes;
use crate::bytes::same_bytes;
use crate::contents;
use crate::error::{Error, ErrorKind};
use crate::file_append_batch;
use crate::file_append_batch::byte_len_to_block_count;
use crate::file_blocks;
use crate::file_blocks::{are_owned, find_file, invalid_data, invalid_input, load_tables};
use crate::file_range_read;
use crate::file_range_read::write_file_range_journaled;
use crate::format::Superblock;
use crate::inode::InodeKind;
use crate::inode_codec;
use crate::inode_codec::{InodeView, PersistedInode};
use crate::inode_table;
use crate::journal_region;
use crate::ownership;
use crate::recovery;
use crate::recovery::{HomeWrite, RecoveryReport};
use crate::soundness;
use crate::step;
use crate::step::Step;
use crate::update;
use crate::update::{store_update_and_checkpoint, Update};

verus! {

/// Logical block `k` of a file that ended at `eof`, after `data` was written from `start` on past
/// that end: new bytes where they were written, old bytes before the old end, zeros elsewhere.
pub open spec fn extended_image(image: Seq<u8>, k: int, eof: int, start: int, data: Seq<u8>) -> Seq<u8> {
    Seq::new(
        BLOCK_SIZE as nat,
        |i: int|
            {
                let p = k * BLOCK_SIZE + i;
                if start <= p < start + data.len() {
                    data[p - start]
                } else if p < eof {
                    image[i]
                } else {
                    0u8
                }
            },
    )
}

/// The contents of logical block `k` before the write: what is stored, or zeros for a new block.
pub open spec fn candidate(disk: Disk, blocks: Seq<u64>, have: int, k: int) -> Seq<u8> {
    if k < have {
        disk[blocks[k] as int]
    } else {
        bytes::zeros(BLOCK_SIZE as nat)
    }
}

/// The writes to logical blocks `from` up to `to`: every new block, and every old one that
/// changes.
pub open spec fn extending_writes(
    disk: Disk,
    blocks: Seq<u64>,
    have: int,
    eof: int,
    start: int,
    data: Seq<u8>,
    from: int,
    to: int,
) -> Seq<HomeWrite>
    decreases to - from,
{
    if to <= from {
        Seq::empty()
    } else {
        let k = to - 1;
        let front = extending_writes(disk, blocks, have, eof, start, data, from, k);
        let before = candidate(disk, blocks, have, k);
        let image = extended_image(before, k, eof, start, data);
        if k < have && image == before {
            front
        } else {
            front.push((blocks[k], image))
        }
    }
}

/// A file after a write past its end.
pub struct Extended {
    pub allocator: AllocView,
    pub inode: InodeView,
    pub fresh: Seq<u64>,
    pub writes: Seq<HomeWrite>,
}

/// A write of `data` at `start` that ends past the end `eof` of the file.
pub open spec fn extend(disk: Disk, a: AllocView, inode: InodeView, eof: u64, start: u64, data: Seq<u8>) -> Result<Extended, ErrorKind> {
    let end = start + data.len();
    let have = inode.blocks.len() as int;
    let need = file_append_batch::blocks_for(end);
    let first = if eof < start {
        eof as int / BLOCK_SIZE as int
    } else {
        start as int / BLOCK_SIZE as int
    };
    if need > usize::MAX {
        Err(ErrorKind::InvalidInput)
    } else if need < have {
        Err(ErrorKind::InvalidData)
    } else {
        match a.taking((need - have) as nat) {
            None => Err(ErrorKind::InvalidInput),
            Some((allocator, fresh)) => {
                let mapped = if fresh.len() == 0 {
                    Some(inode)
                } else {
                    inode_codec::replaced_range(inode, have, have, fresh)
                };
                match mapped {
                    None => Err(ErrorKind::InvalidInput),
                    Some(m) => {
                        let next = InodeView { byte_len: end as u64, ..m };
                        if !inode_codec::exact(next) {
                            Err(ErrorKind::InvalidInput)
                        } else if !file_blocks::all_owned(
                            allocator,
                            next.blocks.subrange(first, have),
                        ) {
                            Err(ErrorKind::InvalidData)
                        } else {
                            Ok(
                                Extended {
                                    allocator,
                                    inode: next,
                                    fresh,
                                    writes: extending_writes(
                                        disk,
                                        next.blocks,
                                        have,
                                        eof as int,
                                        start as int,
                                        data,
                                        first,
                                        need,
                                    ),
                                },
                            )
                        }
                    },
                }
            },
        }
    }
}

/// A write at any position of a file as one transaction. Inside the file it overwrites; past the
/// end it extends the file, with zeros in any gap.
pub open spec fn extending_write_step(disk: Disk, sb: Superblock, id: u64, start: u64, data: Seq<u8>) -> Step<(Seq<u64>, RecoveryReport)> {
    if data.len() == 0 || start + data.len() > u64::MAX {
        step::stay(disk, Err(ErrorKind::InvalidInput))
    } else {
        match file_blocks::tables_on(disk, sb) {
            Err(kind) => step::stay(disk, Err(kind)),
            Ok((a, inodes)) => match file_blocks::file_index(inodes, id) {
                Err(kind) => step::stay(disk, Err(kind)),
                Ok(i) => match inode_codec::checked_len(inodes[i], true) {
                    None => step::stay(disk, Err(ErrorKind::InvalidData)),
                    Some(eof) => if start + data.len() <= eof {
                        overwriting_step(disk, sb, id, start, data)
                    } else {
                        match extend(disk, a, inodes[i], eof, start, data) {
                            Err(kind) => step::stay(disk, Err(kind)),
                            Ok(x) => {
                                let u = Update {
                                    allocator: Some(x.allocator),
                                    inodes: Some(inodes.update(i, x.inode)),
                                    entries: None,
                                    data: x.writes,
                                };
                                let stored = update::settled_update_step(disk, sb, u, true);
                                Step {
                                    disk: stored.disk,
                                    result: match stored.result {
                                        Ok(report) => Ok((x.fresh, report)),
                                        Err(kind) => Err(kind),
                                    },
                                }
                            },
                        }
                    },
                },
            },
        }
    }
}

/// A write inside the file: no block is taken.
pub open spec fn overwriting_step(disk: Disk, sb: Superblock, id: u64, start: u64, data: Seq<u8>) -> Step<(Seq<u64>, RecoveryReport)> {
    let index = start as int / BLOCK_SIZE as int;
    if index > usize::MAX {
        step::stay(disk, Err(ErrorKind::InvalidInput))
    } else {
        let s = file_range_read::write_range_step(
            disk,
            sb,
            id,
            index,
            start as int % BLOCK_SIZE as int,
            data,
        );
        Step {
            disk: s.disk,
            result: match s.result {
                Ok(report) => Ok((Seq::empty(), report)),
                Err(kind) => Err(kind),
            },
        }
    }
}

/// The new contents of logical block `k`.
fn extend_image(image: &Block, k: u64, eof: u64, start: u64, data: &[u8]) -> (r: Block)
    requires
        k * BLOCK_SIZE + BLOCK_SIZE - 1 <= u64::MAX,
        start + data@.len() <= u64::MAX,
    ensures
        r@ == extended_image(image@, k as int, eof as int, start as int, data@),
{
    let end: u64 = start + data.len() as u64;
    let mut r: Block = [0u8; BLOCK_SIZE];
    let mut i: usize = 0;
    while i < BLOCK_SIZE
        invariant
            k * BLOCK_SIZE + BLOCK_SIZE - 1 <= u64::MAX,
            end == start + data@.len(),
            data@.len() <= usize::MAX,
            i <= BLOCK_SIZE,
            forall|j: int|
                0 <= j < i ==> #[trigger] r@[j] == extended_image(
                    image@,
                    k as int,
                    eof as int,
                    start as int,
                    data@,
                )[j],
        decreases BLOCK_SIZE - i,
    {
        let p: u64 = k * BLOCK_SIZE_U64 + i as u64;
        let byte: u8 = if start <= p && p < end {
            data[(p - start) as usize]
        } else if p < eof {
            image[i]
        } else {
            0
        };
        r[i] = byte;
        i += 1;
    }
    assert(r@ =~= extended_image(image@, k as int, eof as int, start as int, data@));
    r
}

/// Reads the old blocks that the write touches and lists the blocks that change.
fn prepare_data_writes<D: BlockDevice>(
    device: &mut D,
    blocks: &[u64],
    have: usize,
    eof: u64,
    start: u64,
    data: &[u8],
    from: usize,
) -> (r: Result<Vec<(u64, Block)>, Error>)
    requires
        from <= have <= blocks@.len(),
        blocks@.len() * BLOCK_SIZE <= u64::MAX,
        start + data@.len() <= u64::MAX,
        forall|k: int| from <= k < have ==> #[trigger] blocks@[k] < old(device).blocks().len(),
    ensures
        block::untouched(old(device), final(device)),
        old(device).healthy() ==> r is Ok,
        r matches Ok(writes) ==> recovery::write_views(writes@) == extending_writes(
            old(device).blocks(),
            blocks@,
            have as int,
            eof as int,
            start as int,
            data@,
            from as int,
            blocks@.len() as int,
        ),
{
    let ghost disk = device.blocks();
    let mut writes: Vec<(u64, Block)> = Vec::new();
    assert(recovery::write_views(writes@) =~= Seq::<HomeWrite>::empty());
    let mut k: usize = from;
    while k < blocks.len()
        invariant
            disk == old(device).blocks(),
            from <= k <= blocks@.len(),
            from <= have <= blocks@.len(),
            blocks@.len() * BLOCK_SIZE <= u64::MAX,
            start + data@.len() <= u64::MAX,
            forall|j: int| from <= j < have ==> #[trigger] blocks@[j] < disk.len(),
            block::untouched(old(device), device),
            recovery::write_views(writes@) == extending_writes(
                disk,
                blocks@,
                have as int,
                eof as int,
                start as int,
                data@,
                from as int,
                k as int,
            ),
        decreases blocks@.len() - k,
    {
        let mut current: Block = [0u8; BLOCK_SIZE];
        if k < have {
            assert(blocks@[k as int] < disk.len());
            device.read_block(blocks[k], &mut current)?;
        } else {
            assert(current@ =~= bytes::zeros(BLOCK_SIZE as nat));
        }
        assert(current@ == candidate(disk, blocks@, have as int, k as int));
        let image: Block = extend_image(&current, k as u64, eof, start, data);
        let ghost list = recovery::write_views(writes@);
        if k >= have || !same_bytes(&image, &current) {
            writes.push((blocks[k], image));
            assert(recovery::write_views(writes@) =~= list.push((blocks@[k as int], image@)));
        }
        k += 1;
    }
    Ok(writes)
}

/// Plans a write past the end of a file: the allocator and the inode are changed in place, the
/// fresh blocks and the data writes are returned.
fn prepare_extension<D: BlockDevice>(
    device: &mut D,
    allocator: &mut BlockAllocator,
    inode: &mut PersistedInode,
    eof: u64,
    start: u64,
    data: &[u8],
) -> (r: Result<(Vec<u64>, Vec<(u64, Block)>), Error>)
    requires
        old(allocator)@.wf(),
        old(allocator)@.first + old(allocator)@.owned.len() <= old(device).blocks().len(),
        old(inode)@.kind == InodeKind::File,
        inode_codec::checked_len(old(inode)@, true) == Some(eof),
        eof < start + data@.len() <= u64::MAX,
    ensures
        block::untouched(old(device), final(device)),
        match r {
            Ok((fresh, writes)) => extend(
                old(device).blocks(),
                old(allocator)@,
                old(inode)@,
                eof,
                start,
                data@,
            ) == Ok::<Extended, ErrorKind>(
                Extended {
                    allocator: final(allocator)@,
                    inode: final(inode)@,
                    fresh: fresh@,
                    writes: recovery::write_views(writes@),
                },
            ),
            Err(e) => !old(device).healthy() || extend(
                old(device).blocks(),
                old(allocator)@,
                old(inode)@,
                eof,
                start,
                data@,
            ) == Err::<Extended, ErrorKind>(e.kind),
        },
{
    let end: u64 = start + data.len() as u64;
    let have: usize = inode.blocks.len();
    let need: usize = byte_len_to_block_count(end)?;
    if need < have {
        return Err(
            invalid_data("extending write target requires fewer blocks than current inode mapping"),
        );
    }
    proof {
        crate::allocation::law_taking(allocator@, (need - have) as nat);
    }
    let fresh = allocator.allocate_many(need - have)?;
    if !fresh.is_empty() {
        inode.replace_block_range(have..have, fresh.as_slice())?;
    }
    inode.set_file_byte_len(end)?;
    let first_byte: u64 = if eof < start {
        eof
    } else {
        start
    };
    assert(first_byte / BLOCK_SIZE_U64 <= have);
    let first: usize = (first_byte / BLOCK_SIZE_U64) as usize;
    assert(inode@.blocks.len() == need);
    let old_part = vstd::slice::slice_subrange(inode.blocks.as_slice(), first, have);
    if !are_owned(allocator, old_part) {
        return Err(invalid_data("extending write existing block is not allocator-owned"));
    }
    proof {
        assert forall|k: int| first <= k < have implies #[trigger] inode.blocks@[k]
            < device.blocks().len() by {
            assert(allocator@.owns(old_part@[k - first]));
        }
    }
    let writes = prepare_data_writes(
        device,
        inode.blocks.as_slice(),
        have,
        eof,
        start,
        data,
        first,
    )?;
    Ok((fresh, writes))
}

/// Writes bytes at any position of a regular file as one transaction and returns the blocks that
/// were taken. A write past the end extends the file to the exact end of the write; every byte of
/// a gap is zero.
pub fn write_file_range_extending_journaled<D: BlockDevice>(
    device: &mut D,
    superblock: &Superblock,
    inode_id: u64,
    start_offset: u64,
    data: &[u8],
) -> (r: Result<(Vec<u64>, RecoveryReport), Error>)
    ensures
        journal_region::carried_out(
            old(device),
            final(device),
            *superblock,
            file_blocks::block_list(r),
            extending_write_step(
                old(device).blocks(),
                *superblock,
                inode_id,
                start_offset,
                data@,
            ),
        ),
        step::turned_away(
            old(device),
            final(device),
            file_blocks::block_list(r),
            data@.len() == 0 || start_offset + data@.len() > u64::MAX,
        ),
{
    broadcast use journal_region::group_atomic;

    if data.is_empty() {
        return Err(invalid_input("extending write requires non-empty data"));
    }
    let end_offset: u64 = match start_offset.checked_add(data.len() as u64) {
        Some(end) => end,
        None => return Err(invalid_input("extending write end offset overflow")),
    };
    let (mut allocator, mut inodes) = load_tables(device, superblock)?;
    let index: usize = find_file(inodes.as_slice(), inode_id)?;
    let current_eof: u64 = match inodes[index].canonical_byte_len() {
        Ok(n) => n,
        Err(_) => return Err(invalid_data("extending write inode is invalid")),
    };
    if end_offset <= current_eof {
        let block_index: u64 = start_offset / BLOCK_SIZE_U64;
        if block_index > usize::MAX as u64 {
            return Err(invalid_input("extending write logical block index exceeds usize"));
        }
        let report = write_file_range_journaled(
            device,
            superblock,
            inode_id,
            block_index as usize,
            (start_offset % BLOCK_SIZE_U64) as usize,
            data,
        )?;
        let none: Vec<u64> = Vec::new();
        assert(none@ =~= Seq::<u64>::empty());
        return Ok((none, report));
    }
    let ghost before = inodes@;
    let (fresh, writes) = prepare_extension(
        device,
        &mut allocator,
        &mut inodes[index],
        current_eof,
        start_offset,
        data,
    )?;
    proof {
        file_blocks::lemma_views_update(before, inodes@, index as int);
    }
    let report = store_update_and_checkpoint(
        device,
        superblock,
        Some(&allocator),
        Some(inodes.as_slice()),
        None,
        writes.as_slice(),
        true,
    )?;
    Ok((fresh, report))
}

/// What the writes of logical blocks `from` up to `to` leave behind.
proof fn lemma_extending_writes(
    disk: Disk,
    blocks: Seq<u64>,
    have: int,
    eof: int,
    start: int,
    data: Seq<u8>,
    from: int,
    to: int,
)
    requires
        0 <= from <= to <= blocks.len(),
        forall|k: int| from <= k < to ==> (#[trigger] blocks[k]) < disk.len(),
        forall|k: int, l: int|
            from <= k < l < to ==> #[trigger] blocks[k] != #[trigger] blocks[l],
    ensures
        ({
            let writes = extending_writes(disk, blocks, have, eof, start, data, from, to);
            let end = recovery::applied(disk, writes);
            &&& end.len() == disk.len()
            &&& forall|k: int|
                from <= k < to ==> end[(#[trigger] blocks[k]) as int] == extended_image(
                    candidate(disk, blocks, have, k),
                    k,
                    eof,
                    start,
                    data,
                )
            &&& forall|i: int|
                0 <= i < writes.len() ==> (#[trigger] writes[i]).1.len() == BLOCK_SIZE && exists|k: int|
                    from <= k < to && #[trigger] blocks[k] == writes[i].0
        }),
    decreases to - from,
{
    if from < to {
        let k = to - 1;
        let front = extending_writes(disk, blocks, have, eof, start, data, from, k);
        let writes = extending_writes(disk, blocks, have, eof, start, data, from, to);
        lemma_extending_writes(disk, blocks, have, eof, start, data, from, k);
        assert forall|i: int| 0 <= i < writes.len() implies (#[trigger] writes[i]).1.len()
            == BLOCK_SIZE && exists|l: int| from <= l < to && #[trigger] blocks[l]
            == writes[i].0 by {
            if i < front.len() {
                assert(writes[i] == front[i]);
                let l = choose|l: int| from <= l < k && #[trigger] blocks[l] == front[i].0;
                assert(blocks[l] == writes[i].0);
            } else {
                assert(blocks[k] == writes[i].0);
            }
        }
        assert forall|i: int| 0 <= i < front.len() implies (#[trigger] front[i]).0
            < disk.len() by {
            let l = choose|l: int| from <= l < k && #[trigger] blocks[l] == front[i].0;
        }
        recovery::lemma_applied(disk, front);
        assert(!recovery::targets(front, blocks[k] as int)) by {
            if recovery::targets(front, blocks[k] as int) {
                let i = choose|i: int| 0 <= i < front.len() && (#[trigger] front[i]).0 == blocks[k];
                let l = choose|l: int| from <= l < k && #[trigger] blocks[l] == front[i].0;
                assert(blocks[l] != blocks[k]);
            }
        }
        let mid = recovery::applied(disk, front);
        assert(mid[blocks[k] as int] == disk[blocks[k] as int]);
        if writes.len() > front.len() {
            assert(writes.drop_last() =~= front);
            let end = recovery::applied(disk, writes);
            assert forall|l: int| from <= l < k implies end[(#[trigger] blocks[l]) as int]
                == mid[blocks[l] as int] by {
                assert(blocks[l] != blocks[k]);
            }
        }
    }
}

/// The byte that a reader finds at position `p` after `data` was written at `start` of a file that
/// ended at `eof`.
pub open spec fn written_byte(disk: Disk, inode: InodeView, start: int, data: Seq<u8>, p: int) -> u8 {
    if start <= p < start + data.len() {
        data[p - start]
    } else if p < inode.byte_len {
        contents::byte_at(disk, inode, p)
    } else {
        0
    }
}

/// A write at any position puts its bytes there, keeps the other bytes of the file, fills a gap
/// with zeros and moves the end of the file no further than it must; nothing else changes. The blocks
/// that are handed back are those that it has more.
pub proof fn law_extending_write(disk: Disk, sb: Superblock, id: u64, index: int, start: u64, data: Seq<u8>)
    requires
        soundness::sound_on(disk, sb),
        contents::full_blocks(disk),
        file_blocks::file_index(soundness::tables_of(disk, sb).inodes, id) == Ok::<int, ErrorKind>(
            index,
        ),
        extending_write_step(disk, sb, id, start, data).result is Ok,
    ensures
        ({
            let end = extending_write_step(disk, sb, id, start, data).disk;
            let before = soundness::tables_of(disk, sb).inodes[index];
            let after = soundness::tables_of(end, sb).inodes[index];
            &&& contents::only_changed(disk, end, sb, index)
            &&& after.byte_len == if start + data.len() <= before.byte_len {
                before.byte_len as int
            } else {
                start + data.len()
            }
            &&& after.blocks == before.blocks + extending_write_step(
                disk,
                sb,
                id,
                start,
                data,
            ).result->Ok_0.0
            &&& forall|p: int|
                0 <= p < after.byte_len ==> #[trigger] contents::byte_at(end, after, p)
                    == written_byte(disk, before, start as int, data, p)
        }),
{
    let t = soundness::tables_of(disk, sb);
    soundness::lemma_sound_parts(disk, sb);
    file_blocks::lemma_index_from(t.inodes, id, 0);
    let inode = t.inodes[index];
    assert(inode_codec::exact(inode));
    crate::inode_table::lemma_canonical_exact(inode);
    let end = extending_write_step(disk, sb, id, start, data).disk;
    if start + data.len() <= inode.byte_len {
        let first = start as int / BLOCK_SIZE as int;
        let offset = start as int % BLOCK_SIZE as int;
        file_range_read::law_write_range(disk, sb, id, index, first, offset, data);
        let images = contents::images_of(disk, inode);
        let wanted = file_range_read::images_with(images, first, offset, data);
        assert forall|p: int| 0 <= p < inode.byte_len implies #[trigger] contents::byte_at(
            end,
            inode,
            p,
        ) == written_byte(disk, inode, start as int, data, p) by {
            let q = p / (BLOCK_SIZE as int);
            let r = p % (BLOCK_SIZE as int);
            assert(0 <= q < inode.blocks.len());
            assert(contents::images_of(end, inode)[q] == wanted[q]);
            assert(images[q] == contents::block_image(disk, inode.blocks[q]));
            assert((q - first) * BLOCK_SIZE + r - offset == p - start);
        }
    } else {
        lemma_extend_bytes(disk, sb, id, index, start, data);
    }
}

/// The state from which a write past the end is made.
spec fn extends(disk: Disk, sb: Superblock, id: u64, index: int, start: u64, data: Seq<u8>) -> bool {
    let t = soundness::tables_of(disk, sb);
    &&& soundness::sound_on(disk, sb)
    &&& contents::full_blocks(disk)
    &&& file_blocks::file_index(t.inodes, id) == Ok::<int, ErrorKind>(index)
    &&& 0 <= index < t.inodes.len()
    &&& t.inodes[index].kind == crate::inode::InodeKind::File
    &&& t.inodes[index].byte_len < start + data.len() <= u64::MAX
    &&& extend(
        disk,
        t.allocator,
        t.inodes[index],
        t.inodes[index].byte_len,
        start,
        data,
    ) is Ok
}

/// The first logical block that a write past the end touches.
spec fn first_touched(eof: int, start: int) -> int {
    if eof < start {
        eof / BLOCK_SIZE as int
    } else {
        start / BLOCK_SIZE as int
    }
}

/// A write past the end keeps ownership, and touches fresh blocks and its own.
proof fn lemma_extend_plan(disk: Disk, sb: Superblock, id: u64, index: int, start: u64, data: Seq<u8>)
    requires
        extends(disk, sb, id, index, start, data),
    ensures
        ({
            let t = soundness::tables_of(disk, sb);
            let inode = t.inodes[index];
            let x = extend(disk, t.allocator, inode, inode.byte_len, start, data)->Ok_0;
            let need = file_append_batch::blocks_for(start + data.len());
            let first = first_touched(inode.byte_len as int, start as int);
            &&& ownership::exact_ownership(x.allocator, t.inodes.update(index, x.inode))
            &&& x.inode.blocks == inode.blocks + x.fresh
            &&& x.inode.blocks.len() == need
            &&& x.inode.id == inode.id
            &&& x.inode.kind == inode.kind
            &&& inode_codec::exact(x.inode)
            &&& 0 <= first <= inode.blocks.len()
            &&& forall|k: int|
                first <= k < need ==> t.allocator.covers(#[trigger] x.inode.blocks[k]) && (
                !t.allocator.owns(x.inode.blocks[k]) || inode.blocks.contains(x.inode.blocks[k]))
            &&& forall|k: int, l: int|
                first <= k < l < need ==> #[trigger] x.inode.blocks[k]
                    != #[trigger] x.inode.blocks[l]
        }),
{
    let t = soundness::tables_of(disk, sb);
    soundness::lemma_sound_parts(disk, sb);
    let inode = t.inodes[index];
    assert(inode_codec::exact(inode));
    crate::inode_table::lemma_canonical_exact(inode);
    let x = extend(disk, t.allocator, inode, inode.byte_len, start, data)->Ok_0;
    let have = inode.blocks.len() as int;
    let need = file_append_batch::blocks_for(start + data.len());
    let count = (need - have) as nat;
    let first = first_touched(inode.byte_len as int, start as int);
    let blocks = x.inode.blocks;
    ownership::lemma_fresh(t.allocator, count, false);
    assert(blocks =~= inode.blocks + x.fresh);
    if x.fresh.len() == 0 {
        assert(blocks =~= inode.blocks);
        assert(t.inodes.update(index, inode) =~= t.inodes);
        ownership::lemma_same_blocks(t.allocator, t.inodes, index, inode, x.inode);
        reveal_with_fuel(AllocView::taking, 2);
    } else {
        ownership::law_splice_keeps_ownership(
            t.allocator,
            t.inodes,
            index,
            have,
            have,
            count,
            false,
        );
        let s = file_blocks::splice(t.allocator, inode, have, have, count, false)->Ok_0;
        assert(inode.blocks.subrange(have, have) =~= Seq::<u64>::empty());
        ownership::lemma_same_blocks(x.allocator, t.inodes, index, s.inode, x.inode);
    }
    assert forall|k: int| first <= k < need implies t.allocator.covers(#[trigger] blocks[k]) && (
    !t.allocator.owns(blocks[k]) || inode.blocks.contains(blocks[k])) by {
        if k < have {
            assert(blocks.subrange(first, have)[k - first] == blocks[k]);
            assert(x.allocator.owns(blocks[k]));
            assert(blocks[k] == inode.blocks[k]);
        } else {
            assert(blocks[k] == x.fresh[k - have]);
            assert(t.allocator.covers(x.fresh[k - have]));
        }
    }
    assert forall|k: int, l: int| first <= k < l < need implies #[trigger] blocks[k]
        != #[trigger] blocks[l] by {
        assert(t.allocator.covers(blocks[k]));
        assert(inode_codec::exact(x.inode));
    }
}

/// What the writes past the end leave behind the new mapping.
proof fn lemma_extended_byte(disk: Disk, sb: Superblock, id: u64, index: int, start: u64, data: Seq<u8>, p: int)
    requires
        extends(disk, sb, id, index, start, data),
        0 <= p < start + data.len(),
    ensures
        ({
            let t = soundness::tables_of(disk, sb);
            let inode = t.inodes[index];
            let x = extend(disk, t.allocator, inode, inode.byte_len, start, data)->Ok_0;
            contents::byte_at(recovery::applied(disk, x.writes), x.inode, p) == written_byte(
                disk,
                inode,
                start as int,
                data,
                p,
            )
        }),
{
    let t = soundness::tables_of(disk, sb);
    soundness::lemma_sound_parts(disk, sb);
    lemma_extend_plan(disk, sb, id, index, start, data);
    let inode = t.inodes[index];
    crate::inode_table::lemma_canonical_exact(inode);
    let eof = inode.byte_len as int;
    let x = extend(disk, t.allocator, inode, inode.byte_len, start, data)->Ok_0;
    let have = inode.blocks.len() as int;
    let need = file_append_batch::blocks_for(start + data.len());
    let first = first_touched(eof, start as int);
    let blocks = x.inode.blocks;
    assert forall|k: int| first <= k < need implies (#[trigger] blocks[k]) < disk.len() by {
        assert(t.allocator.covers(blocks[k]));
    }
    lemma_extending_writes(disk, blocks, have, eof, start as int, data, first, need);
    let replayed = recovery::applied(disk, x.writes);
    let q = p / (BLOCK_SIZE as int);
    let r = p % (BLOCK_SIZE as int);
    assert(0 <= q < need);
    if q < first {
        assert(p < eof && p < start);
        assert(blocks[q] == inode.blocks[q]);
        contents::lemma_mapped_owned(t.allocator, t.inodes, index, q);
        assert forall|i: int| 0 <= i < x.writes.len() implies (#[trigger] x.writes[i]).0
            < disk.len() by {
            let k = choose|k: int| first <= k < need && #[trigger] blocks[k] == x.writes[i].0;
        }
        recovery::lemma_applied(disk, x.writes);
        if blocks[q] != inode_codec::SPARSE_HOLE_BLOCK && recovery::targets(
            x.writes,
            blocks[q] as int,
        ) {
            let i = choose|i: int| 0 <= i < x.writes.len() && (#[trigger] x.writes[i]).0 == blocks[q];
            let k = choose|k: int| first <= k < need && #[trigger] blocks[k] == x.writes[i].0;
            assert(blocks[q] == blocks[k]);
            assert(inode_codec::exact(x.inode));
        }
    } else {
        assert(t.allocator.covers(blocks[q]));
        assert(replayed[blocks[q] as int] == extended_image(
            candidate(disk, blocks, have, q),
            q,
            eof,
            start as int,
            data,
        ));
        assert(q * BLOCK_SIZE + r == p);
        if p < eof {
            assert(q < have);
            assert(blocks[q] == inode.blocks[q]);
        }
    }
}

proof fn lemma_extend_bytes(disk: Disk, sb: Superblock, id: u64, index: int, start: u64, data: Seq<u8>)
    requires
        extends(disk, sb, id, index, start, data),
        extending_write_step(disk, sb, id, start, data).result is Ok,
    ensures
        ({
            let end = extending_write_step(disk, sb, id, start, data).disk;
            let before = soundness::tables_of(disk, sb).inodes[index];
            let after = soundness::tables_of(end, sb).inodes[index];
            &&& contents::only_changed(disk, end, sb, index)
            &&& after.byte_len == start + data.len()
            &&& after.blocks == before.blocks + extending_write_step(
                disk,
                sb,
                id,
                start,
                data,
            ).result->Ok_0.0
            &&& forall|p: int|
                0 <= p < after.byte_len ==> #[trigger] contents::byte_at(end, after, p)
                    == written_byte(disk, before, start as int, data, p)
        }),
{
    let t = soundness::tables_of(disk, sb);
    soundness::lemma_sound_parts(disk, sb);
    lemma_extend_plan(disk, sb, id, index, start, data);
    let inode = t.inodes[index];
    crate::inode_table::lemma_canonical_exact(inode);
    let x = extend(disk, t.allocator, inode, inode.byte_len, start, data)->Ok_0;
    let have = inode.blocks.len() as int;
    let need = file_append_batch::blocks_for(start + data.len());
    let first = first_touched(inode.byte_len as int, start as int);
    let blocks = x.inode.blocks;
    assert forall|k: int| first <= k < need implies (#[trigger] blocks[k]) < disk.len() by {
        assert(t.allocator.covers(blocks[k]));
    }
    lemma_extending_writes(
        disk,
        blocks,
        have,
        inode.byte_len as int,
        start as int,
        data,
        first,
        need,
    );
    let u = Update {
        allocator: Some(x.allocator),
        inodes: Some(t.inodes.update(index, x.inode)),
        entries: None,
        data: x.writes,
    };
    assert forall|i: int| 0 <= i < u.data.len() implies sb.data_start() <= (#[trigger] u.data[i]).0
        < sb.total_blocks && u.data[i].1.len() == BLOCK_SIZE && (!t.allocator.owns(u.data[i].0)
        || inode.blocks.contains(u.data[i].0)) by {
        let k = choose|k: int| first <= k < need && #[trigger] blocks[k] == u.data[i].0;
        assert(t.allocator.covers(blocks[k]));
    }
    assert forall|k: int, j: int, m: int|
        #![trigger u.data[k], t.inodes[j].blocks[m]]
        0 <= k < u.data.len() && 0 <= j < t.inodes.len() && j != index && 0 <= m
            < t.inodes[j].blocks.len() implies u.data[k].0 != t.inodes[j].blocks[m] by {
        contents::lemma_stays_clear(t.allocator, t.inodes, index, u.data[k].0, j, m);
    }
    let images = contents::images_of(recovery::applied(disk, u.data), x.inode);
    contents::lemma_file_update(disk, sb, index, x.inode, u, true, images);
    let end = extending_write_step(disk, sb, id, start, data).disk;
    assert forall|p: int| 0 <= p < x.inode.byte_len implies #[trigger] contents::byte_at(
        end,
        x.inode,
        p,
    ) == written_byte(disk, inode, start as int, data, p) by {
        let q = p / (BLOCK_SIZE as int);
        assert(0 <= q < need);
        assert(contents::images_of(end, x.inode)[q] == images[q]);
        lemma_extended_byte(disk, sb, id, index, start, data, p);
    }
}

} // verus!
