//! Reading and overwriting byte ranges of a file.

use vstd::prelude::*;
use vstd::slice::*;
use crate::allocation_disk;
use crate::allocation_disk::load_allocator;
use crate::block;
use crate::block::{Block, BlockDevice, Disk, BLOCK_SIZE};
use crate::bytes;
use crate::contents;
use crate::error::{Error, ErrorKind};
use crate::file_append_batch;
use crate::file_blocks;
use crate::file_blocks::{differing_blocks, find_file, invalid_input, patched_block, snapshot_owned_blocks};
use crate::format::Superblock;
use crate::inode_codec;
use crate::inode_codec::{InodeView, PersistedInode};
use crate::inode_table;
use crate::inode_table::load_inode_table;
use crate::journal::EntryView;
use crate::journal_region;
use crate::recovery;
use crate::recovery::{HomeWrite, RecoveryReport};
use crate::soundness;
use crate::step;
use crate::step::Step;
use crate::transaction;
use crate::transaction::commit_blocks_and_checkpoint;

verus! {

/// `len` bytes from position `at` on of a file with this mapping.
pub open spec fn file_bytes(disk: Disk, blocks: Seq<u64>, at: int, len: nat) -> Seq<u8> {
    Seq::new(
        len,
        |k: int| disk[blocks[(at + k) / (BLOCK_SIZE as int)] as int][(at + k) % (BLOCK_SIZE as int)],
    )
}

/// A byte range that is not empty, starts inside its first block and has an end.
pub open spec fn proper_range(first: int, offset: int, len: int) -> bool {
    len > 0 && offset < BLOCK_SIZE && first * BLOCK_SIZE + offset + len <= usize::MAX
}

/// The blocks of a mapping behind a byte range; none where the range passes the end of the file,
/// or the end of its last block where `whole` allows as much.
pub open spec fn touched(inode: InodeView, first: int, offset: int, len: int, whole: bool) -> Option<Seq<u64>> {
    let end = first * BLOCK_SIZE + offset + len;
    if !whole && (inode.byte_len > usize::MAX || end > inode.byte_len) {
        None
    } else if end > inode.blocks.len() * BLOCK_SIZE {
        None
    } else {
        Some(inode.blocks.subrange(first, first + file_append_batch::blocks_for(offset + len)))
    }
}

/// The storage blocks behind a byte range of a file, or how the range is refused: it must not be
/// empty, must start inside its first block, must not pass the end of the file (or of its last
/// block, with `whole`), and every block behind it must be in use.
pub open spec fn range_blocks(disk: Disk, sb: Superblock, id: u64, first: int, offset: int, len: int, whole: bool) -> Result<Seq<u64>, ErrorKind> {
    if !proper_range(first, offset, len) {
        Err(ErrorKind::InvalidInput)
    } else {
        match inode_table::inodes_on(disk, sb) {
            Err(kind) => Err(kind),
            Ok(inodes) => match file_blocks::file_index(inodes, id) {
                Err(kind) => Err(kind),
                Ok(i) => match touched(inodes[i], first, offset, len, whole) {
                    None => Err(ErrorKind::InvalidInput),
                    Some(blocks) => match allocation_disk::allocator_on(disk, sb) {
                        Err(kind) => Err(kind),
                        Ok(a) => if file_blocks::all_owned(a, blocks) {
                            Ok(blocks)
                        } else {
                            Err(ErrorKind::InvalidData)
                        },
                    },
                },
            },
        }
    }
}

/// The bytes of a range of a file, or how the range is refused.
pub open spec fn read_range(disk: Disk, sb: Superblock, id: u64, first: int, offset: int, len: int) -> Result<Seq<u8>, ErrorKind> {
    match range_blocks(disk, sb, id, first, offset, len, false) {
        Err(kind) => Err(kind),
        Ok(blocks) => Ok(file_bytes(disk, blocks, offset, len as nat)),
    }
}

/// Block `j` of a range with `data` written from byte `offset` of the range on.
pub open spec fn overwritten(image: Seq<u8>, j: int, offset: int, data: Seq<u8>) -> Seq<u8> {
    Seq::new(
        BLOCK_SIZE as nat,
        |i: int|
            if offset <= j * BLOCK_SIZE + i < offset + data.len() {
                data[j * BLOCK_SIZE + i - offset]
            } else {
                image[i]
            },
    )
}

/// The blocks of a range that change when `data` is written from byte `offset` of it on.
pub open spec fn range_writes(disk: Disk, blocks: Seq<u64>, offset: int, data: Seq<u8>) -> Seq<HomeWrite> {
    let before = Seq::new(blocks.len(), |j: int| disk[blocks[j] as int]);
    let after = Seq::new(
        blocks.len(),
        |j: int| overwritten(disk[blocks[j] as int], j, offset, data),
    );
    file_blocks::differing(blocks, before, after)
}

/// A byte range of a file overwritten: a transaction unless the bytes are there already.
pub open spec fn write_range_step(disk: Disk, sb: Superblock, id: u64, first: int, offset: int, data: Seq<u8>) -> Step<RecoveryReport> {
    match range_blocks(disk, sb, id, first, offset, data.len() as int, true) {
        Err(kind) => step::stay(disk, Err(kind)),
        Ok(blocks) => {
            let writes = range_writes(disk, blocks, offset, data);
            if writes.len() == 0 {
                step::stay(disk, Ok(recovery::no_recovery()))
            } else {
                transaction::commit_settled_step(disk, sb, writes)
            }
        },
    }
}

proof fn lemma_range_within(first: int, offset: int, len: int, count: int, blocks: int)
    requires
        0 <= first,
        0 <= offset,
        0 < len,
        count == file_append_batch::blocks_for(offset + len),
        first * BLOCK_SIZE + offset + len <= blocks * BLOCK_SIZE,
    ensures
        first + count <= blocks,
{
}

fn is_proper_range(first_block_index: usize, start_offset: usize, len: usize) -> (b: bool)
    ensures
        b == proper_range(first_block_index as int, start_offset as int, len as int),
{
    if len == 0 || start_offset >= BLOCK_SIZE {
        return false;
    }
    match first_block_index.checked_mul(BLOCK_SIZE) {
        Some(base) => match base.checked_add(start_offset) {
            Some(at) => at.checked_add(len).is_some(),
            None => false,
        },
        None => false,
    }
}

fn touched_blocks(inode: &PersistedInode, first_block_index: usize, start_offset: usize, len: usize, whole: bool) -> (r: Option<Vec<u64>>)
    requires
        inode_codec::exact(inode@),
        proper_range(first_block_index as int, start_offset as int, len as int),
    ensures
        match r {
            Some(blocks) => {
                &&& touched(
                    inode@,
                    first_block_index as int,
                    start_offset as int,
                    len as int,
                    whole,
                ) == Some(blocks@)
                &&& blocks@.len() == file_append_batch::blocks_for(start_offset + len)
            },
            None => touched(
                inode@,
                first_block_index as int,
                start_offset as int,
                len as int,
                whole,
            ) is None,
        },
{
    let end: usize = first_block_index * BLOCK_SIZE + start_offset + len;
    if !whole && (inode.byte_len > usize::MAX as u64 || end as u64 > inode.byte_len) {
        return None;
    }
    match inode.blocks.len().checked_mul(BLOCK_SIZE) {
        Some(capacity) => if end > capacity {
            return None;
        },
        None => {},
    }
    let last_byte: usize = start_offset + len;
    let count: usize = last_byte / BLOCK_SIZE + if last_byte % BLOCK_SIZE == 0 {
        0
    } else {
        1
    };
    proof {
        lemma_range_within(
            first_block_index as int,
            start_offset as int,
            len as int,
            count as int,
            inode@.blocks.len() as int,
        );
        assert(inode.blocks.len() == inode.blocks@.len());
    }
    Some(
        slice_to_vec(
            slice_subrange(
                inode.blocks.as_slice(),
                first_block_index,
                first_block_index + count,
            ),
        ),
    )
}

/// Finds the blocks behind a byte range and reads them.
fn read_range_blocks<D: BlockDevice>(
    device: &mut D,
    superblock: &Superblock,
    inode_id: u64,
    first_block_index: usize,
    start_offset: usize,
    len: usize,
    whole: bool,
) -> (r: Result<(Vec<u64>, Vec<Block>), Error>)
    ensures
        block::untouched(old(device), final(device)),
        match r {
            Ok((blocks, images)) => {
                &&& range_blocks(
                    old(device).blocks(),
                    *superblock,
                    inode_id,
                    first_block_index as int,
                    start_offset as int,
                    len as int,
                    whole,
                ) == Ok::<Seq<u64>, ErrorKind>(blocks@)
                &&& blocks@.len() == images@.len()
                &&& blocks@.len() == file_append_batch::blocks_for(start_offset + len)
                &&& proper_range(first_block_index as int, start_offset as int, len as int)
                &&& forall|j: int|
                    0 <= j < blocks@.len() ==> (#[trigger] images@[j])@
                        == old(device).blocks()[blocks@[j] as int]
            },
            Err(e) => !old(device).healthy() || range_blocks(
                old(device).blocks(),
                *superblock,
                inode_id,
                first_block_index as int,
                start_offset as int,
                len as int,
                whole,
            ) == Err::<Seq<u64>, ErrorKind>(e.kind),
        },
        !proper_range(first_block_index as int, start_offset as int, len as int) ==> (
        r matches Err(e) && e.kind == ErrorKind::InvalidInput),
{
    let ghost disk = device.blocks();
    if !is_proper_range(first_block_index, start_offset, len) {
        return Err(
            invalid_input("file-data range must be non-empty and start within a block"),
        );
    }
    let inodes = load_inode_table(device, superblock)?;
    let index: usize = find_file(inodes.as_slice(), inode_id)?;
    proof {
        inode_table::lemma_inodes_exact(disk, *superblock);
        assert(inode_codec::exact(inode_table::inode_views(inodes@)[index as int]));
    }
    let blocks = match touched_blocks(&inodes[index], first_block_index, start_offset, len, whole) {
        Some(blocks) => blocks,
        None => return Err(invalid_input("file-data range extends beyond EOF")),
    };
    let allocator = load_allocator(device, superblock)?;
    let images = snapshot_owned_blocks(device, &allocator, blocks.as_slice())?;
    proof {
        let shot = file_blocks::snapshot(disk, allocator@, blocks@)->Some_0;
        assert(shot.len() == blocks@.len());
        assert forall|j: int| 0 <= j < blocks@.len() implies (#[trigger] images@[j])@
            == disk[blocks@[j] as int] by {
            assert(file_blocks::image_views(images@)[j] == shot[j]);
        }
    }
    Ok((blocks, images))
}

/// Reads a byte range of a regular file that lies before its end.
pub fn read_file_range<D: BlockDevice>(
    device: &mut D,
    superblock: &Superblock,
    inode_id: u64,
    first_block_index: usize,
    start_offset: usize,
    len: usize,
) -> (r: Result<Vec<u8>, Error>)
    ensures
        block::untouched(old(device), final(device)),
        match r {
            Ok(data) => read_range(
                old(device).blocks(),
                *superblock,
                inode_id,
                first_block_index as int,
                start_offset as int,
                len as int,
            ) == Ok::<Seq<u8>, ErrorKind>(data@),
            Err(e) => !old(device).healthy() || read_range(
                old(device).blocks(),
                *superblock,
                inode_id,
                first_block_index as int,
                start_offset as int,
                len as int,
            ) == Err::<Seq<u8>, ErrorKind>(e.kind),
        },
        !proper_range(first_block_index as int, start_offset as int, len as int) ==> (
        r matches Err(e) && e.kind == ErrorKind::InvalidInput),
{
    let ghost disk = device.blocks();
    let (blocks, images) = read_range_blocks(
        device,
        superblock,
        inode_id,
        first_block_index,
        start_offset,
        len,
        false,
    )?;
    let mut output: Vec<u8> = Vec::new();
    let mut k: usize = 0;
    assert(output@ =~= file_bytes(disk, blocks@, start_offset as int, 0));
    while k < len
        invariant
            k <= len,
            proper_range(first_block_index as int, start_offset as int, len as int),
            blocks@.len() == images@.len(),
            blocks@.len() == file_append_batch::blocks_for(start_offset + len),
            forall|j: int|
                0 <= j < blocks@.len() ==> (#[trigger] images@[j])@ == disk[blocks@[j] as int],
            output@ == file_bytes(disk, blocks@, start_offset as int, k as nat),
        decreases len - k,
    {
        let at: usize = start_offset + k;
        assert(at / BLOCK_SIZE < blocks@.len());
        assert(images@[at as int / BLOCK_SIZE as int]@ == disk[blocks@[at as int
            / BLOCK_SIZE as int] as int]);
        output.push(images[at / BLOCK_SIZE][at % BLOCK_SIZE]);
        k += 1;
        assert(output@ =~= file_bytes(disk, blocks@, start_offset as int, k as nat));
    }
    Ok(output)
}

/// A copy of block `j` of a range with its part of `data` written.
fn overwrite_image(image: &Block, j: usize, offset: usize, data: &[u8]) -> (r: Block)
    requires
        offset < BLOCK_SIZE,
        data@.len() > 0,
        offset + data@.len() <= usize::MAX,
        j * BLOCK_SIZE < offset + data@.len(),
    ensures
        r@ == overwritten(image@, j as int, offset as int, data@),
{
    broadcast use bytes::group_bytes;

    let base: usize = j * BLOCK_SIZE;
    let end: usize = offset + data.len();
    let lo: usize = if j == 0 {
        offset
    } else {
        0
    };
    let hi: usize = if end - base < BLOCK_SIZE {
        end - base
    } else {
        BLOCK_SIZE
    };
    let from: usize = if j == 0 {
        0
    } else {
        base - offset
    };
    let to: usize = from + (hi - lo);
    let r: Block = patched_block(image, lo, slice_subrange(data, from, to));
    assert(r@ =~= overwritten(image@, j as int, offset as int, data@));
    r
}

/// Overwrites a byte range of a regular file that lies in blocks it already has, as one
/// transaction. The length of the file does not change.
pub fn write_file_range_journaled<D: BlockDevice>(
    device: &mut D,
    superblock: &Superblock,
    inode_id: u64,
    first_block_index: usize,
    start_offset: usize,
    data: &[u8],
) -> (r: Result<RecoveryReport, Error>)
    ensures
        journal_region::carried_out(
            old(device),
            final(device),
            *superblock,
            step::kinded(r),
            write_range_step(
                old(device).blocks(),
                *superblock,
                inode_id,
                first_block_index as int,
                start_offset as int,
                data@,
            ),
        ),
        step::turned_away(
            old(device),
            final(device),
            step::kinded(r),
            !proper_range(first_block_index as int, start_offset as int, data@.len() as int),
        ),
{
    broadcast use journal_region::group_atomic;

    let ghost disk = device.blocks();
    let (blocks, images) = read_range_blocks(
        device,
        superblock,
        inode_id,
        first_block_index,
        start_offset,
        data.len(),
        true,
    )?;
    let mut next: Vec<Block> = Vec::new();
    let mut j: usize = 0;
    while j < images.len()
        invariant
            j <= images@.len(),
            blocks@.len() == images@.len(),
            blocks@.len() == file_append_batch::blocks_for(start_offset + data@.len()),
            proper_range(first_block_index as int, start_offset as int, data@.len() as int),
            block::untouched(old(device), device),
            next@.len() == j,
            forall|k: int|
                0 <= k < j ==> (#[trigger] next@[k])@ == overwritten(
                    images@[k]@,
                    k,
                    start_offset as int,
                    data@,
                ),
        decreases images@.len() - j,
    {
        let image: Block = overwrite_image(&images[j], j, start_offset, data);
        next.push(image);
        j += 1;
    }
    let writes = differing_blocks(blocks.as_slice(), images.as_slice(), next.as_slice());
    proof {
        let before = Seq::new(blocks@.len(), |j: int| disk[blocks@[j] as int]);
        let after = Seq::new(
            blocks@.len(),
            |j: int| overwritten(disk[blocks@[j] as int], j, start_offset as int, data@),
        );
        assert(file_blocks::image_views(images@) =~= before);
        assert(file_blocks::image_views(next@) =~= after);
    }
    if writes.is_empty() {
        return Ok(RecoveryReport::default());
    }
    commit_blocks_and_checkpoint(device, *superblock, writes.as_slice())
}

/// The contents of a file with `data` written from byte `offset` of block `first` on.
pub open spec fn images_with(images: Seq<Seq<u8>>, first: int, offset: int, data: Seq<u8>) -> Seq<Seq<u8>> {
    Seq::new(
        images.len(),
        |b: int|
            if first <= b < first + file_append_batch::blocks_for(offset + data.len()) {
                overwritten(images[b], b - first, offset, data)
            } else {
                images[b]
            },
    )
}

/// The mapping behind a byte range lies in the mapping of the file; its blocks are distinct and in
/// use.
pub proof fn lemma_range_blocks(disk: Disk, sb: Superblock, id: u64, index: int, first: int, offset: int, len: int, whole: bool)
    requires
        soundness::sound_on(disk, sb),
        file_blocks::file_index(soundness::tables_of(disk, sb).inodes, id) == Ok::<int, ErrorKind>(
            index,
        ),
        0 <= first,
        0 <= offset,
        range_blocks(disk, sb, id, first, offset, len, whole) is Ok,
    ensures
        ({
            let t = soundness::tables_of(disk, sb);
            let blocks = range_blocks(disk, sb, id, first, offset, len, whole)->Ok_0;
            let count = file_append_batch::blocks_for(offset + len);
            &&& 0 <= index < t.inodes.len()
            &&& first + count <= t.inodes[index].blocks.len()
            &&& blocks == t.inodes[index].blocks.subrange(first, first + count)
            &&& blocks.no_duplicates()
            &&& file_blocks::all_owned(t.allocator, blocks)
            &&& forall|j: int| 0 <= j < blocks.len() ==> (#[trigger] blocks[j]) < disk.len()
        }),
{
    let t = soundness::tables_of(disk, sb);
    let blocks = range_blocks(disk, sb, id, first, offset, len, whole)->Ok_0;
    soundness::lemma_sound_parts(disk, sb);
    file_blocks::lemma_index_from(t.inodes, id, 0);
    let mapping = t.inodes[index].blocks;
    assert(inode_codec::exact(t.inodes[index]));
    assert forall|i: int, j: int| 0 <= i < blocks.len() && 0 <= j < blocks.len() && i
        != j implies blocks[i] != blocks[j] by {
        assert(t.allocator.owns(blocks[i]));
        assert(blocks[i] == mapping[first + i] && blocks[j] == mapping[first + j]);
    }
    assert forall|j: int| 0 <= j < blocks.len() implies (#[trigger] blocks[j]) < disk.len() by {
        assert(t.allocator.owns(blocks[j]));
    }
}

/// A byte range that is written changes its own bytes, and nothing else changes.
pub proof fn law_write_range(disk: Disk, sb: Superblock, id: u64, index: int, first: int, offset: int, data: Seq<u8>)
    requires
        soundness::sound_on(disk, sb),
        file_blocks::file_index(soundness::tables_of(disk, sb).inodes, id) == Ok::<int, ErrorKind>(
            index,
        ),
        0 <= first,
        0 <= offset,
        write_range_step(disk, sb, id, first, offset, data).result is Ok,
    ensures
        contents::rewritten(
            disk,
            write_range_step(disk, sb, id, first, offset, data).disk,
            sb,
            index,
            images_with(
                contents::images_of(disk, soundness::tables_of(disk, sb).inodes[index]),
                first,
                offset,
                data,
            ),
        ),
        soundness::tables_of(write_range_step(disk, sb, id, first, offset, data).disk, sb)
            == soundness::tables_of(disk, sb),
        write_range_step(disk, sb, id, first, offset, data).disk == disk || journal_region::log_on(
            write_range_step(disk, sb, id, first, offset, data).disk,
            sb,
        ) == Some(Seq::<EntryView>::empty()),
{
    let t = soundness::tables_of(disk, sb);
    let inode = t.inodes[index];
    let len = data.len() as int;
    let blocks = range_blocks(disk, sb, id, first, offset, len, true)->Ok_0;
    let count = file_append_batch::blocks_for(offset + len);
    soundness::lemma_sound_parts(disk, sb);
    lemma_range_blocks(disk, sb, id, index, first, offset, len, true);
    let before = Seq::new(blocks.len(), |j: int| disk[blocks[j] as int]);
    let after = Seq::new(
        blocks.len(),
        |j: int| overwritten(disk[blocks[j] as int], j, offset, data),
    );
    let writes = file_blocks::differing(blocks, before, after);
    contents::lemma_differing(disk, blocks, before, after);
    let replayed = recovery::applied(disk, writes);
    let images = contents::images_of(disk, inode);
    let wanted = images_with(images, first, offset, data);
    assert forall|k: int| 0 <= k < writes.len() implies sb.data_start() <= (#[trigger] writes[k]).0
        < sb.total_blocks && writes[k].1.len() == BLOCK_SIZE by {
        let j = choose|j: int| 0 <= j < blocks.len() && (#[trigger] blocks[j], after[j])
            == writes[k];
        assert(t.allocator.owns(blocks[j]));
    }
    recovery::lemma_applied(disk, writes);
    assert forall|b: int| 0 <= b < wanted.len() implies contents::block_image(
        replayed,
        #[trigger] inode.blocks[b],
    ) == wanted[b] by {
        let block = inode.blocks[b];
        contents::lemma_mapped_owned(t.allocator, t.inodes, index, b);
        if first <= b < first + count {
            assert(blocks[b - first] == block);
            assert(t.allocator.owns(blocks[b - first]));
            assert(replayed[blocks[b - first] as int] == after[b - first]);
        } else if block != inode_codec::SPARSE_HOLE_BLOCK {
            if recovery::targets(writes, block as int) {
                let k = choose|k: int| 0 <= k < writes.len() && (#[trigger] writes[k]).0 == block;
                let j = choose|j: int| 0 <= j < blocks.len() && (#[trigger] blocks[j], after[j])
                    == writes[k];
                assert(inode.blocks[first + j] == inode.blocks[b]);
                assert(inode_codec::exact(inode));
            }
        }
    }
    assert(t.inodes.update(index, inode) =~= t.inodes);
    if writes.len() > 0 {
        let u = contents::data_update(writes);
        contents::lemma_data_update(disk, sb, writes);
        assert forall|k: int, j: int, m: int|
            #![trigger u.data[k], t.inodes[j].blocks[m]]
            0 <= k < u.data.len() && 0 <= j < t.inodes.len() && j != index && 0 <= m
                < t.inodes[j].blocks.len() implies u.data[k].0 != t.inodes[j].blocks[m] by {
            let i = choose|i: int| 0 <= i < blocks.len() && (#[trigger] blocks[i], after[i])
                == writes[k];
            assert(t.allocator.owns(blocks[i]));
            contents::lemma_sole_owner(t.allocator, t.inodes, index, first + i, j, m);
        }
        contents::lemma_file_update(disk, sb, index, inode, u, true, wanted);
        soundness::law_sound_update(disk, sb, u, true);
        crate::update::law_settled_update(disk, sb, u, true);
    } else {
        assert(replayed == disk);
        assert(images =~= wanted);
    }
}

/// What was written to a byte range is what a read of it gives back, where the range does not pass
/// the end of the file.
pub proof fn law_read_after_write(disk: Disk, sb: Superblock, id: u64, first: int, offset: int, data: Seq<u8>)
    requires
        soundness::sound_on(disk, sb),
        0 <= first,
        0 <= offset,
        write_range_step(disk, sb, id, first, offset, data).result is Ok,
        read_range(disk, sb, id, first, offset, data.len() as int) is Ok,
    ensures
        read_range(
            write_range_step(disk, sb, id, first, offset, data).disk,
            sb,
            id,
            first,
            offset,
            data.len() as int,
        ) == Ok::<Seq<u8>, ErrorKind>(data),
{
    let t = soundness::tables_of(disk, sb);
    let len = data.len() as int;
    let end = write_range_step(disk, sb, id, first, offset, data).disk;
    soundness::lemma_sound_parts(disk, sb);
    let index = file_blocks::file_index(t.inodes, id)->Ok_0;
    let inode = t.inodes[index];
    law_write_range(disk, sb, id, index, first, offset, data);
    lemma_range_blocks(disk, sb, id, index, first, offset, len, false);
    soundness::lemma_sound_parts(end, sb);
    let blocks = range_blocks(disk, sb, id, first, offset, len, false)->Ok_0;
    assert(range_blocks(end, sb, id, first, offset, len, false) == Ok::<Seq<u64>, ErrorKind>(
        blocks,
    ));
    let images = contents::images_of(disk, inode);
    let wanted = images_with(images, first, offset, data);
    assert(file_bytes(end, blocks, offset, len as nat) =~= data) by {
        assert forall|k: int| 0 <= k < len implies file_bytes(end, blocks, offset, len as nat)[k]
            == data[k] by {
            let j = (offset + k) / (BLOCK_SIZE as int);
            let i = (offset + k) % (BLOCK_SIZE as int);
            assert(j * BLOCK_SIZE + i == offset + k);
            assert(0 <= j < blocks.len());
            assert(t.allocator.owns(blocks[j]));
            assert(inode.blocks[first + j] == blocks[j]);
            assert(contents::images_of(end, inode)[first + j] == wanted[first + j]);
            assert(end[blocks[j] as int] == overwritten(images[first + j], j, offset, data));
        }
    }
}

/// The bytes that are read are those of the file from the start of the range on, and the range ends
/// inside the file. Every proper range inside a file whose blocks are all stored is read.
pub proof fn law_read_range(disk: Disk, sb: Superblock, id: u64, first: int, offset: int, len: int)
    requires
        soundness::sound_on(disk, sb),
        0 <= first,
        0 <= offset,
    ensures
        ({
            let t = soundness::tables_of(disk, sb);
            let at = first * BLOCK_SIZE + offset;
            &&& read_range(disk, sb, id, first, offset, len) matches Ok(data) ==> (
            file_blocks::file_index(t.inodes, id) matches Ok(i) && {
                &&& data.len() == len
                &&& at + len <= t.inodes[i].byte_len
                &&& forall|k: int|
                    0 <= k < len ==> #[trigger] data[k] == contents::byte_at(
                        disk,
                        t.inodes[i],
                        at + k,
                    )
            })
            &&& file_blocks::file_index(t.inodes, id) matches Ok(i) ==> (len > 0 && offset
                < BLOCK_SIZE && at + len <= t.inodes[i].byte_len && t.inodes[i].byte_len
                <= usize::MAX && (forall|b: int|
                first <= b && b * BLOCK_SIZE < at + len ==> #[trigger] t.inodes[i].blocks[b]
                    != inode_codec::SPARSE_HOLE_BLOCK) ==> read_range(
                disk,
                sb,
                id,
                first,
                offset,
                len,
            ) is Ok)
        }),
{
    let t = soundness::tables_of(disk, sb);
    let at = first * BLOCK_SIZE + offset;
    soundness::lemma_sound_parts(disk, sb);
    file_blocks::lemma_index_from(t.inodes, id, 0);
    if let Ok(i) = file_blocks::file_index(t.inodes, id) {
        let inode = t.inodes[i];
        assert(inode_codec::exact(inode));
        if let Ok(data) = read_range(disk, sb, id, first, offset, len) {
            lemma_range_blocks(disk, sb, id, i, first, offset, len, false);
            let blocks = range_blocks(disk, sb, id, first, offset, len, false)->Ok_0;
            assert forall|k: int| 0 <= k < len implies #[trigger] data[k] == contents::byte_at(
                disk,
                inode,
                at + k,
            ) by {
                let j = (offset + k) / (BLOCK_SIZE as int);
                assert((at + k) / (BLOCK_SIZE as int) == first + j);
                assert((at + k) % (BLOCK_SIZE as int) == (offset + k) % (BLOCK_SIZE as int));
                assert(0 <= j < blocks.len());
                assert(inode.blocks[first + j] == blocks[j]);
                assert(t.allocator.owns(blocks[j]));
            }
        }
        if len > 0 && offset < BLOCK_SIZE && at + len <= inode.byte_len && inode.byte_len
            <= usize::MAX && (forall|b: int|
            first <= b && b * BLOCK_SIZE < at + len ==> #[trigger] inode.blocks[b]
                != inode_codec::SPARSE_HOLE_BLOCK) {
            let count = file_append_batch::blocks_for(offset + len);
            let blocks = inode.blocks.subrange(first, first + count);
            assert forall|j: int| 0 <= j < blocks.len() implies t.allocator.owns(
                #[trigger] blocks[j],
            ) by {
                assert(blocks[j] == inode.blocks[first + j]);
                assert((first + j) * BLOCK_SIZE < at + len);
                contents::lemma_mapped_owned(t.allocator, t.inodes, i, first + j);
            }
        }
    }
}

/// A byte range that is written holds the data, byte by byte; every other byte of every file, and
/// the length of every file, is as before.
pub proof fn law_write_bytes(disk: Disk, sb: Superblock, id: u64, first: int, offset: int, data: Seq<u8>)
    requires
        soundness::sound_on(disk, sb),
        0 <= first,
        0 <= offset,
        write_range_step(disk, sb, id, first, offset, data).result is Ok,
    ensures
        ({
            let t = soundness::tables_of(disk, sb);
            let end = write_range_step(disk, sb, id, first, offset, data).disk;
            let at = first * BLOCK_SIZE + offset;
            &&& soundness::tables_of(end, sb) == t
            &&& file_blocks::file_index(t.inodes, id) matches Ok(i) && {
                &&& at + data.len() <= t.inodes[i].blocks.len() * BLOCK_SIZE
                &&& contents::only_changed(disk, end, sb, i)
                &&& forall|p: int|
                    0 <= p < t.inodes[i].blocks.len() * BLOCK_SIZE ==> #[trigger] contents::byte_at(
                        end,
                        t.inodes[i],
                        p,
                    ) == if at <= p < at + data.len() {
                        data[p - at]
                    } else {
                        contents::byte_at(disk, t.inodes[i], p)
                    }
            }
        }),
{
    let t = soundness::tables_of(disk, sb);
    let end = write_range_step(disk, sb, id, first, offset, data).disk;
    let at = first * BLOCK_SIZE + offset;
    let len = data.len() as int;
    soundness::lemma_sound_parts(disk, sb);
    file_blocks::lemma_index_from(t.inodes, id, 0);
    let i = file_blocks::file_index(t.inodes, id)->Ok_0;
    let inode = t.inodes[i];
    law_write_range(disk, sb, id, i, first, offset, data);
    lemma_range_blocks(disk, sb, id, i, first, offset, len, true);
    let images = contents::images_of(disk, inode);
    let wanted = images_with(images, first, offset, data);
    assert forall|p: int| 0 <= p < inode.blocks.len() * BLOCK_SIZE implies #[trigger] contents::byte_at(
        end,
        inode,
        p,
    ) == if at <= p < at + len {
        data[p - at]
    } else {
        contents::byte_at(disk, inode, p)
    } by {
        let b = p / (BLOCK_SIZE as int);
        let r = p % (BLOCK_SIZE as int);
        assert(b * BLOCK_SIZE + r == p);
        assert(contents::images_of(end, inode)[b] == wanted[b]);
        assert(images[b] == contents::block_image(disk, inode.blocks[b]));
    }
}

} // verus!
