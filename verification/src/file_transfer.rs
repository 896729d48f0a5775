//! Moving ranges of blocks between files, or inside one, without copying them.

use vstd::prelude::*;
use crate::block::{BlockDevice, Disk, BLOCK_SIZE};
use crate::contents;
use crate::error::{Error, ErrorKind};
use crate::file_blocks;
use crate::file_blocks::{are_distinct, are_owned, find_file, invalid_data, invalid_input, join_blocks, load_tables, mapping_range, publish_inodes};
use crate::file_clone_insert;
use crate::file_clone_insert::find_file_pair;
use crate::file_exchange;
use crate::format::Superblock;
use crate::inode_codec;
use crate::inode_codec::InodeView;
use crate::inode_table;
use crate::journal_region;
use crate::ownership;
use crate::recovery::RecoveryReport;
use crate::soundness;
use crate::step;
use crate::step::Step;
use crate::update::Update;

verus! {

/// The two lists share no block.
pub open spec fn disjoint(a: Seq<u64>, b: Seq<u64>) -> bool {
    forall|i: int, j: int|
        0 <= i < a.len() && 0 <= j < b.len() ==> #[trigger] a[i] != #[trigger] b[j]
}

/// A mapping without a range, and another with that range in front of its block `at`.
pub open spec fn transferred(source: InodeView, start: int, end: int, destination: InodeView, at: int) -> Option<(InodeView, InodeView)> {
    match (
        inode_codec::replaced_range(source, start, end, Seq::empty()),
        inode_codec::replaced_range(destination, at, at, source.blocks.subrange(start, end)),
    ) {
        (Some(s), Some(d)) => Some((s, d)),
        _ => None,
    }
}

/// Adds the list of moved blocks to the result of a step.
pub open spec fn with_blocks(s: Step<RecoveryReport>, blocks: Seq<u64>) -> Step<(Seq<u64>, RecoveryReport)> {
    Step {
        disk: s.disk,
        result: match s.result {
            Ok(report) => Ok((blocks, report)),
            Err(kind) => Err(kind),
        },
    }
}

/// `count` blocks of the source from `start` on moved in front of block `at` of another file, as
/// one transaction.
pub open spec fn transfer_step(
    disk: Disk,
    sb: Superblock,
    source: u64,
    start: int,
    count: int,
    destination: u64,
    at: int,
) -> Step<(Seq<u64>, RecoveryReport)> {
    if source == destination || count == 0 {
        step::stay(disk, Err(ErrorKind::InvalidInput))
    } else {
        match file_blocks::tables_on(disk, sb) {
            Err(kind) => step::stay(disk, Err(kind)),
            Ok((a, inodes)) => match file_clone_insert::file_pair(inodes, source, destination) {
                None => step::stay(disk, Err(ErrorKind::InvalidInput)),
                Some((s, d)) => if start + count > inodes[s].blocks.len() || at
                    > inodes[d].blocks.len() {
                    step::stay(disk, Err(ErrorKind::InvalidInput))
                } else {
                    let moved = inodes[s].blocks.subrange(start, start + count);
                    if !file_blocks::all_owned(a, moved) || !disjoint(moved, inodes[d].blocks) {
                        step::stay(disk, Err(ErrorKind::InvalidData))
                    } else {
                        match transferred(inodes[s], start, start + count, inodes[d], at) {
                            None => step::stay(disk, Err(ErrorKind::InvalidInput)),
                            Some((x, y)) => with_blocks(
                                file_blocks::inodes_step(
                                    disk,
                                    sb,
                                    inodes.update(s, x).update(d, y),
                                    true,
                                ),
                                moved,
                            ),
                        }
                    }
                },
            },
        }
    }
}

/// A mapping with the range from `start` to `end` moved in front of block `at` of the rest.
pub open spec fn moved_within(blocks: Seq<u64>, start: int, end: int, at: int) -> Seq<u64> {
    let rest = blocks.subrange(0, start) + blocks.subrange(end, blocks.len() as int);
    rest.subrange(0, at) + blocks.subrange(start, end) + rest.subrange(at, rest.len() as int)
}

/// `count` blocks of a file from `start` on moved in front of block `at` of the rest of it, as one
/// transaction.
pub open spec fn move_step(disk: Disk, sb: Superblock, id: u64, start: int, count: int, at: int) -> Step<(Seq<u64>, RecoveryReport)> {
    if count == 0 {
        step::stay(disk, Err(ErrorKind::InvalidInput))
    } else {
        match file_blocks::tables_on(disk, sb) {
            Err(kind) => step::stay(disk, Err(kind)),
            Ok((a, inodes)) => match file_blocks::file_index(inodes, id) {
                Err(kind) => step::stay(disk, Err(kind)),
                Ok(i) => {
                    let blocks = inodes[i].blocks;
                    if start + count > blocks.len() || at > blocks.len() - count || at == start {
                        step::stay(disk, Err(ErrorKind::InvalidInput))
                    } else if !file_exchange::distinct_owned(a, blocks) {
                        step::stay(disk, Err(ErrorKind::InvalidData))
                    } else {
                        match inode_codec::replaced_range(
                            inodes[i],
                            0,
                            blocks.len() as int,
                            moved_within(blocks, start, start + count, at),
                        ) {
                            None => step::stay(disk, Err(ErrorKind::InvalidInput)),
                            Some(next) => with_blocks(
                                file_blocks::inodes_step(disk, sb, inodes.update(i, next), true),
                                blocks.subrange(start, start + count),
                            ),
                        }
                    }
                },
            },
        }
    }
}

/// A transfer leaves the two files with the same blocks between them as before: no block is lost,
/// and none is referenced twice.
pub proof fn law_transfer_keeps_blocks(source: InodeView, start: int, end: int, destination: InodeView, at: int)
    requires
        0 <= start <= end <= source.blocks.len(),
        0 <= at <= destination.blocks.len(),
        transferred(source, start, end, destination, at) is Some,
    ensures
        ({
            let (s, d) = transferred(source, start, end, destination, at)->Some_0;
            (s.blocks + d.blocks).to_multiset() == (source.blocks
                + destination.blocks).to_multiset()
        }),
{
    let (s, d) = transferred(source, start, end, destination, at)->Some_0;
    let a = source.blocks.subrange(0, start);
    let x = source.blocks.subrange(start, end);
    let b = source.blocks.subrange(end, source.blocks.len() as int);
    let c = destination.blocks.subrange(0, at);
    let e = destination.blocks.subrange(at, destination.blocks.len() as int);
    assert(source.blocks =~= a + x + b);
    assert(destination.blocks =~= c + e);
    assert(s.blocks =~= a + b);
    assert(d.blocks =~= c + x + e);
    file_exchange::lemma_multiset_sum(s.blocks, d.blocks);
    file_exchange::lemma_multiset_sum(source.blocks, destination.blocks);
    file_exchange::lemma_multiset_sum(a, b);
    file_exchange::lemma_multiset_sum(c + x, e);
    file_exchange::lemma_multiset_sum(c, x);
    file_exchange::lemma_multiset_sum(a + x, b);
    file_exchange::lemma_multiset_sum(a, x);
    file_exchange::lemma_multiset_sum(c, e);
    assert((s.blocks + d.blocks).to_multiset() =~= (source.blocks
        + destination.blocks).to_multiset());
}

/// A move inside a file only reorders its blocks.
pub proof fn law_move_keeps_blocks(blocks: Seq<u64>, start: int, end: int, at: int)
    requires
        0 <= start <= end <= blocks.len(),
        0 <= at <= blocks.len() - (end - start),
    ensures
        moved_within(blocks, start, end, at).len() == blocks.len(),
        moved_within(blocks, start, end, at).to_multiset() == blocks.to_multiset(),
        moved_within(blocks, start, end, at).subrange(at, at + (end - start)) == blocks.subrange(
            start,
            end,
        ),
{
    let a = blocks.subrange(0, start);
    let x = blocks.subrange(start, end);
    let b = blocks.subrange(end, blocks.len() as int);
    let rest = a + b;
    let p = rest.subrange(0, at);
    let q = rest.subrange(at, rest.len() as int);
    let next = moved_within(blocks, start, end, at);
    assert(blocks =~= a + x + b);
    assert(rest =~= p + q);
    assert(next =~= p + x + q);
    assert(next.subrange(at, at + (end - start)) =~= x);
    file_exchange::lemma_multiset_sum(a + x, b);
    file_exchange::lemma_multiset_sum(a, x);
    file_exchange::lemma_multiset_sum(a, b);
    file_exchange::lemma_multiset_sum(p, q);
    file_exchange::lemma_multiset_sum(p + x, q);
    file_exchange::lemma_multiset_sum(p, x);
    assert forall|v: u64| #[trigger]
        next.to_multiset().count(v) == blocks.to_multiset().count(v) by {
        assert((p + q).to_multiset().count(v) == (a + b).to_multiset().count(v));
    }
    assert(next.to_multiset() =~= blocks.to_multiset());
}

fn are_disjoint(a: &[u64], b: &[u64]) -> (r: bool)
    ensures
        r == disjoint(a@, b@),
{
    let mut i: usize = 0;
    while i < a.len()
        invariant
            i <= a@.len(),
            forall|k: int, j: int|
                0 <= k < i && 0 <= j < b@.len() ==> #[trigger] a@[k] != #[trigger] b@[j],
        decreases a@.len() - i,
    {
        let mut j: usize = 0;
        while j < b.len()
            invariant
                i < a@.len(),
                j <= b@.len(),
                forall|k: int| 0 <= k < j ==> a@[i as int] != #[trigger] b@[k],
            decreases b@.len() - j,
        {
            if a[i] == b[j] {
                return false;
            }
            j += 1;
        }
        i += 1;
    }
    true
}

/// Moves a range of blocks from one regular file into another as one transaction and returns the
/// moved storage blocks. No block is copied, taken or released.
pub fn transfer_file_block_range_journaled<D: BlockDevice>(
    device: &mut D,
    superblock: &Superblock,
    source_inode_id: u64,
    source_index: usize,
    block_count: usize,
    destination_inode_id: u64,
    destination_index: usize,
) -> (r: Result<(Vec<u64>, RecoveryReport), Error>)
    ensures
        journal_region::carried_out(
            old(device),
            final(device),
            *superblock,
            file_blocks::block_list(r),
            transfer_step(
                old(device).blocks(),
                *superblock,
                source_inode_id,
                source_index as int,
                block_count as int,
                destination_inode_id,
                destination_index as int,
            ),
        ),
        step::turned_away(
            old(device),
            final(device),
            file_blocks::block_list(r),
            source_inode_id == destination_inode_id || block_count == 0,
        ),
{
    broadcast use journal_region::group_atomic;

    if source_inode_id == destination_inode_id || block_count == 0 {
        return Err(
            invalid_input("block-range transfer requires distinct inodes and a non-empty range"),
        );
    }
    let (allocator, mut inodes) = load_tables(device, superblock)?;
    let ghost before = inodes@;
    proof {
        let views = inode_table::inode_views(inodes@);
        file_blocks::lemma_index_from(views, source_inode_id, 0);
        file_blocks::lemma_index_from(views, destination_inode_id, 0);
    }
    let (s, d) = find_file_pair(inodes.as_slice(), source_inode_id, destination_inode_id)?;
    assert(inodes@[s as int].blocks.len() == inodes@[s as int].blocks@.len());
    let source_end: usize = match source_index.checked_add(block_count) {
        Some(end) => end,
        None => return Err(invalid_input("source logical range overflows")),
    };
    if source_end > inodes[s].blocks.len() {
        return Err(invalid_input("source logical range is beyond the end"));
    }
    if destination_index > inodes[d].blocks.len() {
        return Err(invalid_input("destination logical index is beyond the end"));
    }
    let moved = mapping_range(&inodes[s], source_index, source_end);
    if !are_owned(&allocator, moved.as_slice()) || !are_disjoint(
        moved.as_slice(),
        inodes[d].blocks.as_slice(),
    ) {
        return Err(invalid_data("source block is unowned or already referenced"));
    }
    assert([]@ =~= Seq::<u64>::empty());
    inodes[s].replace_block_range(source_index..source_end, &[])?;
    let ghost half = inodes@;
    inodes[d].replace_block_range(destination_index..destination_index, moved.as_slice())?;
    proof {
        file_blocks::lemma_views_update(before, half, s as int);
        file_blocks::lemma_views_update(half, inodes@, d as int);
    }
    let report = publish_inodes(device, superblock, inodes.as_slice(), true)?;
    Ok((moved, report))
}

/// Moves a range of blocks inside one regular file as one transaction and returns the moved
/// storage blocks. The destination counts the blocks that remain when the range is taken out.
pub fn move_file_block_range_journaled<D: BlockDevice>(
    device: &mut D,
    superblock: &Superblock,
    inode_id: u64,
    source_index: usize,
    block_count: usize,
    destination_index: usize,
) -> (r: Result<(Vec<u64>, RecoveryReport), Error>)
    ensures
        journal_region::carried_out(
            old(device),
            final(device),
            *superblock,
            file_blocks::block_list(r),
            move_step(
                old(device).blocks(),
                *superblock,
                inode_id,
                source_index as int,
                block_count as int,
                destination_index as int,
            ),
        ),
        step::turned_away(
            old(device),
            final(device),
            file_blocks::block_list(r),
            block_count == 0,
        ),
{
    broadcast use journal_region::group_atomic;

    if block_count == 0 {
        return Err(invalid_input("block-range move requires at least one logical block"));
    }
    let (allocator, mut inodes) = load_tables(device, superblock)?;
    let ghost before = inodes@;
    let index: usize = find_file(inodes.as_slice(), inode_id)?;
    let original_len: usize = inodes[index].blocks.len();
    let source_end: usize = match source_index.checked_add(block_count) {
        Some(end) => end,
        None => return Err(invalid_input("source logical range overflows")),
    };
    if source_end > original_len {
        return Err(invalid_input("source logical range is beyond the end"));
    }
    let remaining_len: usize = original_len - block_count;
    if destination_index > remaining_len {
        return Err(invalid_input("destination logical index is beyond the post-removal end"));
    }
    if destination_index == source_index {
        return Err(invalid_input("block-range move must change logical order"));
    }
    if !are_distinct(inodes[index].blocks.as_slice()) || !are_owned(
        &allocator,
        inodes[index].blocks.as_slice(),
    ) {
        return Err(invalid_data("move inode references repeated or unowned blocks"));
    }
    let moved = mapping_range(&inodes[index], source_index, source_end);
    let front = mapping_range(&inodes[index], 0, source_index);
    let back = mapping_range(&inodes[index], source_end, original_len);
    let rest = join_blocks(front.as_slice(), back.as_slice());
    let head = vstd::slice::slice_subrange(rest.as_slice(), 0, destination_index);
    let tail = vstd::slice::slice_subrange(rest.as_slice(), destination_index, rest.len());
    let head_moved = join_blocks(head, moved.as_slice());
    let next = join_blocks(head_moved.as_slice(), tail);
    inodes[index].replace_block_range(0..original_len, next.as_slice())?;
    proof {
        file_blocks::lemma_views_update(before, inodes@, index as int);
    }
    let report = publish_inodes(device, superblock, inodes.as_slice(), true)?;
    Ok((moved, report))
}

/// Blocks that are transferred leave the source and stand in the destination, and nothing else
/// changes.
pub proof fn law_transfer(
    disk: Disk,
    sb: Superblock,
    source: u64,
    start: int,
    count: int,
    destination: u64,
    at: int,
    s: int,
    d: int,
)
    requires
        soundness::sound_on(disk, sb),
        file_clone_insert::file_pair(soundness::tables_of(disk, sb).inodes, source, destination)
            == Some((s, d)),
        0 <= start,
        0 <= count,
        0 <= at,
        transfer_step(disk, sb, source, start, count, destination, at).result is Ok,
    ensures
        ({
            let t = soundness::tables_of(disk, sb);
            let x = contents::images_of(disk, t.inodes[s]);
            let y = contents::images_of(disk, t.inodes[d]);
            contents::rewritten_pair(
                disk,
                transfer_step(disk, sb, source, start, count, destination, at).disk,
                sb,
                s,
                x.subrange(0, start) + x.subrange(start + count, x.len() as int),
                d,
                y.subrange(0, at) + x.subrange(start, start + count) + y.subrange(
                    at,
                    y.len() as int,
                ),
            )
        }),
        ({
            let t = soundness::tables_of(disk, sb);
            let step = transfer_step(disk, sb, source, start, count, destination, at);
            let n = soundness::tables_of(step.disk, sb);
            &&& n.allocator == t.allocator
            &&& step.result->Ok_0.0 == t.inodes[s].blocks.subrange(start, start + count)
            &&& n.inodes[d].blocks.subrange(at, at + count) == step.result->Ok_0.0
            &&& n.inodes[s].byte_len == if n.inodes[s].blocks.len() == 0 {
                0
            } else {
                t.inodes[s].byte_len - count * BLOCK_SIZE
            }
            &&& n.inodes[d].byte_len == t.inodes[d].byte_len + count * BLOCK_SIZE
        }),
{
    let t = soundness::tables_of(disk, sb);
    soundness::lemma_sound_parts(disk, sb);
    file_blocks::lemma_index_from(t.inodes, source, 0);
    file_blocks::lemma_index_from(t.inodes, destination, 0);
    let a = t.inodes[s];
    let b = t.inodes[d];
    let end = start + count;
    let (x, y) = transferred(a, start, end, b, at)->Some_0;
    let moved = a.blocks.subrange(start, end);
    law_transfer_keeps_blocks(a, start, end, b, at);
    ownership::law_reshuffle_keeps_ownership(t.allocator, t.inodes, s, x, d, y);
    contents::lemma_spliced_images(disk, a, start, end, Seq::empty());
    contents::lemma_spliced_images(disk, b, at, at, moved);
    let u = Update {
        allocator: None,
        inodes: Some(t.inodes.update(s, x).update(d, y)),
        entries: None,
        data: Seq::empty(),
    };
    contents::lemma_pair_update(disk, sb, s, x, d, y, u, true);
    let before = contents::images_of(disk, a);
    assert(contents::images_of(disk, InodeView { blocks: moved, ..b }) =~= before.subrange(
        start,
        end,
    ));
    assert(before.subrange(0, start) + contents::images_of(
        disk,
        InodeView { blocks: Seq::empty(), ..a },
    ) + before.subrange(end, before.len() as int) =~= before.subrange(0, start) + before.subrange(
        end,
        before.len() as int,
    ));
    assert(inode_codec::exact(a));
    assert(inode_codec::exact(b));
    inode_codec::law_replaced_range(a, start, end, Seq::empty());
    inode_codec::law_replaced_range(b, at, at, moved);
    assert(y.blocks.subrange(at, at + count) =~= moved);
}

/// A move inside a file puts the range in front of its new place, and nothing else changes.
pub proof fn law_move(disk: Disk, sb: Superblock, id: u64, index: int, start: int, count: int, at: int)
    requires
        soundness::sound_on(disk, sb),
        file_blocks::file_index(soundness::tables_of(disk, sb).inodes, id) == Ok::<int, ErrorKind>(
            index,
        ),
        0 <= start,
        0 <= count,
        0 <= at,
        move_step(disk, sb, id, start, count, at).result is Ok,
    ensures
        ({
            let x = contents::images_of(disk, soundness::tables_of(disk, sb).inodes[index]);
            let rest = x.subrange(0, start) + x.subrange(start + count, x.len() as int);
            let t = soundness::tables_of(disk, sb);
            let inode = t.inodes[index];
            &&& contents::rewritten(
                disk,
                move_step(disk, sb, id, start, count, at).disk,
                sb,
                index,
                rest.subrange(0, at) + x.subrange(start, start + count) + rest.subrange(
                    at,
                    rest.len() as int,
                ),
            )
            &&& move_step(disk, sb, id, start, count, at).result->Ok_0.0 == inode.blocks.subrange(
                start,
                start + count,
            )
            &&& soundness::tables_of(move_step(disk, sb, id, start, count, at).disk, sb) == (
            soundness::Tables {
                inodes: t.inodes.update(
                    index,
                    InodeView {
                        blocks: moved_within(inode.blocks, start, start + count, at),
                        ..inode
                    },
                ),
                ..t
            })
        }),
{
    let t = soundness::tables_of(disk, sb);
    soundness::lemma_sound_parts(disk, sb);
    file_blocks::lemma_index_from(t.inodes, id, 0);
    let inode = t.inodes[index];
    let end = start + count;
    let order = moved_within(inode.blocks, start, end, at);
    let next = inode_codec::replaced_range(inode, 0, inode.blocks.len() as int, order)->Some_0;
    law_move_keeps_blocks(inode.blocks, start, end, at);
    assert(next.blocks =~= order);
    ownership::law_reorder_keeps_ownership(t.allocator, t.inodes, index, next);
    let u = Update {
        allocator: None,
        inodes: Some(t.inodes.update(index, next)),
        entries: None,
        data: Seq::empty(),
    };
    let x = contents::images_of(disk, inode);
    let rest = x.subrange(0, start) + x.subrange(end, x.len() as int);
    let wanted = rest.subrange(0, at) + x.subrange(start, end) + rest.subrange(
        at,
        rest.len() as int,
    );
    let left = inode.blocks.subrange(0, start) + inode.blocks.subrange(
        end,
        inode.blocks.len() as int,
    );
    assert forall|i: int| 0 <= i < wanted.len() implies contents::block_image(
        disk,
        #[trigger] next.blocks[i],
    ) == wanted[i] by {
        if i < at {
            assert(next.blocks[i] == left[i]);
        } else if i < at + count {
            assert(next.blocks[i] == inode.blocks[start + i - at]);
        } else {
            assert(next.blocks[i] == left[i - count]);
        }
    }
    contents::lemma_file_update(disk, sb, index, next, u, true, wanted);
    assert(inode_codec::exact(inode));
    assert(soundness::tables_of(move_step(disk, sb, id, start, count, at).disk, sb).inodes
        =~= t.inodes.update(index, next));
}

/// A range of a list that is moved and moved back stands where it stood.
pub proof fn law_moved_back(blocks: Seq<u64>, start: int, end: int, at: int)
    requires
        0 <= start <= end <= blocks.len(),
        0 <= at <= blocks.len() - (end - start),
    ensures
        moved_within(moved_within(blocks, start, end, at), at, at + (end - start), start) == blocks,
{
    let n = end - start;
    let next = moved_within(blocks, start, end, at);
    let rest = blocks.subrange(0, start) + blocks.subrange(end, blocks.len() as int);
    assert(next.subrange(0, at) + next.subrange(at + n, next.len() as int) =~= rest);
    assert(next.subrange(at, at + n) =~= blocks.subrange(start, end));
    assert(rest.subrange(0, start) + blocks.subrange(start, end) + rest.subrange(
        start,
        rest.len() as int,
    ) =~= blocks);
}

/// What a move inside a file does to the tables.
proof fn lemma_move_tables(disk: Disk, sb: Superblock, id: u64, start: int, count: int, at: int)
    requires
        0 <= start,
        0 <= count,
        0 <= at,
        move_step(disk, sb, id, start, count, at).result is Ok,
    ensures
        ({
            let t = soundness::tables_of(disk, sb);
            let end = move_step(disk, sb, id, start, count, at).disk;
            &&& file_blocks::file_index(t.inodes, id) matches Ok(i) && 0 <= i < t.inodes.len()
                && start + count <= t.inodes[i].blocks.len() && at <= t.inodes[i].blocks.len()
                - count && soundness::tables_of(end, sb) == (soundness::Tables {
                inodes: t.inodes.update(
                    i,
                    InodeView {
                        blocks: moved_within(t.inodes[i].blocks, start, start + count, at),
                        ..t.inodes[i]
                    },
                ),
                ..t
            })
            &&& soundness::readable_on(disk, sb) ==> soundness::readable_on(end, sb)
        }),
{
    let t = soundness::tables_of(disk, sb);
    let index = file_blocks::file_index(t.inodes, id)->Ok_0;
    file_blocks::lemma_index_from(t.inodes, id, 0);
    inode_table::lemma_inodes_exact(disk, sb);
    let inode = t.inodes[index];
    let order = moved_within(inode.blocks, start, start + count, at);
    let next = inode_codec::replaced_range(inode, 0, inode.blocks.len() as int, order)->Some_0;
    assert(next.blocks =~= order);
    assert(inode_codec::exact(inode));
    let u = Update {
        allocator: None,
        inodes: Some(t.inodes.update(index, next)),
        entries: None,
        data: Seq::empty(),
    };
    soundness::lemma_update_tables(disk, sb, u, true);
}

/// A range that is moved inside a file and moved back leaves every table as it was, and a sound
/// device sound.
pub proof fn law_move_back(disk: Disk, sb: Superblock, id: u64, start: int, count: int, at: int)
    requires
        0 <= start,
        0 <= count,
        0 <= at,
        move_step(disk, sb, id, start, count, at).result is Ok,
        move_step(move_step(disk, sb, id, start, count, at).disk, sb, id, at, count, start).result is Ok,
    ensures
        ({
            let end = move_step(
                move_step(disk, sb, id, start, count, at).disk,
                sb,
                id,
                at,
                count,
                start,
            ).disk;
            &&& soundness::tables_of(end, sb) == soundness::tables_of(disk, sb)
            &&& soundness::sound_on(disk, sb) ==> soundness::sound_on(end, sb)
        }),
{
    let mid = move_step(disk, sb, id, start, count, at).disk;
    let end = move_step(mid, sb, id, at, count, start).disk;
    let t = soundness::tables_of(disk, sb);
    let m = soundness::tables_of(mid, sb);
    lemma_move_tables(disk, sb, id, start, count, at);
    let index = file_blocks::file_index(t.inodes, id)->Ok_0;
    soundness::lemma_same_index(t.inodes, m.inodes, id, 0);
    lemma_move_tables(mid, sb, id, at, count, start);
    law_moved_back(t.inodes[index].blocks, start, start + count, at);
    assert(soundness::tables_of(end, sb).inodes =~= t.inodes);
    soundness::lemma_sound_again(disk, end, sb);
}

/// What a transfer does to the tables.
proof fn lemma_transfer_tables(
    disk: Disk,
    sb: Superblock,
    source: u64,
    start: int,
    count: int,
    destination: u64,
    at: int,
)
    requires
        0 <= start,
        0 <= count,
        0 <= at,
        transfer_step(disk, sb, source, start, count, destination, at).result is Ok,
    ensures
        ({
            let t = soundness::tables_of(disk, sb);
            let end = transfer_step(disk, sb, source, start, count, destination, at).disk;
            &&& file_clone_insert::file_pair(t.inodes, source, destination) matches Some((s, d))
                && 0 <= s < t.inodes.len() && 0 <= d < t.inodes.len() && s != d && start + count
                <= t.inodes[s].blocks.len() && at <= t.inodes[d].blocks.len() && (transferred(
                t.inodes[s],
                start,
                start + count,
                t.inodes[d],
                at,
            ) matches Some((x, y)) && inode_codec::exact(t.inodes[s]) && inode_codec::exact(
                t.inodes[d],
            ) && soundness::tables_of(end, sb) == (soundness::Tables {
                inodes: t.inodes.update(s, x).update(d, y),
                ..t
            }))
            &&& soundness::readable_on(disk, sb) ==> soundness::readable_on(end, sb)
        }),
{
    let t = soundness::tables_of(disk, sb);
    let (s, d) = file_clone_insert::file_pair(t.inodes, source, destination)->Some_0;
    file_blocks::lemma_index_from(t.inodes, source, 0);
    file_blocks::lemma_index_from(t.inodes, destination, 0);
    inode_table::lemma_inodes_exact(disk, sb);
    let (x, y) = transferred(t.inodes[s], start, start + count, t.inodes[d], at)->Some_0;
    assert(inode_codec::exact(t.inodes[s]) && inode_codec::exact(t.inodes[d]));
    let u = Update {
        allocator: None,
        inodes: Some(t.inodes.update(s, x).update(d, y)),
        entries: None,
        data: Seq::empty(),
    };
    soundness::lemma_update_tables(disk, sb, u, true);
}

/// The file that lent a range of its blocks and got it back: as it was, but that a file which lent
/// all its blocks has lost where its last one ended.
pub open spec fn lent_and_back(inode: InodeView, count: int) -> InodeView {
    if count == inode.blocks.len() {
        InodeView { byte_len: (inode.blocks.len() * BLOCK_SIZE) as u64, ..inode }
    } else {
        inode
    }
}

/// A range that is transferred to another file and transferred back stands where it stood in the
/// one and is gone from the other; every other inode, the blocks in use and the names are as they
/// were.
pub proof fn law_transfer_back(
    disk: Disk,
    sb: Superblock,
    source: u64,
    start: int,
    count: int,
    destination: u64,
    at: int,
    s: int,
)
    requires
        file_blocks::file_index(soundness::tables_of(disk, sb).inodes, source) == Ok::<
            int,
            ErrorKind,
        >(s),
        0 <= start,
        0 <= count,
        0 <= at,
        transfer_step(disk, sb, source, start, count, destination, at).result is Ok,
        transfer_step(
            transfer_step(disk, sb, source, start, count, destination, at).disk,
            sb,
            destination,
            at,
            count,
            source,
            start,
        ).result is Ok,
    ensures
        ({
            let t = soundness::tables_of(disk, sb);
            let end = transfer_step(
                transfer_step(disk, sb, source, start, count, destination, at).disk,
                sb,
                destination,
                at,
                count,
                source,
                start,
            ).disk;
            &&& soundness::tables_of(end, sb) == (soundness::Tables {
                inodes: t.inodes.update(s, lent_and_back(t.inodes[s], count)),
                ..t
            })
            &&& soundness::sound_on(disk, sb) ==> soundness::sound_on(end, sb)
        }),
{
    let mid = transfer_step(disk, sb, source, start, count, destination, at).disk;
    let end = transfer_step(mid, sb, destination, at, count, source, start).disk;
    let t = soundness::tables_of(disk, sb);
    let m = soundness::tables_of(mid, sb);
    lemma_transfer_tables(disk, sb, source, start, count, destination, at);
    let d = file_clone_insert::file_pair(t.inodes, source, destination)->Some_0.1;
    soundness::lemma_same_index(t.inodes, m.inodes, source, 0);
    soundness::lemma_same_index(t.inodes, m.inodes, destination, 0);
    lemma_transfer_tables(mid, sb, destination, at, count, source, start);
    let (a, b) = (t.inodes[s], t.inodes[d]);
    let (x, y) = (m.inodes[s], m.inodes[d]);
    let moved = a.blocks.subrange(start, start + count);
    assert(y.blocks.subrange(at, at + count) =~= moved);
    assert(b.blocks.subrange(at, at) =~= Seq::<u64>::empty());
    inode_codec::law_replaced_back(b, at, at, moved);
    if count < a.blocks.len() {
        inode_codec::law_replaced_back(a, start, start + count, Seq::empty());
    } else {
        assert(inode_codec::spliced(x.blocks, start, start, moved) =~= a.blocks);
    }
    assert(soundness::tables_of(end, sb).inodes =~= t.inodes.update(s, lent_and_back(a, count)));
    if soundness::sound_on(disk, sb) {
        law_transfer(disk, sb, source, start, count, destination, at, s, d);
        law_transfer(mid, sb, destination, at, count, source, start, d, s);
    }
}

} // verus!
