//! Exchanging ranges of blocks between files, or inside one, without copying them.

use vstd::prelude::*;
use crate::allocation::{AllocView, BlockAllocator};
use crate::block::{BlockDevice, Disk};
use crate::contents;
use crate::error::{Error, ErrorKind};
use crate::file_blocks;
use crate::file_blocks::{are_distinct, are_owned, find_file, invalid_data, invalid_input, join_blocks, load_tables, mapping_range, publish_inodes};
use crate::file_clone_insert;
use crate::file_clone_insert::find_file_pair;
use crate::format::Superblock;
use crate::inode_codec;
use crate::inode_codec::InodeView;
use crate::inode_table;
use crate::journal_region;
use crate::ownership;
use crate::recovery::RecoveryReport;
use crate::soundness;
use crate::step;
use crate::step::Step;
use crate::update::Update;

verus! {

/// A range of logical blocks of a file.
#[derive(Clone, Copy, Debug, PartialEq, Eq, Structural)]
pub struct FileBlockExchangeRange {
    pub inode: u64,
    pub start: usize,
    pub block_count: usize,
}

/// No block occurs twice, and every block is in use.
pub open spec fn distinct_owned(a: AllocView, blocks: Seq<u64>) -> bool {
    blocks.no_duplicates() && file_blocks::all_owned(a, blocks)
}

/// Two mappings with a range of each exchanged.
pub open spec fn exchanged(
    left: InodeView,
    left_start: int,
    left_end: int,
    right: InodeView,
    right_start: int,
    right_end: int,
) -> Option<(InodeView, InodeView)> {
    match (
        inode_codec::replaced_range(
            left,
            left_start,
            left_end,
            right.blocks.subrange(right_start, right_end),
        ),
        inode_codec::replaced_range(
            right,
            right_start,
            right_end,
            left.blocks.subrange(left_start, left_end),
        ),
    ) {
        (Some(l), Some(r)) => Some((l, r)),
        _ => None,
    }
}

/// The exchange of two ranges of distinct regular files as one transaction.
pub open spec fn exchange_loaded_step(
    disk: Disk,
    sb: Superblock,
    a: AllocView,
    inodes: Seq<InodeView>,
    left: FileBlockExchangeRange,
    right: FileBlockExchangeRange,
) -> Step<RecoveryReport> {
    match file_clone_insert::file_pair(inodes, left.inode, right.inode) {
        None => step::stay(disk, Err(ErrorKind::InvalidInput)),
        Some((l, r)) => if left.inode == right.inode || left.block_count == 0
            || right.block_count == 0 || left.start + left.block_count > inodes[l].blocks.len()
            || right.start + right.block_count > inodes[r].blocks.len() {
            step::stay(disk, Err(ErrorKind::InvalidInput))
        } else if !distinct_owned(a, inodes[l].blocks + inodes[r].blocks) {
            step::stay(disk, Err(ErrorKind::InvalidData))
        } else {
            match exchanged(
                inodes[l],
                left.start as int,
                left.start + left.block_count,
                inodes[r],
                right.start as int,
                right.start + right.block_count,
            ) {
                None => step::stay(disk, Err(ErrorKind::InvalidInput)),
                Some((x, y)) => file_blocks::inodes_step(
                    disk,
                    sb,
                    inodes.update(l, x).update(r, y),
                    true,
                ),
            }
        },
    }
}

/// The exchange of two ranges, which may differ in length.
pub open spec fn exchange_step(disk: Disk, sb: Superblock, left: FileBlockExchangeRange, right: FileBlockExchangeRange) -> Step<RecoveryReport> {
    match file_blocks::tables_on(disk, sb) {
        Err(kind) => step::stay(disk, Err(kind)),
        Ok((a, inodes)) => exchange_loaded_step(disk, sb, a, inodes, left, right),
    }
}

/// The exchange of two ranges of equal length: empty ranges and identical files are refused
/// before anything is read.
pub open spec fn exchange_equal_step(
    disk: Disk,
    sb: Superblock,
    left: u64,
    left_index: usize,
    right: u64,
    right_index: usize,
    count: usize,
) -> Step<RecoveryReport> {
    if left == right || count == 0 {
        step::stay(disk, Err(ErrorKind::InvalidInput))
    } else {
        exchange_step(
            disk,
            sb,
            FileBlockExchangeRange { inode: left, start: left_index, block_count: count },
            FileBlockExchangeRange { inode: right, start: right_index, block_count: count },
        )
    }
}

/// A mapping with two disjoint ranges exchanged.
pub open spec fn reordered(blocks: Seq<u64>, s1: int, e1: int, s2: int, e2: int) -> Seq<u64> {
    blocks.subrange(0, s1) + blocks.subrange(s2, e2) + blocks.subrange(e1, s2) + blocks.subrange(
        s1,
        e1,
    ) + blocks.subrange(e2, blocks.len() as int)
}

/// The ranges belong to different files, or one is empty or has no end, or they overlap.
pub open spec fn improper_pair(first: FileBlockExchangeRange, second: FileBlockExchangeRange) -> bool {
    let first_end = first.start + first.block_count;
    let second_end = second.start + second.block_count;
    ||| first.inode != second.inode
    ||| first.block_count == 0
    ||| second.block_count == 0
    ||| first_end > usize::MAX
    ||| second_end > usize::MAX
    ||| !(first_end <= second.start || second_end <= first.start)
}

/// The exchange of two disjoint ranges of one regular file as one transaction.
pub open spec fn exchange_within_step(disk: Disk, sb: Superblock, first: FileBlockExchangeRange, second: FileBlockExchangeRange) -> Step<RecoveryReport> {
    let (s1, e1, s2, e2) = if first.start <= second.start {
        (
            first.start as int,
            first.start + first.block_count,
            second.start as int,
            second.start + second.block_count,
        )
    } else {
        (
            second.start as int,
            second.start + second.block_count,
            first.start as int,
            first.start + first.block_count,
        )
    };
    if first.inode != second.inode || first.block_count == 0 || second.block_count == 0 || e1
        > usize::MAX || e2 > usize::MAX || e1 > s2 {
        step::stay(disk, Err(ErrorKind::InvalidInput))
    } else {
        match file_blocks::tables_on(disk, sb) {
            Err(kind) => step::stay(disk, Err(kind)),
            Ok((a, inodes)) => match file_blocks::file_index(inodes, first.inode) {
                Err(kind) => step::stay(disk, Err(kind)),
                Ok(i) => if e2 > inodes[i].blocks.len() {
                    step::stay(disk, Err(ErrorKind::InvalidInput))
                } else if !distinct_owned(a, inodes[i].blocks) {
                    step::stay(disk, Err(ErrorKind::InvalidData))
                } else {
                    match inode_codec::replaced_range(
                        inodes[i],
                        0,
                        inodes[i].blocks.len() as int,
                        reordered(inodes[i].blocks, s1, e1, s2, e2),
                    ) {
                        None => step::stay(disk, Err(ErrorKind::InvalidInput)),
                        Some(next) => file_blocks::inodes_step(
                            disk,
                            sb,
                            inodes.update(i, next),
                            true,
                        ),
                    }
                },
            },
        }
    }
}

/// An exchange leaves the two files with the same blocks between them as before, keeps both
/// lengths in sum, and moves each range to the place of the other.
pub proof fn law_exchange_keeps_blocks(
    left: InodeView,
    left_start: int,
    left_end: int,
    right: InodeView,
    right_start: int,
    right_end: int,
)
    requires
        0 <= left_start <= left_end <= left.blocks.len(),
        0 <= right_start <= right_end <= right.blocks.len(),
        exchanged(left, left_start, left_end, right, right_start, right_end) is Some,
    ensures
        ({
            let (l, r) = exchanged(
                left,
                left_start,
                left_end,
                right,
                right_start,
                right_end,
            )->Some_0;
            &&& l.id == left.id
            &&& r.id == right.id
            &&& (l.blocks + r.blocks).to_multiset() == (left.blocks + right.blocks).to_multiset()
        }),
{
    broadcast use vstd::seq_lib::group_to_multiset_ensures;

    let (l, r) = exchanged(left, left_start, left_end, right, right_start, right_end)->Some_0;
    let a = left.blocks.subrange(0, left_start);
    let x = left.blocks.subrange(left_start, left_end);
    let b = left.blocks.subrange(left_end, left.blocks.len() as int);
    let c = right.blocks.subrange(0, right_start);
    let y = right.blocks.subrange(right_start, right_end);
    let d = right.blocks.subrange(right_end, right.blocks.len() as int);
    assert(left.blocks =~= a + x + b);
    assert(right.blocks =~= c + y + d);
    assert(l.blocks =~= a + y + b);
    assert(r.blocks =~= c + x + d);
    lemma_multiset_sum(l.blocks, r.blocks);
    lemma_multiset_sum(left.blocks, right.blocks);
    lemma_multiset_sum(a + y, b);
    lemma_multiset_sum(a, y);
    lemma_multiset_sum(c + x, d);
    lemma_multiset_sum(c, x);
    lemma_multiset_sum(a + x, b);
    lemma_multiset_sum(a, x);
    lemma_multiset_sum(c + y, d);
    lemma_multiset_sum(c, y);
    assert((l.blocks + r.blocks).to_multiset() =~= (left.blocks + right.blocks).to_multiset());
}

pub proof fn lemma_multiset_sum(a: Seq<u64>, b: Seq<u64>)
    ensures
        (a + b).to_multiset() == a.to_multiset().add(b.to_multiset()),
{
    vstd::seq_lib::lemma_multiset_commutative(a, b);
}

fn is_distinct_owned(allocator: &BlockAllocator, blocks: &[u64]) -> (b: bool)
    ensures
        b == distinct_owned(allocator@, blocks@),
{
    are_distinct(blocks) && are_owned(allocator, blocks)
}

fn exchange_range_end(range: FileBlockExchangeRange) -> (r: Result<usize, Error>)
    ensures
        match r {
            Ok(end) => range.block_count > 0 && end == range.start + range.block_count,
            Err(e) => (range.block_count == 0 || range.start + range.block_count > usize::MAX)
                && e.kind == ErrorKind::InvalidInput,
        },
{
    if range.block_count == 0 {
        return Err(invalid_input("block-range exchange requires non-empty ranges"));
    }
    match range.start.checked_add(range.block_count) {
        Some(end) => Ok(end),
        None => Err(invalid_input("exchange range overflows usize")),
    }
}

/// Exchanges ranges of two files, which may differ in length, as one transaction. No block is
/// copied, taken or released.
pub fn exchange_variable_file_block_ranges_journaled<D: BlockDevice>(
    device: &mut D,
    superblock: &Superblock,
    left: FileBlockExchangeRange,
    right: FileBlockExchangeRange,
) -> (r: Result<RecoveryReport, Error>)
    ensures
        journal_region::carried_out(
            old(device),
            final(device),
            *superblock,
            step::kinded(r),
            exchange_step(old(device).blocks(), *superblock, left, right),
        ),
{
    broadcast use journal_region::group_atomic;

    let (allocator, mut inodes) = load_tables(device, superblock)?;
    let ghost before = inodes@;
    let ghost views = inode_table::inode_views(inodes@);
    proof {
        file_blocks::lemma_index_from(views, left.inode, 0);
        file_blocks::lemma_index_from(views, right.inode, 0);
        if let Some((l, r)) = file_clone_insert::file_pair(views, left.inode, right.inode) {
            assert(inodes@[l].blocks.len() == inodes@[l].blocks@.len());
            assert(inodes@[r].blocks.len() == inodes@[r].blocks@.len());
        }
    }
    if left.inode == right.inode {
        return Err(invalid_input("block-range exchange requires distinct files"));
    }
    let left_end: usize = exchange_range_end(left)?;
    let right_end: usize = exchange_range_end(right)?;
    let (l, r) = find_file_pair(inodes.as_slice(), left.inode, right.inode)?;
    if left_end > inodes[l].blocks.len() || right_end > inodes[r].blocks.len() {
        return Err(invalid_input("block-range exchange is beyond file end"));
    }
    let all = join_blocks(inodes[l].blocks.as_slice(), inodes[r].blocks.as_slice());
    if !is_distinct_owned(&allocator, all.as_slice()) {
        return Err(invalid_data("exchange endpoints share blocks or reference unowned ones"));
    }
    let left_blocks = mapping_range(&inodes[l], left.start, left_end);
    let right_blocks = mapping_range(&inodes[r], right.start, right_end);
    inodes[l].replace_block_range(left.start..left_end, right_blocks.as_slice())?;
    let ghost half = inodes@;
    inodes[r].replace_block_range(right.start..right_end, left_blocks.as_slice())?;
    proof {
        file_blocks::lemma_views_update(before, half, l as int);
        file_blocks::lemma_views_update(half, inodes@, r as int);
    }
    publish_inodes(device, superblock, inodes.as_slice(), true)
}

/// Exchanges ranges of equal length of two files as one transaction.
pub fn exchange_file_block_ranges_journaled<D: BlockDevice>(
    device: &mut D,
    superblock: &Superblock,
    left_inode_id: u64,
    left_index: usize,
    right_inode_id: u64,
    right_index: usize,
    block_count: usize,
) -> (r: Result<RecoveryReport, Error>)
    ensures
        journal_region::carried_out(
            old(device),
            final(device),
            *superblock,
            step::kinded(r),
            exchange_equal_step(
                old(device).blocks(),
                *superblock,
                left_inode_id,
                left_index,
                right_inode_id,
                right_index,
                block_count,
            ),
        ),
        step::turned_away(
            old(device),
            final(device),
            step::kinded(r),
            left_inode_id == right_inode_id || block_count == 0,
        ),
{
    broadcast use journal_region::group_atomic;

    if left_inode_id == right_inode_id || block_count == 0 {
        return Err(
            invalid_input("block-range exchange requires distinct files and a non-empty range"),
        );
    }
    exchange_variable_file_block_ranges_journaled(
        device,
        superblock,
        FileBlockExchangeRange { inode: left_inode_id, start: left_index, block_count },
        FileBlockExchangeRange { inode: right_inode_id, start: right_index, block_count },
    )
}

/// Exchanges two disjoint ranges of one file, which may differ in length, as one transaction.
pub fn exchange_same_file_block_ranges_journaled<D: BlockDevice>(
    device: &mut D,
    superblock: &Superblock,
    first: FileBlockExchangeRange,
    second: FileBlockExchangeRange,
) -> (r: Result<RecoveryReport, Error>)
    ensures
        journal_region::carried_out(
            old(device),
            final(device),
            *superblock,
            step::kinded(r),
            exchange_within_step(old(device).blocks(), *superblock, first, second),
        ),
        step::turned_away(
            old(device),
            final(device),
            step::kinded(r),
            improper_pair(first, second),
        ),
{
    broadcast use journal_region::group_atomic;

    if first.inode != second.inode {
        return Err(invalid_input("same-file block-range exchange requires one inode"));
    }
    let first_end: usize = exchange_range_end(first)?;
    let second_end: usize = exchange_range_end(second)?;
    let (s1, e1, s2, e2): (usize, usize, usize, usize) = if first.start <= second.start {
        (first.start, first_end, second.start, second_end)
    } else {
        (second.start, second_end, first.start, first_end)
    };
    if e1 > s2 {
        return Err(invalid_input("same-file exchange ranges must be disjoint"));
    }
    let (allocator, mut inodes) = load_tables(device, superblock)?;
    let ghost before = inodes@;
    let index: usize = find_file(inodes.as_slice(), first.inode)?;
    let len: usize = inodes[index].blocks.len();
    if e2 > len {
        return Err(invalid_input("same-file exchange is beyond file end"));
    }
    if !is_distinct_owned(&allocator, inodes[index].blocks.as_slice()) {
        return Err(invalid_data("same-file exchange references repeated or unowned blocks"));
    }
    let a = mapping_range(&inodes[index], 0, s1);
    let b = mapping_range(&inodes[index], s2, e2);
    let c = mapping_range(&inodes[index], e1, s2);
    let d = mapping_range(&inodes[index], s1, e1);
    let e = mapping_range(&inodes[index], e2, len);
    let ab = join_blocks(a.as_slice(), b.as_slice());
    let abc = join_blocks(ab.as_slice(), c.as_slice());
    let abcd = join_blocks(abc.as_slice(), d.as_slice());
    let next = join_blocks(abcd.as_slice(), e.as_slice());
    inodes[index].replace_block_range(0..len, next.as_slice())?;
    proof {
        file_blocks::lemma_views_update(before, inodes@, index as int);
    }
    publish_inodes(device, superblock, inodes.as_slice(), true)
}

/// Two ranges that are exchanged stand in each other's place, and nothing else changes.
pub proof fn law_exchange(disk: Disk, sb: Superblock, left: FileBlockExchangeRange, right: FileBlockExchangeRange, l: int, r: int)
    requires
        soundness::sound_on(disk, sb),
        file_clone_insert::file_pair(
            soundness::tables_of(disk, sb).inodes,
            left.inode,
            right.inode,
        ) == Some((l, r)),
        exchange_step(disk, sb, left, right).result is Ok,
    ensures
        ({
            let t = soundness::tables_of(disk, sb);
            let x = contents::images_of(disk, t.inodes[l]);
            let y = contents::images_of(disk, t.inodes[r]);
            let left_end = left.start + left.block_count;
            let right_end = right.start + right.block_count;
            let (m, n) = exchanged(
                t.inodes[l],
                left.start as int,
                left_end,
                t.inodes[r],
                right.start as int,
                right_end,
            )->Some_0;
            &&& contents::rewritten_pair(
                disk,
                exchange_step(disk, sb, left, right).disk,
                sb,
                l,
                x.subrange(0, left.start as int) + y.subrange(right.start as int, right_end)
                    + x.subrange(left_end, x.len() as int),
                r,
                y.subrange(0, right.start as int) + x.subrange(left.start as int, left_end)
                    + y.subrange(right_end, y.len() as int),
            )
            &&& soundness::tables_of(exchange_step(disk, sb, left, right).disk, sb) == (
            soundness::Tables { inodes: t.inodes.update(l, m).update(r, n), ..t })
        }),
{
    let t = soundness::tables_of(disk, sb);
    soundness::lemma_sound_parts(disk, sb);
    file_blocks::lemma_index_from(t.inodes, left.inode, 0);
    file_blocks::lemma_index_from(t.inodes, right.inode, 0);
    let a = t.inodes[l];
    let b = t.inodes[r];
    let (ls, le) = (left.start as int, left.start + left.block_count);
    let (rs, re) = (right.start as int, right.start + right.block_count);
    let (x, y) = exchanged(a, ls, le, b, rs, re)->Some_0;
    law_exchange_keeps_blocks(a, ls, le, b, rs, re);
    ownership::law_reshuffle_keeps_ownership(t.allocator, t.inodes, l, x, r, y);
    contents::lemma_spliced_images(disk, a, ls, le, b.blocks.subrange(rs, re));
    contents::lemma_spliced_images(disk, b, rs, re, a.blocks.subrange(ls, le));
    let u = Update {
        allocator: None,
        inodes: Some(t.inodes.update(l, x).update(r, y)),
        entries: None,
        data: Seq::empty(),
    };
    contents::lemma_pair_update(disk, sb, l, x, r, y, u, true);
    assert(contents::images_of(disk, InodeView { blocks: b.blocks.subrange(rs, re), ..a })
        =~= contents::images_of(disk, b).subrange(rs, re));
    assert(contents::images_of(disk, InodeView { blocks: a.blocks.subrange(ls, le), ..b })
        =~= contents::images_of(disk, a).subrange(ls, le));
}

/// What an exchange of ranges does to the tables.
proof fn lemma_exchange_tables(disk: Disk, sb: Superblock, left: FileBlockExchangeRange, right: FileBlockExchangeRange)
    requires
        exchange_step(disk, sb, left, right).result is Ok,
    ensures
        ({
            let t = soundness::tables_of(disk, sb);
            let end = exchange_step(disk, sb, left, right).disk;
            &&& file_clone_insert::file_pair(t.inodes, left.inode, right.inode) matches Some((l, r))
                && 0 <= l < t.inodes.len() && 0 <= r < t.inodes.len() && l != r && (exchanged(
                t.inodes[l],
                left.start as int,
                left.start + left.block_count,
                t.inodes[r],
                right.start as int,
                right.start + right.block_count,
            ) matches Some((x, y)) && inode_codec::exact(t.inodes[l]) && inode_codec::exact(
                t.inodes[r],
            ) && soundness::tables_of(end, sb) == (soundness::Tables {
                inodes: t.inodes.update(l, x).update(r, y),
                ..t
            }))
            &&& left.block_count > 0 && right.block_count > 0
            &&& soundness::readable_on(disk, sb) ==> soundness::readable_on(end, sb)
        }),
{
    let t = soundness::tables_of(disk, sb);
    let (l, r) = file_clone_insert::file_pair(t.inodes, left.inode, right.inode)->Some_0;
    file_blocks::lemma_index_from(t.inodes, left.inode, 0);
    file_blocks::lemma_index_from(t.inodes, right.inode, 0);
    inode_table::lemma_inodes_exact(disk, sb);
    assert(inode_codec::exact(t.inodes[l]) && inode_codec::exact(t.inodes[r]));
    let (x, y) = exchanged(
        t.inodes[l],
        left.start as int,
        left.start + left.block_count,
        t.inodes[r],
        right.start as int,
        right.start + right.block_count,
    )->Some_0;
    let u = Update {
        allocator: None,
        inodes: Some(t.inodes.update(l, x).update(r, y)),
        entries: None,
        data: Seq::empty(),
    };
    soundness::lemma_update_tables(disk, sb, u, true);
}

/// Two ranges that are exchanged and exchanged again leave every table as it was, and a sound
/// device sound. Each range has then the length of the other.
pub proof fn law_exchange_twice(disk: Disk, sb: Superblock, left: FileBlockExchangeRange, right: FileBlockExchangeRange)
    requires
        exchange_step(disk, sb, left, right).result is Ok,
        exchange_step(
            exchange_step(disk, sb, left, right).disk,
            sb,
            FileBlockExchangeRange { block_count: right.block_count, ..left },
            FileBlockExchangeRange { block_count: left.block_count, ..right },
        ).result is Ok,
    ensures
        ({
            let end = exchange_step(
                exchange_step(disk, sb, left, right).disk,
                sb,
                FileBlockExchangeRange { block_count: right.block_count, ..left },
                FileBlockExchangeRange { block_count: left.block_count, ..right },
            ).disk;
            &&& soundness::tables_of(end, sb) == soundness::tables_of(disk, sb)
            &&& soundness::sound_on(disk, sb) ==> soundness::sound_on(end, sb)
        }),
{
    let mid = exchange_step(disk, sb, left, right).disk;
    let t = soundness::tables_of(disk, sb);
    let m = soundness::tables_of(mid, sb);
    let left_again = FileBlockExchangeRange { block_count: right.block_count, ..left };
    let right_again = FileBlockExchangeRange { block_count: left.block_count, ..right };
    let end = exchange_step(mid, sb, left_again, right_again).disk;
    lemma_exchange_tables(disk, sb, left, right);
    let (l, r) = file_clone_insert::file_pair(t.inodes, left.inode, right.inode)->Some_0;
    soundness::lemma_same_index(t.inodes, m.inodes, left.inode, 0);
    soundness::lemma_same_index(t.inodes, m.inodes, right.inode, 0);
    let (a, b) = (t.inodes[l], t.inodes[r]);
    let (x, y) = (m.inodes[l], m.inodes[r]);
    lemma_exchange_tables(mid, sb, left_again, right_again);
    let (ls, le) = (left.start as int, left.start + left.block_count);
    let (rs, re) = (right.start as int, right.start + right.block_count);
    let to_left = b.blocks.subrange(rs, re);
    let to_right = a.blocks.subrange(ls, le);
    inode_codec::law_replaced_back(a, ls, le, to_left);
    inode_codec::law_replaced_back(b, rs, re, to_right);
    assert(x.blocks.subrange(ls, ls + right.block_count) =~= to_left);
    assert(y.blocks.subrange(rs, rs + left.block_count) =~= to_right);
    assert(soundness::tables_of(end, sb).inodes =~= t.inodes);
    soundness::lemma_sound_again(disk, end, sb);
}

/// Two ranges of one file that are exchanged stand in each other's place, and nothing else changes.
pub proof fn law_exchange_within(disk: Disk, sb: Superblock, first: FileBlockExchangeRange, second: FileBlockExchangeRange, index: int)
    requires
        soundness::sound_on(disk, sb),
        file_blocks::file_index(soundness::tables_of(disk, sb).inodes, first.inode) == Ok::<
            int,
            ErrorKind,
        >(index),
        first.start <= second.start,
        exchange_within_step(disk, sb, first, second).result is Ok,
    ensures
        ({
            let x = contents::images_of(disk, soundness::tables_of(disk, sb).inodes[index]);
            let (s1, e1) = (first.start as int, first.start + first.block_count);
            let (s2, e2) = (second.start as int, second.start + second.block_count);
            let t = soundness::tables_of(disk, sb);
            let inode = t.inodes[index];
            &&& contents::rewritten(
                disk,
                exchange_within_step(disk, sb, first, second).disk,
                sb,
                index,
                x.subrange(0, s1) + x.subrange(s2, e2) + x.subrange(e1, s2) + x.subrange(s1, e1)
                    + x.subrange(e2, x.len() as int),
            )
            &&& soundness::tables_of(exchange_within_step(disk, sb, first, second).disk, sb) == (
            soundness::Tables {
                inodes: t.inodes.update(
                    index,
                    InodeView { blocks: reordered(inode.blocks, s1, e1, s2, e2), ..inode },
                ),
                ..t
            })
        }),
{
    let t = soundness::tables_of(disk, sb);
    soundness::lemma_sound_parts(disk, sb);
    file_blocks::lemma_index_from(t.inodes, first.inode, 0);
    let inode = t.inodes[index];
    let b = inode.blocks;
    let (s1, e1) = (first.start as int, first.start + first.block_count);
    let (s2, e2) = (second.start as int, second.start + second.block_count);
    let order = reordered(b, s1, e1, s2, e2);
    let next = inode_codec::replaced_range(inode, 0, b.len() as int, order)->Some_0;
    assert(next.blocks =~= order);
    let (p, q, m, w, z) = (
        b.subrange(0, s1),
        b.subrange(s2, e2),
        b.subrange(e1, s2),
        b.subrange(s1, e1),
        b.subrange(e2, b.len() as int),
    );
    assert(b =~= p + w + m + q + z);
    lemma_multiset_sum(p + q + m + w, z);
    lemma_multiset_sum(p + q + m, w);
    lemma_multiset_sum(p + q, m);
    lemma_multiset_sum(p, q);
    lemma_multiset_sum(p + w + m + q, z);
    lemma_multiset_sum(p + w + m, q);
    lemma_multiset_sum(p + w, m);
    lemma_multiset_sum(p, w);
    assert(order.to_multiset() =~= b.to_multiset());
    ownership::law_reorder_keeps_ownership(t.allocator, t.inodes, index, next);
    let u = Update {
        allocator: None,
        inodes: Some(t.inodes.update(index, next)),
        entries: None,
        data: Seq::empty(),
    };
    let x = contents::images_of(disk, inode);
    let wanted = x.subrange(0, s1) + x.subrange(s2, e2) + x.subrange(e1, s2) + x.subrange(s1, e1)
        + x.subrange(e2, x.len() as int);
    assert(contents::images_of(disk, next) =~= wanted);
    assert forall|i: int| 0 <= i < wanted.len() implies contents::block_image(
        disk,
        #[trigger] next.blocks[i],
    ) == wanted[i] by {
        assert(contents::images_of(disk, next)[i] == wanted[i]);
    }
    contents::lemma_file_update(disk, sb, index, next, u, true, wanted);
    assert(inode_codec::exact(inode));
    assert(soundness::tables_of(exchange_within_step(disk, sb, first, second).disk, sb).inodes
        =~= t.inodes.update(index, next));
}

/// What an exchange of two ranges of one file does to the tables.
proof fn lemma_exchange_within_tables(disk: Disk, sb: Superblock, first: FileBlockExchangeRange, second: FileBlockExchangeRange)
    requires
        first.start <= second.start,
        exchange_within_step(disk, sb, first, second).result is Ok,
    ensures
        ({
            let t = soundness::tables_of(disk, sb);
            let end = exchange_within_step(disk, sb, first, second).disk;
            let (s1, e1) = (first.start as int, first.start + first.block_count);
            let (s2, e2) = (second.start as int, second.start + second.block_count);
            &&& file_blocks::file_index(t.inodes, first.inode) matches Ok(i) && 0 <= i
                < t.inodes.len() && e1 <= s2 && e2 <= t.inodes[i].blocks.len()
                && soundness::tables_of(end, sb) == (soundness::Tables {
                inodes: t.inodes.update(
                    i,
                    InodeView {
                        blocks: reordered(t.inodes[i].blocks, s1, e1, s2, e2),
                        ..t.inodes[i]
                    },
                ),
                ..t
            })
            &&& soundness::readable_on(disk, sb) ==> soundness::readable_on(end, sb)
        }),
{
    let t = soundness::tables_of(disk, sb);
    let index = file_blocks::file_index(t.inodes, first.inode)->Ok_0;
    file_blocks::lemma_index_from(t.inodes, first.inode, 0);
    inode_table::lemma_inodes_exact(disk, sb);
    let inode = t.inodes[index];
    assert(inode_codec::exact(inode));
    let order = reordered(
        inode.blocks,
        first.start as int,
        first.start + first.block_count,
        second.start as int,
        second.start + second.block_count,
    );
    let next = inode_codec::replaced_range(inode, 0, inode.blocks.len() as int, order)->Some_0;
    assert(next.blocks =~= order);
    let u = Update {
        allocator: None,
        inodes: Some(t.inodes.update(index, next)),
        entries: None,
        data: Seq::empty(),
    };
    soundness::lemma_update_tables(disk, sb, u, true);
}

/// Two ranges of one file that are exchanged and exchanged again leave every table as it was, and a
/// sound device sound. The ranges have then each other's length, and the second one ends where it
/// ended.
pub proof fn law_exchange_within_twice(
    disk: Disk,
    sb: Superblock,
    first: FileBlockExchangeRange,
    second: FileBlockExchangeRange,
    first_again: FileBlockExchangeRange,
    second_again: FileBlockExchangeRange,
)
    requires
        first.start <= second.start,
        exchange_within_step(disk, sb, first, second).result is Ok,
        first_again == (FileBlockExchangeRange { block_count: second.block_count, ..first }),
        second_again.inode == second.inode,
        second_again.start == second.start + second.block_count - first.block_count,
        second_again.block_count == first.block_count,
        exchange_within_step(
            exchange_within_step(disk, sb, first, second).disk,
            sb,
            first_again,
            second_again,
        ).result is Ok,
    ensures
        ({
            let end = exchange_within_step(
                exchange_within_step(disk, sb, first, second).disk,
                sb,
                first_again,
                second_again,
            ).disk;
            &&& soundness::tables_of(end, sb) == soundness::tables_of(disk, sb)
            &&& soundness::sound_on(disk, sb) ==> soundness::sound_on(end, sb)
        }),
{
    let mid = exchange_within_step(disk, sb, first, second).disk;
    let t = soundness::tables_of(disk, sb);
    let m = soundness::tables_of(mid, sb);
    let end = exchange_within_step(mid, sb, first_again, second_again).disk;
    lemma_exchange_within_tables(disk, sb, first, second);
    let index = file_blocks::file_index(t.inodes, first.inode)->Ok_0;
    soundness::lemma_same_index(t.inodes, m.inodes, first.inode, 0);
    lemma_exchange_within_tables(mid, sb, first_again, second_again);
    let b = t.inodes[index].blocks;
    let (s1, e1) = (first.start as int, first.start + first.block_count);
    let (s2, e2) = (second.start as int, second.start + second.block_count);
    let next = reordered(b, s1, e1, s2, e2);
    let (f2, m2) = (s1 + second.block_count, second_again.start as int);
    assert(next.subrange(0, s1) =~= b.subrange(0, s1));
    assert(next.subrange(m2, e2) =~= b.subrange(s1, e1));
    assert(next.subrange(f2, m2) =~= b.subrange(e1, s2));
    assert(next.subrange(s1, f2) =~= b.subrange(s2, e2));
    assert(next.subrange(e2, next.len() as int) =~= b.subrange(e2, b.len() as int));
    assert(reordered(next, s1, f2, m2, e2) =~= b);
    assert(soundness::tables_of(end, sb).inodes =~= t.inodes);
    soundness::lemma_sound_again(disk, end, sb);
}

/// It does not matter which of two ranges of one file comes first in the request.
pub proof fn law_exchange_within_either_way(disk: Disk, sb: Superblock, first: FileBlockExchangeRange, second: FileBlockExchangeRange)
    ensures
        exchange_within_step(disk, sb, first, second) == exchange_within_step(
            disk,
            sb,
            second,
            first,
        ),
{
}

} // verus!
