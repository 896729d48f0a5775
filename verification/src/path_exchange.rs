//! Exchanging ranges of files by path name.

use vstd::prelude::*;
use crate::block::{BlockDevice, Disk, BLOCK_SIZE};
use crate::contents;
use crate::error::Error;
use crate::file_blocks;
use crate::file_clone_insert;
use crate::file_exchange;
use crate::file_exchange::{exchange_file_block_ranges_journaled, exchange_same_file_block_ranges_journaled, exchange_variable_file_block_ranges_journaled, FileBlockExchangeRange};
use crate::format::Superblock;
use crate::inode_codec;
use crate::journal_checkpoint;
use crate::journal_checkpoint::recover_journal_and_checkpoint;
use crate::journal_region;
use crate::path_lookup;
use crate::path_lookup::resolve_path_following_symlinks;
use crate::recovery::RecoveryReport;
use crate::soundness;
use crate::step;
use crate::step::Step;

verus! {

/// The start of a range of the file that a path names.
#[derive(Clone, Copy, Debug, PartialEq, Eq)]
pub struct PathFileBlockRange<'a> {
    pub path: &'a str,
    pub start: usize,
}

/// A range of the file that a path names.
#[derive(Clone, Copy, Debug, PartialEq, Eq)]
pub struct PathVariableFileBlockRange<'a> {
    pub path: &'a str,
    pub start: usize,
    pub block_count: usize,
}

/// Ranges of equal length of the files that two paths name exchanged.
pub open spec fn exchange_equal_at_step(disk: Disk, sb: Superblock, left: PathFileBlockRange<'_>, right: PathFileBlockRange<'_>, count: usize) -> Step<RecoveryReport> {
    journal_checkpoint::settled_then(
        disk,
        sb,
        |d: Disk|
            path_lookup::resolved_then(
                d,
                sb,
                left.path@,
                |a: u64|
                    path_lookup::resolved_then(
                        d,
                        sb,
                        right.path@,
                        |b: u64| file_exchange::exchange_equal_step(
                            d,
                            sb,
                            a,
                            left.start,
                            b,
                            right.start,
                            count,
                        ),
                    ),
            ),
    )
}

/// Exchanges ranges of equal length of the regular files that two paths name, once the journal is
/// replayed and empty.
pub fn exchange_file_block_ranges_at_path_journaled<D: BlockDevice>(
    device: &mut D,
    superblock: &Superblock,
    left: PathFileBlockRange<'_>,
    right: PathFileBlockRange<'_>,
    block_count: usize,
) -> (r: Result<RecoveryReport, Error>)
    ensures
        journal_region::carried_out(
            old(device),
            final(device),
            *superblock,
            step::kinded(r),
            exchange_equal_at_step(
                old(device).blocks(),
                *superblock,
                left,
                right,
                block_count,
            ),
        ),
{
    broadcast use journal_checkpoint::group_settled;

    recover_journal_and_checkpoint(device, *superblock)?;
    let left_inode: u64 = resolve_path_following_symlinks(device, superblock, left.path)?;
    let right_inode: u64 = resolve_path_following_symlinks(device, superblock, right.path)?;
    exchange_file_block_ranges_journaled(
        device,
        superblock,
        left_inode,
        left.start,
        right_inode,
        right.start,
        block_count,
    )
}

/// Ranges of the files that two paths name exchanged.
pub open spec fn exchange_at_step(disk: Disk, sb: Superblock, left: PathVariableFileBlockRange<'_>, right: PathVariableFileBlockRange<'_>) -> Step<RecoveryReport> {
    journal_checkpoint::settled_then(
        disk,
        sb,
        |d: Disk|
            path_lookup::resolved_then(
                d,
                sb,
                left.path@,
                |a: u64|
                    path_lookup::resolved_then(
                        d,
                        sb,
                        right.path@,
                        |b: u64| file_exchange::exchange_step(
                            d,
                            sb,
                            FileBlockExchangeRange { inode: a, start: left.start, block_count: left.block_count },
                            FileBlockExchangeRange { inode: b, start: right.start, block_count: right.block_count },
                        ),
                    ),
            ),
    )
}

/// Exchanges ranges of the regular files that two paths name, which may differ in length, once the
/// journal is replayed and empty.
pub fn exchange_variable_file_block_ranges_at_path_journaled<D: BlockDevice>(
    device: &mut D,
    superblock: &Superblock,
    left: PathVariableFileBlockRange<'_>,
    right: PathVariableFileBlockRange<'_>,
) -> (r: Result<RecoveryReport, Error>)
    ensures
        journal_region::carried_out(
            old(device),
            final(device),
            *superblock,
            step::kinded(r),
            exchange_at_step(
                old(device).blocks(),
                *superblock,
                left,
                right,
            ),
        ),
{
    broadcast use journal_checkpoint::group_settled;

    recover_journal_and_checkpoint(device, *superblock)?;
    let left_inode: u64 = resolve_path_following_symlinks(device, superblock, left.path)?;
    let right_inode: u64 = resolve_path_following_symlinks(device, superblock, right.path)?;
    exchange_variable_file_block_ranges_journaled(
        device,
        superblock,
        FileBlockExchangeRange { inode: left_inode, start: left.start, block_count: left.block_count },
        FileBlockExchangeRange { inode: right_inode, start: right.start, block_count: right.block_count },
    )
}

/// Two disjoint ranges of the file that both paths name exchanged.
pub open spec fn exchange_within_at_step(disk: Disk, sb: Superblock, first: PathVariableFileBlockRange<'_>, second: PathVariableFileBlockRange<'_>) -> Step<RecoveryReport> {
    journal_checkpoint::settled_then(
        disk,
        sb,
        |d: Disk|
            path_lookup::resolved_then(
                d,
                sb,
                first.path@,
                |a: u64|
                    path_lookup::resolved_then(
                        d,
                        sb,
                        second.path@,
                        |b: u64| file_exchange::exchange_within_step(
                            d,
                            sb,
                            FileBlockExchangeRange { inode: a, start: first.start, block_count: first.block_count },
                            FileBlockExchangeRange { inode: b, start: second.start, block_count: second.block_count },
                        ),
                    ),
            ),
    )
}

/// Exchanges two disjoint ranges of the regular file that both paths name, once the journal is
/// replayed and empty.
pub fn exchange_same_file_block_ranges_at_path_journaled<D: BlockDevice>(
    device: &mut D,
    superblock: &Superblock,
    first: PathVariableFileBlockRange<'_>,
    second: PathVariableFileBlockRange<'_>,
) -> (r: Result<RecoveryReport, Error>)
    ensures
        journal_region::carried_out(
            old(device),
            final(device),
            *superblock,
            step::kinded(r),
            exchange_within_at_step(
                old(device).blocks(),
                *superblock,
                first,
                second,
            ),
        ),
{
    broadcast use journal_checkpoint::group_settled;

    recover_journal_and_checkpoint(device, *superblock)?;
    let first_inode: u64 = resolve_path_following_symlinks(device, superblock, first.path)?;
    let second_inode: u64 = resolve_path_following_symlinks(device, superblock, second.path)?;
    exchange_same_file_block_ranges_journaled(
        device,
        superblock,
        FileBlockExchangeRange { inode: first_inode, start: first.start, block_count: first.block_count },
        FileBlockExchangeRange { inode: second_inode, start: second.start, block_count: second.block_count },
    )
}

/// The ranges of two files stand in each other's place: the contents and the blocks of each range are
/// now in the other file, whose end moves by as many blocks as it has more or fewer. No block is taken
/// or released, and nothing else changes.
pub open spec fn swapped(
    disk: Disk,
    end: Disk,
    sb: Superblock,
    l: int,
    left_start: int,
    left_end: int,
    r: int,
    right_start: int,
    right_end: int,
) -> bool {
    let t = soundness::tables_of(disk, sb);
    let n = soundness::tables_of(end, sb);
    let x = contents::images_of(disk, t.inodes[l]);
    let y = contents::images_of(disk, t.inodes[r]);
    let more = (right_end - right_start) - (left_end - left_start);
    &&& l != r
    &&& 0 <= left_start < left_end <= x.len()
    &&& 0 <= right_start < right_end <= y.len()
    &&& contents::rewritten_pair(
        disk,
        end,
        sb,
        l,
        x.subrange(0, left_start) + y.subrange(right_start, right_end) + x.subrange(
            left_end,
            x.len() as int,
        ),
        r,
        y.subrange(0, right_start) + x.subrange(left_start, left_end) + y.subrange(
            right_end,
            y.len() as int,
        ),
    )
    &&& n.allocator == t.allocator
    &&& n.inodes[l].blocks.subrange(left_start, left_start + (right_end - right_start))
        == t.inodes[r].blocks.subrange(right_start, right_end)
    &&& n.inodes[r].blocks.subrange(right_start, right_start + (left_end - left_start))
        == t.inodes[l].blocks.subrange(left_start, left_end)
    &&& n.inodes[l].byte_len == t.inodes[l].byte_len + more * BLOCK_SIZE
    &&& n.inodes[r].byte_len == t.inodes[r].byte_len - more * BLOCK_SIZE
}

proof fn lemma_swapped(disk: Disk, sb: Superblock, left: FileBlockExchangeRange, right: FileBlockExchangeRange, l: int, r: int)
    requires
        soundness::sound_on(disk, sb),
        file_clone_insert::file_pair(
            soundness::tables_of(disk, sb).inodes,
            left.inode,
            right.inode,
        ) == Some((l, r)),
        file_exchange::exchange_step(disk, sb, left, right).result is Ok,
    ensures
        swapped(
            disk,
            file_exchange::exchange_step(disk, sb, left, right).disk,
            sb,
            l,
            left.start as int,
            left.start + left.block_count,
            r,
            right.start as int,
            right.start + right.block_count,
        ),
{
    let t = soundness::tables_of(disk, sb);
    soundness::lemma_sound_parts(disk, sb);
    file_blocks::lemma_index_from(t.inodes, left.inode, 0);
    file_blocks::lemma_index_from(t.inodes, right.inode, 0);
    file_exchange::law_exchange(disk, sb, left, right, l, r);
    let (s1, e1) = (left.start as int, left.start + left.block_count);
    let (s2, e2) = (right.start as int, right.start + right.block_count);
    let (m, n) = file_exchange::exchanged(t.inodes[l], s1, e1, t.inodes[r], s2, e2)->Some_0;
    assert(inode_codec::exact(t.inodes[l]));
    assert(inode_codec::exact(t.inodes[r]));
    let from_right = t.inodes[r].blocks.subrange(s2, e2);
    let from_left = t.inodes[l].blocks.subrange(s1, e1);
    inode_codec::law_replaced_range(t.inodes[l], s1, e1, from_right);
    inode_codec::law_replaced_range(t.inodes[r], s2, e2, from_left);
    assert(m.blocks.subrange(s1, s1 + (e2 - s2)) =~= from_right);
    assert(n.blocks.subrange(s2, s2 + (e1 - s1)) =~= from_left);
}

/// Ranges that are exchanged at paths stand in each other's place, in the files that the paths name.
/// The device has to be sound once its journal is settled, which the request does first.
pub proof fn law_exchange_at_path(disk: Disk, sb: Superblock, left: PathVariableFileBlockRange<'_>, right: PathVariableFileBlockRange<'_>)
    requires
        soundness::sound_on(journal_checkpoint::settle_step(disk, sb).disk, sb),
        exchange_at_step(disk, sb, left, right).result is Ok,
    ensures
        ({
            let base = journal_checkpoint::settle_step(disk, sb).disk;
            path_lookup::file_at(base, sb, left.path@) matches Ok(l) && (path_lookup::file_at(
                base,
                sb,
                right.path@,
            ) matches Ok(r) && swapped(
                base,
                exchange_at_step(disk, sb, left, right).disk,
                sb,
                l,
                left.start as int,
                left.start + left.block_count,
                r,
                right.start as int,
                right.start + right.block_count,
            ))
        }),
{
    let base = journal_checkpoint::settle_step(disk, sb).disk;
    let t = soundness::tables_of(base, sb);
    soundness::lemma_sound_parts(base, sb);
    let a = path_lookup::resolved(base, sb, left.path@, true)->Ok_0;
    let b = path_lookup::resolved(base, sb, right.path@, true)->Ok_0;
    let l = file_blocks::index_of(t.inodes, a)->Some_0;
    let r = file_blocks::index_of(t.inodes, b)->Some_0;
    lemma_swapped(
        base,
        sb,
        FileBlockExchangeRange { inode: a, start: left.start, block_count: left.block_count },
        FileBlockExchangeRange { inode: b, start: right.start, block_count: right.block_count },
        l,
        r,
    );
}

/// The same of ranges of `count` blocks each.
pub proof fn law_exchange_equal_at_path(disk: Disk, sb: Superblock, left: PathFileBlockRange<'_>, right: PathFileBlockRange<'_>, count: usize)
    requires
        soundness::sound_on(journal_checkpoint::settle_step(disk, sb).disk, sb),
        exchange_equal_at_step(disk, sb, left, right, count).result is Ok,
    ensures
        ({
            let base = journal_checkpoint::settle_step(disk, sb).disk;
            path_lookup::file_at(base, sb, left.path@) matches Ok(l) && (path_lookup::file_at(
                base,
                sb,
                right.path@,
            ) matches Ok(r) && swapped(
                base,
                exchange_equal_at_step(disk, sb, left, right, count).disk,
                sb,
                l,
                left.start as int,
                left.start + count,
                r,
                right.start as int,
                right.start + count,
            ))
        }),
{
    let base = journal_checkpoint::settle_step(disk, sb).disk;
    let t = soundness::tables_of(base, sb);
    soundness::lemma_sound_parts(base, sb);
    let a = path_lookup::resolved(base, sb, left.path@, true)->Ok_0;
    let b = path_lookup::resolved(base, sb, right.path@, true)->Ok_0;
    let l = file_blocks::index_of(t.inodes, a)->Some_0;
    let r = file_blocks::index_of(t.inodes, b)->Some_0;
    lemma_swapped(
        base,
        sb,
        FileBlockExchangeRange { inode: a, start: left.start, block_count: count },
        FileBlockExchangeRange { inode: b, start: right.start, block_count: count },
        l,
        r,
    );
}

/// Two ranges of one file that are exchanged at a path stand in each other's place, whichever comes
/// first; the file keeps its length, and nothing else changes. Both paths name that file. The device
/// has to be sound once its journal is settled, which the request does first.
pub proof fn law_exchange_within_at_path(disk: Disk, sb: Superblock, first: PathVariableFileBlockRange<'_>, second: PathVariableFileBlockRange<'_>)
    requires
        soundness::sound_on(journal_checkpoint::settle_step(disk, sb).disk, sb),
        exchange_within_at_step(disk, sb, first, second).result is Ok,
    ensures
        ({
            let base = journal_checkpoint::settle_step(disk, sb).disk;
            let end = exchange_within_at_step(disk, sb, first, second).disk;
            let t = soundness::tables_of(base, sb);
            let n = soundness::tables_of(end, sb);
            let (low, high) = if first.start <= second.start {
                (first, second)
            } else {
                (second, first)
            };
            let (s1, e1) = (low.start as int, low.start + low.block_count);
            let (s2, e2) = (high.start as int, high.start + high.block_count);
            &&& path_lookup::file_at(base, sb, first.path@) == path_lookup::file_at(
                base,
                sb,
                second.path@,
            )
            &&& path_lookup::file_at(base, sb, first.path@) matches Ok(i) && {
                let x = contents::images_of(base, t.inodes[i]);
                &&& s1 < e1 <= s2 < e2 <= x.len()
                &&& contents::rewritten(
                    base,
                    end,
                    sb,
                    i,
                    x.subrange(0, s1) + x.subrange(s2, e2) + x.subrange(e1, s2) + x.subrange(s1, e1)
                        + x.subrange(e2, x.len() as int),
                )
                &&& n.allocator == t.allocator
                &&& n.inodes[i].byte_len == t.inodes[i].byte_len
            }
        }),
{
    let base = journal_checkpoint::settle_step(disk, sb).disk;
    let t = soundness::tables_of(base, sb);
    soundness::lemma_sound_parts(base, sb);
    let a = path_lookup::resolved(base, sb, first.path@, true)->Ok_0;
    let b = path_lookup::resolved(base, sb, second.path@, true)->Ok_0;
    let i = file_blocks::file_index(t.inodes, a)->Ok_0;
    file_blocks::lemma_index_from(t.inodes, a, 0);
    let x = FileBlockExchangeRange { inode: a, start: first.start, block_count: first.block_count };
    let y = FileBlockExchangeRange { inode: b, start: second.start, block_count: second.block_count };
    file_exchange::law_exchange_within_either_way(base, sb, x, y);
    if first.start <= second.start {
        file_exchange::law_exchange_within(base, sb, x, y, i);
    } else {
        file_exchange::law_exchange_within(base, sb, y, x, i);
    }
}

} // verus!
