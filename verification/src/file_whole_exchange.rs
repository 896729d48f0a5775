//! Exchanging or handing over the complete contents of files without copying blocks.

use vstd::prelude::*;
use vstd::slice::*;
use crate::allocation::{AllocView, BlockAllocator};
use crate::block::{Block, BlockDevice, Disk};
use crate::contents;
use crate::create_data_tx;
use crate::error::{Error, ErrorKind};
use crate::file_blocks;
use crate::file_blocks::{are_distinct, are_owned, invalid_data, invalid_input, join_blocks, load_tables, publish_inodes};
use crate::file_clone_insert;
use crate::file_clone_insert::find_file_pair;
use crate::file_exchange;
use crate::format::Superblock;
use crate::inode_codec::{InodeView, PersistedInode};
use crate::inode_codec;
use crate::inode_table;
use crate::journal_region;
use crate::ownership;
use crate::recovery;
use crate::recovery::{HomeWrite, RecoveryReport};
use crate::soundness;
use crate::step;
use crate::step::Step;
use crate::update;
use crate::update::{store_update_and_checkpoint, Update};

verus! {

/// An inode with the contents of another: its mapping and its byte length.
pub open spec fn with_contents(inode: InodeView, contents: InodeView) -> InodeView {
    InodeView { blocks: contents.blocks, byte_len: contents.byte_len, ..inode }
}

/// An inode without contents.
pub open spec fn without_contents(inode: InodeView) -> InodeView {
    InodeView { blocks: Seq::empty(), byte_len: 0, ..inode }
}

/// The complete contents of two regular files exchanged as one transaction; nothing is written
/// where both are empty.
pub open spec fn exchange_whole_step(disk: Disk, sb: Superblock, left: u64, right: u64) -> Step<RecoveryReport> {
    if left == right {
        step::stay(disk, Err(ErrorKind::InvalidInput))
    } else {
        match file_blocks::tables_on(disk, sb) {
            Err(kind) => step::stay(disk, Err(kind)),
            Ok((a, inodes)) => match file_clone_insert::file_pair(inodes, left, right) {
                None => step::stay(disk, Err(ErrorKind::InvalidInput)),
                Some((l, r)) => if !file_exchange::distinct_owned(
                    a,
                    inodes[l].blocks + inodes[r].blocks,
                ) {
                    step::stay(disk, Err(ErrorKind::InvalidData))
                } else if inodes[l].blocks.len() == 0 && inodes[r].blocks.len() == 0 {
                    step::stay(disk, Ok(recovery::no_recovery()))
                } else {
                    file_blocks::inodes_step(
                        disk,
                        sb,
                        inodes.update(l, with_contents(inodes[l], inodes[r])).update(
                            r,
                            with_contents(inodes[r], inodes[l]),
                        ),
                        false,
                    )
                },
            },
        }
    }
}

/// The tables after one regular file handed its complete contents over to another, whose own
/// blocks are released; nothing where both are empty.
pub open spec fn handed_over(a: AllocView, inodes: Seq<InodeView>, source: u64, destination: u64) -> Result<Option<(AllocView, Seq<InodeView>)>, ErrorKind> {
    match file_clone_insert::file_pair(inodes, source, destination) {
        None => Err(ErrorKind::InvalidInput),
        Some((s, d)) => if !file_exchange::distinct_owned(a, inodes[s].blocks + inodes[d].blocks) {
            Err(ErrorKind::InvalidData)
        } else if inodes[s].blocks.len() == 0 && inodes[d].blocks.len() == 0 {
            Ok(None)
        } else {
            match a.releasing(inodes[d].blocks) {
                None => Err(ErrorKind::InvalidData),
                Some(next) => Ok(
                    Some(
                        (
                            next,
                            inodes.update(s, without_contents(inodes[s])).update(
                                d,
                                with_contents(inodes[d], inodes[s]),
                            ),
                        ),
                    ),
                ),
            }
        },
    }
}

/// The complete contents of one regular file handed over to another as one transaction; nothing
/// is written where both are empty.
pub open spec fn transfer_whole_step(disk: Disk, sb: Superblock, source: u64, destination: u64) -> Step<RecoveryReport> {
    if source == destination {
        step::stay(disk, Err(ErrorKind::InvalidInput))
    } else {
        match file_blocks::tables_on(disk, sb) {
            Err(kind) => step::stay(disk, Err(kind)),
            Ok((a, inodes)) => match handed_over(a, inodes, source, destination) {
                Err(kind) => step::stay(disk, Err(kind)),
                Ok(None) => step::stay(disk, Ok(recovery::no_recovery())),
                Ok(Some((next, list))) => update::settled_update_step(
                    disk,
                    sb,
                    Update {
                        allocator: Some(next),
                        inodes: Some(list),
                        entries: None,
                        data: Seq::empty(),
                    },
                    false,
                ),
            },
        }
    }
}

fn swap_contents(inodes: &mut Vec<PersistedInode>, l: usize, r: usize)
    requires
        l < old(inodes)@.len(),
        r < old(inodes)@.len(),
        l != r,
    ensures
        ({
            let views = inode_table::inode_views(old(inodes)@);
            inode_table::inode_views(final(inodes)@) == views.update(
                l as int,
                with_contents(views[l as int], views[r as int]),
            ).update(r as int, with_contents(views[r as int], views[l as int]))
        }),
{
    let ghost before = inodes@;
    let left_blocks = slice_to_vec(inodes[l].blocks.as_slice());
    let left_len: u64 = inodes[l].byte_len;
    let right_blocks = slice_to_vec(inodes[r].blocks.as_slice());
    let right_len: u64 = inodes[r].byte_len;
    inodes[l].blocks = right_blocks;
    inodes[l].byte_len = right_len;
    let ghost half = inodes@;
    inodes[r].blocks = left_blocks;
    inodes[r].byte_len = left_len;
    proof {
        file_blocks::lemma_views_update(before, half, l as int);
        file_blocks::lemma_views_update(half, inodes@, r as int);
    }
}

fn hand_over_contents(inodes: &mut Vec<PersistedInode>, s: usize, d: usize)
    requires
        s < old(inodes)@.len(),
        d < old(inodes)@.len(),
        s != d,
    ensures
        ({
            let views = inode_table::inode_views(old(inodes)@);
            inode_table::inode_views(final(inodes)@) == views.update(
                s as int,
                without_contents(views[s as int]),
            ).update(d as int, with_contents(views[d as int], views[s as int]))
        }),
{
    let ghost before = inodes@;
    let source_blocks = slice_to_vec(inodes[s].blocks.as_slice());
    let source_len: u64 = inodes[s].byte_len;
    let none: Vec<u64> = Vec::new();
    assert(none@ =~= Seq::<u64>::empty());
    inodes[s].blocks = none;
    inodes[s].byte_len = 0;
    let ghost half = inodes@;
    inodes[d].blocks = source_blocks;
    inodes[d].byte_len = source_len;
    proof {
        file_blocks::lemma_views_update(before, half, s as int);
        file_blocks::lemma_views_update(half, inodes@, d as int);
    }
}

/// Exchanges the complete contents of two regular files as one transaction.
pub fn exchange_complete_file_blocks_journaled<D: BlockDevice>(device: &mut D, superblock: &Superblock, left_inode_id: u64, right_inode_id: u64) -> (r: Result<RecoveryReport, Error>)
    ensures
        journal_region::carried_out(
            old(device),
            final(device),
            *superblock,
            step::kinded(r),
            exchange_whole_step(
                old(device).blocks(),
                *superblock,
                left_inode_id,
                right_inode_id,
            ),
        ),
        step::turned_away(
            old(device),
            final(device),
            step::kinded(r),
            left_inode_id == right_inode_id,
        ),
{
    broadcast use journal_region::group_atomic;

    if left_inode_id == right_inode_id {
        return Err(invalid_input("whole-file exchange requires distinct file inodes"));
    }
    let (allocator, mut inodes) = load_tables(device, superblock)?;
    proof {
        let views = inode_table::inode_views(inodes@);
        file_blocks::lemma_index_from(views, left_inode_id, 0);
        file_blocks::lemma_index_from(views, right_inode_id, 0);
    }
    let (l, r) = find_file_pair(inodes.as_slice(), left_inode_id, right_inode_id)?;
    let all = join_blocks(inodes[l].blocks.as_slice(), inodes[r].blocks.as_slice());
    if !are_distinct(all.as_slice()) || !are_owned(&allocator, all.as_slice()) {
        return Err(
            invalid_data("whole-file exchange endpoints share blocks or reference unowned ones"),
        );
    }
    if inodes[l].blocks.is_empty() && inodes[r].blocks.is_empty() {
        return Ok(RecoveryReport::default());
    }
    swap_contents(&mut inodes, l, r);
    publish_inodes(device, superblock, inodes.as_slice(), false)
}

/// Plans the handing over of the complete contents of a file; `false` where both are empty.
fn prepare_hand_over(
    allocator: &mut BlockAllocator,
    inodes: &mut Vec<PersistedInode>,
    source_inode_id: u64,
    destination_inode_id: u64,
) -> (r: Result<bool, Error>)
    requires
        old(allocator)@.wf(),
        source_inode_id != destination_inode_id,
    ensures
        ({
            let plan = handed_over(
                old(allocator)@,
                inode_table::inode_views(old(inodes)@),
                source_inode_id,
                destination_inode_id,
            );
            match r {
                Ok(true) => plan == Ok::<Option<(AllocView, Seq<InodeView>)>, ErrorKind>(
                    Some((final(allocator)@, inode_table::inode_views(final(inodes)@))),
                ),
                Ok(false) => plan == Ok::<Option<(AllocView, Seq<InodeView>)>, ErrorKind>(None),
                Err(e) => plan == Err::<Option<(AllocView, Seq<InodeView>)>, ErrorKind>(e.kind),
            }
        }),
{
    proof {
        let views = inode_table::inode_views(inodes@);
        file_blocks::lemma_index_from(views, source_inode_id, 0);
        file_blocks::lemma_index_from(views, destination_inode_id, 0);
    }
    let (s, d) = find_file_pair(inodes.as_slice(), source_inode_id, destination_inode_id)?;
    let all = join_blocks(inodes[s].blocks.as_slice(), inodes[d].blocks.as_slice());
    if !are_distinct(all.as_slice()) || !are_owned(allocator, all.as_slice()) {
        return Err(
            invalid_data("whole-file transfer endpoints share blocks or reference unowned ones"),
        );
    }
    if inodes[s].blocks.is_empty() && inodes[d].blocks.is_empty() {
        return Ok(false);
    }
    match allocator.free_all(inodes[d].blocks.as_slice()) {
        Ok(_) => {},
        Err(_) => return Err(invalid_data("displaced block cannot be released")),
    }
    hand_over_contents(inodes, s, d);
    Ok(true)
}

/// Hands the complete contents of one regular file over to another as one transaction. The source
/// is empty afterwards, and the blocks that the destination had are released.
pub fn transfer_replace_complete_file_blocks_journaled<D: BlockDevice>(
    device: &mut D,
    superblock: &Superblock,
    source_inode_id: u64,
    destination_inode_id: u64,
) -> (r: Result<RecoveryReport, Error>)
    ensures
        journal_region::carried_out(
            old(device),
            final(device),
            *superblock,
            step::kinded(r),
            transfer_whole_step(
                old(device).blocks(),
                *superblock,
                source_inode_id,
                destination_inode_id,
            ),
        ),
        step::turned_away(
            old(device),
            final(device),
            step::kinded(r),
            source_inode_id == destination_inode_id,
        ),
{
    broadcast use journal_region::group_atomic;

    if source_inode_id == destination_inode_id {
        return Err(
            invalid_input("whole-file transfer replacement requires distinct file inodes"),
        );
    }
    let (mut allocator, mut inodes) = load_tables(device, superblock)?;
    if !prepare_hand_over(&mut allocator, &mut inodes, source_inode_id, destination_inode_id)? {
        return Ok(RecoveryReport::default());
    }
    let none: Vec<(u64, Block)> = Vec::new();
    assert(recovery::write_views(none@) =~= Seq::<HomeWrite>::empty());
    store_update_and_checkpoint(
        device,
        superblock,
        Some(&allocator),
        Some(inodes.as_slice()),
        None,
        none.as_slice(),
        false,
    )
}

/// Files that are exchanged hold each other's contents and have each other's byte length, and
/// nothing else changes.
pub proof fn law_exchange_whole(disk: Disk, sb: Superblock, left: u64, right: u64, l: int, r: int)
    requires
        soundness::sound_on(disk, sb),
        file_clone_insert::file_pair(soundness::tables_of(disk, sb).inodes, left, right) == Some(
            (l, r),
        ),
        exchange_whole_step(disk, sb, left, right).result is Ok,
    ensures
        ({
            let t = soundness::tables_of(disk, sb);
            let end = exchange_whole_step(disk, sb, left, right).disk;
            &&& contents::rewritten_pair(
                disk,
                end,
                sb,
                l,
                contents::images_of(disk, t.inodes[r]),
                r,
                contents::images_of(disk, t.inodes[l]),
            )
            &&& soundness::tables_of(end, sb).inodes == t.inodes.update(
                l,
                with_contents(t.inodes[l], t.inodes[r]),
            ).update(r, with_contents(t.inodes[r], t.inodes[l]))
        }),
{
    broadcast use vstd::seq_lib::group_to_multiset_ensures;

    let t = soundness::tables_of(disk, sb);
    soundness::lemma_sound_parts(disk, sb);
    file_blocks::lemma_index_from(t.inodes, left, 0);
    file_blocks::lemma_index_from(t.inodes, right, 0);
    let a = t.inodes[l];
    let b = t.inodes[r];
    let x = with_contents(a, b);
    let y = with_contents(b, a);
    assert(inode_codec::exact(a) && inode_codec::exact(b));
    assert(contents::images_of(disk, x) =~= contents::images_of(disk, b));
    assert(contents::images_of(disk, y) =~= contents::images_of(disk, a));
    if a.blocks.len() == 0 && b.blocks.len() == 0 {
        assert(x =~= a);
        assert(y =~= b);
        assert(t.inodes.update(l, x).update(r, y) =~= t.inodes);
    } else {
        file_exchange::lemma_multiset_sum(x.blocks, y.blocks);
        file_exchange::lemma_multiset_sum(a.blocks, b.blocks);
        assert((x.blocks + y.blocks).to_multiset() =~= (a.blocks + b.blocks).to_multiset());
        ownership::law_reshuffle_keeps_ownership(t.allocator, t.inodes, l, x, r, y);
        let u = Update {
            allocator: None,
            inodes: Some(t.inodes.update(l, x).update(r, y)),
            entries: None,
            data: Seq::empty(),
        };
        contents::lemma_pair_update(disk, sb, l, x, r, y, u, false);
    }
}

/// What the exchange of two files does to the tables.
proof fn lemma_exchange_whole_tables(disk: Disk, sb: Superblock, left: u64, right: u64)
    requires
        exchange_whole_step(disk, sb, left, right).result is Ok,
    ensures
        ({
            let t = soundness::tables_of(disk, sb);
            let end = exchange_whole_step(disk, sb, left, right).disk;
            &&& file_clone_insert::file_pair(t.inodes, left, right) matches Some((l, r)) && 0 <= l
                < t.inodes.len() && 0 <= r < t.inodes.len() && l != r && soundness::tables_of(
                end,
                sb,
            ) == (soundness::Tables {
                inodes: t.inodes.update(l, with_contents(t.inodes[l], t.inodes[r])).update(
                    r,
                    with_contents(t.inodes[r], t.inodes[l]),
                ),
                ..t
            })
            &&& soundness::readable_on(disk, sb) ==> soundness::readable_on(end, sb)
        }),
{
    let t = soundness::tables_of(disk, sb);
    let (l, r) = file_clone_insert::file_pair(t.inodes, left, right)->Some_0;
    file_blocks::lemma_index_from(t.inodes, left, 0);
    file_blocks::lemma_index_from(t.inodes, right, 0);
    inode_table::lemma_inodes_exact(disk, sb);
    let (a, b) = (t.inodes[l], t.inodes[r]);
    let (x, y) = (with_contents(a, b), with_contents(b, a));
    assert(inode_codec::exact(a) && inode_codec::exact(b));
    if a.blocks.len() == 0 && b.blocks.len() == 0 {
        assert(x =~= a);
        assert(y =~= b);
        assert(t.inodes.update(l, x).update(r, y) =~= t.inodes);
    } else {
        let u = Update {
            allocator: None,
            inodes: Some(t.inodes.update(l, x).update(r, y)),
            entries: None,
            data: Seq::empty(),
        };
        assert(inode_codec::exact(x) && inode_codec::exact(y));
        soundness::lemma_update_tables(disk, sb, u, false);
    }
}

/// Two files that are exchanged twice leave every table as it was, and a sound device sound.
pub proof fn law_exchange_whole_twice(disk: Disk, sb: Superblock, left: u64, right: u64)
    requires
        exchange_whole_step(disk, sb, left, right).result is Ok,
        exchange_whole_step(exchange_whole_step(disk, sb, left, right).disk, sb, left, right).result is Ok,
    ensures
        ({
            let end = exchange_whole_step(
                exchange_whole_step(disk, sb, left, right).disk,
                sb,
                left,
                right,
            ).disk;
            &&& soundness::tables_of(end, sb) == soundness::tables_of(disk, sb)
            &&& soundness::sound_on(disk, sb) ==> soundness::sound_on(end, sb)
        }),
{
    let mid = exchange_whole_step(disk, sb, left, right).disk;
    let end = exchange_whole_step(mid, sb, left, right).disk;
    let t = soundness::tables_of(disk, sb);
    let m = soundness::tables_of(mid, sb);
    lemma_exchange_whole_tables(disk, sb, left, right);
    soundness::lemma_same_index(t.inodes, m.inodes, left, 0);
    soundness::lemma_same_index(t.inodes, m.inodes, right, 0);
    lemma_exchange_whole_tables(mid, sb, left, right);
    assert(soundness::tables_of(end, sb).inodes =~= t.inodes);
    soundness::lemma_sound_again(disk, end, sb);
}

/// A file that hands its contents over is empty, the other holds them and has its byte length, and
/// nothing else changes.
pub proof fn law_transfer_whole(disk: Disk, sb: Superblock, source: u64, destination: u64, s: int, d: int)
    requires
        soundness::sound_on(disk, sb),
        file_clone_insert::file_pair(soundness::tables_of(disk, sb).inodes, source, destination)
            == Some((s, d)),
        transfer_whole_step(disk, sb, source, destination).result is Ok,
    ensures
        ({
            let t = soundness::tables_of(disk, sb);
            let end = transfer_whole_step(disk, sb, source, destination).disk;
            &&& contents::rewritten_pair(
                disk,
                end,
                sb,
                s,
                Seq::empty(),
                d,
                contents::images_of(disk, t.inodes[s]),
            )
            &&& soundness::tables_of(end, sb).inodes[d].byte_len == t.inodes[s].byte_len
            &&& soundness::tables_of(end, sb).inodes[s].byte_len == 0
            &&& soundness::tables_of(end, sb).inodes[d].blocks == t.inodes[s].blocks
            &&& forall|x: u64| #[trigger]
                soundness::tables_of(end, sb).allocator.owns(x) <==> t.allocator.owns(x)
                    && !t.inodes[d].blocks.contains(x)
        }),
{
    let t = soundness::tables_of(disk, sb);
    soundness::lemma_sound_parts(disk, sb);
    file_blocks::lemma_index_from(t.inodes, source, 0);
    file_blocks::lemma_index_from(t.inodes, destination, 0);
    let a = t.inodes[s];
    let b = t.inodes[d];
    let x = without_contents(a);
    let y = with_contents(b, a);
    assert(inode_codec::exact(a) && inode_codec::exact(b));
    assert(contents::images_of(disk, x) =~= Seq::<Seq<u8>>::empty());
    assert(contents::images_of(disk, y) =~= contents::images_of(disk, a));
    if a.blocks.len() == 0 && b.blocks.len() == 0 {
        assert(contents::images_of(disk, a) =~= Seq::<Seq<u8>>::empty());
        assert(contents::images_of(disk, b) =~= Seq::<Seq<u8>>::empty());
    } else {
        let next = t.inodes.update(s, x).update(d, y);
        assert forall|block: u64| #[trigger]
            create_data_tx::reference_count(next, block) + create_data_tx::occurrences(
                b.blocks,
                block,
            ) == create_data_tx::reference_count(t.inodes, block) by {
            ownership::lemma_count_update(t.inodes, s, x, block);
            ownership::lemma_count_update(t.inodes.update(s, x), d, y, block);
        }
        ownership::law_release_keeps_ownership(t.allocator, t.inodes, next, b.blocks);
        let u = Update {
            allocator: t.allocator.releasing(b.blocks),
            inodes: Some(next),
            entries: None,
            data: Seq::empty(),
        };
        contents::lemma_pair_update(disk, sb, s, x, d, y, u, false);
        crate::allocation::law_releasing(t.allocator, b.blocks);
    }
}

} // verus!
