//! What requests keep: no block is referenced twice, every referenced block is in use, and where
//! every block in use was referenced it stays so.

use vstd::prelude::*;
use crate::allocation;
use crate::allocation::AllocView;
use crate::create_data_tx;
use crate::file_blocks;
use crate::fsck;
use crate::inode::InodeKind;
use crate::inode_codec::{InodeView, SPARSE_HOLE_BLOCK};

verus! {

/// Ownership is sound, and every block in use is referenced.
pub open spec fn exact_ownership(a: AllocView, inodes: Seq<InodeView>) -> bool {
    fsck::sound_ownership(a, inodes) && forall|block: u64| #[trigger]
        a.owns(block) ==> fsck::references(inodes).contains(block)
}

/// The new state is as sound as the old one, and as exact.
pub open spec fn keeps_ownership(a: AllocView, inodes: Seq<InodeView>, b: AllocView, next: Seq<InodeView>) -> bool {
    &&& fsck::sound_ownership(a, inodes) ==> fsck::sound_ownership(b, next)
    &&& exact_ownership(a, inodes) ==> exact_ownership(b, next)
}

pub proof fn lemma_occurrences_join(x: Seq<u64>, y: Seq<u64>, block: u64)
    ensures
        create_data_tx::occurrences(x + y, block) == create_data_tx::occurrences(x, block)
            + create_data_tx::occurrences(y, block),
    decreases y.len(),
{
    if y.len() == 0 {
        assert(x + y =~= x);
    } else {
        assert((x + y).drop_last() =~= x + y.drop_last());
        lemma_occurrences_join(x, y.drop_last(), block);
    }
}

pub proof fn lemma_occurrences_contains(blocks: Seq<u64>, block: u64)
    ensures
        create_data_tx::occurrences(blocks, block) > 0 <==> blocks.contains(block),
        blocks.no_duplicates() ==> create_data_tx::occurrences(blocks, block) <= 1,
    decreases blocks.len(),
{
    if blocks.len() > 0 {
        let front = blocks.drop_last();
        lemma_occurrences_contains(front, block);
        if front.contains(block) {
            let i = choose|i: int| 0 <= i < front.len() && front[i] == block;
            assert(blocks[i] == block);
        }
        if blocks.contains(block) && blocks.last() != block {
            let i = choose|i: int| 0 <= i < blocks.len() && blocks[i] == block;
            assert(front[i] == block);
        }
        if blocks.last() == block {
            assert(blocks[blocks.len() - 1] == block);
        }
    }
}

proof fn lemma_stored_count(blocks: Seq<u64>, block: u64)
    ensures
        create_data_tx::occurrences(fsck::stored_blocks(blocks), block) == if block
            == SPARSE_HOLE_BLOCK {
            0
        } else {
            create_data_tx::occurrences(blocks, block)
        },
    decreases blocks.len(),
{
    if blocks.len() > 0 {
        lemma_stored_count(blocks.drop_last(), block);
        let front = fsck::stored_blocks(blocks.drop_last());
        if blocks.last() != SPARSE_HOLE_BLOCK {
            assert(front.push(blocks.last()).drop_last() =~= front);
        }
    }
}

/// The list of references holds each block as often as the inodes reference it.
proof fn lemma_reference_count(inodes: Seq<InodeView>, block: u64)
    ensures
        create_data_tx::occurrences(fsck::references(inodes), block) == if block
            == SPARSE_HOLE_BLOCK {
            0
        } else {
            create_data_tx::reference_count(inodes, block)
        },
    decreases inodes.len(),
{
    if inodes.len() > 0 {
        lemma_reference_count(inodes.drop_last(), block);
        lemma_stored_count(inodes.last().blocks, block);
        lemma_occurrences_join(
            fsck::references(inodes.drop_last()),
            fsck::stored_blocks(inodes.last().blocks),
            block,
        );
    }
}

proof fn lemma_distinct_by_count(blocks: Seq<u64>)
    requires
        forall|block: u64| #[trigger] create_data_tx::occurrences(blocks, block) <= 1,
    ensures
        blocks.no_duplicates(),
    decreases blocks.len(),
{
    if blocks.len() > 0 {
        let front = blocks.drop_last();
        assert forall|block: u64| #[trigger] create_data_tx::occurrences(front, block) <= 1 by {
            assert(create_data_tx::occurrences(blocks, block) <= 1);
        }
        lemma_distinct_by_count(front);
        lemma_occurrences_contains(front, blocks.last());
        assert(create_data_tx::occurrences(blocks, blocks.last()) <= 1);
        assert(!front.contains(blocks.last()));
        assert forall|i: int, j: int| 0 <= i < blocks.len() && 0 <= j < blocks.len() && i
            != j implies blocks[i] != blocks[j] by {
            if i < front.len() && j < front.len() {
                assert(front[i] != front[j]);
            } else if i < front.len() {
                assert(front.contains(front[i]));
            } else if j < front.len() {
                assert(front.contains(front[j]));
            }
        }
    }
}

/// Ownership is sound where every block but the hole is referenced at most once, and only if it is
/// in use, and only regular files have holes.
pub proof fn lemma_ownership_by_count(a: AllocView, inodes: Seq<InodeView>)
    ensures
        fsck::sound_ownership(a, inodes) <==> fsck::holes_in_files(inodes) && forall|block: u64|
            block != SPARSE_HOLE_BLOCK ==> (#[trigger] create_data_tx::reference_count(inodes, block))
                <= 1 && (create_data_tx::reference_count(inodes, block) == 1 ==> a.owns(block)),
        forall|block: u64| #[trigger]
            fsck::references(inodes).contains(block) <==> block != SPARSE_HOLE_BLOCK
                && create_data_tx::reference_count(inodes, block) > 0,
{
    let refs = fsck::references(inodes);
    assert forall|block: u64| #[trigger]
        refs.contains(block) <==> block != SPARSE_HOLE_BLOCK && create_data_tx::reference_count(
            inodes,
            block,
        ) > 0 by {
        lemma_reference_count(inodes, block);
        lemma_occurrences_contains(refs, block);
    }
    if fsck::sound_ownership(a, inodes) {
        assert forall|block: u64| block != SPARSE_HOLE_BLOCK implies (
        #[trigger] create_data_tx::reference_count(inodes, block)) <= 1 && (
        create_data_tx::reference_count(inodes, block) == 1 ==> a.owns(block)) by {
            lemma_reference_count(inodes, block);
            lemma_occurrences_contains(refs, block);
            if refs.contains(block) {
                let i = choose|i: int| 0 <= i < refs.len() && refs[i] == block;
                assert(a.owns(refs[i]));
            }
        }
    }
    if forall|block: u64|
        block != SPARSE_HOLE_BLOCK ==> (#[trigger] create_data_tx::reference_count(inodes, block))
            <= 1 && (create_data_tx::reference_count(inodes, block) == 1 ==> a.owns(block)) {
        assert forall|block: u64| #[trigger] create_data_tx::occurrences(refs, block) <= 1 by {
            lemma_reference_count(inodes, block);
        }
        lemma_distinct_by_count(refs);
        assert forall|i: int| 0 <= i < refs.len() implies a.owns(#[trigger] refs[i]) by {
            assert(refs.contains(refs[i]));
        }
    }
}

/// One inode exchanged for another changes the count by the difference of the two.
pub proof fn lemma_count_update(inodes: Seq<InodeView>, index: int, next: InodeView, block: u64)
    requires
        0 <= index < inodes.len(),
    ensures
        create_data_tx::reference_count(inodes.update(index, next), block)
            + create_data_tx::occurrences(inodes[index].blocks, block)
            == create_data_tx::reference_count(inodes, block) + create_data_tx::occurrences(
            next.blocks,
            block,
        ),
    decreases inodes.len(),
{
    let updated = inodes.update(index, next);
    if index == inodes.len() - 1 {
        assert(updated.drop_last() =~= inodes.drop_last());
    } else {
        assert(updated.drop_last() =~= inodes.drop_last().update(index, next));
        lemma_count_update(inodes.drop_last(), index, next, block);
    }
}

/// Blocks were taken that nobody owned and released that were referenced, and the references follow.
proof fn lemma_exchange(
    a: AllocView,
    inodes: Seq<InodeView>,
    b: AllocView,
    next: Seq<InodeView>,
    taken: Seq<u64>,
    released: Seq<u64>,
)
    requires
        fsck::holes_in_files(inodes) ==> fsck::holes_in_files(next),
        a.first > 0,
        b.first == a.first,
        taken.no_duplicates(),
        forall|i: int| 0 <= i < taken.len() ==> !a.owns(#[trigger] taken[i]),
        forall|i: int| 0 <= i < taken.len() ==> (#[trigger] taken[i]) >= a.first,
        forall|block: u64| #[trigger]
            b.owns(block) == ((a.owns(block) || taken.contains(block)) && !released.contains(
                block,
            )),
        forall|block: u64|
            block != SPARSE_HOLE_BLOCK ==> (#[trigger] create_data_tx::reference_count(next, block))
                + create_data_tx::occurrences(released, block) == create_data_tx::reference_count(
                inodes,
                block,
            ) + create_data_tx::occurrences(taken, block),
    ensures
        keeps_ownership(a, inodes, b, next),
{
    lemma_ownership_by_count(a, inodes);
    lemma_ownership_by_count(b, next);
    if fsck::sound_ownership(a, inodes) {
        assert forall|block: u64| block != SPARSE_HOLE_BLOCK implies (
        #[trigger] create_data_tx::reference_count(next, block)) <= 1 && (
        create_data_tx::reference_count(next, block) == 1 ==> b.owns(block)) by {
            assert(create_data_tx::reference_count(inodes, block) <= 1);
            lemma_occurrences_contains(taken, block);
            lemma_occurrences_contains(released, block);
            if taken.contains(block) {
                let i = choose|i: int| 0 <= i < taken.len() && taken[i] == block;
                assert(!a.owns(taken[i]));
            }
        }
    }
    if exact_ownership(a, inodes) {
        assert forall|block: u64| #[trigger] b.owns(block) implies fsck::references(next).contains(
            block,
        ) by {
            assert(block != SPARSE_HOLE_BLOCK);
            assert(create_data_tx::reference_count(next, block)
                + create_data_tx::occurrences(released, block)
                == create_data_tx::reference_count(inodes, block) + create_data_tx::occurrences(
                taken,
                block,
            ));
            lemma_occurrences_contains(taken, block);
            lemma_occurrences_contains(released, block);
            if a.owns(block) {
                assert(fsck::references(inodes).contains(block));
            }
        }
    }
}

/// Fresh blocks were free before, are distinct, are data blocks, and are in use afterwards.
pub proof fn lemma_fresh(a: AllocView, count: nat, contiguous: bool)
    requires
        a.wf(),
    ensures
        file_blocks::fresh_blocks(a, count, contiguous) matches Some((b, fresh)) ==> {
            &&& b.wf()
            &&& b.first == a.first
            &&& b.owned.len() == a.owned.len()
            &&& fresh.len() == count
            &&& fresh.no_duplicates()
            &&& forall|i: int|
                0 <= i < fresh.len() ==> a.covers(#[trigger] fresh[i]) && !a.owns(fresh[i])
            &&& forall|block: u64| #[trigger]
                b.owns(block) == (a.owns(block) || fresh.contains(block))
        },
{
    allocation::law_taking(a, count);
    if contiguous && count > 0 {
        allocation::law_taking_run(a, count);
        if let Some((b, block)) = a.taking_run(count) {
            let fresh = AllocView::run_of(block, count);
            assert(forall|other: u64|
                block <= other < block + count ==> !#[trigger] a.owns(other) && b.owns(other));
            assert forall|x: u64| #[trigger] b.owns(x) == (a.owns(x) || fresh.contains(x)) by {
                if block <= x < block + count {
                    assert(!a.owns(x) && b.owns(x));
                    assert(0 <= x - block < fresh.len() && fresh[x - block] == x);
                    assert(fresh.contains(x));
                } else {
                    assert(b.owns(x) == a.owns(x));
                    if fresh.contains(x) {
                        let i = choose|i: int| 0 <= i < fresh.len() && fresh[i] == x;
                        assert(fresh[i] == (block + i) as u64);
                    }
                    assert(!fresh.contains(x));
                }
            }
        }
    }
}

/// A mapping without new holes leaves holes where they were.
proof fn lemma_no_new_holes(inodes: Seq<InodeView>, index: int, next: InodeView)
    requires
        0 <= index < inodes.len(),
        next.kind == inodes[index].kind,
        next.kind != InodeKind::File && next.blocks.contains(SPARSE_HOLE_BLOCK)
            ==> inodes[index].blocks.contains(SPARSE_HOLE_BLOCK),
    ensures
        fsck::holes_in_files(inodes) ==> fsck::holes_in_files(inodes.update(index, next)),
{
    let updated = inodes.update(index, next);
    if fsck::holes_in_files(inodes) {
        assert forall|i: int|
            0 <= i < updated.len() && (#[trigger] updated[i]).kind
                != InodeKind::File implies !updated[i].blocks.contains(
            SPARSE_HOLE_BLOCK,
        ) by {
            assert(inodes[i].kind == updated[i].kind);
        }
    }
}

/// A range of a mapping exchanged for fresh blocks keeps ownership.
pub proof fn law_splice_keeps_ownership(
    a: AllocView,
    inodes: Seq<InodeView>,
    index: int,
    start: int,
    end: int,
    count: nat,
    contiguous: bool,
)
    requires
        a.wf(),
        a.first > 0,
        0 <= index < inodes.len(),
        0 <= start <= end <= inodes[index].blocks.len(),
    ensures
        file_blocks::splice(a, inodes[index], start, end, count, contiguous) matches Ok(s)
            ==> keeps_ownership(a, inodes, s.allocator, inodes.update(index, s.inode)),
{
    if let Ok(s) = file_blocks::splice(a, inodes[index], start, end, count, contiguous) {
        let old_blocks = inodes[index].blocks;
        let next = inodes.update(index, s.inode);
        lemma_fresh(a, count, contiguous);
        let taken = file_blocks::fresh_blocks(a, count, contiguous)->Some_0.0;
        allocation::law_releasing(taken, s.displaced);
        assert forall|block: u64| #[trigger]
            create_data_tx::reference_count(next, block) + create_data_tx::occurrences(
                s.displaced,
                block,
            ) == create_data_tx::reference_count(inodes, block) + create_data_tx::occurrences(
                s.fresh,
                block,
            ) by {
            let front = old_blocks.subrange(0, start);
            let back = old_blocks.subrange(end, old_blocks.len() as int);
            lemma_count_update(inodes, index, s.inode, block);
            lemma_occurrences_join(front + s.fresh, back, block);
            lemma_occurrences_join(front, s.fresh, block);
            assert(old_blocks =~= front + s.displaced + back);
            lemma_occurrences_join(front + s.displaced, back, block);
            lemma_occurrences_join(front, s.displaced, block);
        }
        if s.inode.blocks.contains(SPARSE_HOLE_BLOCK) {
            let i = choose|i: int|
                0 <= i < s.inode.blocks.len() && s.inode.blocks[i] == SPARSE_HOLE_BLOCK;
            if i < start {
                assert(old_blocks[i] == SPARSE_HOLE_BLOCK);
            } else if i < start + s.fresh.len() {
                assert(a.covers(s.fresh[i - start]));
            } else {
                assert(old_blocks[i - start - s.fresh.len() + end] == SPARSE_HOLE_BLOCK);
            }
        }
        lemma_no_new_holes(inodes, index, s.inode);
        lemma_exchange(a, inodes, s.allocator, next, s.fresh, s.displaced);
    }
}

proof fn lemma_occurrences_multiset(blocks: Seq<u64>, block: u64)
    ensures
        create_data_tx::occurrences(blocks, block) == blocks.to_multiset().count(block),
    decreases blocks.len(),
{
    broadcast use vstd::seq_lib::group_to_multiset_ensures;

    if blocks.len() > 0 {
        lemma_occurrences_multiset(blocks.drop_last(), block);
        assert(blocks =~= blocks.drop_last().push(blocks.last()));
    }
}

/// A mapping with its blocks in another order keeps ownership.
pub proof fn law_reorder_keeps_ownership(a: AllocView, inodes: Seq<InodeView>, index: int, next: InodeView)
    requires
        a.first > 0,
        0 <= index < inodes.len(),
        next.kind == inodes[index].kind,
        next.blocks.to_multiset() == inodes[index].blocks.to_multiset(),
    ensures
        keeps_ownership(a, inodes, a, inodes.update(index, next)),
{
    let none = Seq::<u64>::empty();
    assert forall|block: u64| #[trigger]
        create_data_tx::reference_count(inodes.update(index, next), block)
            + create_data_tx::occurrences(none, block) == create_data_tx::reference_count(
            inodes,
            block,
        ) + create_data_tx::occurrences(none, block) by {
        lemma_count_update(inodes, index, next, block);
        lemma_occurrences_multiset(next.blocks, block);
        lemma_occurrences_multiset(inodes[index].blocks, block);
    }
    lemma_occurrences_multiset(next.blocks, SPARSE_HOLE_BLOCK);
    lemma_occurrences_multiset(inodes[index].blocks, SPARSE_HOLE_BLOCK);
    lemma_occurrences_contains(next.blocks, SPARSE_HOLE_BLOCK);
    lemma_occurrences_contains(inodes[index].blocks, SPARSE_HOLE_BLOCK);
    lemma_no_new_holes(inodes, index, next);
    lemma_exchange(a, inodes, a, inodes.update(index, next), none, none);
}

/// Two mappings that hold the same blocks between them as before keep ownership.
pub proof fn law_reshuffle_keeps_ownership(a: AllocView, inodes: Seq<InodeView>, i: int, x: InodeView, j: int, y: InodeView)
    requires
        a.first > 0,
        0 <= i < inodes.len(),
        0 <= j < inodes.len(),
        i != j,
        inodes[i].kind == InodeKind::File,
        inodes[j].kind == InodeKind::File,
        x.kind == inodes[i].kind,
        y.kind == inodes[j].kind,
        (x.blocks + y.blocks).to_multiset() == (inodes[i].blocks + inodes[j].blocks).to_multiset(),
    ensures
        keeps_ownership(a, inodes, a, inodes.update(i, x).update(j, y)),
{
    let none = Seq::<u64>::empty();
    let next = inodes.update(i, x).update(j, y);
    assert forall|block: u64| #[trigger]
        create_data_tx::reference_count(next, block) + create_data_tx::occurrences(none, block)
            == create_data_tx::reference_count(inodes, block) + create_data_tx::occurrences(
            none,
            block,
        ) by {
        lemma_count_update(inodes, i, x, block);
        lemma_count_update(inodes.update(i, x), j, y, block);
        lemma_occurrences_join(x.blocks, y.blocks, block);
        lemma_occurrences_join(inodes[i].blocks, inodes[j].blocks, block);
        lemma_occurrences_multiset(x.blocks + y.blocks, block);
        lemma_occurrences_multiset(inodes[i].blocks + inodes[j].blocks, block);
    }
    lemma_no_new_holes(inodes, i, x);
    lemma_no_new_holes(inodes.update(i, x), j, y);
    lemma_exchange(a, inodes, a, next, none, none);
}

/// Blocks that are released with the mapping that held them keep ownership, while another mapping
/// takes over what a third gave up.
pub proof fn law_release_keeps_ownership(a: AllocView, inodes: Seq<InodeView>, next: Seq<InodeView>, released: Seq<u64>)
    requires
        a.wf(),
        a.first > 0,
        a.releasing(released) is Some,
        fsck::holes_in_files(inodes) ==> fsck::holes_in_files(next),
        forall|block: u64|
            block != SPARSE_HOLE_BLOCK ==> (#[trigger] create_data_tx::reference_count(next, block))
                + create_data_tx::occurrences(released, block) == create_data_tx::reference_count(
                inodes,
                block,
            ),
    ensures
        keeps_ownership(a, inodes, a.releasing(released)->Some_0, next),
{
    let none = Seq::<u64>::empty();
    allocation::law_releasing(a, released);
    lemma_exchange(a, inodes, a.releasing(released)->Some_0, next, none, released);
}

/// The references rest on the mappings alone.
proof fn lemma_same_references(inodes: Seq<InodeView>, index: int, x: InodeView, y: InodeView)
    requires
        0 <= index < inodes.len(),
        x.blocks == y.blocks,
    ensures
        fsck::references(inodes.update(index, x)) == fsck::references(inodes.update(index, y)),
    decreases inodes.len(),
{
    let first = inodes.update(index, x);
    let second = inodes.update(index, y);
    if index == inodes.len() - 1 {
        assert(first.drop_last() =~= second.drop_last());
    } else {
        assert(first.drop_last() =~= inodes.drop_last().update(index, x));
        assert(second.drop_last() =~= inodes.drop_last().update(index, y));
        lemma_same_references(inodes.drop_last(), index, x, y);
    }
}

/// Ownership rests on the mappings alone.
pub proof fn lemma_same_blocks(a: AllocView, inodes: Seq<InodeView>, index: int, x: InodeView, y: InodeView)
    requires
        0 <= index < inodes.len(),
        x.blocks == y.blocks,
        x.kind == y.kind,
    ensures
        exact_ownership(a, inodes.update(index, x)) == exact_ownership(a, inodes.update(index, y)),
{
    lemma_same_references(inodes, index, x, y);
    lemma_no_new_holes(inodes.update(index, x), index, y);
    lemma_no_new_holes(inodes.update(index, y), index, x);
    assert(inodes.update(index, x).update(index, y) =~= inodes.update(index, y));
    assert(inodes.update(index, y).update(index, x) =~= inodes.update(index, x));
}

/// A new inode on fresh blocks keeps ownership.
pub proof fn law_create_keeps_ownership(a: AllocView, inodes: Seq<InodeView>, inode: InodeView, count: nat, contiguous: bool)
    requires
        a.wf(),
        a.first > 0,
        file_blocks::fresh_blocks(a, count, contiguous) matches Some((b, fresh)) && inode.blocks
            == fresh,
    ensures
        file_blocks::fresh_blocks(a, count, contiguous) matches Some((b, fresh)) ==> keeps_ownership(
            a,
            inodes,
            b,
            inodes.push(inode),
        ),
{
    let (b, fresh) = file_blocks::fresh_blocks(a, count, contiguous)->Some_0;
    let none = Seq::<u64>::empty();
    lemma_fresh(a, count, contiguous);
    assert forall|block: u64| block != SPARSE_HOLE_BLOCK implies (
    #[trigger] create_data_tx::reference_count(inodes.push(inode), block))
        + create_data_tx::occurrences(none, block) == create_data_tx::reference_count(inodes, block)
        + create_data_tx::occurrences(fresh, block) by {
        assert(inodes.push(inode).drop_last() =~= inodes);
    }
    assert forall|i: int| 0 <= i < fresh.len() implies (#[trigger] fresh[i]) >= a.first by {
        assert(a.covers(fresh[i]));
    }
    if inode.blocks.contains(SPARSE_HOLE_BLOCK) {
        let i = choose|i: int| 0 <= i < fresh.len() && fresh[i] == SPARSE_HOLE_BLOCK;
        assert(a.covers(fresh[i]));
    }
    if fsck::holes_in_files(inodes) {
        assert forall|i: int|
            0 <= i < inodes.push(inode).len() && (#[trigger] inodes.push(inode)[i]).kind
                != InodeKind::File implies !inodes.push(inode)[i].blocks.contains(
            SPARSE_HOLE_BLOCK,
        ) by {
            if i < inodes.len() {
                assert(inodes[i].kind == inodes.push(inode)[i].kind);
            }
        }
    }
    lemma_exchange(a, inodes, b, inodes.push(inode), fresh, none);
}

} // verus!
