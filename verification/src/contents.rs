//! What files hold, and what requests do to it.

use vstd::prelude::*;
use crate::allocation::AllocView;
use crate::allocation_disk;
use crate::block::{Disk, BLOCK_SIZE};
use crate::bytes;
use crate::create_data_tx;
use crate::file_blocks;
use crate::format::Superblock;
use crate::fsck;
use crate::inode_codec;
use crate::inode_codec::{InodeView, SPARSE_HOLE_BLOCK};
use crate::journal::EntryView;
use crate::journal_region;
use crate::ownership;
use crate::path_contiguous_defrag;
use crate::recovery;
use crate::recovery::HomeWrite;
use crate::soundness;
use crate::transaction;
use crate::update;
use crate::update::Update;

verus! {

/// The contents of a block of a mapping; a hole holds zeros.
pub open spec fn block_image(disk: Disk, block: u64) -> Seq<u8> {
    if block == SPARSE_HOLE_BLOCK {
        bytes::zeros(BLOCK_SIZE as nat)
    } else {
        disk[block as int]
    }
}

/// The contents of a file, block by block.
pub open spec fn images_of(disk: Disk, inode: InodeView) -> Seq<Seq<u8>> {
    Seq::new(inode.blocks.len(), |i: int| block_image(disk, inode.blocks[i]))
}

/// The device stays sound, and the file at `index` of the inode table now holds `images`; names,
/// kinds and the contents of every other inode are as before.
pub open spec fn rewritten(disk: Disk, end: Disk, sb: Superblock, index: int, images: Seq<Seq<u8>>) -> bool {
    let t = soundness::tables_of(disk, sb);
    let n = soundness::tables_of(end, sb);
    &&& soundness::sound_on(end, sb)
    &&& n.entries == t.entries
    &&& soundness::same_kinds(t.inodes, n.inodes)
    &&& images_of(end, n.inodes[index]) == images
    &&& forall|j: int|
        0 <= j < t.inodes.len() && j != index ==> #[trigger] n.inodes[j] == t.inodes[j]
            && images_of(end, n.inodes[j]) == images_of(disk, t.inodes[j])
}

/// Writes to distinct blocks leave each with its own contents and the others alone.
pub proof fn lemma_paired(disk: Disk, blocks: Seq<u64>, images: Seq<Seq<u8>>)
    requires
        blocks.no_duplicates(),
        images.len() == blocks.len(),
        forall|i: int| 0 <= i < blocks.len() ==> (#[trigger] blocks[i]) < disk.len(),
    ensures
        recovery::applied(disk, file_blocks::paired(blocks, images)).len() == disk.len(),
        forall|i: int|
            0 <= i < blocks.len() ==> recovery::applied(
                disk,
                file_blocks::paired(blocks, images),
            )[(#[trigger] blocks[i]) as int] == images[i],
        forall|x: int|
            0 <= x < disk.len() && (forall|i: int| 0 <= i < blocks.len() ==> #[trigger] blocks[i] != x)
                ==> #[trigger] recovery::applied(disk, file_blocks::paired(blocks, images))[x]
                == disk[x],
    decreases blocks.len(),
{
    let writes = file_blocks::paired(blocks, images);
    if blocks.len() > 0 {
        let front = blocks.drop_last();
        let n = blocks.len() - 1;
        assert(writes.drop_last() =~= file_blocks::paired(front, images.drop_last()));
        assert(forall|i: int| 0 <= i < n ==> #[trigger] front[i] == blocks[i]);
        lemma_paired(disk, front, images.drop_last());
        let before = recovery::applied(disk, writes.drop_last());
        assert(recovery::applied(disk, writes) == before.update(blocks[n] as int, images[n]));
        assert forall|i: int| 0 <= i < blocks.len() implies recovery::applied(disk, writes)[(
        #[trigger] blocks[i]) as int] == images[i] by {
            if i < n {
                assert(blocks[i] != blocks[n]);
                assert(before[front[i] as int] == images.drop_last()[i]);
            }
        }
        assert forall|x: int|
            0 <= x < disk.len() && (forall|i: int|
                0 <= i < blocks.len() ==> #[trigger] blocks[i] != x) implies #[trigger] recovery::applied(
            disk,
            writes,
        )[x] == disk[x] by {
            assert(blocks[n] != x);
            assert forall|i: int| 0 <= i < front.len() implies #[trigger] front[i] != x by {
                assert(blocks[i] != x);
            }
        }
    }
}

/// Every stored block of a mapping is in use.
pub proof fn lemma_mapped_owned(a: AllocView, inodes: Seq<InodeView>, j: int, m: int)
    requires
        fsck::sound_ownership(a, inodes),
        0 <= j < inodes.len(),
        0 <= m < inodes[j].blocks.len(),
    ensures
        inodes[j].blocks[m] != SPARSE_HOLE_BLOCK ==> a.owns(inodes[j].blocks[m]),
{
    let block = inodes[j].blocks[m];
    let none = InodeView { blocks: Seq::empty(), ..inodes[j] };
    ownership::lemma_count_update(inodes, j, none, block);
    ownership::lemma_occurrences_contains(inodes[j].blocks, block);
    assert(inodes[j].blocks.contains(block));
    ownership::lemma_ownership_by_count(a, inodes);
    if block != SPARSE_HOLE_BLOCK {
        assert(create_data_tx::reference_count(inodes, block) <= 1);
    }
}

/// No stored block belongs to two inodes.
pub proof fn lemma_sole_owner(a: AllocView, inodes: Seq<InodeView>, i: int, k: int, j: int, m: int)
    requires
        fsck::sound_ownership(a, inodes),
        0 <= i < inodes.len(),
        0 <= j < inodes.len(),
        i != j,
        0 <= k < inodes[i].blocks.len(),
        0 <= m < inodes[j].blocks.len(),
        inodes[i].blocks[k] != SPARSE_HOLE_BLOCK,
    ensures
        inodes[i].blocks[k] != inodes[j].blocks[m],
{
    let block = inodes[i].blocks[k];
    if inodes[j].blocks[m] == block {
        let none = InodeView { blocks: Seq::empty(), ..inodes[i] };
        let rest = inodes.update(i, none);
        ownership::lemma_count_update(inodes, i, none, block);
        ownership::lemma_count_update(rest, j, none, block);
        ownership::lemma_occurrences_contains(inodes[i].blocks, block);
        ownership::lemma_occurrences_contains(rest[j].blocks, block);
        assert(inodes[i].blocks.contains(block));
        assert(rest[j].blocks.contains(block));
        ownership::lemma_ownership_by_count(a, inodes);
        assert(create_data_tx::reference_count(inodes, block) <= 1);
    }
}

/// Writes to blocks that nobody uses leave the contents of every inode alone.
pub proof fn lemma_unused_writes(disk: Disk, end: Disk, sb: Superblock, a: AllocView, inodes: Seq<InodeView>, blocks: Seq<u64>, images: Seq<Seq<u8>>)
    requires
        fsck::sound_ownership(a, inodes),
        a.wf(),
        allocation_disk::matches_geometry(sb, a),
        sb.fits(disk),
        blocks.no_duplicates(),
        images.len() == blocks.len(),
        forall|i: int|
            0 <= i < blocks.len() ==> a.covers(#[trigger] blocks[i]) && !a.owns(blocks[i]),
        forall|x: int|
            sb.data_start() <= x < disk.len() ==> #[trigger] end[x] == recovery::applied(
                disk,
                file_blocks::paired(blocks, images),
            )[x],
    ensures
        forall|i: int|
            0 <= i < blocks.len() ==> end[(#[trigger] blocks[i]) as int] == images[i],
        forall|j: int, m: int|
            0 <= j < inodes.len() && 0 <= m < inodes[j].blocks.len() ==> block_image(
                end,
                #[trigger] inodes[j].blocks[m],
            ) == block_image(disk, inodes[j].blocks[m]),
{
    lemma_paired(disk, blocks, images);
    assert forall|i: int| 0 <= i < blocks.len() implies end[(#[trigger] blocks[i]) as int]
        == images[i] by {
        assert(a.covers(blocks[i]));
    }
    assert forall|j: int, m: int|
        0 <= j < inodes.len() && 0 <= m < inodes[j].blocks.len() implies block_image(
        end,
        #[trigger] inodes[j].blocks[m],
    ) == block_image(disk, inodes[j].blocks[m]) by {
        let block = inodes[j].blocks[m];
        lemma_mapped_owned(a, inodes, j, m);
        if block != SPARSE_HOLE_BLOCK {
            assert forall|i: int| 0 <= i < blocks.len() implies #[trigger] blocks[i] != block by {
                assert(!a.owns(blocks[i]));
            }
            assert(a.covers(block));
        }
    }
}

/// A range of a file exchanged for fresh blocks: the file holds the new contents in place of that
/// range, and nothing else changes.
pub proof fn law_splice(
    disk: Disk,
    sb: Superblock,
    index: int,
    start: int,
    end: int,
    images: Seq<Seq<u8>>,
    contiguous: bool,
)
    requires
        soundness::sound_on(disk, sb),
        0 <= index < soundness::tables_of(disk, sb).inodes.len(),
        0 <= start <= end <= soundness::tables_of(disk, sb).inodes[index].blocks.len(),
        forall|i: int| 0 <= i < images.len() ==> (#[trigger] images[i]).len() == BLOCK_SIZE,
        file_blocks::splice_step(
            disk,
            sb,
            soundness::tables_of(disk, sb).allocator,
            soundness::tables_of(disk, sb).inodes,
            index,
            start,
            end,
            images,
            contiguous,
        ).result is Ok,
    ensures
        ({
            let t = soundness::tables_of(disk, sb);
            let before = images_of(disk, t.inodes[index]);
            let s = file_blocks::splice(
                t.allocator,
                t.inodes[index],
                start,
                end,
                images.len(),
                contiguous,
            )->Ok_0;
            let after = file_blocks::splice_step(
                disk,
                sb,
                t.allocator,
                t.inodes,
                index,
                start,
                end,
                images,
                contiguous,
            ).disk;
            &&& rewritten(
                disk,
                after,
                sb,
                index,
                before.subrange(0, start) + images + before.subrange(end, before.len() as int),
            )
            &&& soundness::tables_of(after, sb) == (soundness::Tables {
                allocator: s.allocator,
                inodes: t.inodes.update(index, s.inode),
                entries: t.entries,
            })
            &&& after == disk || journal_region::log_on(after, sb) == Some(
                Seq::<EntryView>::empty(),
            )
        }),
{
    let t = soundness::tables_of(disk, sb);
    let inode = t.inodes[index];
    soundness::lemma_sound_parts(disk, sb);
    let s = file_blocks::splice(t.allocator, inode, start, end, images.len(), contiguous)->Ok_0;
    let next = t.inodes.update(index, s.inode);
    let u = Update {
        allocator: Some(s.allocator),
        inodes: Some(next),
        entries: None,
        data: file_blocks::paired(s.fresh, images),
    };
    let after = update::settled_update_step(disk, sb, u, true).disk;
    ownership::lemma_fresh(t.allocator, images.len(), contiguous);
    ownership::law_splice_keeps_ownership(
        t.allocator,
        t.inodes,
        index,
        start,
        end,
        images.len(),
        contiguous,
    );
    soundness::lemma_same_namespace(t.inodes, next, t.entries);
    assert forall|k: int| 0 <= k < u.data.len() implies sb.data_start() <= (#[trigger] u.data[k]).0
        < sb.total_blocks && u.data[k].1.len() == BLOCK_SIZE by {
        assert(t.allocator.covers(s.fresh[k]));
    }
    soundness::law_sound_update(disk, sb, u, true);
    update::law_settled_update(disk, sb, u, true);
    lemma_unused_writes(disk, after, sb, t.allocator, t.inodes, s.fresh, images);
    let before = images_of(disk, inode);
    let wanted = before.subrange(0, start) + images + before.subrange(end, before.len() as int);
    assert(images_of(after, next[index]) =~= wanted) by {
        assert(s.inode.blocks.len() == wanted.len());
        assert forall|i: int| 0 <= i < wanted.len() implies block_image(
            after,
            #[trigger] s.inode.blocks[i],
        ) == wanted[i] by {
            if i < start {
                assert(s.inode.blocks[i] == t.inodes[index].blocks[i]);
            } else if i < start + images.len() {
                assert(s.inode.blocks[i] == s.fresh[i - start]);
                assert(t.allocator.covers(s.fresh[i - start]));
            } else {
                let k = i - start - images.len() + end;
                assert(s.inode.blocks[i] == t.inodes[index].blocks[k]);
            }
        }
    }
    assert forall|j: int| 0 <= j < t.inodes.len() && j != index implies #[trigger] next[j]
        == t.inodes[j] && images_of(after, next[j]) == images_of(disk, t.inodes[j]) by {
        assert(images_of(after, t.inodes[j]) =~= images_of(disk, t.inodes[j]));
    }
}

/// One inode changed, with blocks taken and released as it needs: where the writes stay away from
/// the blocks of every other inode, it alone holds something new.
pub proof fn lemma_file_update(
    disk: Disk,
    sb: Superblock,
    index: int,
    inode: InodeView,
    u: Update,
    always: bool,
    images: Seq<Seq<u8>>,
)
    requires
        soundness::sound_on(disk, sb),
        0 <= index < soundness::tables_of(disk, sb).inodes.len(),
        inode.id == soundness::tables_of(disk, sb).inodes[index].id,
        inode.kind == soundness::tables_of(disk, sb).inodes[index].kind,
        inode_codec::exact(inode),
        u.inodes == Some(soundness::tables_of(disk, sb).inodes.update(index, inode)) || (
        u.inodes is None && inode == soundness::tables_of(disk, sb).inodes[index]),
        u.entries is None || u.entries == Some(soundness::tables_of(disk, sb).entries),
        ownership::exact_ownership(
            match u.allocator {
                Some(a) => a,
                None => soundness::tables_of(disk, sb).allocator,
            },
            soundness::tables_of(disk, sb).inodes.update(index, inode),
        ),
        update::data_only(sb, u.data),
        update::settled_update_step(disk, sb, u, always).result is Ok,
        forall|k: int, j: int, m: int|
            #![trigger u.data[k], soundness::tables_of(disk, sb).inodes[j].blocks[m]]
            0 <= k < u.data.len() && 0 <= j < soundness::tables_of(disk, sb).inodes.len() && j
                != index && 0 <= m < soundness::tables_of(disk, sb).inodes[j].blocks.len()
                ==> u.data[k].0 != soundness::tables_of(disk, sb).inodes[j].blocks[m],
        images.len() == inode.blocks.len(),
        forall|i: int|
            0 <= i < images.len() ==> block_image(
                recovery::applied(disk, u.data),
                #[trigger] inode.blocks[i],
            ) == images[i],
    ensures
        rewritten(
            disk,
            update::settled_update_step(disk, sb, u, always).disk,
            sb,
            index,
            images,
        ),
        soundness::tables_of(
            update::settled_update_step(disk, sb, u, always).disk,
            sb,
        ).inodes[index] == inode,
        soundness::tables_of(
            update::settled_update_step(disk, sb, u, always).disk,
            sb,
        ).allocator == soundness::tables_after(soundness::tables_of(disk, sb), u).allocator,
{
    let t = soundness::tables_of(disk, sb);
    let next = t.inodes.update(index, inode);
    let n = soundness::tables_after(t, u);
    let end = update::settled_update_step(disk, sb, u, always).disk;
    let replayed = recovery::applied(disk, u.data);
    soundness::lemma_sound_parts(disk, sb);
    soundness::lemma_same_namespace(t.inodes, next, t.entries);
    assert(n.inodes =~= next);
    soundness::law_sound_update(disk, sb, u, always);
    soundness::lemma_sound_parts(end, sb);
    assert forall|i: int| 0 <= i < images.len() implies block_image(end, #[trigger] inode.blocks[i])
        == images[i] by {
        lemma_mapped_owned(n.allocator, next, index, i);
        assert(next[index] == inode);
    }
    assert(images_of(end, inode) =~= images);
    assert forall|j: int| 0 <= j < t.inodes.len() && j != index implies #[trigger] next[j]
        == t.inodes[j] && images_of(end, next[j]) == images_of(disk, t.inodes[j]) by {
        assert forall|m: int| 0 <= m < t.inodes[j].blocks.len() implies block_image(
            end,
            #[trigger] t.inodes[j].blocks[m],
        ) == block_image(disk, t.inodes[j].blocks[m]) by {
            let block = t.inodes[j].blocks[m];
            lemma_mapped_owned(t.allocator, t.inodes, j, m);
            recovery::lemma_applied(disk, u.data);
            if block != SPARSE_HOLE_BLOCK && recovery::targets(u.data, block as int) {
                let k = choose|k: int| 0 <= k < u.data.len() && (#[trigger] u.data[k]).0 == block;
                assert(u.data[k].0 != t.inodes[j].blocks[m]);
            }
        }
        assert(images_of(end, t.inodes[j]) =~= images_of(disk, t.inodes[j]));
    }
}

/// The writes to blocks whose contents differ leave each block with its new contents.
pub proof fn lemma_differing(disk: Disk, blocks: Seq<u64>, before: Seq<Seq<u8>>, after: Seq<Seq<u8>>)
    requires
        blocks.no_duplicates(),
        before.len() >= blocks.len(),
        after.len() >= blocks.len(),
        forall|i: int| 0 <= i < blocks.len() ==> (#[trigger] blocks[i]) < disk.len(),
        forall|i: int| 0 <= i < blocks.len() ==> disk[(#[trigger] blocks[i]) as int] == before[i],
    ensures
        recovery::applied(disk, file_blocks::differing(blocks, before, after)).len() == disk.len(),
        forall|i: int|
            0 <= i < blocks.len() ==> recovery::applied(
                disk,
                file_blocks::differing(blocks, before, after),
            )[(#[trigger] blocks[i]) as int] == after[i],
        forall|k: int|
            0 <= k < file_blocks::differing(blocks, before, after).len() ==> exists|i: int|
                0 <= i < blocks.len() && (#[trigger] blocks[i], after[i]) == (
                #[trigger] file_blocks::differing(blocks, before, after)[k]),
    decreases blocks.len(),
{
    let writes = file_blocks::differing(blocks, before, after);
    if blocks.len() > 0 {
        let front = blocks.drop_last();
        let n = blocks.len() - 1;
        let earlier = file_blocks::differing(front, before, after);
        assert(forall|i: int| 0 <= i < n ==> #[trigger] front[i] == blocks[i]);
        lemma_differing(disk, front, before, after);
        assert forall|k: int| 0 <= k < writes.len() implies exists|i: int|
            0 <= i < blocks.len() && (#[trigger] blocks[i], after[i]) == (#[trigger] writes[k]) by {
            if k < earlier.len() {
                assert(writes[k] == earlier[k]);
                let i = choose|i: int|
                    0 <= i < front.len() && (#[trigger] front[i], after[i]) == earlier[k];
                assert((blocks[i], after[i]) == writes[k]);
            } else {
                assert((blocks[n], after[n]) == writes[k]);
            }
        }
        assert(!recovery::targets(earlier, blocks[n] as int)) by {
            if recovery::targets(earlier, blocks[n] as int) {
                let k = choose|k: int|
                    0 <= k < earlier.len() && (#[trigger] earlier[k]).0 == blocks[n];
                let i = choose|i: int|
                    0 <= i < front.len() && (#[trigger] front[i], after[i]) == earlier[k];
                assert(blocks[i] != blocks[n]);
            }
        }
        assert forall|k: int| 0 <= k < earlier.len() implies (#[trigger] earlier[k]).0
            < disk.len() by {
            let i = choose|i: int|
                0 <= i < front.len() && (#[trigger] front[i], after[i]) == earlier[k];
        }
        recovery::lemma_applied(disk, earlier);
        let mid = recovery::applied(disk, earlier);
        if before[n] != after[n] {
            assert(writes.drop_last() =~= earlier);
        }
        assert forall|i: int| 0 <= i < blocks.len() implies recovery::applied(disk, writes)[(
        #[trigger] blocks[i]) as int] == after[i] by {
            if i < n {
                assert(blocks[i] != blocks[n]);
                assert(mid[front[i] as int] == after[i]);
            }
        }
    }
}

/// Writes alone as an update.
pub open spec fn data_update(writes: Seq<HomeWrite>) -> Update {
    Update { allocator: None, inodes: None, entries: None, data: writes }
}

/// A transaction of writes is an update of data alone.
pub proof fn lemma_data_update(disk: Disk, sb: Superblock, writes: Seq<HomeWrite>)
    requires
        sb.fits(disk),
    ensures
        update::settled_update_step(disk, sb, data_update(writes), true)
            == transaction::commit_settled_step(disk, sb, writes),
{
    reveal(update::settled_update_step);
    let none = Seq::<HomeWrite>::empty();
    assert(none + none + none + writes =~= writes);
}

/// The device stays sound, and the files at `i` and `j` of the inode table now hold `first` and
/// `second`; names, kinds and the contents of every other inode are as before.
pub open spec fn rewritten_pair(disk: Disk, end: Disk, sb: Superblock, i: int, first: Seq<Seq<u8>>, j: int, second: Seq<Seq<u8>>) -> bool {
    let t = soundness::tables_of(disk, sb);
    let n = soundness::tables_of(end, sb);
    &&& soundness::sound_on(end, sb)
    &&& n.entries == t.entries
    &&& soundness::same_kinds(t.inodes, n.inodes)
    &&& images_of(end, n.inodes[i]) == first
    &&& images_of(end, n.inodes[j]) == second
    &&& forall|k: int|
        0 <= k < t.inodes.len() && k != i && k != j ==> #[trigger] n.inodes[k] == t.inodes[k]
            && images_of(end, n.inodes[k]) == images_of(disk, t.inodes[k])
}

/// Two mappings changed without a write: the files hold what the blocks of their new mappings held.
pub proof fn lemma_pair_update(disk: Disk, sb: Superblock, i: int, x: InodeView, j: int, y: InodeView, u: Update, always: bool)
    requires
        soundness::sound_on(disk, sb),
        0 <= i < soundness::tables_of(disk, sb).inodes.len(),
        0 <= j < soundness::tables_of(disk, sb).inodes.len(),
        i != j,
        x.id == soundness::tables_of(disk, sb).inodes[i].id,
        x.kind == soundness::tables_of(disk, sb).inodes[i].kind,
        y.id == soundness::tables_of(disk, sb).inodes[j].id,
        y.kind == soundness::tables_of(disk, sb).inodes[j].kind,
        inode_codec::exact(x),
        inode_codec::exact(y),
        u.inodes == Some(soundness::tables_of(disk, sb).inodes.update(i, x).update(j, y)),
        u.entries is None,
        u.data == Seq::<HomeWrite>::empty(),
        ownership::exact_ownership(
            match u.allocator {
                Some(a) => a,
                None => soundness::tables_of(disk, sb).allocator,
            },
            soundness::tables_of(disk, sb).inodes.update(i, x).update(j, y),
        ),
        update::settled_update_step(disk, sb, u, always).result is Ok,
    ensures
        rewritten_pair(
            disk,
            update::settled_update_step(disk, sb, u, always).disk,
            sb,
            i,
            images_of(disk, x),
            j,
            images_of(disk, y),
        ),
        soundness::tables_of(
            update::settled_update_step(disk, sb, u, always).disk,
            sb,
        ).inodes == soundness::tables_of(disk, sb).inodes.update(i, x).update(j, y),
        soundness::tables_of(
            update::settled_update_step(disk, sb, u, always).disk,
            sb,
        ).allocator == soundness::tables_after(soundness::tables_of(disk, sb), u).allocator,
{
    let t = soundness::tables_of(disk, sb);
    let next = t.inodes.update(i, x).update(j, y);
    let n = soundness::tables_after(t, u);
    let end = update::settled_update_step(disk, sb, u, always).disk;
    soundness::lemma_sound_parts(disk, sb);
    soundness::lemma_same_namespace(t.inodes, next, t.entries);
    soundness::law_sound_update(disk, sb, u, always);
    soundness::lemma_sound_parts(end, sb);
    assert forall|k: int| 0 <= k < next.len() implies images_of(end, #[trigger] next[k])
        == images_of(disk, next[k]) by {
        assert forall|m: int| 0 <= m < next[k].blocks.len() implies block_image(
            end,
            #[trigger] next[k].blocks[m],
        ) == block_image(disk, next[k].blocks[m]) by {
            lemma_mapped_owned(n.allocator, next, k, m);
        }
        assert(images_of(end, next[k]) =~= images_of(disk, next[k]));
    }
    assert(next[i] == x);
    assert(next[j] == y);
}

/// The contents of a mapping with a range replaced.
pub proof fn lemma_spliced_images(disk: Disk, inode: InodeView, start: int, end: int, replacements: Seq<u64>)
    requires
        0 <= start <= end <= inode.blocks.len(),
        inode_codec::replaced_range(inode, start, end, replacements) is Some,
    ensures
        ({
            let next = inode_codec::replaced_range(inode, start, end, replacements)->Some_0;
            let before = images_of(disk, inode);
            &&& next.id == inode.id
            &&& next.kind == inode.kind
            &&& inode_codec::exact(next)
            &&& images_of(disk, next) == before.subrange(0, start) + images_of(
                disk,
                InodeView { blocks: replacements, ..inode },
            ) + before.subrange(end, before.len() as int)
        }),
{
    let next = inode_codec::replaced_range(inode, start, end, replacements)->Some_0;
    let before = images_of(disk, inode);
    let middle = images_of(disk, InodeView { blocks: replacements, ..inode });
    assert(images_of(disk, next) =~= before.subrange(0, start) + middle + before.subrange(
        end,
        before.len() as int,
    ));
}

/// The byte at position `p` of a file.
pub open spec fn byte_at(disk: Disk, inode: InodeView, p: int) -> u8 {
    block_image(disk, inode.blocks[p / (BLOCK_SIZE as int)])[p % (BLOCK_SIZE as int)]
}

/// Every block of a disk is full.
pub open spec fn full_blocks(disk: Disk) -> bool {
    forall|i: int| 0 <= i < disk.len() ==> (#[trigger] disk[i]).len() == BLOCK_SIZE
}

/// The device stays sound, and only the file at `index` of the inode table changes.
pub open spec fn only_changed(disk: Disk, end: Disk, sb: Superblock, index: int) -> bool {
    rewritten(
        disk,
        end,
        sb,
        index,
        images_of(end, soundness::tables_of(end, sb).inodes[index]),
    )
}

/// A block that nobody uses, or that belongs to the file at `index`, belongs to no other inode.
pub proof fn lemma_stays_clear(a: AllocView, inodes: Seq<InodeView>, index: int, block: u64, j: int, m: int)
    requires
        fsck::sound_ownership(a, inodes),
        a.first > 0,
        0 <= index < inodes.len(),
        0 <= j < inodes.len(),
        j != index,
        0 <= m < inodes[j].blocks.len(),
        block != SPARSE_HOLE_BLOCK,
        !a.owns(block) || inodes[index].blocks.contains(block),
    ensures
        block != inodes[j].blocks[m],
{
    lemma_mapped_owned(a, inodes, j, m);
    if inodes[index].blocks.contains(block) {
        let k = choose|k: int| 0 <= k < inodes[index].blocks.len() && inodes[index].blocks[k]
            == block;
        lemma_sole_owner(a, inodes, index, k, j, m);
    }
}

/// The contents of blocks in use are what the mapping shows.
pub proof fn lemma_snapshot(disk: Disk, sb: Superblock, index: int, start: int, end: int)
    requires
        soundness::sound_on(disk, sb),
        full_blocks(disk),
        0 <= index < soundness::tables_of(disk, sb).inodes.len(),
        0 <= start <= end <= soundness::tables_of(disk, sb).inodes[index].blocks.len(),
    ensures
        ({
            let t = soundness::tables_of(disk, sb);
            let blocks = t.inodes[index].blocks.subrange(start, end);
            file_blocks::snapshot(disk, t.allocator, blocks) matches Some(images) ==> images
                == images_of(disk, t.inodes[index]).subrange(start, end) && forall|i: int|
                0 <= i < images.len() ==> (#[trigger] images[i]).len() == BLOCK_SIZE
        }),
{
    let t = soundness::tables_of(disk, sb);
    let blocks = t.inodes[index].blocks.subrange(start, end);
    soundness::lemma_sound_parts(disk, sb);
    if let Some(images) = file_blocks::snapshot(disk, t.allocator, blocks) {
        assert forall|i: int| 0 <= i < images.len() implies (#[trigger] images[i]).len()
            == BLOCK_SIZE && images[i] == images_of(disk, t.inodes[index])[start + i] by {
            assert(t.allocator.owns(blocks[i]));
        }
        assert(images =~= images_of(disk, t.inodes[index]).subrange(start, end));
    }
}

/// The blocks from `start` to `stop` of the file at `index`, which were `gone`, gave way to the
/// blocks `fresh`, none of which was in use, and these hold `images`. The end of the file moved by
/// as many blocks as the file has more or fewer now. Nothing else changed.
pub open spec fn exchanged_range(
    disk: Disk,
    end: Disk,
    sb: Superblock,
    index: int,
    start: int,
    stop: int,
    images: Seq<Seq<u8>>,
    fresh: Seq<u64>,
    gone: Seq<u64>,
) -> bool {
    let t = soundness::tables_of(disk, sb);
    let x = t.inodes[index];
    let y = soundness::tables_of(end, sb).inodes[index];
    let before = images_of(disk, x);
    &&& 0 <= start <= stop <= x.blocks.len()
    &&& rewritten(
        disk,
        end,
        sb,
        index,
        before.subrange(0, start) + images + before.subrange(stop, before.len() as int),
    )
    &&& fresh.len() == images.len()
    &&& y.blocks.subrange(start, start + fresh.len()) == fresh
    &&& x.blocks.subrange(start, stop) == gone
    &&& y.blocks.subrange(0, start) == x.blocks.subrange(0, start)
    &&& y.blocks.subrange(start + fresh.len(), y.blocks.len() as int) == x.blocks.subrange(
        stop,
        x.blocks.len() as int,
    )
    &&& y.byte_len == if y.blocks.len() == 0 {
        0
    } else {
        x.byte_len + (images.len() - (stop - start)) * BLOCK_SIZE
    }
    &&& forall|k: int| 0 <= k < fresh.len() ==> !t.allocator.owns(#[trigger] fresh[k])
}

/// A range of a file exchanged for fresh blocks: the blocks that are handed back are those that the
/// range now has, in one run where that was asked for, and those that it had.
pub proof fn law_splice_lists(
    disk: Disk,
    sb: Superblock,
    index: int,
    start: int,
    end: int,
    images: Seq<Seq<u8>>,
    contiguous: bool,
)
    requires
        soundness::sound_on(disk, sb),
        0 <= index < soundness::tables_of(disk, sb).inodes.len(),
        soundness::tables_of(disk, sb).inodes[index].kind == crate::inode::InodeKind::File,
        0 <= start <= end <= soundness::tables_of(disk, sb).inodes[index].blocks.len(),
        forall|i: int| 0 <= i < images.len() ==> (#[trigger] images[i]).len() == BLOCK_SIZE,
        file_blocks::splice_step(
            disk,
            sb,
            soundness::tables_of(disk, sb).allocator,
            soundness::tables_of(disk, sb).inodes,
            index,
            start,
            end,
            images,
            contiguous,
        ).result is Ok,
    ensures
        ({
            let t = soundness::tables_of(disk, sb);
            let step = file_blocks::splice_step(
                disk,
                sb,
                t.allocator,
                t.inodes,
                index,
                start,
                end,
                images,
                contiguous,
            );
            let (fresh, gone, _) = step.result->Ok_0;
            &&& exchanged_range(disk, step.disk, sb, index, start, end, images, fresh, gone)
            &&& contiguous ==> path_contiguous_defrag::consecutive(fresh)
        }),
{
    let t = soundness::tables_of(disk, sb);
    let x = t.inodes[index];
    let s = file_blocks::splice(t.allocator, x, start, end, images.len(), contiguous)->Ok_0;
    law_splice(disk, sb, index, start, end, images, contiguous);
    soundness::lemma_sound_parts(disk, sb);
    ownership::lemma_fresh(t.allocator, images.len(), contiguous);
    assert(inode_codec::exact(x));
    let y = s.inode;
    assert(y.blocks == inode_codec::spliced(x.blocks, start, end, s.fresh));
    assert(y.blocks.subrange(start, start + s.fresh.len()) =~= s.fresh);
    assert(y.blocks.subrange(0, start) =~= x.blocks.subrange(0, start));
    assert(y.blocks.subrange(start + s.fresh.len(), y.blocks.len() as int) =~= x.blocks.subrange(
        end,
        x.blocks.len() as int,
    ));
    if contiguous {
        lemma_fresh_run(t.allocator, images.len());
    }
}

/// A run of blocks is consecutive.
pub proof fn lemma_fresh_run(a: AllocView, count: nat)
    requires
        a.wf(),
    ensures
        file_blocks::fresh_blocks(a, count, true) matches Some((b, fresh))
            ==> path_contiguous_defrag::consecutive(fresh),
{
    if count > 0 {
        crate::allocation::law_taking_run(a, count);
    }
}

/// A range of a file that is removed: what is left of its mapping and where the file ends then.
pub proof fn lemma_removed_range(disk: Disk, end: Disk, sb: Superblock, index: int, start: int, stop: int)
    requires
        soundness::sound_on(disk, sb),
        0 <= index < soundness::tables_of(disk, sb).inodes.len(),
        soundness::tables_of(disk, sb).inodes[index].kind == crate::inode::InodeKind::File,
        0 <= start <= stop <= soundness::tables_of(disk, sb).inodes[index].blocks.len(),
        inode_codec::replaced_range(
            soundness::tables_of(disk, sb).inodes[index],
            start,
            stop,
            Seq::empty(),
        ) == Some(soundness::tables_of(end, sb).inodes[index]),
        only_changed(disk, end, sb, index),
        images_of(end, soundness::tables_of(end, sb).inodes[index]) == images_of(
            disk,
            soundness::tables_of(disk, sb).inodes[index],
        ).subrange(0, start) + images_of(disk, soundness::tables_of(disk, sb).inodes[index]).subrange(
            stop,
            soundness::tables_of(disk, sb).inodes[index].blocks.len() as int,
        ),
    ensures
        exchanged_range(
            disk,
            end,
            sb,
            index,
            start,
            stop,
            Seq::empty(),
            Seq::empty(),
            soundness::tables_of(disk, sb).inodes[index].blocks.subrange(start, stop),
        ),
{
    let x = soundness::tables_of(disk, sb).inodes[index];
    let y = soundness::tables_of(end, sb).inodes[index];
    let before = images_of(disk, x);
    soundness::lemma_sound_parts(disk, sb);
    assert(inode_codec::exact(x));
    assert(y.blocks == inode_codec::spliced(x.blocks, start, stop, Seq::empty()));
    assert(y.blocks.subrange(start, start) =~= Seq::<u64>::empty());
    assert(y.blocks.subrange(0, start) =~= x.blocks.subrange(0, start));
    assert(y.blocks.subrange(start, y.blocks.len() as int) =~= x.blocks.subrange(
        stop,
        x.blocks.len() as int,
    ));
    assert(before.subrange(0, start) + before.subrange(stop, before.len() as int)
        =~= before.subrange(0, start) + Seq::<Seq<u8>>::empty() + before.subrange(
        stop,
        before.len() as int,
    ));
}

} // verus!
