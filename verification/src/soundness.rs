//! What every request keeps: a device that passes a strict inspection passes it afterwards.

use vstd::prelude::*;
use crate::allocation;
use crate::allocation::AllocView;
use crate::allocation_disk;
use crate::block::Disk;
use crate::directory_codec::DirEntryView;
use crate::directory_table;
use crate::error::ErrorKind;
use crate::file_blocks;
use crate::format::Superblock;
use crate::fsck;
use crate::inode_codec;
use crate::inode_codec::InodeView;
use crate::inode_table;
use crate::journal_region;
use crate::namespace;
use crate::ownership;
use crate::update;
use crate::update::Update;

verus! {

/// The device carries this superblock and passes a strict inspection.
pub open spec fn sound_on(disk: Disk, sb: Superblock) -> bool {
    crate::format::superblock_on(disk) == Some(sb) && fsck::checked(disk) is Ok
}

/// The tables of a device.
pub struct Tables {
    pub allocator: AllocView,
    pub inodes: Seq<InodeView>,
    pub entries: Seq<DirEntryView>,
}

/// The device holds these tables.
pub open spec fn holds_tables(disk: Disk, sb: Superblock, t: Tables) -> bool {
    &&& allocation_disk::allocator_on(disk, sb) == Ok::<AllocView, ErrorKind>(t.allocator)
    &&& inode_table::inodes_on(disk, sb) == Ok::<Seq<InodeView>, ErrorKind>(t.inodes)
    &&& directory_table::entries_on(disk, sb) == Ok::<Seq<DirEntryView>, ErrorKind>(t.entries)
}

/// The tables agree: every block in use is referenced exactly once, and every inode has a path.
pub open spec fn sound_tables(t: Tables) -> bool {
    ownership::exact_ownership(t.allocator, t.inodes) && fsck::strict_namespace(t.inodes, t.entries)
}

proof fn lemma_unreferenced(a: AllocView, referenced: Seq<u64>, count: nat, block: u64)
    requires
        a.wf(),
        count <= a.owned.len(),
    ensures
        fsck::unreferenced(a, referenced, count).contains(block) <==> a.first <= block < a.first
            + count && a.owns(block) && !referenced.contains(block),
    decreases count,
{
    if count > 0 {
        let front = fsck::unreferenced(a, referenced, (count - 1) as nat);
        let all = fsck::unreferenced(a, referenced, count);
        let last = (a.first + count - 1) as u64;
        lemma_unreferenced(a, referenced, (count - 1) as nat, block);
        if a.owned[count - 1] && !referenced.contains(last) {
            if front.contains(block) {
                let i = choose|i: int| 0 <= i < front.len() && front[i] == block;
                assert(all[i] == block);
            }
            if block == last {
                assert(all[all.len() - 1] == block);
            }
            if all.contains(block) && block != last {
                let i = choose|i: int| 0 <= i < all.len() && all[i] == block;
                assert(front[i] == block);
            }
        }
    }
}

/// The orphaned blocks are those in use that no inode references.
pub proof fn law_orphaned_blocks(a: AllocView, inodes: Seq<InodeView>)
    requires
        a.wf(),
    ensures
        forall|block: u64| #[trigger]
            fsck::orphaned_blocks(a, inodes).contains(block) <==> a.owns(block)
                && !fsck::references(inodes).contains(block),
        fsck::sound_ownership(a, inodes) ==> (ownership::exact_ownership(a, inodes)
            <==> fsck::orphaned_blocks(a, inodes).len() == 0),
{
    let orphaned = fsck::orphaned_blocks(a, inodes);
    assert forall|block: u64| #[trigger]
        orphaned.contains(block) <==> a.owns(block) && !fsck::references(inodes).contains(block) by {
        lemma_unreferenced(a, fsck::references(inodes), a.owned.len(), block);
    }
    if orphaned.len() > 0 {
        assert(orphaned.contains(orphaned[0]));
        assert(a.owns(orphaned[0]));
    } else {
        assert forall|block: u64| #[trigger] a.owns(block) implies fsck::references(
            inodes,
        ).contains(block) by {
            assert(!orphaned.contains(block));
        }
    }
}

/// A device passes a strict inspection where its journal is intact and its tables agree, and only
/// there.
pub proof fn law_sound(disk: Disk, sb: Superblock)
    requires
        crate::format::superblock_on(disk) == Some(sb),
    ensures
        sound_on(disk, sb) <==> journal_region::image_on(disk, sb) is Ok && exists|t: Tables|
            #[trigger] holds_tables(disk, sb, t) && sound_tables(t),
{
    reveal(fsck::inspected);
    if sound_on(disk, sb) {
        let t = tables_of(disk, sb);
        lemma_allocator_shape(disk, sb);
        law_orphaned_blocks(t.allocator, t.inodes);
        assert(holds_tables(disk, sb, t));
        assert(sound_tables(t));
    }
    if journal_region::image_on(disk, sb) is Ok && exists|t: Tables| #[trigger]
        holds_tables(disk, sb, t) && sound_tables(t) {
        let t = choose|t: Tables| #[trigger] holds_tables(disk, sb, t) && sound_tables(t);
        lemma_allocator_shape(disk, sb);
        law_orphaned_blocks(t.allocator, t.inodes);
        journal_region::lemma_log_admissible(disk, sb);
        allocation::lemma_owned_count(t.allocator.owned);
    }
}

/// The tables that a device holds.
pub open spec fn tables_of(disk: Disk, sb: Superblock) -> Tables {
    Tables {
        allocator: allocation_disk::allocator_on(disk, sb)->Ok_0,
        inodes: inode_table::inodes_on(disk, sb)->Ok_0,
        entries: directory_table::entries_on(disk, sb)->Ok_0,
    }
}

/// The allocation state of a device covers its data blocks.
pub proof fn lemma_allocator_shape(disk: Disk, sb: Superblock)
    ensures
        allocation_disk::allocator_on(disk, sb) matches Ok(a) ==> sb.fits(disk) && a.wf()
            && allocation_disk::matches_geometry(sb, a) && a.first > 0,
{
    reveal(allocation_disk::allocator_on);
}

/// What a device that passes a strict inspection holds.
pub proof fn lemma_sound_parts(disk: Disk, sb: Superblock)
    requires
        sound_on(disk, sb),
    ensures
        holds_tables(disk, sb, tables_of(disk, sb)),
        sound_tables(tables_of(disk, sb)),
        journal_region::image_on(disk, sb) is Ok,
        sb.fits(disk),
        tables_of(disk, sb).allocator.wf(),
        tables_of(disk, sb).allocator.first > 0,
        allocation_disk::matches_geometry(sb, tables_of(disk, sb).allocator),
        file_blocks::tables_on(disk, sb) == Ok::<(AllocView, Seq<InodeView>), ErrorKind>(
            (tables_of(disk, sb).allocator, tables_of(disk, sb).inodes),
        ),
        forall|i: int|
            0 <= i < tables_of(disk, sb).inodes.len() ==> inode_codec::exact(
                #[trigger] tables_of(disk, sb).inodes[i],
            ),
{
    law_sound(disk, sb);
    lemma_allocator_shape(disk, sb);
    inode_table::lemma_inodes_exact(disk, sb);
    let t = choose|t: Tables| #[trigger] holds_tables(disk, sb, t) && sound_tables(t);
    assert(t.allocator == tables_of(disk, sb).allocator);
    assert(t.inodes == tables_of(disk, sb).inodes);
    assert(t.entries == tables_of(disk, sb).entries);
}

/// The tables that an update asks for, and those of `t` where it asks for none.
pub open spec fn tables_after(t: Tables, u: Update) -> Tables {
    Tables {
        allocator: match u.allocator {
            Some(a) => a,
            None => t.allocator,
        },
        inodes: match u.inodes {
            Some(inodes) => inodes,
            None => t.inodes,
        },
        entries: match u.entries {
            Some(entries) => entries,
            None => t.entries,
        },
    }
}

/// An update whose outcome agrees leaves a sound device with these tables and data.
pub proof fn law_update_makes_sound(disk: Disk, sb: Superblock, t: Tables, u: Update, always: bool)
    requires
        crate::format::superblock_on(disk) == Some(sb),
        sb.fits(disk),
        journal_region::image_on(disk, sb) is Ok,
        holds_tables(disk, sb, t),
        update::settled_update_step(disk, sb, u, always).result is Ok,
        update::data_only(sb, u.data),
        sound_tables(tables_after(t, u)),
        forall|i: int|
            0 <= i < tables_after(t, u).inodes.len() ==> inode_codec::exact(
                #[trigger] tables_after(t, u).inodes[i],
            ),
    ensures
        sound_on(update::settled_update_step(disk, sb, u, always).disk, sb),
        tables_of(update::settled_update_step(disk, sb, u, always).disk, sb) == tables_after(t, u),
        update::updated(
            disk,
            update::settled_update_step(disk, sb, u, always).disk,
            sb,
            u,
        ),
{
    let end = update::settled_update_step(disk, sb, u, always).disk;
    let next = tables_after(t, u);
    update::law_settled_update(disk, sb, u, always);
    if let Some(inodes) = u.inodes {
        lemma_canonical_list(inodes);
    }
    assert(holds_tables(end, sb, next));
    assert(crate::format::superblock_on(end) == Some(sb));
    law_sound(end, sb);
}

/// An update of a sound device whose outcome agrees leaves a sound device with these tables and
/// data.
pub proof fn law_sound_update(disk: Disk, sb: Superblock, u: Update, always: bool)
    requires
        sound_on(disk, sb),
        update::settled_update_step(disk, sb, u, always).result is Ok,
        update::data_only(sb, u.data),
        sound_tables(tables_after(tables_of(disk, sb), u)),
        forall|i: int|
            0 <= i < tables_after(tables_of(disk, sb), u).inodes.len() ==> inode_codec::exact(
                #[trigger] tables_after(tables_of(disk, sb), u).inodes[i],
            ),
    ensures
        sound_on(update::settled_update_step(disk, sb, u, always).disk, sb),
        tables_of(update::settled_update_step(disk, sb, u, always).disk, sb) == tables_after(
            tables_of(disk, sb),
            u,
        ),
        update::updated(
            disk,
            update::settled_update_step(disk, sb, u, always).disk,
            sb,
            u,
        ),
{
    lemma_sound_parts(disk, sb);
    law_update_makes_sound(disk, sb, tables_of(disk, sb), u, always);
}

proof fn lemma_canonical_list(inodes: Seq<InodeView>)
    requires
        forall|i: int| 0 <= i < inodes.len() ==> inode_codec::exact(#[trigger] inodes[i]),
    ensures
        inode_table::canonical_inodes(inodes) == inodes,
{
    assert forall|i: int| 0 <= i < inodes.len() implies inode_codec::canonical(#[trigger] inodes[i])
        == inodes[i] by {
        inode_table::lemma_canonical_exact(inodes[i]);
    }
    assert(inode_table::canonical_inodes(inodes) =~= inodes);
}

/// The device carries this superblock, and its journal and its tables can be read.
pub open spec fn readable_on(disk: Disk, sb: Superblock) -> bool {
    &&& crate::format::superblock_on(disk) == Some(sb)
    &&& journal_region::image_on(disk, sb) is Ok
    &&& holds_tables(disk, sb, tables_of(disk, sb))
}

/// What an update of any device does to its tables.
pub proof fn lemma_update_tables(disk: Disk, sb: Superblock, u: Update, always: bool)
    requires
        update::settled_update_step(disk, sb, u, always).result is Ok,
        update::data_only(sb, u.data),
        u.inodes matches Some(inodes) ==> forall|i: int|
            0 <= i < inodes.len() ==> inode_codec::exact(#[trigger] inodes[i]),
    ensures
        tables_of(update::settled_update_step(disk, sb, u, always).disk, sb) == tables_after(
            tables_of(disk, sb),
            u,
        ),
        readable_on(disk, sb) ==> readable_on(
            update::settled_update_step(disk, sb, u, always).disk,
            sb,
        ),
{
    update::law_settled_update(disk, sb, u, always);
    if let Some(inodes) = u.inodes {
        lemma_canonical_list(inodes);
    }
}

/// A readable device with the tables of a sound one is sound.
pub proof fn lemma_sound_again(disk: Disk, end: Disk, sb: Superblock)
    requires
        readable_on(disk, sb) ==> readable_on(end, sb),
        tables_of(end, sb) == tables_of(disk, sb),
    ensures
        sound_on(disk, sb) ==> sound_on(end, sb),
{
    if sound_on(disk, sb) {
        lemma_sound_parts(disk, sb);
        law_sound(end, sb);
    }
}

/// The inodes have the same identifiers and kinds.
pub open spec fn same_kinds(inodes: Seq<InodeView>, next: Seq<InodeView>) -> bool {
    &&& inodes.len() == next.len()
    &&& forall|i: int|
        0 <= i < inodes.len() ==> (#[trigger] next[i]).id == inodes[i].id && next[i].kind
            == inodes[i].kind
}

pub proof fn lemma_same_index(inodes: Seq<InodeView>, next: Seq<InodeView>, id: u64, from: int)
    requires
        same_kinds(inodes, next),
        0 <= from,
    ensures
        file_blocks::index_from(next, id, from) == file_blocks::index_from(inodes, id, from),
    decreases inodes.len() - from,
{
    if from < inodes.len() {
        assert(next[from].id == inodes[from].id);
        lemma_same_index(inodes, next, id, from + 1);
    }
}

proof fn lemma_same_unreachable(inodes: Seq<InodeView>, next: Seq<InodeView>, entries: Seq<DirEntryView>)
    requires
        same_kinds(inodes, next),
    ensures
        namespace::unreachable_ids(next, entries) == namespace::unreachable_ids(inodes, entries),
    decreases inodes.len(),
{
    if inodes.len() > 0 {
        let n = inodes.len() - 1;
        assert(next[n].id == inodes[n].id);
        assert forall|i: int| 0 <= i < n implies (#[trigger] next.drop_last()[i]).id
            == inodes.drop_last()[i].id && next.drop_last()[i].kind == inodes.drop_last()[i].kind by {
            assert(next[i].id == inodes[i].id);
        }
        lemma_same_unreachable(inodes.drop_last(), next.drop_last(), entries);
    }
}

/// The namespace rests on the identifiers and kinds of the inodes alone.
pub proof fn lemma_same_namespace(inodes: Seq<InodeView>, next: Seq<InodeView>, entries: Seq<DirEntryView>)
    requires
        same_kinds(inodes, next),
        fsck::strict_namespace(inodes, entries),
    ensures
        fsck::strict_namespace(next, entries),
{
    assert forall|id: u64, kind: crate::inode::InodeKind| #[trigger]
        namespace::has_kind(next, id, kind) == namespace::has_kind(inodes, id, kind) by {
        lemma_same_index(inodes, next, id, 0);
        file_blocks::lemma_index_from(inodes, id, 0);
        if let Some(i) = file_blocks::index_of(inodes, id) {
            assert(next[i].kind == inodes[i].kind);
        }
    }
    assert forall|i: int| 0 <= i < entries.len() implies namespace::sound_entry(
        next,
        #[trigger] entries[i],
    ) by {
        assert(namespace::sound_entry(inodes, entries[i]));
        lemma_same_index(inodes, next, entries[i].target, 0);
    }
    assert forall|i: int, j: int| 0 <= i < j < entries.len() implies namespace::compatible(
        next,
        #[trigger] entries[i],
        #[trigger] entries[j],
    ) by {
        assert(namespace::compatible(inodes, entries[i], entries[j]));
    }
    assert(namespace::distinct_ids(next)) by {
        assert(namespace::distinct_ids(inodes));
    }
    lemma_same_unreachable(inodes, next, entries);
}

} // verus!
