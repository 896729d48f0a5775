//! Removing one of several names.

use vstd::prelude::*;
use crate::block;
use crate::block::{BlockDevice, Disk};
use crate::directory_codec::{DirEntryView, PersistedDirectoryEntry};
use crate::directory_table;
use crate::directory_table::load_directory_table;
use crate::directory_tx;
use crate::directory_tx::replace_directory_table;
use crate::error::{Error, ErrorKind};
use crate::file_blocks;
use crate::file_blocks::{find_inode, invalid_input};
use crate::format::Superblock;
use crate::hard_link_tx;
use crate::inode::InodeKind;
use crate::inode_codec::InodeView;
use crate::inode_table;
use crate::inode_table::load_inode_table;
use crate::journal_checkpoint;
use crate::journal_region;
use crate::namespace;
use crate::naming;
use crate::path_lookup;
use crate::path_lookup::find_entry;
use crate::recovery::RecoveryReport;
use crate::soundness;
use crate::step;
use crate::step::Step;
use crate::symlink;
use crate::symlink::read_symlink;

verus! {

/// How many entries name the inode `target`.
pub open spec fn link_count(entries: Seq<DirEntryView>, target: u64) -> nat
    decreases entries.len(),
{
    if entries.len() == 0 {
        0
    } else {
        link_count(entries.drop_last(), target) + if entries.last().target == target {
            1nat
        } else {
            0
        }
    }
}

/// The entry that can go: it names an inode of kind `kind` which has another name.
pub open spec fn removable(inodes: Seq<InodeView>, entries: Seq<DirEntryView>, parent: u64, name: Seq<char>, kind: InodeKind) -> Option<int> {
    match path_lookup::entry_index(entries, parent, name) {
        None => None,
        Some(e) => match file_blocks::index_of(inodes, entries[e].target) {
            Some(i) => if inodes[i].kind == kind && link_count(entries, entries[e].target) >= 2 {
                Some(e)
            } else {
                None
            },
            None => None,
        },
    }
}

/// The directory table without one of several names, or why it has to stay.
pub open spec fn unlinked(disk: Disk, sb: Superblock, parent: u64, name: Seq<char>, kind: InodeKind) -> Result<Seq<DirEntryView>, ErrorKind> {
    match (inode_table::inodes_on(disk, sb), directory_table::entries_on(disk, sb)) {
        (Err(k), _) => Err(k),
        (_, Err(k)) => Err(k),
        (Ok(inodes), Ok(entries)) => match removable(inodes, entries, parent, name, kind) {
            None => Err(ErrorKind::InvalidInput),
            Some(e) => match symlink::symlink_target(disk, sb, entries[e].target) {
                Err(k) if kind == InodeKind::Symlink => Err(k),
                _ => Ok(entries.remove(e)),
            },
        },
    }
}

/// One of several names of a file or a symbolic link removed.
pub open spec fn unlink_step(disk: Disk, sb: Superblock, parent: u64, name: Seq<char>, kind: InodeKind) -> Step<RecoveryReport> {
    match unlinked(disk, sb, parent, name, kind) {
        Err(k) => step::stay(disk, Err(k)),
        Ok(entries) => directory_tx::replace_entries_step(disk, sb, entries),
    }
}

/// An inode keeps a name when one of several is removed.
pub proof fn law_name_remains(entries: Seq<DirEntryView>, e: int)
    requires
        0 <= e < entries.len(),
    ensures
        link_count(entries.remove(e), entries[e].target) == link_count(entries, entries[e].target)
            - 1,
        forall|id: u64|
            id != entries[e].target ==> #[trigger] link_count(entries.remove(e), id) == link_count(
                entries,
                id,
            ),
{
    assert forall|id: u64| #[trigger]
        link_count(entries.remove(e), id) == link_count(entries, id) - if entries[e].target == id {
            1int
        } else {
            0
        } by {
        lemma_count_removed(entries, e, id);
    }
    lemma_count_removed(entries, e, entries[e].target);
}

proof fn lemma_count_removed(entries: Seq<DirEntryView>, e: int, id: u64)
    requires
        0 <= e < entries.len(),
    ensures
        link_count(entries.remove(e), id) == link_count(entries, id) - if entries[e].target == id {
            1int
        } else {
            0
        },
    decreases entries.len(),
{
    if e == entries.len() - 1 {
        assert(entries.remove(e) =~= entries.drop_last());
    } else {
        lemma_count_removed(entries.drop_last(), e, id);
        assert(entries.remove(e).drop_last() =~= entries.drop_last().remove(e));
    }
}

/// Counts the entries that name an inode.
pub(crate) fn count_links(entries: &[PersistedDirectoryEntry], target: u64) -> (n: usize)
    ensures
        n == link_count(directory_table::entry_views(entries@), target),
{
    let ghost views = directory_table::entry_views(entries@);
    let mut n: usize = 0;
    let mut i: usize = 0;
    while i < entries.len()
        invariant
            i <= entries@.len(),
            n <= i,
            views == directory_table::entry_views(entries@),
            n == link_count(views.subrange(0, i as int), target),
        decreases entries@.len() - i,
    {
        proof {
            let next = views.subrange(0, i + 1);
            assert(next.drop_last() =~= views.subrange(0, i as int));
            assert(next.last() == entries@[i as int]@);
        }
        if entries[i].target == target {
            n += 1;
        }
        i += 1;
    }
    assert(views.subrange(0, views.len() as int) =~= views);
    n
}

/// The directory table with one name less.
fn prepare_unlink<D: BlockDevice>(device: &mut D, superblock: &Superblock, parent: u64, name: &str, kind: InodeKind) -> (r: Result<Vec<PersistedDirectoryEntry>, Error>)
    ensures
        block::untouched(old(device), final(device)),
        match r {
            Ok(entries) => unlinked(old(device).blocks(), *superblock, parent, name@, kind) == Ok::<
                Seq<DirEntryView>,
                ErrorKind,
            >(directory_table::entry_views(entries@)),
            Err(e) => !old(device).healthy() || unlinked(
                old(device).blocks(),
                *superblock,
                parent,
                name@,
                kind,
            ) == Err::<Seq<DirEntryView>, ErrorKind>(e.kind),
        },
{
    let inodes = load_inode_table(device, superblock)?;
    let mut entries = load_directory_table(device, superblock)?;
    let index: usize = match find_entry(entries.as_slice(), parent, name) {
        Some(i) => i,
        None => return Err(invalid_input("hard-link entry is missing")),
    };
    let target: u64 = entries[index].target;
    let inode_index: usize = match find_inode(inodes.as_slice(), target) {
        Some(i) => i,
        None => return Err(invalid_input("hard-link target inode is missing")),
    };
    if inodes[inode_index].kind != kind {
        return Err(invalid_input("hard-link unlink target has the wrong inode kind"));
    }
    if count_links(entries.as_slice(), target) < 2 {
        return Err(invalid_input("hard-link unlink cannot remove the final reference"));
    }
    if kind == InodeKind::Symlink {
        read_symlink(device, superblock, target)?;
    }
    let ghost views = directory_table::entry_views(entries@);
    entries.remove(index);
    assert(directory_table::entry_views(entries@) =~= views.remove(index as int));
    Ok(entries)
}

/// Removes a name of a regular file that has another; only the directory table changes.
pub fn unlink_nonfinal_file_link_journaled<D: BlockDevice>(device: &mut D, superblock: &Superblock, parent: u64, name: &str) -> (r: Result<RecoveryReport, Error>)
    ensures
        journal_region::carried_out(
            old(device),
            final(device),
            *superblock,
            step::kinded(r),
            unlink_step(old(device).blocks(), *superblock, parent, name@, InodeKind::File),
        ),
{
    broadcast use journal_checkpoint::group_settled;

    let entries = prepare_unlink(device, superblock, parent, name, InodeKind::File)?;
    replace_directory_table(device, superblock, entries.as_slice())
}

/// Removes a name of a symbolic link that has another, once its target reads back; only the
/// directory table changes.
pub fn unlink_nonfinal_symlink_link_journaled<D: BlockDevice>(device: &mut D, superblock: &Superblock, parent: u64, name: &str) -> (r: Result<RecoveryReport, Error>)
    ensures
        journal_region::carried_out(
            old(device),
            final(device),
            *superblock,
            step::kinded(r),
            unlink_step(old(device).blocks(), *superblock, parent, name@, InodeKind::Symlink),
        ),
{
    broadcast use journal_checkpoint::group_settled;

    let entries = prepare_unlink(device, superblock, parent, name, InodeKind::Symlink)?;
    replace_directory_table(device, superblock, entries.as_slice())
}

/// One of several names is gone, its inode has one name less but keeps one, and nothing else
/// changes.
pub proof fn law_unlink(disk: Disk, sb: Superblock, parent: u64, name: Seq<char>, kind: InodeKind)
    requires
        soundness::sound_on(disk, sb),
        kind != InodeKind::Directory,
        unlink_step(disk, sb, parent, name, kind).result is Ok,
    ensures
        ({
            let t = soundness::tables_of(disk, sb);
            let end = unlink_step(disk, sb, parent, name, kind).disk;
            let n = soundness::tables_of(end, sb);
            &&& soundness::sound_on(end, sb)
            &&& removable(t.inodes, t.entries, parent, name, kind) matches Some(e) && n.entries
                == t.entries.remove(e) && link_count(n.entries, t.entries[e].target) == link_count(
                t.entries,
                t.entries[e].target,
            ) - 1 && link_count(n.entries, t.entries[e].target) > 0
            &&& removable(t.inodes, t.entries, parent, name, kind) matches Some(e)
                && t.entries[e].parent == parent && t.entries[e].name == name
                && namespace::has_kind(t.inodes, t.entries[e].target, kind)
            &&& n.inodes == t.inodes
            &&& n.allocator == t.allocator
            &&& path_lookup::entry_index(n.entries, parent, name) is None
            &&& forall|i: int| sb.data_start() <= i < disk.len() ==> #[trigger] end[i] == disk[i]
        }),
{
    let t = soundness::tables_of(disk, sb);
    soundness::lemma_sound_parts(disk, sb);
    let e = removable(t.inodes, t.entries, parent, name, kind)->Some_0;
    let rest = t.entries.remove(e);
    path_lookup::lemma_entry_from(t.entries, parent, name, 0);
    file_blocks::lemma_index_from(t.inodes, t.entries[e].target, 0);
    naming::law_unlink_keeps_namespace(t.inodes, t.entries, e);
    assert(rest.len() != t.entries.len());
    directory_tx::law_replace_entries(disk, sb, rest);
    law_name_remains(t.entries, e);
    path_lookup::lemma_entry_from(rest, parent, name, 0);
    if let Some(k) = path_lookup::entry_index(rest, parent, name) {
        let l = if k < e {
            k
        } else {
            k + 1
        };
        assert(t.entries[l] == rest[k]);
        if l < e {
            assert(namespace::compatible(t.inodes, t.entries[l], t.entries[e]));
        } else {
            assert(namespace::compatible(t.inodes, t.entries[e], t.entries[l]));
        }
    }
}

/// A further name that is given and removed again leaves every table as it was, and a sound device
/// sound.
pub proof fn law_link_unlink(disk: Disk, sb: Superblock, parent: u64, name: Seq<char>, target: u64, kind: InodeKind)
    requires
        hard_link_tx::link_step(disk, sb, parent, name, target, kind).result is Ok,
        unlink_step(
            hard_link_tx::link_step(disk, sb, parent, name, target, kind).disk,
            sb,
            parent,
            name,
            kind,
        ).result is Ok,
    ensures
        ({
            let end = unlink_step(
                hard_link_tx::link_step(disk, sb, parent, name, target, kind).disk,
                sb,
                parent,
                name,
                kind,
            ).disk;
            &&& soundness::tables_of(end, sb) == soundness::tables_of(disk, sb)
            &&& soundness::sound_on(disk, sb) ==> soundness::sound_on(end, sb)
        }),
{
    let t = soundness::tables_of(disk, sb);
    let mid = hard_link_tx::link_step(disk, sb, parent, name, target, kind).disk;
    let end = unlink_step(mid, sb, parent, name, kind).disk;
    let entry = DirEntryView { parent, target, name };
    let entries = t.entries.push(entry);
    assert(entries.len() != t.entries.len());
    directory_tx::lemma_entries_tables(disk, sb, entries);
    path_lookup::lemma_entry_push(t.entries, entry, parent, name);
    assert(entries.remove(t.entries.len() as int) =~= t.entries);
    directory_tx::lemma_entries_tables(mid, sb, t.entries);
    soundness::lemma_sound_again(disk, end, sb);
}

} // verus!
