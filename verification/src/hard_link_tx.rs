//! Further names for files and symbolic links.

use vstd::prelude::*;
use crate::block;
use crate::block::{BlockDevice, Disk};
use crate::directory_codec::{DirEntryView, PersistedDirectoryEntry};
use crate::directory_table;
use crate::directory_table::load_directory_table;
use crate::directory_tx;
use crate::directory_tx::replace_directory_table;
use crate::error::{Error, ErrorKind};
use crate::file_blocks;
use crate::file_blocks::{find_inode, invalid_input};
use crate::format::Superblock;
use crate::hard_unlink_tx;
use crate::inode::InodeKind;
use crate::inode_table;
use crate::inode_table::load_inode_table;
use crate::journal_checkpoint;
use crate::journal_region;
use crate::namespace;
use crate::naming;
use crate::path_lookup;
use crate::path_lookup::find_entry;
use crate::recovery::RecoveryReport;
use crate::soundness;
use crate::step;
use crate::step::Step;
use crate::symlink;
use crate::symlink::read_symlink;

verus! {

/// The directory table with a further name for `target`, or why there cannot be one.
pub open spec fn linked(disk: Disk, sb: Superblock, parent: u64, name: Seq<char>, target: u64, kind: InodeKind) -> Result<Seq<DirEntryView>, ErrorKind> {
    match inode_table::inodes_on(disk, sb) {
        Err(k) => Err(k),
        Ok(inodes) => match file_blocks::index_of(inodes, parent) {
            None => Err(ErrorKind::InvalidInput),
            Some(p) => if inodes[p].kind != InodeKind::Directory {
                Err(ErrorKind::InvalidInput)
            } else {
                match file_blocks::index_of(inodes, target) {
                    None => Err(ErrorKind::InvalidInput),
                    Some(t) => if inodes[t].kind != kind {
                        Err(ErrorKind::InvalidInput)
                    } else {
                        match directory_table::entries_on(disk, sb) {
                            Err(k) => Err(k),
                            Ok(entries) => if path_lookup::entry_index(entries, parent, name) is Some {
                                Err(ErrorKind::InvalidInput)
                            } else {
                                match symlink::symlink_target(disk, sb, target) {
                                    Err(k) if kind == InodeKind::Symlink => Err(k),
                                    _ => Ok(entries.push(DirEntryView { parent, target, name })),
                                }
                            },
                        }
                    },
                }
            },
        },
    }
}

/// A further name for a file or a symbolic link.
pub open spec fn link_step(disk: Disk, sb: Superblock, parent: u64, name: Seq<char>, target: u64, kind: InodeKind) -> Step<RecoveryReport> {
    match linked(disk, sb, parent, name, target, kind) {
        Err(k) => step::stay(disk, Err(k)),
        Ok(entries) => directory_tx::replace_entries_step(disk, sb, entries),
    }
}

/// The directory table with one more name in it.
fn prepare_link<D: BlockDevice>(
    device: &mut D,
    superblock: &Superblock,
    parent: u64,
    name: &str,
    target: u64,
    kind: InodeKind,
) -> (r: Result<Vec<PersistedDirectoryEntry>, Error>)
    ensures
        block::untouched(old(device), final(device)),
        match r {
            Ok(entries) => linked(
                old(device).blocks(),
                *superblock,
                parent,
                name@,
                target,
                kind,
            ) == Ok::<Seq<DirEntryView>, ErrorKind>(directory_table::entry_views(entries@)),
            Err(e) => !old(device).healthy() || linked(
                old(device).blocks(),
                *superblock,
                parent,
                name@,
                target,
                kind,
            ) == Err::<Seq<DirEntryView>, ErrorKind>(e.kind),
        },
{
    let inodes = load_inode_table(device, superblock)?;
    let parent_index: usize = match find_inode(inodes.as_slice(), parent) {
        Some(i) => i,
        None => return Err(invalid_input("hard-link parent inode is missing")),
    };
    if inodes[parent_index].kind != InodeKind::Directory {
        return Err(invalid_input("hard-link parent must be a directory"));
    }
    let target_index: usize = match find_inode(inodes.as_slice(), target) {
        Some(i) => i,
        None => return Err(invalid_input("hard-link target inode is missing")),
    };
    if inodes[target_index].kind != kind {
        return Err(invalid_input("hard-link target has the wrong inode kind"));
    }
    let mut entries = load_directory_table(device, superblock)?;
    if find_entry(entries.as_slice(), parent, name).is_some() {
        return Err(invalid_input("hard-link destination already exists"));
    }
    if kind == InodeKind::Symlink {
        read_symlink(device, superblock, target)?;
    }
    let ghost views = directory_table::entry_views(entries@);
    let entry = PersistedDirectoryEntry { parent, target, name: name.to_owned() };
    let ghost added = entry@;
    entries.push(entry);
    assert(directory_table::entry_views(entries@) =~= views.push(added));
    Ok(entries)
}

/// Gives a regular file a further name; only the directory table changes.
pub fn hard_link_file_journaled<D: BlockDevice>(device: &mut D, superblock: &Superblock, parent: u64, name: &str, target: u64) -> (r: Result<RecoveryReport, Error>)
    ensures
        journal_region::carried_out(
            old(device),
            final(device),
            *superblock,
            step::kinded(r),
            link_step(
                old(device).blocks(),
                *superblock,
                parent,
                name@,
                target,
                InodeKind::File,
            ),
        ),
{
    broadcast use journal_checkpoint::group_settled;

    let entries = prepare_link(device, superblock, parent, name, target, InodeKind::File)?;
    replace_directory_table(device, superblock, entries.as_slice())
}

/// Gives a symbolic link a further name, once its target reads back; only the directory table
/// changes.
pub fn hard_link_symlink_journaled<D: BlockDevice>(device: &mut D, superblock: &Superblock, parent: u64, name: &str, target: u64) -> (r: Result<RecoveryReport, Error>)
    ensures
        journal_region::carried_out(
            old(device),
            final(device),
            *superblock,
            step::kinded(r),
            link_step(
                old(device).blocks(),
                *superblock,
                parent,
                name@,
                target,
                InodeKind::Symlink,
            ),
        ),
{
    broadcast use journal_checkpoint::group_settled;

    let entries = prepare_link(device, superblock, parent, name, target, InodeKind::Symlink)?;
    replace_directory_table(device, superblock, entries.as_slice())
}

/// A further name stands for the same inode and counts as one more; nothing else changes.
pub proof fn law_link(disk: Disk, sb: Superblock, parent: u64, name: Seq<char>, target: u64, kind: InodeKind)
    requires
        soundness::sound_on(disk, sb),
        kind != InodeKind::Directory,
        link_step(disk, sb, parent, name, target, kind).result is Ok,
    ensures
        ({
            let t = soundness::tables_of(disk, sb);
            let end = link_step(disk, sb, parent, name, target, kind).disk;
            let entries = t.entries.push(DirEntryView { parent, target, name });
            &&& soundness::sound_on(end, sb)
            &&& soundness::tables_of(end, sb) == (soundness::Tables { entries, ..t })
            &&& path_lookup::entry_index(entries, parent, name) == Some(t.entries.len() as int)
            &&& hard_unlink_tx::link_count(entries, target) == hard_unlink_tx::link_count(
                t.entries,
                target,
            ) + 1
            &&& namespace::has_kind(t.inodes, parent, InodeKind::Directory)
            &&& namespace::has_kind(t.inodes, target, kind)
            &&& path_lookup::entry_index(t.entries, parent, name) is None
            &&& forall|i: int| sb.data_start() <= i < disk.len() ==> #[trigger] end[i] == disk[i]
        }),
{
    let t = soundness::tables_of(disk, sb);
    let entry = DirEntryView { parent, target, name };
    let entries = t.entries.push(entry);
    soundness::lemma_sound_parts(disk, sb);
    file_blocks::lemma_index_from(t.inodes, parent, 0);
    file_blocks::lemma_index_from(t.inodes, target, 0);
    naming::law_link_keeps_namespace(t.inodes, t.entries, entry);
    assert(entries.len() != t.entries.len());
    directory_tx::law_replace_entries(disk, sb, entries);
    assert(entries.drop_last() =~= t.entries);
    path_lookup::lemma_entry_from(t.entries, parent, name, 0);
    path_lookup::lemma_entry_from(entries, parent, name, 0);
    assert(entries[t.entries.len() as int] == entry);
    if let Some(k) = path_lookup::entry_index(entries, parent, name) {
        if k < t.entries.len() {
            assert(t.entries[k] == entries[k]);
        }
    }
}



} // verus!
