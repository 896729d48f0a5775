//! Listing directories with metadata by path name.

use vstd::prelude::*;
use crate::block::{BlockDevice, Disk};
use crate::directory_codec::{DirEntryView, PersistedDirectoryEntry};
use crate::directory_table;
use crate::directory_table::load_directory_table;
use crate::error::{Error, ErrorKind};
use crate::file_blocks::{invalid_data, invalid_input};
use crate::file_blocks;
use crate::format::Superblock;
use crate::fsck;
use crate::fsck::check_device;
use crate::hard_unlink_tx;
use crate::hard_unlink_tx::count_links;
use crate::inode::InodeKind;
use crate::inode_codec::{InodeView, PersistedInode};
use crate::inode_table;
use crate::inode_table::load_inode_table;
use crate::journal_checkpoint;
use crate::journal_checkpoint::recover_journal_and_checkpoint;
use crate::journal_region;
use crate::namespace;
use crate::path_directory;
use crate::path_directory::sort_children;
use crate::path_lookup;
use crate::path_lookup::resolve_path_following_symlinks;
use crate::soundness;
use crate::step;
use crate::step::Step;

verus! {

/// A child of a directory with what its inode says and how many names it has.
#[derive(Clone, Debug, PartialEq, Eq)]
pub struct PathDirectoryEntryMetadata {
    pub name: String,
    pub inode_id: u64,
    pub kind: InodeKind,
    pub logical_blocks: usize,
    pub namespace_references: usize,
}

/// A child of a directory with its metadata, as a value.
pub struct DetailView {
    pub name: Seq<char>,
    pub inode_id: u64,
    pub kind: InodeKind,
    pub logical_blocks: nat,
    pub namespace_references: nat,
}

impl View for PathDirectoryEntryMetadata {
    type V = DetailView;

    open spec fn view(&self) -> DetailView {
        DetailView {
            name: self.name@,
            inode_id: self.inode_id,
            kind: self.kind,
            logical_blocks: self.logical_blocks as nat,
            namespace_references: self.namespace_references as nat,
        }
    }
}

/// The values of a list of children.
pub open spec fn detail_views(children: Seq<PathDirectoryEntryMetadata>) -> Seq<DetailView> {
    Seq::new(children.len(), |i: int| children[i]@)
}

/// A list of children as a result on values.
pub open spec fn detail_list(r: Result<Vec<PathDirectoryEntryMetadata>, Error>) -> Result<Seq<DetailView>, ErrorKind> {
    match r {
        Ok(v) => Ok(detail_views(v@)),
        Err(e) => Err(e.kind),
    }
}

/// The last inode with this identifier.
pub open spec fn last_index_of(inodes: Seq<InodeView>, id: u64) -> Option<int>
    decreases inodes.len(),
{
    if inodes.len() == 0 {
        None
    } else if inodes.last().id == id {
        Some(inodes.len() - 1)
    } else {
        last_index_of(inodes.drop_last(), id)
    }
}

/// The children that a list of entries stands for, with their metadata; none where an inode is
/// missing. The names of an inode are counted in the whole directory table.
pub open spec fn detailed(inodes: Seq<InodeView>, table: Seq<DirEntryView>, entries: Seq<DirEntryView>) -> Option<Seq<DetailView>>
    decreases entries.len(),
{
    if entries.len() == 0 {
        Some(Seq::empty())
    } else {
        let entry = entries.last();
        match (detailed(inodes, table, entries.drop_last()), last_index_of(inodes, entry.target)) {
            (Some(front), Some(i)) => Some(
                front.push(
                    DetailView {
                        name: entry.name,
                        inode_id: entry.target,
                        kind: inodes[i].kind,
                        logical_blocks: inodes[i].blocks.len(),
                        namespace_references: hard_unlink_tx::link_count(table, entry.target),
                    },
                ),
            ),
            _ => None,
        }
    }
}

/// The children of the directory `id` with their metadata, by name.
pub open spec fn enumerated(id: u64, inodes: Seq<InodeView>, entries: Seq<DirEntryView>) -> Result<Seq<DetailView>, ErrorKind> {
    match last_index_of(inodes, id) {
        None => Err(ErrorKind::InvalidData),
        Some(i) => if inodes[i].kind != InodeKind::Directory {
            Err(ErrorKind::InvalidInput)
        } else {
            match detailed(inodes, entries, path_directory::children_by_name(entries, id)) {
                None => Err(ErrorKind::InvalidData),
                Some(children) => Ok(children),
            }
        },
    }
}

/// The children of the directory `id` with their metadata, on a device.
pub open spec fn listed_details(disk: Disk, sb: Superblock, id: u64) -> Result<Seq<DetailView>, ErrorKind> {
    match (inode_table::inodes_on(disk, sb), directory_table::entries_on(disk, sb)) {
        (Err(k), _) => Err(k),
        (_, Err(k)) => Err(k),
        (Ok(inodes), Ok(entries)) => enumerated(id, inodes, entries),
    }
}

/// The children of the directory that a path names with their metadata, on a device that passes a
/// strict inspection.
pub open spec fn list_details_step(disk: Disk, sb: Superblock, path: Seq<char>) -> Step<Seq<DetailView>> {
    journal_checkpoint::settled_then(
        disk,
        sb,
        |d: Disk|
            match fsck::checked(d) {
                Err(k) => step::stay(d, Err(k)),
                Ok(_) => path_lookup::resolved_then(
                    d,
                    sb,
                    path,
                    |id: u64| step::stay(d, listed_details(d, sb, id)),
                ),
            },
    )
}

fn find_last_inode(inodes: &[PersistedInode], id: u64) -> (r: Option<usize>)
    ensures
        match r {
            Some(i) => i < inodes@.len() && last_index_of(inode_table::inode_views(inodes@), id)
                == Some(i as int),
            None => last_index_of(inode_table::inode_views(inodes@), id) is None,
        },
{
    let ghost views = inode_table::inode_views(inodes@);
    let mut n: usize = inodes.len();
    assert(views.subrange(0, n as int) =~= views);
    while n > 0
        invariant
            n <= inodes@.len(),
            views == inode_table::inode_views(inodes@),
            last_index_of(views, id) == last_index_of(views.subrange(0, n as int), id),
        decreases n,
    {
        proof {
            let part = views.subrange(0, n as int);
            assert(part.drop_last() =~= views.subrange(0, n - 1));
            assert(part.last() == inodes@[n - 1]@);
        }
        if inodes[n - 1].id == id {
            return Some(n - 1);
        }
        n -= 1;
    }
    None
}

proof fn lemma_detailed_none(inodes: Seq<InodeView>, table: Seq<DirEntryView>, entries: Seq<DirEntryView>, k: int)
    requires
        0 <= k <= entries.len(),
        detailed(inodes, table, entries.subrange(0, k)) is None,
    ensures
        detailed(inodes, table, entries) is None,
    decreases entries.len(),
{
    if k == entries.len() {
        assert(entries.subrange(0, k) =~= entries);
    } else {
        assert(entries.drop_last().subrange(0, k) =~= entries.subrange(0, k));
        lemma_detailed_none(inodes, table, entries.drop_last(), k);
    }
}

/// Lists the children of a directory with their metadata, by name.
pub fn enumerate_directory_with_metadata(
    directory_inode_id: u64,
    inodes: &[PersistedInode],
    entries: &[PersistedDirectoryEntry],
) -> (r: Result<Vec<PathDirectoryEntryMetadata>, Error>)
    ensures
        detail_list(r) == enumerated(
            directory_inode_id,
            inode_table::inode_views(inodes@),
            directory_table::entry_views(entries@),
        ),
{
    let directory: usize = match find_last_inode(inodes, directory_inode_id) {
        Some(i) => i,
        None => return Err(invalid_data("resolved directory inode is missing")),
    };
    if inodes[directory].kind != InodeKind::Directory {
        return Err(invalid_input("pathname directory enumeration target is not a directory"));
    }
    let sorted = sort_children(entries, directory_inode_id);
    let ghost views = directory_table::entry_views(sorted@);
    let ghost whole = directory_table::entry_views(entries@);
    let ghost table = inode_table::inode_views(inodes@);
    let mut children: Vec<PathDirectoryEntryMetadata> = Vec::new();
    assert(detail_views(children@) =~= Seq::<DetailView>::empty());
    let mut i: usize = 0;
    while i < sorted.len()
        invariant
            i <= sorted@.len(),
            views == directory_table::entry_views(sorted@),
            views == path_directory::children_by_name(whole, directory_inode_id),
            whole == directory_table::entry_views(entries@),
            table == inode_table::inode_views(inodes@),
            last_index_of(table, directory_inode_id) matches Some(d) && table[d].kind
                == InodeKind::Directory,
            detailed(table, whole, views.subrange(0, i as int)) == Some(detail_views(children@)),
        decreases sorted@.len() - i,
    {
        let ghost before = detail_views(children@);
        proof {
            let next = views.subrange(0, i + 1);
            assert(next.drop_last() =~= views.subrange(0, i as int));
            assert(next.last() == sorted@[i as int]@);
        }
        let target: usize = match find_last_inode(inodes, sorted[i].target) {
            Some(k) => k,
            None => {
                proof {
                    lemma_detailed_none(table, whole, views, i + 1);
                }
                return Err(invalid_data("directory entry references missing target inode"));
            },
        };
        let child = PathDirectoryEntryMetadata {
            name: sorted[i].name.clone(),
            inode_id: sorted[i].target,
            kind: inodes[target].kind,
            logical_blocks: inodes[target].blocks.len(),
            namespace_references: count_links(entries, sorted[i].target),
        };
        let ghost added = child@;
        children.push(child);
        assert(detail_views(children@) =~= before.push(added));
        i += 1;
    }
    assert(views.subrange(0, views.len() as int) =~= views);
    Ok(children)
}

/// Lists the children of the directory that a path names with their metadata, by name, once the
/// journal is replayed and empty and the device has passed a strict inspection.
pub fn list_directory_with_metadata_at_path<D: BlockDevice>(device: &mut D, superblock: &Superblock, path: &str) -> (r: Result<Vec<PathDirectoryEntryMetadata>, Error>)
    ensures
        journal_region::carried_out(
            old(device),
            final(device),
            *superblock,
            detail_list(r),
            list_details_step(old(device).blocks(), *superblock, path@),
        ),
{
    broadcast use journal_checkpoint::group_settled;

    recover_journal_and_checkpoint(device, *superblock)?;
    check_device(device)?;
    let inode_id: u64 = resolve_path_following_symlinks(device, superblock, path)?;
    let inodes = load_inode_table(device, superblock)?;
    let entries = load_directory_table(device, superblock)?;
    enumerate_directory_with_metadata(inode_id, inodes.as_slice(), entries.as_slice())
}

proof fn lemma_last_index(inodes: Seq<InodeView>, id: u64)
    requires
        namespace::distinct_ids(inodes),
    ensures
        last_index_of(inodes, id) == file_blocks::index_of(inodes, id),
{
    file_blocks::lemma_index_from(inodes, id, 0);
    lemma_last_index_found(inodes, id);
}

proof fn lemma_last_index_found(inodes: Seq<InodeView>, id: u64)
    ensures
        match last_index_of(inodes, id) {
            Some(i) => 0 <= i < inodes.len() && inodes[i].id == id,
            None => forall|i: int| 0 <= i < inodes.len() ==> (#[trigger] inodes[i]).id != id,
        },
    decreases inodes.len(),
{
    if inodes.len() > 0 && inodes.last().id != id {
        let front = inodes.drop_last();
        lemma_last_index_found(front, id);
        if last_index_of(front, id) is None {
            assert forall|i: int| 0 <= i < inodes.len() implies (#[trigger] inodes[i]).id != id by {
                if i < front.len() {
                    assert(front[i] == inodes[i]);
                }
            }
        }
    }
}

proof fn lemma_detailed(inodes: Seq<InodeView>, table: Seq<DirEntryView>, entries: Seq<DirEntryView>)
    requires
        namespace::distinct_ids(inodes),
    ensures
        match (detailed(inodes, table, entries), path_directory::joined(inodes, entries)) {
            (Some(details), Some(children)) => details.len() == children.len() && forall|k: int|
                0 <= k < details.len() ==> (#[trigger] details[k]).name == children[k].name
                    && details[k].inode_id == children[k].inode_id && details[k].kind
                    == children[k].kind && details[k].namespace_references
                    == hard_unlink_tx::link_count(table, details[k].inode_id) && (
                file_blocks::index_of(inodes, details[k].inode_id) matches Some(i)
                    && details[k].logical_blocks == inodes[i].blocks.len()),
            (None, None) => true,
            _ => false,
        },
    decreases entries.len(),
{
    if entries.len() > 0 {
        lemma_detailed(inodes, table, entries.drop_last());
        lemma_last_index(inodes, entries.last().target);
    }
}

/// A listing with metadata has the children of the plain listing, each with the number of its blocks
/// and of the entries that name its inode.
pub proof fn law_listed_details(disk: Disk, sb: Superblock, id: u64)
    requires
        soundness::sound_on(disk, sb),
    ensures
        ({
            let t = soundness::tables_of(disk, sb);
            match (listed_details(disk, sb, id), path_directory::listed(disk, sb, id)) {
                (Ok(details), Ok(children)) => details.len() == children.len() && forall|k: int|
                    0 <= k < details.len() ==> (#[trigger] details[k]).name == children[k].name
                        && details[k].inode_id == children[k].inode_id && details[k].kind
                        == children[k].kind && details[k].namespace_references
                        == hard_unlink_tx::link_count(t.entries, details[k].inode_id) && (
                    file_blocks::index_of(t.inodes, details[k].inode_id) matches Some(i)
                        && details[k].logical_blocks == t.inodes[i].blocks.len()),
                (Err(a), Err(b)) => a == b,
                _ => false,
            }
        }),
{
    let t = soundness::tables_of(disk, sb);
    soundness::lemma_sound_parts(disk, sb);
    lemma_last_index(t.inodes, id);
    lemma_detailed(t.inodes, t.entries, path_directory::children_by_name(t.entries, id));
}

/// What is listed with metadata at a path is the directory that the path names. Listing settles the
/// journal and changes nothing else. It is refused where the settled device does not pass a strict
/// inspection.
pub proof fn law_list_details_at_path(disk: Disk, sb: Superblock, path: Seq<char>)
    requires
        journal_checkpoint::settle_step(disk, sb).result is Ok,
    ensures
        ({
            let base = journal_checkpoint::settle_step(disk, sb).disk;
            let step = list_details_step(disk, sb, path);
            &&& step.disk == base
            &&& match (fsck::checked(base), path_lookup::resolved(base, sb, path, true)) {
                (Err(kind), _) => step.result == Err::<Seq<DetailView>, ErrorKind>(kind),
                (_, Err(kind)) => step.result == Err::<Seq<DetailView>, ErrorKind>(kind),
                (_, Ok(id)) => step.result == listed_details(base, sb, id),
            }
        }),
{
}

} // verus!
