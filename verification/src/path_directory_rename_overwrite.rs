//! Moving a directory over an empty one.

use vstd::prelude::*;
use crate::allocation::{AllocView, BlockAllocator};
use crate::block;
use crate::block::{Block, BlockDevice, Disk};
use crate::create_data_tx;
use crate::directory_codec;
use crate::directory_codec::{is_valid_name, DirEntryView, PersistedDirectoryEntry};
use crate::directory_table;
use crate::directory_table::load_directory_table;
use crate::error::{Error, ErrorKind};
use crate::file_blocks;
use crate::file_blocks::{find_inode, invalid_input, load_tables};
use crate::format::Superblock;
use crate::fsck;
use crate::fsck::check_device;
use crate::hard_unlink_tx;
use crate::hard_unlink_tx::count_links;
use crate::inode::InodeKind;
use crate::inode_codec::{InodeView, PersistedInode};
use crate::inode_table;
use crate::journal_region;
use crate::namespace;
use crate::naming;
use crate::ownership;
use crate::path_create;
use crate::path_create::split_destination;
use crate::path_lookup;
use crate::path_lookup::{find_entry, resolve_path_following_symlinks, ROOT_INODE_ID};
use crate::recovery;
use crate::recovery::{HomeWrite, RecoveryReport};
use crate::soundness;
use crate::step;
use crate::step::Step;
use crate::update;
use crate::update::{store_update_and_checkpoint, Update};

verus! {

/// The directory that holds the directory `id`, by the last entry that names it.
pub open spec fn parent_of(inodes: Seq<InodeView>, entries: Seq<DirEntryView>, id: u64) -> Option<u64>
    decreases entries.len(),
{
    if entries.len() == 0 || !namespace::has_kind(inodes, id, InodeKind::Directory) {
        None
    } else if entries.last().target == id {
        Some(entries.last().parent)
    } else {
        parent_of(inodes, entries.drop_last(), id)
    }
}

/// From the directory `id` one can go up `n` times.
pub open spec fn climbs(inodes: Seq<InodeView>, entries: Seq<DirEntryView>, id: u64, n: nat) -> bool
    decreases n,
{
    n == 0 || (parent_of(inodes, entries, id) matches Some(parent) && climbs(
        inodes,
        entries,
        parent,
        (n - 1) as nat,
    ))
}

/// The way up from the directory `id` comes to an end.
pub open spec fn ends(inodes: Seq<InodeView>, entries: Seq<DirEntryView>, id: u64) -> bool {
    exists|n: nat| !#[trigger] climbs(inodes, entries, id, n)
}

/// No directory is above itself: the way up from each comes to an end.
pub open spec fn acyclic(inodes: Seq<InodeView>, entries: Seq<DirEntryView>) -> bool {
    forall|i: int|
        0 <= i < inodes.len() && (#[trigger] inodes[i]).kind == InodeKind::Directory ==> ends(
            inodes,
            entries,
            inodes[i].id,
        )
}

/// The inodes but those with this identifier.
pub open spec fn without_id(inodes: Seq<InodeView>, id: u64) -> Seq<InodeView> {
    inodes.filter(|inode: InodeView| inode.id != id)
}

/// The tables after a directory was moved over another.
pub struct Moved {
    pub allocator: AllocView,
    pub inodes: Seq<InodeView>,
    pub entries: Seq<DirEntryView>,
}

/// The entry at `destination` may give way to that at `source`: both name directories, not the
/// same and not the root, and the one that goes is empty and has no other name.
pub open spec fn overwritable(inodes: Seq<InodeView>, entries: Seq<DirEntryView>, source: int, destination: int) -> bool {
    let from = entries[source].target;
    let over = entries[destination].target;
    &&& from != over
    &&& namespace::has_kind(inodes, from, InodeKind::Directory)
    &&& namespace::has_kind(inodes, over, InodeKind::Directory)
    &&& from != ROOT_INODE_ID
    &&& over != ROOT_INODE_ID
    &&& hard_unlink_tx::link_count(entries, over) == 1
    &&& forall|e: int| 0 <= e < entries.len() ==> (#[trigger] entries[e]).parent != over
}

/// The directory table once the entry at `source` has taken the place of that at `destination`.
pub open spec fn moved_entries(entries: Seq<DirEntryView>, source: int, destination: int) -> Seq<DirEntryView> {
    entries.update(
        source,
        DirEntryView {
            parent: entries[destination].parent,
            target: entries[source].target,
            name: entries[destination].name,
        },
    ).remove(destination)
}

/// A directory moved over another: its name, inode and blocks go. Nothing is to be done where both
/// names are the same.
pub open spec fn moved(
    a: AllocView,
    inodes: Seq<InodeView>,
    entries: Seq<DirEntryView>,
    old_parent: u64,
    old_name: Seq<char>,
    new_parent: u64,
    new_name: Seq<char>,
) -> Result<Option<Moved>, ErrorKind> {
    if !namespace::has_kind(inodes, old_parent, InodeKind::Directory) || !namespace::has_kind(
        inodes,
        new_parent,
        InodeKind::Directory,
    ) {
        Err(ErrorKind::InvalidInput)
    } else {
        match (
            path_lookup::entry_index(entries, old_parent, old_name),
            path_lookup::entry_index(entries, new_parent, new_name),
        ) {
            (Some(source), Some(destination)) => if source == destination {
                Ok(None)
            } else if !overwritable(inodes, entries, source, destination) {
                Err(ErrorKind::InvalidInput)
            } else {
                let over = entries[destination].target;
                let gone = inodes[file_blocks::index_of(inodes, over)->Some_0];
                let desired = moved_entries(entries, source, destination);
                match a.releasing(gone.blocks) {
                    Some(allocator) if directory_codec::valid_entry(
                        DirEntryView {
                            parent: new_parent,
                            target: entries[source].target,
                            name: new_name,
                        },
                    ) && acyclic(inodes, desired) => Ok(
                        Some(
                            Moved { allocator, inodes: without_id(inodes, over), entries: desired },
                        ),
                    ),
                    _ => Err(ErrorKind::InvalidInput),
                }
            },
            _ => Err(ErrorKind::InvalidInput),
        }
    }
}

/// A directory moved over an empty one.
pub open spec fn move_over_step(
    disk: Disk,
    sb: Superblock,
    old_parent: u64,
    old_name: Seq<char>,
    new_parent: u64,
    new_name: Seq<char>,
) -> Step<RecoveryReport> {
    match (
        fsck::checked(disk),
        file_blocks::tables_on(disk, sb),
        directory_table::entries_on(disk, sb),
    ) {
        (Err(k), _, _) => step::stay(disk, Err(k)),
        (_, Err(k), _) => step::stay(disk, Err(k)),
        (_, _, Err(k)) => step::stay(disk, Err(k)),
        (Ok(_), Ok((a, inodes)), Ok(entries)) => match moved(
            a,
            inodes,
            entries,
            old_parent,
            old_name,
            new_parent,
            new_name,
        ) {
            Err(k) => step::stay(disk, Err(k)),
            Ok(None) => step::stay(disk, Ok(recovery::no_recovery())),
            Ok(Some(m)) => update::settled_update_step(
                disk,
                sb,
                Update {
                    allocator: Some(m.allocator),
                    inodes: Some(m.inodes),
                    entries: Some(m.entries),
                    data: Seq::empty(),
                },
                false,
            ),
        },
    }
}

/// A directory moved over an empty one, both by path name.
pub open spec fn move_over_at_step(disk: Disk, sb: Superblock, source: Seq<char>, destination: Seq<char>) -> Step<RecoveryReport> {
    match (path_create::destination_parts(source), path_create::destination_parts(destination)) {
        (Some((old_path, old_name)), Some((new_path, new_name))) => path_lookup::resolved_then(
            disk,
            sb,
            old_path,
            |old_parent: u64|
                path_lookup::resolved_then(
                    disk,
                    sb,
                    new_path,
                    |new_parent: u64|
                        move_over_step(disk, sb, old_parent, old_name, new_parent, new_name),
                ),
        ),
        _ => step::stay(disk, Err(ErrorKind::InvalidInput)),
    }
}

proof fn lemma_parent_named(inodes: Seq<InodeView>, entries: Seq<DirEntryView>, id: u64)
    ensures
        parent_of(inodes, entries, id) is Some ==> exists|e: int|
            0 <= e < entries.len() && (#[trigger] entries[e]).target == id,
    decreases entries.len(),
{
    if entries.len() > 0 && parent_of(inodes, entries, id) is Some {
        if entries.last().target == id {
            assert(entries[entries.len() - 1].target == id);
        } else {
            lemma_parent_named(inodes, entries.drop_last(), id);
            let e = choose|e: int|
                0 <= e < entries.drop_last().len() && (#[trigger] entries.drop_last()[e]).target
                    == id;
            assert(entries[e].target == id);
        }
    }
}

/// `path` goes up, one directory after the other, and then to `current`.
spec fn goes_up(inodes: Seq<InodeView>, entries: Seq<DirEntryView>, path: Seq<u64>, current: u64) -> bool {
    forall|k: int|
        0 <= k < path.len() ==> parent_of(inodes, entries, #[trigger] path[k]) == Some(
            if k + 1 < path.len() {
                path[k + 1]
            } else {
                current
            },
        )
}

proof fn lemma_climbs_along(inodes: Seq<InodeView>, entries: Seq<DirEntryView>, path: Seq<u64>, current: u64, from: int, n: nat)
    requires
        goes_up(inodes, entries, path, current),
        0 <= from <= path.len(),
        climbs(inodes, entries, current, n),
    ensures
        from < path.len() ==> climbs(
            inodes,
            entries,
            path[from],
            (path.len() - from + n) as nat,
        ),
    decreases path.len() - from,
{
    if from < path.len() {
        lemma_climbs_along(inodes, entries, path, current, from + 1, n);
        assert(parent_of(inodes, entries, path[from]) is Some);
    }
}

/// Who can go up so often can go up less often.
pub proof fn lemma_climbs_less(inodes: Seq<InodeView>, entries: Seq<DirEntryView>, id: u64, n: nat, m: nat)
    requires
        climbs(inodes, entries, id, n),
        m <= n,
    ensures
        climbs(inodes, entries, id, m),
    decreases m,
{
    if m > 0 {
        let parent = parent_of(inodes, entries, id)->Some_0;
        lemma_climbs_less(inodes, entries, parent, (n - 1) as nat, (m - 1) as nat);
    }
}

/// On a way up that comes back to where it has been one can go up for ever.
proof fn lemma_round_trip(inodes: Seq<InodeView>, entries: Seq<DirEntryView>, path: Seq<u64>, at: int, n: nat)
    requires
        0 <= at < path.len(),
        goes_up(inodes, entries, path, path[at]),
    ensures
        climbs(inodes, entries, path[at], n),
    decreases n,
{
    if n > 0 {
        lemma_round_trip(inodes, entries, path, at, (n - 1) as nat);
        lemma_climbs_along(inodes, entries, path, path[at], at, (n - 1) as nat);
        lemma_climbs_less(
            inodes,
            entries,
            path[at],
            (path.len() - at + n - 1) as nat,
            n,
        );
    }
}

proof fn lemma_path_bound(inodes: Seq<InodeView>, entries: Seq<DirEntryView>, path: Seq<u64>, current: u64)
    requires
        goes_up(inodes, entries, path, current),
        path.no_duplicates(),
    ensures
        path.len() <= entries.len(),
{
    let targets = entries.map_values(|e: DirEntryView| e.target);
    path.unique_seq_to_set();
    vstd::seq_lib::seq_to_set_is_finite(targets);
    targets.lemma_cardinality_of_set();
    assert(path.to_set().subset_of(targets.to_set())) by {
        assert forall|id: u64| path.to_set().contains(id) implies targets.to_set().contains(id) by {
            let k = choose|k: int| 0 <= k < path.len() && path[k] == id;
            assert(parent_of(inodes, entries, path[k]) is Some);
            lemma_parent_named(inodes, entries, id);
            let e = choose|e: int| 0 <= e < entries.len() && (#[trigger] entries[e]).target == id;
            assert(targets[e] == id);
        }
    }
    vstd::set_lib::lemma_len_subset(path.to_set(), targets.to_set());
}

/// Whether an inode is a directory.
fn is_directory(inodes: &[PersistedInode], id: u64) -> (b: bool)
    ensures
        b == namespace::has_kind(inode_table::inode_views(inodes@), id, InodeKind::Directory),
{
    match find_inode(inodes, id) {
        Some(i) => inodes[i].kind == InodeKind::Directory,
        None => false,
    }
}

fn find_parent(inodes: &[PersistedInode], entries: &[PersistedDirectoryEntry], id: u64) -> (r: Option<u64>)
    ensures
        r == parent_of(
            inode_table::inode_views(inodes@),
            directory_table::entry_views(entries@),
            id,
        ),
{
    let ghost table = inode_table::inode_views(inodes@);
    let ghost views = directory_table::entry_views(entries@);
    if !is_directory(inodes, id) {
        return None;
    }
    let mut n: usize = entries.len();
    assert(views.subrange(0, n as int) =~= views);
    while n > 0
        invariant
            n <= entries@.len(),
            views == directory_table::entry_views(entries@),
            table == inode_table::inode_views(inodes@),
            namespace::has_kind(table, id, InodeKind::Directory),
            parent_of(table, views, id) == parent_of(table, views.subrange(0, n as int), id),
        decreases n,
    {
        proof {
            let part = views.subrange(0, n as int);
            assert(part.drop_last() =~= views.subrange(0, n - 1));
            assert(part.last() == entries@[n - 1]@);
        }
        if entries[n - 1].target == id {
            return Some(entries[n - 1].parent);
        }
        n -= 1;
    }
    None
}

fn holds(path: &Vec<u64>, id: u64) -> (r: Option<usize>)
    ensures
        match r {
            Some(at) => at < path@.len() && path@[at as int] == id,
            None => !path@.contains(id),
        },
{
    let mut i: usize = 0;
    while i < path.len()
        invariant
            i <= path@.len(),
            forall|k: int| 0 <= k < i ==> #[trigger] path@[k] != id,
        decreases path@.len() - i,
    {
        if path[i] == id {
            return Some(i);
        }
        i += 1;
    }
    None
}

/// Whether the way up from a directory comes to an end.
fn comes_to_an_end(inodes: &[PersistedInode], entries: &[PersistedDirectoryEntry], id: u64) -> (b: bool)
    ensures
        b == ends(
            inode_table::inode_views(inodes@),
            directory_table::entry_views(entries@),
            id,
        ),
{
    let ghost table = inode_table::inode_views(inodes@);
    let ghost views = directory_table::entry_views(entries@);
    let mut path: Vec<u64> = Vec::new();
    let mut current: u64 = id;
    loop
        invariant
            table == inode_table::inode_views(inodes@),
            views == directory_table::entry_views(entries@),
            goes_up(table, views, path@, current),
            path@.no_duplicates(),
            path@.len() <= views.len(),
            id == if path@.len() == 0 {
                current
            } else {
                path@[0]
            },
        decreases views.len() - path@.len(),
    {
        let parent: u64 = match find_parent(inodes, entries, current) {
            Some(parent) => parent,
            None => {
                proof {
                    assert forall|n: nat| n > path@.len() implies !climbs(table, views, id, n) by {
                        lemma_stops(table, views, path@, current, 0, n);
                    }
                    assert(!climbs(table, views, id, path@.len() + 1));
                }
                return true;
            },
        };
        if let Some(at) = holds(&path, current) {
            proof {
                assert forall|n: nat| climbs(table, views, id, n) by {
                    lemma_round_trip(table, views, path@, at as int, n);
                    lemma_climbs_along(table, views, path@, current, 0, n);
                    lemma_climbs_less(table, views, id, (path@.len() + n) as nat, n);
                }
            }
            return false;
        }
        let ghost before = path@;
        path.push(current);
        proof {
            assert forall|k: int| 0 <= k < path@.len() implies parent_of(
                table,
                views,
                #[trigger] path@[k],
            ) == Some(
                if k + 1 < path@.len() {
                    path@[k + 1]
                } else {
                    parent
                },
            ) by {
                if k < before.len() {
                    assert(parent_of(table, views, before[k]) is Some);
                }
            }
            lemma_path_bound(table, views, path@, parent);
        }
        current = parent;
    }
}

proof fn lemma_stops(inodes: Seq<InodeView>, entries: Seq<DirEntryView>, path: Seq<u64>, current: u64, from: int, n: nat)
    requires
        goes_up(inodes, entries, path, current),
        parent_of(inodes, entries, current) is None,
        0 <= from <= path.len(),
        n > path.len() - from,
    ensures
        !climbs(
            inodes,
            entries,
            if from < path.len() {
                path[from]
            } else {
                current
            },
            n,
        ),
    decreases path.len() - from,
{
    if from < path.len() {
        lemma_stops(inodes, entries, path, current, from + 1, (n - 1) as nat);
        assert(parent_of(inodes, entries, path[from]) is Some);
    }
}

/// Whether no directory is above itself.
fn is_acyclic(inodes: &[PersistedInode], entries: &[PersistedDirectoryEntry]) -> (b: bool)
    ensures
        b == acyclic(
            inode_table::inode_views(inodes@),
            directory_table::entry_views(entries@),
        ),
{
    let ghost table = inode_table::inode_views(inodes@);
    let mut i: usize = 0;
    while i < inodes.len()
        invariant
            i <= inodes@.len(),
            table == inode_table::inode_views(inodes@),
            forall|k: int|
                0 <= k < i && (#[trigger] table[k]).kind == InodeKind::Directory ==> ends(
                    table,
                    directory_table::entry_views(entries@),
                    table[k].id,
                ),
        decreases inodes@.len() - i,
    {
        assert(table[i as int] == inodes@[i as int]@);
        if inodes[i].kind == InodeKind::Directory && !comes_to_an_end(
            inodes,
            entries,
            inodes[i].id,
        ) {
            return false;
        }
        i += 1;
    }
    true
}

/// Whether a directory holds nothing.
fn is_empty_directory(entries: &[PersistedDirectoryEntry], id: u64) -> (b: bool)
    ensures
        b == forall|e: int|
            0 <= e < entries@.len() ==> (#[trigger] directory_table::entry_views(
                entries@,
            )[e]).parent != id,
{
    let ghost views = directory_table::entry_views(entries@);
    let mut i: usize = 0;
    while i < entries.len()
        invariant
            i <= entries@.len(),
            views == directory_table::entry_views(entries@),
            forall|e: int| 0 <= e < i ==> (#[trigger] views[e]).parent != id,
        decreases entries@.len() - i,
    {
        assert(views[i as int] == entries@[i as int]@);
        if entries[i].parent == id {
            return false;
        }
        i += 1;
    }
    true
}

fn is_overwritable(inodes: &[PersistedInode], entries: &[PersistedDirectoryEntry], source: usize, destination: usize) -> (b: bool)
    requires
        source < entries@.len(),
        destination < entries@.len(),
    ensures
        b == overwritable(
            inode_table::inode_views(inodes@),
            directory_table::entry_views(entries@),
            source as int,
            destination as int,
        ),
{
    let from: u64 = entries[source].target;
    let over: u64 = entries[destination].target;
    from != over && is_directory(inodes, from) && is_directory(inodes, over) && from
        != ROOT_INODE_ID && over != ROOT_INODE_ID && count_links(entries, over) == 1
        && is_empty_directory(entries, over)
}

/// Removes the inodes with an identifier.
fn remove_inode(inodes: Vec<PersistedInode>, id: u64) -> (r: Vec<PersistedInode>)
    ensures
        inode_table::inode_views(r@) == without_id(inode_table::inode_views(inodes@), id),
{
    let ghost views = inode_table::inode_views(inodes@);
    proof {
        reveal(Seq::filter);
    }
    let mut r: Vec<PersistedInode> = Vec::new();
    assert(inode_table::inode_views(r@) =~= without_id(views.subrange(0, 0), id));
    let mut i: usize = 0;
    while i < inodes.len()
        invariant
            i <= inodes@.len(),
            views == inode_table::inode_views(inodes@),
            inode_table::inode_views(r@) == without_id(views.subrange(0, i as int), id),
        decreases inodes@.len() - i,
    {
        let ghost before = inode_table::inode_views(r@);
        proof {
            reveal(Seq::filter);
            let next = views.subrange(0, i + 1);
            assert(next.drop_last() =~= views.subrange(0, i as int));
            assert(next.last() == inodes@[i as int]@);
        }
        if inodes[i].id != id {
            let inode = inodes[i].clone();
            let ghost kept = inode@;
            r.push(inode);
            assert(inode_table::inode_views(r@) =~= before.push(kept));
        }
        i += 1;
    }
    assert(views.subrange(0, views.len() as int) =~= views);
    r
}

/// The tables after a directory was moved over another; none where there is nothing to do.
fn prepare_move(
    allocator: BlockAllocator,
    inodes: Vec<PersistedInode>,
    entries: Vec<PersistedDirectoryEntry>,
    old_parent: u64,
    old_name: &str,
    new_parent: u64,
    new_name: &str,
) -> (r: Result<
    Option<(BlockAllocator, Vec<PersistedInode>, Vec<PersistedDirectoryEntry>)>,
    Error,
>)
    requires
        allocator@.wf(),
    ensures
        ({
            let plan = moved(
                allocator@,
                inode_table::inode_views(inodes@),
                directory_table::entry_views(entries@),
                old_parent,
                old_name@,
                new_parent,
                new_name@,
            );
            match r {
                Ok(Some((a, i, e))) => plan == Ok::<Option<Moved>, ErrorKind>(
                    Some(
                        Moved {
                            allocator: a@,
                            inodes: inode_table::inode_views(i@),
                            entries: directory_table::entry_views(e@),
                        },
                    ),
                ),
                Ok(None) => plan == Ok::<Option<Moved>, ErrorKind>(None),
                Err(e) => plan == Err::<Option<Moved>, ErrorKind>(e.kind),
            }
        }),
{
    if !is_directory(inodes.as_slice(), old_parent) || !is_directory(
        inodes.as_slice(),
        new_parent,
    ) {
        return Err(invalid_input("directory rename-overwrite parent must be a directory"));
    }
    let source: usize = match find_entry(entries.as_slice(), old_parent, old_name) {
        Some(i) => i,
        None => return Err(invalid_input("directory rename-overwrite source does not exist")),
    };
    let destination: usize = match find_entry(entries.as_slice(), new_parent, new_name) {
        Some(i) => i,
        None => return Err(
            invalid_input("directory rename-overwrite destination does not exist"),
        ),
    };
    if source == destination {
        return Ok(None);
    }
    if !is_overwritable(inodes.as_slice(), entries.as_slice(), source, destination) {
        return Err(
            invalid_input(
                "directory rename-overwrite requires distinct directories and an empty destination",
            ),
        );
    }
    let ghost views = directory_table::entry_views(entries@);
    let ghost table = inode_table::inode_views(inodes@);
    let from: u64 = entries[source].target;
    let over: u64 = entries[destination].target;
    let index: usize = match find_inode(inodes.as_slice(), over) {
        Some(i) => i,
        None => return Err(invalid_input("directory rename-overwrite destination is missing")),
    };
    let mut allocator = allocator;
    if allocator.free_all(inodes[index].blocks.as_slice()).is_err() {
        return Err(invalid_input("destination directory block is not allocator-owned"));
    }
    if new_parent == 0 || from == 0 || !is_valid_name(new_name) {
        return Err(invalid_input("directory rename-overwrite name is invalid"));
    }
    proof {
        path_lookup::lemma_entry_from(views, new_parent, new_name@, 0);
    }
    let mut entries = entries;
    let replacement = PersistedDirectoryEntry {
        parent: new_parent,
        target: from,
        name: new_name.to_owned(),
    };
    let ghost placed = replacement@;
    entries.set(source, replacement);
    assert(directory_table::entry_views(entries@) =~= views.update(source as int, placed));
    entries.remove(destination);
    assert(directory_table::entry_views(entries@) =~= moved_entries(
        views,
        source as int,
        destination as int,
    ));
    if !is_acyclic(inodes.as_slice(), entries.as_slice()) {
        return Err(invalid_input("directory rename-overwrite would create a cycle"));
    }
    let inodes = remove_inode(inodes, over);
    Ok(Some((allocator, inodes, entries)))
}

/// Moves a directory over an empty one, whose inode and blocks are released in the same
/// transaction. The device must pass a strict inspection.
pub fn rename_overwrite_directory_journaled<D: BlockDevice>(
    device: &mut D,
    superblock: &Superblock,
    old_parent: u64,
    old_name: &str,
    new_parent: u64,
    new_name: &str,
) -> (r: Result<RecoveryReport, Error>)
    ensures
        old(device).blocks().len() > 0 ==> journal_region::carried_out(
            old(device),
            final(device),
            *superblock,
            step::kinded(r),
            move_over_step(
                old(device).blocks(),
                *superblock,
                old_parent,
                old_name@,
                new_parent,
                new_name@,
            ),
        ),
        old(device).blocks().len() == 0 ==> r is Err && block::untouched(
            old(device),
            final(device),
        ),
{
    broadcast use journal_region::group_atomic;

    check_device(device)?;
    let (allocator, inodes) = load_tables(device, superblock)?;
    let entries = load_directory_table(device, superblock)?;
    let (allocator, inodes, entries) = match prepare_move(
        allocator,
        inodes,
        entries,
        old_parent,
        old_name,
        new_parent,
        new_name,
    )? {
        Some(tables) => tables,
        None => return Ok(RecoveryReport::default()),
    };
    let none: Vec<(u64, Block)> = Vec::new();
    assert(recovery::write_views(none@) =~= Seq::<HomeWrite>::empty());
    store_update_and_checkpoint(
        device,
        superblock,
        Some(&allocator),
        Some(inodes.as_slice()),
        Some(entries.as_slice()),
        none.as_slice(),
        false,
    )
}

/// Moves the directory that one path names over the empty one that another names.
pub fn rename_overwrite_directory_at_path_journaled<D: BlockDevice>(device: &mut D, superblock: &Superblock, source: &str, destination: &str) -> (r: Result<RecoveryReport, Error>)
    ensures
        old(device).blocks().len() > 0 ==> journal_region::carried_out(
            old(device),
            final(device),
            *superblock,
            step::kinded(r),
            move_over_at_step(old(device).blocks(), *superblock, source@, destination@),
        ),
        old(device).blocks().len() == 0 ==> r is Err && block::untouched(
            old(device),
            final(device),
        ),
        step::turned_away(
            old(device),
            final(device),
            step::kinded(r),
            path_create::destination_parts(source@) is None || path_create::destination_parts(
                destination@,
            ) is None,
        ),
{
    broadcast use journal_region::group_atomic;

    let (old_path, old_name) = split_destination(source)?;
    let (new_path, new_name) = split_destination(destination)?;
    let old_parent: u64 = resolve_path_following_symlinks(device, superblock, old_path)?;
    let new_parent: u64 = resolve_path_following_symlinks(device, superblock, new_path)?;
    rename_overwrite_directory_journaled(
        device,
        superblock,
        old_parent,
        old_name,
        new_parent,
        new_name,
    )
}

proof fn lemma_count_without(inodes: Seq<InodeView>, over: u64, at: int, block: u64)
    requires
        namespace::distinct_ids(inodes),
        -1 <= at < inodes.len(),
        at >= 0 ==> inodes[at].id == over,
        at < 0 ==> forall|i: int| 0 <= i < inodes.len() ==> (#[trigger] inodes[i]).id != over,
    ensures
        create_data_tx::reference_count(without_id(inodes, over), block) + if at >= 0 {
            create_data_tx::occurrences(inodes[at].blocks, block)
        } else {
            0
        } == create_data_tx::reference_count(inodes, block),
    decreases inodes.len(),
{
    reveal(Seq::filter);
    if inodes.len() > 0 {
        let front = inodes.drop_last();
        let n = inodes.len() - 1;
        assert(namespace::distinct_ids(front)) by {
            assert forall|i: int, j: int| 0 <= i < j < front.len() implies (
            #[trigger] front[i]).id != (#[trigger] front[j]).id by {
                assert(inodes[i].id != inodes[j].id);
            }
        }
        if at == n {
            assert forall|i: int| 0 <= i < front.len() implies (#[trigger] front[i]).id != over by {
                assert(inodes[i].id != inodes[n].id);
            }
            lemma_count_without(front, over, -1, block);
        } else {
            assert(inodes[n].id != over) by {
                if at >= 0 {
                    assert(inodes[at].id != inodes[n].id);
                }
            }
            if at < 0 {
                assert forall|i: int| 0 <= i < front.len() implies (#[trigger] front[i]).id
                    != over by {
                    assert(inodes[i].id != over);
                }
            }
            lemma_count_without(front, over, at, block);
            let kept = without_id(front, over);
            assert(without_id(inodes, over) == kept.push(inodes[n]));
            assert(kept.push(inodes[n]).drop_last() =~= kept);
        }
    }
}

/// A directory moved over an empty one is found under the name of that one, whose inode and blocks
/// are gone; nothing else changes.
pub proof fn law_move_over(
    disk: Disk,
    sb: Superblock,
    old_parent: u64,
    old_name: Seq<char>,
    new_parent: u64,
    new_name: Seq<char>,
)
    requires
        soundness::sound_on(disk, sb),
        move_over_step(disk, sb, old_parent, old_name, new_parent, new_name).result is Ok,
    ensures
        ({
            let end = move_over_step(disk, sb, old_parent, old_name, new_parent, new_name).disk;
            let t = soundness::tables_of(disk, sb);
            let n = soundness::tables_of(end, sb);
            let plan = moved(
                t.allocator,
                t.inodes,
                t.entries,
                old_parent,
                old_name,
                new_parent,
                new_name,
            );
            &&& soundness::sound_on(end, sb)
            &&& match plan {
                Ok(Some(m)) => n.allocator == m.allocator && n.inodes == m.inodes && n.entries
                    == m.entries,
                _ => end == disk,
            }
            &&& forall|i: int| sb.data_start() <= i < disk.len() ==> #[trigger] end[i] == disk[i]
        }),
{
    let t = soundness::tables_of(disk, sb);
    soundness::lemma_sound_parts(disk, sb);
    let plan = moved(
        t.allocator,
        t.inodes,
        t.entries,
        old_parent,
        old_name,
        new_parent,
        new_name,
    );
    if let Ok(Some(m)) = plan {
        let source = path_lookup::entry_index(t.entries, old_parent, old_name)->Some_0;
        let destination = path_lookup::entry_index(t.entries, new_parent, new_name)->Some_0;
        path_lookup::lemma_entry_from(t.entries, old_parent, old_name, 0);
        path_lookup::lemma_entry_from(t.entries, new_parent, new_name, 0);
        let over = t.entries[destination].target;
        file_blocks::lemma_index_from(t.inodes, over, 0);
        let at = file_blocks::index_of(t.inodes, over)->Some_0;
        let gone = t.inodes[at];
        naming::law_move_keeps_namespace(t.inodes, t.entries, source, destination);
        naming::lemma_without(t.inodes, over);
        assert forall|block: u64|
            block != crate::inode_codec::SPARSE_HOLE_BLOCK implies (
        #[trigger] create_data_tx::reference_count(m.inodes, block)) + create_data_tx::occurrences(
            gone.blocks,
            block,
        ) == create_data_tx::reference_count(t.inodes, block) by {
            lemma_count_without(t.inodes, over, at, block);
        }
        ownership::law_release_keeps_ownership(t.allocator, t.inodes, m.inodes, gone.blocks);
        let u = Update {
            allocator: Some(m.allocator),
            inodes: Some(m.inodes),
            entries: Some(m.entries),
            data: Seq::empty(),
        };
        assert forall|k: int| 0 <= k < m.inodes.len() implies crate::inode_codec::exact(
            #[trigger] m.inodes[k],
        ) by {
            let i = choose|i: int| 0 <= i < t.inodes.len() && t.inodes[i] == m.inodes[k];
            assert(crate::inode_codec::exact(t.inodes[i]));
        }
        soundness::law_sound_update(disk, sb, u, false);
    }
}

} // verus!
