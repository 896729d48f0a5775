//! What becomes of names when a directory is moved over an empty one.

use vstd::prelude::*;
use crate::allocation;
use crate::block::Disk;
use crate::directory_codec::DirEntryView;
use crate::error::ErrorKind;
use crate::file_blocks;
use crate::format::Superblock;
use crate::inode::InodeKind;
use crate::inode_codec::InodeView;
use crate::namespace;
use crate::naming;
use crate::path_create;
use crate::path_directory_rename_overwrite;
use crate::path_lookup;
use crate::path_lookup::{MAX_SYMLINK_EXPANSIONS, ROOT_INODE_ID};
use crate::path_resolution;
use crate::soundness;
use crate::soundness::Tables;
use crate::symlink;

verus! {

/// The entry `from` of a directory took the place of the entry `to` of an empty one: the directory
/// is now under the name of the empty one, whose inode and blocks are gone. All other entries,
/// inodes and blocks in use are as before.
pub open spec fn moved_over(t: Tables, n: Tables, from: DirEntryView, to: DirEntryView) -> bool {
    &&& t.entries.contains(from)
    &&& t.entries.contains(to)
    &&& from.target != to.target
    &&& namespace::has_kind(t.inodes, from.target, InodeKind::Directory)
    &&& namespace::has_kind(t.inodes, to.target, InodeKind::Directory)
    &&& forall|e: int| 0 <= e < t.entries.len() ==> (#[trigger] t.entries[e]).parent != to.target
    &&& forall|e: DirEntryView| #[trigger]
        n.entries.contains(e) <==> (e == (DirEntryView { target: from.target, ..to }) || (
        t.entries.contains(e) && e != from && e != to))
    &&& forall|x: InodeView| #[trigger]
        n.inodes.contains(x) <==> t.inodes.contains(x) && x.id != to.target
    &&& forall|b: u64| #[trigger]
        n.allocator.owns(b) <==> t.allocator.owns(b)
            && !t.inodes[file_blocks::index_of(t.inodes, to.target)->Some_0].blocks.contains(b)
}

/// A request to move a directory over an empty one that succeeds moves the directory that the old
/// name stands for over the one that the new name stands for, and does nothing where both names are
/// the same. A sound device stays sound, and no data block is written. The result are the two
/// directories.
pub proof fn law_move_over_tables(
    disk: Disk,
    sb: Superblock,
    old_parent: u64,
    old_name: Seq<char>,
    new_parent: u64,
    new_name: Seq<char>,
) -> (r: (u64, u64))
    requires
        soundness::sound_on(disk, sb),
        path_directory_rename_overwrite::move_over_step(
            disk,
            sb,
            old_parent,
            old_name,
            new_parent,
            new_name,
        ).result is Ok,
    ensures
        ({
            let end = path_directory_rename_overwrite::move_over_step(
                disk,
                sb,
                old_parent,
                old_name,
                new_parent,
                new_name,
            ).disk;
            let t = soundness::tables_of(disk, sb);
            let n = soundness::tables_of(end, sb);
            let from = DirEntryView { parent: old_parent, target: r.0, name: old_name };
            let to = DirEntryView { parent: new_parent, target: r.1, name: new_name };
            &&& soundness::sound_on(end, sb)
            &&& forall|i: int| sb.data_start() <= i < disk.len() ==> #[trigger] end[i] == disk[i]
            &&& if old_parent == new_parent && old_name == new_name {
                end == disk
            } else {
                &&& moved_over(t, n, from, to)
                &&& path_directory_rename_overwrite::acyclic(t.inodes, n.entries)
            }
        }),
{
    let t = soundness::tables_of(disk, sb);
    soundness::lemma_sound_parts(disk, sb);
    path_directory_rename_overwrite::law_move_over(
        disk,
        sb,
        old_parent,
        old_name,
        new_parent,
        new_name,
    );
    let end = path_directory_rename_overwrite::move_over_step(
        disk,
        sb,
        old_parent,
        old_name,
        new_parent,
        new_name,
    ).disk;
    let n = soundness::tables_of(end, sb);
    let source = path_lookup::entry_index(t.entries, old_parent, old_name)->Some_0;
    let destination = path_lookup::entry_index(t.entries, new_parent, new_name)->Some_0;
    path_lookup::lemma_entry_from(t.entries, old_parent, old_name, 0);
    path_lookup::lemma_entry_from(t.entries, new_parent, new_name, 0);
    let from = t.entries[source];
    let to = t.entries[destination];
    if source != destination {
        let over = to.target;
        let at = file_blocks::index_of(t.inodes, over)->Some_0;
        file_blocks::lemma_index_from(t.inodes, over, 0);
        naming::lemma_without(t.inodes, over);
        allocation::law_releasing(t.allocator, t.inodes[at].blocks);
        let placed = DirEntryView { target: from.target, ..to };
        let next = t.entries.update(source, placed);
        assert(n.entries == next.remove(destination));
        assert forall|e: DirEntryView| #[trigger]
            n.entries.contains(e) <==> (e == placed || (t.entries.contains(e) && e != from && e
                != to)) by {
            if n.entries.contains(e) {
                let k = choose|k: int| 0 <= k < n.entries.len() && n.entries[k] == e;
                let j = if k < destination {
                    k
                } else {
                    k + 1
                };
                assert(next[j] == e);
                if j != source {
                    assert(t.entries[j] == e);
                    lemma_entries_differ(t.inodes, t.entries, j, source);
                    lemma_entries_differ(t.inodes, t.entries, j, destination);
                }
            }
            if e == placed || (t.entries.contains(e) && e != from && e != to) {
                let j = if e == placed {
                    source
                } else {
                    choose|j: int| 0 <= j < t.entries.len() && t.entries[j] == e
                };
                assert(next[j] == e);
                let k = if j < destination {
                    j
                } else {
                    j - 1
                };
                assert(n.entries[k] == e);
            }
        }
        assert forall|x: InodeView| #[trigger]
            n.inodes.contains(x) <==> t.inodes.contains(x) && x.id != over by {}
    }
    (from.target, to.target)
}

/// No two entries are the same.
proof fn lemma_entries_differ(inodes: Seq<InodeView>, entries: Seq<DirEntryView>, i: int, j: int)
    requires
        namespace::sound_namespace(inodes, entries),
        0 <= i < entries.len(),
        0 <= j < entries.len(),
        i != j,
    ensures
        entries[i] != entries[j],
{
    if i < j {
        assert(namespace::compatible(inodes, entries[i], entries[j]));
    } else {
        assert(namespace::compatible(inodes, entries[j], entries[i]));
    }
}

/// What is not the directory that went is still in the table, as it was.
proof fn lemma_kept(t: Tables, n: Tables, from: DirEntryView, to: DirEntryView, id: u64)
    requires
        soundness::sound_tables(t),
        soundness::sound_tables(n),
        moved_over(t, n, from, to),
        id != to.target,
    ensures
        match file_blocks::index_of(t.inodes, id) {
            None => file_blocks::index_of(n.inodes, id) is None,
            Some(i) => file_blocks::index_of(n.inodes, id) matches Some(k) && 0 <= i < t.inodes.len()
                && 0 <= k < n.inodes.len() && n.inodes[k] == t.inodes[i] && t.inodes[i].id == id,
        },
{
    file_blocks::lemma_index_from(t.inodes, id, 0);
    file_blocks::lemma_index_from(n.inodes, id, 0);
    if let Some(i) = file_blocks::index_of(t.inodes, id) {
        assert(t.inodes.contains(t.inodes[i]));
        assert(n.inodes.contains(t.inodes[i]));
        let k = choose|k: int| 0 <= k < n.inodes.len() && n.inodes[k] == t.inodes[i];
        let f = file_blocks::index_of(n.inodes, id)->Some_0;
        assert(n.inodes[f].id == n.inodes[k].id);
    } else if let Some(k) = file_blocks::index_of(n.inodes, id) {
        assert(n.inodes.contains(n.inodes[k]));
        assert(t.inodes.contains(n.inodes[k]));
        let i = choose|i: int| 0 <= i < t.inodes.len() && t.inodes[i] == n.inodes[k];
        assert(t.inodes[i].id == id);
    }
}

/// The entry of a name in a directory is the one that is found.
proof fn lemma_found(inodes: Seq<InodeView>, entries: Seq<DirEntryView>, entry: DirEntryView)
    requires
        namespace::sound_namespace(inodes, entries),
        entries.contains(entry),
    ensures
        path_lookup::entry_index(entries, entry.parent, entry.name) matches Some(e) && 0 <= e
            < entries.len() && entries[e] == entry,
{
    path_lookup::lemma_entry_from(entries, entry.parent, entry.name, 0);
    let k = choose|k: int| 0 <= k < entries.len() && entries[k] == entry;
    let e = path_lookup::entry_index(entries, entry.parent, entry.name)->Some_0;
    if e < k {
        assert(namespace::compatible(inodes, entries[e], entries[k]));
    } else if k < e {
        assert(namespace::compatible(inodes, entries[k], entries[e]));
    }
}

/// Every symbolic link leads where it led.
proof fn lemma_kept_links(disk: Disk, end: Disk, sb: Superblock, from: DirEntryView, to: DirEntryView, id: u64)
    requires
        soundness::sound_on(disk, sb),
        soundness::sound_on(end, sb),
        moved_over(soundness::tables_of(disk, sb), soundness::tables_of(end, sb), from, to),
        forall|i: int| sb.data_start() <= i < disk.len() ==> #[trigger] end[i] == disk[i],
        id != to.target,
    ensures
        symlink::symlink_target(end, sb, id) == symlink::symlink_target(disk, sb, id),
{
    reveal(symlink::symlink_target);
    let t = soundness::tables_of(disk, sb);
    let n = soundness::tables_of(end, sb);
    soundness::lemma_sound_parts(disk, sb);
    soundness::lemma_sound_parts(end, sb);
    lemma_kept(t, n, from, to, id);
    if let Some(i) = file_blocks::index_of(t.inodes, id) {
        let k = file_blocks::index_of(n.inodes, id)->Some_0;
        if t.inodes[i].kind == InodeKind::Symlink && t.inodes[i].blocks.len() == 1 {
            crate::contents::lemma_mapped_owned(t.allocator, t.inodes, i, 0);
            crate::contents::lemma_mapped_owned(n.allocator, n.inodes, k, 0);
            let block = t.inodes[i].blocks[0];
            assert(t.inodes[i].blocks.contains(block));
        }
    }
}

/// A walk to anything but the directory that went comes to the same end, unless the directory that
/// was moved is on its way under its old name: then it is not found there.
proof fn lemma_walk_moved(
    disk: Disk,
    end: Disk,
    sb: Superblock,
    from: DirEntryView,
    to: DirEntryView,
    pending: Seq<Seq<char>>,
    current: u64,
    expansions: nat,
    goal: u64,
)
    requires
        soundness::sound_on(disk, sb),
        soundness::sound_on(end, sb),
        moved_over(soundness::tables_of(disk, sb), soundness::tables_of(end, sb), from, to),
        !(from.parent == to.parent && from.name == to.name),
        forall|i: int| sb.data_start() <= i < disk.len() ==> #[trigger] end[i] == disk[i],
        expansions <= MAX_SYMLINK_EXPANSIONS,
        goal != to.target,
        path_lookup::walk(
            disk,
            sb,
            soundness::tables_of(disk, sb).inodes,
            soundness::tables_of(disk, sb).entries,
            pending,
            current,
            expansions,
            true,
        ) == Ok::<u64, ErrorKind>(goal),
    ensures
        ({
            let n = soundness::tables_of(end, sb);
            let after = path_lookup::walk(
                end,
                sb,
                n.inodes,
                n.entries,
                pending,
                current,
                expansions,
                true,
            );
            ||| after == Ok::<u64, ErrorKind>(goal)
            ||| after == Err::<u64, ErrorKind>(ErrorKind::NotFound)
        }),
    decreases MAX_SYMLINK_EXPANSIONS - expansions, pending.len(),
{
    let t = soundness::tables_of(disk, sb);
    let n = soundness::tables_of(end, sb);
    soundness::lemma_sound_parts(disk, sb);
    soundness::lemma_sound_parts(end, sb);
    if pending.len() > 0 {
        let rest = pending.drop_first();
        path_lookup::lemma_entry_from(t.entries, current, pending[0], 0);
        let e = path_lookup::entry_index(t.entries, current, pending[0])->Some_0;
        let entry = t.entries[e];
        assert(t.entries.contains(entry));
        lemma_kept(t, n, from, to, current);
        if entry == from {
            lemma_gone(t, n, from, to);
        } else if entry == to {
            path_lookup::lemma_entry_from(t.entries, to.target, rest[0], 0);
        } else {
            assert(n.entries.contains(entry));
            lemma_found(n.inodes, n.entries, entry);
            lemma_other_target(t, from, to, e);
            lemma_kept(t, n, from, to, entry.target);
            lemma_kept_links(disk, end, sb, from, to, entry.target);
            let i = file_blocks::index_of(t.inodes, entry.target)->Some_0;
            if t.inodes[i].kind != InodeKind::Symlink {
                lemma_walk_moved(
                    disk,
                    end,
                    sb,
                    from,
                    to,
                    rest,
                    entry.target,
                    expansions,
                    goal,
                );
            } else {
                let target = symlink::symlink_target(disk, sb, entry.target)->Ok_0;
                let parts = path_lookup::target_components(target)->Some_0;
                lemma_walk_moved(
                    disk,
                    end,
                    sb,
                    from,
                    to,
                    parts + rest,
                    if path_lookup::is_absolute(target) {
                        ROOT_INODE_ID
                    } else {
                        current
                    },
                    expansions + 1,
                    goal,
                );
            }
        }
    }
}

/// The directory that was moved is no longer under its old name, and nothing else is.
proof fn lemma_gone(t: Tables, n: Tables, from: DirEntryView, to: DirEntryView)
    requires
        soundness::sound_tables(t),
        soundness::sound_tables(n),
        moved_over(t, n, from, to),
        !(from.parent == to.parent && from.name == to.name),
    ensures
        path_lookup::entry_index(n.entries, from.parent, from.name) is None,
        forall|e: int|
            0 <= e < n.entries.len() ==> !((#[trigger] n.entries[e]).parent == from.parent
                && n.entries[e].name == from.name),
{
    path_lookup::lemma_entry_from(n.entries, from.parent, from.name, 0);
    assert forall|e: int| 0 <= e < n.entries.len() implies !((#[trigger] n.entries[e]).parent
        == from.parent && n.entries[e].name == from.name) by {
        let entry = n.entries[e];
        assert(n.entries.contains(entry));
        if t.entries.contains(entry) && entry != from && entry.parent == from.parent && entry.name
            == from.name {
            lemma_found(t.inodes, t.entries, entry);
            lemma_found(t.inodes, t.entries, from);
        }
    }
}

/// No other entry names the directory that went.
proof fn lemma_other_target(t: Tables, from: DirEntryView, to: DirEntryView, e: int)
    requires
        soundness::sound_tables(t),
        t.entries.contains(to),
        namespace::has_kind(t.inodes, to.target, InodeKind::Directory),
        0 <= e < t.entries.len(),
        t.entries[e] != to,
    ensures
        t.entries[e].target != to.target,
{
    let k = choose|k: int| 0 <= k < t.entries.len() && t.entries[k] == to;
    if e < k {
        assert(namespace::compatible(t.inodes, t.entries[e], t.entries[k]));
    } else {
        assert(namespace::compatible(t.inodes, t.entries[k], t.entries[e]));
    }
}

/// The directory that holds another is the one whose entry names it, where no other entry does.
proof fn lemma_parent(inodes: Seq<InodeView>, entries: Seq<DirEntryView>, entry: DirEntryView)
    requires
        namespace::has_kind(inodes, entry.target, InodeKind::Directory),
        entries.contains(entry),
        forall|e: int|
            0 <= e < entries.len() && (#[trigger] entries[e]).target == entry.target ==> entries[e]
                == entry,
    ensures
        path_directory_rename_overwrite::parent_of(inodes, entries, entry.target) == Some(
            entry.parent,
        ),
    decreases entries.len(),
{
    if entries.last().target == entry.target {
        assert(entries[entries.len() - 1] == entry);
    } else {
        let front = entries.drop_last();
        let k = choose|k: int| 0 <= k < entries.len() && entries[k] == entry;
        assert(front[k] == entry);
        assert forall|e: int|
            0 <= e < front.len() && (#[trigger] front[e]).target == entry.target implies front[e]
            == entry by {
            assert(entries[e] == front[e]);
        }
        lemma_parent(inodes, front, entry);
    }
}

/// The same once the directory has been moved.
proof fn lemma_parent_moved(t: Tables, n: Tables, from: DirEntryView, to: DirEntryView, entry: DirEntryView)
    requires
        soundness::sound_tables(t),
        soundness::sound_tables(n),
        moved_over(t, n, from, to),
        n.entries.contains(entry),
        namespace::has_kind(n.inodes, entry.target, InodeKind::Directory),
    ensures
        path_directory_rename_overwrite::parent_of(t.inodes, n.entries, entry.target) == Some(
            entry.parent,
        ),
{
    file_blocks::lemma_index_from(n.inodes, entry.target, 0);
    let k = file_blocks::index_of(n.inodes, entry.target)->Some_0;
    assert(n.inodes.contains(n.inodes[k]));
    lemma_kept(t, n, from, to, entry.target);
    let j = choose|j: int| 0 <= j < n.entries.len() && n.entries[j] == entry;
    assert forall|e: int|
        0 <= e < n.entries.len() && (#[trigger] n.entries[e]).target == entry.target implies n.entries[e]
        == entry by {
        if e < j {
            assert(namespace::compatible(n.inodes, n.entries[e], n.entries[j]));
        } else if j < e {
            assert(namespace::compatible(n.inodes, n.entries[j], n.entries[e]));
        }
    }
    lemma_parent(t.inodes, n.entries, entry);
}

/// From the end of a walk without symbolic links one can go up once more for each step of it.
proof fn lemma_up_again(
    end: Disk,
    sb: Superblock,
    t: Tables,
    from: DirEntryView,
    to: DirEntryView,
    pending: Seq<Seq<char>>,
    current: u64,
    goal: u64,
    k: nat,
)
    requires
        soundness::sound_on(end, sb),
        soundness::sound_tables(t),
        moved_over(t, soundness::tables_of(end, sb), from, to),
        path_lookup::walk(
            end,
            sb,
            soundness::tables_of(end, sb).inodes,
            soundness::tables_of(end, sb).entries,
            pending,
            current,
            MAX_SYMLINK_EXPANSIONS as nat,
            true,
        ) == Ok::<u64, ErrorKind>(goal),
        namespace::has_kind(soundness::tables_of(end, sb).inodes, goal, InodeKind::Directory),
        path_directory_rename_overwrite::climbs(
            t.inodes,
            soundness::tables_of(end, sb).entries,
            current,
            k,
        ),
    ensures
        path_directory_rename_overwrite::climbs(
            t.inodes,
            soundness::tables_of(end, sb).entries,
            goal,
            k + pending.len(),
        ),
    decreases pending.len(),
{
    let n = soundness::tables_of(end, sb);
    soundness::lemma_sound_parts(end, sb);
    if pending.len() > 0 {
        let rest = pending.drop_first();
        path_lookup::lemma_entry_from(n.entries, current, pending[0], 0);
        let e = path_lookup::entry_index(n.entries, current, pending[0])->Some_0;
        let entry = n.entries[e];
        assert(n.entries.contains(entry));
        assert(namespace::has_kind(n.inodes, entry.target, InodeKind::Directory)) by {
            reveal_with_fuel(path_lookup::walk, 2);
        }
        lemma_parent_moved(t, n, from, to, entry);
        assert(path_directory_rename_overwrite::climbs(t.inodes, n.entries, entry.target, k + 1));
        lemma_up_again(end, sb, t, from, to, rest, entry.target, goal, k + 1);
    }
}

/// Below the directory that was moved there is no way, without symbolic links, to the directory that
/// it was moved to.
proof fn lemma_not_below(
    end: Disk,
    sb: Superblock,
    t: Tables,
    from: DirEntryView,
    to: DirEntryView,
    pending: Seq<Seq<char>>,
    k: nat,
)
    requires
        soundness::sound_on(end, sb),
        soundness::sound_tables(t),
        moved_over(t, soundness::tables_of(end, sb), from, to),
        path_lookup::walk(
            end,
            sb,
            soundness::tables_of(end, sb).inodes,
            soundness::tables_of(end, sb).entries,
            pending,
            from.target,
            MAX_SYMLINK_EXPANSIONS as nat,
            true,
        ) == Ok::<u64, ErrorKind>(to.parent),
    ensures
        path_directory_rename_overwrite::climbs(
            t.inodes,
            soundness::tables_of(end, sb).entries,
            from.target,
            k,
        ),
    decreases k,
{
    if k > 0 {
        let n = soundness::tables_of(end, sb);
        soundness::lemma_sound_parts(end, sb);
        let less = (k - 1) as nat;
        lemma_not_below(end, sb, t, from, to, pending, less);
        let placed = DirEntryView { target: from.target, ..to };
        assert(n.entries.contains(placed));
        let j = choose|j: int| 0 <= j < n.entries.len() && n.entries[j] == placed;
        assert(namespace::sound_entry(n.inodes, n.entries[j]));
        lemma_kept(t, n, from, to, from.target);
        lemma_up_again(end, sb, t, from, to, pending, from.target, to.parent, less);
        path_directory_rename_overwrite::lemma_climbs_less(
            t.inodes,
            n.entries,
            to.parent,
            less + pending.len(),
            less,
        );
        lemma_parent_moved(t, n, from, to, placed);
    }
}

/// A walk without symbolic links to the directory that the other was moved to comes to the same end.
proof fn lemma_walk_straight(
    disk: Disk,
    end: Disk,
    sb: Superblock,
    from: DirEntryView,
    to: DirEntryView,
    pending: Seq<Seq<char>>,
    current: u64,
)
    requires
        soundness::sound_on(disk, sb),
        soundness::sound_on(end, sb),
        moved_over(soundness::tables_of(disk, sb), soundness::tables_of(end, sb), from, to),
        path_directory_rename_overwrite::acyclic(
            soundness::tables_of(disk, sb).inodes,
            soundness::tables_of(end, sb).entries,
        ),
        path_lookup::walk(
            disk,
            sb,
            soundness::tables_of(disk, sb).inodes,
            soundness::tables_of(disk, sb).entries,
            pending,
            current,
            MAX_SYMLINK_EXPANSIONS as nat,
            true,
        ) == Ok::<u64, ErrorKind>(to.parent),
    ensures
        path_lookup::walk(
            end,
            sb,
            soundness::tables_of(end, sb).inodes,
            soundness::tables_of(end, sb).entries,
            pending,
            current,
            MAX_SYMLINK_EXPANSIONS as nat,
            true,
        ) == Ok::<u64, ErrorKind>(to.parent),
    decreases pending.len(),
{
    let t = soundness::tables_of(disk, sb);
    let n = soundness::tables_of(end, sb);
    soundness::lemma_sound_parts(disk, sb);
    soundness::lemma_sound_parts(end, sb);
    if pending.len() > 0 {
        let rest = pending.drop_first();
        path_lookup::lemma_entry_from(t.entries, current, pending[0], 0);
        let e = path_lookup::entry_index(t.entries, current, pending[0])->Some_0;
        let entry = t.entries[e];
        assert(t.entries.contains(entry));
        if entry == to {
            let j = choose|j: int| 0 <= j < t.entries.len() && t.entries[j] == to;
            assert(t.entries[j].parent != to.target);
            path_lookup::lemma_entry_from(t.entries, to.target, rest[0], 0);
        } else {
            lemma_walk_straight(disk, end, sb, from, to, rest, entry.target);
            if entry == from {
                lemma_kept(t, n, from, to, from.target);
                let i = file_blocks::index_of(t.inodes, from.target)->Some_0;
                assert(t.inodes[i].id == from.target);
                let k = choose|k: nat| !#[trigger]
                    path_directory_rename_overwrite::climbs(t.inodes, n.entries, from.target, k);
                assert(path_directory_rename_overwrite::ends(t.inodes, n.entries, t.inodes[i].id));
                lemma_not_below(end, sb, t, from, to, rest, k);
            } else {
                assert(n.entries.contains(entry));
                lemma_kept(t, n, from, to, current);
                lemma_found(n.inodes, n.entries, entry);
                lemma_other_target(t, from, to, e);
                lemma_kept(t, n, from, to, entry.target);
            }
        }
    }
}

/// After a directory was moved at paths over an empty one, the destination names the directory that
/// the source named, and the source names nothing. The entry of the empty directory, its inode and
/// its blocks are gone; every other entry and inode is as before, and so is every data block. Nothing
/// changes where both paths name the same entry.
///
/// The way to the destination must not lead out of the moved directory by a symbolic link in it, for
/// the link is no longer where that way looks for it; then the destination is not found. A way on
/// which no link is followed cannot lead through the moved directory.
pub proof fn law_move_over_at_path(disk: Disk, sb: Superblock, source: Seq<char>, destination: Seq<char>, follow: bool)
    requires
        soundness::sound_on(disk, sb),
        path_lookup::path_components(source) is Some,
        path_lookup::path_components(destination) is Some,
        path_directory_rename_overwrite::move_over_at_step(
            disk,
            sb,
            source,
            destination,
        ).result is Ok,
    ensures
        ({
            let end = path_directory_rename_overwrite::move_over_at_step(
                disk,
                sb,
                source,
                destination,
            ).disk;
            let t = soundness::tables_of(disk, sb);
            let n = soundness::tables_of(end, sb);
            let (old_path, old_name) = path_create::destination_parts(source)->Some_0;
            let (new_path, new_name) = path_create::destination_parts(destination)->Some_0;
            &&& path_create::destination_parts(source) is Some
            &&& path_create::destination_parts(destination) is Some
            &&& soundness::sound_on(end, sb)
            &&& forall|i: int| sb.data_start() <= i < disk.len() ==> #[trigger] end[i] == disk[i]
            &&& path_lookup::resolved(disk, sb, old_path, true) matches Ok(old_parent) && (
            path_lookup::resolved(disk, sb, new_path, true) matches Ok(new_parent) && if old_parent
                == new_parent && old_name == new_name {
                end == disk
            } else {
                path_lookup::resolved(disk, sb, source, follow) matches Ok(x) && (
                path_lookup::resolved(disk, sb, destination, follow) matches Ok(y) && {
                let after = path_lookup::resolved(end, sb, destination, follow);
                &&& moved_over(
                    t,
                    n,
                    DirEntryView { parent: old_parent, target: x, name: old_name },
                    DirEntryView { parent: new_parent, target: y, name: new_name },
                )
                &&& path_lookup::resolved(end, sb, source, follow) == Err::<u64, ErrorKind>(
                    ErrorKind::NotFound,
                )
                &&& after == Ok::<u64, ErrorKind>(x) || after == Err::<u64, ErrorKind>(
                    ErrorKind::NotFound,
                )
                &&& path_resolution::resolved_within(disk, sb, new_path, true, 0) is Ok ==> after
                    == Ok::<u64, ErrorKind>(x)
                &&& path_lookup::resolved(end, sb, new_path, true) is Ok ==> after == Ok::<
                    u64,
                    ErrorKind,
                >(x)
                })
            })
        }),
{
    let end = path_directory_rename_overwrite::move_over_at_step(
        disk,
        sb,
        source,
        destination,
    ).disk;
    let t = soundness::tables_of(disk, sb);
    let n = soundness::tables_of(end, sb);
    let (old_path, old_name) = path_create::destination_parts(source)->Some_0;
    let (new_path, new_name) = path_create::destination_parts(destination)->Some_0;
    let old_parent = path_lookup::resolved(disk, sb, old_path, true)->Ok_0;
    let new_parent = path_lookup::resolved(disk, sb, new_path, true)->Ok_0;
    let (x, y) = law_move_over_tables(disk, sb, old_parent, old_name, new_parent, new_name);
    let from = DirEntryView { parent: old_parent, target: x, name: old_name };
    let to = DirEntryView { parent: new_parent, target: y, name: new_name };
    soundness::lemma_sound_parts(disk, sb);
    soundness::lemma_sound_parts(end, sb);
    if !(old_parent == new_parent && old_name == new_name) {
        assert(path_resolution::has_child(disk, sb, old_parent, old_name, x, InodeKind::Directory)) by {
            let e = choose|e: int| 0 <= e < t.entries.len() && t.entries[e] == from;
            assert(t.entries[e] == from);
        }
        assert(path_resolution::has_child(disk, sb, new_parent, new_name, y, InodeKind::Directory)) by {
            let e = choose|e: int| 0 <= e < t.entries.len() && t.entries[e] == to;
            assert(t.entries[e] == to);
        }
        path_resolution::law_child(disk, sb, source, follow, x, InodeKind::Directory);
        path_resolution::law_child(disk, sb, destination, follow, y, InodeKind::Directory);
        path_resolution::lemma_resolved(disk, sb, old_path, true);
        path_resolution::lemma_resolved(disk, sb, new_path, true);
        path_resolution::lemma_resolved(end, sb, old_path, true);
        path_resolution::lemma_resolved(end, sb, new_path, true);
        let old_parts = path_lookup::path_components(old_path)->Some_0;
        let new_parts = path_lookup::path_components(new_path)->Some_0;
        let f = choose|e: int| 0 <= e < t.entries.len() && t.entries[e] == from;
        assert(t.entries[f].parent != y);
        let g = choose|e: int| 0 <= e < t.entries.len() && t.entries[e] == to;
        assert(t.entries[g].parent != y);
        lemma_walk_moved(disk, end, sb, from, to, old_parts, ROOT_INODE_ID, 0, old_parent);
        lemma_walk_moved(disk, end, sb, from, to, new_parts, ROOT_INODE_ID, 0, new_parent);
        lemma_gone(t, n, from, to);
        lemma_kept(t, n, from, to, old_parent);
        lemma_kept(t, n, from, to, new_parent);
        lemma_kept(t, n, from, to, x);
        assert(namespace::sound_entry(t.inodes, t.entries[f]));
        assert(namespace::sound_entry(t.inodes, t.entries[g]));
        path_resolution::law_no_child(end, sb, source, follow);
        path_resolution::law_no_child(end, sb, destination, follow);
        let placed = DirEntryView { parent: new_parent, target: x, name: new_name };
        assert(n.entries.contains(placed));
        if path_lookup::resolved(end, sb, new_path, true) is Ok {
            assert(path_resolution::has_child(
                end,
                sb,
                new_parent,
                new_name,
                x,
                InodeKind::Directory,
            )) by {
                let e = choose|e: int| 0 <= e < n.entries.len() && n.entries[e] == placed;
                assert(n.entries[e] == placed);
            }
            path_resolution::law_child(end, sb, destination, follow, x, InodeKind::Directory);
        }
        if path_resolution::resolved_within(disk, sb, new_path, true, 0) is Ok {
            path_resolution::lemma_within(disk, sb, new_path, true, 0);
            lemma_walk_straight(disk, end, sb, from, to, new_parts, ROOT_INODE_ID);
            path_resolution::lemma_within(end, sb, new_path, true, 0);
        }
    }
}

} // verus!
