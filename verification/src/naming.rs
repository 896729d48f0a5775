//! What requests on names keep: every inode has a path, and no name and no directory occurs twice.

use vstd::prelude::*;
use crate::directory_codec::DirEntryView;
use crate::file_blocks;
use crate::fsck;
use crate::hard_unlink_tx;
use crate::inode::InodeKind;
use crate::inode_codec::InodeView;
use crate::namespace;
use crate::path_directory_rename_overwrite;
use crate::path_lookup;
use crate::path_lookup::ROOT_INODE_ID;

verus! {

/// Every inode of the list has a path.
pub open spec fn all_reachable(inodes: Seq<InodeView>, entries: Seq<DirEntryView>) -> bool {
    forall|i: int|
        0 <= i < inodes.len() ==> namespace::reachable(entries, (#[trigger] inodes[i]).id)
}

/// The list of inodes without a path is empty where every inode has one, and only there.
pub proof fn law_unreachable(inodes: Seq<InodeView>, entries: Seq<DirEntryView>)
    ensures
        namespace::unreachable_ids(inodes, entries).len() == 0 <==> all_reachable(inodes, entries),
    decreases inodes.len(),
{
    if inodes.len() > 0 {
        let front = inodes.drop_last();
        let n = inodes.len() - 1;
        law_unreachable(front, entries);
        if all_reachable(inodes, entries) {
            assert(namespace::reachable(entries, inodes[n].id));
            assert forall|i: int| 0 <= i < front.len() implies namespace::reachable(
                entries,
                (#[trigger] front[i]).id,
            ) by {
                assert(inodes[i] == front[i]);
            }
        }
        if namespace::unreachable_ids(inodes, entries).len() == 0 {
            assert forall|i: int| 0 <= i < inodes.len() implies namespace::reachable(
                entries,
                (#[trigger] inodes[i]).id,
            ) by {
                if i < n {
                    assert(front[i] == inodes[i]);
                }
            }
        }
    }
}

/// Whatever a chain of entries reaches, it reaches where all these entries are still there.
pub proof fn lemma_reached_within(entries: Seq<DirEntryView>, more: Seq<DirEntryView>, n: nat, id: u64)
    requires
        forall|e: int| 0 <= e < entries.len() ==> more.contains(#[trigger] entries[e]),
        namespace::reached(entries, n, id),
    ensures
        namespace::reached(more, n, id),
    decreases n,
{
    if n > 0 {
        if namespace::reached(entries, (n - 1) as nat, id) {
            lemma_reached_within(entries, more, (n - 1) as nat, id);
        } else {
            let e = choose|e: int|
                0 <= e < entries.len() && (#[trigger] entries[e]).target == id
                    && namespace::reached(entries, (n - 1) as nat, entries[e].parent);
            lemma_reached_within(entries, more, (n - 1) as nat, entries[e].parent);
            assert(more.contains(entries[e]));
            let f = choose|f: int| 0 <= f < more.len() && more[f] == entries[e];
            assert(more[f].target == id && namespace::reached(
                more,
                (n - 1) as nat,
                more[f].parent,
            ));
        }
    }
}

/// The same for any chain.
pub proof fn lemma_reachable_within(entries: Seq<DirEntryView>, more: Seq<DirEntryView>, id: u64)
    requires
        forall|e: int| 0 <= e < entries.len() ==> more.contains(#[trigger] entries[e]),
        namespace::reachable(entries, id),
    ensures
        namespace::reachable(more, id),
{
    let n = choose|n: nat| #[trigger] namespace::reached(entries, n, id);
    lemma_reached_within(entries, more, n, id);
}

/// Where an inode is found in a list that has one more at its end.
pub proof fn lemma_index_push(inodes: Seq<InodeView>, inode: InodeView, id: u64)
    ensures
        file_blocks::index_of(inodes.push(inode), id) == match file_blocks::index_of(inodes, id) {
            Some(i) => Some(i),
            None => if inode.id == id {
                Some(inodes.len() as int)
            } else {
                None
            },
        },
{
    let all = inodes.push(inode);
    file_blocks::lemma_index_from(inodes, id, 0);
    file_blocks::lemma_index_from(all, id, 0);
    if let Some(i) = file_blocks::index_of(inodes, id) {
        assert(all[i].id == id);
        let k = file_blocks::index_of(all, id)->Some_0;
        if k < i {
            assert(inodes[k].id == id);
        }
    } else {
        if inode.id == id {
            assert(all[inodes.len() as int].id == id);
        }
        if let Some(k) = file_blocks::index_of(all, id) {
            if k < inodes.len() {
                assert(inodes[k].id == id);
            }
        }
    }
}

/// Inodes that are found keep their kind when another is added at the end.
proof fn lemma_kind_push(inodes: Seq<InodeView>, inode: InodeView, id: u64, kind: InodeKind)
    requires
        file_blocks::index_of(inodes, id) is Some,
    ensures
        namespace::has_kind(inodes.push(inode), id, kind) == namespace::has_kind(inodes, id, kind),
{
    lemma_index_push(inodes, inode, id);
    file_blocks::lemma_index_from(inodes, id, 0);
}

/// A new inode under a new name in a directory keeps the namespace.
pub proof fn law_create_keeps_namespace(inodes: Seq<InodeView>, entries: Seq<DirEntryView>, inode: InodeView, entry: DirEntryView)
    requires
        fsck::strict_namespace(inodes, entries),
        forall|i: int| 0 <= i < inodes.len() ==> (#[trigger] inodes[i]).id != inode.id,
        entry.target == inode.id,
        namespace::has_kind(inodes, entry.parent, InodeKind::Directory),
        path_lookup::entry_index(entries, entry.parent, entry.name) is None,
    ensures
        fsck::strict_namespace(inodes.push(inode), entries.push(entry)),
{
    let next = inodes.push(inode);
    let all = entries.push(entry);
    let n = entries.len() as int;
    path_lookup::lemma_entry_from(entries, entry.parent, entry.name, 0);
    file_blocks::lemma_index_from(inodes, entry.parent, 0);
    file_blocks::lemma_index_from(inodes, ROOT_INODE_ID, 0);
    file_blocks::lemma_index_from(inodes, inode.id, 0);
    lemma_kind_push(inodes, inode, ROOT_INODE_ID, InodeKind::Directory);
    lemma_kind_push(inodes, inode, entry.parent, InodeKind::Directory);
    lemma_index_push(inodes, inode, inode.id);
    assert(namespace::distinct_ids(next));
    assert forall|i: int| 0 <= i < all.len() implies namespace::sound_entry(
        next,
        #[trigger] all[i],
    ) by {
        if i < n {
            assert(namespace::sound_entry(inodes, entries[i]));
            lemma_kind_push(inodes, inode, entries[i].parent, InodeKind::Directory);
            lemma_index_push(inodes, inode, entries[i].target);
        }
    }
    assert forall|i: int, j: int| 0 <= i < j < all.len() implies namespace::compatible(
        next,
        #[trigger] all[i],
        #[trigger] all[j],
    ) by {
        assert(namespace::sound_entry(inodes, entries[i]));
        file_blocks::lemma_index_from(inodes, entries[i].target, 0);
        if j < n {
            assert(namespace::compatible(inodes, entries[i], entries[j]));
            lemma_kind_push(inodes, inode, entries[i].target, InodeKind::Directory);
        } else {
            assert(!(entries[i].parent == entry.parent && entries[i].name == entry.name));
        }
    }
    law_unreachable(inodes, entries);
    assert forall|i: int| 0 <= i < next.len() implies namespace::reachable(
        all,
        (#[trigger] next[i]).id,
    ) by {
        assert forall|e: int| 0 <= e < entries.len() implies all.contains(#[trigger] entries[e]) by {
            assert(all[e] == entries[e]);
        }
        let p = file_blocks::index_of(inodes, entry.parent)->Some_0;
        lemma_reachable_within(entries, all, inodes[p].id);
        if i < inodes.len() {
            lemma_reachable_within(entries, all, inodes[i].id);
        } else {
            assert(all[n] == entry);
            namespace::law_reachable_closed(all, n);
        }
    }
    law_unreachable(next, all);
}

/// A further name for a file or a symbolic link keeps the namespace.
pub proof fn law_link_keeps_namespace(inodes: Seq<InodeView>, entries: Seq<DirEntryView>, entry: DirEntryView)
    requires
        fsck::strict_namespace(inodes, entries),
        namespace::has_kind(inodes, entry.parent, InodeKind::Directory),
        file_blocks::index_of(inodes, entry.target) is Some,
        !namespace::has_kind(inodes, entry.target, InodeKind::Directory),
        path_lookup::entry_index(entries, entry.parent, entry.name) is None,
    ensures
        fsck::strict_namespace(inodes, entries.push(entry)),
{
    let all = entries.push(entry);
    let n = entries.len() as int;
    path_lookup::lemma_entry_from(entries, entry.parent, entry.name, 0);
    assert forall|i: int| 0 <= i < all.len() implies namespace::sound_entry(
        inodes,
        #[trigger] all[i],
    ) by {
        if i < n {
            assert(namespace::sound_entry(inodes, entries[i]));
        }
    }
    assert forall|i: int, j: int| 0 <= i < j < all.len() implies namespace::compatible(
        inodes,
        #[trigger] all[i],
        #[trigger] all[j],
    ) by {
        if j < n {
            assert(namespace::compatible(inodes, entries[i], entries[j]));
        } else {
            assert(!(entries[i].parent == entry.parent && entries[i].name == entry.name));
        }
    }
    law_unreachable(inodes, entries);
    assert forall|i: int| 0 <= i < inodes.len() implies namespace::reachable(
        all,
        (#[trigger] inodes[i]).id,
    ) by {
        assert forall|e: int| 0 <= e < entries.len() implies all.contains(#[trigger] entries[e]) by {
            assert(all[e] == entries[e]);
        }
        lemma_reachable_within(entries, all, inodes[i].id);
    }
    law_unreachable(inodes, all);
}

/// Without an entry that names no directory, chains still reach whatever else they reached.
proof fn lemma_reached_without(inodes: Seq<InodeView>, entries: Seq<DirEntryView>, e: int, n: nat, id: u64)
    requires
        namespace::sound_namespace(inodes, entries),
        0 <= e < entries.len(),
        !namespace::has_kind(inodes, entries[e].target, InodeKind::Directory),
        id != entries[e].target,
        namespace::reached(entries, n, id),
    ensures
        namespace::reached(entries.remove(e), n, id),
    decreases n,
{
    let rest = entries.remove(e);
    if n > 0 {
        if namespace::reached(entries, (n - 1) as nat, id) {
            lemma_reached_without(inodes, entries, e, (n - 1) as nat, id);
        } else {
            let f = choose|f: int|
                0 <= f < entries.len() && (#[trigger] entries[f]).target == id
                    && namespace::reached(entries, (n - 1) as nat, entries[f].parent);
            assert(namespace::sound_entry(inodes, entries[f]));
            lemma_reached_without(inodes, entries, e, (n - 1) as nat, entries[f].parent);
            let g = if f < e {
                f
            } else {
                f - 1
            };
            assert(rest[g] == entries[f]);
            assert(rest[g].target == id && namespace::reached(
                rest,
                (n - 1) as nat,
                rest[g].parent,
            ));
        }
    }
}

/// One of several names of a file or a symbolic link removed keeps the namespace.
pub proof fn law_unlink_keeps_namespace(inodes: Seq<InodeView>, entries: Seq<DirEntryView>, e: int)
    requires
        fsck::strict_namespace(inodes, entries),
        0 <= e < entries.len(),
        !namespace::has_kind(inodes, entries[e].target, InodeKind::Directory),
        hard_unlink_tx::link_count(entries, entries[e].target) >= 2,
    ensures
        fsck::strict_namespace(inodes, entries.remove(e)),
{
    let rest = entries.remove(e);
    let target = entries[e].target;
    assert forall|i: int| 0 <= i < rest.len() implies namespace::sound_entry(
        inodes,
        #[trigger] rest[i],
    ) by {
        let k = if i < e {
            i
        } else {
            i + 1
        };
        assert(namespace::sound_entry(inodes, entries[k]));
    }
    assert forall|i: int, j: int| 0 <= i < j < rest.len() implies namespace::compatible(
        inodes,
        #[trigger] rest[i],
        #[trigger] rest[j],
    ) by {
        let k = if i < e {
            i
        } else {
            i + 1
        };
        let l = if j < e {
            j
        } else {
            j + 1
        };
        assert(namespace::compatible(inodes, entries[k], entries[l]));
    }
    law_unreachable(inodes, entries);
    hard_unlink_tx::law_name_remains(entries, e);
    lemma_named(rest, target);
    let other = choose|o: int| 0 <= o < rest.len() && (#[trigger] rest[o]).target == target;
    assert(namespace::sound_entry(inodes, rest[other]));
    assert forall|i: int| 0 <= i < inodes.len() implies namespace::reachable(
        rest,
        (#[trigger] inodes[i]).id,
    ) by {
        if inodes[i].id == target {
            let holder = rest[other].parent;
            file_blocks::lemma_index_from(inodes, holder, 0);
            let h = file_blocks::index_of(inodes, holder)->Some_0;
            assert(namespace::reachable(entries, inodes[h].id));
            let n = choose|n: nat| #[trigger] namespace::reached(entries, n, holder);
            lemma_reached_without(inodes, entries, e, n, holder);
            namespace::law_reachable_closed(rest, other);
        } else {
            let n = choose|n: nat| #[trigger] namespace::reached(entries, n, inodes[i].id);
            lemma_reached_without(inodes, entries, e, n, inodes[i].id);
        }
    }
    law_unreachable(inodes, rest);
}

/// What is counted is there.
proof fn lemma_named(entries: Seq<DirEntryView>, target: u64)
    requires
        hard_unlink_tx::link_count(entries, target) > 0,
    ensures
        exists|e: int| 0 <= e < entries.len() && (#[trigger] entries[e]).target == target,
    decreases entries.len(),
{
    let n = entries.len() - 1;
    if entries.last().target == target {
        assert(entries[n].target == target);
    } else {
        lemma_named(entries.drop_last(), target);
        let e = choose|e: int|
            0 <= e < entries.drop_last().len() && (#[trigger] entries.drop_last()[e]).target
                == target;
        assert(entries[e].target == target);
    }
}

/// Where identifiers are distinct an inode is found by its identifier.
proof fn lemma_found(inodes: Seq<InodeView>, i: int)
    requires
        namespace::distinct_ids(inodes),
        0 <= i < inodes.len(),
    ensures
        file_blocks::index_of(inodes, inodes[i].id) == Some(i),
{
    file_blocks::lemma_index_from(inodes, inodes[i].id, 0);
    let k = file_blocks::index_of(inodes, inodes[i].id)->Some_0;
    if k < i {
        assert(inodes[k].id != inodes[i].id);
    } else if i < k {
        assert(inodes[i].id != inodes[k].id);
    }
}

/// What is left of a list of inodes without one of them.
pub proof fn lemma_without(inodes: Seq<InodeView>, over: u64)
    requires
        namespace::distinct_ids(inodes),
    ensures
        ({
            let rest = path_directory_rename_overwrite::without_id(inodes, over);
            &&& namespace::distinct_ids(rest)
            &&& forall|k: int|
                0 <= k < rest.len() ==> (#[trigger] rest[k]).id != over && inodes.contains(rest[k])
            &&& forall|i: int|
                0 <= i < inodes.len() && (#[trigger] inodes[i]).id != over ==> rest.contains(
                    inodes[i],
                )
        }),
    decreases inodes.len(),
{
    reveal(Seq::filter);
    let rest = path_directory_rename_overwrite::without_id(inodes, over);
    if inodes.len() > 0 {
        let front = inodes.drop_last();
        let last = inodes.last();
        let n = inodes.len() - 1;
        let kept = path_directory_rename_overwrite::without_id(front, over);
        assert(namespace::distinct_ids(front)) by {
            assert forall|i: int, j: int| 0 <= i < j < front.len() implies (
            #[trigger] front[i]).id != (#[trigger] front[j]).id by {
                assert(inodes[i].id != inodes[j].id);
            }
        }
        lemma_without(front, over);
        assert forall|k: int| 0 <= k < rest.len() implies (#[trigger] rest[k]).id != over
            && inodes.contains(rest[k]) by {
            if k < kept.len() {
                assert(rest[k] == kept[k]);
                let i = choose|i: int| 0 <= i < front.len() && front[i] == kept[k];
                assert(inodes[i] == rest[k]);
            } else {
                assert(inodes[n] == rest[k]);
            }
        }
        assert forall|i: int|
            0 <= i < inodes.len() && (#[trigger] inodes[i]).id != over implies rest.contains(
            inodes[i],
        ) by {
            if i < n {
                assert(front[i] == inodes[i]);
                let k = choose|k: int| 0 <= k < kept.len() && kept[k] == front[i];
                assert(rest[k] == inodes[i]);
            } else {
                assert(rest[rest.len() - 1] == inodes[i]);
            }
        }
        assert forall|i: int, j: int| 0 <= i < j < rest.len() implies (#[trigger] rest[i]).id != (
        #[trigger] rest[j]).id by {
            assert(kept[i] == rest[i]);
            if j < kept.len() {
                assert(kept[j] == rest[j]);
            } else {
                let k = choose|k: int| 0 <= k < front.len() && front[k] == kept[i];
                assert(inodes[k].id != inodes[n].id);
            }
        }
    }
}

/// Every inode but the one that is gone is found with its kind.
proof fn lemma_kind_without(inodes: Seq<InodeView>, over: u64, id: u64, kind: InodeKind)
    requires
        namespace::distinct_ids(inodes),
        id != over,
    ensures
        ({
            let rest = path_directory_rename_overwrite::without_id(inodes, over);
            &&& namespace::has_kind(rest, id, kind) == namespace::has_kind(inodes, id, kind)
            &&& file_blocks::index_of(rest, id) is Some == file_blocks::index_of(inodes, id) is Some
        }),
{
    let rest = path_directory_rename_overwrite::without_id(inodes, over);
    lemma_without(inodes, over);
    file_blocks::lemma_index_from(inodes, id, 0);
    file_blocks::lemma_index_from(rest, id, 0);
    if let Some(i) = file_blocks::index_of(inodes, id) {
        assert(rest.contains(inodes[i]));
        let k = choose|k: int| 0 <= k < rest.len() && rest[k] == inodes[i];
        lemma_found(rest, k);
    }
    if let Some(k) = file_blocks::index_of(rest, id) {
        assert(inodes.contains(rest[k]));
        let i = choose|i: int| 0 <= i < inodes.len() && inodes[i] == rest[k];
        lemma_found(inodes, i);
    }
}

/// A directory that an entry names has a directory above it, by an entry.
proof fn lemma_parent_entry(inodes: Seq<InodeView>, entries: Seq<DirEntryView>, id: u64)
    requires
        namespace::has_kind(inodes, id, InodeKind::Directory),
        exists|e: int| 0 <= e < entries.len() && (#[trigger] entries[e]).target == id,
    ensures
        exists|e: int|
            0 <= e < entries.len() && (#[trigger] entries[e]).target == id
                && path_directory_rename_overwrite::parent_of(inodes, entries, id) == Some(
                entries[e].parent,
            ),
    decreases entries.len(),
{
    let e = choose|e: int| 0 <= e < entries.len() && (#[trigger] entries[e]).target == id;
    let n = entries.len() - 1;
    if entries.last().target == id {
        assert(entries[n].target == id);
    } else {
        let front = entries.drop_last();
        assert(front[e].target == id);
        lemma_parent_entry(inodes, front, id);
        let f = choose|f: int|
            0 <= f < front.len() && (#[trigger] front[f]).target == id
                && path_directory_rename_overwrite::parent_of(inodes, front, id) == Some(
                front[f].parent,
            );
        assert(entries[f] == front[f]);
    }
}

/// A directory from which the way up ends is reachable, where every directory but the root has a
/// name in a directory.
proof fn lemma_climbed(inodes: Seq<InodeView>, entries: Seq<DirEntryView>, over: u64, id: u64, n: nat)
    requires
        namespace::has_kind(inodes, id, InodeKind::Directory),
        id != over,
        forall|i: int|
            0 <= i < inodes.len() && (#[trigger] inodes[i]).id != over && inodes[i].id
                != ROOT_INODE_ID ==> exists|e: int|
                0 <= e < entries.len() && (#[trigger] entries[e]).target == inodes[i].id,
        forall|e: int|
            0 <= e < entries.len() ==> namespace::has_kind(
                inodes,
                (#[trigger] entries[e]).parent,
                InodeKind::Directory,
            ) && entries[e].parent != over,
        !path_directory_rename_overwrite::climbs(inodes, entries, id, n),
    ensures
        namespace::reachable(entries, id),
    decreases n,
{
    if id == ROOT_INODE_ID {
        assert(namespace::reached(entries, 0, id));
    } else {
        file_blocks::lemma_index_from(inodes, id, 0);
        let i = file_blocks::index_of(inodes, id)->Some_0;
        assert(inodes[i].id == id);
        lemma_parent_entry(inodes, entries, id);
        let e = choose|e: int|
            0 <= e < entries.len() && (#[trigger] entries[e]).target == id
                && path_directory_rename_overwrite::parent_of(inodes, entries, id) == Some(
                entries[e].parent,
            );
        lemma_climbed(inodes, entries, over, entries[e].parent, (n - 1) as nat);
        namespace::law_reachable_closed(entries, e);
    }
}

/// A directory moved over an empty one keeps the namespace, without the one that went.
pub proof fn law_move_keeps_namespace(inodes: Seq<InodeView>, entries: Seq<DirEntryView>, source: int, destination: int)
    requires
        fsck::strict_namespace(inodes, entries),
        0 <= source < entries.len(),
        0 <= destination < entries.len(),
        source != destination,
        path_directory_rename_overwrite::overwritable(inodes, entries, source, destination),
        path_directory_rename_overwrite::acyclic(
            inodes,
            path_directory_rename_overwrite::moved_entries(entries, source, destination),
        ),
    ensures
        fsck::strict_namespace(
            path_directory_rename_overwrite::without_id(inodes, entries[destination].target),
            path_directory_rename_overwrite::moved_entries(entries, source, destination),
        ),
{
    let over = entries[destination].target;
    let from = entries[source].target;
    let rest = path_directory_rename_overwrite::without_id(inodes, over);
    let desired = path_directory_rename_overwrite::moved_entries(entries, source, destination);
    lemma_without(inodes, over);
    lemma_kind_without(inodes, over, ROOT_INODE_ID, InodeKind::Directory);
    assert(namespace::sound_entry(inodes, entries[destination]));
    assert(entries[destination].parent != over);
    assert forall|e: int| 0 <= e < desired.len() implies ({
        let k = if e < destination {
            e
        } else {
            e + 1
        };
        &&& (#[trigger] desired[e]).target == entries[k].target
        &&& desired[e].parent == if k == source {
            entries[destination].parent
        } else {
            entries[k].parent
        }
        &&& desired[e].name == if k == source {
            entries[destination].name
        } else {
            entries[k].name
        }
        &&& desired[e].target != over
        &&& desired[e].parent != over
        &&& namespace::has_kind(inodes, desired[e].parent, InodeKind::Directory)
        &&& file_blocks::index_of(inodes, desired[e].target) is Some
        &&& desired[e].target != ROOT_INODE_ID
    }) by {
        let k = if e < destination {
            e
        } else {
            e + 1
        };
        assert(namespace::sound_entry(inodes, entries[k]));
        if k < destination {
            assert(namespace::compatible(inodes, entries[k], entries[destination]));
        } else {
            assert(namespace::compatible(inodes, entries[destination], entries[k]));
        }
        assert(entries[k].parent != over);
    }
    assert forall|e: int| 0 <= e < desired.len() implies namespace::sound_entry(
        rest,
        #[trigger] desired[e],
    ) by {
        lemma_kind_without(inodes, over, desired[e].parent, InodeKind::Directory);
        lemma_kind_without(inodes, over, desired[e].target, InodeKind::Directory);
    }
    assert forall|i: int, j: int| 0 <= i < j < desired.len() implies namespace::compatible(
        rest,
        #[trigger] desired[i],
        #[trigger] desired[j],
    ) by {
        let k = if i < destination {
            i
        } else {
            i + 1
        };
        let l = if j < destination {
            j
        } else {
            j + 1
        };
        lemma_kind_without(inodes, over, desired[i].target, InodeKind::Directory);
        assert(namespace::compatible(inodes, entries[k], entries[l]));
        let m = if k == source {
            l
        } else {
            k
        };
        if m < destination {
            assert(namespace::compatible(inodes, entries[m], entries[destination]));
        } else {
            assert(namespace::compatible(inodes, entries[destination], entries[m]));
        }
    }
    law_unreachable(inodes, entries);
    assert forall|i: int|
        0 <= i < inodes.len() && (#[trigger] inodes[i]).id != over && inodes[i].id
            != ROOT_INODE_ID implies exists|e: int|
        0 <= e < desired.len() && (#[trigger] desired[e]).target == inodes[i].id by {
        let n = choose|n: nat| #[trigger] namespace::reached(entries, n, inodes[i].id);
        lemma_reached_named(entries, n, inodes[i].id);
        let k = choose|k: int|
            0 <= k < entries.len() && (#[trigger] entries[k]).target == inodes[i].id;
        let e = if k < destination {
            k
        } else {
            k - 1
        };
        assert(desired[e].target == inodes[i].id);
    }
    assert forall|k: int| 0 <= k < rest.len() implies namespace::reachable(
        desired,
        (#[trigger] rest[k]).id,
    ) by {
        let i = choose|i: int| 0 <= i < inodes.len() && inodes[i] == rest[k];
        lemma_found(inodes, i);
        if inodes[i].kind == InodeKind::Directory {
            lemma_acyclic_reachable(inodes, desired, over, i);
        } else {
            assert(inodes[i].id != ROOT_INODE_ID);
            let e = choose|e: int|
                0 <= e < desired.len() && (#[trigger] desired[e]).target == inodes[i].id;
            let p = desired[e].parent;
            file_blocks::lemma_index_from(inodes, p, 0);
            let h = file_blocks::index_of(inodes, p)->Some_0;
            lemma_acyclic_reachable(inodes, desired, over, h);
            namespace::law_reachable_closed(desired, e);
        }
    }
    law_unreachable(rest, desired);
}

/// What is reached is the root or has a name.
proof fn lemma_reached_named(entries: Seq<DirEntryView>, n: nat, id: u64)
    requires
        namespace::reached(entries, n, id),
        id != ROOT_INODE_ID,
    ensures
        exists|e: int| 0 <= e < entries.len() && (#[trigger] entries[e]).target == id,
    decreases n,
{
    if n > 0 && namespace::reached(entries, (n - 1) as nat, id) {
        lemma_reached_named(entries, (n - 1) as nat, id);
    }
}

proof fn lemma_acyclic_reachable(inodes: Seq<InodeView>, entries: Seq<DirEntryView>, over: u64, h: int)
    requires
        namespace::distinct_ids(inodes),
        0 <= h < inodes.len(),
        inodes[h].kind == InodeKind::Directory,
        inodes[h].id != over,
        forall|i: int|
            0 <= i < inodes.len() && (#[trigger] inodes[i]).id != over && inodes[i].id
                != ROOT_INODE_ID ==> exists|e: int|
                0 <= e < entries.len() && (#[trigger] entries[e]).target == inodes[i].id,
        forall|e: int|
            0 <= e < entries.len() ==> namespace::has_kind(
                inodes,
                (#[trigger] entries[e]).parent,
                InodeKind::Directory,
            ) && entries[e].parent != over,
        path_directory_rename_overwrite::acyclic(inodes, entries),
    ensures
        namespace::reachable(entries, inodes[h].id),
{
    lemma_found(inodes, h);
    let id = inodes[h].id;
    let n = choose|n: nat|
        !#[trigger] path_directory_rename_overwrite::climbs(inodes, entries, id, n);
    lemma_climbed(inodes, entries, over, id, n);
}

/// The list of inodes without a path holds each of these and no other.
pub proof fn law_unreachable_ids(inodes: Seq<InodeView>, entries: Seq<DirEntryView>, id: u64)
    ensures
        namespace::unreachable_ids(inodes, entries).contains(id) <==> exists|i: int|
            0 <= i < inodes.len() && (#[trigger] inodes[i]).id == id && !namespace::reachable(
                entries,
                id,
            ),
    decreases inodes.len(),
{
    if inodes.len() > 0 {
        let front = inodes.drop_last();
        let before = namespace::unreachable_ids(front, entries);
        let all = namespace::unreachable_ids(inodes, entries);
        law_unreachable_ids(front, entries, id);
        if before.contains(id) {
            let k = choose|k: int| 0 <= k < before.len() && before[k] == id;
            assert(all[k] == id);
            let i = choose|i: int| 0 <= i < front.len() && (#[trigger] front[i]).id == id;
            assert(inodes[i].id == id);
        }
        if all.contains(id) && !before.contains(id) {
            let k = choose|k: int| 0 <= k < all.len() && all[k] == id;
            if k < before.len() {
                assert(before[k] == id);
            }
            assert(inodes[inodes.len() - 1].id == id);
        }
        if exists|i: int|
            0 <= i < inodes.len() && (#[trigger] inodes[i]).id == id && !namespace::reachable(
                entries,
                id,
            ) {
            let i = choose|i: int|
                0 <= i < inodes.len() && (#[trigger] inodes[i]).id == id && !namespace::reachable(
                    entries,
                    id,
                );
            if i < front.len() {
                assert(front[i].id == id);
            } else {
                assert(all[all.len() - 1] == id);
            }
        }
    }
}

} // verus!
