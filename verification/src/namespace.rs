//! What must hold of the inodes and directory entries of a file system together.

use vstd::prelude::*;
use crate::allocation;
use crate::directory_codec::{DirEntryView, PersistedDirectoryEntry};
use crate::directory_table;
use crate::file_blocks;
use crate::file_blocks::find_inode;
use crate::inode::InodeKind;
use crate::inode_codec::{InodeView, PersistedInode};
use crate::inode_table;
use crate::names::same_text;
use crate::path_lookup::ROOT_INODE_ID;

verus! {

/// No two inodes have the same identifier.
pub open spec fn distinct_ids(inodes: Seq<InodeView>) -> bool {
    forall|i: int, j: int|
        0 <= i < j < inodes.len() ==> (#[trigger] inodes[i]).id != (#[trigger] inodes[j]).id
}

/// The inode `id` exists and has this kind.
pub open spec fn has_kind(inodes: Seq<InodeView>, id: u64, kind: InodeKind) -> bool {
    file_blocks::index_of(inodes, id) matches Some(i) && inodes[i].kind == kind
}

/// The entry stands in a directory and names an inode other than the root.
pub open spec fn sound_entry(inodes: Seq<InodeView>, entry: DirEntryView) -> bool {
    &&& has_kind(inodes, entry.parent, InodeKind::Directory)
    &&& file_blocks::index_of(inodes, entry.target) is Some
    &&& entry.target != ROOT_INODE_ID
}

/// Two entries may stand side by side: they differ in directory or name, and do not name the same
/// directory.
pub open spec fn compatible(inodes: Seq<InodeView>, a: DirEntryView, b: DirEntryView) -> bool {
    &&& !(a.parent == b.parent && a.name == b.name)
    &&& !(a.target == b.target && has_kind(inodes, a.target, InodeKind::Directory))
}

/// Identifiers are distinct, the root is a directory, every entry joins existing inodes, names are
/// unique in their directory, and no directory has two names.
pub open spec fn sound_namespace(inodes: Seq<InodeView>, entries: Seq<DirEntryView>) -> bool {
    &&& distinct_ids(inodes)
    &&& has_kind(inodes, ROOT_INODE_ID, InodeKind::Directory)
    &&& forall|i: int| 0 <= i < entries.len() ==> sound_entry(inodes, #[trigger] entries[i])
    &&& forall|i: int, j: int|
        0 <= i < j < entries.len() ==> compatible(inodes, #[trigger] entries[i], #[trigger] entries[j])
}

/// A chain of at most `n` entries leads from the root to `id`.
pub open spec fn reached(entries: Seq<DirEntryView>, n: nat, id: u64) -> bool
    decreases n,
{
    if n == 0 {
        id == ROOT_INODE_ID
    } else {
        reached(entries, (n - 1) as nat, id) || exists|e: int|
            0 <= e < entries.len() && (#[trigger] entries[e]).target == id && reached(
                entries,
                (n - 1) as nat,
                entries[e].parent,
            )
    }
}

/// A chain of entries leads from the root to `id`.
pub open spec fn reachable(entries: Seq<DirEntryView>, id: u64) -> bool {
    exists|n: nat| #[trigger] reached(entries, n, id)
}

/// The identifiers of the inodes that no chain of entries leads to, in table order.
pub open spec fn unreachable_ids(inodes: Seq<InodeView>, entries: Seq<DirEntryView>) -> Seq<u64>
    decreases inodes.len(),
{
    if inodes.len() == 0 {
        Seq::empty()
    } else {
        let front = unreachable_ids(inodes.drop_last(), entries);
        if reachable(entries, inodes.last().id) {
            front
        } else {
            front.push(inodes.last().id)
        }
    }
}

/// Whatever an entry in a reachable directory names is reachable, and so is the root.
pub proof fn law_reachable_closed(entries: Seq<DirEntryView>, e: int)
    requires
        0 <= e < entries.len(),
        reachable(entries, entries[e].parent),
    ensures
        reachable(entries, entries[e].target),
        reachable(entries, ROOT_INODE_ID),
{
    let n = choose|n: nat| #[trigger] reached(entries, n, entries[e].parent);
    assert(reached(entries, n + 1, entries[e].target));
    assert(reached(entries, 0, ROOT_INODE_ID));
}

proof fn lemma_reached_more(entries: Seq<DirEntryView>, n: nat, m: nat, id: u64)
    requires
        n <= m,
        reached(entries, n, id),
    ensures
        reached(entries, m, id),
    decreases m,
{
    if n < m {
        lemma_reached_more(entries, n, (m - 1) as nat, id);
    }
}

/// Once a round reaches nothing new, no later round does.
proof fn lemma_reached_stable(inodes: Seq<InodeView>, entries: Seq<DirEntryView>, n: nat, m: nat, id: u64)
    requires
        sound_namespace(inodes, entries),
        forall|i: int|
            0 <= i < inodes.len() ==> reached(entries, n + 1, (#[trigger] inodes[i]).id)
                == reached(entries, n, inodes[i].id),
        n <= m,
        reached(entries, m, id),
    ensures
        reached(entries, n, id),
    decreases m,
{
    if m > n {
        if reached(entries, (m - 1) as nat, id) {
            lemma_reached_stable(inodes, entries, n, (m - 1) as nat, id);
        } else {
            let e = choose|e: int|
                0 <= e < entries.len() && (#[trigger] entries[e]).target == id && reached(
                    entries,
                    (m - 1) as nat,
                    entries[e].parent,
                );
            lemma_reached_stable(inodes, entries, n, (m - 1) as nat, entries[e].parent);
            assert(reached(entries, n + 1, id));
            assert(sound_entry(inodes, entries[e]));
            file_blocks::lemma_index_from(inodes, id, 0);
            let i = file_blocks::index_of(inodes, id)->Some_0;
            assert(inodes[i].id == id);
        }
    }
}

fn is_kind(inodes: &[PersistedInode], id: u64, kind: InodeKind) -> (b: bool)
    ensures
        b == has_kind(inode_table::inode_views(inodes@), id, kind),
{
    match find_inode(inodes, id) {
        Some(i) => inodes[i].kind == kind,
        None => false,
    }
}

pub(crate) fn are_ids_distinct(inodes: &[PersistedInode]) -> (b: bool)
    ensures
        b == distinct_ids(inode_table::inode_views(inodes@)),
{
    let ghost views = inode_table::inode_views(inodes@);
    let mut i: usize = 0;
    while i < inodes.len()
        invariant
            i <= inodes@.len(),
            views == inode_table::inode_views(inodes@),
            forall|a: int, b: int|
                0 <= a < b < views.len() && a < i ==> (#[trigger] views[a]).id != (
                #[trigger] views[b]).id,
        decreases inodes@.len() - i,
    {
        let mut j: usize = i + 1;
        while j < inodes.len()
            invariant
                i < j <= inodes@.len(),
                views == inode_table::inode_views(inodes@),
                forall|b: int| i < b < j ==> views[i as int].id != (#[trigger] views[b]).id,
            decreases inodes@.len() - j,
        {
            if inodes[i].id == inodes[j].id {
                assert(views[i as int].id == views[j as int].id);
                return false;
            }
            j += 1;
        }
        i += 1;
    }
    true
}

fn are_compatible(inodes: &[PersistedInode], a: &PersistedDirectoryEntry, b: &PersistedDirectoryEntry) -> (r: bool)
    ensures
        r == compatible(inode_table::inode_views(inodes@), a@, b@),
{
    if a.parent == b.parent && same_text(a.name.as_str(), b.name.as_str()) {
        return false;
    }
    !(a.target == b.target && is_kind(inodes, a.target, InodeKind::Directory))
}

/// Whether the inodes and entries form a sound namespace.
pub fn is_sound_namespace(inodes: &[PersistedInode], entries: &[PersistedDirectoryEntry]) -> (b: bool)
    ensures
        b == sound_namespace(
            inode_table::inode_views(inodes@),
            directory_table::entry_views(entries@),
        ),
{
    let ghost inode_views = inode_table::inode_views(inodes@);
    let ghost views = directory_table::entry_views(entries@);
    if !are_ids_distinct(inodes) || !is_kind(inodes, ROOT_INODE_ID, InodeKind::Directory) {
        return false;
    }
    let mut i: usize = 0;
    while i < entries.len()
        invariant
            i <= entries@.len(),
            inode_views == inode_table::inode_views(inodes@),
            views == directory_table::entry_views(entries@),
            forall|k: int| 0 <= k < i ==> sound_entry(inode_views, #[trigger] views[k]),
            forall|a: int, b: int|
                0 <= a < b < views.len() && a < i ==> compatible(
                    inode_views,
                    #[trigger] views[a],
                    #[trigger] views[b],
                ),
        decreases entries@.len() - i,
    {
        let sound = is_kind(inodes, entries[i].parent, InodeKind::Directory) && find_inode(
            inodes,
            entries[i].target,
        ).is_some() && entries[i].target != ROOT_INODE_ID;
        assert(sound == sound_entry(inode_views, views[i as int]));
        if !sound {
            return false;
        }
        let mut j: usize = i + 1;
        while j < entries.len()
            invariant
                i < j <= entries@.len(),
                inode_views == inode_table::inode_views(inodes@),
                views == directory_table::entry_views(entries@),
                forall|b: int|
                    i < b < j ==> compatible(inode_views, views[i as int], #[trigger] views[b]),
            decreases entries@.len() - j,
        {
            if !are_compatible(inodes, &entries[i], &entries[j]) {
                assert(!compatible(inode_views, views[i as int], views[j as int]));
                return false;
            }
            j += 1;
        }
        i += 1;
    }
    true
}

proof fn lemma_count_grows(a: Seq<bool>, b: Seq<bool>)
    requires
        a.len() == b.len(),
        forall|i: int| 0 <= i < a.len() && a[i] ==> #[trigger] b[i],
    ensures
        allocation::owned_count(a) <= allocation::owned_count(b) <= b.len(),
        (exists|i: int| 0 <= i < a.len() && !a[i] && #[trigger] b[i]) ==> allocation::owned_count(a)
            < allocation::owned_count(b),
    decreases a.len(),
{
    if a.len() > 0 {
        let n = a.len() - 1;
        assert(forall|i: int| 0 <= i < n ==> a.drop_last()[i] == a[i] && b.drop_last()[i] == b[i]);
        lemma_count_grows(a.drop_last(), b.drop_last());
        assert(a[n] ==> b[n]);
        if exists|i: int| 0 <= i < a.len() && !a[i] && #[trigger] b[i] {
            let i = choose|i: int| 0 <= i < a.len() && !a[i] && #[trigger] b[i];
            if i < n {
                assert(!a.drop_last()[i] && b.drop_last()[i]);
            }
        }
    }
}

/// One more round: an inode is marked if it was, or if an entry in a marked directory names it.
fn next_marks(inodes: &[PersistedInode], entries: &[PersistedDirectoryEntry], marks: &Vec<bool>, Ghost(n): Ghost<nat>) -> (r: Vec<bool>)
    requires
        marks@.len() == inodes@.len(),
        sound_namespace(
            inode_table::inode_views(inodes@),
            directory_table::entry_views(entries@),
        ),
        forall|i: int|
            0 <= i < inodes@.len() ==> #[trigger] marks@[i] == reached(
                directory_table::entry_views(entries@),
                n,
                inodes@[i].id,
            ),
    ensures
        r@.len() == inodes@.len(),
        forall|i: int|
            0 <= i < inodes@.len() ==> #[trigger] r@[i] == reached(
                directory_table::entry_views(entries@),
                n + 1,
                inodes@[i].id,
            ),
{
    let ghost inode_views = inode_table::inode_views(inodes@);
    let ghost views = directory_table::entry_views(entries@);
    let mut next: Vec<bool> = Vec::new();
    let mut i: usize = 0;
    while i < inodes.len()
        invariant
            i <= inodes@.len(),
            next@.len() == i,
            marks@.len() == inodes@.len(),
            inode_views == inode_table::inode_views(inodes@),
            views == directory_table::entry_views(entries@),
            sound_namespace(inode_views, views),
            forall|k: int|
                0 <= k < inodes@.len() ==> #[trigger] marks@[k] == reached(views, n, inodes@[k].id),
            forall|k: int| 0 <= k < i ==> #[trigger] next@[k] == reached(views, n + 1, inodes@[k].id),
        decreases inodes@.len() - i,
    {
        let id: u64 = inodes[i].id;
        let mut marked = marks[i];
        let mut e: usize = 0;
        while e < entries.len()
            invariant
                i < inodes@.len(),
                e <= entries@.len(),
                id == inodes@[i as int].id,
                marks@.len() == inodes@.len(),
                inode_views == inode_table::inode_views(inodes@),
                views == directory_table::entry_views(entries@),
                sound_namespace(inode_views, views),
                forall|k: int|
                    0 <= k < inodes@.len() ==> #[trigger] marks@[k] == reached(
                        views,
                        n,
                        inodes@[k].id,
                    ),
                marked == (reached(views, n, id) || exists|k: int|
                    0 <= k < e && (#[trigger] views[k]).target == id && reached(
                        views,
                        n,
                        views[k].parent,
                    )),
            decreases entries@.len() - e,
        {
            assert(views[e as int] == entries@[e as int]@);
            if entries[e].target == id && !marked {
                proof {
                    assert(sound_entry(inode_views, views[e as int]));
                    file_blocks::lemma_index_from(inode_views, views[e as int].parent, 0);
                }
                match find_inode(inodes, entries[e].parent) {
                    Some(p) => {
                        assert(inode_views[p as int].id == views[e as int].parent);
                        if marks[p] {
                            marked = true;
                        }
                    },
                    None => {},
                }
            }
            e += 1;
        }
        next.push(marked);
        i += 1;
    }
    next
}

/// Marks every inode that a chain of entries leads to.
fn mark_reachable(inodes: &[PersistedInode], entries: &[PersistedDirectoryEntry]) -> (marks: Vec<bool>)
    requires
        sound_namespace(
            inode_table::inode_views(inodes@),
            directory_table::entry_views(entries@),
        ),
    ensures
        marks@.len() == inodes@.len(),
        forall|i: int|
            0 <= i < inodes@.len() ==> #[trigger] marks@[i] == reachable(
                directory_table::entry_views(entries@),
                inodes@[i].id,
            ),
{
    let ghost inode_views = inode_table::inode_views(inodes@);
    let ghost views = directory_table::entry_views(entries@);
    let mut marks: Vec<bool> = Vec::new();
    let mut i: usize = 0;
    while i < inodes.len()
        invariant
            i <= inodes@.len(),
            marks@.len() == i,
            forall|k: int| 0 <= k < i ==> #[trigger] marks@[k] == (inodes@[k].id == ROOT_INODE_ID),
        decreases inodes@.len() - i,
    {
        marks.push(inodes[i].id == ROOT_INODE_ID);
        i += 1;
    }
    let ghost mut n: nat = 0;
    let mut done = false;
    proof {
        lemma_count_grows(marks@, marks@);
    }
    while !done
        invariant
            marks@.len() == inodes@.len(),
            inode_views == inode_table::inode_views(inodes@),
            views == directory_table::entry_views(entries@),
            sound_namespace(inode_views, views),
            forall|k: int|
                0 <= k < inodes@.len() ==> #[trigger] marks@[k] == reached(views, n, inodes@[k].id),
            allocation::owned_count(marks@) <= marks@.len(),
            done ==> forall|k: int|
                0 <= k < inode_views.len() ==> reached(views, n + 1, (#[trigger] inode_views[k]).id)
                    == reached(views, n, inode_views[k].id),
        decreases
            inodes@.len() - allocation::owned_count(marks@) + if done {
                0int
            } else {
                1int
            },
    {
        let next = next_marks(inodes, entries, &marks, Ghost(n));
        let mut k: usize = 0;
        let mut same = true;
        while k < next.len()
            invariant
                k <= next@.len() == marks@.len(),
                same ==> forall|j: int| 0 <= j < k ==> #[trigger] next@[j] == marks@[j],
                !same ==> exists|j: int| 0 <= j < next@.len() && #[trigger] next@[j] != marks@[j],
            decreases next@.len() - k,
        {
            if next[k] != marks[k] {
                same = false;
            }
            k += 1;
        }
        proof {
            assert forall|j: int| 0 <= j < marks@.len() && marks@[j] implies #[trigger] next@[j] by {
                assert(reached(views, n, inodes@[j].id));
            }
            lemma_count_grows(marks@, next@);
            if same {
                assert forall|j: int| 0 <= j < inode_views.len() implies reached(
                    views,
                    n + 1,
                    (#[trigger] inode_views[j]).id,
                ) == reached(views, n, inode_views[j].id) by {
                    assert(next@[j] == marks@[j]);
                }
            } else {
                let j = choose|j: int| 0 <= j < next@.len() && #[trigger] next@[j] != marks@[j];
                assert(!marks@[j] && next@[j]);
            }
        }
        if same {
            done = true;
        } else {
            marks = next;
            proof {
                n = n + 1;
            }
        }
    }
    proof {
        assert forall|k: int| 0 <= k < inodes@.len() implies #[trigger] marks@[k] == reachable(
            views,
            inodes@[k].id,
        ) by {
            let id = inodes@[k].id;
            if reachable(views, id) {
                let m = choose|m: nat| #[trigger] reached(views, m, id);
                let top = if m > n {
                    m
                } else {
                    n
                };
                lemma_reached_more(views, m, top, id);
                lemma_reached_stable(inode_views, views, n, top, id);
            }
        }
    }
    marks
}

/// Lists the inodes that no chain of entries leads to, in table order.
pub fn list_unreachable(inodes: &[PersistedInode], entries: &[PersistedDirectoryEntry]) -> (ids: Vec<u64>)
    requires
        sound_namespace(
            inode_table::inode_views(inodes@),
            directory_table::entry_views(entries@),
        ),
    ensures
        ids@ == unreachable_ids(
            inode_table::inode_views(inodes@),
            directory_table::entry_views(entries@),
        ),
{
    let ghost inode_views = inode_table::inode_views(inodes@);
    let ghost views = directory_table::entry_views(entries@);
    let marks = mark_reachable(inodes, entries);
    let mut ids: Vec<u64> = Vec::new();
    let mut i: usize = 0;
    while i < inodes.len()
        invariant
            i <= inodes@.len() == marks@.len(),
            inode_views == inode_table::inode_views(inodes@),
            forall|k: int|
                0 <= k < inodes@.len() ==> #[trigger] marks@[k] == reachable(views, inodes@[k].id),
            ids@ == unreachable_ids(inode_views.subrange(0, i as int), views),
        decreases inodes@.len() - i,
    {
        proof {
            let next = inode_views.subrange(0, i + 1);
            assert(next.drop_last() =~= inode_views.subrange(0, i as int));
            assert(next.last() == inodes@[i as int]@);
        }
        if !marks[i] {
            ids.push(inodes[i].id);
        }
        i += 1;
    }
    assert(inode_views.subrange(0, inode_views.len() as int) =~= inode_views);
    ids
}

} // verus!
