//! Listing directories by path name.

use vstd::prelude::*;
use vstd::utf8::*;
use crate::block;
use crate::block::{BlockDevice, Disk};
use crate::directory_codec::{DirEntryView, PersistedDirectoryEntry};
use crate::directory_table;
use crate::directory_table::load_directory_table;
use crate::error::{Error, ErrorKind};
use crate::file_blocks;
use crate::file_blocks::{find_inode, invalid_data, invalid_input};
use crate::format::Superblock;
use crate::inode::InodeKind;
use crate::inode_codec::{InodeView, PersistedInode};
use crate::inode_table;
use crate::inode_table::load_inode_table;
use crate::journal_checkpoint;
use crate::journal_checkpoint::recover_journal_and_checkpoint;
use crate::journal_region;
use crate::names;
use crate::names::is_before;
use crate::namespace;
use crate::path_lookup;
use crate::path_lookup::resolve_path_following_symlinks;
use crate::soundness;
use crate::step::Step;

verus! {

/// A child of a directory.
#[derive(Clone, Debug, PartialEq, Eq)]
pub struct PathDirectoryEntry {
    pub name: String,
    pub inode_id: u64,
    pub kind: InodeKind,
}

/// A child of a directory as a value.
pub struct ChildView {
    pub name: Seq<char>,
    pub inode_id: u64,
    pub kind: InodeKind,
}

impl View for PathDirectoryEntry {
    type V = ChildView;

    open spec fn view(&self) -> ChildView {
        ChildView { name: self.name@, inode_id: self.inode_id, kind: self.kind }
    }
}

/// The values of a list of children.
pub open spec fn child_views(children: Seq<PathDirectoryEntry>) -> Seq<ChildView> {
    Seq::new(children.len(), |i: int| children[i]@)
}

/// A list of children as a result on values.
pub open spec fn child_list(r: Result<Vec<PathDirectoryEntry>, Error>) -> Result<Seq<ChildView>, ErrorKind> {
    match r {
        Ok(v) => Ok(child_views(v@)),
        Err(e) => Err(e.kind),
    }
}

/// How many entries at the front of `sorted` do not come after `name`.
pub open spec fn place_for(sorted: Seq<DirEntryView>, name: Seq<char>) -> int
    decreases sorted.len(),
{
    if sorted.len() > 0 && names::text_before(name, sorted.last().name) {
        place_for(sorted.drop_last(), name)
    } else {
        sorted.len() as int
    }
}

/// The entries in the directory `parent`, sorted by name; entries of one name keep their order.
pub open spec fn children_by_name(entries: Seq<DirEntryView>, parent: u64) -> Seq<DirEntryView>
    decreases entries.len(),
{
    if entries.len() == 0 {
        Seq::empty()
    } else {
        let front = children_by_name(entries.drop_last(), parent);
        let entry = entries.last();
        if entry.parent == parent {
            front.insert(place_for(front, entry.name), entry)
        } else {
            front
        }
    }
}

/// The children that a sorted list of entries stands for; none where an inode is missing.
pub open spec fn joined(inodes: Seq<InodeView>, entries: Seq<DirEntryView>) -> Option<Seq<ChildView>>
    decreases entries.len(),
{
    if entries.len() == 0 {
        Some(Seq::empty())
    } else {
        let entry = entries.last();
        match (joined(inodes, entries.drop_last()), file_blocks::index_of(inodes, entry.target)) {
            (Some(front), Some(i)) => Some(
                front.push(
                    ChildView { name: entry.name, inode_id: entry.target, kind: inodes[i].kind },
                ),
            ),
            _ => None,
        }
    }
}

/// The children of the directory `id`, by name.
pub open spec fn listed(disk: Disk, sb: Superblock, id: u64) -> Result<Seq<ChildView>, ErrorKind> {
    match inode_table::inodes_on(disk, sb) {
        Err(k) => Err(k),
        Ok(inodes) => match file_blocks::index_of(inodes, id) {
            None => Err(ErrorKind::InvalidData),
            Some(i) => if inodes[i].kind != InodeKind::Directory {
                Err(ErrorKind::InvalidInput)
            } else {
                match directory_table::entries_on(disk, sb) {
                    Err(k) => Err(k),
                    Ok(entries) => match joined(inodes, children_by_name(entries, id)) {
                        None => Err(ErrorKind::InvalidData),
                        Some(children) => Ok(children),
                    },
                }
            },
        },
    }
}

/// The children of the directory that a path names, by name.
pub open spec fn list_step(disk: Disk, sb: Superblock, path: Seq<char>) -> Step<Seq<ChildView>> {
    journal_checkpoint::settled_then(
        disk,
        sb,
        |d: Disk|
            path_lookup::resolved_then(
                d,
                sb,
                path,
                |id: u64| Step { disk: d, result: listed(d, sb, id) },
            ),
    )
}

/// At most `limit` of the children from `offset` on.
pub open spec fn page_from(children: Seq<ChildView>, offset: int, limit: int) -> Seq<ChildView> {
    let start = if offset < children.len() {
        offset
    } else {
        children.len() as int
    };
    let end = if limit < children.len() - start {
        start + limit
    } else {
        children.len() as int
    };
    children.subrange(start, end)
}

/// Whether a child comes after the cursor.
pub open spec fn past_cursor(cursor: Option<Seq<char>>, child: ChildView) -> bool {
    match cursor {
        None => true,
        Some(name) => names::text_before(name, child.name),
    }
}

/// The children whose names come after the cursor.
pub open spec fn children_past(children: Seq<ChildView>, cursor: Option<Seq<char>>) -> Seq<ChildView> {
    children.filter(|child: ChildView| past_cursor(cursor, child))
}

/// At most `limit` of the children whose names come after the cursor.
pub open spec fn page_after(children: Seq<ChildView>, cursor: Option<Seq<char>>, limit: int) -> Seq<ChildView> {
    page_from(children_past(children, cursor), 0, limit)
}

/// The text of a cursor.
pub open spec fn cursor_text(after_name: Option<&str>) -> Option<Seq<char>> {
    match after_name {
        Some(name) => Some(name@),
        None => None,
    }
}

/// A listing cut down to a page.
pub open spec fn paged(step: Step<Seq<ChildView>>, page: spec_fn(Seq<ChildView>) -> Seq<ChildView>) -> Step<Seq<ChildView>> {
    Step {
        disk: step.disk,
        result: match step.result {
            Ok(children) => Ok(page(children)),
            Err(k) => Err(k),
        },
    }
}

/// Names in ascending order.
pub open spec fn ascending(entries: Seq<DirEntryView>) -> bool {
    forall|i: int, j: int|
        0 <= i < j < entries.len() ==> !names::text_before(
            (#[trigger] entries[j]).name,
            (#[trigger] entries[i]).name,
        )
}

proof fn lemma_place(sorted: Seq<DirEntryView>, name: Seq<char>)
    requires
        ascending(sorted),
    ensures
        0 <= place_for(sorted, name) <= sorted.len(),
        forall|i: int|
            0 <= i < place_for(sorted, name) ==> !names::text_before(
                name,
                (#[trigger] sorted[i]).name,
            ),
        forall|i: int|
            place_for(sorted, name) <= i < sorted.len() ==> names::text_before(
                name,
                (#[trigger] sorted[i]).name,
            ),
    decreases sorted.len(),
{
    if sorted.len() > 0 {
        let last = sorted.last().name;
        let front = sorted.drop_last();
        if names::text_before(name, last) {
            assert(ascending(front)) by {
                assert forall|i: int, j: int| 0 <= i < j < front.len() implies !names::text_before(
                    (#[trigger] front[j]).name,
                    (#[trigger] front[i]).name,
                ) by {
                    assert(front[i] == sorted[i] && front[j] == sorted[j]);
                }
            }
            lemma_place(front, name);
            assert forall|i: int| 0 <= i < front.len() implies #[trigger] sorted[i] == front[i] by {}
        } else {
            assert forall|i: int| 0 <= i < sorted.len() implies !names::text_before(
                name,
                (#[trigger] sorted[i]).name,
            ) by {
                let here = sorted[i].name;
                if i < sorted.len() - 1 && names::text_before(name, here) {
                    assert(!names::text_before(sorted[sorted.len() - 1].name, sorted[i].name));
                    let a = encode_utf8(name);
                    let b = encode_utf8(here);
                    let c = encode_utf8(last);
                    names::lemma_before_total(b, c);
                    if names::bytes_before(b, c) {
                        names::lemma_before_transitive(a, b, c);
                    }
                }
            }
        }
    }
}

/// A listing is in ascending order of names and holds exactly the entries of the directory.
pub proof fn law_children_by_name(entries: Seq<DirEntryView>, parent: u64)
    ensures
        ascending(children_by_name(entries, parent)),
        children_by_name(entries, parent).to_multiset() =~= entries.filter(
            |e: DirEntryView| e.parent == parent,
        ).to_multiset(),
    decreases entries.len(),
{
    broadcast use vstd::seq_lib::group_to_multiset_ensures;

    reveal(Seq::filter);
    if entries.len() > 0 {
        let front = children_by_name(entries.drop_last(), parent);
        let entry = entries.last();
        law_children_by_name(entries.drop_last(), parent);
        if entry.parent == parent {
            lemma_place(front, entry.name);
            let at = place_for(front, entry.name);
            let all = front.insert(at, entry);
            assert forall|i: int, j: int| 0 <= i < j < all.len() implies !names::text_before(
                (#[trigger] all[j]).name,
                (#[trigger] all[i]).name,
            ) by {
                let a = all[i].name;
                let b = all[j].name;
                if i < at && j > at {
                    assert(front[i] == all[i] && front[j - 1] == all[j]);
                } else if i == at {
                    assert(front[j - 1] == all[j]);
                    if names::text_before(b, a) {
                        names::lemma_before_transitive(
                            encode_utf8(a),
                            encode_utf8(b),
                            encode_utf8(a),
                        );
                        names::lemma_before_irreflexive(encode_utf8(a));
                    }
                } else if j == at {
                    assert(front[i] == all[i]);
                } else if i > at {
                    assert(front[i - 1] == all[i] && front[j - 1] == all[j]);
                } else {
                    assert(front[i] == all[i] && front[j] == all[j]);
                }
            }
        }
    }
}

/// Consecutive pages by offset join up: nothing is left out and nothing comes twice.
pub proof fn law_pages_join(children: Seq<ChildView>, offset: int, first: int, second: int)
    requires
        0 <= offset,
        0 <= first,
        0 <= second,
    ensures
        page_from(children, offset, first + second) == page_from(children, offset, first)
            + page_from(children, offset + first, second),
{
    assert(page_from(children, offset, first + second) =~= page_from(children, offset, first)
        + page_from(children, offset + first, second));
}

/// Where the names strictly ascend, the children past a child's name are those behind it: paging
/// by name leaves nothing out and repeats nothing.
pub proof fn law_cursor_continues(children: Seq<ChildView>, at: int)
    requires
        0 <= at < children.len(),
        forall|i: int, j: int|
            0 <= i < j < children.len() ==> names::text_before(
                (#[trigger] children[i]).name,
                (#[trigger] children[j]).name,
            ),
    ensures
        children_past(children, Some(children[at].name)) == children.subrange(
            at + 1,
            children.len() as int,
        ),
{
    lemma_cursor(children, at, children.len() as int);
    assert(children.subrange(0, children.len() as int) =~= children);
}

/// What a caller gathers who asks for page after page, each from the last name of the one before,
/// until a page is empty or `count` pages are read.
pub open spec fn pages_joined(children: Seq<ChildView>, cursor: Option<Seq<char>>, limit: int, count: nat) -> Seq<ChildView>
    decreases count,
{
    let page = page_after(children, cursor, limit);
    if count == 0 || page.len() == 0 {
        Seq::empty()
    } else {
        page + pages_joined(children, Some(page.last().name), limit, (count - 1) as nat)
    }
}

/// Paging by name to the end gathers every child exactly once, in order, whatever the size of a
/// page.
pub proof fn law_pages_joined(children: Seq<ChildView>, limit: int, count: nat)
    requires
        limit >= 1,
        count >= children.len(),
        forall|i: int, j: int|
            0 <= i < j < children.len() ==> names::text_before(
                (#[trigger] children[i]).name,
                (#[trigger] children[j]).name,
            ),
    ensures
        pages_joined(children, None, limit, count) == children,
{
    let n = children.len() as int;
    assert forall|at: int| 0 <= at <= n implies children_past(
        children,
        #[trigger] cursor_at(children, at),
    ) == children.subrange(at, n) by {
        if at > 0 {
            law_cursor_continues(children, at - 1);
        } else {
            lemma_no_cursor(children);
            assert(children.subrange(0, n) =~= children);
        }
    }
    lemma_pages_from(children, 0, limit, count);
    assert(children.subrange(0, n) =~= children);
}

/// The cursor in front of child `at`.
spec fn cursor_at(children: Seq<ChildView>, at: int) -> Option<Seq<char>> {
    if at == 0 {
        None
    } else {
        Some(children[at - 1].name)
    }
}

proof fn lemma_pages_from(children: Seq<ChildView>, at: int, limit: int, count: nat)
    requires
        limit >= 1,
        0 <= at <= children.len(),
        count >= children.len() - at,
        forall|k: int|
            0 <= k <= children.len() ==> children_past(children, #[trigger] cursor_at(children, k))
                == children.subrange(k, children.len() as int),
    ensures
        pages_joined(children, cursor_at(children, at), limit, count) == children.subrange(
            at,
            children.len() as int,
        ),
    decreases count,
{
    let n = children.len() as int;
    let page = page_after(children, cursor_at(children, at), limit);
    let next = if limit < n - at {
        at + limit
    } else {
        n
    };
    assert(page =~= children.subrange(at, next));
    if at < n {
        assert(page.last() == children[next - 1]);
        lemma_pages_from(children, next, limit, (count - 1) as nat);
        assert(page + children.subrange(next, n) =~= children.subrange(at, n));
    } else {
        assert(children.subrange(at, n) =~= Seq::<ChildView>::empty());
    }
}

proof fn lemma_no_cursor(children: Seq<ChildView>)
    ensures
        children_past(children, None) == children,
    decreases children.len(),
{
    reveal(Seq::filter);
    if children.len() > 0 {
        lemma_no_cursor(children.drop_last());
    }
    assert(children_past(children, None) =~= children);
}

proof fn lemma_cursor(children: Seq<ChildView>, at: int, n: int)
    requires
        0 <= at < children.len(),
        0 <= n <= children.len(),
        forall|i: int, j: int|
            0 <= i < j < children.len() ==> names::text_before(
                (#[trigger] children[i]).name,
                (#[trigger] children[j]).name,
            ),
    ensures
        children_past(children.subrange(0, n), Some(children[at].name)) == children.subrange(
            if n < at + 1 {
                n
            } else {
                at + 1
            },
            n,
        ),
    decreases n,
{
    reveal(Seq::filter);
    let cursor = Some(children[at].name);
    if n == 0 {
        assert(children_past(children.subrange(0, n), cursor) =~= children.subrange(0, 0));
    } else {
        let part = children.subrange(0, n);
        lemma_cursor(children, at, n - 1);
        assert(part.drop_last() =~= children.subrange(0, n - 1));
        assert(part.last() == children[n - 1]);
        let a = encode_utf8(children[at].name);
        let b = encode_utf8(children[n - 1].name);
        names::lemma_before_irreflexive(a);
        if n - 1 < at && names::bytes_before(a, b) {
            names::lemma_before_transitive(a, b, a);
        }
        assert(children_past(part, cursor) =~= children.subrange(
            if n < at + 1 {
                n
            } else {
                at + 1
            },
            n,
        ));
    }
}

/// The children of a directory as entries, by name.
pub(crate) fn sort_children(entries: &[PersistedDirectoryEntry], parent: u64) -> (r: Vec<PersistedDirectoryEntry>)
    ensures
        directory_table::entry_views(r@) == children_by_name(
            directory_table::entry_views(entries@),
            parent,
        ),
{
    let ghost views = directory_table::entry_views(entries@);
    let mut r: Vec<PersistedDirectoryEntry> = Vec::new();
    assert(directory_table::entry_views(r@) =~= children_by_name(views.subrange(0, 0), parent));
    let mut i: usize = 0;
    while i < entries.len()
        invariant
            i <= entries@.len(),
            views == directory_table::entry_views(entries@),
            directory_table::entry_views(r@) == children_by_name(
                views.subrange(0, i as int),
                parent,
            ),
        decreases entries@.len() - i,
    {
        let ghost front = directory_table::entry_views(r@);
        proof {
            let next = views.subrange(0, i + 1);
            assert(next.drop_last() =~= views.subrange(0, i as int));
            assert(next.last() == entries@[i as int]@);
        }
        if entries[i].parent == parent {
            let mut at: usize = r.len();
            assert(front.subrange(0, at as int) =~= front);
            while at > 0 && is_before(entries[i].name.as_str(), r[at - 1].name.as_str())
                invariant
                    i < entries@.len(),
                    at <= r@.len(),
                    front == directory_table::entry_views(r@),
                    place_for(front, entries@[i as int]@.name) == place_for(
                        front.subrange(0, at as int),
                        entries@[i as int]@.name,
                    ),
                decreases at,
            {
                assert(front.subrange(0, at as int).drop_last() =~= front.subrange(0, at - 1));
                assert(front.subrange(0, at as int).last() == r@[at - 1]@);
                at -= 1;
            }
            proof {
                if at > 0 {
                    assert(front.subrange(0, at as int).last() == r@[at - 1]@);
                }
            }
            let entry = entries[i].clone();
            let ghost added = entry@;
            r.insert(at, entry);
            assert(directory_table::entry_views(r@) =~= front.insert(at as int, added));
        }
        i += 1;
    }
    assert(views.subrange(0, views.len() as int) =~= views);
    r
}

/// Looks up the inodes of a list of entries.
fn join_children(inodes: &[PersistedInode], entries: &[PersistedDirectoryEntry]) -> (r: Option<Vec<PathDirectoryEntry>>)
    ensures
        match r {
            Some(children) => joined(
                inode_table::inode_views(inodes@),
                directory_table::entry_views(entries@),
            ) == Some(child_views(children@)),
            None => joined(
                inode_table::inode_views(inodes@),
                directory_table::entry_views(entries@),
            ) is None,
        },
{
    let ghost views = directory_table::entry_views(entries@);
    let ghost table = inode_table::inode_views(inodes@);
    let mut children: Vec<PathDirectoryEntry> = Vec::new();
    assert(child_views(children@) =~= Seq::<ChildView>::empty());
    let mut i: usize = 0;
    while i < entries.len()
        invariant
            i <= entries@.len(),
            views == directory_table::entry_views(entries@),
            table == inode_table::inode_views(inodes@),
            joined(table, views.subrange(0, i as int)) == Some(child_views(children@)),
        decreases entries@.len() - i,
    {
        let ghost before = child_views(children@);
        proof {
            let next = views.subrange(0, i + 1);
            assert(next.drop_last() =~= views.subrange(0, i as int));
            assert(next.last() == entries@[i as int]@);
        }
        match find_inode(inodes, entries[i].target) {
            Some(k) => {
                let child = PathDirectoryEntry {
                    name: entries[i].name.clone(),
                    inode_id: entries[i].target,
                    kind: inodes[k].kind,
                };
                let ghost added = child@;
                children.push(child);
                assert(child_views(children@) =~= before.push(added));
            },
            None => {
                proof {
                    lemma_joined_none(table, views, i + 1);
                }
                return None;
            },
        }
        i += 1;
    }
    assert(views.subrange(0, views.len() as int) =~= views);
    Some(children)
}

proof fn lemma_joined_none(inodes: Seq<InodeView>, entries: Seq<DirEntryView>, k: int)
    requires
        0 <= k <= entries.len(),
        joined(inodes, entries.subrange(0, k)) is None,
    ensures
        joined(inodes, entries) is None,
    decreases entries.len(),
{
    if k == entries.len() {
        assert(entries.subrange(0, k) =~= entries);
    } else {
        assert(entries.drop_last().subrange(0, k) =~= entries.subrange(0, k));
        lemma_joined_none(inodes, entries.drop_last(), k);
    }
}

/// Lists the children of the directory `inode_id` by name.
fn list_directory<D: BlockDevice>(device: &mut D, superblock: &Superblock, inode_id: u64) -> (r: Result<Vec<PathDirectoryEntry>, Error>)
    ensures
        block::untouched(old(device), final(device)),
        r is Ok || old(device).healthy() ==> child_list(r) == listed(
            old(device).blocks(),
            *superblock,
            inode_id,
        ),
{
    let inodes = load_inode_table(device, superblock)?;
    let index: usize = match find_inode(inodes.as_slice(), inode_id) {
        Some(i) => i,
        None => return Err(
            invalid_data("resolved directory inode is missing from inode table"),
        ),
    };
    if inodes[index].kind != InodeKind::Directory {
        return Err(invalid_input("resolved pathname is not a directory"));
    }
    let entries = load_directory_table(device, superblock)?;
    let sorted = sort_children(entries.as_slice(), inode_id);
    match join_children(inodes.as_slice(), sorted.as_slice()) {
        Some(children) => Ok(children),
        None => Err(invalid_data("directory entry references missing inode")),
    }
}

/// Lists the children of the directory that a path names by name, once the journal is replayed and
/// empty.
pub fn list_directory_at_path<D: BlockDevice>(device: &mut D, superblock: &Superblock, path: &str) -> (r: Result<Vec<PathDirectoryEntry>, Error>)
    ensures
        journal_region::carried_out(
            old(device),
            final(device),
            *superblock,
            child_list(r),
            list_step(old(device).blocks(), *superblock, path@),
        ),
{
    broadcast use journal_checkpoint::group_settled;

    recover_journal_and_checkpoint(device, *superblock)?;
    let inode_id: u64 = resolve_path_following_symlinks(device, superblock, path)?;
    list_directory(device, superblock, inode_id)
}

/// A copy of at most `limit` children from `offset` on.
fn copy_page(children: &[PathDirectoryEntry], offset: usize, limit: usize) -> (r: Vec<PathDirectoryEntry>)
    ensures
        child_views(r@) == page_from(child_views(children@), offset as int, limit as int),
{
    let start: usize = if offset < children.len() {
        offset
    } else {
        children.len()
    };
    let end: usize = if limit < children.len() - start {
        start + limit
    } else {
        children.len()
    };
    let mut r: Vec<PathDirectoryEntry> = Vec::new();
    let mut i: usize = start;
    assert(child_views(r@) =~= child_views(children@).subrange(start as int, i as int));
    while i < end
        invariant
            start <= i <= end <= children@.len(),
            child_views(r@) == child_views(children@).subrange(start as int, i as int),
        decreases end - i,
    {
        let ghost before = child_views(r@);
        let child = PathDirectoryEntry {
            name: children[i].name.clone(),
            inode_id: children[i].inode_id,
            kind: children[i].kind,
        };
        let ghost added = child@;
        assert(added == children@[i as int]@);
        r.push(child);
        assert(child_views(r@) =~= before.push(added));
        assert(child_views(r@) =~= child_views(children@).subrange(start as int, i + 1));
        i += 1;
    }
    r
}

/// The children whose names come after the cursor.
fn copy_past_cursor(children: &[PathDirectoryEntry], after_name: Option<&str>) -> (r: Vec<PathDirectoryEntry>)
    ensures
        child_views(r@) == children_past(child_views(children@), cursor_text(after_name)),
{
    let ghost cursor = cursor_text(after_name);
    let ghost views = child_views(children@);
    proof {
        reveal(Seq::filter);
    }
    let mut r: Vec<PathDirectoryEntry> = Vec::new();
    assert(child_views(r@) =~= children_past(views.subrange(0, 0), cursor));
    let mut i: usize = 0;
    while i < children.len()
        invariant
            i <= children@.len(),
            views == child_views(children@),
            cursor == cursor_text(after_name),
            child_views(r@) == children_past(views.subrange(0, i as int), cursor),
        decreases children@.len() - i,
    {
        let ghost before = child_views(r@);
        proof {
            let next = views.subrange(0, i + 1);
            reveal(Seq::filter);
            assert(next.drop_last() =~= views.subrange(0, i as int));
            assert(next.last() == children@[i as int]@);
        }
        let keep: bool = match after_name {
            None => true,
            Some(name) => is_before(name, children[i].name.as_str()),
        };
        if keep {
            let child = PathDirectoryEntry {
                name: children[i].name.clone(),
                inode_id: children[i].inode_id,
                kind: children[i].kind,
            };
            let ghost added = child@;
            assert(added == children@[i as int]@);
            r.push(child);
            assert(child_views(r@) =~= before.push(added));
        }
        i += 1;
    }
    assert(views.subrange(0, views.len() as int) =~= views);
    r
}

/// Lists at most `limit` children of a directory from `offset` on, in the order of the names.
pub fn list_directory_page_at_path<D: BlockDevice>(device: &mut D, superblock: &Superblock, path: &str, offset: usize, limit: usize) -> (r: Result<Vec<PathDirectoryEntry>, Error>)
    ensures
        journal_region::carried_out(
            old(device),
            final(device),
            *superblock,
            child_list(r),
            paged(
                list_step(old(device).blocks(), *superblock, path@),
                |children: Seq<ChildView>| page_from(children, offset as int, limit as int),
            ),
        ),
{
    broadcast use journal_checkpoint::group_settled;

    let children = list_directory_at_path(device, superblock, path)?;
    Ok(copy_page(children.as_slice(), offset, limit))
}

/// Lists at most `limit` children of a directory whose names come after `after_name`, which need
/// not exist, in the order of the names.
pub fn list_directory_page_after_name_at_path<D: BlockDevice>(
    device: &mut D,
    superblock: &Superblock,
    path: &str,
    after_name: Option<&str>,
    limit: usize,
) -> (r: Result<Vec<PathDirectoryEntry>, Error>)
    ensures
        journal_region::carried_out(
            old(device),
            final(device),
            *superblock,
            child_list(r),
            paged(
                list_step(old(device).blocks(), *superblock, path@),
                |children: Seq<ChildView>|
                    page_after(children, cursor_text(after_name), limit as int),
            ),
        ),
{
    broadcast use journal_checkpoint::group_settled;

    let children = list_directory_at_path(device, superblock, path)?;
    let rest = copy_past_cursor(children.as_slice(), after_name);
    Ok(copy_page(rest.as_slice(), 0, limit))
}

/// In a sound namespace the names in a listing strictly ascend.
pub proof fn law_listing_strictly_ascends(inodes: Seq<InodeView>, entries: Seq<DirEntryView>, parent: u64)
    requires
        namespace::sound_namespace(inodes, entries),
    ensures
        forall|i: int, j: int|
            0 <= i < j < children_by_name(entries, parent).len() ==> names::text_before(
                (#[trigger] children_by_name(entries, parent)[i]).name,
                (#[trigger] children_by_name(entries, parent)[j]).name,
            ),
{
    let list = children_by_name(entries, parent);
    law_children_by_name(entries, parent);
    lemma_listed_distinct(inodes, entries, parent);
    assert forall|i: int, j: int| 0 <= i < j < list.len() implies names::text_before(
        (#[trigger] list[i]).name,
        (#[trigger] list[j]).name,
    ) by {
        assert(list[i].name != list[j].name);
        let a = encode_utf8(list[i].name);
        let b = encode_utf8(list[j].name);
        names::lemma_before_total(a, b);
        encode_utf8_decode_utf8(list[i].name);
        encode_utf8_decode_utf8(list[j].name);
    }
}

proof fn lemma_listed_distinct(inodes: Seq<InodeView>, entries: Seq<DirEntryView>, parent: u64)
    requires
        namespace::sound_namespace(inodes, entries),
    ensures
        ({
            let list = children_by_name(entries, parent);
            &&& forall|i: int, j: int|
                0 <= i < j < list.len() ==> (#[trigger] list[i]).name != (#[trigger] list[j]).name
            &&& forall|i: int|
                0 <= i < list.len() ==> (#[trigger] list[i]).parent == parent && entries.contains(
                    list[i],
                )
        }),
    decreases entries.len(),
{
    if entries.len() > 0 {
        let front = entries.drop_last();
        let n = entries.len() - 1;
        let entry = entries.last();
        assert(entries[n] == entry);
        assert(namespace::sound_namespace(inodes, front)) by {
            assert forall|i: int| 0 <= i < front.len() implies namespace::sound_entry(
                inodes,
                #[trigger] front[i],
            ) by {
                assert(namespace::sound_entry(inodes, entries[i]));
            }
            assert forall|i: int, j: int| 0 <= i < j < front.len() implies namespace::compatible(
                inodes,
                #[trigger] front[i],
                #[trigger] front[j],
            ) by {
                assert(namespace::compatible(inodes, entries[i], entries[j]));
            }
        }
        lemma_listed_distinct(inodes, front, parent);
        let before = children_by_name(front, parent);
        let list = children_by_name(entries, parent);
        law_children_by_name(front, parent);
        lemma_place(before, entry.name);
        let at = place_for(before, entry.name);
        assert forall|i: int| 0 <= i < before.len() implies (#[trigger] before[i]).parent == parent
            && entries.contains(before[i]) && (entry.parent == parent ==> before[i].name
            != entry.name) by {
            let k = choose|k: int| 0 <= k < front.len() && front[k] == before[i];
            assert(entries[k] == before[i]);
            assert(namespace::compatible(inodes, entries[k], entries[n]));
        }
        if entry.parent == parent {
            assert forall|i: int| 0 <= i < list.len() implies (#[trigger] list[i]).parent == parent
                && entries.contains(list[i]) by {
                if i < at {
                    assert(list[i] == before[i]);
                } else if i == at {
                    assert(list[i] == entry);
                } else {
                    assert(list[i] == before[i - 1]);
                }
            }
            assert forall|i: int, j: int| 0 <= i < j < list.len() implies (#[trigger] list[i]).name
                != (#[trigger] list[j]).name by {
                if j < at {
                    assert(before[i].name != before[j].name);
                } else if j == at {
                    assert(before[i].name != entry.name);
                } else if i < at {
                    assert(before[i].name != before[j - 1].name);
                } else if i == at {
                    assert(before[j - 1].name != entry.name);
                } else {
                    assert(before[i - 1].name != before[j - 1].name);
                }
            }
        }
    }
}

/// In a sound namespace every child of a directory has an inode, so that a listing is complete.
pub proof fn law_listing_is_complete(inodes: Seq<InodeView>, entries: Seq<DirEntryView>, parent: u64)
    requires
        namespace::sound_namespace(inodes, entries),
    ensures
        joined(inodes, children_by_name(entries, parent)) matches Some(children) && children.len()
            == children_by_name(entries, parent).len() && forall|i: int|
            0 <= i < children.len() ==> (#[trigger] children[i]).name == children_by_name(
                entries,
                parent,
            )[i].name,
{
    let list = children_by_name(entries, parent);
    lemma_listed_distinct(inodes, entries, parent);
    assert forall|i: int| 0 <= i < list.len() implies file_blocks::index_of(
        inodes,
        (#[trigger] list[i]).target,
    ) is Some by {
        let k = choose|k: int| 0 <= k < entries.len() && entries[k] == list[i];
        assert(namespace::sound_entry(inodes, entries[k]));
    }
    lemma_joined_all(inodes, list);
}

proof fn lemma_joined_all(inodes: Seq<InodeView>, entries: Seq<DirEntryView>)
    requires
        forall|i: int|
            0 <= i < entries.len() ==> file_blocks::index_of(inodes, (#[trigger] entries[i]).target) is Some,
    ensures
        joined(inodes, entries) matches Some(children) && children.len() == entries.len()
            && forall|i: int| 0 <= i < entries.len() ==> (#[trigger] children[i]).name == entries[i].name,
    decreases entries.len(),
{
    if entries.len() > 0 {
        let front = entries.drop_last();
        assert forall|i: int| 0 <= i < front.len() implies file_blocks::index_of(
            inodes,
            (#[trigger] front[i]).target,
        ) is Some by {
            assert(entries[i] == front[i]);
        }
        lemma_joined_all(inodes, front);
        assert(entries[entries.len() - 1] == entries.last());
        let children = joined(inodes, entries)->Some_0;
        assert forall|i: int| 0 <= i < entries.len() implies (#[trigger] children[i]).name
            == entries[i].name by {
            if i < front.len() {
                assert(joined(inodes, front)->Some_0[i].name == front[i].name);
            }
        }
    }
}

/// Whoever reads a directory page after page, each from the last name of the one before, gathers
/// its whole listing: every child exactly once, in order.
pub proof fn law_directory_pages(disk: Disk, sb: Superblock, id: u64, limit: int, count: nat)
    requires
        soundness::sound_on(disk, sb),
        listed(disk, sb, id) matches Ok(children) && count >= children.len(),
        limit >= 1,
    ensures
        pages_joined(listed(disk, sb, id)->Ok_0, None, limit, count) == listed(disk, sb, id)->Ok_0,
{
    let t = soundness::tables_of(disk, sb);
    let children = listed(disk, sb, id)->Ok_0;
    let list = children_by_name(t.entries, id);
    soundness::lemma_sound_parts(disk, sb);
    law_listing_strictly_ascends(t.inodes, t.entries, id);
    law_listing_is_complete(t.inodes, t.entries, id);
    assert forall|i: int, j: int| 0 <= i < j < children.len() implies names::text_before(
        (#[trigger] children[i]).name,
        (#[trigger] children[j]).name,
    ) by {
        assert(names::text_before(list[i].name, list[j].name));
    }
    law_pages_joined(children, limit, count);
}

/// Child `k` of a joined list is what entry `k` stands for.
proof fn lemma_joined(inodes: Seq<InodeView>, entries: Seq<DirEntryView>, k: int)
    requires
        0 <= k < entries.len(),
    ensures
        joined(inodes, entries) matches Some(children) ==> children.len() == entries.len()
            && children[k].name == entries[k].name && children[k].inode_id == entries[k].target
            && namespace::has_kind(inodes, entries[k].target, children[k].kind),
    decreases entries.len(),
{
    if joined(inodes, entries) is Some {
        let front = entries.drop_last();
        if k < front.len() {
            lemma_joined(inodes, front, k);
            assert(front[k] == entries[k]);
        } else if front.len() > 0 {
            lemma_joined(inodes, front, 0);
        }
    }
}

/// A listing has one child for each entry of the directory, with its name, the inode that it names
/// and the kind of that, and no other child; the names strictly ascend. Every directory of a sound
/// device has a listing.
pub proof fn law_listed(disk: Disk, sb: Superblock, id: u64)
    requires
        soundness::sound_on(disk, sb),
    ensures
        ({
            let t = soundness::tables_of(disk, sb);
            &&& namespace::has_kind(t.inodes, id, InodeKind::Directory) <==> listed(
                disk,
                sb,
                id,
            ) is Ok
            &&& listed(disk, sb, id) matches Ok(children) ==> {
                &&& forall|i: int, j: int|
                    0 <= i < j < children.len() ==> names::text_before(
                        (#[trigger] children[i]).name,
                        (#[trigger] children[j]).name,
                    )
                &&& forall|k: int|
                    0 <= k < children.len() ==> t.entries.contains(
                        DirEntryView {
                            parent: id,
                            target: (#[trigger] children[k]).inode_id,
                            name: children[k].name,
                        },
                    ) && namespace::has_kind(t.inodes, children[k].inode_id, children[k].kind)
                &&& forall|e: int|
                    0 <= e < t.entries.len() && (#[trigger] t.entries[e]).parent == id
                        ==> exists|k: int|
                        0 <= k < children.len() && (#[trigger] children[k]).name
                            == t.entries[e].name && children[k].inode_id == t.entries[e].target
            }
        }),
{
    let t = soundness::tables_of(disk, sb);
    soundness::lemma_sound_parts(disk, sb);
    file_blocks::lemma_index_from(t.inodes, id, 0);
    let sorted = children_by_name(t.entries, id);
    law_listing_is_complete(t.inodes, t.entries, id);
    if let Ok(children) = listed(disk, sb, id) {
        law_listing_strictly_ascends(t.inodes, t.entries, id);
        law_children_by_name(t.entries, id);
        let mine = t.entries.filter(|e: DirEntryView| e.parent == id);
        sorted.to_multiset_ensures();
        mine.to_multiset_ensures();
        broadcast use vstd::seq_lib::group_filter_ensures;

        assert forall|k: int| 0 <= k < children.len() implies t.entries.contains(
            DirEntryView {
                parent: id,
                target: (#[trigger] children[k]).inode_id,
                name: children[k].name,
            },
        ) && namespace::has_kind(t.inodes, children[k].inode_id, children[k].kind) by {
            lemma_joined(t.inodes, sorted, k);
            let entry = sorted[k];
            assert(sorted.contains(entry));
            assert(sorted.to_multiset().count(entry) == mine.to_multiset().count(entry));
            assert(mine.contains(entry));
            let m = choose|m: int| 0 <= m < mine.len() && mine[m] == entry;
            assert(mine[m].parent == id);
            t.entries.lemma_filter_contains_rev(|e: DirEntryView| e.parent == id, entry);
        }
        assert forall|i: int, j: int| 0 <= i < j < children.len() implies names::text_before(
            (#[trigger] children[i]).name,
            (#[trigger] children[j]).name,
        ) by {
            assert(children[i].name == sorted[i].name);
            assert(children[j].name == sorted[j].name);
        }
        assert forall|e: int|
            0 <= e < t.entries.len() && (#[trigger] t.entries[e]).parent == id implies exists|k: int|
            0 <= k < children.len() && (#[trigger] children[k]).name == t.entries[e].name
                && children[k].inode_id == t.entries[e].target by {
            let entry = t.entries[e];
            assert(t.entries.contains(entry));
            assert(mine.contains(entry));
            assert(sorted.to_multiset().count(entry) == mine.to_multiset().count(entry));
            assert(sorted.contains(entry));
            let k = choose|k: int| 0 <= k < sorted.len() && sorted[k] == entry;
            lemma_joined(t.inodes, sorted, k);
            assert(children[k].name == entry.name);
        }
    }
}

/// What is listed at a path is the directory that the path names. Listing settles the journal and
/// changes nothing else.
pub proof fn law_list_at_path(disk: Disk, sb: Superblock, path: Seq<char>)
    requires
        journal_checkpoint::settle_step(disk, sb).result is Ok,
    ensures
        ({
            let base = journal_checkpoint::settle_step(disk, sb).disk;
            let step = list_step(disk, sb, path);
            &&& step.disk == base
            &&& match path_lookup::resolved(base, sb, path, true) {
                Err(kind) => step.result == Err::<Seq<ChildView>, ErrorKind>(kind),
                Ok(id) => step.result == listed(base, sb, id),
            }
        }),
{
}

} // verus!
