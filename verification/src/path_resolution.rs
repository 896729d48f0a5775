//! What paths name: how a path is made up of its components, and what a symbolic link on it does.

use vstd::prelude::*;
use crate::block::Disk;
use crate::directory_codec::DirEntryView;
use crate::error::ErrorKind;
use crate::file_blocks;
use crate::format::Superblock;
use crate::inode::InodeKind;
use crate::inode_codec::InodeView;
use crate::path_create;
use crate::path_lookup;
use crate::path_lookup::{MAX_SYMLINK_EXPANSIONS, ROOT_INODE_ID};
use crate::soundness;
use crate::symlink;

verus! {

/// The texts with a slash between each two of them.
pub open spec fn slashed(parts: Seq<Seq<char>>) -> Seq<char>
    decreases parts.len(),
{
    if parts.len() == 0 {
        Seq::empty()
    } else if parts.len() == 1 {
        parts[0]
    } else {
        slashed(parts.drop_last()).push('/') + parts.last()
    }
}

/// The parts of a text have no slash in them, and with slashes between them they are the text.
pub proof fn law_slash_parts(s: Seq<char>)
    ensures
        path_lookup::slash_parts(s).len() > 0,
        slashed(path_lookup::slash_parts(s)) == s,
        forall|i: int|
            0 <= i < path_lookup::slash_parts(s).len() ==> !(#[trigger] path_lookup::slash_parts(
                s,
            )[i]).contains('/'),
    decreases s.len(),
{
    let parts = path_lookup::slash_parts(s);
    if s.len() == 0 {
        assert(s =~= parts[0]);
    } else {
        let before = s.drop_last();
        let front = path_lookup::slash_parts(before);
        law_slash_parts(before);
        if s.last() == '/' {
            assert(parts.drop_last() =~= front);
            assert(slashed(parts) =~= s);
        } else {
            let last = front.last();
            assert(parts.drop_last() =~= front.drop_last());
            assert(slashed(parts) =~= slashed(front).push(s.last()));
            assert(before.push(s.last()) =~= s);
            assert forall|i: int| 0 <= i < parts.len() implies !(#[trigger] parts[i]).contains(
                '/',
            ) by {
                if i < front.len() - 1 {
                    assert(parts[i] == front[i]);
                } else {
                    assert(!front[front.len() - 1].contains('/'));
                    if parts[i].contains('/') {
                        let k = choose|k: int| 0 <= k < parts[i].len() && parts[i][k] == '/';
                        assert(last[k] == '/');
                    }
                }
            }
        }
    }
}

/// The components of a path, each behind a slash, make up the path; none is empty, a dot or two dots
/// or has a slash in it. The root has none.
pub proof fn law_path_components(path: Seq<char>)
    ensures
        path_lookup::path_components(path) matches Some(parts) ==> {
            &&& path == seq!['/'] + slashed(parts)
            &&& forall|i: int|
                0 <= i < parts.len() ==> (#[trigger] parts[i]).len() > 0 && parts[i] != seq!['.']
                    && parts[i] != seq!['.', '.'] && !parts[i].contains('/')
        },
{
    if let Some(parts) = path_lookup::path_components(path) {
        if path == seq!['/'] {
            assert(path =~= seq!['/'] + slashed(parts));
        } else {
            let tail = path.subrange(1, path.len() as int);
            law_slash_parts(tail);
            assert(path =~= seq!['/'] + tail);
            assert forall|i: int| 0 <= i < parts.len() implies (#[trigger] parts[i]).len() > 0
                && parts[i] != seq!['.'] && parts[i] != seq!['.', '.'] && !parts[i].contains(
                '/',
            ) by {
                assert(path_lookup::proper_component(parts[i]));
            }
        }
    }
}

/// The same text has the same parts: parts without slashes are those of their joined text.
pub proof fn law_joined_parts(parts: Seq<Seq<char>>)
    requires
        parts.len() > 0,
        forall|i: int| 0 <= i < parts.len() ==> !(#[trigger] parts[i]).contains('/'),
    ensures
        path_lookup::slash_parts(slashed(parts)) == parts,
    decreases parts.len(),
{
    let last = parts.last();
    assert(last == parts[parts.len() - 1]);
    if parts.len() == 1 {
        path_lookup::lemma_slash_parts(Seq::empty(), last);
        assert(seq![last] =~= parts);
    } else {
        let front = parts.drop_last();
        assert forall|i: int| 0 <= i < front.len() implies !(#[trigger] front[i]).contains('/') by {
            assert(parts[i] == front[i]);
        }
        law_joined_parts(front);
        path_lookup::lemma_slash_parts(slashed(front), last);
        assert(front.push(last) =~= parts);
    }
}

/// What a path names where at most `links` symbolic links may be followed.
pub open spec fn resolved_within(disk: Disk, sb: Superblock, path: Seq<char>, follow: bool, links: nat) -> Result<u64, ErrorKind> {
    let t = soundness::tables_of(disk, sb);
    match path_lookup::path_components(path) {
        None => Err(ErrorKind::InvalidInput),
        Some(parts) => path_lookup::walk(
            disk,
            sb,
            t.inodes,
            t.entries,
            parts,
            ROOT_INODE_ID,
            (MAX_SYMLINK_EXPANSIONS - links) as nat,
            follow,
        ),
    }
}

/// The directory `id` has an entry of this name, which names `target` of kind `kind`.
pub open spec fn has_child(disk: Disk, sb: Superblock, id: u64, name: Seq<char>, target: u64, kind: InodeKind) -> bool {
    let t = soundness::tables_of(disk, sb);
    &&& exists|e: int|
        0 <= e < t.entries.len() && #[trigger] t.entries[e] == (DirEntryView {
            parent: id,
            target,
            name,
        })
    &&& crate::namespace::has_kind(t.inodes, target, kind)
}

proof fn lemma_root_found(disk: Disk, sb: Superblock)
    requires
        soundness::sound_on(disk, sb),
    ensures
        crate::namespace::has_kind(
            soundness::tables_of(disk, sb).inodes,
            ROOT_INODE_ID,
            InodeKind::Directory,
        ),
{
    soundness::lemma_sound_parts(disk, sb);
}

/// The root is the root directory.
pub proof fn law_root(disk: Disk, sb: Superblock, follow: bool)
    requires
        soundness::sound_on(disk, sb),
    ensures
        path_lookup::resolved(disk, sb, seq!['/'], follow) == Ok::<u64, ErrorKind>(ROOT_INODE_ID),
{
    reveal(path_lookup::resolved);
    soundness::lemma_sound_parts(disk, sb);
    lemma_root_found(disk, sb);
    file_blocks::lemma_index_from(soundness::tables_of(disk, sb).inodes, ROOT_INODE_ID, 0);
}

/// On a sound device resolution is a walk from the root over the components, with all the links that
/// may be followed.
pub proof fn lemma_resolved(disk: Disk, sb: Superblock, path: Seq<char>, follow: bool)
    requires
        soundness::sound_on(disk, sb),
    ensures
        path_lookup::resolved(disk, sb, path, follow) == resolved_within(
            disk,
            sb,
            path,
            follow,
            MAX_SYMLINK_EXPANSIONS as nat,
        ),
{
    reveal(path_lookup::resolved);
    soundness::lemma_sound_parts(disk, sb);
    lemma_root_found(disk, sb);
    file_blocks::lemma_index_from(soundness::tables_of(disk, sb).inodes, ROOT_INODE_ID, 0);
}

/// Whoever may follow more links comes to the same end, unless the limit stopped the walk.
proof fn lemma_walk_sooner(
    disk: Disk,
    sb: Superblock,
    inodes: Seq<InodeView>,
    entries: Seq<DirEntryView>,
    pending: Seq<Seq<char>>,
    current: u64,
    later: nat,
    sooner: nat,
    follow: bool,
)
    requires
        sooner <= later <= MAX_SYMLINK_EXPANSIONS,
    ensures
        path_lookup::walk(disk, sb, inodes, entries, pending, current, later, follow) != Err::<
            u64,
            ErrorKind,
        >(ErrorKind::InvalidData) ==> path_lookup::walk(disk, sb, inodes, entries, pending, current, sooner, follow)
            == path_lookup::walk(disk, sb, inodes, entries, pending, current, later, follow),
    decreases MAX_SYMLINK_EXPANSIONS - later, pending.len(),
{
    if pending.len() > 0 {
        let rest = pending.drop_first();
        if let Some(e) = path_lookup::entry_index(entries, current, pending[0]) {
            let target = entries[e].target;
            if let Some(t) = file_blocks::index_of(inodes, target) {
                if inodes[t].kind != InodeKind::Symlink {
                    lemma_walk_sooner(disk, sb, inodes, entries, rest, target, later, sooner, follow);
                } else if later < MAX_SYMLINK_EXPANSIONS {
                    if let Ok(text) = symlink::symlink_target(disk, sb, target) {
                        if let Some(parts) = path_lookup::target_components(text) {
                            let from = if path_lookup::is_absolute(text) {
                                ROOT_INODE_ID
                            } else {
                                current
                            };
                            lemma_walk_sooner(
                                disk,
                                sb,
                                inodes,
                                entries,
                                parts + rest,
                                from,
                                later + 1,
                                sooner + 1,
                                follow,
                            );
                        }
                    }
                }
            }
        }
    }
}

/// A walk that comes to `end` and has `n` links to follow on the way goes on from there with what is
/// left of the path.
pub proof fn lemma_walk_on_from(
    disk: Disk,
    sb: Superblock,
    inodes: Seq<InodeView>,
    entries: Seq<DirEntryView>,
    pending: Seq<Seq<char>>,
    current: u64,
    start: nat,
    end: u64,
) -> (n: nat)
    requires
        start <= MAX_SYMLINK_EXPANSIONS,
        path_lookup::walk(disk, sb, inodes, entries, pending, current, start, true) == Ok::<
            u64,
            ErrorKind,
        >(end),
    ensures
        start + n <= MAX_SYMLINK_EXPANSIONS,
        forall|e: nat, more: Seq<Seq<char>>, follow: bool|
            e <= start && more.len() > 0 ==> #[trigger] path_lookup::walk(
                disk,
                sb,
                inodes,
                entries,
                pending + more,
                current,
                e,
                follow,
            ) == path_lookup::walk(disk, sb, inodes, entries, more, end, e + n, follow),
    decreases MAX_SYMLINK_EXPANSIONS - start, pending.len(),
{
    if pending.len() == 0 {
        assert forall|e: nat, more: Seq<Seq<char>>, follow: bool|
            e <= start && more.len() > 0 implies #[trigger] path_lookup::walk(
            disk,
            sb,
            inodes,
            entries,
            pending + more,
            current,
            e,
            follow,
        ) == path_lookup::walk(disk, sb, inodes, entries, more, end, e + 0, follow) by {
            assert(pending + more =~= more);
        }
        0
    } else {
        let rest = pending.drop_first();
        let f = path_lookup::entry_index(entries, current, pending[0])->Some_0;
        let target = entries[f].target;
        let t = file_blocks::index_of(inodes, target)->Some_0;
        if inodes[t].kind != InodeKind::Symlink {
            let n = lemma_walk_on_from(disk, sb, inodes, entries, rest, target, start, end);
            assert forall|e: nat, more: Seq<Seq<char>>, follow: bool|
                e <= start && more.len() > 0 implies #[trigger] path_lookup::walk(
                disk,
                sb,
                inodes,
                entries,
                pending + more,
                current,
                e,
                follow,
            ) == path_lookup::walk(disk, sb, inodes, entries, more, end, e + n, follow) by {
                let all = pending + more;
                assert(all[0] == pending[0]);
                assert(all.drop_first() =~= rest + more);
                assert(path_lookup::walk(
                    disk,
                    sb,
                    inodes,
                    entries,
                    rest + more,
                    target,
                    e,
                    follow,
                ) == path_lookup::walk(disk, sb, inodes, entries, more, end, e + n, follow));
            }
            n
        } else {
            let text = symlink::symlink_target(disk, sb, target)->Ok_0;
            let parts = path_lookup::target_components(text)->Some_0;
            let from = if path_lookup::is_absolute(text) {
                ROOT_INODE_ID
            } else {
                current
            };
            let m = lemma_walk_on_from(
                disk,
                sb,
                inodes,
                entries,
                parts + rest,
                from,
                start + 1,
                end,
            );
            let n = m + 1;
            assert forall|e: nat, more: Seq<Seq<char>>, follow: bool|
                e <= start && more.len() > 0 implies #[trigger] path_lookup::walk(
                disk,
                sb,
                inodes,
                entries,
                pending + more,
                current,
                e,
                follow,
            ) == path_lookup::walk(disk, sb, inodes, entries, more, end, e + n, follow) by {
                let all = pending + more;
                assert(all[0] == pending[0]);
                assert(all.drop_first() =~= rest + more);
                assert(parts + (rest + more) =~= (parts + rest) + more);
                assert(path_lookup::walk(
                    disk,
                    sb,
                    inodes,
                    entries,
                    (parts + rest) + more,
                    from,
                    e + 1,
                    follow,
                ) == path_lookup::walk(disk, sb, inodes, entries, more, end, e + 1 + m, follow));
            }
            n
        }
    }
}

/// A walk that is refused on the way is refused so whatever follows.
pub proof fn lemma_walk_refused(
    disk: Disk,
    sb: Superblock,
    inodes: Seq<InodeView>,
    entries: Seq<DirEntryView>,
    pending: Seq<Seq<char>>,
    more: Seq<Seq<char>>,
    current: u64,
    expansions: nat,
    follow: bool,
)
    requires
        expansions <= MAX_SYMLINK_EXPANSIONS,
        more.len() > 0,
    ensures
        path_lookup::walk(disk, sb, inodes, entries, pending, current, expansions, true) is Err
            ==> path_lookup::walk(
            disk,
            sb,
            inodes,
            entries,
            pending + more,
            current,
            expansions,
            follow,
        ) == path_lookup::walk(disk, sb, inodes, entries, pending, current, expansions, true),
    decreases MAX_SYMLINK_EXPANSIONS - expansions, pending.len(),
{
    if pending.len() > 0 {
        let rest = pending.drop_first();
        let all = pending + more;
        assert(all[0] == pending[0]);
        assert(all.drop_first() =~= rest + more);
        if let Some(f) = path_lookup::entry_index(entries, current, pending[0]) {
            let target = entries[f].target;
            if let Some(t) = file_blocks::index_of(inodes, target) {
                if inodes[t].kind != InodeKind::Symlink {
                    lemma_walk_refused(
                        disk,
                        sb,
                        inodes,
                        entries,
                        rest,
                        more,
                        target,
                        expansions,
                        follow,
                    );
                } else if expansions < MAX_SYMLINK_EXPANSIONS {
                    if let Ok(text) = symlink::symlink_target(disk, sb, target) {
                        if let Some(parts) = path_lookup::target_components(text) {
                            let from = if path_lookup::is_absolute(text) {
                                ROOT_INODE_ID
                            } else {
                                current
                            };
                            assert(parts + (rest + more) =~= (parts + rest) + more);
                            lemma_walk_refused(
                                disk,
                                sb,
                                inodes,
                                entries,
                                parts + rest,
                                more,
                                from,
                                expansions + 1,
                                follow,
                            );
                        }
                    }
                }
            }
        }
    }
}

/// The entry of a name in a directory is the only one.
pub proof fn lemma_child_found(disk: Disk, sb: Superblock, id: u64, name: Seq<char>, target: u64, kind: InodeKind)
    requires
        soundness::sound_on(disk, sb),
        has_child(disk, sb, id, name, target, kind),
    ensures
        ({
            let t = soundness::tables_of(disk, sb);
            &&& path_lookup::entry_index(t.entries, id, name) matches Some(e) && 0 <= e
                < t.entries.len() && t.entries[e].target == target
            &&& file_blocks::index_of(t.inodes, target) matches Some(i) && t.inodes[i].kind == kind
        }),
{
    let t = soundness::tables_of(disk, sb);
    soundness::lemma_sound_parts(disk, sb);
    let entry = DirEntryView { parent: id, target, name };
    let e = choose|e: int| 0 <= e < t.entries.len() && #[trigger] t.entries[e] == entry;
    path_lookup::lemma_entry_from(t.entries, id, name, 0);
    let f = path_lookup::entry_index(t.entries, id, name)->Some_0;
    if f < e {
        assert(crate::namespace::compatible(t.inodes, t.entries[f], t.entries[e]));
    } else if e < f {
        assert(crate::namespace::compatible(t.inodes, t.entries[e], t.entries[f]));
    }
}

/// Behind a directory that a path names, a name leads to what its entry in that directory names;
/// a symbolic link is named itself where it is not to be followed.
pub proof fn law_child(disk: Disk, sb: Superblock, path: Seq<char>, follow: bool, target: u64, kind: InodeKind)
    requires
        soundness::sound_on(disk, sb),
        path_lookup::path_components(path) is Some,
        path_create::destination_parts(path) matches Some((parent, name)) && (
        path_lookup::resolved(disk, sb, parent, true) matches Ok(id) && has_child(
            disk,
            sb,
            id,
            name,
            target,
            kind,
        )),
        kind != InodeKind::Symlink || !follow,
    ensures
        path_lookup::resolved(disk, sb, path, follow) == Ok::<u64, ErrorKind>(target),
{
    let t = soundness::tables_of(disk, sb);
    let (parent, name) = path_create::destination_parts(path)->Some_0;
    let id = path_lookup::resolved(disk, sb, parent, true)->Ok_0;
    lemma_resolved(disk, sb, path, follow);
    lemma_resolved(disk, sb, parent, true);
    path_create::lemma_components(path);
    lemma_child_found(disk, sb, id, name, target, kind);
    lemma_holder(disk, sb, id, name, target, kind);
    let parts = path_lookup::path_components(parent)->Some_0;
    let n = lemma_walk_on_from(disk, sb, t.inodes, t.entries, parts, ROOT_INODE_ID, 0, id);
    assert(parts.push(name) =~= parts + seq![name]);
    assert(seq![name].drop_first() =~= Seq::<Seq<char>>::empty());
    reveal_with_fuel(path_lookup::walk, 2);
    assert(path_lookup::walk(
        disk,
        sb,
        t.inodes,
        t.entries,
        parts + seq![name],
        ROOT_INODE_ID,
        0,
        follow,
    ) == path_lookup::walk(disk, sb, t.inodes, t.entries, seq![name], id, 0 + n, follow));
}

/// What holds an entry is a directory.
proof fn lemma_holder(disk: Disk, sb: Superblock, id: u64, name: Seq<char>, target: u64, kind: InodeKind)
    requires
        soundness::sound_on(disk, sb),
        has_child(disk, sb, id, name, target, kind),
    ensures
        file_blocks::index_of(soundness::tables_of(disk, sb).inodes, id) matches Some(i)
            && soundness::tables_of(disk, sb).inodes[i].kind == InodeKind::Directory,
{
    let t = soundness::tables_of(disk, sb);
    soundness::lemma_sound_parts(disk, sb);
    let entry = DirEntryView { parent: id, target, name };
    let e = choose|e: int| 0 <= e < t.entries.len() && #[trigger] t.entries[e] == entry;
    assert(crate::namespace::sound_entry(t.inodes, t.entries[e]));
}

/// A name that a directory does not hold is not found; behind anything but a directory a name is
/// invalid input; and what is refused on the way to the last name is refused so.
pub proof fn law_no_child(disk: Disk, sb: Superblock, path: Seq<char>, follow: bool)
    requires
        soundness::sound_on(disk, sb),
        path_lookup::path_components(path) is Some,
        path_create::destination_parts(path) is Some,
    ensures
        ({
            let t = soundness::tables_of(disk, sb);
            let (parent, name) = path_create::destination_parts(path)->Some_0;
            match path_lookup::resolved(disk, sb, parent, true) {
                Err(k) => path_lookup::resolved(disk, sb, path, follow) == Err::<u64, ErrorKind>(k),
                Ok(id) => {
                    &&& crate::namespace::has_kind(t.inodes, id, InodeKind::Directory) && (forall|
                        e: int,
                    |
                        0 <= e < t.entries.len() ==> !((#[trigger] t.entries[e]).parent == id
                            && t.entries[e].name == name)) ==> path_lookup::resolved(
                        disk,
                        sb,
                        path,
                        follow,
                    ) == Err::<u64, ErrorKind>(ErrorKind::NotFound)
                    &&& crate::namespace::has_kind(t.inodes, id, InodeKind::File) ==> path_lookup::resolved(
                        disk,
                        sb,
                        path,
                        follow,
                    ) == Err::<u64, ErrorKind>(ErrorKind::InvalidInput)
                },
            }
        }),
{
    let t = soundness::tables_of(disk, sb);
    let (parent, name) = path_create::destination_parts(path)->Some_0;
    lemma_resolved(disk, sb, path, follow);
    lemma_resolved(disk, sb, parent, true);
    path_create::lemma_components(path);
    let parts = path_lookup::path_components(parent)->Some_0;
    assert(parts.push(name) =~= parts + seq![name]);
    match path_lookup::resolved(disk, sb, parent, true) {
        Err(k) => {
            lemma_walk_refused(
                disk,
                sb,
                t.inodes,
                t.entries,
                parts,
                seq![name],
                ROOT_INODE_ID,
                0,
                follow,
            );
        },
        Ok(id) => {
            let n = lemma_walk_on_from(disk, sb, t.inodes, t.entries, parts, ROOT_INODE_ID, 0, id);
            path_lookup::lemma_entry_from(t.entries, id, name, 0);
            assert(path_lookup::walk(
                disk,
                sb,
                t.inodes,
                t.entries,
                parts + seq![name],
                ROOT_INODE_ID,
                0,
                follow,
            ) == path_lookup::walk(disk, sb, t.inodes, t.entries, seq![name], id, 0 + n, follow));
        },
    }
}

/// A symbolic link with an absolute target leads to what the target names as a path of its own,
/// unless more links would have to be followed than may be. It does where the way to the link and
/// the target can do with few enough.
pub proof fn law_absolute_link(disk: Disk, sb: Superblock, path: Seq<char>, link: u64, target: Seq<char>)
    requires
        soundness::sound_on(disk, sb),
        path_lookup::path_components(path) is Some,
        path_create::destination_parts(path) matches Some((parent, name)) && (
        path_lookup::resolved(disk, sb, parent, true) matches Ok(id) && has_child(
            disk,
            sb,
            id,
            name,
            link,
            InodeKind::Symlink,
        )),
        symlink::symlink_target(disk, sb, link) == Ok::<Seq<char>, ErrorKind>(target),
        path_lookup::is_absolute(target),
    ensures
        path_lookup::resolved(disk, sb, path, true) == path_lookup::resolved(disk, sb, target, true)
            || path_lookup::resolved(disk, sb, path, true) == Err::<u64, ErrorKind>(
            ErrorKind::InvalidData,
        ),
        forall|a: nat, b: nat|
            a + b + 1 <= MAX_SYMLINK_EXPANSIONS && (#[trigger] resolved_within(
                disk,
                sb,
                path_create::destination_parts(path)->Some_0.0,
                true,
                a,
            )) is Ok && (#[trigger] resolved_within(disk, sb, target, true, b)) != Err::<
                u64,
                ErrorKind,
            >(ErrorKind::InvalidData) ==> path_lookup::resolved(disk, sb, path, true)
                == path_lookup::resolved(disk, sb, target, true),
{
    let t = soundness::tables_of(disk, sb);
    let (parent, name) = path_create::destination_parts(path)->Some_0;
    let id = path_lookup::resolved(disk, sb, parent, true)->Ok_0;
    let max = MAX_SYMLINK_EXPANSIONS as nat;
    lemma_resolved(disk, sb, path, true);
    lemma_resolved(disk, sb, parent, true);
    lemma_resolved(disk, sb, target, true);
    path_create::lemma_components(path);
    lemma_child_found(disk, sb, id, name, link, InodeKind::Symlink);
    lemma_holder(disk, sb, id, name, link, InodeKind::Symlink);
    let parts = path_lookup::path_components(parent)->Some_0;
    assert(parts.push(name) =~= parts + seq![name]);
    assert(seq![name].drop_first() =~= Seq::<Seq<char>>::empty());
    assert(path_lookup::target_components(target) == path_lookup::path_components(target));
    lemma_link_from(disk, sb, parts, name, 0, id, link, target);
    assert forall|a: nat, b: nat|
        a + b + 1 <= MAX_SYMLINK_EXPANSIONS && (#[trigger] resolved_within(
            disk,
            sb,
            parent,
            true,
            a,
        )) is Ok && (#[trigger] resolved_within(disk, sb, target, true, b)) != Err::<
            u64,
            ErrorKind,
        >(ErrorKind::InvalidData) implies path_lookup::resolved(disk, sb, path, true)
        == path_lookup::resolved(disk, sb, target, true) by {
        let start = (max - a) as nat;
        let walked = path_lookup::walk(
            disk,
            sb,
            t.inodes,
            t.entries,
            parts,
            ROOT_INODE_ID,
            start,
            true,
        );
        lemma_walk_sooner(disk, sb, t.inodes, t.entries, parts, ROOT_INODE_ID, start, 0, true);
        let n = lemma_link_from(disk, sb, parts, name, start, id, link, target);
        if let Some(whole) = path_lookup::path_components(target) {
            lemma_walk_sooner(
                disk,
                sb,
                t.inodes,
                t.entries,
                whole,
                ROOT_INODE_ID,
                (max - b) as nat,
                n + 1,
                true,
            );
            lemma_walk_sooner(
                disk,
                sb,
                t.inodes,
                t.entries,
                whole,
                ROOT_INODE_ID,
                (max - b) as nat,
                0,
                true,
            );
        }
    }
    let n = lemma_link_from(disk, sb, parts, name, 0, id, link, target);
    if n < max {
        if let Some(whole) = path_lookup::path_components(target) {
            lemma_walk_sooner(
                disk,
                sb,
                t.inodes,
                t.entries,
                whole,
                ROOT_INODE_ID,
                n + 1,
                0,
                true,
            );
        }
    }
}

/// A walk to a symbolic link goes on with its target, from the root or from the directory that holds
/// the link, and has followed `n + 1` links by then.
proof fn lemma_link_from(
    disk: Disk,
    sb: Superblock,
    parts: Seq<Seq<char>>,
    name: Seq<char>,
    start: nat,
    id: u64,
    link: u64,
    target: Seq<char>,
) -> (n: nat)
    requires
        soundness::sound_on(disk, sb),
        start <= MAX_SYMLINK_EXPANSIONS,
        path_lookup::walk(
            disk,
            sb,
            soundness::tables_of(disk, sb).inodes,
            soundness::tables_of(disk, sb).entries,
            parts,
            ROOT_INODE_ID,
            start,
            true,
        ) == Ok::<u64, ErrorKind>(id),
        has_child(disk, sb, id, name, link, InodeKind::Symlink),
        symlink::symlink_target(disk, sb, link) == Ok::<Seq<char>, ErrorKind>(target),
    ensures
        start + n <= MAX_SYMLINK_EXPANSIONS,
        forall|e: nat|
            e <= start ==> #[trigger] path_lookup::walk(
                disk,
                sb,
                soundness::tables_of(disk, sb).inodes,
                soundness::tables_of(disk, sb).entries,
                parts + seq![name],
                ROOT_INODE_ID,
                e,
                true,
            ) == if e + n >= MAX_SYMLINK_EXPANSIONS {
                Err(ErrorKind::InvalidData)
            } else {
                match path_lookup::target_components(target) {
                    None => Err(ErrorKind::InvalidInput),
                    Some(more) => path_lookup::walk(
                        disk,
                        sb,
                        soundness::tables_of(disk, sb).inodes,
                        soundness::tables_of(disk, sb).entries,
                        more,
                        if path_lookup::is_absolute(target) {
                            ROOT_INODE_ID
                        } else {
                            id
                        },
                        e + n + 1,
                        true,
                    ),
                }
            },
        forall|e: nat, more: Seq<Seq<char>>|
            e <= start && more.len() > 0 ==> #[trigger] path_lookup::walk(
                disk,
                sb,
                soundness::tables_of(disk, sb).inodes,
                soundness::tables_of(disk, sb).entries,
                parts + more,
                ROOT_INODE_ID,
                e,
                true,
            ) == path_lookup::walk(
                disk,
                sb,
                soundness::tables_of(disk, sb).inodes,
                soundness::tables_of(disk, sb).entries,
                more,
                id,
                e + n,
                true,
            ),
{
    let t = soundness::tables_of(disk, sb);
    lemma_child_found(disk, sb, id, name, link, InodeKind::Symlink);
    lemma_holder(disk, sb, id, name, link, InodeKind::Symlink);
    let n = lemma_walk_on_from(disk, sb, t.inodes, t.entries, parts, ROOT_INODE_ID, start, id);
    let last = seq![name];
    assert(last.drop_first() =~= Seq::<Seq<char>>::empty());
    if let Some(more) = path_lookup::target_components(target) {
        assert(more + last.drop_first() =~= more);
    }
    n
}

/// The parts of two texts with a slash between them are those of the one and then those of the
/// other.
proof fn lemma_parts_of_both(front: Seq<char>, back: Seq<char>)
    ensures
        path_lookup::slash_parts(front.push('/') + back) == path_lookup::slash_parts(front)
            + path_lookup::slash_parts(back),
    decreases back.len(),
{
    let all = front.push('/') + back;
    if back.len() == 0 {
        assert(all.drop_last() =~= front);
        assert(path_lookup::slash_parts(front).push(Seq::empty()) =~= path_lookup::slash_parts(
            front,
        ) + path_lookup::slash_parts(back));
    } else {
        let shorter = back.drop_last();
        lemma_parts_of_both(front, shorter);
        assert(all.drop_last() =~= front.push('/') + shorter);
        let f = path_lookup::slash_parts(front);
        let b = path_lookup::slash_parts(shorter);
        path_lookup::lemma_parts_nonempty(shorter);
        assert(path_lookup::slash_parts(all) =~= f + path_lookup::slash_parts(back));
    }
}

/// A path that goes on from the directory `parent`.
pub open spec fn beneath(parent: Seq<char>, rest: Seq<char>) -> Seq<char> {
    if parent == seq!['/'] {
        parent + rest
    } else {
        parent.push('/') + rest
    }
}

/// The components of a path that goes on from another are those of that and then its own.
pub proof fn lemma_components_beneath(parent: Seq<char>, rest: Seq<char>)
    requires
        path_lookup::path_components(parent) is Some,
        rest.len() > 0,
        rest[0] != '/',
    ensures
        path_lookup::path_components(beneath(parent, rest)) == match path_lookup::target_components(
            rest,
        ) {
            None => None,
            Some(more) => Some(path_lookup::path_components(parent)->Some_0 + more),
        },
{
    let all = beneath(parent, rest);
    let parts = path_lookup::path_components(parent)->Some_0;
    let tail = all.subrange(1, all.len() as int);
    let mine = path_lookup::slash_parts(rest);
    assert(all.last() == rest.last());
    assert(all.len() > 1);
    assert(all[0] == '/');
    assert(rest != seq!['/']);
    let whole = path_lookup::slash_parts(tail);
    if parent == seq!['/'] {
        assert(tail =~= rest);
        assert(parts + mine =~= mine);
    } else {
        let front = parent.subrange(1, parent.len() as int);
        assert(tail =~= front.push('/') + rest);
        lemma_parts_of_both(front, rest);
        assert(whole == parts + mine);
    }
    assert(whole =~= parts + mine);
    if rest.last() != '/' {
        if forall|i: int| 0 <= i < mine.len() ==> path_lookup::proper_component(#[trigger] mine[i]) {
            assert forall|i: int| 0 <= i < whole.len() implies path_lookup::proper_component(
                #[trigger] whole[i],
            ) by {
                if i < parts.len() {
                    assert(whole[i] == parts[i]);
                } else {
                    assert(whole[i] == mine[i - parts.len()]);
                }
            }
        } else {
            let k = choose|k: int|
                0 <= k < mine.len() && !path_lookup::proper_component(#[trigger] mine[k]);
            assert(whole[parts.len() + k] == mine[k]);
        }
    }
}

/// A symbolic link with a relative target leads to what the target names from the directory that
/// holds the link, unless more links would have to be followed than may be. It does where that path
/// can do with one link less.
pub proof fn law_relative_link(disk: Disk, sb: Superblock, path: Seq<char>, link: u64, target: Seq<char>)
    requires
        soundness::sound_on(disk, sb),
        path_lookup::path_components(path) is Some,
        path_create::destination_parts(path) matches Some((parent, name)) && (
        path_lookup::resolved(disk, sb, parent, true) matches Ok(id) && has_child(
            disk,
            sb,
            id,
            name,
            link,
            InodeKind::Symlink,
        )),
        symlink::symlink_target(disk, sb, link) == Ok::<Seq<char>, ErrorKind>(target),
        !path_lookup::is_absolute(target),
    ensures
        ({
            let direct = beneath(path_create::destination_parts(path)->Some_0.0, target);
            &&& path_lookup::resolved(disk, sb, path, true) == path_lookup::resolved(
                disk,
                sb,
                direct,
                true,
            ) || path_lookup::resolved(disk, sb, path, true) == Err::<u64, ErrorKind>(
                ErrorKind::InvalidData,
            )
            &&& path_lookup::path_components(direct) is Some && resolved_within(
                disk,
                sb,
                direct,
                true,
                (MAX_SYMLINK_EXPANSIONS - 1) as nat,
            ) != Err::<u64, ErrorKind>(ErrorKind::InvalidData) ==> path_lookup::resolved(
                disk,
                sb,
                path,
                true,
            ) == path_lookup::resolved(disk, sb, direct, true)
        }),
{
    let t = soundness::tables_of(disk, sb);
    let (parent, name) = path_create::destination_parts(path)->Some_0;
    let id = path_lookup::resolved(disk, sb, parent, true)->Ok_0;
    let direct = beneath(parent, target);
    let max = MAX_SYMLINK_EXPANSIONS as nat;
    assert(target.len() > 0) by {
        reveal(symlink::symlink_target);
        lemma_target_nonempty(disk, sb, link, target);
    }
    lemma_resolved(disk, sb, path, true);
    lemma_resolved(disk, sb, parent, true);
    lemma_resolved(disk, sb, direct, true);
    path_create::lemma_components(path);
    lemma_components_beneath(parent, target);
    let parts = path_lookup::path_components(parent)->Some_0;
    assert(parts.push(name) =~= parts + seq![name]);
    let n = lemma_link_from(disk, sb, parts, name, 0, id, link, target);
    if let Some(more) = path_lookup::target_components(target) {
        path_lookup::lemma_parts_nonempty(target);
        assert(more.len() > 0);
        assert(path_lookup::walk(
            disk,
            sb,
            t.inodes,
            t.entries,
            parts + more,
            ROOT_INODE_ID,
            0,
            true,
        ) == path_lookup::walk(disk, sb, t.inodes, t.entries, more, id, 0 + n, true));
        if n < max {
            lemma_walk_sooner(disk, sb, t.inodes, t.entries, more, id, n + 1, n, true);
        }
        if resolved_within(disk, sb, direct, true, (max - 1) as nat) != Err::<u64, ErrorKind>(
            ErrorKind::InvalidData,
        ) {
            lemma_walk_refused(
                disk,
                sb,
                t.inodes,
                t.entries,
                parts,
                more,
                ROOT_INODE_ID,
                1,
                true,
            );
            lemma_walk_sooner(
                disk,
                sb,
                t.inodes,
                t.entries,
                parts,
                ROOT_INODE_ID,
                1,
                0,
                true,
            );
            let m = lemma_link_from(disk, sb, parts, name, 1, id, link, target);
            assert(path_lookup::walk(
                disk,
                sb,
                t.inodes,
                t.entries,
                parts + more,
                ROOT_INODE_ID,
                1,
                true,
            ) == path_lookup::walk(disk, sb, t.inodes, t.entries, more, id, 1 + m, true));
            assert(path_lookup::walk(
                disk,
                sb,
                t.inodes,
                t.entries,
                parts + more,
                ROOT_INODE_ID,
                0,
                true,
            ) == path_lookup::walk(disk, sb, t.inodes, t.entries, more, id, 0 + m, true));
            lemma_walk_sooner(disk, sb, t.inodes, t.entries, more, id, m + 1, m, true);
        }
    }
}

/// A link has a target.
proof fn lemma_target_nonempty(disk: Disk, sb: Superblock, link: u64, target: Seq<char>)
    requires
        symlink::symlink_target(disk, sb, link) == Ok::<Seq<char>, ErrorKind>(target),
    ensures
        target.len() > 0,
{
    reveal(symlink::symlink_target);
    reveal(symlink::target_of);
}

/// What is found with few links is found.
pub proof fn lemma_within(disk: Disk, sb: Superblock, path: Seq<char>, follow: bool, links: nat)
    requires
        soundness::sound_on(disk, sb),
        links <= MAX_SYMLINK_EXPANSIONS,
        resolved_within(disk, sb, path, follow, links) is Ok,
    ensures
        path_lookup::resolved(disk, sb, path, follow) == resolved_within(
            disk,
            sb,
            path,
            follow,
            links,
        ),
{
    let t = soundness::tables_of(disk, sb);
    lemma_resolved(disk, sb, path, follow);
    lemma_walk_sooner(
        disk,
        sb,
        t.inodes,
        t.entries,
        path_lookup::path_components(path)->Some_0,
        ROOT_INODE_ID,
        (MAX_SYMLINK_EXPANSIONS - links) as nat,
        0,
        follow,
    );
}

/// A walk ends at an inode.
proof fn lemma_walk_ends(
    disk: Disk,
    sb: Superblock,
    inodes: Seq<InodeView>,
    entries: Seq<DirEntryView>,
    pending: Seq<Seq<char>>,
    current: u64,
    expansions: nat,
    follow: bool,
)
    requires
        expansions <= MAX_SYMLINK_EXPANSIONS,
        file_blocks::index_of(inodes, current) is Some,
        file_blocks::index_of(inodes, ROOT_INODE_ID) is Some,
    ensures
        path_lookup::walk(
            disk,
            sb,
            inodes,
            entries,
            pending,
            current,
            expansions,
            follow,
        ) matches Ok(id) ==> file_blocks::index_of(inodes, id) is Some,
    decreases MAX_SYMLINK_EXPANSIONS - expansions, pending.len(),
{
    if pending.len() > 0 {
        let rest = pending.drop_first();
        if let Some(e) = path_lookup::entry_index(entries, current, pending[0]) {
            let target = entries[e].target;
            if let Some(t) = file_blocks::index_of(inodes, target) {
                if inodes[t].kind != InodeKind::Symlink {
                    lemma_walk_ends(disk, sb, inodes, entries, rest, target, expansions, follow);
                } else if expansions < MAX_SYMLINK_EXPANSIONS {
                    if let Ok(text) = symlink::symlink_target(disk, sb, target) {
                        if let Some(parts) = path_lookup::target_components(text) {
                            lemma_walk_ends(
                                disk,
                                sb,
                                inodes,
                                entries,
                                parts + rest,
                                if path_lookup::is_absolute(text) {
                                    ROOT_INODE_ID
                                } else {
                                    current
                                },
                                expansions + 1,
                                follow,
                            );
                        }
                    }
                }
            }
        }
    }
}

/// What a path names is in the inode table.
pub proof fn lemma_named(disk: Disk, sb: Superblock, path: Seq<char>, follow: bool)
    requires
        soundness::sound_on(disk, sb),
    ensures
        path_lookup::resolved(disk, sb, path, follow) matches Ok(id) ==> file_blocks::index_of(
            soundness::tables_of(disk, sb).inodes,
            id,
        ) is Some,
{
    let t = soundness::tables_of(disk, sb);
    lemma_resolved(disk, sb, path, follow);
    lemma_root_found(disk, sb);
    if let Some(parts) = path_lookup::path_components(path) {
        lemma_walk_ends(disk, sb, t.inodes, t.entries, parts, ROOT_INODE_ID, 0, follow);
    }
}

/// The target of a link at a path is that of the link that its last component names, which is not
/// followed.
pub proof fn law_link_target_at_path(disk: Disk, sb: Superblock, path: Seq<char>, link: u64)
    requires
        soundness::sound_on(disk, sb),
        path_lookup::path_components(path) is Some,
        path_create::destination_parts(path) matches Some((parent, name)) && (
        path_lookup::resolved(disk, sb, parent, true) matches Ok(id) && has_child(
            disk,
            sb,
            id,
            name,
            link,
            InodeKind::Symlink,
        )),
    ensures
        path_lookup::link_at(disk, sb, path) == symlink::symlink_target(disk, sb, link),
        path_lookup::link_at(disk, sb, path) matches Ok(target) ==> exists|i: int|
            0 <= i < soundness::tables_of(disk, sb).inodes.len() && (#[trigger] soundness::tables_of(
                disk,
                sb,
            ).inodes[i]).id == link && soundness::tables_of(disk, sb).inodes[i].blocks.len() == 1
                && symlink::target_of(
                disk[soundness::tables_of(disk, sb).inodes[i].blocks[0] as int],
            ) == Some(target),
{
    reveal(symlink::symlink_target);
    let t = soundness::tables_of(disk, sb);
    soundness::lemma_sound_parts(disk, sb);
    law_child(disk, sb, path, false, link, InodeKind::Symlink);
    file_blocks::lemma_index_from(t.inodes, link, 0);
    let i = file_blocks::index_of(t.inodes, link)->Some_0;
    assert(t.inodes[i].id == link);
}

} // verus!
