//! From path names to inodes.

use vstd::prelude::*;
use vstd::string::*;
use crate::block;
use crate::block::{BlockDevice, Disk, BLOCK_SIZE};
use crate::contents;
use crate::directory_codec::{DirEntryView, PersistedDirectoryEntry};
use crate::directory_table;
use crate::directory_table::load_directory_table;
use crate::error::{Error, ErrorKind};
use crate::file_blocks;
use crate::file_blocks::{find_inode, invalid_data, invalid_input};
use crate::file_range_read;
use crate::file_range_read::{read_file_range, write_file_range_journaled};
use crate::format::Superblock;
use crate::inode::InodeKind;
use crate::inode_codec::InodeView;
use crate::inode_table;
use crate::inode_table::load_inode_table;
use crate::journal_region;
use crate::names::{chars_of, same_text};
use crate::naming;
use crate::recovery::RecoveryReport;
use crate::soundness;
use crate::step;
use crate::step::Step;
use crate::symlink;
use crate::symlink::read_symlink;

verus! {

/// The most symbolic links that one lookup follows.
pub const MAX_SYMLINK_EXPANSIONS: usize = 40;

/// The inode of the root directory.
pub const ROOT_INODE_ID: u64 = 1;

/// The parts of a text between its slashes.
pub open spec fn slash_parts(s: Seq<char>) -> Seq<Seq<char>>
    decreases s.len(),
{
    if s.len() == 0 {
        seq![Seq::empty()]
    } else {
        let front = slash_parts(s.drop_last());
        if s.last() == '/' {
            front.push(Seq::empty())
        } else {
            front.drop_last().push(front.last().push(s.last()))
        }
    }
}

/// A component that a path may have.
pub open spec fn proper_component(part: Seq<char>) -> bool {
    part.len() > 0 && part != seq!['.'] && part != seq!['.', '.']
}

/// The components of a relative path; none where one of them is improper.
pub open spec fn component_sequence(s: Seq<char>) -> Option<Seq<Seq<char>>> {
    let parts = slash_parts(s);
    if s.len() > 0 && forall|i: int|
        0 <= i < parts.len() ==> proper_component(#[trigger] parts[i]) {
        Some(parts)
    } else {
        None
    }
}

pub open spec fn is_absolute(path: Seq<char>) -> bool {
    path.len() > 0 && path[0] == '/'
}

/// The components of an absolute path; none where it is malformed.
pub open spec fn path_components(path: Seq<char>) -> Option<Seq<Seq<char>>> {
    if path == seq!['/'] {
        Some(Seq::empty())
    } else if !is_absolute(path) || path.last() == '/' {
        None
    } else {
        component_sequence(path.subrange(1, path.len() as int))
    }
}

/// The components of the target of a symbolic link, which may be relative; none where it is
/// malformed.
pub open spec fn target_components(target: Seq<char>) -> Option<Seq<Seq<char>>> {
    if target == seq!['/'] {
        Some(Seq::empty())
    } else if target.len() > 0 && target.last() == '/' {
        None
    } else if is_absolute(target) {
        component_sequence(target.subrange(1, target.len() as int))
    } else {
        component_sequence(target)
    }
}

/// The first entry from `from` on with this name in this directory.
pub open spec fn entry_from(entries: Seq<DirEntryView>, parent: u64, name: Seq<char>, from: int) -> Option<int>
    decreases entries.len() - from,
{
    if from >= entries.len() {
        None
    } else if entries[from].parent == parent && entries[from].name == name {
        Some(from)
    } else {
        entry_from(entries, parent, name, from + 1)
    }
}

/// The entry with this name in this directory.
pub open spec fn entry_index(entries: Seq<DirEntryView>, parent: u64, name: Seq<char>) -> Option<int> {
    entry_from(entries, parent, name, 0)
}

/// The inode at the end of a walk from `current` along `pending`. Symbolic links on the way are
/// replaced by their targets, at most a fixed number of times; one at the end is followed only
/// with `follow`.
pub open spec fn walk(
    disk: Disk,
    sb: Superblock,
    inodes: Seq<InodeView>,
    entries: Seq<DirEntryView>,
    pending: Seq<Seq<char>>,
    current: u64,
    expansions: nat,
    follow: bool,
) -> Result<u64, ErrorKind>
    decreases MAX_SYMLINK_EXPANSIONS - expansions, pending.len(),
{
    if pending.len() == 0 {
        Ok(current)
    } else {
        let rest = pending.drop_first();
        match file_blocks::index_of(inodes, current) {
            None => Err(ErrorKind::InvalidData),
            Some(c) => if inodes[c].kind != InodeKind::Directory {
                Err(ErrorKind::InvalidInput)
            } else {
                match entry_index(entries, current, pending[0]) {
                    None => Err(ErrorKind::NotFound),
                    Some(e) => match file_blocks::index_of(inodes, entries[e].target) {
                        None => Err(ErrorKind::InvalidData),
                        Some(t) => if inodes[t].kind != InodeKind::Symlink {
                            walk(
                                disk,
                                sb,
                                inodes,
                                entries,
                                rest,
                                entries[e].target,
                                expansions,
                                follow,
                            )
                        } else if rest.len() == 0 && !follow {
                            Ok(entries[e].target)
                        } else if expansions >= MAX_SYMLINK_EXPANSIONS {
                            Err(ErrorKind::InvalidData)
                        } else {
                            match symlink::symlink_target(disk, sb, entries[e].target) {
                                Err(kind) => Err(kind),
                                Ok(target) => match target_components(target) {
                                    None => Err(ErrorKind::InvalidInput),
                                    Some(parts) => walk(
                                        disk,
                                        sb,
                                        inodes,
                                        entries,
                                        parts + rest,
                                        if is_absolute(target) {
                                            ROOT_INODE_ID
                                        } else {
                                            current
                                        },
                                        expansions + 1,
                                        follow,
                                    ),
                                },
                            }
                        },
                    },
                }
            },
        }
    }
}

/// The inode that an absolute path names, or how the path is refused.
#[verifier::opaque]
pub open spec fn resolved(disk: Disk, sb: Superblock, path: Seq<char>, follow: bool) -> Result<u64, ErrorKind> {
    if !is_absolute(path) {
        Err(ErrorKind::InvalidInput)
    } else {
        match inode_table::inodes_on(disk, sb) {
            Err(kind) => Err(kind),
            Ok(inodes) => match directory_table::entries_on(disk, sb) {
                Err(kind) => Err(kind),
                Ok(entries) => match path_components(path) {
                    None => Err(ErrorKind::InvalidInput),
                    Some(parts) => if parts.len() == 0 {
                        match file_blocks::index_of(inodes, ROOT_INODE_ID) {
                            Some(_) => Ok(ROOT_INODE_ID),
                            None => Err(ErrorKind::InvalidData),
                        }
                    } else {
                        walk(disk, sb, inodes, entries, parts, ROOT_INODE_ID, 0, follow)
                    },
                },
            },
        }
    }
}

/// What a request does to the inode that a path names.
pub open spec fn resolved_then<T>(disk: Disk, sb: Superblock, path: Seq<char>, next: spec_fn(u64) -> Step<T>) -> Step<T> {
    match resolved(disk, sb, path, true) {
        Ok(id) => next(id),
        Err(kind) => step::stay(disk, Err(kind)),
    }
}

/// The texts of a list of strings.
pub open spec fn texts(list: Seq<String>) -> Seq<Seq<char>> {
    Seq::new(list.len(), |i: int| list[i]@)
}

pub proof fn lemma_parts_nonempty(s: Seq<char>)
    ensures
        slash_parts(s).len() > 0,
    decreases s.len(),
{
    if s.len() > 0 {
        lemma_parts_nonempty(s.drop_last());
    }
}

/// Splits a text at its slashes, from character `from` on.
fn split_slashes(s: &str, from: usize) -> (r: Vec<String>)
    requires
        from <= s@.len(),
    ensures
        texts(r@) == slash_parts(s@.subrange(from as int, s@.len() as int)),
{
    let chars = chars_of(s);
    let ghost body = s@.subrange(from as int, s@.len() as int);
    let mut done: Vec<String> = Vec::new();
    let mut start: usize = from;
    let mut i: usize = from;
    proof {
        assert(body.subrange(0, 0) =~= Seq::<char>::empty());
        assert(s@.subrange(from as int, from as int) =~= Seq::<char>::empty());
        assert(texts(done@).push(Seq::empty()) =~= slash_parts(Seq::empty()));
    }
    while i < chars.len()
        invariant
            chars@ == s@,
            from <= start <= i <= s@.len(),
            body == s@.subrange(from as int, s@.len() as int),
            texts(done@).push(s@.subrange(start as int, i as int)) == slash_parts(
                body.subrange(0, i - from),
            ),
        decreases s@.len() - i,
    {
        proof {
            let next = body.subrange(0, i + 1 - from);
            assert(next.drop_last() =~= body.subrange(0, i - from));
            assert(next.last() == s@[i as int]);
        }
        let ghost list = texts(done@);
        let ghost part = s@.subrange(start as int, i as int);
        let ghost front = slash_parts(body.subrange(0, i - from));
        assert(front == list.push(part));
        if chars[i] == '/' {
            let piece: String = s.substring_char(start, i).to_owned();
            done.push(piece);
            start = i + 1;
            proof {
                assert(texts(done@) =~= list.push(part));
                assert(s@.subrange(start as int, i + 1) =~= Seq::<char>::empty());
            }
        } else {
            proof {
                assert(s@.subrange(start as int, i + 1) =~= part.push(s@[i as int]));
                assert(front.drop_last() =~= list);
                assert(front.last() == part);
            }
        }
        i += 1;
    }
    let ghost list = texts(done@);
    let last: String = s.substring_char(start, i).to_owned();
    done.push(last);
    proof {
        assert(texts(done@) =~= list.push(s@.subrange(start as int, i as int)));
        assert(body.subrange(0, body.len() as int) =~= body);
    }
    done
}

fn is_proper_component(part: &str) -> (b: bool)
    ensures
        b == proper_component(part@),
{
    let chars = chars_of(part);
    if chars.len() == 0 {
        return false;
    }
    if chars.len() == 1 && chars[0] == '.' {
        assert(part@ =~= seq!['.']);
        return false;
    }
    if chars.len() == 2 && chars[0] == '.' && chars[1] == '.' {
        assert(part@ =~= seq!['.', '.']);
        return false;
    }
    assert(seq!['.'][0] == '.');
    assert(seq!['.', '.'][0] == '.' && seq!['.', '.'][1] == '.');
    true
}

fn parse_component_sequence(s: &str, from: usize) -> (r: Option<Vec<String>>)
    requires
        from <= s@.len(),
    ensures
        match r {
            Some(parts) => component_sequence(s@.subrange(from as int, s@.len() as int)) == Some(
                texts(parts@),
            ),
            None => component_sequence(s@.subrange(from as int, s@.len() as int)) is None,
        },
{
    let ghost body = s@.subrange(from as int, s@.len() as int);
    if from == s.unicode_len() {
        return None;
    }
    let parts = split_slashes(s, from);
    let mut i: usize = 0;
    while i < parts.len()
        invariant
            i <= parts@.len(),
            body == s@.subrange(from as int, s@.len() as int),
            texts(parts@) == slash_parts(body),
            forall|k: int| 0 <= k < i ==> proper_component(#[trigger] slash_parts(body)[k]),
        decreases parts@.len() - i,
    {
        assert(slash_parts(body)[i as int] == parts@[i as int]@);
        if !is_proper_component(parts[i].as_str()) {
            return None;
        }
        i += 1;
    }
    Some(parts)
}

pub(crate) fn starts_with_slash(s: &str) -> (b: bool)
    ensures
        b == is_absolute(s@),
{
    s.unicode_len() > 0 && s.get_char(0) == '/'
}

fn is_single_slash(s: &str) -> (b: bool)
    ensures
        b == (s@ == seq!['/']),
{
    if s.unicode_len() == 1 && s.get_char(0) == '/' {
        assert(s@ =~= seq!['/']);
        true
    } else {
        assert(seq!['/'][0] == '/');
        false
    }
}

fn ends_with_slash(s: &str) -> (b: bool)
    ensures
        b == (s@.len() > 0 && s@.last() == '/'),
{
    let n: usize = s.unicode_len();
    n > 0 && s.get_char(n - 1) == '/'
}

fn parse_components(path: &str) -> (r: Option<Vec<String>>)
    ensures
        match r {
            Some(parts) => path_components(path@) == Some(texts(parts@)),
            None => path_components(path@) is None,
        },
{
    if is_single_slash(path) {
        let none: Vec<String> = Vec::new();
        assert(texts(none@) =~= Seq::<Seq<char>>::empty());
        return Some(none);
    }
    if !starts_with_slash(path) || ends_with_slash(path) {
        return None;
    }
    parse_component_sequence(path, 1)
}

fn parse_target_components(target: &str) -> (r: Option<Vec<String>>)
    ensures
        match r {
            Some(parts) => target_components(target@) == Some(texts(parts@)),
            None => target_components(target@) is None,
        },
{
    if is_single_slash(target) {
        let none: Vec<String> = Vec::new();
        assert(texts(none@) =~= Seq::<Seq<char>>::empty());
        return Some(none);
    }
    if ends_with_slash(target) {
        return None;
    }
    if starts_with_slash(target) {
        parse_component_sequence(target, 1)
    } else {
        assert(target@.subrange(0, target@.len() as int) =~= target@);
        parse_component_sequence(target, 0)
    }
}

/// Finds the entry with this name in this directory.
pub(crate) fn find_entry(entries: &[PersistedDirectoryEntry], parent: u64, name: &str) -> (r: Option<usize>)
    ensures
        match r {
            Some(i) => i < entries@.len() && entry_index(
                directory_table::entry_views(entries@),
                parent,
                name@,
            ) == Some(i as int),
            None => entry_index(directory_table::entry_views(entries@), parent, name@) is None,
        },
{
    let ghost views = directory_table::entry_views(entries@);
    let mut i: usize = 0;
    while i < entries.len()
        invariant
            i <= entries@.len(),
            views == directory_table::entry_views(entries@),
            entry_index(views, parent, name@) == entry_from(views, parent, name@, i as int),
        decreases entries@.len() - i,
    {
        if entries[i].parent == parent && same_text(entries[i].name.as_str(), name) {
            return Some(i);
        }
        i += 1;
    }
    None
}

pub proof fn lemma_entry_from(entries: Seq<DirEntryView>, parent: u64, name: Seq<char>, from: int)
    requires
        0 <= from,
    ensures
        match entry_from(entries, parent, name, from) {
            Some(i) => {
                &&& from <= i < entries.len()
                &&& entries[i].parent == parent
                &&& entries[i].name == name
            },
            None => forall|j: int|
                from <= j < entries.len() ==> !((#[trigger] entries[j]).parent == parent
                    && entries[j].name == name),
        },
    decreases entries.len() - from,
{
    if from < entries.len() && !(entries[from].parent == parent && entries[from].name == name) {
        lemma_entry_from(entries, parent, name, from + 1);
    }
}

fn resolve_path<D: BlockDevice>(device: &mut D, superblock: &Superblock, path: &str, follow_final_symlink: bool) -> (r: Result<u64, Error>)
    ensures
        block::untouched(old(device), final(device)),
        match r {
            Ok(id) => resolved(
                old(device).blocks(),
                *superblock,
                path@,
                follow_final_symlink,
            ) == Ok::<u64, ErrorKind>(id),
            Err(e) => !old(device).healthy() || resolved(
                old(device).blocks(),
                *superblock,
                path@,
                follow_final_symlink,
            ) == Err::<u64, ErrorKind>(e.kind),
        },
        !is_absolute(path@) ==> (r matches Err(e) && e.kind == ErrorKind::InvalidInput),
{
    let ghost disk = device.blocks();
    proof {
        reveal(resolved);
    }
    if !starts_with_slash(path) {
        return Err(invalid_input("path must be absolute"));
    }
    let inodes = load_inode_table(device, superblock)?;
    let entries = load_directory_table(device, superblock)?;
    let ghost inode_views = inode_table::inode_views(inodes@);
    let ghost entry_views = directory_table::entry_views(entries@);
    let mut pending = match parse_components(path) {
        Some(parts) => parts,
        None => return Err(invalid_input("path is malformed")),
    };
    let mut current: u64 = ROOT_INODE_ID;
    let mut expansions: usize = 0;
    if pending.len() == 0 {
        return match find_inode(inodes.as_slice(), current) {
            Some(_) => Ok(current),
            None => Err(invalid_data("namespace references a missing inode")),
        };
    }
    while pending.len() > 0
        invariant
            is_absolute(path@),
            disk == old(device).blocks(),
            block::untouched(old(device), device),
            inode_views == inode_table::inode_views(inodes@),
            entry_views == directory_table::entry_views(entries@),
            expansions <= MAX_SYMLINK_EXPANSIONS,
            resolved(disk, *superblock, path@, follow_final_symlink) == walk(
                disk,
                *superblock,
                inode_views,
                entry_views,
                texts(pending@),
                current,
                expansions as nat,
                follow_final_symlink,
            ),
        decreases MAX_SYMLINK_EXPANSIONS - expansions, pending.len(),
    {
        let ghost parts = texts(pending@);
        let component = pending.remove(0);
        proof {
            assert(texts(pending@) =~= parts.drop_first());
            assert(parts[0] == component@);
        }
        let c: usize = match find_inode(inodes.as_slice(), current) {
            Some(i) => i,
            None => return Err(invalid_data("namespace references a missing inode")),
        };
        if inodes[c].kind != InodeKind::Directory {
            return Err(invalid_input("path traversal requires a directory inode"));
        }
        let e: usize = match find_entry(entries.as_slice(), current, component.as_str()) {
            Some(i) => i,
            None => return Err(Error::new(ErrorKind::NotFound, "path component not found")),
        };
        let target_id: u64 = entries[e].target;
        let t: usize = match find_inode(inodes.as_slice(), target_id) {
            Some(i) => i,
            None => return Err(invalid_data("namespace references a missing inode")),
        };
        if inodes[t].kind == InodeKind::Symlink {
            if pending.len() == 0 && !follow_final_symlink {
                return Ok(target_id);
            }
            if expansions >= MAX_SYMLINK_EXPANSIONS {
                return Err(invalid_data("symbolic-link expansion limit exceeded"));
            }
            expansions += 1;
            let target = read_symlink(device, superblock, target_id)?;
            let mut expanded = match parse_target_components(target.as_str()) {
                Some(parts) => parts,
                None => return Err(invalid_input("symbolic-link target is malformed")),
            };
            let ghost rest = texts(pending@);
            let ghost added = texts(expanded@);
            expanded.append(&mut pending);
            assert(texts(expanded@) =~= added + rest);
            pending = expanded;
            if starts_with_slash(target.as_str()) {
                current = ROOT_INODE_ID;
            }
        } else {
            current = target_id;
        }
    }
    assert(texts(pending@).len() == 0);
    Ok(current)
}

/// Resolves an absolute path, following every symbolic link on it.
pub fn resolve_path_following_symlinks<D: BlockDevice>(device: &mut D, superblock: &Superblock, path: &str) -> (r: Result<u64, Error>)
    ensures
        block::untouched(old(device), final(device)),
        match r {
            Ok(id) => resolved(old(device).blocks(), *superblock, path@, true) == Ok::<
                u64,
                ErrorKind,
            >(id),
            Err(e) => !old(device).healthy() || resolved(
                old(device).blocks(),
                *superblock,
                path@,
                true,
            ) == Err::<u64, ErrorKind>(e.kind),
        },
        !is_absolute(path@) ==> (r matches Err(e) && e.kind == ErrorKind::InvalidInput),
{
    resolve_path(device, superblock, path, true)
}

/// Resolves an absolute path, following every symbolic link on it but the last component.
pub fn resolve_path_without_following_final_symlink<D: BlockDevice>(device: &mut D, superblock: &Superblock, path: &str) -> (r: Result<u64, Error>)
    ensures
        block::untouched(old(device), final(device)),
        match r {
            Ok(id) => resolved(old(device).blocks(), *superblock, path@, false) == Ok::<
                u64,
                ErrorKind,
            >(id),
            Err(e) => !old(device).healthy() || resolved(
                old(device).blocks(),
                *superblock,
                path@,
                false,
            ) == Err::<u64, ErrorKind>(e.kind),
        },
        !is_absolute(path@) ==> (r matches Err(e) && e.kind == ErrorKind::InvalidInput),
{
    resolve_path(device, superblock, path, false)
}

/// The target of the symbolic link that a path names, or how the path is refused.
pub open spec fn link_at(disk: Disk, sb: Superblock, path: Seq<char>) -> Result<Seq<char>, ErrorKind> {
    match resolved(disk, sb, path, false) {
        Err(kind) => Err(kind),
        Ok(id) => symlink::symlink_target(disk, sb, id),
    }
}

/// Reads the target of the symbolic link that a path names. The target need not exist.
pub fn read_symlink_at_path<D: BlockDevice>(device: &mut D, superblock: &Superblock, path: &str) -> (r: Result<String, Error>)
    ensures
        block::untouched(old(device), final(device)),
        match r {
            Ok(target) => link_at(old(device).blocks(), *superblock, path@) == Ok::<
                Seq<char>,
                ErrorKind,
            >(target@),
            Err(e) => !old(device).healthy() || link_at(
                old(device).blocks(),
                *superblock,
                path@,
            ) == Err::<Seq<char>, ErrorKind>(e.kind),
        },
        !is_absolute(path@) ==> (r matches Err(e) && e.kind == ErrorKind::InvalidInput),
{
    let inode_id: u64 = resolve_path_without_following_final_symlink(device, superblock, path)?;
    read_symlink(device, superblock, inode_id)
}

/// The bytes of a range of the file that a path names, or how the request is refused.
pub open spec fn range_at(disk: Disk, sb: Superblock, path: Seq<char>, first: int, offset: int, len: int) -> Result<Seq<u8>, ErrorKind> {
    match resolved(disk, sb, path, true) {
        Err(kind) => Err(kind),
        Ok(id) => file_range_read::read_range(disk, sb, id, first, offset, len),
    }
}

/// Reads a byte range of the regular file that a path names.
pub fn read_file_range_at_path<D: BlockDevice>(
    device: &mut D,
    superblock: &Superblock,
    path: &str,
    first_block_index: usize,
    start_offset: usize,
    len: usize,
) -> (r: Result<Vec<u8>, Error>)
    ensures
        block::untouched(old(device), final(device)),
        match r {
            Ok(data) => range_at(
                old(device).blocks(),
                *superblock,
                path@,
                first_block_index as int,
                start_offset as int,
                len as int,
            ) == Ok::<Seq<u8>, ErrorKind>(data@),
            Err(e) => !old(device).healthy() || range_at(
                old(device).blocks(),
                *superblock,
                path@,
                first_block_index as int,
                start_offset as int,
                len as int,
            ) == Err::<Seq<u8>, ErrorKind>(e.kind),
        },
        !is_absolute(path@) ==> (r matches Err(e) && e.kind == ErrorKind::InvalidInput),
{
    let inode_id: u64 = resolve_path_following_symlinks(device, superblock, path)?;
    read_file_range(device, superblock, inode_id, first_block_index, start_offset, len)
}

/// A byte range of the file that a path names overwritten.
pub open spec fn write_range_at_step(disk: Disk, sb: Superblock, path: Seq<char>, first: int, offset: int, data: Seq<u8>) -> Step<RecoveryReport> {
    match resolved(disk, sb, path, true) {
        Err(kind) => step::stay(disk, Err(kind)),
        Ok(id) => file_range_read::write_range_step(disk, sb, id, first, offset, data),
    }
}

/// Overwrites a byte range of the regular file that a path names, as one transaction.
pub fn write_file_range_at_path_journaled<D: BlockDevice>(
    device: &mut D,
    superblock: &Superblock,
    path: &str,
    first_block_index: usize,
    start_offset: usize,
    data: &[u8],
) -> (r: Result<RecoveryReport, Error>)
    ensures
        journal_region::carried_out(
            old(device),
            final(device),
            *superblock,
            step::kinded(r),
            write_range_at_step(
                old(device).blocks(),
                *superblock,
                path@,
                first_block_index as int,
                start_offset as int,
                data@,
            ),
        ),
        step::turned_away(
            old(device),
            final(device),
            step::kinded(r),
            !is_absolute(path@),
        ),
{
    broadcast use journal_region::group_atomic;

    let inode_id: u64 = resolve_path_following_symlinks(device, superblock, path)?;
    write_file_range_journaled(
        device,
        superblock,
        inode_id,
        first_block_index,
        start_offset,
        data,
    )
}

/// Text without a slash is a single part; behind a slash it becomes the last part.
pub proof fn lemma_slash_parts(front: Seq<char>, name: Seq<char>)
    requires
        !name.contains('/'),
    ensures
        slash_parts(name) == seq![name],
        slash_parts(front.push('/') + name) == slash_parts(front).push(name),
    decreases name.len(),
{
    let all = front.push('/') + name;
    if name.len() == 0 {
        assert(all =~= front.push('/'));
        assert(all.drop_last() =~= front);
        assert(name =~= Seq::<char>::empty());
        assert(slash_parts(name) =~= seq![name]);
    } else {
        let shorter = name.drop_last();
        let last = name.last();
        assert(name[name.len() - 1] == last);
        assert(last != '/');
        assert(!shorter.contains('/')) by {
            if shorter.contains('/') {
                let i = choose|i: int| 0 <= i < shorter.len() && shorter[i] == '/';
                assert(name[i] == '/');
            }
        }
        lemma_slash_parts(front, shorter);
        assert(all.drop_last() =~= front.push('/') + shorter);
        assert(shorter.push(last) =~= name);
        let before = slash_parts(front).push(shorter);
        assert(before.drop_last() =~= slash_parts(front));
        assert(slash_parts(all) =~= slash_parts(front).push(name));
        assert(seq![shorter].drop_last() =~= Seq::<Seq<char>>::empty());
        assert(slash_parts(name) =~= seq![name]);
    }
}

/// An entry that is found stays where it is when another is added at the end.
pub proof fn lemma_entry_push(entries: Seq<DirEntryView>, entry: DirEntryView, parent: u64, name: Seq<char>)
    ensures
        entry_index(entries.push(entry), parent, name) == match entry_index(entries, parent, name) {
            Some(e) => Some(e),
            None => if entry.parent == parent && entry.name == name {
                Some(entries.len() as int)
            } else {
                None
            },
        },
{
    lemma_entry_push_from(entries, entry, parent, name, 0);
}

proof fn lemma_entry_push_from(entries: Seq<DirEntryView>, entry: DirEntryView, parent: u64, name: Seq<char>, from: int)
    requires
        0 <= from <= entries.len(),
    ensures
        entry_from(entries.push(entry), parent, name, from) == match entry_from(
            entries,
            parent,
            name,
            from,
        ) {
            Some(e) => Some(e),
            None => if entry.parent == parent && entry.name == name {
                Some(entries.len() as int)
            } else {
                None
            },
        },
    decreases entries.len() - from,
{
    let all = entries.push(entry);
    if from < entries.len() {
        assert(all[from] == entries[from]);
        lemma_entry_push_from(entries, entry, parent, name, from + 1);
    } else {
        assert(all[from] == entry);
        reveal_with_fuel(entry_from, 2);
    }
}

/// A walk that ends in a directory goes on to what that directory holds under a further name,
/// where that is no symbolic link.
pub proof fn lemma_walk_on(
    disk: Disk,
    sb: Superblock,
    inodes: Seq<InodeView>,
    entries: Seq<DirEntryView>,
    pending: Seq<Seq<char>>,
    current: u64,
    expansions: nat,
    follow: bool,
    name: Seq<char>,
    e: int,
)
    requires
        walk(disk, sb, inodes, entries, pending, current, expansions, true) matches Ok(d) && (
        file_blocks::index_of(inodes, d) matches Some(c) && inodes[c].kind
            == InodeKind::Directory) && entry_index(entries, d, name) == Some(e),
        file_blocks::index_of(inodes, entries[e].target) matches Some(t) && inodes[t].kind
            != InodeKind::Symlink,
    ensures
        walk(disk, sb, inodes, entries, pending.push(name), current, expansions, follow) == Ok::<
            u64,
            ErrorKind,
        >(entries[e].target),
    decreases MAX_SYMLINK_EXPANSIONS - expansions, pending.len(),
{
    let more = pending.push(name);
    reveal_with_fuel(walk, 2);
    if pending.len() == 0 {
        assert(more[0] == name);
        assert(more.drop_first() =~= Seq::<Seq<char>>::empty());
    } else {
        let rest = pending.drop_first();
        assert(more[0] == pending[0]);
        assert(more.drop_first() =~= rest.push(name));
        let f = entry_index(entries, current, pending[0])->Some_0;
        let t = file_blocks::index_of(inodes, entries[f].target)->Some_0;
        if inodes[t].kind != InodeKind::Symlink {
            lemma_walk_on(
                disk,
                sb,
                inodes,
                entries,
                rest,
                entries[f].target,
                expansions,
                follow,
                name,
                e,
            );
        } else {
            let target = symlink::symlink_target(disk, sb, entries[f].target)->Ok_0;
            let parts = target_components(target)->Some_0;
            let start = if is_absolute(target) {
                ROOT_INODE_ID
            } else {
                current
            };
            assert(parts + rest.push(name) =~= (parts + rest).push(name));
            lemma_walk_on(
                disk,
                sb,
                inodes,
                entries,
                parts + rest,
                start,
                expansions + 1,
                follow,
                name,
                e,
            );
        }
    }
}

/// A walk goes as before where inodes and entries were only added, and the targets of symbolic links
/// read back as before.
pub proof fn lemma_walk_extended(
    disk: Disk,
    end: Disk,
    sb: Superblock,
    inodes: Seq<InodeView>,
    entries: Seq<DirEntryView>,
    inode: InodeView,
    entry: DirEntryView,
    pending: Seq<Seq<char>>,
    current: u64,
    expansions: nat,
    follow: bool,
)
    requires
        walk(disk, sb, inodes, entries, pending, current, expansions, follow) is Ok,
        forall|id: u64|
            (#[trigger] symlink::symlink_target(disk, sb, id)) is Ok && file_blocks::index_of(
                inodes,
                id,
            ) is Some ==> symlink::symlink_target(end, sb, id) == symlink::symlink_target(
                disk,
                sb,
                id,
            ),
    ensures
        walk(
            end,
            sb,
            inodes.push(inode),
            entries.push(entry),
            pending,
            current,
            expansions,
            follow,
        ) == walk(disk, sb, inodes, entries, pending, current, expansions, follow),
    decreases MAX_SYMLINK_EXPANSIONS - expansions, pending.len(),
{
    reveal_with_fuel(walk, 2);
    if pending.len() > 0 {
        let rest = pending.drop_first();
        let f = entry_index(entries, current, pending[0])->Some_0;
        let next = entries[f].target;
        let t = file_blocks::index_of(inodes, next)->Some_0;
        lemma_entry_from(entries, current, pending[0], 0);
        lemma_entry_push(entries, entry, current, pending[0]);
        file_blocks::lemma_index_from(inodes, current, 0);
        file_blocks::lemma_index_from(inodes, next, 0);
        naming::lemma_index_push(inodes, inode, current);
        naming::lemma_index_push(inodes, inode, next);
        assert(entries.push(entry)[f] == entries[f]);
        assert(inodes.push(inode)[t] == inodes[t]);
        if inodes[t].kind != InodeKind::Symlink {
            lemma_walk_extended(
                disk,
                end,
                sb,
                inodes,
                entries,
                inode,
                entry,
                rest,
                next,
                expansions,
                follow,
            );
        } else if !(rest.len() == 0 && !follow) {
            let target = symlink::symlink_target(disk, sb, next)->Ok_0;
            let parts = target_components(target)->Some_0;
            let start = if is_absolute(target) {
                ROOT_INODE_ID
            } else {
                current
            };
            assert(symlink::symlink_target(end, sb, next) == symlink::symlink_target(
                disk,
                sb,
                next,
            ));
            lemma_walk_extended(
                disk,
                end,
                sb,
                inodes,
                entries,
                inode,
                entry,
                parts + rest,
                start,
                expansions + 1,
                follow,
            );
        }
    }
}

/// A walk rests on the identifiers and kinds of the inodes, the entries and the targets of symbolic
/// links alone.
proof fn lemma_same_walk(
    disk: Disk,
    end: Disk,
    sb: Superblock,
    inodes: Seq<InodeView>,
    next: Seq<InodeView>,
    entries: Seq<DirEntryView>,
    pending: Seq<Seq<char>>,
    current: u64,
    expansions: nat,
    follow: bool,
)
    requires
        soundness::same_kinds(inodes, next),
        forall|id: u64| #[trigger]
            symlink::symlink_target(end, sb, id) == symlink::symlink_target(disk, sb, id),
    ensures
        walk(end, sb, next, entries, pending, current, expansions, follow) == walk(
            disk,
            sb,
            inodes,
            entries,
            pending,
            current,
            expansions,
            follow,
        ),
    decreases MAX_SYMLINK_EXPANSIONS - expansions, pending.len(),
{
    if pending.len() > 0 {
        let rest = pending.drop_first();
        soundness::lemma_same_index(inodes, next, current, 0);
        file_blocks::lemma_index_from(inodes, current, 0);
        if let Some(e) = entry_index(entries, current, pending[0]) {
            let target = entries[e].target;
            soundness::lemma_same_index(inodes, next, target, 0);
            file_blocks::lemma_index_from(inodes, target, 0);
            if let Some(t) = file_blocks::index_of(inodes, target) {
                if inodes[t].kind != InodeKind::Symlink {
                    lemma_same_walk(
                        disk,
                        end,
                        sb,
                        inodes,
                        next,
                        entries,
                        rest,
                        target,
                        expansions,
                        follow,
                    );
                } else if expansions < MAX_SYMLINK_EXPANSIONS {
                    if let Ok(text) = symlink::symlink_target(disk, sb, target) {
                        if let Some(parts) = target_components(text) {
                            lemma_same_walk(
                                disk,
                                end,
                                sb,
                                inodes,
                                next,
                                entries,
                                parts + rest,
                                if is_absolute(text) {
                                    ROOT_INODE_ID
                                } else {
                                    current
                                },
                                expansions + 1,
                                follow,
                            );
                        }
                    }
                }
            }
        }
    }
}

proof fn lemma_same_targets(disk: Disk, end: Disk, sb: Superblock, index: int, images: Seq<Seq<u8>>, id: u64)
    requires
        soundness::sound_on(disk, sb),
        contents::rewritten(disk, end, sb, index, images),
        0 <= index < soundness::tables_of(disk, sb).inodes.len(),
        soundness::tables_of(disk, sb).inodes[index].kind == InodeKind::File,
    ensures
        symlink::symlink_target(end, sb, id) == symlink::symlink_target(disk, sb, id),
{
    reveal(symlink::symlink_target);
    let t = soundness::tables_of(disk, sb);
    let n = soundness::tables_of(end, sb);
    soundness::lemma_sound_parts(disk, sb);
    soundness::lemma_sound_parts(end, sb);
    soundness::lemma_same_index(t.inodes, n.inodes, id, 0);
    file_blocks::lemma_index_from(t.inodes, id, 0);
    if let Some(i) = file_blocks::index_of(t.inodes, id) {
        assert(n.inodes[i].kind == t.inodes[i].kind);
        if t.inodes[i].kind == InodeKind::Symlink && t.inodes[i].blocks.len() == 1 {
            let block = t.inodes[i].blocks[0];
            assert(n.inodes[i] == t.inodes[i]);
            assert(t.inodes[i].blocks.contains(block));
            contents::lemma_mapped_owned(t.allocator, t.inodes, i, 0);
            contents::lemma_mapped_owned(n.allocator, n.inodes, i, 0);
            assert(contents::images_of(end, n.inodes[i])[0] == contents::images_of(
                disk,
                t.inodes[i],
            )[0]);
        } else if i != index {
            assert(n.inodes[i] == t.inodes[i]);
        }
    }
}

/// A request that changes one regular file alone leaves every path with the inode it names.
pub proof fn law_same_paths(
    disk: Disk,
    end: Disk,
    sb: Superblock,
    index: int,
    images: Seq<Seq<u8>>,
    path: Seq<char>,
    follow: bool,
)
    requires
        soundness::sound_on(disk, sb),
        contents::rewritten(disk, end, sb, index, images),
        0 <= index < soundness::tables_of(disk, sb).inodes.len(),
        soundness::tables_of(disk, sb).inodes[index].kind == InodeKind::File,
    ensures
        resolved(end, sb, path, follow) == resolved(disk, sb, path, follow),
{
    reveal(resolved);
    let t = soundness::tables_of(disk, sb);
    let n = soundness::tables_of(end, sb);
    soundness::lemma_sound_parts(disk, sb);
    soundness::lemma_sound_parts(end, sb);
    assert forall|id: u64| #[trigger]
        symlink::symlink_target(end, sb, id) == symlink::symlink_target(disk, sb, id) by {
        lemma_same_targets(disk, end, sb, index, images, id);
    }
    soundness::lemma_same_index(t.inodes, n.inodes, ROOT_INODE_ID, 0);
    if let Some(parts) = path_components(path) {
        lemma_same_walk(
            disk,
            end,
            sb,
            t.inodes,
            n.inodes,
            t.entries,
            parts,
            ROOT_INODE_ID,
            0,
            follow,
        );
    }
}

/// Byte `k` of what is read at a path is byte `first * BLOCK_SIZE + offset + k` of the file that the
/// path names, and the range ends inside the file.
pub proof fn law_read_at_path(disk: Disk, sb: Superblock, path: Seq<char>, first: int, offset: int, len: int, data: Seq<u8>)
    requires
        soundness::sound_on(disk, sb),
        0 <= first,
        0 <= offset,
        range_at(disk, sb, path, first, offset, len) == Ok::<Seq<u8>, ErrorKind>(data),
    ensures
        ({
            let t = soundness::tables_of(disk, sb);
            let at = first * BLOCK_SIZE + offset;
            resolved(disk, sb, path, true) matches Ok(id) && (file_blocks::file_index(
                t.inodes,
                id,
            ) matches Ok(i) && {
                &&& data.len() == len
                &&& at + len <= t.inodes[i].byte_len
                &&& forall|k: int|
                    0 <= k < len ==> #[trigger] data[k] == contents::images_of(disk, t.inodes[i])[(at
                        + k) / (BLOCK_SIZE as int)][(at + k) % (BLOCK_SIZE as int)]
            })
        }),
{
    let t = soundness::tables_of(disk, sb);
    let at = first * BLOCK_SIZE + offset;
    let id = resolved(disk, sb, path, true)->Ok_0;
    soundness::lemma_sound_parts(disk, sb);
    file_range_read::law_read_range(disk, sb, id, first, offset, len);
    file_blocks::lemma_index_from(t.inodes, id, 0);
    let i = file_blocks::file_index(t.inodes, id)->Ok_0;
    assert(crate::inode_codec::exact(t.inodes[i]));
    assert forall|k: int| 0 <= k < len implies #[trigger] data[k] == contents::images_of(
        disk,
        t.inodes[i],
    )[(at + k) / (BLOCK_SIZE as int)][(at + k) % (BLOCK_SIZE as int)] by {
        assert(data[k] == contents::byte_at(disk, t.inodes[i], at + k));
        assert(0 <= (at + k) / (BLOCK_SIZE as int) < t.inodes[i].blocks.len());
    }
}

/// What is written at a path stands in the file that the path names, from byte
/// `first * BLOCK_SIZE + offset` on; every other byte of every file, every length and every path is
/// as before. A read at the same path and place gives it back, where it ends inside the file.
pub proof fn law_write_at_path(disk: Disk, sb: Superblock, path: Seq<char>, first: int, offset: int, data: Seq<u8>)
    requires
        soundness::sound_on(disk, sb),
        0 <= first,
        0 <= offset,
        write_range_at_step(disk, sb, path, first, offset, data).result is Ok,
    ensures
        ({
            let t = soundness::tables_of(disk, sb);
            let end = write_range_at_step(disk, sb, path, first, offset, data).disk;
            let at = first * BLOCK_SIZE + offset;
            &&& soundness::tables_of(end, sb) == t
            &&& resolved(end, sb, path, true) == resolved(disk, sb, path, true)
            &&& resolved(disk, sb, path, true) matches Ok(id) && (file_blocks::file_index(
                t.inodes,
                id,
            ) matches Ok(i) && {
                &&& contents::only_changed(disk, end, sb, i)
                &&& forall|p: int|
                    0 <= p < t.inodes[i].blocks.len() * BLOCK_SIZE ==> #[trigger] contents::byte_at(
                        end,
                        t.inodes[i],
                        p,
                    ) == if at <= p < at + data.len() {
                        data[p - at]
                    } else {
                        contents::byte_at(disk, t.inodes[i], p)
                    }
                &&& at + data.len() <= t.inodes[i].byte_len && t.inodes[i].byte_len <= usize::MAX
                    ==> range_at(end, sb, path, first, offset, data.len() as int) == Ok::<
                    Seq<u8>,
                    ErrorKind,
                >(data)
            })
        }),
{
    let t = soundness::tables_of(disk, sb);
    let end = write_range_at_step(disk, sb, path, first, offset, data).disk;
    let at = first * BLOCK_SIZE + offset;
    let len = data.len() as int;
    let id = resolved(disk, sb, path, true)->Ok_0;
    soundness::lemma_sound_parts(disk, sb);
    file_range_read::law_write_bytes(disk, sb, id, first, offset, data);
    file_blocks::lemma_index_from(t.inodes, id, 0);
    let i = file_blocks::file_index(t.inodes, id)->Ok_0;
    law_same_paths(disk, end, sb, i, contents::images_of(end, t.inodes[i]), path, true);
    if at + len <= t.inodes[i].byte_len && t.inodes[i].byte_len <= usize::MAX {
        assert(file_range_read::read_range(disk, sb, id, first, offset, len) is Ok);
        file_range_read::law_read_after_write(disk, sb, id, first, offset, data);
    }
}

/// A path that names no inode is refused as its resolution is; a range inside the file that a path
/// names, none of whose blocks is a hole, is read.
pub proof fn law_readable_at_path(disk: Disk, sb: Superblock, path: Seq<char>, first: int, offset: int, len: int)
    requires
        soundness::sound_on(disk, sb),
        0 <= first,
        0 < len,
        0 <= offset < BLOCK_SIZE,
    ensures
        ({
            let t = soundness::tables_of(disk, sb);
            let end = first * BLOCK_SIZE + offset + len;
            match resolved(disk, sb, path, true) {
                Err(k) => range_at(disk, sb, path, first, offset, len) == Err::<Seq<u8>, ErrorKind>(
                    k,
                ),
                Ok(id) => file_blocks::file_index(t.inodes, id) matches Ok(i) ==> (end
                    <= t.inodes[i].byte_len && t.inodes[i].byte_len <= usize::MAX && (forall|b: int|
                    first <= b && b * BLOCK_SIZE < end ==> #[trigger] t.inodes[i].blocks[b]
                        != crate::inode_codec::SPARSE_HOLE_BLOCK) ==> range_at(
                    disk,
                    sb,
                    path,
                    first,
                    offset,
                    len,
                ) is Ok),
            }
        }),
{
    if let Ok(id) = resolved(disk, sb, path, true) {
        file_range_read::law_read_range(disk, sb, id, first, offset, len);
    }
}

/// The place in the inode table of the regular file that a path names.
pub open spec fn file_at(disk: Disk, sb: Superblock, path: Seq<char>) -> Result<int, ErrorKind> {
    match resolved(disk, sb, path, true) {
        Err(kind) => Err(kind),
        Ok(id) => file_blocks::file_index(soundness::tables_of(disk, sb).inodes, id),
    }
}

/// A file that a path names is in the inode table, under the identifier that the path leads to.
pub proof fn law_file_at(disk: Disk, sb: Superblock, path: Seq<char>)
    ensures
        file_at(disk, sb, path) matches Ok(i) ==> 0 <= i < soundness::tables_of(
            disk,
            sb,
        ).inodes.len() && soundness::tables_of(disk, sb).inodes[i].kind == InodeKind::File
            && resolved(disk, sb, path, true) == Ok::<u64, ErrorKind>(
            soundness::tables_of(disk, sb).inodes[i].id,
        ),
{
    if let Ok(id) = resolved(disk, sb, path, true) {
        file_blocks::lemma_index_from(soundness::tables_of(disk, sb).inodes, id, 0);
    }
}

} // verus!
