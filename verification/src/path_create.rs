//! Creating files and directories by path name.

use vstd::prelude::*;
use vstd::string::*;
use crate::allocation::{AllocView, BlockAllocator};
use crate::block::{Block, BlockDevice, Disk, BLOCK_SIZE, BLOCK_SIZE_U64};
use crate::contents;
use crate::create_data_tx;
use crate::create_data_tx::store_create_with_blocks_journaled;
use crate::directory_codec;
use crate::directory_codec::{is_valid_name, DirEntryView, PersistedDirectoryEntry};
use crate::directory_table;
use crate::directory_table::load_directory_table;
use crate::error::{Error, ErrorKind};
use crate::file_blocks;
use crate::file_blocks::{find_inode, invalid_data, invalid_input, load_tables, pair_blocks, take_blocks};
use crate::format::Superblock;
use crate::inode::InodeKind;
use crate::inode_codec::{InodeView, PersistedInode};
use crate::inode_codec;
use crate::inode_table;
use crate::journal_checkpoint;
use crate::journal_checkpoint::recover_journal_and_checkpoint;
use crate::journal_region;
use crate::names::chars_of;
use crate::namespace;
use crate::namespace::are_ids_distinct;
use crate::naming;
use crate::ownership;
use crate::path_contiguous_defrag;
use crate::path_lookup;
use crate::path_lookup::{find_entry, resolve_path_following_symlinks};
use crate::recovery::RecoveryReport;
use crate::soundness;
use crate::step;
use crate::step::Step;
use crate::symlink;
use crate::update::Update;

verus! {

/// The position of the last slash; -1 where there is none.
pub open spec fn last_slash(path: Seq<char>) -> int
    decreases path.len(),
{
    if path.len() == 0 {
        -1
    } else if path.last() == '/' {
        path.len() - 1
    } else {
        last_slash(path.drop_last())
    }
}

/// The parent directory and the last component of an absolute path; none where the path is
/// relative, names the root or ends in a slash.
pub open spec fn destination_parts(path: Seq<char>) -> Option<(Seq<char>, Seq<char>)> {
    let s = last_slash(path);
    if !path_lookup::is_absolute(path) || s == path.len() - 1 {
        None
    } else {
        Some(
            (
                if s == 0 {
                    seq!['/']
                } else {
                    path.subrange(0, s)
                },
                path.subrange(s + 1, path.len() as int),
            ),
        )
    }
}

/// The largest identifier in use.
pub open spec fn largest_id(inodes: Seq<InodeView>) -> u64
    decreases inodes.len(),
{
    if inodes.len() == 0 {
        0
    } else {
        let front = largest_id(inodes.drop_last());
        if inodes.last().id > front {
            inodes.last().id
        } else {
            front
        }
    }
}

/// The identifier that a new inode gets: one more than the largest in use.
pub open spec fn fresh_id(inodes: Seq<InodeView>) -> Result<u64, ErrorKind> {
    if !namespace::distinct_ids(inodes) {
        Err(ErrorKind::InvalidData)
    } else if largest_id(inodes) == u64::MAX {
        Err(ErrorKind::InvalidInput)
    } else {
        Ok((largest_id(inodes) + 1) as u64)
    }
}

/// Whether `name` can be created in the directory `parent`.
pub open spec fn vacancy(inodes: Seq<InodeView>, entries: Seq<DirEntryView>, parent: u64, name: Seq<char>) -> Result<(), ErrorKind> {
    match file_blocks::index_of(inodes, parent) {
        None => Err(ErrorKind::InvalidData),
        Some(i) => if inodes[i].kind != InodeKind::Directory || path_lookup::entry_index(
            entries,
            parent,
            name,
        ) is Some {
            Err(ErrorKind::InvalidInput)
        } else {
            Ok(())
        },
    }
}

/// The tables with a new object in them.
pub struct Created {
    pub allocator: AllocView,
    pub inodes: Seq<InodeView>,
    pub entries: Seq<DirEntryView>,
    pub id: u64,
    pub fresh: Seq<u64>,
}

/// A new object of `count` fresh blocks under `name` in the directory `parent`. With `contiguous`
/// the blocks form one run, and the name is checked before an identifier is chosen.
pub open spec fn created(
    a: AllocView,
    inodes: Seq<InodeView>,
    entries: Seq<DirEntryView>,
    parent: u64,
    name: Seq<char>,
    kind: InodeKind,
    count: nat,
    contiguous: bool,
) -> Result<Created, ErrorKind> {
    match vacancy(inodes, entries, parent, name) {
        Err(k) => Err(k),
        Ok(_) => if contiguous && !(parent != 0 && directory_codec::valid_name(name)) {
            Err(ErrorKind::InvalidInput)
        } else {
            match fresh_id(inodes) {
                Err(k) => Err(k),
                Ok(id) => match file_blocks::fresh_blocks(a, count, contiguous) {
                    None => Err(ErrorKind::InvalidInput),
                    Some((allocator, fresh)) => {
                        let entry = DirEntryView { parent, target: id, name };
                        if !directory_codec::valid_entry(entry) {
                            Err(ErrorKind::InvalidInput)
                        } else {
                            Ok(
                                Created {
                                    allocator,
                                    inodes: inodes.push(
                                        InodeView {
                                            id,
                                            kind,
                                            blocks: fresh,
                                            byte_len: (count * BLOCK_SIZE_U64) as u64,
                                        },
                                    ),
                                    entries: entries.push(entry),
                                    id,
                                    fresh,
                                },
                            )
                        }
                    },
                },
            }
        },
    }
}

/// The transaction that stores a new object with the first contents of its blocks.
pub open spec fn create_in_step(
    disk: Disk,
    sb: Superblock,
    parent: u64,
    name: Seq<char>,
    kind: InodeKind,
    images: Seq<Seq<u8>>,
    contiguous: bool,
) -> Step<(u64, RecoveryReport)> {
    match (file_blocks::tables_on(disk, sb), directory_table::entries_on(disk, sb)) {
        (Err(k), _) => step::stay(disk, Err(k)),
        (_, Err(k)) => step::stay(disk, Err(k)),
        (Ok((a, inodes)), Ok(entries)) => match created(
            a,
            inodes,
            entries,
            parent,
            name,
            kind,
            images.len(),
            contiguous,
        ) {
            Err(k) => step::stay(disk, Err(k)),
            Ok(c) => {
                let stored = create_data_tx::create_step(
                    disk,
                    sb,
                    c.allocator,
                    c.inodes,
                    c.entries,
                    file_blocks::paired(c.fresh, images),
                );
                Step {
                    disk: stored.disk,
                    result: match stored.result {
                        Ok(report) => Ok((c.id, report)),
                        Err(k) => Err(k),
                    },
                }
            },
        },
    }
}

/// A new object at a path.
pub open spec fn create_at_step(disk: Disk, sb: Superblock, path: Seq<char>, kind: InodeKind, images: Seq<Seq<u8>>, contiguous: bool) -> Step<(u64, RecoveryReport)> {
    match destination_parts(path) {
        None => step::stay(disk, Err(ErrorKind::InvalidInput)),
        Some((parent, name)) => journal_checkpoint::settled_then(
            disk,
            sb,
            |d: Disk|
                path_lookup::resolved_then(
                    d,
                    sb,
                    parent,
                    |id: u64| create_in_step(d, sb, id, name, kind, images, contiguous),
                ),
        ),
    }
}

/// A new file with blocks at a path; without any it is refused.
pub open spec fn create_file_at_step(disk: Disk, sb: Superblock, path: Seq<char>, images: Seq<Seq<u8>>, contiguous: bool) -> Step<(u64, RecoveryReport)> {
    if images.len() == 0 {
        step::stay(disk, Err(ErrorKind::InvalidInput))
    } else {
        create_at_step(disk, sb, path, InodeKind::File, images, contiguous)
    }
}

proof fn lemma_last_slash(path: Seq<char>)
    ensures
        -1 <= last_slash(path) < path.len(),
        last_slash(path) >= 0 ==> path[last_slash(path)] == '/',
        path_lookup::is_absolute(path) ==> last_slash(path) >= 0,
    decreases path.len(),
{
    if path.len() > 0 && path.last() != '/' {
        lemma_last_slash(path.drop_last());
    }
}

/// A new identifier is not in use.
pub proof fn law_fresh_id(inodes: Seq<InodeView>)
    ensures
        fresh_id(inodes) matches Ok(id) ==> id != 0 && forall|i: int|
            0 <= i < inodes.len() ==> (#[trigger] inodes[i]).id < id,
{
    lemma_largest_id(inodes);
}

proof fn lemma_largest_id(inodes: Seq<InodeView>)
    ensures
        forall|i: int| 0 <= i < inodes.len() ==> (#[trigger] inodes[i]).id <= largest_id(inodes),
    decreases inodes.len(),
{
    if inodes.len() > 0 {
        lemma_largest_id(inodes.drop_last());
        assert forall|i: int| 0 <= i < inodes.len() implies (#[trigger] inodes[i]).id <= largest_id(
            inodes,
        ) by {
            if i < inodes.len() - 1 {
                assert(inodes.drop_last()[i] == inodes[i]);
            }
        }
    }
}

/// Splits an absolute path into its parent directory and its last component.
pub fn split_destination(path: &str) -> (r: Result<(&str, &str), Error>)
    ensures
        match r {
            Ok((parent, name)) => destination_parts(path@) == Some((parent@, name@)),
            Err(e) => destination_parts(path@) is None && e.kind == ErrorKind::InvalidInput,
        },
{
    let chars = chars_of(path);
    let n: usize = chars.len();
    if n == 0 || chars[0] != '/' {
        return Err(invalid_input("destination must be an absolute path"));
    }
    proof {
        lemma_last_slash(path@);
    }
    let mut i: usize = n - 1;
    assert(path@.subrange(0, n as int) =~= path@);
    while chars[i] != '/'
        invariant
            n == chars@.len(),
            chars@ == path@,
            chars@[0] == '/',
            i < n,
            last_slash(path@) == last_slash(path@.subrange(0, i + 1)),
        decreases i,
    {
        assert(path@.subrange(0, i + 1).drop_last() =~= path@.subrange(0, i as int));
        assert(path@.subrange(0, i + 1).last() == path@[i as int]);
        i -= 1;
    }
    assert(path@.subrange(0, i + 1).last() == '/');
    if i == n - 1 {
        return Err(invalid_input("destination final component is empty"));
    }
    let name = path.substring_char(i + 1, n);
    if i == 0 {
        proof {
            reveal_strlit("/");
            assert("/"@ =~= seq!['/']);
        }
        return Ok(("/", name));
    }
    Ok((path.substring_char(0, i), name))
}

fn validate_create_destination(parent: u64, name: &str, inodes: &[PersistedInode], entries: &[PersistedDirectoryEntry]) -> (r: Result<(), Error>)
    ensures
        match r {
            Ok(_) => vacancy(
                inode_table::inode_views(inodes@),
                directory_table::entry_views(entries@),
                parent,
                name@,
            ) is Ok,
            Err(e) => vacancy(
                inode_table::inode_views(inodes@),
                directory_table::entry_views(entries@),
                parent,
                name@,
            ) == Err::<(), ErrorKind>(e.kind),
        },
{
    let index: usize = match find_inode(inodes, parent) {
        Some(i) => i,
        None => return Err(invalid_data("resolved parent inode is missing from inode table")),
    };
    if inodes[index].kind != InodeKind::Directory {
        return Err(invalid_input("create parent pathname is not a directory"));
    }
    if find_entry(entries, parent, name).is_some() {
        return Err(invalid_input("create destination already exists"));
    }
    Ok(())
}

fn next_inode_id(inodes: &[PersistedInode]) -> (r: Result<u64, Error>)
    ensures
        match r {
            Ok(id) => fresh_id(inode_table::inode_views(inodes@)) == Ok::<u64, ErrorKind>(id),
            Err(e) => fresh_id(inode_table::inode_views(inodes@)) == Err::<u64, ErrorKind>(e.kind),
        },
{
    if !are_ids_distinct(inodes) {
        return Err(invalid_data("inode table contains duplicate identifiers"));
    }
    let ghost views = inode_table::inode_views(inodes@);
    let mut largest: u64 = 0;
    let mut i: usize = 0;
    while i < inodes.len()
        invariant
            i <= inodes@.len(),
            views == inode_table::inode_views(inodes@),
            largest == largest_id(views.subrange(0, i as int)),
        decreases inodes@.len() - i,
    {
        proof {
            let next = views.subrange(0, i + 1);
            assert(next.drop_last() =~= views.subrange(0, i as int));
            assert(next.last() == inodes@[i as int]@);
        }
        if inodes[i].id > largest {
            largest = inodes[i].id;
        }
        i += 1;
    }
    assert(views.subrange(0, views.len() as int) =~= views);
    if largest == u64::MAX {
        return Err(invalid_input("no fresh inode identifier is available"));
    }
    Ok(largest + 1)
}

/// Puts a new object into the tables, which are changed in place; returns its identifier and its
/// blocks.
fn prepare_create(
    allocator: &mut BlockAllocator,
    inodes: &mut Vec<PersistedInode>,
    entries: &mut Vec<PersistedDirectoryEntry>,
    parent: u64,
    name: &str,
    kind: InodeKind,
    count: usize,
    contiguous: bool,
) -> (r: Result<(u64, Vec<u64>), Error>)
    requires
        old(allocator)@.wf(),
        old(allocator)@.owned.len() * BLOCK_SIZE_U64 <= u64::MAX,
    ensures
        ({
            let plan = created(
                old(allocator)@,
                inode_table::inode_views(old(inodes)@),
                directory_table::entry_views(old(entries)@),
                parent,
                name@,
                kind,
                count as nat,
                contiguous,
            );
            match r {
                Ok((id, fresh)) => plan == Ok::<Created, ErrorKind>(
                    Created {
                        allocator: final(allocator)@,
                        inodes: inode_table::inode_views(final(inodes)@),
                        entries: directory_table::entry_views(final(entries)@),
                        id,
                        fresh: fresh@,
                    },
                ),
                Err(e) => plan == Err::<Created, ErrorKind>(e.kind),
            }
        }),
{
    validate_create_destination(parent, name, inodes.as_slice(), entries.as_slice())?;
    if contiguous && (parent == 0 || !is_valid_name(name)) {
        return Err(invalid_input("create destination name is invalid"));
    }
    let inode_id: u64 = next_inode_id(inodes.as_slice())?;
    proof {
        file_blocks::lemma_fresh_len(allocator@, count as nat, contiguous);
    }
    let fresh = take_blocks(allocator, count, contiguous)?;
    proof {
        law_fresh_id(inode_table::inode_views(inodes@));
    }
    if parent == 0 || !is_valid_name(name) {
        return Err(invalid_input("create destination name is invalid"));
    }
    let ghost inode_views = inode_table::inode_views(inodes@);
    let ghost entry_views = directory_table::entry_views(entries@);
    let inode = PersistedInode {
        id: inode_id,
        kind,
        blocks: vstd::slice::slice_to_vec(fresh.as_slice()),
        byte_len: count as u64 * BLOCK_SIZE_U64,
    };
    let entry = PersistedDirectoryEntry { parent, target: inode_id, name: name.to_owned() };
    let ghost added = inode@;
    let ghost named = entry@;
    inodes.push(inode);
    entries.push(entry);
    assert(inode_table::inode_views(inodes@) =~= inode_views.push(added));
    assert(directory_table::entry_views(entries@) =~= entry_views.push(named));
    Ok((inode_id, fresh))
}

/// Creates an object under a name in a directory as one transaction.
fn create_in<D: BlockDevice>(
    device: &mut D,
    superblock: &Superblock,
    parent: u64,
    name: &str,
    kind: InodeKind,
    images: &[Block],
    contiguous: bool,
) -> (r: Result<(u64, RecoveryReport), Error>)
    ensures
        journal_region::carried_out(
            old(device),
            final(device),
            *superblock,
            step::kinded(r),
            create_in_step(
                old(device).blocks(),
                *superblock,
                parent,
                name@,
                kind,
                file_blocks::image_views(images@),
                contiguous,
            ),
        ),
{
    broadcast use journal_region::group_atomic;

    let (mut allocator, mut inodes) = load_tables(device, superblock)?;
    let mut entries = load_directory_table(device, superblock)?;
    proof {
        file_blocks::lemma_fresh_len(allocator@, images@.len(), contiguous);
    }
    let (inode_id, fresh) = prepare_create(
        &mut allocator,
        &mut inodes,
        &mut entries,
        parent,
        name,
        kind,
        images.len(),
        contiguous,
    )?;
    let data = pair_blocks(fresh.as_slice(), images);
    let report = store_create_with_blocks_journaled(
        device,
        superblock,
        &allocator,
        inodes.as_slice(),
        entries.as_slice(),
        data.as_slice(),
    )?;
    Ok((inode_id, report))
}

/// Creates an object at a path.
pub(crate) fn create_at_path<D: BlockDevice>(
    device: &mut D,
    superblock: &Superblock,
    destination: &str,
    kind: InodeKind,
    images: &[Block],
    contiguous: bool,
) -> (r: Result<(u64, RecoveryReport), Error>)
    ensures
        journal_region::carried_out(
            old(device),
            final(device),
            *superblock,
            step::kinded(r),
            create_at_step(
                old(device).blocks(),
                *superblock,
                destination@,
                kind,
                file_blocks::image_views(images@),
                contiguous,
            ),
        ),
        step::turned_away(
            old(device),
            final(device),
            step::kinded(r),
            destination_parts(destination@) is None,
        ),
{
    broadcast use journal_checkpoint::group_settled;

    let (parent_path, name) = split_destination(destination)?;
    recover_journal_and_checkpoint(device, *superblock)?;
    let parent: u64 = resolve_path_following_symlinks(device, superblock, parent_path)?;
    create_in(device, superblock, parent, name, kind, images, contiguous)
}

/// Creates an empty regular file at a path and returns its identifier.
pub fn create_empty_file_at_path_journaled<D: BlockDevice>(device: &mut D, superblock: &Superblock, destination: &str) -> (r: Result<(u64, RecoveryReport), Error>)
    ensures
        journal_region::carried_out(
            old(device),
            final(device),
            *superblock,
            step::kinded(r),
            create_at_step(
                old(device).blocks(),
                *superblock,
                destination@,
                InodeKind::File,
                Seq::<Seq<u8>>::empty(),
                false,
            ),
        ),
        step::turned_away(
            old(device),
            final(device),
            step::kinded(r),
            destination_parts(destination@) is None,
        ),
{
    let none: Vec<Block> = Vec::new();
    assert(file_blocks::image_views(none@) =~= Seq::<Seq<u8>>::empty());
    create_at_path(device, superblock, destination, InodeKind::File, none.as_slice(), false)
}

/// Creates an empty directory at a path and returns its identifier.
pub fn create_directory_at_path_journaled<D: BlockDevice>(device: &mut D, superblock: &Superblock, destination: &str) -> (r: Result<(u64, RecoveryReport), Error>)
    ensures
        journal_region::carried_out(
            old(device),
            final(device),
            *superblock,
            step::kinded(r),
            create_at_step(
                old(device).blocks(),
                *superblock,
                destination@,
                InodeKind::Directory,
                Seq::<Seq<u8>>::empty(),
                false,
            ),
        ),
        step::turned_away(
            old(device),
            final(device),
            step::kinded(r),
            destination_parts(destination@) is None,
        ),
{
    let none: Vec<Block> = Vec::new();
    assert(file_blocks::image_views(none@) =~= Seq::<Seq<u8>>::empty());
    create_at_path(device, superblock, destination, InodeKind::Directory, none.as_slice(), false)
}

/// Creates a regular file of one block at a path and returns its identifier.
pub fn create_one_block_file_at_path_journaled<D: BlockDevice>(device: &mut D, superblock: &Superblock, destination: &str, data: &[u8; BLOCK_SIZE]) -> (r: Result<(u64, RecoveryReport), Error>)
    ensures
        journal_region::carried_out(
            old(device),
            final(device),
            *superblock,
            step::kinded(r),
            create_file_at_step(
                old(device).blocks(),
                *superblock,
                destination@,
                seq![data@],
                false,
            ),
        ),
        step::turned_away(
            old(device),
            final(device),
            step::kinded(r),
            destination_parts(destination@) is None,
        ),
{
    let images: [Block; 1] = [*data];
    assert(file_blocks::image_views(images@) =~= seq![data@]);
    create_at_path(device, superblock, destination, InodeKind::File, &images, false)
}

/// Creates a regular file with the given blocks at a path and returns its identifier.
pub fn create_file_with_blocks_at_path_journaled<D: BlockDevice>(device: &mut D, superblock: &Superblock, destination: &str, data: &[[u8; BLOCK_SIZE]]) -> (r: Result<(u64, RecoveryReport), Error>)
    ensures
        journal_region::carried_out(
            old(device),
            final(device),
            *superblock,
            step::kinded(r),
            create_file_at_step(
                old(device).blocks(),
                *superblock,
                destination@,
                file_blocks::image_views(data@),
                false,
            ),
        ),
        step::turned_away(
            old(device),
            final(device),
            step::kinded(r),
            data@.len() == 0 || destination_parts(destination@) is None,
        ),
{
    broadcast use journal_checkpoint::group_settled;

    if data.len() == 0 {
        return Err(invalid_input("file create requires at least one logical block"));
    }
    create_at_path(device, superblock, destination, InodeKind::File, data, false)
}

/// A new object has a fresh identifier, stands under its name, holds its first contents and is all
/// that changes.
pub proof fn law_create(
    disk: Disk,
    sb: Superblock,
    parent: u64,
    name: Seq<char>,
    kind: InodeKind,
    images: Seq<Seq<u8>>,
    contiguous: bool,
)
    requires
        soundness::sound_on(disk, sb),
        kind == InodeKind::File || images.len() == 0,
        forall|i: int| 0 <= i < images.len() ==> (#[trigger] images[i]).len() == BLOCK_SIZE,
        create_in_step(disk, sb, parent, name, kind, images, contiguous).result is Ok,
    ensures
        ({
            let step = create_in_step(disk, sb, parent, name, kind, images, contiguous);
            let id = step.result->Ok_0.0;
            let t = soundness::tables_of(disk, sb);
            let n = soundness::tables_of(step.disk, sb);
            let last = t.inodes.len() as int;
            &&& soundness::sound_on(step.disk, sb)
            &&& n.inodes.len() == last + 1
            &&& n.inodes[last].id == id
            &&& n.inodes[last].kind == kind
            &&& n.inodes[last].byte_len == images.len() * BLOCK_SIZE
            &&& contents::images_of(step.disk, n.inodes[last]) == images
            &&& file_blocks::index_of(t.inodes, id) is None
            &&& n.entries == t.entries.push(DirEntryView { parent, target: id, name })
            &&& path_lookup::entry_index(t.entries, parent, name) is None
            &&& contiguous ==> path_contiguous_defrag::consecutive(n.inodes[last].blocks)
            &&& forall|k: int|
                0 <= k < n.inodes[last].blocks.len() ==> !t.allocator.owns(
                    #[trigger] n.inodes[last].blocks[k],
                )
            &&& forall|j: int|
                0 <= j < last ==> #[trigger] n.inodes[j] == t.inodes[j] && contents::images_of(
                    step.disk,
                    n.inodes[j],
                ) == contents::images_of(disk, t.inodes[j])
        }),
{
    let t = soundness::tables_of(disk, sb);
    soundness::lemma_sound_parts(disk, sb);
    let c = created(
        t.allocator,
        t.inodes,
        t.entries,
        parent,
        name,
        kind,
        images.len(),
        contiguous,
    )->Ok_0;
    let end = create_in_step(disk, sb, parent, name, kind, images, contiguous).disk;
    let inode = InodeView {
        id: c.id,
        kind,
        blocks: c.fresh,
        byte_len: (images.len() * BLOCK_SIZE_U64) as u64,
    };
    let entry = DirEntryView { parent, target: c.id, name };
    let data = file_blocks::paired(c.fresh, images);
    law_fresh_id(t.inodes);
    file_blocks::lemma_index_from(t.inodes, c.id, 0);
    file_blocks::lemma_index_from(t.inodes, parent, 0);
    file_blocks::lemma_fresh_len(t.allocator, images.len(), contiguous);
    ownership::lemma_fresh(t.allocator, images.len(), contiguous);
    if contiguous {
        contents::lemma_fresh_run(t.allocator, images.len());
    }
    ownership::law_create_keeps_ownership(
        t.allocator,
        t.inodes,
        inode,
        images.len(),
        contiguous,
    );
    naming::law_create_keeps_namespace(t.inodes, t.entries, inode, entry);
    assert forall|i: int| 0 <= i < c.fresh.len() implies (#[trigger] c.fresh[i]) < disk.len() by {
        assert(t.allocator.covers(c.fresh[i]));
    }
    create_data_tx::lemma_effective(disk, c.fresh, images);
    let u = Update {
        allocator: Some(c.allocator),
        inodes: Some(c.inodes),
        entries: Some(c.entries),
        data: create_data_tx::effective(disk, data),
    };
    assert forall|k: int| 0 <= k < u.data.len() implies sb.data_start() <= (#[trigger] u.data[k]).0
        < sb.total_blocks && u.data[k].1.len() == BLOCK_SIZE by {
        assert(data.contains(u.data[k]));
        let i = choose|i: int| 0 <= i < data.len() && data[i] == u.data[k];
        assert(t.allocator.covers(c.fresh[i]));
    }
    assert(inode_codec::exact(inode)) by {
        assert forall|i: int, j: int|
            0 <= i < j < c.fresh.len() && #[trigger] c.fresh[i]
                == #[trigger] c.fresh[j] implies c.fresh[i] == inode_codec::SPARSE_HOLE_BLOCK by {}
        assert(images.len() * BLOCK_SIZE_U64 <= t.allocator.owned.len() * BLOCK_SIZE_U64)
            by (nonlinear_arith)
            requires
                images.len() <= t.allocator.owned.len(),
        ;
        assert(t.allocator.owned.len() * BLOCK_SIZE_U64 <= sb.total_blocks * BLOCK_SIZE_U64)
            by (nonlinear_arith)
            requires
                t.allocator.owned.len() <= sb.total_blocks,
        ;
    }
    soundness::law_sound_update(disk, sb, u, false);
    contents::lemma_unused_writes(disk, end, sb, t.allocator, t.inodes, c.fresh, images);
    assert(contents::images_of(end, inode) =~= images) by {
        assert forall|i: int| 0 <= i < images.len() implies contents::block_image(
            end,
            #[trigger] c.fresh[i],
        ) == images[i] by {
            assert(t.allocator.covers(c.fresh[i]));
        }
    }
    assert forall|j: int| 0 <= j < t.inodes.len() implies #[trigger] c.inodes[j] == t.inodes[j]
        && contents::images_of(end, c.inodes[j]) == contents::images_of(disk, t.inodes[j]) by {
        assert(contents::images_of(end, t.inodes[j]) =~= contents::images_of(disk, t.inodes[j]));
    }
}

proof fn lemma_behind_last_slash(path: Seq<char>)
    ensures
        forall|i: int| last_slash(path) < i < path.len() ==> #[trigger] path[i] != '/',
    decreases path.len(),
{
    if path.len() > 0 && path.last() != '/' {
        let front = path.drop_last();
        lemma_behind_last_slash(front);
        lemma_last_slash(front);
        assert forall|i: int| last_slash(path) < i < path.len() implies #[trigger] path[i] != '/' by {
            if i < front.len() {
                assert(front[i] == path[i]);
            }
        }
    }
}

/// The parts of a path make up the path again: the parent, a slash unless the parent is the root,
/// and a last component without a slash.
pub proof fn law_destination_parts(path: Seq<char>)
    ensures
        destination_parts(path) matches Some((parent, name)) ==> {
            &&& path_lookup::is_absolute(parent)
            &&& name.len() > 0
            &&& !name.contains('/')
            &&& path == parent.push('/') + name || (parent == seq!['/'] && path == parent + name)
        },
{
    if let Some((parent, name)) = destination_parts(path) {
        let s = last_slash(path);
        lemma_last_slash(path);
        lemma_behind_last_slash(path);
        if name.contains('/') {
            let i = choose|i: int| 0 <= i < name.len() && name[i] == '/';
            assert(path[s + 1 + i] == '/');
        }
        if s == 0 {
            assert(path =~= parent + name);
        } else {
            assert(parent[0] == path[0]);
            assert(path =~= parent.push('/') + name);
        }
    }
}

/// The components of a well-formed path are those of its parent and then the last one.
pub proof fn lemma_components(path: Seq<char>)
    requires
        destination_parts(path) is Some,
        path_lookup::path_components(path) is Some,
    ensures
        ({
            let (parent, name) = destination_parts(path)->Some_0;
            path_lookup::path_components(parent) matches Some(parts)
                && path_lookup::path_components(path) == Some(parts.push(name))
        }),
{
    let (parent, name) = destination_parts(path)->Some_0;
    let s = last_slash(path);
    law_destination_parts(path);
    lemma_last_slash(path);
    let tail = path.subrange(1, path.len() as int);
    if s == 0 {
        assert(tail =~= name);
        path_lookup::lemma_slash_parts(Seq::empty(), name);
        assert(Seq::<Seq<char>>::empty().push(name) =~= seq![name]);
        assert(path != seq!['/']) by {
            assert(path.len() > 1);
        }
    } else {
        let front = parent.subrange(1, parent.len() as int);
        assert(tail =~= front.push('/') + name);
        path_lookup::lemma_slash_parts(front, name);
        let parts = path_lookup::slash_parts(tail);
        let before = path_lookup::slash_parts(front);
        assert(path != seq!['/']) by {
            assert(path.len() > 1);
        }
        assert forall|i: int| 0 <= i < before.len() implies path_lookup::proper_component(
            #[trigger] before[i],
        ) by {
            assert(parts[i] == before[i]);
        }
        path_lookup::lemma_parts_nonempty(front);
        if front.len() == 0 {
            assert(front =~= Seq::<char>::empty());
            assert(!path_lookup::proper_component(before[0]));
        }
        assert(parent != seq!['/']);
        if parent.last() == '/' {
            let shorter = front.drop_last();
            assert(front.last() == '/');
            assert(before == path_lookup::slash_parts(shorter).push(Seq::empty()));
            assert(!path_lookup::proper_component(before[before.len() - 1]));
        }
    }
}

/// What was created is found under its path.
pub proof fn law_created_is_found(
    disk: Disk,
    sb: Superblock,
    path: Seq<char>,
    kind: InodeKind,
    images: Seq<Seq<u8>>,
    contiguous: bool,
    follow: bool,
)
    requires
        soundness::sound_on(disk, sb),
        kind == InodeKind::File || (kind == InodeKind::Directory && images.len() == 0),
        forall|i: int| 0 <= i < images.len() ==> (#[trigger] images[i]).len() == BLOCK_SIZE,
        path_lookup::path_components(path) is Some,
        destination_parts(path) matches Some((parent_path, name)) && (path_lookup::resolved(
            disk,
            sb,
            parent_path,
            true,
        ) matches Ok(parent) && create_in_step(
            disk,
            sb,
            parent,
            name,
            kind,
            images,
            contiguous,
        ).result is Ok),
    ensures
        ({
            let (parent_path, name) = destination_parts(path)->Some_0;
            let parent = path_lookup::resolved(disk, sb, parent_path, true)->Ok_0;
            let step = create_in_step(disk, sb, parent, name, kind, images, contiguous);
            path_lookup::resolved(step.disk, sb, path, follow) == Ok::<u64, ErrorKind>(
                step.result->Ok_0.0,
            )
        }),
{
    let (parent_path, name) = destination_parts(path)->Some_0;
    let parent = path_lookup::resolved(disk, sb, parent_path, true)->Ok_0;
    let step = create_in_step(disk, sb, parent, name, kind, images, contiguous);
    let end = step.disk;
    let id = step.result->Ok_0.0;
    let t = soundness::tables_of(disk, sb);
    let n = soundness::tables_of(end, sb);
    let last = t.inodes.len() as int;
    soundness::lemma_sound_parts(disk, sb);
    law_create(disk, sb, parent, name, kind, images, contiguous);
    soundness::lemma_sound_parts(end, sb);
    let inode = n.inodes[last];
    let entry = DirEntryView { parent, target: id, name };
    assert(n.inodes =~= t.inodes.push(inode));
    lemma_components(path);
    let parts = path_lookup::path_components(parent_path)->Some_0;
    reveal(path_lookup::resolved);
    assert forall|other: u64|
        (#[trigger] symlink::symlink_target(disk, sb, other)) is Ok && file_blocks::index_of(
            t.inodes,
            other,
        ) is Some implies symlink::symlink_target(end, sb, other) == symlink::symlink_target(
        disk,
        sb,
        other,
    ) by {
        reveal(symlink::symlink_target);
        file_blocks::lemma_index_from(t.inodes, other, 0);
        naming::lemma_index_push(t.inodes, inode, other);
        let i = file_blocks::index_of(t.inodes, other)->Some_0;
        let block = t.inodes[i].blocks[0];
        contents::lemma_mapped_owned(n.allocator, n.inodes, i, 0);
        assert(n.inodes[i] == t.inodes[i]);
        assert(t.allocator.owns(block));
        assert(contents::images_of(end, n.inodes[i])[0] == contents::images_of(
            disk,
            t.inodes[i],
        )[0]);
    }
    file_blocks::lemma_index_from(t.inodes, parent, 0);
    naming::lemma_index_push(t.inodes, inode, parent);
    naming::lemma_index_push(t.inodes, inode, id);
    path_lookup::lemma_entry_push(t.entries, entry, parent, name);
    let root = path_lookup::ROOT_INODE_ID;
    if parts.len() > 0 {
        path_lookup::lemma_walk_extended(
            disk,
            end,
            sb,
            t.inodes,
            t.entries,
            inode,
            entry,
            parts,
            root,
            0,
            true,
        );
    } else {
        assert(parent == root);
    }
    let e = t.entries.len() as int;
    assert(n.entries[e] == entry);
    path_lookup::lemma_walk_on(
        end,
        sb,
        n.inodes,
        n.entries,
        parts,
        root,
        0,
        follow,
        name,
        e,
    );
    assert(parts.push(name).len() > 0);
}

/// A new object of this kind with these contents stands under `name` in the directory `parent`, which
/// had no such name. Its identifier and its blocks were not in use, its length is that of its blocks,
/// and it is all that changed.
pub open spec fn newly_made(
    disk: Disk,
    end: Disk,
    sb: Superblock,
    parent: u64,
    name: Seq<char>,
    id: u64,
    kind: InodeKind,
    images: Seq<Seq<u8>>,
) -> bool {
    let t = soundness::tables_of(disk, sb);
    let n = soundness::tables_of(end, sb);
    let last = t.inodes.len() as int;
    &&& soundness::sound_on(end, sb)
    &&& namespace::has_kind(t.inodes, parent, InodeKind::Directory)
    &&& path_lookup::entry_index(t.entries, parent, name) is None
    &&& n.inodes.len() == last + 1
    &&& n.inodes[last].id == id
    &&& n.inodes[last].kind == kind
    &&& n.inodes[last].byte_len == images.len() * BLOCK_SIZE
    &&& contents::images_of(end, n.inodes[last]) == images
    &&& file_blocks::index_of(t.inodes, id) is None
    &&& n.entries == t.entries.push(DirEntryView { parent, target: id, name })
    &&& forall|k: int|
        0 <= k < n.inodes[last].blocks.len() ==> !t.allocator.owns(
            #[trigger] n.inodes[last].blocks[k],
        )
    &&& forall|j: int|
        0 <= j < last ==> #[trigger] n.inodes[j] == t.inodes[j] && contents::images_of(
            end,
            n.inodes[j],
        ) == contents::images_of(disk, t.inodes[j])
}

/// What is created at a path stands under its last component in the directory that its parent names,
/// with the contents that were asked for, in one run where that was asked for; a well-formed path
/// names it. Nothing else changes. The device has to be sound once its journal is settled, which the
/// request does first.
pub proof fn law_create_at_path(disk: Disk, sb: Superblock, path: Seq<char>, kind: InodeKind, images: Seq<Seq<u8>>, contiguous: bool, follow: bool)
    requires
        soundness::sound_on(journal_checkpoint::settle_step(disk, sb).disk, sb),
        kind == InodeKind::File || (kind == InodeKind::Directory && images.len() == 0),
        forall|i: int| 0 <= i < images.len() ==> (#[trigger] images[i]).len() == BLOCK_SIZE,
        create_at_step(disk, sb, path, kind, images, contiguous).result is Ok,
    ensures
        ({
            let base = journal_checkpoint::settle_step(disk, sb).disk;
            let step = create_at_step(disk, sb, path, kind, images, contiguous);
            let id = step.result->Ok_0.0;
            let last = soundness::tables_of(base, sb).inodes.len() as int;
            &&& destination_parts(path) matches Some((parent_path, name)) && (
            path_lookup::resolved(base, sb, parent_path, true) matches Ok(parent) && newly_made(
                base,
                step.disk,
                sb,
                parent,
                name,
                id,
                kind,
                images,
            ))
            &&& contiguous ==> path_contiguous_defrag::consecutive(
                soundness::tables_of(step.disk, sb).inodes[last].blocks,
            )
            &&& path_lookup::path_components(path) is Some ==> path_lookup::resolved(
                step.disk,
                sb,
                path,
                follow,
            ) == Ok::<u64, ErrorKind>(id)
        }),
{
    let base = journal_checkpoint::settle_step(disk, sb).disk;
    let t = soundness::tables_of(base, sb);
    soundness::lemma_sound_parts(base, sb);
    let (parent_path, name) = destination_parts(path)->Some_0;
    let parent = path_lookup::resolved(base, sb, parent_path, true)->Ok_0;
    law_create(base, sb, parent, name, kind, images, contiguous);
    if path_lookup::path_components(path) is Some {
        law_created_is_found(base, sb, path, kind, images, contiguous, follow);
    }
}

} // verus!
