//! Further names for files and symbolic links, by path name.

use vstd::prelude::*;
use crate::block;
use crate::block::{BlockDevice, Disk};
use crate::directory_codec::DirEntryView;
use crate::error::{Error, ErrorKind};
use crate::file_blocks;
use crate::file_blocks::{find_inode, invalid_input};
use crate::format::Superblock;
use crate::hard_link_tx;
use crate::hard_link_tx::{hard_link_file_journaled, hard_link_symlink_journaled};
use crate::inode::InodeKind;
use crate::inode_codec::InodeView;
use crate::inode_table;
use crate::inode_table::load_inode_table;
use crate::journal_checkpoint;
use crate::journal_checkpoint::recover_journal_and_checkpoint;
use crate::journal_region;
use crate::namespace;
use crate::path_create;
use crate::path_create::split_destination;
use crate::path_lookup;
use crate::path_lookup::{MAX_SYMLINK_EXPANSIONS, resolve_path_following_symlinks, resolve_path_without_following_final_symlink, starts_with_slash};
use crate::path_resolution;
use crate::recovery::RecoveryReport;
use crate::soundness;
use crate::step;
use crate::step::Step;
use crate::symlink;

verus! {

/// Whether a symbolic link at the end of the source path is followed or is itself the source.
#[derive(Clone, Copy, Debug, PartialEq, Eq, Structural)]
pub enum HardLinkSourceFollow {
    NoFollowFinal,
    FollowFinal,
}

/// A further name `destination` for the inode `target` of kind `kind`.
pub open spec fn link_to_step(disk: Disk, sb: Superblock, target: u64, kind: InodeKind, destination: Seq<char>) -> Step<RecoveryReport> {
    match path_create::destination_parts(destination) {
        None => step::stay(disk, Err(ErrorKind::InvalidInput)),
        Some((parent_path, name)) => path_lookup::resolved_then(
            disk,
            sb,
            parent_path,
            |parent: u64|
                if kind == InodeKind::Directory {
                    step::stay(disk, Err(ErrorKind::InvalidInput))
                } else {
                    hard_link_tx::link_step(disk, sb, parent, name, target, kind)
                },
        ),
    }
}

/// The kind of the inode `id`, which must be in the table.
pub open spec fn kind_of(disk: Disk, sb: Superblock, id: u64) -> Result<InodeKind, ErrorKind> {
    match inode_table::inodes_on(disk, sb) {
        Err(k) => Err(k),
        Ok(inodes) => match file_blocks::index_of(inodes, id) {
            None => Err(ErrorKind::InvalidInput),
            Some(i) => Ok(inodes[i].kind),
        },
    }
}

/// A further name for what a path names. With `required` the source must be of that kind; without
/// it a regular file or a symbolic link is linked as what it is.
pub open spec fn link_at_step(disk: Disk, sb: Superblock, source: Seq<char>, destination: Seq<char>, follow: bool, required: Option<InodeKind>) -> Step<RecoveryReport> {
    if !path_lookup::is_absolute(source) {
        step::stay(disk, Err(ErrorKind::InvalidInput))
    } else {
        journal_checkpoint::settled_then(
            disk,
            sb,
            |d: Disk|
                match path_lookup::resolved(d, sb, source, follow) {
                    Err(k) => step::stay(d, Err(k)),
                    Ok(target) => match required {
                        Some(kind) => link_to_step(d, sb, target, kind, destination),
                        None => match kind_of(d, sb, target) {
                            Err(k) => step::stay(d, Err(k)),
                            Ok(kind) => link_to_step(d, sb, target, kind, destination),
                        },
                    },
                },
        )
    }
}

/// The kind of an inode.
fn load_kind<D: BlockDevice>(device: &mut D, superblock: &Superblock, inode_id: u64) -> (r: Result<InodeKind, Error>)
    ensures
        block::untouched(old(device), final(device)),
        match r {
            Ok(kind) => kind_of(old(device).blocks(), *superblock, inode_id) == Ok::<
                InodeKind,
                ErrorKind,
            >(kind),
            Err(e) => !old(device).healthy() || kind_of(
                old(device).blocks(),
                *superblock,
                inode_id,
            ) == Err::<InodeKind, ErrorKind>(e.kind),
        },
{
    let inodes = load_inode_table(device, superblock)?;
    match find_inode(inodes.as_slice(), inode_id) {
        Some(i) => Ok(inodes[i].kind),
        None => Err(invalid_input("hard-link source inode is missing")),
    }
}

/// Gives an inode a further name.
fn link_to_path<D: BlockDevice>(device: &mut D, superblock: &Superblock, target: u64, kind: InodeKind, destination: &str) -> (r: Result<RecoveryReport, Error>)
    ensures
        journal_region::carried_out(
            old(device),
            final(device),
            *superblock,
            step::kinded(r),
            link_to_step(old(device).blocks(), *superblock, target, kind, destination@),
        ),
{
    broadcast use journal_checkpoint::group_settled;

    let (parent_path, name) = split_destination(destination)?;
    let parent: u64 = resolve_path_following_symlinks(device, superblock, parent_path)?;
    match kind {
        InodeKind::File => hard_link_file_journaled(device, superblock, parent, name, target),
        InodeKind::Symlink => hard_link_symlink_journaled(device, superblock, parent, name, target),
        InodeKind::Directory => Err(invalid_input("hard-link source cannot be a directory")),
    }
}

/// Gives a regular file or a symbolic link a further name, once the journal is replayed and empty.
pub fn hard_link_at_path_with_source_follow_journaled<D: BlockDevice>(
    device: &mut D,
    superblock: &Superblock,
    source: &str,
    destination: &str,
    follow: HardLinkSourceFollow,
) -> (r: Result<RecoveryReport, Error>)
    ensures
        journal_region::carried_out(
            old(device),
            final(device),
            *superblock,
            step::kinded(r),
            link_at_step(
                old(device).blocks(),
                *superblock,
                source@,
                destination@,
                follow == HardLinkSourceFollow::FollowFinal,
                None,
            ),
        ),
        step::turned_away(
            old(device),
            final(device),
            step::kinded(r),
            !path_lookup::is_absolute(source@),
        ),
{
    broadcast use journal_checkpoint::group_settled;

    if !starts_with_slash(source) {
        return Err(invalid_input("hard-link source must be an absolute path"));
    }
    recover_journal_and_checkpoint(device, *superblock)?;
    let target: u64 = match follow {
        HardLinkSourceFollow::NoFollowFinal => resolve_path_without_following_final_symlink(
            device,
            superblock,
            source,
        )?,
        HardLinkSourceFollow::FollowFinal => resolve_path_following_symlinks(
            device,
            superblock,
            source,
        )?,
    };
    let kind = load_kind(device, superblock, target)?;
    link_to_path(device, superblock, target, kind, destination)
}

/// Gives a regular file or a symbolic link a further name; a link at the end of the source path is
/// linked itself.
pub fn hard_link_at_path_journaled<D: BlockDevice>(device: &mut D, superblock: &Superblock, source: &str, destination: &str) -> (r: Result<RecoveryReport, Error>)
    ensures
        journal_region::carried_out(
            old(device),
            final(device),
            *superblock,
            step::kinded(r),
            link_at_step(
                old(device).blocks(),
                *superblock,
                source@,
                destination@,
                false,
                None,
            ),
        ),
        step::turned_away(
            old(device),
            final(device),
            step::kinded(r),
            !path_lookup::is_absolute(source@),
        ),
{
    hard_link_at_path_with_source_follow_journaled(
        device,
        superblock,
        source,
        destination,
        HardLinkSourceFollow::NoFollowFinal,
    )
}

/// Gives what a path names in the end a further name; a link at the end of the source path is
/// followed.
pub fn hard_link_following_source_at_path_journaled<D: BlockDevice>(device: &mut D, superblock: &Superblock, source: &str, destination: &str) -> (r: Result<RecoveryReport, Error>)
    ensures
        journal_region::carried_out(
            old(device),
            final(device),
            *superblock,
            step::kinded(r),
            link_at_step(old(device).blocks(), *superblock, source@, destination@, true, None),
        ),
        step::turned_away(
            old(device),
            final(device),
            step::kinded(r),
            !path_lookup::is_absolute(source@),
        ),
{
    hard_link_at_path_with_source_follow_journaled(
        device,
        superblock,
        source,
        destination,
        HardLinkSourceFollow::FollowFinal,
    )
}

/// Gives the regular file that a path names a further name, once the journal is replayed and
/// empty.
pub fn hard_link_file_at_path_journaled<D: BlockDevice>(device: &mut D, superblock: &Superblock, source: &str, destination: &str) -> (r: Result<RecoveryReport, Error>)
    ensures
        journal_region::carried_out(
            old(device),
            final(device),
            *superblock,
            step::kinded(r),
            link_at_step(
                old(device).blocks(),
                *superblock,
                source@,
                destination@,
                true,
                Some(InodeKind::File),
            ),
        ),
        step::turned_away(
            old(device),
            final(device),
            step::kinded(r),
            !path_lookup::is_absolute(source@),
        ),
{
    broadcast use journal_checkpoint::group_settled;

    if !starts_with_slash(source) {
        return Err(invalid_input("hard-link source must be an absolute path"));
    }
    recover_journal_and_checkpoint(device, *superblock)?;
    let target: u64 = resolve_path_following_symlinks(device, superblock, source)?;
    link_to_path(device, superblock, target, InodeKind::File, destination)
}

/// Gives the symbolic link that a path names a further name, once the journal is replayed and
/// empty.
pub fn hard_link_symlink_at_path_journaled<D: BlockDevice>(device: &mut D, superblock: &Superblock, source: &str, destination: &str) -> (r: Result<RecoveryReport, Error>)
    ensures
        journal_region::carried_out(
            old(device),
            final(device),
            *superblock,
            step::kinded(r),
            link_at_step(
                old(device).blocks(),
                *superblock,
                source@,
                destination@,
                false,
                Some(InodeKind::Symlink),
            ),
        ),
        step::turned_away(
            old(device),
            final(device),
            step::kinded(r),
            !path_lookup::is_absolute(source@),
        ),
{
    broadcast use journal_checkpoint::group_settled;

    if !starts_with_slash(source) {
        return Err(invalid_input("hard-link source must be an absolute path"));
    }
    recover_journal_and_checkpoint(device, *superblock)?;
    let target: u64 = resolve_path_without_following_final_symlink(device, superblock, source)?;
    link_to_path(device, superblock, target, InodeKind::Symlink, destination)
}

/// A walk that comes to an end comes to the same one once a further name stands somewhere.
proof fn lemma_walk_linked(
    disk: Disk,
    end: Disk,
    sb: Superblock,
    inodes: Seq<InodeView>,
    entries: Seq<DirEntryView>,
    entry: DirEntryView,
    pending: Seq<Seq<char>>,
    current: u64,
    expansions: nat,
    follow: bool,
)
    requires
        expansions <= MAX_SYMLINK_EXPANSIONS,
        forall|id: u64| #[trigger]
            symlink::symlink_target(end, sb, id) == symlink::symlink_target(disk, sb, id),
        path_lookup::walk(disk, sb, inodes, entries, pending, current, expansions, follow) is Ok,
    ensures
        path_lookup::walk(
            end,
            sb,
            inodes,
            entries.push(entry),
            pending,
            current,
            expansions,
            follow,
        ) == path_lookup::walk(disk, sb, inodes, entries, pending, current, expansions, follow),
    decreases MAX_SYMLINK_EXPANSIONS - expansions, pending.len(),
{
    if pending.len() > 0 {
        let rest = pending.drop_first();
        let e = path_lookup::entry_index(entries, current, pending[0])->Some_0;
        path_lookup::lemma_entry_push(entries, entry, current, pending[0]);
        path_lookup::lemma_entry_from(entries, current, pending[0], 0);
        let target = entries[e].target;
        assert(entries.push(entry)[e] == entries[e]);
        let i = file_blocks::index_of(inodes, target)->Some_0;
        if inodes[i].kind != InodeKind::Symlink {
            lemma_walk_linked(
                disk,
                end,
                sb,
                inodes,
                entries,
                entry,
                rest,
                target,
                expansions,
                follow,
            );
        } else if !(rest.len() == 0 && !follow) {
            let text = symlink::symlink_target(disk, sb, target)->Ok_0;
            assert(symlink::symlink_target(end, sb, target) == symlink::symlink_target(
                disk,
                sb,
                target,
            ));
            let parts = path_lookup::target_components(text)->Some_0;
            lemma_walk_linked(
                disk,
                end,
                sb,
                inodes,
                entries,
                entry,
                parts + rest,
                if path_lookup::is_absolute(text) {
                    path_lookup::ROOT_INODE_ID
                } else {
                    current
                },
                expansions + 1,
                follow,
            );
        }
    }
}

/// A further name that is given at a path stands for what the source names, which is no directory,
/// and of the kind that was asked for. The name was free, and it is all that changes. The source
/// still names what it named, and a well-formed destination names it too. The device has to be sound
/// once its journal is settled, which the request does first.
pub proof fn law_link_at_path(disk: Disk, sb: Superblock, source: Seq<char>, destination: Seq<char>, follow: bool, required: Option<InodeKind>)
    requires
        soundness::sound_on(journal_checkpoint::settle_step(disk, sb).disk, sb),
        link_at_step(disk, sb, source, destination, follow, required).result is Ok,
    ensures
        ({
            let base = journal_checkpoint::settle_step(disk, sb).disk;
            let end = link_at_step(disk, sb, source, destination, follow, required).disk;
            let t = soundness::tables_of(base, sb);
            &&& soundness::sound_on(end, sb)
            &&& path_create::destination_parts(destination) matches Some((parent_path, name)) && (
            path_lookup::resolved(base, sb, parent_path, true) matches Ok(parent) && (
            path_lookup::resolved(base, sb, source, follow) matches Ok(target) && {
                &&& !namespace::has_kind(t.inodes, target, InodeKind::Directory)
                &&& required matches Some(kind) ==> namespace::has_kind(t.inodes, target, kind)
                &&& path_lookup::entry_index(t.entries, parent, name) is None
                &&& soundness::tables_of(end, sb) == (soundness::Tables {
                    entries: t.entries.push(DirEntryView { parent, target, name }),
                    ..t
                })
                &&& forall|i: int|
                    sb.data_start() <= i < base.len() ==> #[trigger] end[i] == base[i]
                &&& path_lookup::resolved(end, sb, source, follow) == Ok::<u64, ErrorKind>(target)
                &&& path_lookup::path_components(destination) is Some ==> path_lookup::resolved(
                    end,
                    sb,
                    destination,
                    false,
                ) == Ok::<u64, ErrorKind>(target)
            }))
        }),
{
    let base = journal_checkpoint::settle_step(disk, sb).disk;
    let end = link_at_step(disk, sb, source, destination, follow, required).disk;
    let t = soundness::tables_of(base, sb);
    soundness::lemma_sound_parts(base, sb);
    let (parent_path, name) = path_create::destination_parts(destination)->Some_0;
    let parent = path_lookup::resolved(base, sb, parent_path, true)->Ok_0;
    let target = path_lookup::resolved(base, sb, source, follow)->Ok_0;
    let kind = match required {
        Some(kind) => kind,
        None => kind_of(base, sb, target)->Ok_0,
    };
    hard_link_tx::law_link(base, sb, parent, name, target, kind);
    let entry = DirEntryView { parent, target, name };
    let n = soundness::tables_of(end, sb);
    soundness::lemma_sound_parts(end, sb);
    assert forall|id: u64| #[trigger]
        symlink::symlink_target(end, sb, id) == symlink::symlink_target(base, sb, id) by {
        reveal(symlink::symlink_target);
    }
    path_resolution::lemma_resolved(base, sb, source, follow);
    path_resolution::lemma_resolved(end, sb, source, follow);
    path_resolution::lemma_resolved(base, sb, parent_path, true);
    path_resolution::lemma_resolved(end, sb, parent_path, true);
    let root = path_lookup::ROOT_INODE_ID;
    let parts = path_lookup::path_components(source)->Some_0;
    lemma_walk_linked(base, end, sb, t.inodes, t.entries, entry, parts, root, 0, follow);
    let above = path_lookup::path_components(parent_path)->Some_0;
    lemma_walk_linked(base, end, sb, t.inodes, t.entries, entry, above, root, 0, true);
    if path_lookup::path_components(destination) is Some {
        assert(n.entries[t.entries.len() as int] == entry);
        assert(path_resolution::has_child(end, sb, parent, name, target, kind));
        path_resolution::law_child(end, sb, destination, false, target, kind);
    }
}

} // verus!
