//! Repair of what a strict inspection alone refuses: inodes without a path, blocks without an inode.

use vstd::prelude::*;
use vstd::string::*;
use crate::allocation;
use crate::allocation::AllocView;
use crate::allocation_disk;
use crate::allocation_disk::load_allocator;
use crate::block;
use crate::block::{Block, BlockDevice, Disk};
use crate::directory_codec::{DirEntryView, PersistedDirectoryEntry};
use crate::directory_table;
use crate::directory_table::load_directory_table;
use crate::directory_tx;
use crate::error::{Error, ErrorKind};
use crate::file_blocks::{invalid_data, invalid_input};
use crate::format::{read_superblock, Superblock};
use crate::fsck;
use crate::fsck::{
    check_device, check_device_allowing_orphaned_allocations,
    check_device_allowing_unreachable_inodes, validate_namespace_snapshot,
};
use crate::inode_codec::InodeView;
use crate::inode_codec;
use crate::inode_table;
use crate::inode_table::load_inode_table;
use crate::journal::EntryView;
use crate::journal_checkpoint;
use crate::journal_checkpoint::recover_journal_and_checkpoint;
use crate::journal_region;
use crate::names;
use crate::names::append_decimal;
use crate::namespace;
use crate::ownership;
use crate::path_lookup;
use crate::path_lookup::{find_entry, ROOT_INODE_ID};
use crate::recovery;
use crate::recovery::{HomeWrite, RecoveryReport};
use crate::soundness;
use crate::step;
use crate::step::Step;
use crate::update;
use crate::update::{store_update_and_checkpoint, Update};

verus! {

/// An inode that got a name in the root directory.
#[derive(Clone, Debug, PartialEq, Eq)]
pub struct NamespaceReattachment {
    pub inode_id: u64,
    pub name: String,
}

/// What a repair of the namespace did.
#[derive(Clone, Debug, Default, PartialEq, Eq)]
pub struct OrphanNamespaceRepairReport {
    pub reattached: Vec<NamespaceReattachment>,
    pub prior_recovery: RecoveryReport,
    pub repair_transaction: RecoveryReport,
}

/// What a repair of the allocation state did.
#[derive(Clone, Debug, Default, PartialEq, Eq)]
pub struct OrphanAllocationRepairReport {
    pub released_blocks: Vec<u64>,
    pub prior_recovery: RecoveryReport,
    pub repair_transaction: RecoveryReport,
}

/// The report on a repair as a value: what was repaired, the replay before and the transaction.
pub struct RepairView<T> {
    pub repaired: Seq<T>,
    pub prior_recovery: RecoveryReport,
    pub repair_transaction: RecoveryReport,
}

impl View for OrphanNamespaceRepairReport {
    type V = RepairView<(u64, Seq<char>)>;

    open spec fn view(&self) -> RepairView<(u64, Seq<char>)> {
        RepairView {
            repaired: attachment_views(self.reattached@),
            prior_recovery: self.prior_recovery,
            repair_transaction: self.repair_transaction,
        }
    }
}

impl View for OrphanAllocationRepairReport {
    type V = RepairView<u64>;

    open spec fn view(&self) -> RepairView<u64> {
        RepairView {
            repaired: self.released_blocks@,
            prior_recovery: self.prior_recovery,
            repair_transaction: self.repair_transaction,
        }
    }
}

/// The identifiers and names of a list of reattachments.
pub open spec fn attachment_views(list: Seq<NamespaceReattachment>) -> Seq<(u64, Seq<char>)> {
    Seq::new(list.len(), |i: int| (list[i].inode_id, list[i].name@))
}

/// The result of a repair on values.
pub open spec fn namespace_repair(r: Result<OrphanNamespaceRepairReport, Error>) -> Result<RepairView<(u64, Seq<char>)>, ErrorKind> {
    match r {
        Ok(report) => Ok(report@),
        Err(e) => Err(e.kind),
    }
}

/// The result of a repair on values.
pub open spec fn allocation_repair(r: Result<OrphanAllocationRepairReport, Error>) -> Result<RepairView<u64>, ErrorKind> {
    match r {
        Ok(report) => Ok(report@),
        Err(e) => Err(e.kind),
    }
}

/// The name that an inode gets; a suffix other than 0 keeps it apart from names that are taken.
pub open spec fn orphan_name(id: u64, suffix: int) -> Seq<char> {
    let base = ".fsck-orphan-"@ + names::decimal(id as nat);
    if suffix == 0 {
        base
    } else {
        base + "-"@ + names::decimal(suffix as nat)
    }
}

/// The first suffix from `from` on whose name the root directory does not hold.
pub open spec fn free_suffix(entries: Seq<DirEntryView>, id: u64, from: int) -> Option<int>
    decreases u64::MAX - from,
{
    if from >= u64::MAX {
        None
    } else if path_lookup::entry_index(entries, ROOT_INODE_ID, orphan_name(id, from)) is None {
        Some(from)
    } else {
        free_suffix(entries, id, from + 1)
    }
}

/// Some entry in a directory of the list names `id`.
pub open spec fn named_within(entries: Seq<DirEntryView>, ids: Seq<u64>, id: u64) -> bool {
    exists|e: int|
        0 <= e < entries.len() && ids.contains((#[trigger] entries[e]).parent) && entries[e].target
            == id
}

/// Those of the first `count` unreachable inodes that no unreachable directory holds.
pub open spec fn component_roots(entries: Seq<DirEntryView>, unreachable: Seq<u64>, count: nat) -> Seq<u64>
    decreases count,
{
    if count == 0 {
        Seq::empty()
    } else {
        let front = component_roots(entries, unreachable, (count - 1) as nat);
        let id = unreachable[count - 1];
        if named_within(entries, unreachable, id) {
            front
        } else {
            front.push(id)
        }
    }
}

/// The directory table with a name in the root directory for each of `roots`, and these names.
pub open spec fn attached(entries: Seq<DirEntryView>, roots: Seq<u64>) -> Option<(Seq<DirEntryView>, Seq<(u64, Seq<char>)>)>
    decreases roots.len(),
{
    if roots.len() == 0 {
        Some((entries, Seq::empty()))
    } else {
        match attached(entries, roots.drop_last()) {
            None => None,
            Some((front, list)) => match free_suffix(front, roots.last(), 0) {
                None => None,
                Some(suffix) => {
                    let name = orphan_name(roots.last(), suffix);
                    Some(
                        (
                            front.push(
                                DirEntryView {
                                    parent: ROOT_INODE_ID,
                                    target: roots.last(),
                                    name,
                                },
                            ),
                            list.push((roots.last(), name)),
                        ),
                    )
                },
            },
        }
    }
}

/// The repaired directory table and the names in it that are new; none where the namespace cannot
/// be repaired so.
pub open spec fn repaired_namespace(inodes: Seq<InodeView>, entries: Seq<DirEntryView>, unreachable: Seq<u64>) -> Option<(Seq<DirEntryView>, Seq<(u64, Seq<char>)>)> {
    let roots = component_roots(entries, unreachable, unreachable.len());
    if roots.len() == 0 {
        None
    } else {
        match attached(entries, roots) {
            None => None,
            Some((desired, list)) => if fsck::strict_namespace(inodes, desired) {
                Some((desired, list))
            } else {
                None
            },
        }
    }
}

/// What ends a repair: its transaction, and a strict inspection of what it leaves.
pub open spec fn publish_step<T>(disk: Disk, sb: Superblock, u: Update, repaired: Seq<T>, prior_recovery: RecoveryReport) -> Step<RepairView<T>> {
    let stored = update::settled_update_step(disk, sb, u, false);
    Step {
        disk: stored.disk,
        result: match stored.result {
            Err(k) => Err(k),
            Ok(repair_transaction) => match fsck::checked(stored.disk) {
                Err(k) => Err(k),
                Ok(_) => Ok(RepairView { repaired, prior_recovery, repair_transaction }),
            },
        },
    }
}

/// What starts a repair: the superblock is held against the device, and the journal is settled.
pub open spec fn repair_then<T>(disk: Disk, sb: Superblock, next: spec_fn(Disk, RecoveryReport) -> Step<T>) -> Step<T> {
    match crate::format::superblock_on(disk) {
        None => step::stay(disk, Err(ErrorKind::InvalidData)),
        Some(durable) => if durable != sb {
            step::stay(disk, Err(ErrorKind::InvalidInput))
        } else {
            let settled = journal_checkpoint::settle_step(disk, sb);
            match settled.result {
                Err(k) => step::stay(settled.disk, Err(k)),
                Ok(report) => next(settled.disk, report),
            }
        },
    }
}

/// The repair of the namespace of a settled device.
pub open spec fn reattach_step(disk: Disk, sb: Superblock, prior_recovery: RecoveryReport) -> Step<RepairView<(u64, Seq<char>)>> {
    match fsck::checked_but_unreachable(disk) {
        Err(k) => step::stay(disk, Err(k)),
        Ok((_, unreachable)) => if unreachable.len() == 0 {
            step::stay(
                disk,
                Ok(
                    RepairView {
                        repaired: Seq::empty(),
                        prior_recovery,
                        repair_transaction: recovery::no_recovery(),
                    },
                ),
            )
        } else {
            match (inode_table::inodes_on(disk, sb), directory_table::entries_on(disk, sb)) {
                (Err(k), _) => step::stay(disk, Err(k)),
                (_, Err(k)) => step::stay(disk, Err(k)),
                (Ok(inodes), Ok(entries)) => match repaired_namespace(inodes, entries, unreachable) {
                    None => step::stay(disk, Err(ErrorKind::InvalidData)),
                    Some((desired, list)) => publish_step(
                        disk,
                        sb,
                        directory_tx::entries_only(desired),
                        list,
                        prior_recovery,
                    ),
                },
            }
        },
    }
}

/// The change of the allocation state alone.
pub open spec fn allocator_only(a: AllocView) -> Update {
    Update { allocator: Some(a), inodes: None, entries: None, data: Seq::empty() }
}

/// The repair of the allocation state of a settled device.
pub open spec fn release_step(disk: Disk, sb: Superblock, prior_recovery: RecoveryReport) -> Step<RepairView<u64>> {
    match fsck::checked_but_orphans(disk) {
        Err(k) => step::stay(disk, Err(k)),
        Ok((_, orphaned)) => if orphaned.len() == 0 {
            step::stay(
                disk,
                Ok(
                    RepairView {
                        repaired: Seq::empty(),
                        prior_recovery,
                        repair_transaction: recovery::no_recovery(),
                    },
                ),
            )
        } else {
            match allocation_disk::allocator_on(disk, sb) {
                Err(k) => step::stay(disk, Err(k)),
                Ok(a) => match a.releasing(orphaned) {
                    None => step::stay(disk, Err(ErrorKind::InvalidData)),
                    Some(b) => publish_step(disk, sb, allocator_only(b), orphaned, prior_recovery),
                },
            }
        },
    }
}

/// The repair of the namespace.
pub open spec fn repair_namespace_step(disk: Disk, sb: Superblock) -> Step<RepairView<(u64, Seq<char>)>> {
    repair_then(disk, sb, |d: Disk, prior: RecoveryReport| reattach_step(d, sb, prior))
}

/// The repair of the allocation state.
pub open spec fn repair_allocation_step(disk: Disk, sb: Superblock) -> Step<RepairView<u64>> {
    repair_then(disk, sb, |d: Disk, prior: RecoveryReport| release_step(d, sb, prior))
}

/// A name for an inode that the root directory does not hold.
fn choose_name(entries: &[PersistedDirectoryEntry], inode_id: u64) -> (r: Option<String>)
    ensures
        match r {
            Some(name) => free_suffix(directory_table::entry_views(entries@), inode_id, 0) matches Some(
                suffix,
            ) && name@ == orphan_name(inode_id, suffix),
            None => free_suffix(directory_table::entry_views(entries@), inode_id, 0) is None,
        },
{
    let ghost views = directory_table::entry_views(entries@);
    let mut suffix: u64 = 0;
    while suffix < u64::MAX
        invariant
            views == directory_table::entry_views(entries@),
            free_suffix(views, inode_id, 0) == free_suffix(views, inode_id, suffix as int),
        decreases u64::MAX - suffix,
    {
        let mut name = ".fsck-orphan-".to_owned();
        append_decimal(&mut name, inode_id);
        if suffix > 0 {
            name.append("-");
            append_decimal(&mut name, suffix);
        }
        if find_entry(entries, ROOT_INODE_ID, name.as_str()).is_none() {
            return Some(name);
        }
        suffix += 1;
    }
    None
}

fn is_named_within(entries: &[PersistedDirectoryEntry], ids: &[u64], id: u64) -> (b: bool)
    ensures
        b == named_within(directory_table::entry_views(entries@), ids@, id),
{
    let ghost views = directory_table::entry_views(entries@);
    let mut e: usize = 0;
    while e < entries.len()
        invariant
            e <= entries@.len(),
            views == directory_table::entry_views(entries@),
            forall|k: int|
                0 <= k < e ==> !(ids@.contains((#[trigger] views[k]).parent) && views[k].target
                    == id),
        decreases entries@.len() - e,
    {
        assert(views[e as int] == entries@[e as int]@);
        if entries[e].target == id {
            let mut i: usize = 0;
            while i < ids.len()
                invariant
                    i <= ids@.len(),
                    e < entries@.len(),
                    views == directory_table::entry_views(entries@),
                    views[e as int].target == id,
                    views[e as int].parent == entries@[e as int].parent,
                    forall|k: int|
                        0 <= k < i ==> #[trigger] ids@[k] != entries@[e as int].parent,
                decreases ids@.len() - i,
            {
                if ids[i] == entries[e].parent {
                    assert(ids@.contains(views[e as int].parent));
                    return true;
                }
                i += 1;
            }
        }
        e += 1;
    }
    false
}

/// Lists the unreachable inodes that no unreachable directory holds.
fn list_component_roots(entries: &[PersistedDirectoryEntry], unreachable: &[u64]) -> (roots: Vec<u64>)
    ensures
        roots@ == component_roots(
            directory_table::entry_views(entries@),
            unreachable@,
            unreachable@.len(),
        ),
{
    let ghost views = directory_table::entry_views(entries@);
    let mut roots: Vec<u64> = Vec::new();
    let mut i: usize = 0;
    while i < unreachable.len()
        invariant
            i <= unreachable@.len(),
            views == directory_table::entry_views(entries@),
            roots@ == component_roots(views, unreachable@, i as nat),
        decreases unreachable@.len() - i,
    {
        if !is_named_within(entries, unreachable, unreachable[i]) {
            roots.push(unreachable[i]);
        }
        i += 1;
    }
    roots
}

proof fn lemma_attached_none(entries: Seq<DirEntryView>, roots: Seq<u64>, k: int)
    requires
        0 <= k <= roots.len(),
        attached(entries, roots.subrange(0, k)) is None,
    ensures
        attached(entries, roots) is None,
    decreases roots.len(),
{
    if k == roots.len() {
        assert(roots.subrange(0, k) =~= roots);
    } else {
        assert(roots.drop_last().subrange(0, k) =~= roots.subrange(0, k));
        lemma_attached_none(entries, roots.drop_last(), k);
    }
}

/// Gives each of `roots` a name in the root directory.
fn attach(entries: &mut Vec<PersistedDirectoryEntry>, roots: &[u64]) -> (r: Option<Vec<NamespaceReattachment>>)
    ensures
        ({
            let plan = attached(directory_table::entry_views(old(entries)@), roots@);
            match r {
                Some(list) => plan == Some(
                    (directory_table::entry_views(final(entries)@), attachment_views(list@)),
                ),
                None => plan is None,
            }
        }),
{
    let ghost before = directory_table::entry_views(entries@);
    let mut list: Vec<NamespaceReattachment> = Vec::new();
    assert(attachment_views(list@) =~= Seq::<(u64, Seq<char>)>::empty());
    let mut i: usize = 0;
    while i < roots.len()
        invariant
            i <= roots@.len(),
            before == directory_table::entry_views(old(entries)@),
            attached(before, roots@.subrange(0, i as int)) == Some(
                (directory_table::entry_views(entries@), attachment_views(list@)),
            ),
        decreases roots@.len() - i,
    {
        let ghost front = directory_table::entry_views(entries@);
        let ghost names_before = attachment_views(list@);
        proof {
            let next = roots@.subrange(0, i + 1);
            assert(next.drop_last() =~= roots@.subrange(0, i as int));
        }
        let name = match choose_name(entries.as_slice(), roots[i]) {
            Some(name) => name,
            None => {
                proof {
                    lemma_attached_none(before, roots@, i + 1);
                }
                return None;
            },
        };
        let entry = PersistedDirectoryEntry {
            parent: ROOT_INODE_ID,
            target: roots[i],
            name: name.clone(),
        };
        let ghost added = entry@;
        entries.push(entry);
        assert(directory_table::entry_views(entries@) =~= front.push(added));
        let attachment = NamespaceReattachment { inode_id: roots[i], name };
        let ghost pair = (attachment.inode_id, attachment.name@);
        list.push(attachment);
        assert(attachment_views(list@) =~= names_before.push(pair));
        i += 1;
    }
    assert(roots@.subrange(0, roots@.len() as int) =~= roots@);
    Some(list)
}

/// Gives every unreachable inode that no unreachable directory holds a name in the root directory.
fn reattach<D: BlockDevice>(device: &mut D, superblock: &Superblock, prior_recovery: RecoveryReport) -> (r: Result<OrphanNamespaceRepairReport, Error>)
    requires
        old(device).blocks().len() > 0,
    ensures
        journal_region::carried_out(
            old(device),
            final(device),
            *superblock,
            namespace_repair(r),
            reattach_step(old(device).blocks(), *superblock, prior_recovery),
        ),
{
    broadcast use journal_region::group_atomic;

    let (_, unreachable) = check_device_allowing_unreachable_inodes(device)?;
    if unreachable.len() == 0 {
        let reattached: Vec<NamespaceReattachment> = Vec::new();
        assert(attachment_views(reattached@) =~= Seq::<(u64, Seq<char>)>::empty());
        return Ok(
            OrphanNamespaceRepairReport {
                reattached,
                prior_recovery,
                repair_transaction: RecoveryReport::default(),
            },
        );
    }
    let inodes = load_inode_table(device, superblock)?;
    let mut entries = load_directory_table(device, superblock)?;
    let roots = list_component_roots(entries.as_slice(), unreachable.as_slice());
    if roots.len() == 0 {
        return Err(invalid_data("unreachable namespace has no acyclic component root"));
    }
    let reattached = match attach(&mut entries, roots.as_slice()) {
        Some(list) => list,
        None => return Err(invalid_data("orphan repair name suffix overflow")),
    };
    validate_namespace_snapshot(inodes.as_slice(), entries.as_slice())?;
    let none: Vec<(u64, Block)> = Vec::new();
    assert(recovery::write_views(none@) =~= Seq::<HomeWrite>::empty());
    let repair_transaction = store_update_and_checkpoint(
        device,
        superblock,
        None,
        None,
        Some(entries.as_slice()),
        none.as_slice(),
        false,
    )?;
    check_device(device)?;
    Ok(OrphanNamespaceRepairReport { reattached, prior_recovery, repair_transaction })
}

/// Releases every block in use that no inode references.
fn release<D: BlockDevice>(device: &mut D, superblock: &Superblock, prior_recovery: RecoveryReport) -> (r: Result<OrphanAllocationRepairReport, Error>)
    requires
        old(device).blocks().len() > 0,
    ensures
        journal_region::carried_out(
            old(device),
            final(device),
            *superblock,
            allocation_repair(r),
            release_step(old(device).blocks(), *superblock, prior_recovery),
        ),
{
    broadcast use journal_region::group_atomic;

    let (_, orphaned) = check_device_allowing_orphaned_allocations(device)?;
    if orphaned.len() == 0 {
        let released_blocks: Vec<u64> = Vec::new();
        assert(released_blocks@ =~= Seq::<u64>::empty());
        return Ok(
            OrphanAllocationRepairReport {
                released_blocks,
                prior_recovery,
                repair_transaction: RecoveryReport::default(),
            },
        );
    }
    let mut allocator = load_allocator(device, superblock)?;
    if allocator.free_all(orphaned.as_slice()).is_err() {
        return Err(invalid_data("orphaned block is not allocated"));
    }
    let none: Vec<(u64, Block)> = Vec::new();
    assert(recovery::write_views(none@) =~= Seq::<HomeWrite>::empty());
    let repair_transaction = store_update_and_checkpoint(
        device,
        superblock,
        Some(&allocator),
        None,
        None,
        none.as_slice(),
        false,
    )?;
    check_device(device)?;
    Ok(OrphanAllocationRepairReport { released_blocks: orphaned, prior_recovery, repair_transaction })
}

/// Gives every inode without a path one again: those that no other such inode holds get a name in
/// the root directory. Nothing else may be wrong with the device, and nothing else is changed.
pub fn repair_unreachable_inodes_journaled<D: BlockDevice>(device: &mut D, superblock: &Superblock) -> (r: Result<OrphanNamespaceRepairReport, Error>)
    ensures
        old(device).blocks().len() > 0 ==> journal_region::carried_out(
            old(device),
            final(device),
            *superblock,
            namespace_repair(r),
            repair_namespace_step(old(device).blocks(), *superblock),
        ),
        old(device).blocks().len() == 0 ==> r is Err && block::untouched(
            old(device),
            final(device),
        ),
{
    broadcast use journal_checkpoint::group_settled;

    let durable_superblock = read_superblock(device)?;
    if durable_superblock != *superblock {
        return Err(
            invalid_input("repair superblock does not match durable filesystem superblock"),
        );
    }
    let prior_recovery = recover_journal_and_checkpoint(device, *superblock)?;
    reattach(device, superblock, prior_recovery)
}

/// Releases the data blocks in use that no inode references. Nothing else may be wrong with the
/// device, and nothing else is changed.
pub fn repair_orphaned_allocations_journaled<D: BlockDevice>(device: &mut D, superblock: &Superblock) -> (r: Result<OrphanAllocationRepairReport, Error>)
    ensures
        old(device).blocks().len() > 0 ==> journal_region::carried_out(
            old(device),
            final(device),
            *superblock,
            allocation_repair(r),
            repair_allocation_step(old(device).blocks(), *superblock),
        ),
        old(device).blocks().len() == 0 ==> r is Err && block::untouched(
            old(device),
            final(device),
        ),
{
    broadcast use journal_checkpoint::group_settled;

    let durable_superblock = read_superblock(device)?;
    if durable_superblock != *superblock {
        return Err(
            invalid_input("repair superblock does not match durable filesystem superblock"),
        );
    }
    let prior_recovery = recover_journal_and_checkpoint(device, *superblock)?;
    release(device, superblock, prior_recovery)
}

/// What a device holds that passes an inspection but for orphaned blocks or unreachable inodes.
proof fn lemma_inspected(disk: Disk, sb: Superblock)
    requires
        crate::format::superblock_on(disk) == Some(sb),
        fsck::inspected(disk) is Ok,
    ensures
        ({
            let t = soundness::tables_of(disk, sb);
            let found = fsck::inspected(disk)->Ok_0;
            &&& soundness::holds_tables(disk, sb, t)
            &&& journal_region::image_on(disk, sb) is Ok
            &&& sb.fits(disk)
            &&& t.allocator.wf()
            &&& t.allocator.first > 0
            &&& fsck::sound_ownership(t.allocator, t.inodes)
            &&& namespace::sound_namespace(t.inodes, t.entries)
            &&& found.orphaned == fsck::orphaned_blocks(t.allocator, t.inodes)
            &&& found.unreachable == namespace::unreachable_ids(t.inodes, t.entries)
            &&& forall|i: int|
                0 <= i < t.inodes.len() ==> inode_codec::exact(#[trigger] t.inodes[i])
        }),
{
    reveal(fsck::inspected);
    soundness::lemma_allocator_shape(disk, sb);
    inode_table::lemma_inodes_exact(disk, sb);
}

/// The orphaned blocks can be released, and then every block in use is referenced.
pub proof fn law_release_orphans(a: AllocView, inodes: Seq<InodeView>)
    requires
        a.wf(),
        fsck::sound_ownership(a, inodes),
    ensures
        a.releasing(fsck::orphaned_blocks(a, inodes)) matches Some(b)
            && ownership::exact_ownership(b, inodes),
{
    let orphaned = fsck::orphaned_blocks(a, inodes);
    let refs = fsck::references(inodes);
    soundness::law_orphaned_blocks(a, inodes);
    lemma_unreferenced_ascends(a, refs, a.owned.len());
    assert forall|i: int| 0 <= i < orphaned.len() implies a.owns(#[trigger] orphaned[i]) by {
        assert(orphaned.contains(orphaned[i]));
    }
    allocation::law_releasing(a, orphaned);
    let b = a.releasing(orphaned)->Some_0;
    assert forall|i: int| 0 <= i < refs.len() implies b.owns(#[trigger] refs[i]) by {
        assert(a.owns(refs[i]));
        assert(refs.contains(refs[i]));
        assert(!orphaned.contains(refs[i]));
    }
    assert forall|block: u64| #[trigger] b.owns(block) implies refs.contains(block) by {
        assert(!orphaned.contains(block));
    }
}

proof fn lemma_unreferenced_ascends(a: AllocView, referenced: Seq<u64>, count: nat)
    requires
        a.wf(),
        count <= a.owned.len(),
    ensures
        fsck::unreferenced(a, referenced, count).no_duplicates(),
        forall|i: int|
            0 <= i < fsck::unreferenced(a, referenced, count).len() ==> (#[trigger] fsck::unreferenced(
                a,
                referenced,
                count,
            )[i]) < a.first + count,
    decreases count,
{
    if count > 0 {
        let front = fsck::unreferenced(a, referenced, (count - 1) as nat);
        let all = fsck::unreferenced(a, referenced, count);
        lemma_unreferenced_ascends(a, referenced, (count - 1) as nat);
        assert forall|i: int, j: int| 0 <= i < all.len() && 0 <= j < all.len() && i != j implies all[i]
            != all[j] by {
            if i < front.len() {
                assert(front[i] < a.first + count - 1);
            }
            if j < front.len() {
                assert(front[j] < a.first + count - 1);
            }
        }
    }
}

/// A repair of the allocation state whose transaction succeeds succeeds: it hands back the orphaned
/// blocks, these are free and no other block changes hands, the device passes a strict inspection,
/// inodes, names and contents are as before.
pub proof fn law_repair_allocation(disk: Disk, sb: Superblock, prior_recovery: RecoveryReport)
    requires
        crate::format::superblock_on(disk) == Some(sb),
        fsck::checked_but_orphans(disk) matches Ok((report, orphaned)) && orphaned.len() > 0,
        update::settled_update_step(
            disk,
            sb,
            allocator_only(
                soundness::tables_of(disk, sb).allocator.releasing(
                    fsck::checked_but_orphans(disk)->Ok_0.1,
                )->Some_0,
            ),
            false,
        ).result is Ok,
    ensures
        release_step(disk, sb, prior_recovery).result is Ok,
        release_step(disk, sb, prior_recovery).result->Ok_0.repaired == fsck::checked_but_orphans(
            disk,
        )->Ok_0.1,
        forall|block: u64| #[trigger]
            soundness::tables_of(
                release_step(disk, sb, prior_recovery).disk,
                sb,
            ).allocator.owns(block) == (soundness::tables_of(disk, sb).allocator.owns(block)
                && !fsck::checked_but_orphans(disk)->Ok_0.1.contains(block)),
        soundness::sound_on(release_step(disk, sb, prior_recovery).disk, sb),
        soundness::tables_of(release_step(disk, sb, prior_recovery).disk, sb).inodes
            == soundness::tables_of(disk, sb).inodes,
        soundness::tables_of(release_step(disk, sb, prior_recovery).disk, sb).entries
            == soundness::tables_of(disk, sb).entries,
        forall|i: int|
            sb.data_start() <= i < disk.len() ==> #[trigger] release_step(
                disk,
                sb,
                prior_recovery,
            ).disk[i] == disk[i],
{
    let t = soundness::tables_of(disk, sb);
    lemma_inspected(disk, sb);
    law_release_orphans(t.allocator, t.inodes);
    let b = t.allocator.releasing(fsck::orphaned_blocks(t.allocator, t.inodes))->Some_0;
    soundness::law_update_makes_sound(disk, sb, t, allocator_only(b), false);
    allocation::law_releasing(t.allocator, fsck::orphaned_blocks(t.allocator, t.inodes));
}

/// A repair of the namespace whose transaction succeeds succeeds: the device passes a strict
/// inspection, allocation state, inodes and contents are as before.
pub proof fn law_repair_namespace(disk: Disk, sb: Superblock, prior_recovery: RecoveryReport)
    requires
        crate::format::superblock_on(disk) == Some(sb),
        fsck::checked_but_unreachable(disk) matches Ok((report, unreachable)) && unreachable.len()
            > 0 && (repaired_namespace(
            soundness::tables_of(disk, sb).inodes,
            soundness::tables_of(disk, sb).entries,
            unreachable,
        ) matches Some((desired, list)) && update::settled_update_step(
            disk,
            sb,
            directory_tx::entries_only(desired),
            false,
        ).result is Ok),
    ensures
        reattach_step(disk, sb, prior_recovery).result is Ok,
        soundness::sound_on(reattach_step(disk, sb, prior_recovery).disk, sb),
        soundness::tables_of(reattach_step(disk, sb, prior_recovery).disk, sb).inodes
            == soundness::tables_of(disk, sb).inodes,
        soundness::tables_of(reattach_step(disk, sb, prior_recovery).disk, sb).allocator
            == soundness::tables_of(disk, sb).allocator,
        forall|i: int|
            sb.data_start() <= i < disk.len() ==> #[trigger] reattach_step(
                disk,
                sb,
                prior_recovery,
            ).disk[i] == disk[i],
{
    let t = soundness::tables_of(disk, sb);
    lemma_inspected(disk, sb);
    soundness::law_orphaned_blocks(t.allocator, t.inodes);
    let unreachable = fsck::checked_but_unreachable(disk)->Ok_0.1;
    let (desired, list) = repaired_namespace(t.inodes, t.entries, unreachable)->Some_0;
    soundness::law_update_makes_sound(disk, sb, t, directory_tx::entries_only(desired), false);
}

/// A repair keeps every entry that there was, and adds one for each inode that it reattaches.
pub proof fn law_attached(entries: Seq<DirEntryView>, roots: Seq<u64>)
    ensures
        attached(entries, roots) matches Some((desired, list)) ==> {
            &&& desired.len() == entries.len() + roots.len()
            &&& desired.subrange(0, entries.len() as int) == entries
            &&& list.len() == roots.len()
            &&& forall|k: int|
                0 <= k < roots.len() ==> (#[trigger] list[k]).0 == roots[k] && desired[entries.len()
                    + k] == (DirEntryView {
                    parent: ROOT_INODE_ID,
                    target: roots[k],
                    name: list[k].1,
                })
        },
    decreases roots.len(),
{
    if roots.len() > 0 {
        let front = roots.drop_last();
        law_attached(entries, front);
        if let Some((desired, list)) = attached(entries, roots) {
            let (before, names_before) = attached(entries, front)->Some_0;
            assert(desired.subrange(0, entries.len() as int) =~= before.subrange(
                0,
                entries.len() as int,
            ));
            assert forall|k: int| 0 <= k < roots.len() implies (#[trigger] list[k]).0 == roots[k]
                && desired[entries.len() + k] == (DirEntryView {
                parent: ROOT_INODE_ID,
                target: roots[k],
                name: list[k].1,
            }) by {
                if k < front.len() {
                    assert(names_before[k].0 == front[k]);
                }
            }
        }
    } else {
        assert(entries.subrange(0, entries.len() as int) =~= entries);
    }
}

/// A second repair of the allocation state releases nothing, commits nothing and changes nothing.
pub proof fn law_repair_allocation_again(disk: Disk, sb: Superblock)
    requires
        repair_allocation_step(disk, sb).result is Ok,
    ensures
        repair_allocation_step(repair_allocation_step(disk, sb).disk, sb) == step::stay(
            repair_allocation_step(disk, sb).disk,
            Ok::<RepairView<u64>, ErrorKind>(
                RepairView {
                    repaired: Seq::empty(),
                    prior_recovery: recovery::no_recovery(),
                    repair_transaction: recovery::no_recovery(),
                },
            ),
        ),
{
    let prior_recovery = journal_checkpoint::settle_step(disk, sb).result->Ok_0;
    let base = journal_checkpoint::settle_step(disk, sb).disk;
    let end = repair_allocation_step(disk, sb).disk;
    lemma_settled_start(disk, sb);
    let orphaned = fsck::checked_but_orphans(base)->Ok_0.1;
    if orphaned.len() > 0 {
        let t = soundness::tables_of(base, sb);
        lemma_inspected(base, sb);
        law_repair_allocation(base, sb, prior_recovery);
        update::law_settled_update(base, sb, allocator_only(t.allocator.releasing(orphaned)->Some_0), false);
        soundness::lemma_sound_parts(end, sb);
    }
    reveal(journal_checkpoint::settle_step);
    assert(fsck::checked_but_orphans(end)->Ok_0.1 =~= Seq::<u64>::empty());
}

/// A second repair of the namespace reattaches nothing, commits nothing and changes nothing.
pub proof fn law_repair_namespace_again(disk: Disk, sb: Superblock)
    requires
        repair_namespace_step(disk, sb).result is Ok,
    ensures
        repair_namespace_step(repair_namespace_step(disk, sb).disk, sb) == step::stay(
            repair_namespace_step(disk, sb).disk,
            Ok::<RepairView<(u64, Seq<char>)>, ErrorKind>(
                RepairView {
                    repaired: Seq::empty(),
                    prior_recovery: recovery::no_recovery(),
                    repair_transaction: recovery::no_recovery(),
                },
            ),
        ),
{
    let prior_recovery = journal_checkpoint::settle_step(disk, sb).result->Ok_0;
    let base = journal_checkpoint::settle_step(disk, sb).disk;
    let end = repair_namespace_step(disk, sb).disk;
    lemma_settled_start(disk, sb);
    let unreachable = fsck::checked_but_unreachable(base)->Ok_0.1;
    if unreachable.len() > 0 {
        let t = soundness::tables_of(base, sb);
        lemma_inspected(base, sb);
        law_repair_namespace(base, sb, prior_recovery);
        let (desired, list) = repaired_namespace(t.inodes, t.entries, unreachable)->Some_0;
        update::law_settled_update(base, sb, directory_tx::entries_only(desired), false);
        soundness::lemma_sound_parts(end, sb);
    }
    reveal(journal_checkpoint::settle_step);
    assert(fsck::checked_but_unreachable(end)->Ok_0.1 =~= Seq::<u64>::empty());
}

/// What a repair starts from: the same superblock and an empty journal.
proof fn lemma_settled_start(disk: Disk, sb: Superblock)
    requires
        crate::format::superblock_on(disk) == Some(sb),
        journal_checkpoint::settle_step(disk, sb).result is Ok,
    ensures
        crate::format::superblock_on(journal_checkpoint::settle_step(disk, sb).disk) == Some(sb),
        journal_region::image_on(journal_checkpoint::settle_step(disk, sb).disk, sb) == Ok::<
            Seq<EntryView>,
            ErrorKind,
        >(Seq::empty()),
{
    assert(journal_region::image_on(disk, sb) is Ok) by {
        reveal(journal_checkpoint::settle_step);
    }
    journal_checkpoint::lemma_settle_superblock(disk, sb);
    journal_checkpoint::law_settle_keeps_home(disk, sb);
}

} // verus!
