//! The directory table as a transaction.

use vstd::prelude::*;
use crate::block::BLOCK_SIZE;
use crate::block;
use crate::block::{Block, BlockDevice, Disk};
use crate::contents;
use crate::directory_codec::{DirEntryView, PersistedDirectoryEntry};
use crate::directory_table;
use crate::directory_table::load_directory_table;
use crate::error::{Error, ErrorKind};
use crate::format::Superblock;
use crate::fsck;
use crate::journal;
use crate::journal::{copy_entry, JournalEntry};
use crate::journal_checkpoint;
use crate::journal_checkpoint::recover_journal_and_checkpoint;
use crate::journal_codec;
use crate::journal_region;
use crate::journal_region::validate_entries;
use crate::journal_retained;
use crate::journal_retained::{load_extensible_entries, replace_retained_journal_entries};
use crate::recovery;
use crate::recovery::{HomeWrite, RecoveryReport};
use crate::recovery_projection;
use crate::recovery_projection::{
    check_device_after_entries_projection, projected_device_after_entries,
};
use crate::soundness;
use crate::step;
use crate::step::Step;
use crate::transaction;
use crate::transaction::log_blocks;
use crate::update;
use crate::update::{collect_changes, store_update, Update};

verus! {

/// The change of the directory table alone.
pub open spec fn entries_only(entries: Seq<DirEntryView>) -> Update {
    Update { allocator: None, inodes: None, entries: Some(entries), data: Seq::empty() }
}

/// The directory table as a transaction that is taken out of the journal once it is home.
pub open spec fn replace_entries_step(disk: Disk, sb: Superblock, entries: Seq<DirEntryView>) -> Step<RecoveryReport> {
    let stored = update::update_step(disk, sb, entries_only(entries));
    match stored.result {
        Err(kind) => step::stay(stored.disk, Err(kind)),
        Ok(report) => journal_checkpoint::settled_then(
            stored.disk,
            sb,
            |d: Disk| step::stay(d, Ok(report)),
        ),
    }
}

/// Stores the directory table as one transaction, which stays in the journal. A table that is
/// stored already is left alone.
pub fn store_directory_table_journaled<D: BlockDevice>(device: &mut D, superblock: &Superblock, entries: &[PersistedDirectoryEntry]) -> (r: Result<RecoveryReport, Error>)
    ensures
        journal_region::carried_out(
            old(device),
            final(device),
            *superblock,
            step::kinded(r),
            update::update_step(
                old(device).blocks(),
                *superblock,
                entries_only(directory_table::entry_views(entries@)),
            ),
        ),
{
    let none: Vec<(u64, Block)> = Vec::new();
    assert(recovery::write_views(none@) =~= Seq::<HomeWrite>::empty());
    store_update(device, superblock, None, None, Some(entries), none.as_slice())
}

/// Stores the directory table and takes the transaction out of the journal.
pub(crate) fn replace_directory_table<D: BlockDevice>(device: &mut D, superblock: &Superblock, entries: &[PersistedDirectoryEntry]) -> (r: Result<RecoveryReport, Error>)
    ensures
        journal_region::carried_out(
            old(device),
            final(device),
            *superblock,
            step::kinded(r),
            replace_entries_step(
                old(device).blocks(),
                *superblock,
                directory_table::entry_views(entries@),
            ),
        ),
{
    broadcast use journal_checkpoint::group_settled;

    let report = store_directory_table_journaled(device, superblock, entries)?;
    recover_journal_and_checkpoint(device, *superblock)?;
    Ok(report)
}

/// What the retained log amounts to after an update, and how many blocks the update changes.
#[derive(Clone, Copy, Debug, PartialEq, Eq, Structural)]
pub struct RetainedDirectoryUpdateReport {
    pub retained: RecoveryReport,
    pub appended_home_writes: usize,
}

impl Default for RetainedDirectoryUpdateReport {
    fn default() -> (r: Self)
        ensures
            r.retained == recovery::no_recovery(),
            r.appended_home_writes == 0,
    {
        RetainedDirectoryUpdateReport {
            retained: RecoveryReport::default(),
            appended_home_writes: 0,
        }
    }
}

/// The directory table behind the retained log.
pub open spec fn retained_table(disk: Disk, sb: Superblock) -> Result<Seq<DirEntryView>, ErrorKind> {
    match journal_retained::extensible_on(disk, sb) {
        Err(kind) => Err(kind),
        Ok(current) => directory_table::entries_on(
            recovery_projection::projected(disk, sb, current),
            sb,
        ),
    }
}

/// A further transaction in the retained log that makes the directory table hold `desired`. What
/// the whole log leaves behind must pass a strict inspection.
pub open spec fn retained_update_step(disk: Disk, sb: Superblock, desired: Seq<DirEntryView>) -> Step<RetainedDirectoryUpdateReport> {
    match journal_retained::extensible_on(disk, sb) {
        Err(kind) => step::stay(disk, Err(kind)),
        Ok(current) => match update::changes(
            recovery_projection::projected(disk, sb, current),
            sb,
            entries_only(desired),
        ) {
            None => step::stay(disk, Err(ErrorKind::InvalidInput)),
            Some(writes) => if writes.len() == 0 {
                step::stay(
                    disk,
                    Ok(
                        RetainedDirectoryUpdateReport {
                            retained: recovery::report_of(current),
                            appended_home_writes: 0,
                        },
                    ),
                )
            } else {
                let candidate = current + transaction::transaction_log(writes);
                if !journal_region::admissible(sb, candidate) {
                    step::stay(disk, Err(ErrorKind::InvalidData))
                } else {
                    match fsck::checked(recovery_projection::projected(disk, sb, candidate)) {
                        Err(kind) => step::stay(disk, Err(kind)),
                        Ok(_) => {
                            let retained = journal_retained::retain_step(disk, sb, candidate);
                            Step {
                                disk: retained.disk,
                                result: match retained.result {
                                    Err(kind) => Err(kind),
                                    Ok(_) => Ok(
                                        RetainedDirectoryUpdateReport {
                                            retained: recovery::report_of(candidate),
                                            appended_home_writes: writes.len() as usize,
                                        },
                                    ),
                                },
                            }
                        },
                    }
                }
            },
        },
    }
}

/// The update is refused, or there is nothing to add to the log.
pub open spec fn retains_nothing(s: Step<RetainedDirectoryUpdateReport>) -> bool {
    match s.result {
        Err(_) => true,
        Ok(report) => report.appended_home_writes == 0,
    }
}

/// Loads the directory table behind the retained log.
pub fn load_retained_directory_table<D: BlockDevice>(device: &mut D, superblock: &Superblock) -> (r: Result<Vec<PersistedDirectoryEntry>, Error>)
    ensures
        block::untouched(old(device), final(device)),
        match r {
            Ok(entries) => retained_table(old(device).blocks(), *superblock) == Ok::<
                Seq<DirEntryView>,
                ErrorKind,
            >(directory_table::entry_views(entries@)),
            Err(e) => !old(device).healthy() || retained_table(old(device).blocks(), *superblock)
                == Err::<Seq<DirEntryView>, ErrorKind>(e.kind),
        },
{
    let current = load_extensible_entries(device, *superblock)?;
    proof {
        journal_retained::lemma_extensible_admissible(old(device).blocks(), *superblock);
    }
    let (mut projected, _) = projected_device_after_entries(
        device,
        *superblock,
        current.as_slice(),
    )?;
    load_directory_table(&mut projected, superblock)
}

/// The log with the entries of another behind it.
fn joined_log(front: Vec<JournalEntry>, back: &[JournalEntry]) -> (r: Vec<JournalEntry>)
    ensures
        journal::entry_views(r@) == journal::entry_views(front@) + journal::entry_views(back@),
{
    let ghost before = journal::entry_views(front@);
    let ghost views = journal::entry_views(back@);
    let mut r = front;
    let mut i: usize = 0;
    assert(before + views.subrange(0, 0) =~= before);
    while i < back.len()
        invariant
            i <= back@.len(),
            views == journal::entry_views(back@),
            journal::entry_views(r@) == before + views.subrange(0, i as int),
        decreases back@.len() - i,
    {
        let ghost all = journal::entry_views(r@);
        let entry = copy_entry(&back[i]);
        let ghost added = entry@;
        r.push(entry);
        assert(journal::entry_views(r@) =~= all.push(added));
        assert(views.subrange(0, i + 1) =~= views.subrange(0, i as int).push(added));
        assert(journal::entry_views(r@) =~= before + views.subrange(0, i + 1));
        i += 1;
    }
    assert(views.subrange(0, views.len() as int) =~= views);
    r
}

/// Adds the change of the directory table to `desired` to the retained log, without replaying it.
pub fn retain_directory_table_journaled<D: BlockDevice>(device: &mut D, superblock: &Superblock, desired: &[PersistedDirectoryEntry]) -> (r: Result<RetainedDirectoryUpdateReport, Error>)
    ensures
        step::follows(
            old(device),
            final(device),
            step::kinded(r),
            retained_update_step(
                old(device).blocks(),
                *superblock,
                directory_table::entry_views(desired@),
            ),
        ),
        journal_retained::safely(
            old(device),
            final(device),
            *superblock,
            r is Ok,
            retained_update_step(
                old(device).blocks(),
                *superblock,
                directory_table::entry_views(desired@),
            ).disk,
        ),
        retains_nothing(
            retained_update_step(
                old(device).blocks(),
                *superblock,
                directory_table::entry_views(desired@),
            ),
        ) ==> block::untouched(old(device), final(device)),
{
    let ghost base = device.blocks();
    let current = load_extensible_entries(device, *superblock)?;
    proof {
        journal_retained::lemma_extensible_admissible(base, *superblock);
        journal_region::lemma_plan_home(*superblock, journal::entry_views(current@));
        recovery::lemma_applied(
            base,
            recovery::plan_of(journal::entry_views(current@)).writes,
        );
    }
    let (mut projected, report) = projected_device_after_entries(
        device,
        *superblock,
        current.as_slice(),
    )?;
    let none: Vec<(u64, Block)> = Vec::new();
    assert(recovery::write_views(none@) =~= Seq::<HomeWrite>::empty());
    let changed = collect_changes(
        &mut projected,
        superblock,
        None,
        None,
        Some(desired),
        none.as_slice(),
    )?;
    assert(changed@.len() == recovery::write_views(changed@).len());
    if changed.is_empty() {
        return Ok(RetainedDirectoryUpdateReport { retained: report, appended_home_writes: 0 });
    }
    let appended_home_writes: usize = changed.len();
    let log = log_blocks(changed.as_slice())?;
    let candidate = joined_log(current, log.entries());
    validate_entries(*superblock, candidate.as_slice())?;
    let (_, retained) = check_device_after_entries_projection(
        device,
        *superblock,
        candidate.as_slice(),
    )?;
    replace_retained_journal_entries(device, *superblock, candidate.as_slice())?;
    Ok(RetainedDirectoryUpdateReport { retained, appended_home_writes })
}

/// Lets `update` change the directory table behind the retained log, and adds the change to that
/// log without replaying it.
pub fn update_directory_table_retained_journaled<D: BlockDevice, F>(device: &mut D, superblock: &Superblock, update: F) -> (r: Result<RetainedDirectoryUpdateReport, Error>) where
    F: FnOnce(&mut Vec<PersistedDirectoryEntry>) -> Result<(), Error>,

    requires
        forall|table: &mut Vec<PersistedDirectoryEntry>| call_requires(update, (table,)),
    ensures
        ({
            let table_on = retained_table(old(device).blocks(), *superblock);
            ||| r is Err && block::untouched(old(device), final(device)) && (
            !old(device).healthy() || table_on == Err::<Seq<DirEntryView>, ErrorKind>(
                r->Err_0.kind,
            ))
            ||| exists|table: &mut Vec<PersistedDirectoryEntry>, outcome: Result<(), Error>|
                #[trigger] call_ensures(update, (table,), outcome) && table_on == Ok::<
                    Seq<DirEntryView>,
                    ErrorKind,
                >(directory_table::entry_views((*table)@)) && match outcome {
                    Err(e) => r == Err::<RetainedDirectoryUpdateReport, Error>(e)
                        && block::untouched(old(device), final(device)),
                    Ok(_) => step::follows(
                        old(device),
                        final(device),
                        step::kinded(r),
                        retained_update_step(
                            old(device).blocks(),
                            *superblock,
                            directory_table::entry_views((*final(table))@),
                        ),
                    ) && journal_retained::safely(
                        old(device),
                        final(device),
                        *superblock,
                        r is Ok,
                        retained_update_step(
                            old(device).blocks(),
                            *superblock,
                            directory_table::entry_views((*final(table))@),
                        ).disk,
                    ) && (retains_nothing(
                        retained_update_step(
                            old(device).blocks(),
                            *superblock,
                            directory_table::entry_views((*final(table))@),
                        ),
                    ) ==> block::untouched(old(device), final(device))),
                }
        }),
{
    let mut desired = load_retained_directory_table(device, superblock)?;
    let outcome = update(&mut desired);
    match outcome {
        Ok(_) => {},
        Err(e) => return Err(e),
    }
    retain_directory_table_journaled(device, superblock, desired.as_slice())
}

/// After a retained update the directory table behind the retained log is the one asked for, and
/// the next retained update builds on it. Nothing outside the journal changes.
pub proof fn law_retained_update(disk: Disk, sb: Superblock, desired: Seq<DirEntryView>)
    requires
        retained_update_step(disk, sb, desired).result is Ok,
    ensures
        retained_table(retained_update_step(disk, sb, desired).disk, sb) == Ok::<
            Seq<DirEntryView>,
            ErrorKind,
        >(desired),
        update::beside_journal(retained_update_step(disk, sb, desired).disk, disk, sb),
{
    let current = journal_retained::extensible_on(disk, sb)->Ok_0;
    let before = recovery_projection::projected(disk, sb, current);
    let u = entries_only(desired);
    let writes = update::changes(before, sb, u)->Some_0;
    let first = recovery::plan_of(current).writes;
    journal_retained::lemma_extensible_admissible(disk, sb);
    journal_region::lemma_plan_home(sb, current);
    recovery::lemma_applied(disk, first);
    update::lemma_changes_effect(before, sb, u);
    if writes.len() > 0 {
        let log = transaction::transaction_log(writes);
        let candidate = current + log;
        let end = journal_retained::retain_step(disk, sb, candidate).disk;
        update::lemma_changes_whole(before, sb, u);
        transaction::lemma_transaction_log(sb, writes);
        assert forall|i: int| 0 <= i < candidate.len() implies journal_codec::whole(
            #[trigger] candidate[i],
        ) by {
            if i < current.len() {
                assert(candidate[i] == current[i]);
            } else {
                assert(candidate[i] == log[i - current.len()]);
            }
        }
        journal_retained::law_retain(disk, sb, candidate);
        journal_checkpoint::lemma_plan_joined(current, log);
        journal_region::lemma_plan_home(sb, candidate);
        let all = recovery::plan_of(candidate).writes;
        assert(all == first + writes);
        update::lemma_applied_concat(disk, first, writes);
        assert forall|k: int| 0 <= k < writes.len() implies (#[trigger] writes[k]).0
            < disk.len() by {
            assert(all[first.len() + k] == writes[k]);
        }
        transaction::lemma_applied_beside(end, disk, all, sb);
        transaction::lemma_applied_beside(before, recovery::applied(disk, first), writes, sb);
        let after = recovery_projection::projected(end, sb, candidate);
        update::lemma_updated_beside(before, recovery::applied(before, writes), after, sb, u);
    }
}

/// What a new directory table does to the tables of any device.
pub proof fn lemma_entries_tables(disk: Disk, sb: Superblock, entries: Seq<DirEntryView>)
    requires
        directory_table::entries_on(disk, sb) is Ok,
        entries != soundness::tables_of(disk, sb).entries,
        replace_entries_step(disk, sb, entries).result is Ok,
    ensures
        ({
            let t = soundness::tables_of(disk, sb);
            let end = replace_entries_step(disk, sb, entries).disk;
            &&& soundness::tables_of(end, sb) == (soundness::Tables { entries, ..t })
            &&& directory_table::entries_on(end, sb) is Ok
            &&& soundness::readable_on(disk, sb) ==> soundness::readable_on(end, sb)
            &&& forall|i: int| sb.data_start() <= i < disk.len() ==> #[trigger] end[i] == disk[i]
        }),
{
    let u = entries_only(entries);
    let mid = update::update_step(disk, sb, u).disk;
    let end = replace_entries_step(disk, sb, entries).disk;
    update::law_update(disk, sb, u);
    reveal(update::update_step);
    let writes = update::changes(disk, sb, u)->Some_0;
    assert(writes.len() > 0);
    update::lemma_changes_whole(disk, sb, u);
    transaction::law_commit(disk, sb, writes);
    transaction::lemma_transaction_log(sb, writes);
    reveal(transaction::commit_step);
    let stored = journal_region::store_step(disk, sb, transaction::transaction_log(writes)).disk;
    transaction::lemma_stored_log(disk, sb, writes);
    assert(mid == recovery::applied(stored, writes));
    assert(journal_region::home_of(mid, sb) == Some(journal_region::outside_journal(mid, sb)));
    journal_checkpoint::law_settle_keeps_home(mid, sb);
    assert(update::beside_journal(mid, end, sb)) by {
        assert forall|i: int|
            0 <= i < mid.len() && !(sb.journal_start <= i < sb.journal_start
                + sb.journal_blocks) implies #[trigger] mid[i] == end[i] by {
            assert(end[i] == journal_region::home_of(mid, sb)->Some_0[i]);
        }
    }
    update::lemma_updated_beside(disk, mid, end, sb, u);
}

/// A new directory table on a sound device, whose namespace agrees with the inodes, leaves a sound
/// device; nothing else changes.
pub proof fn law_replace_entries(disk: Disk, sb: Superblock, entries: Seq<DirEntryView>)
    requires
        soundness::sound_on(disk, sb),
        entries != soundness::tables_of(disk, sb).entries,
        fsck::strict_namespace(soundness::tables_of(disk, sb).inodes, entries),
        replace_entries_step(disk, sb, entries).result is Ok,
    ensures
        ({
            let t = soundness::tables_of(disk, sb);
            let end = replace_entries_step(disk, sb, entries).disk;
            &&& soundness::sound_on(end, sb)
            &&& soundness::tables_of(end, sb) == (soundness::Tables { entries, ..t })
            &&& forall|i: int| sb.data_start() <= i < disk.len() ==> #[trigger] end[i] == disk[i]
        }),
{
    let t = soundness::tables_of(disk, sb);
    let end = replace_entries_step(disk, sb, entries).disk;
    soundness::lemma_sound_parts(disk, sb);
    lemma_entries_tables(disk, sb, entries);
    assert(soundness::holds_tables(end, sb, soundness::Tables { entries, ..t }));
    assert(soundness::sound_tables(soundness::Tables { entries, ..t }));
    soundness::law_sound(end, sb);
}

/// A retained update that is refused changes nothing.
pub proof fn law_retained_refusal(disk: Disk, sb: Superblock, desired: Seq<DirEntryView>)
    requires
        retained_update_step(disk, sb, desired).result is Err,
    ensures
        retained_update_step(disk, sb, desired).disk == disk,
{
}

/// A directory table that is stored again changes nothing.
pub proof fn law_same_table(disk: Disk, sb: Superblock, entries: Seq<DirEntryView>)
    requires
        contents::full_blocks(disk),
        directory_table::entries_on(disk, sb) == Ok::<Seq<DirEntryView>, ErrorKind>(entries),
    ensures
        update::update_step(disk, sb, entries_only(entries)) == step::stay(
            disk,
            Ok::<RecoveryReport, ErrorKind>(recovery::no_recovery()),
        ),
{
    reveal(update::update_step);
    assert(sb.fits(disk)) by {
        reveal(directory_table::entries_on);
    }
    update::law_same_entries(disk, sb, entries);
}

/// A retained update that asks for the directory table as it is adds nothing to the log and changes
/// nothing.
pub proof fn law_retained_same_table(disk: Disk, sb: Superblock, entries: Seq<DirEntryView>)
    requires
        contents::full_blocks(disk),
        retained_table(disk, sb) == Ok::<Seq<DirEntryView>, ErrorKind>(entries),
    ensures
        retained_update_step(disk, sb, entries) == step::stay(
            disk,
            Ok::<RetainedDirectoryUpdateReport, ErrorKind>(
                RetainedDirectoryUpdateReport {
                    retained: recovery::report_of(
                        journal_retained::extensible_on(disk, sb)->Ok_0,
                    ),
                    appended_home_writes: 0,
                },
            ),
        ),
{
    let current = journal_retained::extensible_on(disk, sb)->Ok_0;
    let writes = recovery::plan_of(current).writes;
    let before = recovery_projection::projected(disk, sb, current);
    journal_retained::lemma_extensible_admissible(disk, sb);
    journal_region::lemma_plan_home(sb, current);
    journal_region::lemma_plan_whole(current);
    recovery::lemma_applied(disk, writes);
    assert forall|i: int|
        sb.directory_start <= i < sb.directory_start + sb.directory_blocks implies (
    #[trigger] before[i]).len() == BLOCK_SIZE by {
        assert(before[i] == recovery::applied(disk, writes)[i]);
    }
    update::law_same_entries(before, sb, entries);
}

} // verus!
