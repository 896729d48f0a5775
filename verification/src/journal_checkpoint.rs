//! Emptying the journal once its transactions are home.

use vstd::prelude::*;
use vstd::slice::*;
use crate::block;
use crate::block::{BlockDevice, Disk};
use crate::error::{Error, ErrorKind};
use crate::format::{read_superblock, Superblock};
use crate::fsck;
use crate::journal;
use crate::journal::{EntryView, JournalEntry};
use crate::journal_codec;
use crate::journal_region;
use crate::journal_region::{load_journal_image, store_empty_journal_anchor};
use crate::journal_retained;
use crate::journal_retained::{load_retained_journal_entries, replace_retained_journal_entries};
use crate::recovery;
use crate::recovery::{plan_recovery, recover_journal, write_home_blocks, RecoveryReport};
use crate::recovery_projection;
use crate::recovery_projection::check_device_after_entries_projection;
use crate::step;
use crate::step::Step;
use crate::update;

verus! {

/// Emptying of the journal: nothing is written where it is empty already.
pub open spec fn checkpoint_step(disk: Disk, sb: Superblock) -> Step<bool> {
    match journal_region::image_on(disk, sb) {
        Ok(entries) => if entries.len() == 0 {
            step::stay(disk, Ok(false))
        } else {
            Step { disk: journal_region::emptied(disk, sb), result: Ok(true) }
        },
        Err(kind) => step::stay(disk, Err(kind)),
    }
}

/// Replay of the journal and its emptying.
#[verifier::opaque]
pub open spec fn settle_step(disk: Disk, sb: Superblock) -> Step<RecoveryReport> {
    match journal_region::image_on(disk, sb) {
        Ok(entries) => Step {
            disk: if entries.len() == 0 {
                disk
            } else {
                journal_region::emptied(
                    recovery::applied(disk, recovery::plan_of(entries).writes),
                    sb,
                )
            },
            result: Ok(recovery::report_of(entries)),
        },
        Err(kind) => step::stay(disk, Err(kind)),
    }
}

/// Replay and emptying keep what the file system holds, and leave an empty journal.
pub proof fn law_settle_keeps_home(disk: Disk, sb: Superblock)
    requires
        journal_region::image_on(disk, sb) is Ok,
    ensures
        settle_step(disk, sb).disk.len() == disk.len(),
        journal_region::home_of(settle_step(disk, sb).disk, sb) == journal_region::home_of(
            disk,
            sb,
        ),
        journal_region::image_on(settle_step(disk, sb).disk, sb) == Ok::<
            Seq<EntryView>,
            ErrorKind,
        >(Seq::empty()),
        forall|i: int|
            0 <= i < disk.len() && !(sb.journal_start <= i < sb.journal_start + sb.journal_blocks)
                ==> #[trigger] settle_step(disk, sb).disk[i] == journal_region::home_of(
                disk,
                sb,
            )->Some_0[i],
{
    reveal(settle_step);
    let entries = journal_region::image_on(disk, sb)->Ok_0;
    let writes = recovery::plan_of(entries).writes;
    journal_region::lemma_log_admissible(disk, sb);
    journal_region::lemma_plan_home(sb, entries);
    recovery::lemma_applied(disk, writes);
    let replayed = recovery::applied(disk, writes);
    let end = settle_step(disk, sb).disk;
    if entries.len() == 0 {
        assert(entries =~= Seq::<EntryView>::empty());
    } else {
        journal_region::lemma_emptied(end, sb);
    }
    assert(journal_region::outside_journal(end, sb) =~= journal_region::outside_journal(
        replayed,
        sb,
    ));
}

/// Where replay and emptying succeed they keep what the file system holds; where they do not they
/// leave the device alone.
pub broadcast proof fn lemma_settled(disk: Disk, sb: Superblock)
    ensures
        (#[trigger] settle_step(disk, sb)).result is Ok ==> {
            &&& sb.fits(disk)
            &&& settle_step(disk, sb).disk.len() == disk.len()
            &&& journal_region::home_of(settle_step(disk, sb).disk, sb) == journal_region::home_of(
                disk,
                sb,
            )
        },
        settle_step(disk, sb).result is Err ==> settle_step(disk, sb).disk == disk,
{
    reveal(settle_step);
    if journal_region::image_on(disk, sb) is Ok {
        law_settle_keeps_home(disk, sb);
    }
}

/// What a request does that replays and empties the journal first.
pub open spec fn settled_then<T>(disk: Disk, sb: Superblock, next: spec_fn(Disk) -> Step<T>) -> Step<T> {
    let s = settle_step(disk, sb);
    match s.result {
        Ok(_) => next(s.disk),
        Err(kind) => Step { disk: s.disk, result: Err(kind) },
    }
}

pub broadcast group group_settled {
    lemma_settled,
    lemma_checked_settled,
    journal_region::group_atomic,
}

/// Empties a journal that was fully processed; `false` where it is empty already.
pub fn checkpoint_journal<D: BlockDevice>(device: &mut D, superblock: Superblock) -> (r: Result<bool, Error>)
    ensures
        journal_region::carried_out(
            old(device),
            final(device),
            superblock,
            step::kinded(r),
            checkpoint_step(old(device).blocks(), superblock),
        ),
        journal_region::image_on(old(device).blocks(), superblock) matches Ok(log) && log.len() > 0
            || block::untouched(old(device), final(device)),
{
    proof {
        reveal(journal_region::atomic);
    }
    let entries = load_journal_image(device, superblock)?;
    if entries.is_empty() {
        return Ok(false);
    }
    store_empty_journal_anchor(device, superblock)?;
    Ok(true)
}

/// Replays the committed transactions of the journal, makes them durable, and only then empties
/// the journal.
pub fn recover_journal_and_checkpoint<D: BlockDevice>(device: &mut D, superblock: Superblock) -> (r: Result<RecoveryReport, Error>)
    ensures
        journal_region::carried_out(
            old(device),
            final(device),
            superblock,
            step::kinded(r),
            settle_step(old(device).blocks(), superblock),
        ),
{
    broadcast use journal_region::group_atomic;

    let ghost base = device.blocks();
    proof {
        reveal(settle_step);
        if let Ok(entries) = journal_region::image_on(base, superblock) {
            let writes = recovery::plan_of(entries).writes;
            journal_region::lemma_log_admissible(base, superblock);
            journal_region::lemma_plan_home(superblock, entries);
            recovery::lemma_applied(base, writes);
            journal_region::lemma_replay_home(base, recovery::applied(base, writes), superblock);
            law_settle_keeps_home(base, superblock);
            if entries.len() == 0 {
                assert(entries =~= Seq::<EntryView>::empty());
            }
        }
    }
    let report = recover_journal(device, superblock)?;
    checkpoint_journal(device, superblock)?;
    Ok(report)
}

/// Replay and emptying for callers that rely on the whole file system: refused where the
/// superblock is not the one on the device, and where the replayed file system would not pass a
/// strict inspection. Nothing is written in either case.
#[verifier::opaque]
pub open spec fn checked_settle_step(disk: Disk, sb: Superblock) -> Step<RecoveryReport> {
    match crate::format::superblock_on(disk) {
        None => step::stay(disk, Err(ErrorKind::InvalidData)),
        Some(durable) => if durable != sb {
            step::stay(disk, Err(ErrorKind::InvalidInput))
        } else {
            match journal_region::image_on(disk, sb) {
                Err(kind) => step::stay(disk, Err(kind)),
                Ok(entries) => if entries.len() == 0 {
                    step::stay(disk, Ok(recovery::no_recovery()))
                } else {
                    match fsck::checked(settle_step(disk, sb).disk) {
                        Err(kind) => step::stay(disk, Err(kind)),
                        Ok(_) => settle_step(disk, sb),
                    }
                },
            }
        },
    }
}

/// The same as without inspection: what the file system holds is kept, and a refusal writes nothing.
pub broadcast proof fn lemma_checked_settled(disk: Disk, sb: Superblock)
    ensures
        (#[trigger] checked_settle_step(disk, sb)).result is Ok ==> {
            &&& sb.fits(disk)
            &&& checked_settle_step(disk, sb).disk.len() == disk.len()
            &&& journal_region::home_of(checked_settle_step(disk, sb).disk, sb)
                == journal_region::home_of(disk, sb)
        },
        checked_settle_step(disk, sb).result is Err ==> checked_settle_step(disk, sb).disk == disk,
{
    reveal(checked_settle_step);
    lemma_settled(disk, sb);
}

/// What a request does that replays and empties the journal first, with inspection.
pub open spec fn checked_then<T>(disk: Disk, sb: Superblock, next: spec_fn(Disk) -> Step<T>) -> Step<T> {
    let s = checked_settle_step(disk, sb);
    match s.result {
        Ok(_) => next(s.disk),
        Err(kind) => Step { disk: s.disk, result: Err(kind) },
    }
}

/// Inspects what the replay of the journal would leave behind, and only then replays and empties
/// the journal.
pub fn recover_journal_and_checkpoint_checked<D: BlockDevice>(device: &mut D, superblock: Superblock) -> (r: Result<RecoveryReport, Error>)
    ensures
        old(device).blocks().len() > 0 ==> journal_region::carried_out(
            old(device),
            final(device),
            superblock,
            step::kinded(r),
            checked_settle_step(old(device).blocks(), superblock),
        ),
        old(device).blocks().len() == 0 ==> r is Err && block::untouched(
            old(device),
            final(device),
        ),
{
    broadcast use journal_region::group_atomic;

    let ghost base = device.blocks();
    proof {
        reveal(checked_settle_step);
    }
    let durable_superblock = read_superblock(device)?;
    if durable_superblock != superblock {
        return Err(
            Error::new(
                ErrorKind::InvalidInput,
                "checked recovery superblock does not match durable filesystem superblock",
            ),
        );
    }
    let entries = load_journal_image(device, superblock)?;
    if entries.is_empty() {
        return Ok(RecoveryReport::default());
    }
    proof {
        reveal(settle_step);
        journal_region::lemma_log_admissible(base, superblock);
        law_settle_keeps_home(base, superblock);
    }
    check_device_after_entries_projection(device, superblock, entries.as_slice())?;
    recover_journal_and_checkpoint(device, superblock)
}

/// What the replay of the front of a retained log did, and how many transactions are left.
#[derive(Clone, Copy, Debug, PartialEq, Eq, Structural)]
pub struct RetainedPrefixCheckpointReport {
    pub replayed: RecoveryReport,
    pub remaining_transactions: usize,
}

impl Default for RetainedPrefixCheckpointReport {
    fn default() -> (r: Self)
        ensures
            r.replayed == recovery::no_recovery(),
            r.remaining_transactions == 0,
    {
        RetainedPrefixCheckpointReport {
            replayed: RecoveryReport::default(),
            remaining_transactions: 0,
        }
    }
}

/// The shortest front of the log from `from` entries on that holds `count` whole transactions.
pub open spec fn front_with(entries: Seq<EntryView>, count: int, from: int) -> Option<int>
    decreases entries.len() + 1 - from,
{
    if from > entries.len() {
        None
    } else if recovery::plan_of(entries.subrange(0, from)).transactions == count {
        Some(from)
    } else {
        front_with(entries, count, from + 1)
    }
}

/// How many entries of a log its first `count` transactions take, or all transactions where there
/// are fewer; none where the log has no whole transaction, or too few and then an open one.
pub open spec fn prefix_end(entries: Seq<EntryView>, count: int) -> Option<int> {
    match front_with(entries, count, 0) {
        Some(end) => Some(end),
        None => if recovery::open_after(entries) == Some(None::<u64>) && recovery::plan_of(
            entries,
        ).transactions > 0 {
            Some(entries.len() as int)
        } else {
            None
        },
    }
}

/// Replay of the first `count` transactions of a retained log, of which the rest is then retained.
pub open spec fn prefix_step(disk: Disk, sb: Superblock, count: int) -> Step<RetainedPrefixCheckpointReport> {
    if count == 0 {
        step::stay(disk, Err(ErrorKind::InvalidInput))
    } else {
        match journal_retained::retained_on(disk, sb) {
            Err(kind) => step::stay(disk, Err(kind)),
            Ok(None) => step::stay(disk, Err(ErrorKind::InvalidInput)),
            Ok(Some(entries)) => match prefix_end(entries, count) {
                None => step::stay(disk, Err(ErrorKind::InvalidData)),
                Some(end) => {
                    let prefix = entries.subrange(0, end);
                    let suffix = entries.subrange(end, entries.len() as int);
                    match fsck::checked(recovery_projection::projected(disk, sb, prefix)) {
                        Err(kind) => step::stay(disk, Err(kind)),
                        Ok(_) => {
                            let left = journal_retained::retain_step(
                                recovery::applied(disk, recovery::plan_of(prefix).writes),
                                sb,
                                suffix,
                            );
                            Step {
                                disk: left.disk,
                                result: match left.result {
                                    Err(kind) => Err(kind),
                                    Ok(_) => Ok(
                                        RetainedPrefixCheckpointReport {
                                            replayed: recovery::report_of(prefix),
                                            remaining_transactions: recovery::plan_of(
                                                suffix,
                                            ).transactions as usize,
                                        },
                                    ),
                                },
                            }
                        },
                    }
                },
            },
        }
    }
}

proof fn lemma_closed(entries: Seq<EntryView>)
    requires
        recovery::open_after(entries) == Some(None::<u64>),
    ensures
        recovery::plan_of(entries).open.len() == 0,
{
}

/// A log in two parts of which the first is closed amounts to both of them in turn.
proof fn lemma_plan_split(prefix: Seq<EntryView>, suffix: Seq<EntryView>)
    requires
        recovery::open_after(prefix) == Some(None::<u64>),
    ensures
        recovery::open_after(prefix + suffix) == recovery::open_after(suffix),
        recovery::plan_of(prefix + suffix).writes == recovery::plan_of(prefix).writes
            + recovery::plan_of(suffix).writes,
        recovery::plan_of(prefix + suffix).open == recovery::plan_of(suffix).open,
        recovery::plan_of(prefix + suffix).transactions == recovery::plan_of(prefix).transactions
            + recovery::plan_of(suffix).transactions,
    decreases suffix.len(),
{
    lemma_closed(prefix);
    if suffix.len() == 0 {
        assert(prefix + suffix =~= prefix);
        assert(recovery::plan_of(prefix).open =~= recovery::plan_of(suffix).open);
        assert(recovery::plan_of(prefix).writes =~= recovery::plan_of(prefix).writes
            + recovery::plan_of(suffix).writes);
    } else {
        lemma_plan_split(prefix, suffix.drop_last());
        assert((prefix + suffix).drop_last() =~= prefix + suffix.drop_last());
        assert((prefix + suffix).last() == suffix.last());
        assert(recovery::plan_of(prefix + suffix).writes =~= recovery::plan_of(prefix).writes
            + recovery::plan_of(suffix).writes);
    }
}

/// The same where the whole log is known to be in order: what is added to a log in order starts a
/// transaction of its own only where none is open.
pub proof fn lemma_plan_joined(prefix: Seq<EntryView>, suffix: Seq<EntryView>)
    requires
        recovery::open_after(prefix + suffix) is Some,
        suffix.len() > 0,
        suffix[0] is Begin,
    ensures
        recovery::open_after(prefix) == Some(None::<u64>),
        recovery::plan_of(prefix + suffix).writes == recovery::plan_of(prefix).writes
            + recovery::plan_of(suffix).writes,
{
    let all = prefix + suffix;
    let n = prefix.len() as int;
    assert(all.subrange(0, n) =~= prefix);
    assert(all.subrange(0, n + 1).drop_last() =~= prefix);
    assert(all.subrange(0, n + 1).last() == suffix[0]);
    if recovery::open_after(all.subrange(0, n + 1)) is None {
        recovery::lemma_open_prefix(all, n + 1);
    }
    lemma_plan_split(prefix, suffix);
}

proof fn lemma_front_closed(entries: Seq<EntryView>, count: int, from: int)
    requires
        recovery::open_after(entries) is Some,
        0 <= from <= entries.len(),
        recovery::plan_of(entries.subrange(0, from)).transactions != count,
    ensures
        front_with(entries, count, from) matches Some(end) ==> from < end <= entries.len()
            && recovery::open_after(entries.subrange(0, end)) == Some(None::<u64>),
    decreases entries.len() - from,
{
    reveal_with_fuel(front_with, 3);
    if from < entries.len() {
        let next = entries.subrange(0, from + 1);
        assert(next.drop_last() =~= entries.subrange(0, from));
        if recovery::plan_of(next).transactions == count {
            if recovery::open_after(next) is None {
                recovery::lemma_open_prefix(entries, from + 1);
            }
        } else {
            lemma_front_closed(entries, count, from + 1);
        }
    }
}

/// The first part of a log that `prefix_end` cuts is closed, and both parts may stand in a journal.
proof fn lemma_prefix_parts(sb: Superblock, entries: Seq<EntryView>, count: int)
    requires
        count > 0,
        journal_region::admissible(sb, entries),
    ensures
        prefix_end(entries, count) matches Some(end) ==> {
            let prefix = entries.subrange(0, end);
            let suffix = entries.subrange(end, entries.len() as int);
            &&& 0 <= end <= entries.len()
            &&& recovery::open_after(prefix) == Some(None::<u64>)
            &&& journal_region::admissible(sb, prefix)
            &&& journal_region::admissible(sb, suffix)
            &&& prefix + suffix == entries
        },
{
    assert(recovery::plan_of(entries.subrange(0, 0)).transactions == 0);
    lemma_front_closed(entries, count, 0);
    if let Some(end) = prefix_end(entries, count) {
        let prefix = entries.subrange(0, end);
        let suffix = entries.subrange(end, entries.len() as int);
        assert(entries.subrange(0, entries.len() as int) =~= entries);
        assert(prefix + suffix =~= entries);
        lemma_plan_split(prefix, suffix);
        assert forall|i: int| 0 <= i < prefix.len() implies (#[trigger] prefix[i] matches EntryView::Write {
            txid,
            block,
            data,
        } ==> journal_region::is_home(sb, block)) by {
            assert(entries[i] == prefix[i]);
        }
        assert forall|i: int| 0 <= i < suffix.len() implies (#[trigger] suffix[i] matches EntryView::Write {
            txid,
            block,
            data,
        } ==> journal_region::is_home(sb, block)) by {
            assert(entries[end + i] == suffix[i]);
        }
    }
}

/// Writing the blocks of the front of a retained log home, all or some of them, changes nothing of
/// what the file system holds.
proof fn lemma_prefix_home(disk: Disk, image: Disk, sb: Superblock, count: int)
    requires
        count > 0,
        journal_retained::retained_on(disk, sb) matches Ok(Some(entries)) && prefix_end(
            entries,
            count,
        ) matches Some(end) && forall|i: int|
            0 <= i < disk.len() && !recovery::targets(
                recovery::plan_of(entries.subrange(0, end)).writes,
                i,
            ) ==> #[trigger] image[i] == disk[i],
        image.len() == disk.len(),
    ensures
        journal_retained::held_by(image, sb) == journal_retained::held_by(disk, sb),
        journal_retained::retained_on(image, sb) == journal_retained::retained_on(disk, sb),
{
    let entries = journal_retained::retained_log(disk, sb)->Some_0;
    let end = prefix_end(entries, count)->Some_0;
    let prefix = entries.subrange(0, end);
    let suffix = entries.subrange(end, entries.len() as int);
    let writes = recovery::plan_of(entries).writes;
    let first = recovery::plan_of(prefix).writes;
    journal_retained::lemma_retained_admissible(disk, sb);
    lemma_prefix_parts(sb, entries, count);
    lemma_plan_split(prefix, suffix);
    journal_region::lemma_plan_home(sb, entries);
    journal_region::lemma_plan_home(sb, prefix);
    assert forall|i: int| 0 <= i < disk.len() && !recovery::targets(writes, i) implies #[trigger] image[i]
        == disk[i] by {
        if recovery::targets(first, i) {
            let k = choose|k: int| 0 <= k < first.len() && (#[trigger] first[k]).0 == i;
            assert(writes[k] == first[k]);
        }
    }
    assert forall|i: int|
        sb.journal_start <= i < sb.journal_start + sb.journal_blocks implies #[trigger] image[i]
        == disk[i] by {
        if recovery::targets(first, i) {
            let k = choose|k: int| 0 <= k < first.len() && (#[trigger] first[k]).0 == i;
            assert(journal_region::is_home(sb, first[k].0));
        }
    }
    journal_retained::lemma_bank_place(sb, journal_retained::active_bank(disk, sb));
    journal_retained::lemma_retained_agree(image, disk, sb);
    recovery::lemma_applied_agree(image, disk, writes);
}

/// Replaying the front of a retained log keeps what the file system holds.
pub proof fn law_prefix_keeps_held(disk: Disk, sb: Superblock, count: int)
    requires
        prefix_step(disk, sb, count).result is Ok,
        count > 0,
    ensures
        journal_retained::held_by(prefix_step(disk, sb, count).disk, sb)
            == journal_retained::held_by(disk, sb),
{
    let entries = journal_retained::retained_log(disk, sb)->Some_0;
    let end = prefix_end(entries, count)->Some_0;
    let prefix = entries.subrange(0, end);
    let suffix = entries.subrange(end, entries.len() as int);
    let home = recovery::applied(disk, recovery::plan_of(prefix).writes);
    journal_retained::lemma_retained_admissible(disk, sb);
    lemma_prefix_parts(sb, entries, count);
    lemma_plan_split(prefix, suffix);
    update::lemma_applied_concat(
        disk,
        recovery::plan_of(prefix).writes,
        recovery::plan_of(suffix).writes,
    );
    assert forall|i: int| 0 <= i < suffix.len() implies journal_codec::whole(#[trigger] suffix[i]) by {
        assert(entries[end + i] == suffix[i]);
    }
    journal_retained::law_retain(home, sb, suffix);
}

/// Finds where the first transactions of a log end.
fn find_prefix_end(entries: &[JournalEntry], count: usize) -> (r: Option<usize>)
    requires
        count > 0,
        recovery::open_after(journal::entry_views(entries@)) is Some,
    ensures
        match r {
            Some(end) => prefix_end(journal::entry_views(entries@), count as int) == Some(
                end as int,
            ) && end <= entries@.len(),
            None => prefix_end(journal::entry_views(entries@), count as int) is None,
        },
{
    let ghost views = journal::entry_views(entries@);
    let mut committed: usize = 0;
    let mut open: bool = false;
    let mut i: usize = 0;
    assert(recovery::plan_of(views.subrange(0, 0)).transactions == 0);
    while i < entries.len()
        invariant
            i <= entries@.len(),
            count > 0,
            views == journal::entry_views(entries@),
            recovery::open_after(views) is Some,
            committed == recovery::plan_of(views.subrange(0, i as int)).transactions,
            committed <= i,
            recovery::open_after(views.subrange(0, i as int)) matches Some(active) && open
                == active is Some,
            committed != count,
            front_with(views, count as int, 0) == front_with(views, count as int, i as int),
        decreases entries@.len() - i,
    {
        proof {
            let next = views.subrange(0, i + 1);
            assert(next.drop_last() =~= views.subrange(0, i as int));
            assert(next.last() == entries@[i as int]@);
            if recovery::open_after(next) is None {
                recovery::lemma_open_prefix(views, i + 1);
            }
        }
        match &entries[i] {
            JournalEntry::Begin { txid } => {
                open = true;
            },
            JournalEntry::Write { txid, block, data } => {},
            JournalEntry::Commit { txid } => {
                open = false;
                committed += 1;
            },
        }
        i += 1;
        if committed == count {
            return Some(i);
        }
    }
    proof {
        reveal_with_fuel(front_with, 3);
        assert(views.subrange(0, views.len() as int) =~= views);
        assert(i == views.len());
    }
    if open || committed == 0 {
        None
    } else {
        Some(entries.len())
    }
}

/// Replays the first transactions of a retained log, at most `max_transactions`, and retains the
/// rest. What the replay would leave behind must pass a strict inspection.
pub fn recover_retained_prefix_and_checkpoint<D: BlockDevice>(device: &mut D, superblock: Superblock, max_transactions: usize) -> (r: Result<RetainedPrefixCheckpointReport, Error>)
    ensures
        step::follows(
            old(device),
            final(device),
            step::kinded(r),
            prefix_step(old(device).blocks(), superblock, max_transactions as int),
        ),
        journal_retained::safely(
            old(device),
            final(device),
            superblock,
            r is Ok,
            old(device).blocks(),
        ),
        step::turned_away(
            old(device),
            final(device),
            step::kinded(r),
            max_transactions == 0,
        ),
{
    let ghost base = device.blocks();
    if max_transactions == 0 {
        return Err(
            Error::new(
                ErrorKind::InvalidInput,
                "retained prefix checkpoint requires at least one transaction",
            ),
        );
    }
    let entries = match load_retained_journal_entries(device, superblock)? {
        Some(entries) => entries,
        None => return Err(
            Error::new(
                ErrorKind::InvalidInput,
                "retained prefix checkpoint requires a retained journal",
            ),
        ),
    };
    let ghost views = journal::entry_views(entries@);
    proof {
        journal_retained::lemma_retained_admissible(base, superblock);
        lemma_prefix_parts(superblock, views, max_transactions as int);
    }
    let end: usize = match find_prefix_end(entries.as_slice(), max_transactions) {
        Some(end) => end,
        None => return Err(
            Error::new(
                ErrorKind::InvalidData,
                "retained journal has no complete transaction or ends inside one",
            ),
        ),
    };
    let prefix: &[JournalEntry] = slice_subrange(entries.as_slice(), 0, end);
    let suffix: &[JournalEntry] = slice_subrange(entries.as_slice(), end, entries.len());
    assert(journal::entry_views(prefix@) =~= views.subrange(0, end as int));
    assert(journal::entry_views(suffix@) =~= views.subrange(end as int, views.len() as int));
    check_device_after_entries_projection(device, superblock, prefix)?;
    let plan = plan_recovery(prefix)?;
    let ghost first = recovery::plan_of(views.subrange(0, end as int)).writes;
    proof {
        journal_region::lemma_plan_home(superblock, views.subrange(0, end as int));
        recovery::lemma_plan_size(views.subrange(0, end as int));
        recovery::lemma_applied(base, first);
    }
    let writes = plan.writes();
    assert(writes@.len() == recovery::write_views(writes@).len());
    let written = write_home_blocks(device, writes);
    proof {
        if block::settled(old(device)) {
            assert forall|image: Disk| #[trigger]
                device.durable().contains(image) implies journal_retained::held_by(
                image,
                superblock,
            ) == journal_retained::held_by(base, superblock) by {
                lemma_prefix_home(base, image, superblock, max_transactions as int);
            }
        }
        lemma_prefix_home(
            base,
            recovery::applied(base, first),
            superblock,
            max_transactions as int,
        );
    }
    match written {
        Ok(_) => {},
        Err(e) => return Err(e),
    }
    let replayed = plan.report();
    if replayed.home_writes != 0 {
        device.flush()?;
    } else {
        assert(first.len() == 0);
    }
    proof {
        if prefix_step(base, superblock, max_transactions as int).result is Ok {
            law_prefix_keeps_held(base, superblock, max_transactions as int);
        }
    }
    replace_retained_journal_entries(device, superblock, suffix)?;
    let left = plan_recovery(suffix)?;
    Ok(
        RetainedPrefixCheckpointReport {
            replayed,
            remaining_transactions: left.report().committed_transactions,
        },
    )
}

/// On an empty journal a request that settles first is the request alone.
pub proof fn law_settled_then<T>(disk: Disk, sb: Superblock, next: spec_fn(Disk) -> Step<T>)
    requires
        journal_region::image_on(disk, sb) == Ok::<Seq<EntryView>, ErrorKind>(Seq::empty()),
    ensures
        settled_then(disk, sb, next) == next(disk),
{
    reveal(settle_step);
}

/// Replay and emptying leave the superblock alone.
pub proof fn lemma_settle_superblock(disk: Disk, sb: Superblock)
    requires
        crate::format::superblock_on(disk) == Some(sb),
        journal_region::image_on(disk, sb) is Ok,
    ensures
        crate::format::superblock_on(settle_step(disk, sb).disk) == Some(sb),
{
    let entries = journal_region::image_on(disk, sb)->Ok_0;
    let writes = recovery::plan_of(entries).writes;
    law_settle_keeps_home(disk, sb);
    journal_region::lemma_log_admissible(disk, sb);
    journal_region::lemma_plan_home(sb, entries);
    recovery::lemma_applied(disk, writes);
    if recovery::targets(writes, 0) {
        let k = choose|k: int| 0 <= k < writes.len() && (#[trigger] writes[k]).0 == 0;
        assert(journal_region::is_home(sb, writes[k].0));
    }
    assert(settle_step(disk, sb).disk[0] == disk[0]);
}

/// Emptying the journal answers whether there was a log. It rewrites the anchor block alone, and
/// nothing where the journal is empty; a second one finds it empty.
pub proof fn law_checkpoint(disk: Disk, sb: Superblock)
    requires
        journal_region::image_on(disk, sb) is Ok,
    ensures
        ({
            let log = journal_region::image_on(disk, sb)->Ok_0;
            let s = checkpoint_step(disk, sb);
            &&& s.result == Ok::<bool, ErrorKind>(log.len() > 0)
            &&& log.len() == 0 ==> s.disk == disk
            &&& s.disk.len() == disk.len()
            &&& forall|i: int|
                0 <= i < disk.len() && i != sb.journal_start ==> #[trigger] s.disk[i] == disk[i]
            &&& journal_region::image_on(s.disk, sb) == Ok::<Seq<EntryView>, ErrorKind>(
                Seq::empty(),
            )
            &&& checkpoint_step(s.disk, sb) == step::stay(s.disk, Ok::<bool, ErrorKind>(false))
        }),
{
    let log = journal_region::image_on(disk, sb)->Ok_0;
    if log.len() == 0 {
        assert(log =~= Seq::<EntryView>::empty());
    } else {
        journal_region::lemma_emptied(journal_region::emptied(disk, sb), sb);
    }
}

/// A device whose journal is empty is settled as it is, with and without inspection.
pub proof fn lemma_settled_already(disk: Disk, sb: Superblock)
    requires
        journal_region::image_on(disk, sb) == Ok::<Seq<EntryView>, ErrorKind>(Seq::empty()),
    ensures
        settle_step(disk, sb) == step::stay(
            disk,
            Ok::<RecoveryReport, ErrorKind>(recovery::no_recovery()),
        ),
        crate::format::superblock_on(disk) == Some(sb) ==> checked_settle_step(disk, sb)
            == step::stay(disk, Ok::<RecoveryReport, ErrorKind>(recovery::no_recovery())),
{
    reveal(settle_step);
    reveal(checked_settle_step);
}

} // verus!
