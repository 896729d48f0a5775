//! One transaction from log to home blocks.

use vstd::prelude::*;
use crate::block::{Block, BlockDevice, Disk, BLOCK_SIZE};
use crate::error::Error;
use crate::format::Superblock;
use crate::journal::{EntryView, JournalLog};
use crate::journal_region;
use crate::journal_checkpoint;
use crate::journal_checkpoint::recover_journal_and_checkpoint;
use crate::journal_region::store_journal_image;
use crate::recovery;
use crate::recovery::{recover_journal, HomeWrite, RecoveryReport};
use crate::step;
use crate::step::Step;

verus! {

/// The writes of transaction one as log entries.
pub open spec fn write_entries(writes: Seq<HomeWrite>) -> Seq<EntryView> {
    Seq::new(
        writes.len(),
        |i: int| EntryView::Write { txid: 1, block: writes[i].0, data: writes[i].1 },
    )
}

/// The log of a single committed transaction.
pub open spec fn transaction_log(writes: Seq<HomeWrite>) -> Seq<EntryView> {
    (seq![EntryView::Begin { txid: 1 }] + write_entries(writes)).push(EntryView::Commit { txid: 1 })
}

/// The report of a single transaction.
pub open spec fn single_report(writes: Seq<HomeWrite>) -> RecoveryReport {
    RecoveryReport { committed_transactions: 1, home_writes: writes.len() as usize }
}

/// One transaction: its log is published, then its writes reach their home blocks. The log stays
/// in the journal until it is checkpointed.
#[verifier::opaque]
pub open spec fn commit_step(disk: Disk, sb: Superblock, writes: Seq<HomeWrite>) -> Step<RecoveryReport> {
    let stored = journal_region::store_step(disk, sb, transaction_log(writes));
    match stored.result {
        Ok(_) => Step {
            disk: recovery::applied(stored.disk, writes),
            result: Ok(single_report(writes)),
        },
        Err(kind) => Step { disk: stored.disk, result: Err(kind) },
    }
}

proof fn lemma_open_log(writes: Seq<HomeWrite>)
    ensures
        ({
            let log = seq![EntryView::Begin { txid: 1 }] + write_entries(writes);
            &&& recovery::open_after(log) == Some(Some(1u64))
            &&& recovery::plan_of(log).open == writes
            &&& recovery::plan_of(log).writes == Seq::<HomeWrite>::empty()
            &&& recovery::plan_of(log).transactions == 0
        }),
    decreases writes.len(),
{
    let log = seq![EntryView::Begin { txid: 1 }] + write_entries(writes);
    if writes.len() == 0 {
        assert(log.drop_last() =~= Seq::<EntryView>::empty());
        assert(recovery::open_after(log.drop_last()) == Some(None::<u64>));
        let nothing = recovery::plan_of(log.drop_last());
        assert(nothing.writes =~= Seq::<HomeWrite>::empty() && nothing.transactions == 0);
        assert(log.last() == (EntryView::Begin { txid: 1 }));
        assert(recovery::plan_of(log).open =~= writes);
    } else {
        lemma_open_log(writes.drop_last());
        assert(log.drop_last() =~= seq![EntryView::Begin { txid: 1 }] + write_entries(
            writes.drop_last(),
        ));
        assert(recovery::plan_of(log).open =~= writes);
    }
}

/// The log of a transaction is in order, and replaying it is doing its writes.
pub proof fn lemma_transaction_log(sb: Superblock, writes: Seq<HomeWrite>)
    ensures
        recovery::open_after(transaction_log(writes)) is Some,
        recovery::plan_of(transaction_log(writes)).writes == writes,
        recovery::plan_of(transaction_log(writes)).transactions == 1,
        journal_region::home_only(sb, transaction_log(writes)) == (forall|k: int|
            0 <= k < writes.len() ==> journal_region::is_home(sb, (#[trigger] writes[k]).0)),
        (forall|k: int| 0 <= k < writes.len() ==> (#[trigger] writes[k]).1.len() == BLOCK_SIZE)
            ==> forall|i: int|
            0 <= i < transaction_log(writes).len() ==> crate::journal_codec::whole(
                #[trigger] transaction_log(writes)[i],
            ),
{
    let log = transaction_log(writes);
    lemma_open_log(writes);
    assert(log.drop_last() =~= seq![EntryView::Begin { txid: 1 }] + write_entries(writes));
    assert(recovery::plan_of(log).writes =~= writes);
    if journal_region::home_only(sb, log) {
        assert forall|k: int| 0 <= k < writes.len() implies journal_region::is_home(
            sb,
            (#[trigger] writes[k]).0,
        ) by {
            assert(log[k + 1] == write_entries(writes)[k]);
        }
    }
    if forall|k: int|
        0 <= k < writes.len() ==> journal_region::is_home(sb, (#[trigger] writes[k]).0) {
        assert forall|i: int| 0 <= i < log.len() implies (#[trigger] log[i] matches EntryView::Write {
            txid,
            block,
            data,
        } ==> journal_region::is_home(sb, block)) by {
            if 0 < i < log.len() - 1 {
                assert(log[i] == write_entries(writes)[i - 1]);
                assert(journal_region::is_home(sb, writes[i - 1].0));
            }
        }
    }
    if forall|k: int| 0 <= k < writes.len() ==> (#[trigger] writes[k]).1.len() == BLOCK_SIZE {
        assert forall|i: int| 0 <= i < log.len() implies crate::journal_codec::whole(
            #[trigger] log[i],
        ) by {
            if 0 < i < log.len() - 1 {
                assert(log[i] == write_entries(writes)[i - 1]);
                assert(writes[i - 1].1.len() == BLOCK_SIZE);
            }
        }
    }
}

/// What a committed transaction leaves behind: its log in the journal, its writes applied, and
/// all other blocks as they were.
pub proof fn law_commit(disk: Disk, sb: Superblock, writes: Seq<HomeWrite>)
    requires
        commit_step(disk, sb, writes).result is Ok,
        forall|k: int| 0 <= k < writes.len() ==> (#[trigger] writes[k]).1.len() == BLOCK_SIZE,
    ensures
        sb.fits(disk),
        commit_step(disk, sb, writes).disk.len() == disk.len(),
        journal_region::log_on(commit_step(disk, sb, writes).disk, sb) == Some(
            transaction_log(writes),
        ),
        journal_region::home_of(commit_step(disk, sb, writes).disk, sb)
            == journal_region::home_of(
            journal_region::store_step(disk, sb, transaction_log(writes)).disk,
            sb,
        ),
        forall|i: int|
            0 <= i < disk.len() && !(sb.journal_start <= i < sb.journal_start + sb.journal_blocks)
                ==> #[trigger] commit_step(disk, sb, writes).disk[i] == recovery::applied(
                disk,
                writes,
            )[i],
{
    reveal(commit_step);
    let log = transaction_log(writes);
    let stored = journal_region::store_step(disk, sb, log).disk;
    let end = commit_step(disk, sb, writes).disk;
    lemma_transaction_log(sb, writes);
    lemma_stored_log(disk, sb, writes);
    recovery::lemma_applied(stored, writes);
    recovery::lemma_applied(disk, writes);
    journal_region::lemma_replay_home(stored, end, sb);
    lemma_applied_beside(disk, stored, writes, sb);
}

/// Writes do the same to disks that differ in the journal only.
pub proof fn lemma_applied_beside(a: Disk, b: Disk, writes: Seq<HomeWrite>, sb: Superblock)
    requires
        a.len() == b.len(),
        forall|k: int| 0 <= k < writes.len() ==> (#[trigger] writes[k]).0 < a.len(),
        forall|i: int|
            0 <= i < a.len() && !(sb.journal_start <= i < sb.journal_start + sb.journal_blocks)
                ==> #[trigger] a[i] == b[i],
    ensures
        recovery::applied(a, writes).len() == a.len(),
        recovery::applied(b, writes).len() == b.len(),
        forall|i: int|
            0 <= i < a.len() && !(sb.journal_start <= i < sb.journal_start + sb.journal_blocks)
                ==> #[trigger] recovery::applied(a, writes)[i] == recovery::applied(b, writes)[i],
    decreases writes.len(),
{
    if writes.len() > 0 {
        assert(forall|k: int| 0 <= k < writes.len() - 1 ==> #[trigger] writes.drop_last()[k] == writes[k]);
        assert(writes.last() == writes[writes.len() - 1]);
        lemma_applied_beside(a, b, writes.drop_last(), sb);
    }
}

proof fn lemma_block_writes(changed: Seq<(u64, Block)>)
    ensures
        forall|i: int|
            0 <= i < changed.len() ==> (#[trigger] recovery::write_views(changed)[i]).1.len()
                == BLOCK_SIZE,
{
    assert forall|i: int| 0 <= i < changed.len() implies (#[trigger] recovery::write_views(
        changed,
    )[i]).1.len() == BLOCK_SIZE by {
        assert(changed[i].1@.len() == BLOCK_SIZE);
    }
}

/// A log that was stored stands in the journal.
pub proof fn lemma_stored_log(disk: Disk, sb: Superblock, writes: Seq<HomeWrite>)
    requires
        journal_region::store_step(disk, sb, transaction_log(writes)).result is Ok,
        forall|k: int| 0 <= k < writes.len() ==> (#[trigger] writes[k]).1.len() == BLOCK_SIZE,
    ensures
        journal_region::log_on(
            journal_region::store_step(disk, sb, transaction_log(writes)).disk,
            sb,
        ) == Some(transaction_log(writes)),
{
    let log = transaction_log(writes);
    let stored = journal_region::store_step(disk, sb, log).disk;
    let image = journal_region::active_region(sb, log);
    lemma_transaction_log(sb, writes);
    assert forall|k: int|
        0 <= k < sb.journal_blocks implies #[trigger] stored[sb.journal_start + k]
        == crate::region::chunk(image, k) by {}
    journal_region::lemma_published(stored, sb, log);
}

/// Builds the log of one transaction.
pub(crate) fn log_blocks(changed: &[(u64, Block)]) -> (r: Result<JournalLog, Error>)
    ensures
        r matches Ok(log) && log.log() == transaction_log(recovery::write_views(changed@)),
{
    let ghost writes = recovery::write_views(changed@);
    let mut log = JournalLog::new();
    let txid: u64 = log.begin()?;
    let mut k: usize = 0;
    assert(log.log() =~= seq![EntryView::Begin { txid: 1 }] + write_entries(
        writes.subrange(0, 0),
    ));
    while k < changed.len()
        invariant
            k <= changed@.len(),
            txid == 1,
            writes == recovery::write_views(changed@),
            log.open_txid() == Some(txid),
            log.log() == seq![EntryView::Begin { txid: 1 }] + write_entries(
                writes.subrange(0, k as int),
            ),
        decreases changed@.len() - k,
    {
        log.write(txid, changed[k].0, changed[k].1)?;
        assert(log.log() =~= seq![EntryView::Begin { txid: 1 }] + write_entries(
            writes.subrange(0, k + 1),
        ));
        k += 1;
    }
    log.commit(txid)?;
    assert(writes.subrange(0, writes.len() as int) =~= writes);
    assert(log.log() =~= transaction_log(writes));
    Ok(log)
}

/// Carries one transaction out: the log is published, the writes reach their home blocks, and
/// both are durable on return.
pub fn commit_blocks<D: BlockDevice>(device: &mut D, superblock: Superblock, changed: &[(u64, Block)]) -> (r: Result<RecoveryReport, Error>)
    ensures
        journal_region::carried_out(
            old(device),
            final(device),
            superblock,
            step::kinded(r),
            commit_step(old(device).blocks(), superblock, recovery::write_views(changed@)),
        ),
{
    broadcast use journal_region::group_atomic;

    let ghost base = device.blocks();
    let ghost writes = recovery::write_views(changed@);
    let ghost stored = journal_region::store_step(base, superblock, transaction_log(writes));
    let log = log_blocks(changed)?;
    proof {
        reveal(commit_step);
        reveal(commit_settled_step);
        lemma_block_writes(changed@);
        lemma_transaction_log(superblock, writes);
        if stored.result is Ok {
            law_commit(base, superblock, writes);
            lemma_stored_log(base, superblock, writes);
        }
    }
    store_journal_image(device, superblock, log.entries())?;
    recover_journal(device, superblock)
}

/// One transaction whose log is taken out of the journal once its writes are home.
#[verifier::opaque]
pub open spec fn commit_settled_step(disk: Disk, sb: Superblock, writes: Seq<HomeWrite>) -> Step<RecoveryReport> {
    let stored = journal_region::store_step(disk, sb, transaction_log(writes));
    match stored.result {
        Ok(_) => Step {
            disk: journal_region::emptied(recovery::applied(stored.disk, writes), sb),
            result: Ok(single_report(writes)),
        },
        Err(kind) => Step { disk: stored.disk, result: Err(kind) },
    }
}

/// What a transaction leaves behind once its log is gone: its writes applied, all other blocks as
/// they were, and an empty journal.
pub proof fn law_commit_settled(disk: Disk, sb: Superblock, writes: Seq<HomeWrite>)
    requires
        commit_settled_step(disk, sb, writes).result is Ok,
        forall|k: int| 0 <= k < writes.len() ==> (#[trigger] writes[k]).1.len() == BLOCK_SIZE,
    ensures
        sb.fits(disk),
        commit_settled_step(disk, sb, writes).disk.len() == disk.len(),
        journal_region::log_on(commit_settled_step(disk, sb, writes).disk, sb) == Some(
            Seq::<EntryView>::empty(),
        ),
        journal_region::home_of(commit_settled_step(disk, sb, writes).disk, sb)
            == journal_region::home_of(
            journal_region::store_step(disk, sb, transaction_log(writes)).disk,
            sb,
        ),
        forall|i: int|
            0 <= i < disk.len() && !(sb.journal_start <= i < sb.journal_start + sb.journal_blocks)
                ==> #[trigger] commit_settled_step(disk, sb, writes).disk[i] == recovery::applied(
                disk,
                writes,
            )[i],
{
    reveal(commit_step);
    reveal(commit_settled_step);
    law_commit(disk, sb, writes);
    let stored = journal_region::store_step(disk, sb, transaction_log(writes)).disk;
    let replayed = commit_step(disk, sb, writes).disk;
    let end = commit_settled_step(disk, sb, writes).disk;
    journal_region::lemma_emptied(end, sb);
    lemma_transaction_log(sb, writes);
    recovery::lemma_applied_twice(stored, writes);
    assert(journal_region::home_of(replayed, sb) == Some(
        journal_region::outside_journal(recovery::applied(replayed, writes), sb),
    ));
    assert(journal_region::outside_journal(end, sb) =~= journal_region::outside_journal(
        replayed,
        sb,
    ));
}

/// Carries one transaction out and then empties the journal.
pub fn commit_blocks_and_checkpoint<D: BlockDevice>(device: &mut D, superblock: Superblock, changed: &[(u64, Block)]) -> (r: Result<RecoveryReport, Error>)
    ensures
        journal_region::carried_out(
            old(device),
            final(device),
            superblock,
            step::kinded(r),
            commit_settled_step(old(device).blocks(), superblock, recovery::write_views(changed@)),
        ),
{
    broadcast use journal_region::group_atomic;

    let ghost base = device.blocks();
    let ghost writes = recovery::write_views(changed@);
    let ghost stored = journal_region::store_step(base, superblock, transaction_log(writes));
    let log = log_blocks(changed)?;
    proof {
        reveal(commit_step);
        reveal(commit_settled_step);
        lemma_block_writes(changed@);
        lemma_transaction_log(superblock, writes);
        if stored.result is Ok {
            law_commit_settled(base, superblock, writes);
            lemma_stored_log(base, superblock, writes);
            reveal(journal_checkpoint::settle_step);
            journal_checkpoint::law_settle_keeps_home(stored.disk, superblock);
        }
    }
    store_journal_image(device, superblock, log.entries())?;
    recover_journal_and_checkpoint(device, superblock)
}

/// A transaction reports what a replay of its log would: one transaction and each of its writes.
pub proof fn law_commit_report(disk: Disk, sb: Superblock, writes: Seq<HomeWrite>)
    ensures
        commit_step(disk, sb, writes).result matches Ok(report) ==> report == recovery::report_of(
            transaction_log(writes),
        ) && report.committed_transactions == 1,
        commit_settled_step(disk, sb, writes).result matches Ok(report) ==> report
            == recovery::report_of(transaction_log(writes)) && report.committed_transactions == 1,
{
    reveal(commit_step);
    reveal(commit_settled_step);
    lemma_transaction_log(sb, writes);
}

} // verus!
