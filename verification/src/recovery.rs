//! Replay of committed transactions.

use vstd::prelude::*;
use crate::block;
use crate::block::{Block, BlockDevice, Disk};
use crate::error::{Error, ErrorKind};
use crate::journal;
use crate::format::Superblock;
use crate::journal::{EntryView, JournalEntry};
use crate::journal_region;
use crate::journal_region::load_journal_image;
use crate::step;
use crate::step::Step;

verus! {

/// A block number and the contents that go there.
pub type HomeWrite = (u64, Seq<u8>);

/// What a replay did.
#[derive(Clone, Copy, Debug, PartialEq, Eq, Structural)]
pub struct RecoveryReport {
    pub committed_transactions: usize,
    pub home_writes: usize,
}

impl Default for RecoveryReport {
    fn default() -> (r: Self)
        ensures
            r == no_recovery(),
    {
        RecoveryReport { committed_transactions: 0, home_writes: 0 }
    }
}

/// The report of a replay that found nothing.
pub open spec fn no_recovery() -> RecoveryReport {
    RecoveryReport { committed_transactions: 0, home_writes: 0 }
}

/// The open transaction after a list of entries, or none at all where they are out of order: a
/// transaction inside another, or a write or commit that belongs to no open transaction.
pub open spec fn open_after(entries: Seq<EntryView>) -> Option<Option<u64>>
    decreases entries.len(),
{
    if entries.len() == 0 {
        Some(None)
    } else {
        match open_after(entries.drop_last()) {
            None => None,
            Some(open) => match entries.last() {
                EntryView::Begin { txid } => if open is None {
                    Some(Some(txid))
                } else {
                    None
                },
                EntryView::Write { txid, block, data } => if open == Some(txid) {
                    Some(open)
                } else {
                    None
                },
                EntryView::Commit { txid } => if open == Some(txid) {
                    Some(None)
                } else {
                    None
                },
            },
        }
    }
}

/// What a list of entries amounts to: the writes of its committed transactions in order, their
/// number, and the writes of the transaction that is still open.
pub struct PlanView {
    pub writes: Seq<HomeWrite>,
    pub transactions: nat,
    pub open: Seq<HomeWrite>,
}

pub open spec fn plan_of(entries: Seq<EntryView>) -> PlanView
    decreases entries.len(),
{
    if entries.len() == 0 {
        PlanView { writes: Seq::empty(), transactions: 0, open: Seq::empty() }
    } else {
        let before = plan_of(entries.drop_last());
        match entries.last() {
            EntryView::Begin { txid } => PlanView { open: Seq::empty(), ..before },
            EntryView::Write { txid, block, data } => PlanView {
                open: before.open.push((block, data)),
                ..before
            },
            EntryView::Commit { txid } => PlanView {
                writes: before.writes + before.open,
                transactions: before.transactions + 1,
                open: Seq::empty(),
            },
        }
    }
}

/// The report of replaying a list of entries.
pub open spec fn report_of(entries: Seq<EntryView>) -> RecoveryReport {
    RecoveryReport {
        committed_transactions: plan_of(entries).transactions as usize,
        home_writes: plan_of(entries).writes.len() as usize,
    }
}

/// `disk` after these writes, in order.
pub open spec fn applied(disk: Disk, writes: Seq<HomeWrite>) -> Disk
    decreases writes.len(),
{
    if writes.len() == 0 {
        disk
    } else {
        applied(disk, writes.drop_last()).update(writes.last().0 as int, writes.last().1)
    }
}

/// Some write of the list goes to `block`.
pub open spec fn targets(writes: Seq<HomeWrite>, block: int) -> bool {
    exists|k: int| 0 <= k < writes.len() && (#[trigger] writes[k]).0 == block
}

pub proof fn lemma_plan_size(entries: Seq<EntryView>)
    ensures
        plan_of(entries).transactions <= entries.len(),
        plan_of(entries).writes.len() + plan_of(entries).open.len() <= entries.len(),
    decreases entries.len(),
{
    if entries.len() > 0 {
        lemma_plan_size(entries.drop_last());
    }
}

/// Writes change the blocks that they name and nothing else.
pub proof fn lemma_applied(disk: Disk, writes: Seq<HomeWrite>)
    requires
        forall|k: int| 0 <= k < writes.len() ==> (#[trigger] writes[k]).0 < disk.len(),
    ensures
        applied(disk, writes).len() == disk.len(),
        forall|i: int|
            0 <= i < disk.len() && !targets(writes, i) ==> #[trigger] applied(disk, writes)[i]
                == disk[i],
        forall|i: int|
            0 <= i < disk.len() && targets(writes, i) ==> exists|k: int|
                0 <= k < writes.len() && (#[trigger] writes[k]).0 == i && writes[k].1 == (
                #[trigger] applied(disk, writes)[i]),
    decreases writes.len(),
{
    if writes.len() > 0 {
        let front = writes.drop_last();
        let last = writes.last();
        lemma_applied(disk, front);
        let before = applied(disk, front);
        let after = applied(disk, writes);
        assert forall|i: int| 0 <= i < disk.len() && !targets(writes, i) implies #[trigger] after[i]
            == disk[i] by {
            assert(writes[writes.len() - 1].0 != i);
            if targets(front, i) {
                let k = choose|k: int| 0 <= k < front.len() && (#[trigger] front[k]).0 == i;
                assert(writes[k].0 == i);
            }
        }
        assert forall|i: int| 0 <= i < disk.len() && targets(writes, i) implies exists|k: int|
            0 <= k < writes.len() && (#[trigger] writes[k]).0 == i && writes[k].1 == (
            #[trigger] after[i]) by {
            if last.0 == i {
                assert(writes[writes.len() - 1].0 == i && writes[writes.len() - 1].1 == after[i]);
            } else {
                let k = choose|k: int| 0 <= k < writes.len() && (#[trigger] writes[k]).0 == i;
                assert(front[k].0 == i);
                assert(targets(front, i));
                let j = choose|j: int|
                    0 <= j < front.len() && (#[trigger] front[j]).0 == i && front[j].1 == before[i];
                assert(writes[j].0 == i && writes[j].1 == after[i]);
            }
        }
    }
}

/// What the writes leave behind depends on the blocks that none of them names only.
pub proof fn lemma_applied_agree(a: Disk, b: Disk, writes: Seq<HomeWrite>)
    requires
        a.len() == b.len(),
        forall|k: int| 0 <= k < writes.len() ==> (#[trigger] writes[k]).0 < a.len(),
        forall|i: int| 0 <= i < a.len() && !targets(writes, i) ==> #[trigger] a[i] == b[i],
    ensures
        applied(a, writes) == applied(b, writes),
    decreases writes.len(),
{
    if writes.len() > 0 {
        let front = writes.drop_last();
        let last = writes.last();
        let a1 = a.update(last.0 as int, last.1);
        let b1 = b.update(last.0 as int, last.1);
        assert(forall|k: int| 0 <= k < front.len() ==> (#[trigger] front[k]) == writes[k]);
        assert forall|i: int| 0 <= i < a1.len() && !targets(front, i) implies #[trigger] a1[i]
            == b1[i] by {
            if i != last.0 {
                if targets(writes, i) {
                    let k = choose|k: int| 0 <= k < writes.len() && (#[trigger] writes[k]).0 == i;
                    assert(front[k].0 == i);
                }
                assert(a[i] == b[i]);
            }
        }
        lemma_applied_agree(a1, b1, front);
        lemma_applied_last(a, front, last);
        lemma_applied_last(b, front, last);
    } else {
        assert(a =~= b) by {
            assert forall|i: int| 0 <= i < a.len() implies a[i] == b[i] by {
                assert(!targets(writes, i));
            }
        }
    }
}

proof fn lemma_applied_last(disk: Disk, front: Seq<HomeWrite>, last: HomeWrite)
    requires
        last.0 < disk.len(),
        forall|k: int| 0 <= k < front.len() ==> (#[trigger] front[k]).0 < disk.len(),
    ensures
        applied(disk, front).update(last.0 as int, last.1) == applied(
            disk.update(last.0 as int, last.1),
            front,
        ).update(last.0 as int, last.1),
    decreases front.len(),
{
    if front.len() > 0 {
        let shorter = front.drop_last();
        let other = front.last();
        assert(other == front[front.len() - 1]);
        assert(forall|k: int| 0 <= k < shorter.len() ==> (#[trigger] shorter[k]) == front[k]);
        lemma_applied_last(disk, shorter, last);
        lemma_applied(disk, shorter);
        lemma_applied(disk.update(last.0 as int, last.1), shorter);
        let x = applied(disk, shorter);
        let y = applied(disk.update(last.0 as int, last.1), shorter);
        assert(x.update(other.0 as int, other.1).update(last.0 as int, last.1) =~= y.update(
            other.0 as int,
            other.1,
        ).update(last.0 as int, last.1)) by {
            assert(x.update(last.0 as int, last.1) == y.update(last.0 as int, last.1));
            assert forall|i: int| 0 <= i < x.len() && i != last.0 implies x[i] == y[i] by {
                assert(x.update(last.0 as int, last.1)[i] == x[i]);
                assert(y.update(last.0 as int, last.1)[i] == y[i]);
            }
        }
    } else {
        assert(disk.update(last.0 as int, last.1) =~= disk.update(last.0 as int, last.1).update(
            last.0 as int,
            last.1,
        ));
    }
}

/// Replaying twice is replaying once.
pub proof fn lemma_applied_twice(disk: Disk, writes: Seq<HomeWrite>)
    requires
        forall|k: int| 0 <= k < writes.len() ==> (#[trigger] writes[k]).0 < disk.len(),
    ensures
        applied(applied(disk, writes), writes) == applied(disk, writes),
{
    lemma_applied(disk, writes);
    lemma_applied_agree(applied(disk, writes), disk, writes);
}

/// The values of a list of writes.
pub open spec fn write_views(list: Seq<(u64, Block)>) -> Seq<HomeWrite> {
    Seq::new(list.len(), |i: int| (list[i].0, list[i].1@))
}

pub proof fn lemma_open_prefix(entries: Seq<EntryView>, k: int)
    requires
        0 <= k <= entries.len(),
        open_after(entries.subrange(0, k)) is None,
    ensures
        open_after(entries) is None,
    decreases entries.len(),
{
    if k == entries.len() {
        assert(entries.subrange(0, k) =~= entries);
    } else {
        assert(entries.drop_last().subrange(0, k) =~= entries.subrange(0, k));
        lemma_open_prefix(entries.drop_last(), k);
    }
}

/// The writes of the committed transactions of a log, ready for replay.
#[derive(Debug, Clone)]
pub struct RecoveryPlan {
    list: Vec<(u64, Block)>,
    counts: RecoveryReport,
}

impl RecoveryPlan {
    /// The writes as values.
    pub closed spec fn home_writes(&self) -> Seq<HomeWrite> {
        write_views(self.list@)
    }

    /// The counts.
    pub closed spec fn counted(&self) -> RecoveryReport {
        self.counts
    }

    /// The writes in the order in which they must be replayed.
    pub fn writes(&self) -> (w: &[(u64, Block)])
        ensures
            write_views(w@) == self.home_writes(),
    {
        self.list.as_slice()
    }

    /// What a complete replay will report.
    pub fn report(&self) -> (r: RecoveryReport)
        ensures
            r == self.counted(),
    {
        self.counts
    }
}

/// Collects the writes of every committed transaction. A trailing transaction without its commit
/// is left out; entries out of order are refused.
pub fn plan_recovery(entries: &[JournalEntry]) -> (r: Result<RecoveryPlan, Error>)
    ensures
        match r {
            Ok(plan) => {
                &&& open_after(journal::entry_views(entries@)) is Some
                &&& plan.home_writes() == plan_of(journal::entry_views(entries@)).writes
                &&& plan.counted() == report_of(journal::entry_views(entries@))
            },
            Err(e) => open_after(journal::entry_views(entries@)) is None && e.kind
                == ErrorKind::InvalidData,
        },
{
    let ghost views = journal::entry_views(entries@);
    let mut list: Vec<(u64, Block)> = Vec::new();
    let mut open: Vec<(u64, Block)> = Vec::new();
    let mut active: Option<u64> = None;
    let mut transactions: usize = 0;
    let mut i: usize = 0;
    assert(write_views(list@) =~= Seq::<HomeWrite>::empty());
    assert(views.subrange(0, 0) =~= Seq::<EntryView>::empty());
    while i < entries.len()
        invariant
            i <= entries@.len(),
            views == journal::entry_views(entries@),
            open_after(views.subrange(0, i as int)) == Some(active),
            write_views(list@) == plan_of(views.subrange(0, i as int)).writes,
            write_views(open@) == plan_of(views.subrange(0, i as int)).open,
            transactions == plan_of(views.subrange(0, i as int)).transactions,
            transactions <= i,
        decreases entries@.len() - i,
    {
        let ghost next = views.subrange(0, i + 1);
        proof {
            assert(next.drop_last() =~= views.subrange(0, i as int));
            assert(next.last() == entries@[i as int]@);
            lemma_plan_size(views.subrange(0, i as int));
            if open_after(next) is None {
                lemma_open_prefix(views, i + 1);
            }
        }
        match &entries[i] {
            JournalEntry::Begin { txid } => {
                if active.is_some() {
                    return Err(Error::new(ErrorKind::InvalidData, "nested journal transaction"));
                }
                active = Some(*txid);
                open = Vec::new();
                assert(write_views(open@) =~= plan_of(next).open);
            },
            JournalEntry::Write { txid, block, data } => {
                if !is_active(active, *txid) {
                    return Err(Error::new(ErrorKind::InvalidData, "journal write outside transaction"));
                }
                let ghost before = write_views(open@);
                open.push((*block, **data));
                assert(write_views(open@) =~= before.push((*block, data@)));
            },
            JournalEntry::Commit { txid } => {
                if !is_active(active, *txid) {
                    return Err(Error::new(ErrorKind::InvalidData, "journal commit outside transaction"));
                }
                let ghost before = write_views(list@);
                let ghost added = write_views(open@);
                list.append(&mut open);
                assert(write_views(list@) =~= before + added);
                assert(write_views(open@) =~= Seq::<HomeWrite>::empty());
                active = None;
                transactions += 1;
            },
        }
        i += 1;
    }
    proof {
        assert(views.subrange(0, views.len() as int) =~= views);
        lemma_plan_size(views);
    }
    let home_writes: usize = list.len();
    Ok(RecoveryPlan { list, counts: RecoveryReport { committed_transactions: transactions, home_writes } })
}

fn is_active(active: Option<u64>, txid: u64) -> (b: bool)
    ensures
        b == (active == Some(txid)),
{
    match active {
        Some(open) => open == txid,
        None => false,
    }
}

/// Replay: every write of a committed transaction reaches its home block.
pub open spec fn recover_step(disk: Disk, sb: Superblock) -> Step<RecoveryReport> {
    match journal_region::image_on(disk, sb) {
        Ok(entries) => Step {
            disk: applied(disk, plan_of(entries).writes),
            result: Ok(report_of(entries)),
        },
        Err(kind) => step::stay(disk, Err(kind)),
    }
}

/// Replaying again changes nothing and reports the same.
pub proof fn law_replay_idempotent(disk: Disk, sb: Superblock)
    ensures
        recover_step(recover_step(disk, sb).disk, sb) == recover_step(disk, sb),
{
    if let Ok(entries) = journal_region::image_on(disk, sb) {
        let writes = plan_of(entries).writes;
        journal_region::lemma_log_admissible(disk, sb);
        journal_region::lemma_plan_home(sb, entries);
        lemma_applied(disk, writes);
        journal_region::lemma_replay_home(disk, applied(disk, writes), sb);
    }
}

/// A log without a commit leaves every block as it is.
pub proof fn law_uncommitted_is_ignored(disk: Disk, sb: Superblock)
    requires
        journal_region::image_on(disk, sb) matches Ok(entries) && forall|i: int|
            0 <= i < entries.len() ==> !(#[trigger] entries[i] is Commit),
    ensures
        recover_step(disk, sb) == (Step { disk, result: Ok(no_recovery()) }),
{
    let entries = journal_region::image_on(disk, sb)->Ok_0;
    lemma_no_commit(entries);
}

proof fn lemma_no_commit(entries: Seq<EntryView>)
    requires
        forall|i: int| 0 <= i < entries.len() ==> !(#[trigger] entries[i] is Commit),
    ensures
        plan_of(entries).writes == Seq::<HomeWrite>::empty(),
        plan_of(entries).transactions == 0,
    decreases entries.len(),
{
    if entries.len() > 0 {
        assert(forall|i: int| 0 <= i < entries.len() - 1 ==> #[trigger] entries.drop_last()[i] == entries[i]);
        assert(entries.last() == entries[entries.len() - 1]);
        lemma_no_commit(entries.drop_last());
    }
}

/// Writes a list of blocks in order.
pub(crate) fn write_home_blocks<D: BlockDevice>(device: &mut D, writes: &[(u64, Block)]) -> (r: Result<(), Error>)
    requires
        forall|k: int| 0 <= k < writes@.len() ==> (#[trigger] write_views(writes@)[k]).0 < old(device).blocks().len(),
    ensures
        old(device).healthy() ==> final(device).healthy() && r is Ok,
        final(device).blocks().len() == old(device).blocks().len(),
        r is Ok ==> final(device).blocks() == applied(old(device).blocks(), write_views(writes@)),
        block::settled(old(device)) ==> forall|image: Disk| #[trigger]
            final(device).durable().contains(image) ==> image.len() == old(device).blocks().len()
                && forall|i: int|
                0 <= i < image.len() && !targets(write_views(writes@), i) ==> #[trigger] image[i]
                    == old(device).blocks()[i],
        writes@.len() == 0 ==> block::untouched(old(device), final(device)),
{
    let ghost base = device.blocks();
    let ghost views = write_views(writes@);
    let mut k: usize = 0;
    assert(views.subrange(0, 0) =~= Seq::<HomeWrite>::empty());
    while k < writes.len()
        invariant
            k <= writes@.len(),
            base == old(device).blocks(),
            views == write_views(writes@),
            forall|j: int| 0 <= j < writes@.len() ==> (#[trigger] views[j]).0 < base.len(),
            old(device).healthy() ==> device.healthy(),
            device.blocks() == applied(base, views.subrange(0, k as int)),
            device.blocks().len() == base.len(),
            block::settled(old(device)) ==> forall|image: Disk| #[trigger]
                device.durable().contains(image) ==> image.len() == base.len() && forall|i: int|
                    0 <= i < image.len() && !targets(views, i) ==> #[trigger] image[i] == base[i],
            writes@.len() == 0 ==> block::untouched(old(device), device),
        decreases writes@.len() - k,
    {
        proof {
            let next = views.subrange(0, k + 1);
            assert(next.drop_last() =~= views.subrange(0, k as int));
            assert(next.last() == views[k as int]);
            assert(views[k as int].0 < base.len());
            assert(targets(views, views[k as int].0 as int));
        }
        device.write_block(writes[k].0, &writes[k].1)?;
        k += 1;
    }
    assert(views.subrange(0, views.len() as int) =~= views);
    Ok(())
}

/// Replays every committed transaction of the journal and makes the result durable. The journal
/// itself stays as it is.
pub fn recover_journal<D: BlockDevice>(device: &mut D, superblock: Superblock) -> (r: Result<RecoveryReport, Error>)
    ensures
        journal_region::carried_out(
            old(device),
            final(device),
            superblock,
            step::kinded(r),
            recover_step(old(device).blocks(), superblock),
        ),
{
    let ghost base = device.blocks();
    proof {
        reveal(journal_region::atomic);
    }
    let entries = load_journal_image(device, superblock)?;
    let ghost views = journal::entry_views(entries@);
    let plan = plan_recovery(entries.as_slice())?;
    proof {
        journal_region::lemma_log_admissible(base, superblock);
        journal_region::lemma_plan_home(superblock, views);
        lemma_plan_size(views);
    }
    let writes = plan.writes();
    assert(writes@.len() == write_views(writes@).len());
    let written = write_home_blocks(device, writes);
    proof {
        if block::settled(old(device)) {
            assert forall|image: Disk| #[trigger]
                device.durable().contains(image) implies journal_region::home_of(image, superblock)
                == journal_region::home_of(base, superblock) by {
                journal_region::lemma_replay_home(base, image, superblock);
            }
        }
    }
    match written {
        Ok(_) => {},
        Err(e) => return Err(e),
    }
    let report = plan.report();
    proof {
        lemma_applied(base, plan_of(views).writes);
        journal_region::lemma_replay_home(base, applied(base, plan_of(views).writes), superblock);
    }
    if report.home_writes != 0 {
        device.flush()?;
    } else {
        assert(entries@.len() == views.len());
        assert(plan_of(views).writes.len() == 0);
    }
    Ok(report)
}

/// Whether an entry is the commit of a transaction.
pub open spec fn is_commit(entry: EntryView) -> bool {
    entry is Commit
}

/// Whether an entry is a write.
pub open spec fn is_write(entry: EntryView) -> bool {
    entry is Write
}

/// How many entries of a list are of a sort.
pub open spec fn count_of(entries: Seq<EntryView>, sort: spec_fn(EntryView) -> bool) -> nat
    decreases entries.len(),
{
    if entries.len() == 0 {
        0
    } else {
        count_of(entries.drop_last(), sort) + if sort(entries.last()) {
            1nat
        } else {
            0
        }
    }
}

/// Replaying a log that is in order counts a transaction for each commit, and does each write up to
/// the last commit once; the writes of a transaction that is still open are left out.
pub proof fn law_plan(entries: Seq<EntryView>)
    requires
        open_after(entries) is Some,
    ensures
        plan_of(entries).transactions == count_of(entries, |e: EntryView| is_commit(e)),
        plan_of(entries).writes.len() + plan_of(entries).open.len() == count_of(
            entries,
            |e: EntryView| is_write(e),
        ),
        open_after(entries) == Some(None::<u64>) ==> plan_of(entries).open.len() == 0,
    decreases entries.len(),
{
    if entries.len() > 0 {
        law_plan(entries.drop_last());
    }
}

} // verus!
