//! A journal that keeps committed transactions before they are replayed.
//!
//! The first journal block is the anchor; behind it lie two banks of equal size. A snapshot of the
//! log stands in one bank, which the anchor names. The next snapshot goes to the other bank, and
//! takes effect when the anchor is rewritten.

use vstd::prelude::*;
use vstd::slice::*;
use crate::block;
use crate::block::{Block, BlockDevice, Disk, BLOCK_SIZE};
use crate::bytes;
use crate::bytes::{is_zero_run, read_u16, zero_vec};
use crate::error::{Error, ErrorKind};
use crate::file_blocks::{invalid_data, invalid_input};
use crate::format::Superblock;
use crate::journal;
use crate::journal::{EntryView, JournalEntry};
use crate::journal_codec;
use crate::journal_codec::{decode_entries, encode_entries};
use crate::journal_region;
use crate::journal_region::{
    load_journal_image, store_empty_journal_anchor, validate_entries, validate_region,
};
use crate::recovery;
use crate::region;
use crate::region::{block_from, is_marked, open_payload, read_region, seal, HEADER_SIZE, STATE_OFFSET};
use crate::step;
use crate::step::Step;
use crate::transaction;

verus! {

pub const RETAINED_MAGIC: [u8; 4] = [0x4A, 0x52, 0x47, 0x33];

pub const RETAINED_VERSION: u16 = 3;

/// The number of blocks in a bank.
pub open spec fn bank_blocks(sb: Superblock) -> int {
    (sb.journal_blocks - 1) / 2
}

/// The first block of bank 1 or 2.
pub open spec fn bank_start(sb: Superblock, bank: int) -> int {
    sb.journal_start + 1 + (bank - 1) * bank_blocks(sb)
}

/// The number of bytes in a bank, with the header that the anchor holds.
pub open spec fn snapshot_capacity(sb: Superblock) -> int {
    HEADER_SIZE + bank_blocks(sb) * BLOCK_SIZE
}

/// A snapshot of a log for a bank: the header goes to the anchor, the rest to the bank.
pub open spec fn snapshot(sb: Superblock, bank: int, entries: Seq<EntryView>) -> Seq<u8> {
    region::sealed(
        snapshot_capacity(sb) as nat,
        RETAINED_MAGIC@,
        RETAINED_VERSION,
        bank as u16,
        journal_codec::entry_stream(entries),
    )
}

/// The log fits a bank.
pub open spec fn snapshot_fits(sb: Superblock, entries: Seq<EntryView>) -> bool {
    HEADER_SIZE + journal_codec::entry_stream(entries).len() <= snapshot_capacity(sb)
}

/// The anchor block that names the bank of a snapshot.
pub open spec fn anchor_for(snapshot: Seq<u8>) -> Seq<u8> {
    snapshot.subrange(0, HEADER_SIZE as int) + bytes::zeros((BLOCK_SIZE - HEADER_SIZE) as nat)
}

/// What a snapshot puts into its bank.
pub open spec fn bank_for(snapshot: Seq<u8>) -> Seq<u8> {
    snapshot.subrange(HEADER_SIZE as int, snapshot.len() as int)
}

/// The anchor names a bank.
pub open spec fn is_retaining(disk: Disk, sb: Superblock) -> bool {
    journal_region::marked(disk[sb.journal_start as int], RETAINED_MAGIC, RETAINED_VERSION)
}

/// The bank that the anchor names.
pub open spec fn active_bank(disk: Disk, sb: Superblock) -> int {
    region::state_of(disk[sb.journal_start as int]) as int
}

/// The bank for the next snapshot.
pub open spec fn next_bank(disk: Disk, sb: Superblock) -> int {
    if is_retaining(disk, sb) && active_bank(disk, sb) == 1 {
        2
    } else {
        1
    }
}

/// The snapshot that stands in a bank.
pub open spec fn snapshot_on(disk: Disk, sb: Superblock, bank: int) -> Seq<u8> {
    disk[sb.journal_start as int].subrange(0, HEADER_SIZE as int) + region::region_of(
        disk,
        bank_start(sb, bank),
        bank_blocks(sb) as nat,
    )
}

/// The retained log of a journal whose anchor names a bank; none where it is corrupt.
pub open spec fn retained_log(disk: Disk, sb: Superblock) -> Option<Seq<EntryView>> {
    let anchor = disk[sb.journal_start as int];
    let bank = active_bank(disk, sb);
    if !(bank == 1 || bank == 2) || !bytes::zero_run(
        anchor,
        HEADER_SIZE as int,
        BLOCK_SIZE as int,
    ) {
        None
    } else {
        match region::payload_of(snapshot_on(disk, sb, bank)) {
            None => None,
            Some(payload) => match journal_codec::entries_of(payload) {
                None => None,
                Some(entries) => if journal_region::admissible(sb, entries) {
                    Some(entries)
                } else {
                    None
                },
            },
        }
    }
}

/// The retained log of a device, where its anchor names a bank, or how it is refused.
pub open spec fn retained_on(disk: Disk, sb: Superblock) -> Result<Option<Seq<EntryView>>, ErrorKind> {
    if !sb.fits(disk) {
        Err(ErrorKind::InvalidInput)
    } else if !is_retaining(disk, sb) {
        Ok(None)
    } else {
        match retained_log(disk, sb) {
            None => Err(ErrorKind::InvalidData),
            Some(entries) => Ok(Some(entries)),
        }
    }
}

/// The log that a further transaction is added to: the retained one, or an empty one where nothing
/// is retained and the journal is empty.
pub open spec fn extensible_on(disk: Disk, sb: Superblock) -> Result<Seq<EntryView>, ErrorKind> {
    match retained_on(disk, sb) {
        Err(k) => Err(k),
        Ok(Some(entries)) => Ok(entries),
        Ok(None) => match journal_region::log_on(disk, sb) {
            None => Err(ErrorKind::InvalidData),
            Some(log) => if log.len() > 0 {
                Err(ErrorKind::WouldBlock)
            } else {
                Ok(Seq::empty())
            },
        },
    }
}

/// A snapshot in the next bank, with the anchor that names it.
pub open spec fn with_snapshot(disk: Disk, sb: Superblock, entries: Seq<EntryView>) -> Disk {
    let bank = next_bank(disk, sb);
    let image = snapshot(sb, bank, entries);
    journal_region::with_region(
        disk,
        bank_start(sb, bank),
        bank_blocks(sb),
        bank_for(image),
    ).update(sb.journal_start as int, anchor_for(image))
}

/// A log takes the place of the retained one; an empty log leaves an empty journal.
pub open spec fn retain_step(disk: Disk, sb: Superblock, entries: Seq<EntryView>) -> Step<()> {
    match extensible_on(disk, sb) {
        Err(k) => step::stay(disk, Err(k)),
        Ok(_) => if !journal_region::admissible(sb, entries) {
            step::stay(disk, Err(ErrorKind::InvalidData))
        } else if entries.len() == 0 {
            Step { disk: journal_region::emptied(disk, sb), result: Ok(()) }
        } else if !snapshot_fits(sb, entries) {
            step::stay(disk, Err(ErrorKind::InvalidInput))
        } else {
            Step { disk: with_snapshot(disk, sb, entries), result: Ok(()) }
        },
    }
}

/// What a file system holds once its journal, retained or not, is replayed: every block but the
/// journal's own.
pub open spec fn held_by(disk: Disk, sb: Superblock) -> Option<Disk> {
    if is_retaining(disk, sb) {
        match retained_log(disk, sb) {
            None => None,
            Some(entries) => Some(
                journal_region::outside_journal(
                    recovery::applied(disk, recovery::plan_of(entries).writes),
                    sb,
                ),
            ),
        }
    } else {
        journal_region::home_of(disk, sb)
    }
}

/// Whenever power is lost, the file system holds what it held before the request or what it holds
/// after it; and what the request did is durable if it succeeded.
pub open spec fn safely<D: BlockDevice>(before: &D, after: &D, sb: Superblock, done: bool, end: Disk) -> bool {
    block::settled(before) ==> {
        &&& sb.fits(before.blocks()) ==> forall|image: Disk| #[trigger]
            after.durable().contains(image) ==> held_by(image, sb) == held_by(before.blocks(), sb)
                || held_by(image, sb) == held_by(end, sb)
        &&& done ==> block::settled(after)
    }
}

/// `a` and `b` differ in the blocks of a bank at most.
spec fn bank_only(a: Disk, b: Disk, sb: Superblock, bank: int) -> bool {
    &&& a.len() == b.len()
    &&& forall|i: int|
        0 <= i < a.len() && !(bank_start(sb, bank) <= i < bank_start(sb, bank) + bank_blocks(sb))
            ==> #[trigger] a[i] == b[i]
}

/// The banks lie in the journal, behind the anchor and beside each other.
pub proof fn lemma_bank_place(sb: Superblock, bank: int)
    requires
        sb.valid(),
        bank == 1 || bank == 2,
    ensures
        0 <= bank_blocks(sb),
        sb.journal_start < bank_start(sb, bank),
        bank_start(sb, bank) + bank_blocks(sb) <= sb.journal_start + sb.journal_blocks
            <= sb.total_blocks,
        bank_start(sb, 2) == bank_start(sb, 1) + bank_blocks(sb),
        snapshot_capacity(sb) <= sb.journal_blocks * BLOCK_SIZE <= usize::MAX,
{
    assert((bank - 1) * bank_blocks(sb) == if bank == 1 {
        0
    } else {
        bank_blocks(sb)
    }) by (nonlinear_arith)
        requires
            bank == 1 || bank == 2,
    ;
    assert((2 - 1) * bank_blocks(sb) == bank_blocks(sb));
    assert((1 - 1) * bank_blocks(sb) == 0);
}

/// A disk whose anchor and bank hold a snapshot of a log retains that log.
proof fn lemma_snapshot(disk: Disk, sb: Superblock, bank: int, entries: Seq<EntryView>)
    requires
        sb.fits(disk),
        bank == 1 || bank == 2,
        journal_region::admissible(sb, entries),
        snapshot_fits(sb, entries),
        forall|i: int| 0 <= i < entries.len() ==> journal_codec::whole(#[trigger] entries[i]),
        disk[sb.journal_start as int] == anchor_for(snapshot(sb, bank, entries)),
        forall|k: int|
            0 <= k < bank_blocks(sb) ==> #[trigger] disk[bank_start(sb, bank) + k] == region::chunk(
                bank_for(snapshot(sb, bank, entries)),
                k,
            ),
    ensures
        is_retaining(disk, sb),
        active_bank(disk, sb) == bank,
        retained_log(disk, sb) == Some(entries),
{
    let image = snapshot(sb, bank, entries);
    let anchor = anchor_for(image);
    let stream = journal_codec::entry_stream(entries);
    let count = bank_blocks(sb) as nat;
    lemma_bank_place(sb, bank);
    region::lemma_sealed(
        snapshot_capacity(sb) as nat,
        RETAINED_MAGIC@,
        RETAINED_VERSION,
        bank as u16,
        stream,
    );
    assert(anchor.subrange(0, 4) =~= image.subrange(0, 4));
    assert(anchor.subrange(0, 32) =~= image.subrange(0, 32));
    bytes::lemma_fields_of_window(image, 0, 32, 4);
    bytes::lemma_fields_of_window(image, 0, 32, 6);
    bytes::lemma_fields_of_window(anchor, 0, 32, 4);
    bytes::lemma_fields_of_window(anchor, 0, 32, 6);
    let bank_bytes = bank_for(image);
    region::lemma_region_chunks(disk, bank_start(sb, bank), bank_bytes, count);
    assert(bank_bytes.subrange(0, count * BLOCK_SIZE) =~= bank_bytes);
    assert(snapshot_on(disk, sb, bank) =~= image);
    journal_codec::law_stream_round_trip(entries);
}

/// The retained log depends on the anchor and its bank only.
pub proof fn lemma_retained_agree(a: Disk, b: Disk, sb: Superblock)
    requires
        sb.fits(b),
        a.len() == b.len(),
        is_retaining(b, sb),
        retained_log(b, sb) is Some,
        a[sb.journal_start as int] == b[sb.journal_start as int],
        forall|i: int|
            bank_start(sb, active_bank(b, sb)) <= i < bank_start(sb, active_bank(b, sb))
                + bank_blocks(sb) ==> #[trigger] a[i] == b[i],
    ensures
        is_retaining(a, sb),
        retained_log(a, sb) == retained_log(b, sb),
{
    lemma_bank_place(sb, active_bank(b, sb));
    region::lemma_region_agree(
        a,
        b,
        bank_start(sb, active_bank(b, sb)),
        bank_blocks(sb) as nat,
    );
}

/// The retained log is admissible, and its writes carry whole blocks.
pub proof fn lemma_retained_admissible(disk: Disk, sb: Superblock)
    ensures
        retained_log(disk, sb) matches Some(entries) ==> journal_region::admissible(sb, entries)
            && forall|i: int|
            0 <= i < entries.len() ==> journal_codec::whole(#[trigger] entries[i]),
{
    let all = snapshot_on(disk, sb, active_bank(disk, sb));
    if region::payload_of(all) is Some {
        let payload = region::payload_of(all)->Some_0;
        if crate::records::split(payload, 32) is Some {
            journal_codec::lemma_entries_whole(crate::records::split(payload, 32)->Some_0);
        }
    }
}

/// The log that a transaction is added to is admissible, and its writes carry whole blocks.
pub proof fn lemma_extensible_admissible(disk: Disk, sb: Superblock)
    ensures
        extensible_on(disk, sb) matches Ok(entries) ==> sb.fits(disk) && journal_region::admissible(
            sb,
            entries,
        ) && forall|i: int|
            0 <= i < entries.len() ==> journal_codec::whole(#[trigger] entries[i]),
{
    lemma_retained_admissible(disk, sb);
}

/// Replaying a log does the same to disks that differ in the journal only.
proof fn lemma_replay_beside(a: Disk, b: Disk, sb: Superblock, entries: Seq<EntryView>)
    requires
        sb.fits(b),
        a.len() == b.len(),
        journal_region::admissible(sb, entries),
        forall|i: int|
            0 <= i < a.len() && !(sb.journal_start <= i < sb.journal_start + sb.journal_blocks)
                ==> #[trigger] a[i] == b[i],
    ensures
        journal_region::outside_journal(recovery::applied(a, recovery::plan_of(entries).writes), sb)
            == journal_region::outside_journal(
            recovery::applied(b, recovery::plan_of(entries).writes),
            sb,
        ),
{
    let writes = recovery::plan_of(entries).writes;
    journal_region::lemma_plan_home(sb, entries);
    transaction::lemma_applied_beside(a, b, writes, sb);
    recovery::lemma_applied(a, writes);
    recovery::lemma_applied(b, writes);
    assert(journal_region::outside_journal(recovery::applied(a, writes), sb)
        =~= journal_region::outside_journal(recovery::applied(b, writes), sb));
}

/// What stands in the next bank does not count.
proof fn lemma_next_bank_is_free(image: Disk, base: Disk, sb: Superblock)
    requires
        sb.fits(base),
        is_retaining(base, sb),
        retained_log(base, sb) is Some,
        bank_only(image, base, sb, next_bank(base, sb)),
    ensures
        held_by(image, sb) == held_by(base, sb),
{
    lemma_bank_place(sb, 1);
    lemma_bank_place(sb, 2);
    lemma_retained_agree(image, base, sb);
    lemma_retained_admissible(base, sb);
    lemma_replay_beside(image, base, sb, retained_log(base, sb)->Some_0);
}

proof fn lemma_anchors_differ()
    ensures
        !journal_region::marked(journal_region::empty_anchor(), RETAINED_MAGIC, RETAINED_VERSION),
{
    region::lemma_sealed(
        BLOCK_SIZE as nat,
        journal_region::REGION_MAGIC_V2@,
        journal_region::REGION_VERSION_V2,
        journal_region::REGION_STATE_EMPTY,
        Seq::empty(),
    );
}

/// With an empty anchor the file system holds what its home blocks hold.
proof fn lemma_held_when_empty(disk: Disk, base: Disk, sb: Superblock)
    requires
        sb.fits(base),
        disk.len() == base.len(),
        disk[sb.journal_start as int] == journal_region::empty_anchor(),
        forall|i: int|
            0 <= i < disk.len() && !(sb.journal_start <= i < sb.journal_start + sb.journal_blocks)
                ==> #[trigger] disk[i] == base[i],
    ensures
        held_by(disk, sb) == Some(journal_region::outside_journal(base, sb)),
{
    lemma_anchors_differ();
    journal_region::lemma_emptied(disk, sb);
    assert(journal_region::outside_journal(disk, sb) =~= journal_region::outside_journal(base, sb));
}

/// A log that is retained is the one that a device gives back, and the file system holds what it
/// leaves behind; an empty log leaves an empty journal.
pub proof fn law_retain(disk: Disk, sb: Superblock, entries: Seq<EntryView>)
    requires
        retain_step(disk, sb, entries).result is Ok,
        forall|i: int| 0 <= i < entries.len() ==> journal_codec::whole(#[trigger] entries[i]),
    ensures
        extensible_on(retain_step(disk, sb, entries).disk, sb) == Ok::<Seq<EntryView>, ErrorKind>(
            entries,
        ),
        entries.len() > 0 ==> retained_on(retain_step(disk, sb, entries).disk, sb) == Ok::<
            Option<Seq<EntryView>>,
            ErrorKind,
        >(Some(entries)),
        held_by(retain_step(disk, sb, entries).disk, sb) == Some(
            journal_region::outside_journal(
                recovery::applied(disk, recovery::plan_of(entries).writes),
                sb,
            ),
        ),
        retain_step(disk, sb, entries).disk.len() == disk.len(),
        forall|i: int|
            0 <= i < disk.len() && !(sb.journal_start <= i < sb.journal_start + sb.journal_blocks)
                ==> #[trigger] retain_step(disk, sb, entries).disk[i] == disk[i],
{
    let end = retain_step(disk, sb, entries).disk;
    if entries.len() == 0 {
        assert(entries =~= Seq::<EntryView>::empty());
        lemma_anchors_differ();
        journal_region::lemma_emptied(end, sb);
        lemma_held_when_empty(end, disk, sb);
    } else {
        let bank = next_bank(disk, sb);
        let image = snapshot(sb, bank, entries);
        lemma_bank_place(sb, bank);
        assert forall|k: int| 0 <= k < bank_blocks(sb) implies #[trigger] end[bank_start(sb, bank)
            + k] == region::chunk(bank_for(image), k) by {}
        lemma_snapshot(end, sb, bank, entries);
        lemma_replay_beside(end, disk, sb, entries);
    }
}

/// Loads the retained log, where the anchor names a bank.
pub fn load_retained_journal_entries<D: BlockDevice>(device: &mut D, superblock: Superblock) -> (r: Result<Option<Vec<JournalEntry>>, Error>)
    ensures
        block::untouched(old(device), final(device)),
        match r {
            Ok(Some(entries)) => retained_on(old(device).blocks(), superblock) == Ok::<
                Option<Seq<EntryView>>,
                ErrorKind,
            >(Some(journal::entry_views(entries@))),
            Ok(None) => retained_on(old(device).blocks(), superblock) == Ok::<
                Option<Seq<EntryView>>,
                ErrorKind,
            >(None),
            Err(e) => !old(device).healthy() || retained_on(old(device).blocks(), superblock)
                == Err::<Option<Seq<EntryView>>, ErrorKind>(e.kind),
        },
{
    validate_region(device, superblock)?;
    let ghost disk = device.blocks();
    let mut anchor: Block = [0u8; BLOCK_SIZE];
    device.read_block(superblock.journal_start, &mut anchor)?;
    let head: &[u8] = &anchor;
    if !is_marked(head, &RETAINED_MAGIC, RETAINED_VERSION) {
        return Ok(None);
    }
    let bank: u16 = read_u16(head, STATE_OFFSET);
    if !(bank == 1 || bank == 2) || !is_zero_run(head, HEADER_SIZE, BLOCK_SIZE) {
        return Err(invalid_data("retained journal anchor is corrupt"));
    }
    proof {
        lemma_bank_place(superblock, bank as int);
    }
    let count: u64 = (superblock.journal_blocks - 1) / 2;
    let start: u64 = superblock.journal_start + 1 + if bank == 1 {
        0
    } else {
        count
    };
    assert(start == bank_start(superblock, bank as int));
    let body = read_region(device, start, count)?;
    let mut image = slice_to_vec(slice_subrange(head, 0, HEADER_SIZE));
    append_bytes(&mut image, body.as_slice());
    assert(image@ == snapshot_on(disk, superblock, bank as int));
    let payload = match open_payload(image.as_slice()) {
        Some(payload) => payload,
        None => return Err(invalid_data("retained journal snapshot is corrupt")),
    };
    let entries = decode_entries(payload.as_slice())?;
    validate_entries(superblock, entries.as_slice())?;
    Ok(Some(entries))
}

/// Loads the log that a further transaction is added to.
pub fn load_extensible_entries<D: BlockDevice>(device: &mut D, superblock: Superblock) -> (r: Result<Vec<JournalEntry>, Error>)
    ensures
        block::untouched(old(device), final(device)),
        match r {
            Ok(entries) => extensible_on(old(device).blocks(), superblock) == Ok::<
                Seq<EntryView>,
                ErrorKind,
            >(journal::entry_views(entries@)),
            Err(e) => !old(device).healthy() || extensible_on(old(device).blocks(), superblock)
                == Err::<Seq<EntryView>, ErrorKind>(e.kind),
        },
{
    match load_retained_journal_entries(device, superblock)? {
        Some(entries) => Ok(entries),
        None => {
            let log = load_journal_image(device, superblock)?;
            if !log.is_empty() {
                return Err(
                    Error::new(
                        ErrorKind::WouldBlock,
                        "active journal must be checkpointed before transactions are retained",
                    ),
                );
            }
            assert(journal::entry_views(log@) =~= Seq::<EntryView>::empty());
            Ok(log)
        },
    }
}

fn append_bytes(list: &mut Vec<u8>, more: &[u8])
    ensures
        final(list)@ == old(list)@ + more@,
{
    let ghost before = list@;
    let mut i: usize = 0;
    while i < more.len()
        invariant
            i <= more@.len(),
            list@ == before + more@.subrange(0, i as int),
        decreases more@.len() - i,
    {
        list.push(more[i]);
        assert(more@.subrange(0, i + 1) =~= more@.subrange(0, i as int).push(more@[i as int]));
        i += 1;
    }
    assert(more@.subrange(0, more@.len() as int) =~= more@);
}

/// Writes the blocks of a bank.
fn write_bank<D: BlockDevice>(device: &mut D, superblock: Superblock, bank: u16, body: &[u8]) -> (r: Result<(), Error>)
    requires
        superblock.fits(old(device).blocks()),
        bank == 1 || bank == 2,
        body@.len() == bank_blocks(superblock) * BLOCK_SIZE,
    ensures
        old(device).healthy() ==> final(device).healthy() && r is Ok,
        bank_only(final(device).blocks(), old(device).blocks(), superblock, bank as int),
        r is Ok ==> final(device).blocks() == journal_region::with_region(
            old(device).blocks(),
            bank_start(superblock, bank as int),
            bank_blocks(superblock),
            body@,
        ),
        block::settled(old(device)) ==> forall|image: Disk| #[trigger]
            final(device).durable().contains(image) ==> bank_only(
                image,
                old(device).blocks(),
                superblock,
                bank as int,
            ),
{
    let ghost base = device.blocks();
    let ghost was_settled = block::settled(device);
    proof {
        lemma_bank_place(superblock, bank as int);
    }
    let count: u64 = (superblock.journal_blocks - 1) / 2;
    let start: u64 = superblock.journal_start + 1 + if bank == 1 {
        0
    } else {
        count
    };
    let mut k: u64 = 0;
    while k < count
        invariant
            base == old(device).blocks(),
            was_settled == block::settled(old(device)),
            superblock.fits(base),
            count == bank_blocks(superblock),
            start == bank_start(superblock, bank as int),
            start + count <= base.len(),
            base.len() <= u64::MAX,
            body@.len() == count * BLOCK_SIZE,
            k <= count,
            old(device).healthy() ==> device.healthy(),
            bank_only(device.blocks(), base, superblock, bank as int),
            forall|j: int|
                0 <= j < k ==> #[trigger] device.blocks()[start + j] == region::chunk(body@, j),
            was_settled ==> forall|image: Disk| #[trigger]
                device.durable().contains(image) ==> bank_only(
                    image,
                    base,
                    superblock,
                    bank as int,
                ),
        decreases count - k,
    {
        assert(body.len() == body@.len());
        let at: usize = k as usize * BLOCK_SIZE;
        let block: Block = block_from(body, at);
        assert(block@ == region::chunk(body@, k as int));
        let ghost before = device.blocks();
        device.write_block(start + k, &block)?;
        assert forall|j: int| 0 <= j < k + 1 implies #[trigger] device.blocks()[start + j]
            == region::chunk(body@, j) by {
            if j < k {
                assert(before[start + j] == region::chunk(body@, j));
            }
        }
        k += 1;
    }
    proof {
        let target = journal_region::with_region(base, start as int, count as int, body@);
        assert(device.blocks() =~= target) by {
            assert forall|i: int| 0 <= i < base.len() implies device.blocks()[i] == target[i] by {
                if start <= i < start + count {
                    assert(device.blocks()[start + (i - start)] == region::chunk(body@, i - start));
                }
            }
        }
    }
    Ok(())
}

/// The parts of a snapshot: the anchor block and the bytes of the bank; none where the log does
/// not fit.
fn lay_out_snapshot(superblock: Superblock, bank: u16, entries: &[JournalEntry]) -> (r: Result<(Block, Vec<u8>), Error>)
    requires
        superblock.valid(),
        bank == 1 || bank == 2,
    ensures
        match r {
            Ok((anchor, body)) => {
                let image = snapshot(superblock, bank as int, journal::entry_views(entries@));
                &&& snapshot_fits(superblock, journal::entry_views(entries@))
                &&& anchor@ == anchor_for(image)
                &&& body@ == bank_for(image)
                &&& body@.len() == bank_blocks(superblock) * BLOCK_SIZE
            },
            Err(e) => !snapshot_fits(superblock, journal::entry_views(entries@)) && e.kind
                == ErrorKind::InvalidInput,
        },
{
    proof {
        lemma_bank_place(superblock, bank as int);
    }
    let count: u64 = (superblock.journal_blocks - 1) / 2;
    let capacity: usize = HEADER_SIZE + count as usize * BLOCK_SIZE;
    let payload = encode_entries(entries)?;
    let image = match seal(capacity, &RETAINED_MAGIC, RETAINED_VERSION, bank, payload.as_slice()) {
        Some(image) => image,
        None => return Err(invalid_input("retained journal exceeds its bank")),
    };
    proof {
        region::lemma_sealed(
            capacity as nat,
            RETAINED_MAGIC@,
            RETAINED_VERSION,
            bank,
            payload@,
        );
    }
    let mut padded = slice_to_vec(slice_subrange(image.as_slice(), 0, HEADER_SIZE));
    let padding = zero_vec(BLOCK_SIZE - HEADER_SIZE);
    append_bytes(&mut padded, padding.as_slice());
    let anchor: Block = block_from(padded.as_slice(), 0);
    assert(padded@.subrange(0, BLOCK_SIZE as int) =~= padded@);
    let body = slice_to_vec(slice_subrange(image.as_slice(), HEADER_SIZE, image.len()));
    Ok((anchor, body))
}

/// Puts a log in the place of the retained one. It takes effect when the anchor is written, once
/// its bank is durable; until then the old log stands.
pub fn replace_retained_journal_entries<D: BlockDevice>(device: &mut D, superblock: Superblock, entries: &[JournalEntry]) -> (r: Result<(), Error>)
    ensures
        step::follows(
            old(device),
            final(device),
            step::kinded(r),
            retain_step(old(device).blocks(), superblock, journal::entry_views(entries@)),
        ),
        safely(
            old(device),
            final(device),
            superblock,
            r is Ok,
            retain_step(old(device).blocks(), superblock, journal::entry_views(entries@)).disk,
        ),
        retain_step(old(device).blocks(), superblock, journal::entry_views(entries@)).result is Err
            ==> block::untouched(old(device), final(device)),
{
    let ghost base = device.blocks();
    let ghost views = journal::entry_views(entries@);
    let ghost end = retain_step(base, superblock, views).disk;
    let ghost was_settled = block::settled(device);
    load_extensible_entries(device, superblock)?;
    validate_entries(superblock, entries)?;
    let mut anchor: Block = [0u8; BLOCK_SIZE];
    device.read_block(superblock.journal_start, &mut anchor)?;
    let head: &[u8] = &anchor;
    let retaining: bool = is_marked(head, &RETAINED_MAGIC, RETAINED_VERSION);
    let bank: u16 = if retaining && read_u16(head, STATE_OFFSET) == 1 {
        2
    } else {
        1
    };
    assert(bank == next_bank(base, superblock));
    proof {
        lemma_bank_place(superblock, bank as int);
    }
    if entries.is_empty() {
        return store_empty_journal_anchor(device, superblock);
    }
    let (new_anchor, body) = lay_out_snapshot(superblock, bank, entries)?;
    proof {
        lemma_anchors_differ();
        if !retaining {
            journal_region::lemma_same_home(
                journal_region::emptied(base, superblock),
                base,
                superblock,
            );
        }
    }
    if !retaining {
        store_empty_journal_anchor(device, superblock)?;
    }
    let ghost ready = device.blocks();
    proof {
        assert(held_by(ready, superblock) == held_by(base, superblock));
    }
    let written = write_bank(device, superblock, bank, body.as_slice());
    proof {
        assert forall|image: Disk| #[trigger]
            bank_only(image, ready, superblock, bank as int) implies held_by(image, superblock)
            == held_by(base, superblock) by {
            if retaining {
                lemma_next_bank_is_free(image, ready, superblock);
            } else {
                lemma_anchors_differ();
                journal_region::lemma_same_home(image, base, superblock);
            }
        }
        assert(was_settled ==> forall|image: Disk| #[trigger]
            device.durable().contains(image) ==> bank_only(image, ready, superblock, bank as int));
        assert(bank_only(device.blocks(), ready, superblock, bank as int));
    }
    if written.is_err() {
        return written;
    }
    let ghost staged = device.blocks();
    device.flush()?;
    proof {
        assert(staged.update(superblock.journal_start as int, new_anchor@) =~= end);
    }
    device.write_block(superblock.journal_start, &new_anchor)?;
    device.flush()
}

} // verus!
