//! The journal on the device: one checksummed log image behind an anchor block.

use vstd::prelude::*;
use vstd::slice::*;
use crate::block;
use crate::block::{Block, BlockDevice, Disk, BLOCK_SIZE, BLOCK_SIZE_U64};
use crate::bytes;
use crate::bytes::{is_zero_run, read_u16};
use crate::error::{Error, ErrorKind};
use crate::format::Superblock;
use crate::journal;
use crate::journal::{EntryView, JournalEntry};
use crate::journal_codec;
use crate::journal_codec::{decode_entries, encode_entries};
use crate::recovery;
use crate::region;
use crate::region::{block_from, is_marked, open_payload, read_region, seal, HEADER_SIZE, STATE_OFFSET};
use crate::step;
use crate::step::Step;

verus! {

pub const REGION_MAGIC_V1: [u8; 4] = [0x4A, 0x52, 0x47, 0x31];

pub const REGION_MAGIC_V2: [u8; 4] = [0x4A, 0x52, 0x47, 0x32];

pub const REGION_VERSION_V1: u16 = 1;

pub const REGION_VERSION_V2: u16 = 2;

pub const REGION_STATE_EMPTY: u16 = 0;

pub const REGION_STATE_ACTIVE: u16 = 1;

/// A block that a log may write: anything but the superblock and the journal itself.
pub open spec fn is_home(sb: Superblock, block: u64) -> bool {
    sb.allocation_start <= block < sb.total_blocks
}

/// Every write of the log goes to a block that a log may write.
pub open spec fn home_only(sb: Superblock, entries: Seq<EntryView>) -> bool {
    forall|i: int|
        0 <= i < entries.len() ==> (#[trigger] entries[i] matches EntryView::Write { txid, block, data }
            ==> is_home(sb, block))
}

/// A log that may stand in the journal: transactions in order, writes where they are allowed.
pub open spec fn admissible(sb: Superblock, entries: Seq<EntryView>) -> bool {
    recovery::open_after(entries) is Some && home_only(sb, entries)
}

/// The anchor block of an empty journal.
pub open spec fn empty_anchor() -> Seq<u8> {
    region::sealed(
        BLOCK_SIZE as nat,
        REGION_MAGIC_V2@,
        REGION_VERSION_V2,
        REGION_STATE_EMPTY,
        Seq::empty(),
    )
}

/// The journal region that holds `entries`.
pub open spec fn active_region(sb: Superblock, entries: Seq<EntryView>) -> Seq<u8> {
    region::sealed(
        (sb.journal_blocks * BLOCK_SIZE) as nat,
        REGION_MAGIC_V2@,
        REGION_VERSION_V2,
        REGION_STATE_ACTIVE,
        journal_codec::entry_stream(entries),
    )
}

pub open spec fn marked(anchor: Seq<u8>, magic: [u8; 4], version: u16) -> bool {
    region::magic_of(anchor) == magic@ && region::version_of(anchor) == version
}

/// The log that a journal holds; none where it is corrupt.
pub open spec fn log_on(disk: Disk, sb: Superblock) -> Option<Seq<EntryView>> {
    let all = region::region_of(disk, sb.journal_start as int, sb.journal_blocks as nat);
    let anchor = disk[sb.journal_start as int];
    let state = region::state_of(anchor);
    if bytes::zero_run(all, 0, all.len() as int) {
        Some(Seq::empty())
    } else if (marked(anchor, REGION_MAGIC_V1, REGION_VERSION_V1) && state == 0) || (marked(
        anchor,
        REGION_MAGIC_V2,
        REGION_VERSION_V2,
    ) && state == REGION_STATE_ACTIVE) {
        match region::payload_of(all) {
            Some(payload) => match journal_codec::entries_of(payload) {
                Some(entries) => if admissible(sb, entries) {
                    Some(entries)
                } else {
                    None
                },
                None => None,
            },
            None => None,
        }
    } else if marked(anchor, REGION_MAGIC_V2, REGION_VERSION_V2) && state == REGION_STATE_EMPTY
        && region::payload_of(anchor) == Some(Seq::<u8>::empty()) {
        Some(Seq::empty())
    } else {
        None
    }
}

/// The log of a device, or how it is refused.
pub open spec fn image_on(disk: Disk, sb: Superblock) -> Result<Seq<EntryView>, ErrorKind> {
    if !sb.fits(disk) {
        Err(ErrorKind::InvalidInput)
    } else {
        match log_on(disk, sb) {
            Some(entries) => Ok(entries),
            None => Err(ErrorKind::InvalidData),
        }
    }
}

/// `disk` with `count` blocks from `start` on replaced by the chunks of `data`.
pub open spec fn with_region(disk: Disk, start: int, count: int, data: Seq<u8>) -> Disk {
    Seq::new(
        disk.len(),
        |i: int|
            if start <= i < start + count {
                region::chunk(data, i - start)
            } else {
                disk[i]
            },
    )
}

/// The journal emptied: its anchor block alone is rewritten.
pub open spec fn emptied(disk: Disk, sb: Superblock) -> Disk {
    disk.update(sb.journal_start as int, empty_anchor())
}

/// The log fits the journal.
pub open spec fn log_fits(sb: Superblock, entries: Seq<EntryView>) -> bool {
    HEADER_SIZE + journal_codec::entry_stream(entries).len() <= sb.journal_blocks * BLOCK_SIZE
}

/// Publication of a log: refused while an older log stands in the journal; a log that does not
/// fit leaves an empty journal behind.
pub open spec fn store_step(disk: Disk, sb: Superblock, entries: Seq<EntryView>) -> Step<()> {
    if !sb.fits(disk) {
        step::stay(disk, Err(ErrorKind::InvalidInput))
    } else if !admissible(sb, entries) {
        step::stay(disk, Err(ErrorKind::InvalidData))
    } else {
        match log_on(disk, sb) {
            None => step::stay(disk, Err(ErrorKind::InvalidData)),
            Some(old) => if old.len() > 0 {
                step::stay(disk, Err(ErrorKind::WouldBlock))
            } else if entries.len() == 0 {
                Step { disk: emptied(disk, sb), result: Ok(()) }
            } else if !log_fits(sb, entries) {
                Step { disk: emptied(disk, sb), result: Err(ErrorKind::InvalidInput) }
            } else {
                Step {
                    disk: with_region(
                        disk,
                        sb.journal_start as int,
                        sb.journal_blocks as int,
                        active_region(sb, entries),
                    ),
                    result: Ok(()),
                }
            },
        }
    }
}

/// What a file system holds once its journal is replayed: every block but the journal's own.
pub open spec fn home_of(disk: Disk, sb: Superblock) -> Option<Disk> {
    match log_on(disk, sb) {
        None => None,
        Some(entries) => Some(
            outside_journal(recovery::applied(disk, recovery::plan_of(entries).writes), sb),
        ),
    }
}

/// The blocks outside the journal; the journal's blocks are blanked out.
pub open spec fn outside_journal(disk: Disk, sb: Superblock) -> Disk {
    Seq::new(
        disk.len(),
        |i: int|
            if sb.journal_start <= i < sb.journal_start + sb.journal_blocks {
                Seq::empty()
            } else {
                disk[i]
            },
    )
}

/// Whenever power is lost, replaying the journal gives what the file system held before the
/// request or what it holds after it, and nothing else.
pub open spec fn all_or_nothing<D: BlockDevice>(before: &D, after: &D, sb: Superblock, end: Disk) -> bool {
    sb.fits(before.blocks()) && block::settled(before) ==> forall|image: Disk| #[trigger]
        after.durable().contains(image) ==> home_of(image, sb) == home_of(before.blocks(), sb)
            || home_of(image, sb) == home_of(end, sb)
}

/// A request with a journal behind it: all of it or nothing of it is done if power is lost, and
/// what it did is durable if it succeeded.
#[verifier::opaque]
pub open spec fn atomic<D: BlockDevice>(before: &D, after: &D, sb: Superblock, done: bool, end: Disk) -> bool {
    &&& all_or_nothing(before, after, sb, end)
    &&& block::settled(before) && done ==> block::settled(after)
}

/// The request did what `step` says, and did it atomically.
pub open spec fn carried_out<D: BlockDevice, T>(before: &D, after: &D, sb: Superblock, result: Result<T, ErrorKind>, step: Step<T>) -> bool {
    &&& step::follows(before, after, result, step)
    &&& atomic(before, after, sb, result is Ok, step.disk)
}

/// A request that writes nothing is atomic.
pub broadcast proof fn lemma_atomic_untouched<D: BlockDevice>(before: &D, after: &D, sb: Superblock, done: bool, end: Disk)
    requires
        block::untouched(before, after),
    ensures
        #[trigger] atomic(before, after, sb, done, end),
{
    reveal(atomic);
}

/// Reading before and afterwards makes no difference.
pub broadcast proof fn lemma_atomic_among_reads<D: BlockDevice>(before: &D, read: &D, written: &D, after: &D, sb: Superblock, first: bool, done: bool, end: Disk, goal: Disk)
    requires
        block::untouched(before, read),
        #[trigger] atomic(read, written, sb, first, end),
        block::untouched(written, after),
        done ==> first,
        home_of(goal, sb) == home_of(end, sb) || home_of(end, sb) == home_of(before.blocks(), sb),
    ensures
        #[trigger] atomic(before, after, sb, done, goal),
{
    reveal(atomic);
}

/// Two requests in a row are atomic where one of them keeps what the file system holds.
pub broadcast proof fn lemma_atomic_then<D: BlockDevice>(before: &D, mid: &D, read: &D, after: &D, sb: Superblock, first: bool, half: Disk, done: bool, end: Disk)
    requires
        #[trigger] atomic(before, mid, sb, first, half),
        #[trigger] atomic(read, after, sb, done, end),
        first,
        block::untouched(mid, read),
        mid.blocks() == half,
        half.len() == before.blocks().len(),
        home_of(half, sb) == home_of(before.blocks(), sb) || home_of(half, sb) == home_of(end, sb),
    ensures
        atomic(before, after, sb, done, end),
{
    reveal(atomic);
}

pub broadcast group group_atomic {
    lemma_atomic_untouched,
    lemma_atomic_among_reads,
    lemma_atomic_then,
}

/// A device whose anchor block is the empty one has an empty journal.
pub proof fn lemma_emptied(disk: Disk, sb: Superblock)
    requires
        sb.valid(),
        disk[sb.journal_start as int] == empty_anchor(),
    ensures
        log_on(disk, sb) == Some(Seq::<EntryView>::empty()),
        home_of(disk, sb) == Some(outside_journal(disk, sb)),
{
    region::lemma_sealed(
        BLOCK_SIZE as nat,
        REGION_MAGIC_V2@,
        REGION_VERSION_V2,
        REGION_STATE_EMPTY,
        Seq::empty(),
    );
    assert(REGION_MAGIC_V1@[3] != REGION_MAGIC_V2@[3]);
}

/// The published image of a log holds that log.
pub proof fn lemma_published(disk: Disk, sb: Superblock, entries: Seq<EntryView>)
    requires
        sb.fits(disk),
        admissible(sb, entries),
        log_fits(sb, entries),
        forall|i: int| 0 <= i < entries.len() ==> journal_codec::whole(#[trigger] entries[i]),
        forall|k: int|
            0 <= k < sb.journal_blocks ==> #[trigger] disk[sb.journal_start + k] == region::chunk(
                active_region(sb, entries),
                k,
            ),
    ensures
        log_on(disk, sb) == Some(entries),
{
    let image = active_region(sb, entries);
    let count = sb.journal_blocks as nat;
    let stream = journal_codec::entry_stream(entries);
    region::lemma_sealed(
        (sb.journal_blocks * BLOCK_SIZE) as nat,
        REGION_MAGIC_V2@,
        REGION_VERSION_V2,
        REGION_STATE_ACTIVE,
        stream,
    );
    region::lemma_region_chunks(disk, sb.journal_start as int, image, count);
    assert(image.subrange(0, image.len() as int) =~= image);
    let all = region::region_of(disk, sb.journal_start as int, count);
    assert(all == image);
    let anchor = disk[sb.journal_start as int];
    assert(disk[sb.journal_start + 0] == region::chunk(image, 0));
    assert(anchor.subrange(0, 4) =~= image.subrange(0, 4));
    bytes::lemma_fields_of_window(image, 0, BLOCK_SIZE as int, 4);
    bytes::lemma_fields_of_window(image, 0, BLOCK_SIZE as int, 6);
    assert(image.subrange(0, 4)[0] == REGION_MAGIC_V2@[0]);
    assert(all[0] != 0);
    journal_codec::law_stream_round_trip(entries);
}

fn invalid_data(message: &'static str) -> (e: Error)
    ensures
        e.kind == ErrorKind::InvalidData,
        e.message == message,
{
    Error::new(ErrorKind::InvalidData, message)
}

fn invalid_input(message: &'static str) -> (e: Error)
    ensures
        e.kind == ErrorKind::InvalidInput,
        e.message == message,
{
    Error::new(ErrorKind::InvalidInput, message)
}

pub(crate) fn validate_region<D: BlockDevice>(device: &D, superblock: Superblock) -> (r: Result<(), Error>)
    ensures
        match r {
            Ok(_) => superblock.fits(device.blocks()),
            Err(e) => !superblock.fits(device.blocks()) && e.kind == ErrorKind::InvalidInput,
        },
{
    if superblock.describes(device.block_count()) {
        Ok(())
    } else {
        Err(invalid_input("superblock does not describe the journal device"))
    }
}

pub(crate) fn validate_entries(superblock: Superblock, entries: &[JournalEntry]) -> (r: Result<(), Error>)
    ensures
        match r {
            Ok(_) => admissible(superblock, journal::entry_views(entries@)),
            Err(e) => !admissible(superblock, journal::entry_views(entries@)) && e.kind
                == ErrorKind::InvalidData,
        },
{
    let ghost views = journal::entry_views(entries@);
    let mut active: Option<u64> = None;
    let mut i: usize = 0;
    assert(views.subrange(0, 0) =~= Seq::<EntryView>::empty());
    while i < entries.len()
        invariant
            i <= entries@.len(),
            views == journal::entry_views(entries@),
            recovery::open_after(views.subrange(0, i as int)) == Some(active),
            home_only(superblock, views.subrange(0, i as int)),
        decreases entries@.len() - i,
    {
        let ghost next = views.subrange(0, i + 1);
        proof {
            assert(next.drop_last() =~= views.subrange(0, i as int));
            assert(next.last() == entries@[i as int]@);
            assert(views[i as int] == entries@[i as int]@);
            if recovery::open_after(next) is None {
                recovery::lemma_open_prefix(views, i + 1);
            }
        }
        match &entries[i] {
            JournalEntry::Begin { txid } => {
                if active.is_some() {
                    return Err(invalid_data("nested journal transaction"));
                }
                active = Some(*txid);
            },
            JournalEntry::Write { txid, block, data } => {
                if active.is_none() || active.unwrap() != *txid {
                    return Err(invalid_data("journal write does not match active transaction"));
                }
                if *block < superblock.allocation_start || *block >= superblock.total_blocks {
                    return Err(invalid_data("journal write targets forbidden or invalid block"));
                }
            },
            JournalEntry::Commit { txid } => {
                if active.is_none() || active.unwrap() != *txid {
                    return Err(invalid_data("journal commit does not match active transaction"));
                }
                active = None;
            },
        }
        assert forall|k: int| 0 <= k < next.len() implies (#[trigger] next[k] matches EntryView::Write {
            txid,
            block,
            data,
        } ==> is_home(superblock, block)) by {
            if k < i {
                assert(views.subrange(0, i as int)[k] == next[k]);
            }
        }
        i += 1;
    }
    assert(views.subrange(0, views.len() as int) =~= views);
    Ok(())
}

/// The number of bytes in the journal.
pub fn region_capacity(superblock: Superblock) -> (r: Result<usize, Error>)
    ensures
        match r {
            Ok(n) => n == superblock.journal_blocks * BLOCK_SIZE,
            Err(e) => superblock.journal_blocks * BLOCK_SIZE > usize::MAX && e.kind
                == ErrorKind::InvalidInput,
        },
{
    match superblock.journal_blocks.checked_mul(BLOCK_SIZE_U64) {
        Some(n) => if n <= usize::MAX as u64 {
            Ok(n as usize)
        } else {
            Err(invalid_input("journal region byte size exceeds usize"))
        },
        None => Err(invalid_input("journal region byte size overflow")),
    }
}

/// Publishes the empty anchor, once any replayed home state is durable. Only the anchor block is
/// rewritten; what the other journal blocks hold does not count while it stands.
pub(crate) fn store_empty_journal_anchor<D: BlockDevice>(device: &mut D, superblock: Superblock) -> (r: Result<(), Error>)
    ensures
        step::follows(
            old(device),
            final(device),
            step::kinded(r),
            if superblock.fits(old(device).blocks()) {
                (Step { disk: emptied(old(device).blocks(), superblock), result: Ok(()) })
            } else {
                step::stay(old(device).blocks(), Err(ErrorKind::InvalidInput))
            },
        ),
        block::settled(old(device)) ==> forall|image: Disk| #[trigger]
            final(device).durable().contains(image) ==> image == old(device).blocks() || (
            superblock.fits(old(device).blocks()) && image == emptied(
                old(device).blocks(),
                superblock,
            )),
        block::settled(old(device)) && r is Ok ==> block::settled(final(device)),
{
    validate_region(device, superblock)?;
    let empty: Vec<u8> = Vec::new();
    let sealed = seal(
        BLOCK_SIZE,
        &REGION_MAGIC_V2,
        REGION_VERSION_V2,
        REGION_STATE_EMPTY,
        empty.as_slice(),
    );
    assert(empty@ =~= Seq::<u8>::empty());
    let anchor: Vec<u8> = match sealed {
        Some(v) => v,
        None => return Err(invalid_input("journal anchor does not fit its block")),
    };
    proof {
        region::lemma_sealed(
            BLOCK_SIZE as nat,
            REGION_MAGIC_V2@,
            REGION_VERSION_V2,
            REGION_STATE_EMPTY,
            Seq::empty(),
        );
        assert(anchor@.subrange(0, BLOCK_SIZE as int) =~= empty_anchor());
    }
    let block: Block = block_from(anchor.as_slice(), 0);
    device.write_block(superblock.journal_start, &block)?;
    device.flush()
}

/// Loads and checks the log that the journal holds.
///
/// A journal of zeros is empty, and so is one behind an empty anchor whatever its other blocks
/// hold. Otherwise the header, the padding, the checksum, every record, the order of transactions
/// and the targets of the writes must be right.
pub fn load_journal_image<D: BlockDevice>(device: &mut D, superblock: Superblock) -> (r: Result<Vec<JournalEntry>, Error>)
    ensures
        block::untouched(old(device), final(device)),
        match r {
            Ok(entries) => image_on(old(device).blocks(), superblock) == Ok::<
                Seq<EntryView>,
                ErrorKind,
            >(journal::entry_views(entries@)),
            Err(e) => !old(device).healthy() || image_on(old(device).blocks(), superblock) == Err::<
                Seq<EntryView>,
                ErrorKind,
            >(e.kind),
        },
{
    let ghost disk = device.blocks();
    validate_region(device, superblock)?;
    let region = read_region(device, superblock.journal_start, superblock.journal_blocks)?;
    proof {
        region::lemma_region_first(disk, superblock.journal_start as int, superblock.journal_blocks as nat);
    }
    let anchor: &[u8] = slice_subrange(region.as_slice(), 0, BLOCK_SIZE);
    assert(anchor@ == disk[superblock.journal_start as int]);
    if is_zero_run(region.as_slice(), 0, region.len()) {
        let none: Vec<JournalEntry> = Vec::new();
        assert(journal::entry_views(none@) =~= Seq::<EntryView>::empty());
        return Ok(none);
    }
    let state: u16 = read_u16(anchor, STATE_OFFSET);
    let first = is_marked(anchor, &REGION_MAGIC_V1, REGION_VERSION_V1);
    let second = is_marked(anchor, &REGION_MAGIC_V2, REGION_VERSION_V2);
    if (first && state == 0) || (second && state == REGION_STATE_ACTIVE) {
        let payload = match open_payload(region.as_slice()) {
            Some(payload) => payload,
            None => return Err(invalid_data("journal region image is corrupt")),
        };
        let entries = decode_entries(payload.as_slice())?;
        validate_entries(superblock, entries.as_slice())?;
        Ok(entries)
    } else if second && state == REGION_STATE_EMPTY {
        match open_payload(anchor) {
            Some(payload) => if payload.len() == 0 {
                assert(payload@ =~= Seq::<u8>::empty());
                let none: Vec<JournalEntry> = Vec::new();
                assert(journal::entry_views(none@) =~= Seq::<EntryView>::empty());
                Ok(none)
            } else {
                Err(invalid_data("empty journal anchor has a payload"))
            },
            None => Err(invalid_data("empty journal anchor is corrupt")),
        }
    } else {
        Err(invalid_data("unsupported journal region magic, version or state"))
    }
}

/// `a` and `b` differ in the journal blocks behind the anchor at most.
spec fn tail_only(a: Disk, b: Disk, sb: Superblock) -> bool {
    &&& a.len() == b.len()
    &&& forall|i: int|
        0 <= i < a.len() && !(sb.journal_start < i < sb.journal_start + sb.journal_blocks)
            ==> #[trigger] a[i] == b[i]
}

/// A disk with an empty anchor holds what one with an empty log holds.
pub proof fn lemma_same_home(a: Disk, b: Disk, sb: Superblock)
    requires
        sb.fits(b),
        a.len() == b.len(),
        a[sb.journal_start as int] == empty_anchor(),
        log_on(b, sb) == Some(Seq::<EntryView>::empty()),
        forall|i: int|
            0 <= i < a.len() && !(sb.journal_start <= i < sb.journal_start + sb.journal_blocks)
                ==> #[trigger] a[i] == b[i],
    ensures
        home_of(a, sb) == home_of(b, sb),
{
    lemma_emptied(a, sb);
    assert(outside_journal(a, sb) =~= outside_journal(b, sb));
}

/// Writes the journal blocks behind the anchor, last one first.
fn stage_tail<D: BlockDevice>(device: &mut D, superblock: Superblock, region: &[u8]) -> (r: Result<(), Error>)
    requires
        superblock.fits(old(device).blocks()),
        region@.len() == superblock.journal_blocks * BLOCK_SIZE,
    ensures
        old(device).healthy() ==> final(device).healthy() && r is Ok,
        tail_only(final(device).blocks(), old(device).blocks(), superblock),
        r is Ok ==> forall|k: int|
            1 <= k < superblock.journal_blocks ==> #[trigger] final(device).blocks()[superblock.journal_start + k] == region::chunk(region@, k),
        block::settled(old(device)) ==> forall|image: Disk| #[trigger]
            final(device).durable().contains(image) ==> tail_only(
                image,
                old(device).blocks(),
                superblock,
            ),
{
    let ghost base = device.blocks();
    let ghost was_settled = block::settled(device);
    let mut index: u64 = superblock.journal_blocks;
    while index > 1
        invariant
            base == old(device).blocks(),
            was_settled == block::settled(old(device)),
            superblock.fits(base),
            region@.len() == superblock.journal_blocks * BLOCK_SIZE,
            1 <= index <= superblock.journal_blocks,
            old(device).healthy() ==> device.healthy(),
            tail_only(device.blocks(), base, superblock),
            forall|k: int|
                index <= k < superblock.journal_blocks
                    ==> #[trigger] device.blocks()[superblock.journal_start + k] == region::chunk(
                    region@,
                    k,
                ),
            was_settled ==> forall|image: Disk| #[trigger]
                device.durable().contains(image) ==> tail_only(image, base, superblock),
        decreases index,
    {
        index = index - 1;
        let at: usize = index as usize * BLOCK_SIZE;
        let block: Block = block_from(region, at);
        assert(block@ == region::chunk(region@, index as int));
        let ghost before = device.blocks();
        let ghost durable = device.durable();
        device.write_block(superblock.journal_start + index, &block)?;
        assert forall|k: int|
            index <= k
                < superblock.journal_blocks implies #[trigger] device.blocks()[superblock.journal_start
            + k] == region::chunk(region@, k) by {
            if k > index {
                assert(before[superblock.journal_start + k] == region::chunk(region@, k));
            }
        }
    }
    Ok(())
}

/// Publishes a log as the journal's contents.
///
/// An older log is never overwritten. The empty anchor is made durable first, so that a journal
/// whose other blocks are half written still reads as empty; then these blocks; then the anchor
/// that makes the log the journal's contents.
pub fn store_journal_image<D: BlockDevice>(device: &mut D, superblock: Superblock, entries: &[JournalEntry]) -> (r: Result<(), Error>)
    ensures
        carried_out(
            old(device),
            final(device),
            superblock,
            step::kinded(r),
            store_step(old(device).blocks(), superblock, journal::entry_views(entries@)),
        ),
        r is Ok ==> image_on(final(device).blocks(), superblock) == Ok::<
            Seq<EntryView>,
            ErrorKind,
        >(journal::entry_views(entries@)),
        (admissible(superblock, journal::entry_views(entries@)) && image_on(
            old(device).blocks(),
            superblock,
        ) == Ok::<Seq<EntryView>, ErrorKind>(Seq::empty())) || block::untouched(
            old(device),
            final(device),
        ),
{
    let ghost base = device.blocks();
    let ghost views = journal::entry_views(entries@);
    let ghost was_settled = block::settled(device);
    proof {
        reveal(atomic);
        assert forall|i: int| 0 <= i < views.len() implies journal_codec::whole(
            #[trigger] views[i],
        ) by {
            assert(views[i] == entries@[i]@);
        }
        law_store(base, superblock, views);
    }
    validate_region(device, superblock)?;
    validate_entries(superblock, entries)?;
    let old_log = load_journal_image(device, superblock)?;
    if !old_log.is_empty() {
        return Err(
            Error::new(
                ErrorKind::WouldBlock,
                "journal contains an older transaction; recover and checkpoint before replacement",
            ),
        );
    }
    assert(journal::entry_views(old_log@) =~= Seq::<EntryView>::empty());
    let ghost anchored = emptied(base, superblock);
    proof {
        lemma_same_home(anchored, base, superblock);
    }
    if entries.is_empty() {
        return store_empty_journal_anchor(device, superblock);
    }
    store_empty_journal_anchor(device, superblock)?;
    let payload = encode_entries(entries)?;
    let capacity: usize = region_capacity(superblock)?;
    let region = match seal(
        capacity,
        &REGION_MAGIC_V2,
        REGION_VERSION_V2,
        REGION_STATE_ACTIVE,
        payload.as_slice(),
    ) {
        Some(region) => region,
        None => return Err(invalid_input("journal image exceeds reserved region")),
    };
    let ghost image = active_region(superblock, views);
    proof {
        region::lemma_sealed(
            capacity as nat,
            REGION_MAGIC_V2@,
            REGION_VERSION_V2,
            REGION_STATE_ACTIVE,
            payload@,
        );
        assert(region@ == image);
    }
    let ghost end = store_step(base, superblock, views).disk;
    let staged = stage_tail(device, superblock, region.as_slice());
    proof {
        if was_settled {
            assert forall|i: Disk| #[trigger] device.durable().contains(i) implies home_of(
                i,
                superblock,
            ) == home_of(base, superblock) by {
                assert(tail_only(i, anchored, superblock));
                assert(i[superblock.journal_start as int] == empty_anchor());
                lemma_same_home(i, base, superblock);
            }
        }
    }
    if staged.is_err() {
        return staged;
    }
    let ghost tailed = device.blocks();
    proof {
        assert(tailed[superblock.journal_start as int] == empty_anchor());
        lemma_same_home(tailed, base, superblock);
    }
    if superblock.journal_blocks > 1 {
        device.flush()?;
    } else {
        assert(tailed =~= anchored);
        assert(was_settled ==> block::settled(device)) by {
            if was_settled {
                assert forall|i: Disk| #[trigger]
                    device.durable().contains(i) implies i == device.blocks() by {
                    assert(i =~= tailed);
                }
            }
        }
    }
    let first: Block = block_from(region.as_slice(), 0);
    proof {
        assert(first@ == region::chunk(image, 0));
        assert(tailed.update(superblock.journal_start as int, first@) =~= end) by {
            assert forall|i: int|
                superblock.journal_start < i < superblock.journal_start
                    + superblock.journal_blocks implies tailed[i] == end[i] by {
                assert(tailed[superblock.journal_start + (i - superblock.journal_start)]
                    == region::chunk(image, i - superblock.journal_start));
            }
        }
    }
    device.write_block(superblock.journal_start, &first)?;
    device.flush()
}

/// The log depends on the journal blocks only.
pub proof fn lemma_log_agree(a: Disk, b: Disk, sb: Superblock)
    requires
        sb.valid(),
        forall|i: int|
            sb.journal_start <= i < sb.journal_start + sb.journal_blocks ==> #[trigger] a[i]
                == b[i],
    ensures
        log_on(a, sb) == log_on(b, sb),
{
    region::lemma_region_agree(a, b, sb.journal_start as int, sb.journal_blocks as nat);
    assert(a[sb.journal_start as int] == b[sb.journal_start as int]);
}

/// Replayed writes go where a log may write.
pub proof fn lemma_plan_home(sb: Superblock, entries: Seq<EntryView>)
    requires
        home_only(sb, entries),
    ensures
        forall|k: int|
            0 <= k < recovery::plan_of(entries).writes.len() ==> is_home(
                sb,
                (#[trigger] recovery::plan_of(entries).writes[k]).0,
            ),
        forall|k: int|
            0 <= k < recovery::plan_of(entries).open.len() ==> is_home(
                sb,
                (#[trigger] recovery::plan_of(entries).open[k]).0,
            ),
    decreases entries.len(),
{
    if entries.len() > 0 {
        let front = entries.drop_last();
        assert forall|i: int| 0 <= i < front.len() implies (#[trigger] front[i] matches EntryView::Write {
            txid,
            block,
            data,
        } ==> is_home(sb, block)) by {
            assert(entries[i] == front[i]);
        }
        lemma_plan_home(sb, front);
        assert(entries[entries.len() - 1] == entries.last());
        let before = recovery::plan_of(front);
        let plan = recovery::plan_of(entries);
        assert forall|k: int| 0 <= k < plan.writes.len() implies is_home(
            sb,
            (#[trigger] plan.writes[k]).0,
        ) by {
            if k < before.writes.len() {
                assert(plan.writes[k] == before.writes[k]);
            } else {
                assert(plan.writes[k] == before.open[k - before.writes.len()]);
            }
        }
        assert forall|k: int| 0 <= k < plan.open.len() implies is_home(
            sb,
            (#[trigger] plan.open[k]).0,
        ) by {
            if k < before.open.len() {
                assert(plan.open[k] == before.open[k]);
            }
        }
    }
}

/// Replayed writes carry whole blocks where those of the log do.
pub proof fn lemma_plan_whole(entries: Seq<EntryView>)
    requires
        forall|i: int| 0 <= i < entries.len() ==> journal_codec::whole(#[trigger] entries[i]),
    ensures
        forall|k: int|
            0 <= k < recovery::plan_of(entries).writes.len() ==> (#[trigger] recovery::plan_of(
                entries,
            ).writes[k]).1.len() == BLOCK_SIZE,
        forall|k: int|
            0 <= k < recovery::plan_of(entries).open.len() ==> (#[trigger] recovery::plan_of(
                entries,
            ).open[k]).1.len() == BLOCK_SIZE,
    decreases entries.len(),
{
    if entries.len() > 0 {
        let front = entries.drop_last();
        assert forall|i: int| 0 <= i < front.len() implies journal_codec::whole(
            #[trigger] front[i],
        ) by {
            assert(entries[i] == front[i]);
        }
        lemma_plan_whole(front);
        assert(entries[entries.len() - 1] == entries.last());
        let before = recovery::plan_of(front);
        let plan = recovery::plan_of(entries);
        assert forall|k: int| 0 <= k < plan.writes.len() implies (#[trigger] plan.writes[k]).1.len()
            == BLOCK_SIZE by {
            if k < before.writes.len() {
                assert(plan.writes[k] == before.writes[k]);
            } else {
                assert(plan.writes[k] == before.open[k - before.writes.len()]);
            }
        }
        assert forall|k: int| 0 <= k < plan.open.len() implies (#[trigger] plan.open[k]).1.len()
            == BLOCK_SIZE by {
            if k < before.open.len() {
                assert(plan.open[k] == before.open[k]);
            }
        }
    }
}

/// The log of a device is admissible, and its writes carry whole blocks.
pub proof fn lemma_log_admissible(disk: Disk, sb: Superblock)
    ensures
        log_on(disk, sb) matches Some(entries) ==> admissible(sb, entries) && forall|i: int|
            0 <= i < entries.len() ==> journal_codec::whole(#[trigger] entries[i]),
{
    let all = region::region_of(disk, sb.journal_start as int, sb.journal_blocks as nat);
    if region::payload_of(all) is Some {
        let payload = region::payload_of(all)->Some_0;
        if crate::records::split(payload, 32) is Some {
            journal_codec::lemma_entries_whole(crate::records::split(payload, 32)->Some_0);
        }
    }
}

/// A disk that differs from `base` in blocks that the replay of its log rewrites has the same
/// home, and so has the replayed disk itself.
pub proof fn lemma_replay_home(base: Disk, image: Disk, sb: Superblock)
    requires
        sb.fits(base),
        image.len() == base.len(),
        log_on(base, sb) is Some,
        forall|i: int|
            0 <= i < base.len() && !recovery::targets(
                recovery::plan_of(log_on(base, sb)->Some_0).writes,
                i,
            ) ==> #[trigger] image[i] == base[i],
    ensures
        log_on(image, sb) == log_on(base, sb),
        home_of(image, sb) == home_of(base, sb),
        recovery::applied(image, recovery::plan_of(log_on(base, sb)->Some_0).writes)
            == recovery::applied(base, recovery::plan_of(log_on(base, sb)->Some_0).writes),
{
    let entries = log_on(base, sb)->Some_0;
    let writes = recovery::plan_of(entries).writes;
    lemma_log_admissible(base, sb);
    lemma_plan_home(sb, entries);
    assert forall|i: int|
        sb.journal_start <= i < sb.journal_start + sb.journal_blocks implies #[trigger] image[i]
        == base[i] by {
        if recovery::targets(writes, i) {
            let k = choose|k: int| 0 <= k < writes.len() && (#[trigger] writes[k]).0 == i;
            assert(is_home(sb, writes[k].0));
        }
    }
    lemma_log_agree(image, base, sb);
    recovery::lemma_applied_agree(image, base, writes);
}

/// A log that was published is what the journal then holds, and nothing outside the journal
/// changes. While a log stands in the journal any other is refused, the empty one too, and nothing
/// changes.
pub proof fn law_store(disk: Disk, sb: Superblock, entries: Seq<EntryView>)
    requires
        forall|i: int| 0 <= i < entries.len() ==> journal_codec::whole(#[trigger] entries[i]),
    ensures
        ({
            let s = store_step(disk, sb, entries);
            &&& s.disk.len() == disk.len()
            &&& forall|i: int|
                0 <= i < disk.len() && !(sb.journal_start <= i < sb.journal_start
                    + sb.journal_blocks) ==> #[trigger] s.disk[i] == disk[i]
            &&& s.result is Ok ==> image_on(s.disk, sb) == Ok::<Seq<EntryView>, ErrorKind>(entries)
            &&& image_on(disk, sb) matches Ok(log) ==> (log.len() > 0 && admissible(sb, entries)
                ==> s == step::stay(disk, Err::<(), ErrorKind>(ErrorKind::WouldBlock)))
            &&& image_on(disk, sb) matches Ok(log) ==> (log.len() > 0 ==> s.result is Err && s.disk
                == disk)
        }),
{
    let s = store_step(disk, sb, entries);
    if s.result is Ok {
        if entries.len() == 0 {
            assert(entries =~= Seq::<EntryView>::empty());
            lemma_emptied(s.disk, sb);
        } else {
            lemma_published(s.disk, sb, entries);
        }
    }
}

} // verus!
