//! The directory table on the device.

use vstd::prelude::*;
use crate::block;
use crate::block::{BlockDevice, Disk, BLOCK_SIZE};
use crate::bytes::read_u16;
use crate::error::{Error, ErrorKind};
use crate::format::Superblock;
use crate::directory_codec;
use crate::directory_codec::{decode_directory_entry, encode_directory_entry, DirEntryView, PersistedDirectoryEntry, DIRECTORY_ENTRY_HEADER_LEN};
use crate::records;
use crate::records::split_records;
use crate::region;
use crate::region::{is_marked, open_payload, read_region, seal, HEADER_SIZE, STATE_OFFSET};

verus! {

pub const DIRECTORY_TABLE_MAGIC: [u8; 4] = [0x44, 0x49, 0x52, 0x31];

pub const DIRECTORY_TABLE_VERSION: u16 = 1;

/// Bytes in front of the records.
pub const DIRECTORY_TABLE_HEADER_LEN: usize = 32;

/// The values of a list of entries.
pub open spec fn entry_views(entries: Seq<PersistedDirectoryEntry>) -> Seq<DirEntryView> {
    Seq::new(entries.len(), |i: int| entries[i]@)
}

/// The records of a list of entries; none where one of them has no record.
pub open spec fn entry_records(entries: Seq<DirEntryView>) -> Option<Seq<Seq<u8>>>
    decreases entries.len(),
{
    if entries.len() == 0 {
        Some(Seq::empty())
    } else {
        match (entry_records(entries.drop_last()), directory_codec::encoded_entry(entries.last())) {
            (Some(front), Some(last)) => Some(front.push(last)),
            _ => None,
        }
    }
}

/// The region that holds a list of entries; none where an entry has no record or the records do
/// not fit.
pub open spec fn directory_region(sb: Superblock, entries: Seq<DirEntryView>) -> Option<Seq<u8>> {
    let capacity = sb.directory_blocks * BLOCK_SIZE;
    match entry_records(entries) {
        Some(list) => if HEADER_SIZE + records::joined(list).len() <= capacity {
            Some(
                region::sealed(
                    capacity as nat,
                    DIRECTORY_TABLE_MAGIC@,
                    DIRECTORY_TABLE_VERSION,
                    0,
                    records::joined(list),
                ),
            )
        } else {
            None
        },
        None => None,
    }
}

/// The entries of a list of records, or how the first bad one is refused.
pub open spec fn entries_of_records(list: Seq<Seq<u8>>) -> Result<Seq<DirEntryView>, ErrorKind>
    decreases list.len(),
{
    if list.len() == 0 {
        Ok(Seq::empty())
    } else {
        match entries_of_records(list.drop_last()) {
            Err(kind) => Err(kind),
            Ok(front) => match directory_codec::decoded_entry(list.last()) {
                Some(last) => Ok(front.push(last)),
                None => Err(ErrorKind::InvalidData),
            },
        }
    }
}

/// The entries that a region holds, or how it is refused.
pub open spec fn entries_of(data: Seq<u8>) -> Result<Seq<DirEntryView>, ErrorKind> {
    if region::magic_of(data) != DIRECTORY_TABLE_MAGIC@ || region::version_of(data)
        != DIRECTORY_TABLE_VERSION || region::state_of(data) != 0 {
        Err(ErrorKind::InvalidData)
    } else {
        match region::payload_of(data) {
            Some(payload) => match records::split(payload, DIRECTORY_ENTRY_HEADER_LEN as int) {
                Some(list) => entries_of_records(list),
                None => Err(ErrorKind::InvalidData),
            },
            None => Err(ErrorKind::InvalidData),
        }
    }
}

/// The entries of a device, or how they are refused.
#[verifier::opaque]
pub open spec fn entries_on(disk: Disk, sb: Superblock) -> Result<Seq<DirEntryView>, ErrorKind> {
    if !sb.fits(disk) {
        Err(ErrorKind::InvalidInput)
    } else {
        entries_of(region::region_of(disk, sb.directory_start as int, sb.directory_blocks as nat))
    }
}

proof fn lemma_records_round_trip(entries: Seq<DirEntryView>)
    requires
        entry_records(entries) is Some,
    ensures
        entry_records(entries)->Some_0.len() == entries.len(),
        forall|i: int|
            0 <= i < entries.len() ==> records::delimited(
                #[trigger] entry_records(entries)->Some_0[i],
                DIRECTORY_ENTRY_HEADER_LEN as int,
            ),
        entries_of_records(entry_records(entries)->Some_0) == Ok::<Seq<DirEntryView>, ErrorKind>(
            entries,
        ),
    decreases entries.len(),
{
    let list = entry_records(entries)->Some_0;
    if entries.len() > 0 {
        let front = entries.drop_last();
        lemma_records_round_trip(front);
        directory_codec::law_entry_round_trip(entries.last());
        assert(list.drop_last() =~= entry_records(front)->Some_0);
        assert(front.push(entries.last()) =~= entries);
    } else {
        assert(entries =~= Seq::<DirEntryView>::empty());
    }
}

/// Entries that were laid out read back.
pub proof fn law_directory_table_round_trip(sb: Superblock, entries: Seq<DirEntryView>)
    requires
        sb.valid(),
        directory_region(sb, entries) is Some,
    ensures
        entries_of(directory_region(sb, entries)->Some_0) == Ok::<Seq<DirEntryView>, ErrorKind>(
            entries,
        ),
        directory_region(sb, entries)->Some_0.len() == sb.directory_blocks * BLOCK_SIZE,
{
    let list = entry_records(entries)->Some_0;
    lemma_records_round_trip(entries);
    records::lemma_split_joined(list, DIRECTORY_ENTRY_HEADER_LEN as int);
    region::lemma_sealed(
        (sb.directory_blocks * BLOCK_SIZE) as nat,
        DIRECTORY_TABLE_MAGIC@,
        DIRECTORY_TABLE_VERSION,
        0,
        records::joined(list),
    );
}

proof fn lemma_records_again(list: Seq<Seq<u8>>)
    ensures
        entries_of_records(list) matches Ok(entries) ==> entry_records(entries) == Some(list),
    decreases list.len(),
{
    if list.len() > 0 {
        let front = list.drop_last();
        lemma_records_again(front);
        directory_codec::law_entry_encoding(list.last());
        if let Ok(entries) = entries_of_records(list) {
            assert(entries.drop_last() =~= entries_of_records(front)->Ok_0);
            assert(front.push(list.last()) =~= list);
        }
    } else {
        assert(entry_records(Seq::empty())->Some_0 =~= list);
    }
}

/// A region that holds entries is the one in which these are laid out.
pub proof fn law_directory_table_encoding(sb: Superblock, data: Seq<u8>)
    requires
        sb.valid(),
        data.len() == sb.directory_blocks * BLOCK_SIZE,
    ensures
        entries_of(data) matches Ok(entries) ==> directory_region(sb, entries) == Some(data),
{
    if let Ok(entries) = entries_of(data) {
        let payload = region::payload_of(data)->Some_0;
        let list = records::split(payload, DIRECTORY_ENTRY_HEADER_LEN as int)->Some_0;
        assert(data.len() >= HEADER_SIZE);
        region::lemma_resealed(data);
        records::lemma_joined_split(payload, DIRECTORY_ENTRY_HEADER_LEN as int);
        lemma_records_again(list);
    }
}

proof fn lemma_prefix_error(list: Seq<Seq<u8>>, k: int)
    requires
        0 <= k <= list.len(),
        entries_of_records(list.subrange(0, k)) is Err,
    ensures
        entries_of_records(list) == entries_of_records(list.subrange(0, k)),
    decreases list.len(),
{
    if k == list.len() {
        assert(list.subrange(0, k) =~= list);
    } else {
        assert(list.drop_last().subrange(0, k) =~= list.subrange(0, k));
        lemma_prefix_error(list.drop_last(), k);
    }
}

proof fn lemma_prefix_unencodable(entries: Seq<DirEntryView>, k: int)
    requires
        0 <= k <= entries.len(),
        entry_records(entries.subrange(0, k)) is None,
    ensures
        entry_records(entries) is None,
    decreases entries.len(),
{
    if k == entries.len() {
        assert(entries.subrange(0, k) =~= entries);
    } else {
        assert(entries.drop_last().subrange(0, k) =~= entries.subrange(0, k));
        lemma_prefix_unencodable(entries.drop_last(), k);
    }
}

fn corrupt(message: &'static str) -> (e: Error)
    ensures
        e.kind == ErrorKind::InvalidData,
        e.message == message,
{
    Error::new(ErrorKind::InvalidData, message)
}

/// Loads the entries of a device.
pub fn load_directory_table<D: BlockDevice>(device: &mut D, superblock: &Superblock) -> (r: Result<Vec<PersistedDirectoryEntry>, Error>)
    ensures
        block::untouched(old(device), final(device)),
        match r {
            Ok(entries) => {
                &&& entries_on(old(device).blocks(), *superblock) == Ok::<Seq<DirEntryView>, ErrorKind>(
                    entry_views(entries@),
                )
                &&& superblock.fits(old(device).blocks())
            },
            Err(e) => !old(device).healthy() || entries_on(old(device).blocks(), *superblock)
                == Err::<Seq<DirEntryView>, ErrorKind>(e.kind),
        },
{
    proof {
        reveal(entries_on);
    }
    if !superblock.describes(device.block_count()) {
        return Err(
            Error::new(ErrorKind::InvalidInput, "superblock does not describe the device"),
        );
    }
    let data = read_region(device, superblock.directory_start, superblock.directory_blocks)?;
    let region = data.as_slice();
    if !is_marked(region, &DIRECTORY_TABLE_MAGIC, DIRECTORY_TABLE_VERSION) || read_u16(region, STATE_OFFSET)
        != 0 {
        return Err(corrupt("directory table header is invalid"));
    }
    let payload = match open_payload(region) {
        Some(payload) => payload,
        None => return Err(corrupt("directory table is corrupt")),
    };
    let list = match split_records(payload.as_slice(), DIRECTORY_ENTRY_HEADER_LEN) {
        Some(list) => list,
        None => return Err(corrupt("directory table record is torn")),
    };
    let ghost all = records::contents(list@);
    let mut entries: Vec<PersistedDirectoryEntry> = Vec::new();
    assert(entry_views(entries@) =~= Seq::<DirEntryView>::empty());
    let mut i: usize = 0;
    while i < list.len()
        invariant
            i <= list@.len(),
            all == records::contents(list@),
            entries_of_records(all.subrange(0, i as int)) == Ok::<Seq<DirEntryView>, ErrorKind>(
                entry_views(entries@),
            ),
            entries_on(old(device).blocks(), *superblock) == entries_of_records(all),
            block::untouched(old(device), device),
        decreases list@.len() - i,
    {
        proof {
            let next = all.subrange(0, i + 1);
            assert(next.drop_last() =~= all.subrange(0, i as int));
            assert(next.last() == list@[i as int]@);
        }
        match decode_directory_entry(list[i].as_slice()) {
            Ok(entry) => {
                let ghost before = entry_views(entries@);
                entries.push(entry);
                assert(entry_views(entries@) =~= before.push(entry@));
            },
            Err(e) => {
                proof {
                    lemma_prefix_error(all, i + 1);
                }
                return Err(e);
            },
        }
        i += 1;
    }
    assert(all.subrange(0, all.len() as int) =~= all);
    Ok(entries)
}

/// Lays entries out as the bytes of the table's region.
pub fn render_directory_table(superblock: &Superblock, entries: &[PersistedDirectoryEntry]) -> (r: Result<Vec<u8>, Error>)
    requires
        superblock.valid(),
    ensures
        match r {
            Ok(v) => directory_region(*superblock, entry_views(entries@)) == Some(v@),
            Err(e) => directory_region(*superblock, entry_views(entries@)) is None && e.kind
                == ErrorKind::InvalidInput,
        },
{
    let ghost views = entry_views(entries@);
    let mut payload: Vec<u8> = Vec::new();
    let mut i: usize = 0;
    assert(views.subrange(0, 0) =~= Seq::<DirEntryView>::empty());
    assert(payload@ =~= records::joined(Seq::empty()));
    while i < entries.len()
        invariant
            i <= entries@.len(),
            views == entry_views(entries@),
            entry_records(views.subrange(0, i as int)) is Some,
            payload@ == records::joined(entry_records(views.subrange(0, i as int))->Some_0),
        decreases entries@.len() - i,
    {
        let ghost next = views.subrange(0, i + 1);
        proof {
            assert(next.drop_last() =~= views.subrange(0, i as int));
            assert(next.last() == entries@[i as int]@);
        }
        match encode_directory_entry(&entries[i]) {
            Ok(record) => {
                let mut record = record;
                proof {
                    let list = entry_records(next)->Some_0;
                    assert(list.drop_last() =~= entry_records(next.drop_last())->Some_0);
                }
                payload.append(&mut record);
            },
            Err(e) => {
                proof {
                    lemma_prefix_unencodable(views, i + 1);
                }
                return Err(e);
            },
        }
        i += 1;
    }
    assert(views.subrange(0, views.len() as int) =~= views);
    let capacity: usize = superblock.directory_blocks as usize * BLOCK_SIZE;
    match seal(capacity, &DIRECTORY_TABLE_MAGIC, DIRECTORY_TABLE_VERSION, 0, payload.as_slice()) {
        Some(v) => Ok(v),
        None => Err(Error::new(ErrorKind::InvalidInput, "directory table exceeds its region")),
    }
}

} // verus!
