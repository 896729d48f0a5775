//! The record format of log entries.

use vstd::prelude::*;
use vstd::slice::*;
use crate::block::{Block, BLOCK_SIZE};
use crate::bytes;
use crate::bytes::{
    holds_at, is_zero_run, put, put_u16, put_u32, put_u64, read_u16, read_u64, zero_vec,
};
use crate::error::{Error, ErrorKind};
use crate::journal;
use crate::journal::{EntryView, JournalEntry};
use crate::records;
use crate::records::split_records;
use crate::region::block_from;

verus! {

pub const ENTRY_MAGIC: [u8; 4] = [0x4A, 0x4E, 0x4C, 0x31];

/// Bytes in front of the data of an entry.
pub const ENTRY_HEADER_LEN: usize = 32;

pub const KIND_BEGIN: u16 = 1;

pub const KIND_WRITE: u16 = 2;

pub const KIND_COMMIT: u16 = 3;

const KIND_OFFSET: usize = 4;

const LEN_OFFSET: usize = 8;

const TXID_OFFSET: usize = 12;

const BLOCK_OFFSET: usize = 20;

/// The header of an entry of `total` bytes, followed by zeros.
pub open spec fn entry_header(total: nat, kind: u16, txid: u64, block: u64) -> Seq<u8> {
    bytes::patch(
        bytes::patch(
            bytes::patch(
                bytes::patch(
                    bytes::patch(bytes::zeros(total), 0, ENTRY_MAGIC@),
                    4,
                    bytes::le16(kind),
                ),
                8,
                bytes::le32(total as u32),
            ),
            12,
            bytes::le64(txid),
        ),
        20,
        bytes::le64(block),
    )
}

/// The record of an entry.
pub open spec fn entry_record(entry: EntryView) -> Seq<u8> {
    match entry {
        EntryView::Begin { txid } => entry_header(32, KIND_BEGIN, txid, 0),
        EntryView::Write { txid, block, data } => bytes::patch(
            entry_header(32 + data.len(), KIND_WRITE, txid, block),
            32,
            data,
        ),
        EntryView::Commit { txid } => entry_header(32, KIND_COMMIT, txid, 0),
    }
}

/// The entry that a record holds, if it holds one.
pub open spec fn entry_of(record: Seq<u8>) -> Option<EntryView> {
    let kind = bytes::at16(record, 4);
    let txid = bytes::at64(record, 12);
    let block = bytes::at64(record, 20);
    if record.len() < 32 || record.subrange(0, 4) != ENTRY_MAGIC@ || !bytes::zero_run(record, 6, 8)
        || !bytes::zero_run(record, 28, 32) {
        None
    } else if kind == KIND_BEGIN && record.len() == 32 && block == 0 {
        Some(EntryView::Begin { txid })
    } else if kind == KIND_WRITE && record.len() == 32 + BLOCK_SIZE {
        Some(EntryView::Write { txid, block, data: record.subrange(32, 32 + BLOCK_SIZE) })
    } else if kind == KIND_COMMIT && record.len() == 32 && block == 0 {
        Some(EntryView::Commit { txid })
    } else {
        None
    }
}

/// A write carries one whole block.
pub open spec fn whole(entry: EntryView) -> bool {
    entry matches EntryView::Write { txid, block, data } ==> data.len() == BLOCK_SIZE
}

/// The records of a list of entries.
pub open spec fn entry_records(entries: Seq<EntryView>) -> Seq<Seq<u8>> {
    Seq::new(entries.len(), |i: int| entry_record(entries[i]))
}

/// The stream of a list of entries.
pub open spec fn entry_stream(entries: Seq<EntryView>) -> Seq<u8> {
    records::joined(entry_records(entries))
}

/// The entries of a list of records; none where one of them holds no entry.
pub open spec fn entries_of_records(list: Seq<Seq<u8>>) -> Option<Seq<EntryView>>
    decreases list.len(),
{
    if list.len() == 0 {
        Some(Seq::empty())
    } else {
        match (entries_of_records(list.drop_last()), entry_of(list.last())) {
            (Some(front), Some(last)) => Some(front.push(last)),
            _ => None,
        }
    }
}

/// The entries of a stream; none where it is torn or holds something else.
pub open spec fn entries_of(stream: Seq<u8>) -> Option<Seq<EntryView>> {
    match records::split(stream, 32) {
        Some(list) => entries_of_records(list),
        None => None,
    }
}

pub proof fn law_entry_round_trip(entry: EntryView)
    requires
        whole(entry),
    ensures
        entry_of(entry_record(entry)) == Some(entry),
        records::delimited(entry_record(entry), 32),
        entry_record(entry).len() == if entry is Write {
            32 + BLOCK_SIZE as nat
        } else {
            32
        },
{
    broadcast use bytes::group_bytes;

    let record = entry_record(entry);
    assert(record.subrange(0, 4) =~= ENTRY_MAGIC@);
    match entry {
        EntryView::Write { txid, block, data } => {
            assert(record.subrange(32, 32 + BLOCK_SIZE) =~= data);
        },
        _ => {},
    }
}

proof fn lemma_entries_of_records(entries: Seq<EntryView>)
    requires
        forall|i: int| 0 <= i < entries.len() ==> whole(#[trigger] entries[i]),
    ensures
        entries_of_records(entry_records(entries)) == Some(entries),
    decreases entries.len(),
{
    if entries.len() > 0 {
        let front = entries.drop_last();
        lemma_entries_of_records(front);
        law_entry_round_trip(entries.last());
        assert(entry_records(entries).drop_last() =~= entry_records(front));
        assert(front.push(entries.last()) =~= entries);
    } else {
        assert(entries =~= Seq::<EntryView>::empty());
    }
}

/// Entries that were encoded decode to themselves.
pub proof fn law_stream_round_trip(entries: Seq<EntryView>)
    requires
        forall|i: int| 0 <= i < entries.len() ==> whole(#[trigger] entries[i]),
    ensures
        entries_of(entry_stream(entries)) == Some(entries),
{
    let list = entry_records(entries);
    assert forall|i: int| 0 <= i < list.len() implies records::delimited(#[trigger] list[i], 32) by {
        law_entry_round_trip(entries[i]);
    }
    records::lemma_split_joined(list, 32);
    lemma_entries_of_records(entries);
}

pub proof fn lemma_entries_whole(list: Seq<Seq<u8>>)
    ensures
        entries_of_records(list) matches Some(entries) ==> entries.len() == list.len()
            && forall|i: int| 0 <= i < entries.len() ==> whole(#[trigger] entries[i]),
    decreases list.len(),
{
    if list.len() > 0 {
        lemma_entries_whole(list.drop_last());
    }
}

fn encode_header(total: usize, kind: u16, txid: u64, block: u64) -> (v: Vec<u8>)
    requires
        32 <= total <= u32::MAX,
    ensures
        v@ == entry_header(total as nat, kind, txid, block),
        v@.len() == total,
{
    broadcast use bytes::group_bytes;

    let mut v = zero_vec(total);
    put(&mut v, 0, &ENTRY_MAGIC);
    put_u16(&mut v, KIND_OFFSET, kind);
    put_u32(&mut v, LEN_OFFSET, total as u32);
    put_u64(&mut v, TXID_OFFSET, txid);
    put_u64(&mut v, BLOCK_OFFSET, block);
    v
}

fn encode_entry(entry: &JournalEntry) -> (v: Vec<u8>)
    ensures
        v@ == entry_record(entry@),
{
    match entry {
        JournalEntry::Begin { txid } => encode_header(ENTRY_HEADER_LEN, KIND_BEGIN, *txid, 0),
        JournalEntry::Write { txid, block, data } => {
            let mut v = encode_header(ENTRY_HEADER_LEN + BLOCK_SIZE, KIND_WRITE, *txid, *block);
            put(&mut v, ENTRY_HEADER_LEN, data.as_slice());
            v
        },
        JournalEntry::Commit { txid } => encode_header(ENTRY_HEADER_LEN, KIND_COMMIT, *txid, 0),
    }
}

/// Encodes entries one after the other.
pub fn encode_entries(entries: &[JournalEntry]) -> (r: Result<Vec<u8>, Error>)
    ensures
        r matches Ok(v) && v@ == entry_stream(journal::entry_views(entries@)),
{
    let mut stream: Vec<u8> = Vec::new();
    let ghost views = journal::entry_views(entries@);
    let mut i: usize = 0;
    while i < entries.len()
        invariant
            i <= entries@.len(),
            views == journal::entry_views(entries@),
            stream@ == entry_stream(views.subrange(0, i as int)),
        decreases entries@.len() - i,
    {
        let mut record = encode_entry(&entries[i]);
        proof {
            let next = entry_records(views.subrange(0, i + 1));
            assert(next.drop_last() =~= entry_records(views.subrange(0, i as int)));
            assert(next.last() == record@);
        }
        stream.append(&mut record);
        i += 1;
    }
    assert(views.subrange(0, views.len() as int) =~= views);
    Ok(stream)
}

fn decode_entry(record: &[u8]) -> (r: Option<JournalEntry>)
    ensures
        match r {
            Some(entry) => entry_of(record@) == Some(entry@),
            None => entry_of(record@) is None,
        },
{
    if record.len() < ENTRY_HEADER_LEN || !holds_at(record, 0, &ENTRY_MAGIC) || !is_zero_run(
        record,
        6,
        8,
    ) || !is_zero_run(record, 28, 32) {
        return None;
    }
    let kind: u16 = read_u16(record, KIND_OFFSET);
    let txid: u64 = read_u64(record, TXID_OFFSET);
    let block: u64 = read_u64(record, BLOCK_OFFSET);
    if kind == KIND_BEGIN && record.len() == ENTRY_HEADER_LEN && block == 0 {
        Some(JournalEntry::Begin { txid })
    } else if kind == KIND_WRITE && record.len() == ENTRY_HEADER_LEN + BLOCK_SIZE {
        let data: Block = block_from(record, ENTRY_HEADER_LEN);
        Some(JournalEntry::Write { txid, block, data: Box::new(data) })
    } else if kind == KIND_COMMIT && record.len() == ENTRY_HEADER_LEN && block == 0 {
        Some(JournalEntry::Commit { txid })
    } else {
        None
    }
}

/// Decodes a stream of entries.
pub fn decode_entries(stream: &[u8]) -> (r: Result<Vec<JournalEntry>, Error>)
    ensures
        match r {
            Ok(entries) => entries_of(stream@) == Some(journal::entry_views(entries@)),
            Err(e) => entries_of(stream@) is None && e.kind == ErrorKind::InvalidData,
        },
{
    let list = match split_records(stream, ENTRY_HEADER_LEN) {
        Some(list) => list,
        None => return Err(Error::new(ErrorKind::InvalidData, "journal stream is torn")),
    };
    let ghost all = records::contents(list@);
    let mut entries: Vec<JournalEntry> = Vec::new();
    assert(journal::entry_views(entries@) =~= Seq::<EntryView>::empty());
    let mut i: usize = 0;
    while i < list.len()
        invariant
            i <= list@.len(),
            all == records::contents(list@),
            entries_of_records(all.subrange(0, i as int)) == Some(journal::entry_views(entries@)),
            records::split(stream@, 32) == Some(all),
        decreases list@.len() - i,
    {
        proof {
            let next = all.subrange(0, i + 1);
            assert(next.drop_last() =~= all.subrange(0, i as int));
            assert(next.last() == list@[i as int]@);
        }
        match decode_entry(list[i].as_slice()) {
            Some(entry) => {
                let ghost before = journal::entry_views(entries@);
                entries.push(entry);
                assert(journal::entry_views(entries@) =~= before.push(entry@));
            },
            None => {
                proof {
                    lemma_prefix_fails(all, i + 1);
                }
                return Err(Error::new(ErrorKind::InvalidData, "journal record is corrupt"));
            },
        }
        i += 1;
    }
    assert(all.subrange(0, all.len() as int) =~= all);
    Ok(entries)
}

proof fn lemma_prefix_fails(list: Seq<Seq<u8>>, k: int)
    requires
        0 <= k <= list.len(),
        entries_of_records(list.subrange(0, k)) is None,
    ensures
        entries_of_records(list) is None,
    decreases list.len(),
{
    if k == list.len() {
        assert(list.subrange(0, k) =~= list);
    } else {
        assert(list.drop_last().subrange(0, k) =~= list.subrange(0, k));
        lemma_prefix_fails(list.drop_last(), k);
    }
}

} // verus!
