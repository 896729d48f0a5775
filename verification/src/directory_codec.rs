//! Directory entries as they are persisted.

use vstd::prelude::*;
use vstd::slice::*;
use vstd::string::*;
use vstd::utf8::*;
use crate::bytes;
use crate::bytes::{crc32, holds_at, put, put_u16, put_u32, put_u64, read_u16, read_u32, read_u64, zero_vec};
use crate::error::{Error, ErrorKind};
use crate::names::{chars_of, text_from_utf8};
use crate::records;

verus! {

pub const DIRECTORY_ENTRY_MAGIC: [u8; 4] = [0x44, 0x4E, 0x54, 0x31];

pub const DIRECTORY_ENTRY_VERSION: u16 = 1;

/// Bytes in front of the name.
pub const DIRECTORY_ENTRY_HEADER_LEN: usize = 32;

/// The longest name, in bytes.
pub const DIRECTORY_NAME_MAX_BYTES: usize = 255;

const VERSION_OFFSET: usize = 4;

const NAME_LEN_OFFSET: usize = 6;

const TOTAL_LEN_OFFSET: usize = 8;

const PARENT_OFFSET: usize = 12;

const TARGET_OFFSET: usize = 20;

const CRC_OFFSET: usize = 28;

/// A directory entry as a value.
pub struct DirEntryView {
    pub parent: u64,
    pub target: u64,
    pub name: Seq<char>,
}

/// A name that an entry may have.
pub open spec fn valid_name(name: Seq<char>) -> bool {
    &&& 0 < encode_utf8(name).len() <= DIRECTORY_NAME_MAX_BYTES
    &&& !name.contains('/')
    &&& !name.contains('\0')
    &&& name != seq!['.']
    &&& name != seq!['.', '.']
}

/// An entry that may be persisted.
pub open spec fn valid_entry(entry: DirEntryView) -> bool {
    entry.parent != 0 && entry.target != 0 && valid_name(entry.name)
}

/// A directory entry: `name` in the directory `parent` stands for the inode `target`.
#[derive(Debug, PartialEq, Eq)]
pub struct PersistedDirectoryEntry {
    pub parent: u64,
    pub target: u64,
    pub name: String,
}

impl View for PersistedDirectoryEntry {
    type V = DirEntryView;

    open spec fn view(&self) -> DirEntryView {
        DirEntryView { parent: self.parent, target: self.target, name: self.name@ }
    }
}

impl Clone for PersistedDirectoryEntry {
    fn clone(&self) -> (r: Self)
        ensures
            r@ == self@,
    {
        PersistedDirectoryEntry {
            parent: self.parent,
            target: self.target,
            name: self.name.clone(),
        }
    }
}

/// A record without its checksum.
pub open spec fn unsummed_entry(entry: DirEntryView) -> Seq<u8> {
    let name = encode_utf8(entry.name);
    bytes::patch(
        bytes::patch(
            bytes::patch(
                bytes::patch(
                    bytes::patch(
                        bytes::patch(
                            bytes::patch(
                                bytes::zeros(32 + name.len()),
                                0,
                                DIRECTORY_ENTRY_MAGIC@,
                            ),
                            4,
                            bytes::le16(DIRECTORY_ENTRY_VERSION),
                        ),
                        6,
                        bytes::le16(name.len() as u16),
                    ),
                    8,
                    bytes::le32((32 + name.len()) as u32),
                ),
                12,
                bytes::le64(entry.parent),
            ),
            20,
            bytes::le64(entry.target),
        ),
        32,
        name,
    )
}

/// The checksum of a record, with its checksum field taken as zero.
pub open spec fn entry_sum(record: Seq<u8>) -> u32 {
    bytes::crc32_of(bytes::patch(record, 28, bytes::zeros(4)))
}

/// The record of an entry; none where the entry may not be persisted.
pub open spec fn encoded_entry(entry: DirEntryView) -> Option<Seq<u8>> {
    if valid_entry(entry) {
        let plain = unsummed_entry(entry);
        Some(bytes::patch(plain, 28, bytes::le32(entry_sum(plain))))
    } else {
        None
    }
}

/// The entry that a record holds; none where it is corrupt.
pub open spec fn decoded_entry(record: Seq<u8>) -> Option<DirEntryView> {
    let name = record.subrange(32, record.len() as int);
    if record.len() >= 32 && record.subrange(0, 4) == DIRECTORY_ENTRY_MAGIC@ && bytes::at16(
        record,
        4,
    ) == DIRECTORY_ENTRY_VERSION && bytes::at16(record, 6) == name.len() && bytes::at32(record, 8)
        == record.len() && entry_sum(record) == bytes::at32(record, 28) && valid_utf8(name) {
        let entry = DirEntryView {
            parent: bytes::at64(record, 12),
            target: bytes::at64(record, 20),
            name: decode_utf8(name),
        };
        if valid_entry(entry) {
            Some(entry)
        } else {
            None
        }
    } else {
        None
    }
}

/// The record of an entry decodes to that entry and says how long it is.
pub proof fn law_entry_round_trip(entry: DirEntryView)
    requires
        valid_entry(entry),
    ensures
        decoded_entry(encoded_entry(entry)->Some_0) == Some(entry),
        records::delimited(encoded_entry(entry)->Some_0, 32),
        encoded_entry(entry)->Some_0.len() == 32 + encode_utf8(entry.name).len(),
{
    broadcast use bytes::group_bytes;

    let name = encode_utf8(entry.name);
    let plain = unsummed_entry(entry);
    let record = encoded_entry(entry)->Some_0;
    encode_utf8_valid_utf8(entry.name);
    encode_utf8_decode_utf8(entry.name);
    assert(record.subrange(0, 4) =~= DIRECTORY_ENTRY_MAGIC@);
    assert(record.subrange(32, record.len() as int) =~= name);
    assert(bytes::patch(record, 28, bytes::zeros(4)) =~= plain);
    assert(bytes::patch(plain, 28, bytes::zeros(4)) =~= plain);
}

/// A record that decodes is the encoding of its entry: there is one record for each entry.
pub proof fn law_entry_encoding(record: Seq<u8>)
    ensures
        decoded_entry(record) matches Some(entry) ==> encoded_entry(entry) == Some(record),
{
    broadcast use bytes::group_bytes;

    if let Some(entry) = decoded_entry(record) {
        let name = record.subrange(32, record.len() as int);
        let plain = unsummed_entry(entry);
        decode_utf8_encode_utf8(name);
        assert(DIRECTORY_ENTRY_MAGIC@.len() == 4);
        assert(plain.len() == record.len());
        assert forall|i: int| 0 <= i < record.len() && !(28 <= i < 32) implies plain[i]
            == record[i] by {
            if i < 4 {
                assert(record.subrange(0, 4)[i] == record[i]);
            } else if i < 6 {
                bytes::lemma_field_bytes(record, 4);
                assert(record.subrange(4, 6)[i - 4] == record[i]);
            } else if i < 8 {
                bytes::lemma_field_bytes(record, 6);
                assert(record.subrange(6, 8)[i - 6] == record[i]);
            } else if i < 12 {
                bytes::lemma_field_bytes(record, 8);
                assert(record.subrange(8, 12)[i - 8] == record[i]);
            } else if i < 20 {
                bytes::lemma_field_bytes(record, 12);
                assert(record.subrange(12, 20)[i - 12] == record[i]);
            } else if i < 28 {
                bytes::lemma_field_bytes(record, 20);
                assert(record.subrange(20, 28)[i - 20] == record[i]);
            } else {
                assert(name[i - 32] == record[i]);
            }
        }
        assert(bytes::patch(plain, 28, bytes::zeros(4)) =~= bytes::patch(
            record,
            28,
            bytes::zeros(4),
        ));
        bytes::lemma_field_bytes(record, 28);
        let e = bytes::patch(plain, 28, bytes::le32(entry_sum(plain)));
        assert forall|i: int| 0 <= i < record.len() implies e[i] == record[i] by {
            if 28 <= i < 32 {
                assert(record.subrange(28, 32)[i - 28] == record[i]);
            }
        }
        assert(e =~= record);
    }
}

/// Whether an entry may have this name.
pub fn is_valid_name(name: &str) -> (b: bool)
    ensures
        b == valid_name(name@),
{
    let bytes = name.as_bytes();
    if bytes.len() == 0 || bytes.len() > DIRECTORY_NAME_MAX_BYTES {
        return false;
    }
    let chars = chars_of(name);
    let mut i: usize = 0;
    while i < chars.len()
        invariant
            i <= chars@.len(),
            chars@ == name@,
            forall|k: int| 0 <= k < i ==> chars@[k] != '/' && #[trigger] chars@[k] != '\0',
        decreases chars@.len() - i,
    {
        if chars[i] == '/' {
            assert(name@.contains('/'));
            return false;
        }
        if chars[i] == '\0' {
            assert(name@.contains('\0'));
            return false;
        }
        i += 1;
    }
    if chars.len() == 1 && chars[0] == '.' {
        assert(name@ =~= seq!['.']);
        return false;
    }
    if chars.len() == 2 && chars[0] == '.' && chars[1] == '.' {
        assert(name@ =~= seq!['.', '.']);
        return false;
    }
    assert(seq!['.'][0] == '.');
    assert(seq!['.', '.'][1] == '.' && seq!['.', '.'][0] == '.');
    true
}

fn sum_of(record: &[u8]) -> (crc: u32)
    requires
        record@.len() >= 32,
    ensures
        crc == entry_sum(record@),
{
    let mut summed: Vec<u8> = slice_to_vec(record);
    let blank = zero_vec(4);
    put(&mut summed, CRC_OFFSET, blank.as_slice());
    crc32(summed.as_slice())
}

/// Encodes one entry as a self-delimiting, checksummed record.
pub fn encode_directory_entry(entry: &PersistedDirectoryEntry) -> (r: Result<Vec<u8>, Error>)
    ensures
        match r {
            Ok(v) => encoded_entry(entry@) == Some(v@),
            Err(e) => encoded_entry(entry@) is None && e.kind == ErrorKind::InvalidInput,
        },
{
    broadcast use bytes::group_bytes;

    if entry.parent == 0 || entry.target == 0 || !is_valid_name(entry.name.as_str()) {
        return Err(Error::new(ErrorKind::InvalidInput, "directory entry is invalid"));
    }
    let name = entry.name.as_str().as_bytes();
    let total: usize = DIRECTORY_ENTRY_HEADER_LEN + name.len();
    let mut record = zero_vec(total);
    put(&mut record, 0, &DIRECTORY_ENTRY_MAGIC);
    put_u16(&mut record, VERSION_OFFSET, DIRECTORY_ENTRY_VERSION);
    put_u16(&mut record, NAME_LEN_OFFSET, name.len() as u16);
    put_u32(&mut record, TOTAL_LEN_OFFSET, total as u32);
    put_u64(&mut record, PARENT_OFFSET, entry.parent);
    put_u64(&mut record, TARGET_OFFSET, entry.target);
    put(&mut record, DIRECTORY_ENTRY_HEADER_LEN, name);
    let crc: u32 = sum_of(record.as_slice());
    put_u32(&mut record, CRC_OFFSET, crc);
    Ok(record)
}

/// Decodes exactly one entry record.
pub fn decode_directory_entry(record: &[u8]) -> (r: Result<PersistedDirectoryEntry, Error>)
    ensures
        match r {
            Ok(entry) => decoded_entry(record@) == Some(entry@),
            Err(e) => decoded_entry(record@) is None && e.kind == ErrorKind::InvalidData,
        },
{
    if record.len() < DIRECTORY_ENTRY_HEADER_LEN {
        return Err(Error::new(ErrorKind::InvalidData, "torn directory entry"));
    }
    let name_bytes = slice_subrange(record, DIRECTORY_ENTRY_HEADER_LEN, record.len());
    if !holds_at(record, 0, &DIRECTORY_ENTRY_MAGIC) || read_u16(record, VERSION_OFFSET)
        != DIRECTORY_ENTRY_VERSION || read_u16(record, NAME_LEN_OFFSET) as usize
        != name_bytes.len() || read_u32(record, TOTAL_LEN_OFFSET) as u64 != record.len() as u64 {
        return Err(Error::new(ErrorKind::InvalidData, "directory entry header is invalid"));
    }
    if sum_of(record) != read_u32(record, CRC_OFFSET) {
        return Err(Error::new(ErrorKind::InvalidData, "directory entry checksum mismatch"));
    }
    let name = match text_from_utf8(slice_to_vec(name_bytes)) {
        Some(name) => name,
        None => return Err(Error::new(ErrorKind::InvalidData, "directory entry name is not text")),
    };
    let parent: u64 = read_u64(record, PARENT_OFFSET);
    let target: u64 = read_u64(record, TARGET_OFFSET);
    if parent == 0 || target == 0 || !is_valid_name(name.as_str()) {
        return Err(Error::new(ErrorKind::InvalidData, "directory entry is invalid"));
    }
    Ok(PersistedDirectoryEntry { parent, target, name })
}

} // verus!
