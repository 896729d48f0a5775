//! Inodes as they are persisted: their invariants and their checksummed record format.

use std::ops::Range;
use vstd::prelude::*;
use vstd::slice::*;
use crate::block::BLOCK_SIZE_U64;
use crate::bytes;
use crate::bytes::{crc32, holds_at, is_zero_run, put, put_u16, put_u32, put_u64, read_u16, read_u32, read_u64, zero_vec};
use crate::error::{Error, ErrorKind};
use crate::inode::InodeKind;

verus! {

pub const INODE_RECORD_MAGIC: [u8; 4] = [0x49, 0x4E, 0x4F, 0x31];

pub const INODE_RECORD_VERSION: u16 = 3;

pub const INODE_RECORD_HEADER_LEN: usize = 40;

/// The block number that stands for a logical block without storage.
pub const SPARSE_HOLE_BLOCK: u64 = 0;

pub const KIND_FILE: u16 = 1;

pub const KIND_DIRECTORY: u16 = 2;

pub const KIND_SYMLINK: u16 = 3;

const VERSION_OFFSET: usize = 4;

pub const KIND_OFFSET: usize = 6;

const TOTAL_LEN_OFFSET: usize = 8;

const INODE_ID_OFFSET: usize = 12;

const BLOCK_COUNT_OFFSET: usize = 20;

const BYTE_LEN_OFFSET: usize = 24;

pub const CRC_OFFSET: usize = 32;

pub const RESERVED_OFFSET: usize = 36;

/// An inode as a value: identifier, kind, block mapping and byte length.
pub struct InodeView {
    pub id: u64,
    pub kind: InodeKind,
    pub blocks: Seq<u64>,
    pub byte_len: u64,
}

/// No block number occurs twice in a mapping, but for the hole marker in that of a regular file.
pub open spec fn distinct_blocks(kind: InodeKind, blocks: Seq<u64>) -> bool {
    forall|i: int, j: int|
        0 <= i < j < blocks.len() && #[trigger] blocks[i] == #[trigger] blocks[j] ==> kind
            == InodeKind::File && blocks[i] == SPARSE_HOLE_BLOCK
}

/// The exact byte length that the fields of an inode stand for; none where they break an
/// invariant. With `full_shorthand`, a length of zero on a file with blocks stands for all of its
/// capacity.
pub open spec fn checked_len(inode: InodeView, full_shorthand: bool) -> Option<u64> {
    let capacity = inode.blocks.len() * BLOCK_SIZE_U64;
    let len = if inode.byte_len == 0 && full_shorthand {
        capacity as u64
    } else {
        inode.byte_len
    };
    if inode.id == 0 || !distinct_blocks(inode.kind, inode.blocks) {
        None
    } else if inode.kind != InodeKind::File {
        if inode.byte_len == 0 {
            Some(0)
        } else {
            None
        }
    } else if capacity > u64::MAX {
        None
    } else if inode.blocks.len() == 0 {
        if inode.byte_len == 0 {
            Some(0)
        } else {
            None
        }
    } else if capacity - BLOCK_SIZE_U64 < len <= capacity {
        Some(len)
    } else {
        None
    }
}

/// The inode satisfies every invariant of a persisted record as it stands.
pub open spec fn exact(inode: InodeView) -> bool {
    checked_len(inode, false) == Some(inode.byte_len)
}

/// The inode with its exact byte length written out.
pub open spec fn canonical(inode: InodeView) -> InodeView {
    InodeView { byte_len: checked_len(inode, true)->Some_0, ..inode }
}

/// The mapping of `blocks` with the range from `start` to `end` replaced.
pub open spec fn spliced(blocks: Seq<u64>, start: int, end: int, replacements: Seq<u64>) -> Seq<u64> {
    blocks.subrange(0, start) + replacements + blocks.subrange(end, blocks.len() as int)
}

/// The inode with one logical range of its mapping replaced: the end of file stays as far before
/// the end of the last block as it was. None where the range or the outcome is invalid.
pub open spec fn replaced_range(inode: InodeView, start: int, end: int, replacements: Seq<u64>) -> Option<InodeView> {
    let capacity = inode.blocks.len() * BLOCK_SIZE_U64;
    let blocks = spliced(inode.blocks, start, end, replacements);
    let new_capacity = blocks.len() * BLOCK_SIZE_U64;
    if !(0 <= start <= end <= inode.blocks.len()) || checked_len(inode, true) is None || capacity
        > u64::MAX {
        None
    } else {
        let slack = capacity - checked_len(inode, true)->Some_0;
        if inode.kind == InodeKind::File && blocks.len() > 0 && !(slack <= new_capacity
            <= u64::MAX) {
            None
        } else {
            let byte_len = if inode.kind == InodeKind::File && blocks.len() > 0 {
                (new_capacity - slack) as u64
            } else {
                0
            };
            let next = InodeView { blocks, byte_len, ..inode };
            if checked_len(next, false) is Some {
                Some(next)
            } else {
                None
            }
        }
    }
}

/// An inode as it is held in memory.
#[derive(Debug)]
pub struct PersistedInode {
    pub id: u64,
    pub kind: InodeKind,
    pub blocks: Vec<u64>,
    /// Exact end of file of a regular file, in bytes.
    ///
    /// Decoded records are exact. A value of zero on a file with blocks is accepted as shorthand
    /// for the whole block capacity, and is written out in full before it is persisted.
    pub byte_len: u64,
}

impl View for PersistedInode {
    type V = InodeView;

    open spec fn view(&self) -> InodeView {
        InodeView {
            id: self.id,
            kind: self.kind,
            blocks: self.blocks@,
            byte_len: self.byte_len,
        }
    }
}

impl Clone for PersistedInode {
    fn clone(&self) -> (r: Self)
        ensures
            r@ == self@,
    {
        PersistedInode {
            id: self.id,
            kind: self.kind,
            blocks: slice_to_vec(self.blocks.as_slice()),
            byte_len: self.byte_len,
        }
    }
}

fn same_numbers(a: &Vec<u64>, b: &Vec<u64>) -> (r: bool)
    ensures
        r == (a@ == b@),
{
    if a.len() != b.len() {
        return false;
    }
    let mut i: usize = 0;
    while i < a.len()
        invariant
            i <= a@.len(),
            a@.len() == b@.len(),
            forall|k: int| 0 <= k < i ==> #[trigger] a@[k] == b@[k],
        decreases a@.len() - i,
    {
        if a[i] != b[i] {
            return false;
        }
        i += 1;
    }
    assert(a@ =~= b@);
    true
}

impl PartialEq for PersistedInode {
    fn eq(&self, other: &Self) -> (r: bool) {
        if self.id != other.id || self.kind != other.kind || !same_numbers(
            &self.blocks,
            &other.blocks,
        ) {
            return false;
        }
        match (self.canonical_byte_len(), other.canonical_byte_len()) {
            (Ok(a), Ok(b)) => a == b,
            (Err(_), Err(_)) => true,
            _ => false,
        }
    }
}

impl vstd::std_specs::cmp::PartialEqSpecImpl for PersistedInode {
    open spec fn obeys_eq_spec() -> bool {
        true
    }

    open spec fn eq_spec(&self, other: &Self) -> bool {
        &&& self@.id == other@.id
        &&& self@.kind == other@.kind
        &&& self@.blocks == other@.blocks
        &&& checked_len(self@, true) == checked_len(other@, true)
    }
}

impl Eq for PersistedInode {

}

fn has_duplicates(kind: InodeKind, blocks: &[u64]) -> (r: bool)
    ensures
        r == !distinct_blocks(kind, blocks@),
{
    let mut i: usize = 0;
    while i < blocks.len()
        invariant
            i <= blocks@.len(),
            forall|a: int, b: int|
                0 <= a < b < blocks@.len() && a < i && #[trigger] blocks@[a] == #[trigger] blocks@[b]
                    ==> kind == InodeKind::File && blocks@[a] == SPARSE_HOLE_BLOCK,
        decreases blocks@.len() - i,
    {
        let mut j: usize = i + 1;
        while j < blocks.len()
            invariant
                i < j <= blocks@.len(),
                forall|b: int|
                    i < b < j && blocks@[i as int] == #[trigger] blocks@[b] ==> kind
                        == InodeKind::File && blocks@[i as int] == SPARSE_HOLE_BLOCK,
            decreases blocks@.len() - j,
        {
            if blocks[i] == blocks[j] && !(kind == InodeKind::File && blocks[i]
                == SPARSE_HOLE_BLOCK) {
                return true;
            }
            j += 1;
        }
        i += 1;
    }
    false
}

fn block_capacity(blocks: &[u64]) -> (r: Result<u64, &'static str>)
    ensures
        match r {
            Ok(n) => n == blocks@.len() * BLOCK_SIZE_U64,
            Err(_) => blocks@.len() * BLOCK_SIZE_U64 > u64::MAX,
        },
{
    let count: u64 = blocks.len() as u64;
    match count.checked_mul(BLOCK_SIZE_U64) {
        Some(n) => Ok(n),
        None => Err("inode byte capacity overflow"),
    }
}

fn default_byte_len(kind: InodeKind, blocks: &[u64]) -> (r: Result<u64, &'static str>)
    ensures
        match r {
            Ok(n) => n == if kind == InodeKind::File {
                blocks@.len() * BLOCK_SIZE_U64
            } else {
                0
            },
            Err(_) => kind == InodeKind::File && blocks@.len() * BLOCK_SIZE_U64 > u64::MAX,
        },
{
    if kind == InodeKind::File {
        block_capacity(blocks)
    } else {
        Ok(0)
    }
}

fn validate_inode_fields(
    id: u64,
    kind: InodeKind,
    blocks: &[u64],
    byte_len: u64,
    allow_full_capacity_sentinel: bool,
) -> (r: Result<u64, &'static str>)
    ensures
        match r {
            Ok(n) => checked_len(
                (InodeView { id, kind, blocks: blocks@, byte_len }),
                allow_full_capacity_sentinel,
            ) == Some(n),
            Err(_) => checked_len(
                (InodeView { id, kind, blocks: blocks@, byte_len }),
                allow_full_capacity_sentinel,
            ) is None,
        },
{
    if id == 0 {
        return Err("inode identifier zero is reserved");
    }
    if has_duplicates(kind, blocks) {
        return Err("inode record contains duplicate block references");
    }
    if kind != InodeKind::File {
        if byte_len != 0 {
            return Err("non-file inode byte length must be zero");
        }
        return Ok(0);
    }
    let capacity: u64 = block_capacity(blocks)?;
    if blocks.is_empty() {
        if byte_len != 0 {
            return Err("zero-block regular file must have zero byte length");
        }
        return Ok(0);
    }
    let canonical: u64 = if byte_len == 0 && allow_full_capacity_sentinel {
        capacity
    } else {
        byte_len
    };
    if canonical == 0 || canonical > capacity {
        return Err("regular-file byte length exceeds block capacity");
    }
    if canonical <= capacity - BLOCK_SIZE_U64 {
        return Err("regular-file EOF must lie inside its final referenced block");
    }
    Ok(canonical)
}

/// The error of a refused argument.
fn refused(message: &'static str) -> (e: Error)
    ensures
        e.kind == ErrorKind::InvalidInput,
        e.message == message,
{
    Error::new(ErrorKind::InvalidInput, message)
}

/// The error of durable bytes that make no sense.
fn corrupt(message: &'static str) -> (e: Error)
    ensures
        e.kind == ErrorKind::InvalidData,
        e.message == message,
{
    Error::new(ErrorKind::InvalidData, message)
}

impl PersistedInode {
    /// Makes an inode; a regular file extends to the end of its last block, any other kind has
    /// byte length zero. An identifier of zero, a block number that occurs twice (but for holes
    /// in a regular file) and a size that does not fit are refused.
    pub fn new(id: u64, kind: InodeKind, blocks: Vec<u64>) -> (r: Result<Self, Error>)
        ensures
            ({
                let full = InodeView {
                    id,
                    kind,
                    blocks: blocks@,
                    byte_len: if kind == InodeKind::File {
                        (blocks@.len() * BLOCK_SIZE_U64) as u64
                    } else {
                        0
                    },
                };
                let accepted = id != 0 && distinct_blocks(kind, blocks@) && (kind
                    == InodeKind::File ==> blocks@.len() * BLOCK_SIZE_U64 <= u64::MAX);
                match r {
                    Ok(inode) => accepted && inode@ == full && exact(inode@),
                    Err(e) => !accepted && e.kind == ErrorKind::InvalidInput,
                }
            }),
    {
        let byte_len: u64 = match default_byte_len(kind, blocks.as_slice()) {
            Ok(n) => n,
            Err(message) => return Err(refused(message)),
        };
        match validate_inode_fields(id, kind, blocks.as_slice(), byte_len, false) {
            Ok(_) => Ok(PersistedInode { id, kind, blocks, byte_len }),
            Err(message) => Err(refused(message)),
        }
    }

    /// Makes a regular file that ends after `byte_len` bytes, a position inside its last block.
    pub fn new_file_with_size(id: u64, blocks: Vec<u64>, byte_len: u64) -> (r: Result<Self, Error>)
        ensures
            ({
                let file = InodeView { id, kind: InodeKind::File, blocks: blocks@, byte_len };
                match r {
                    Ok(inode) => exact(file) && inode@ == file,
                    Err(e) => !exact(file) && e.kind == ErrorKind::InvalidInput,
                }
            }),
    {
        match validate_inode_fields(id, InodeKind::File, blocks.as_slice(), byte_len, false) {
            Ok(_) => Ok(PersistedInode { id, kind: InodeKind::File, blocks, byte_len }),
            Err(message) => Err(refused(message)),
        }
    }

    /// The exact byte length that this inode stands for.
    pub fn canonical_byte_len(&self) -> (r: Result<u64, Error>)
        ensures
            match r {
                Ok(n) => checked_len(self@, true) == Some(n),
                Err(e) => checked_len(self@, true) is None && e.kind == ErrorKind::InvalidInput,
            },
    {
        match validate_inode_fields(self.id, self.kind, self.blocks.as_slice(), self.byte_len, true) {
            Ok(n) => Ok(n),
            Err(message) => Err(refused(message)),
        }
    }

    /// Checks what must hold before the inode can be persisted.
    pub fn validate_for_persistence(&self) -> (r: Result<(), Error>)
        ensures
            match r {
                Ok(_) => checked_len(self@, true) is Some,
                Err(e) => checked_len(self@, true) is None && e.kind == ErrorKind::InvalidInput,
            },
    {
        match self.canonical_byte_len() {
            Ok(_) => Ok(()),
            Err(e) => Err(e),
        }
    }

    /// Replaces one logical range of the block mapping and hands back the displaced blocks in
    /// logical order. The end of file stays as far before the end of the last block as it was. A
    /// refused replacement changes nothing.
    pub fn replace_block_range(&mut self, range: Range<usize>, replacements: &[u64]) -> (r: Result<Vec<u64>, Error>)
        ensures
            ({
                let next = replaced_range(
                    old(self)@,
                    range.start as int,
                    range.end as int,
                    replacements@,
                );
                match r {
                    Ok(displaced) => {
                        &&& next == Some(final(self)@)
                        &&& displaced@ == old(self)@.blocks.subrange(
                            range.start as int,
                            range.end as int,
                        )
                    },
                    Err(e) => {
                        &&& next is None
                        &&& e.kind == ErrorKind::InvalidInput
                        &&& final(self)@ == old(self)@
                    },
                }
            }),
    {
        if range.start > range.end || range.end > self.blocks.len() {
            return Err(refused("inode block mutation range is outside the current mapping"));
        }
        let current_byte_len: u64 = self.canonical_byte_len()?;
        let current_capacity: u64 = match block_capacity(self.blocks.as_slice()) {
            Ok(n) => n,
            Err(message) => return Err(refused(message)),
        };
        assert(current_byte_len <= current_capacity);
        let tail_slack: u64 = current_capacity - current_byte_len;
        let displaced: Vec<u64> = slice_to_vec(
            slice_subrange(self.blocks.as_slice(), range.start, range.end),
        );
        let mut candidate: Vec<u64> = slice_to_vec(
            slice_subrange(self.blocks.as_slice(), 0, range.start),
        );
        let mut middle: Vec<u64> = slice_to_vec(replacements);
        candidate.append(&mut middle);
        let mut rest: Vec<u64> = slice_to_vec(
            slice_subrange(self.blocks.as_slice(), range.end, self.blocks.len()),
        );
        candidate.append(&mut rest);
        assert(candidate@ == spliced(
            self.blocks@,
            range.start as int,
            range.end as int,
            replacements@,
        ));
        let candidate_byte_len: u64 = if self.kind == InodeKind::File && !candidate.is_empty() {
            let capacity: u64 = match block_capacity(candidate.as_slice()) {
                Ok(n) => n,
                Err(message) => return Err(refused(message)),
            };
            if capacity < tail_slack {
                return Err(refused("inode block mutation cannot preserve EOF tail offset"));
            }
            capacity - tail_slack
        } else {
            0
        };
        match validate_inode_fields(
            self.id,
            self.kind,
            candidate.as_slice(),
            candidate_byte_len,
            false,
        ) {
            Ok(_) => {},
            Err(message) => return Err(refused(message)),
        }
        self.blocks = candidate;
        self.byte_len = candidate_byte_len;
        Ok(displaced)
    }

    /// Moves the end of a regular file inside its last block.
    pub fn set_file_byte_len(&mut self, byte_len: u64) -> (r: Result<(), Error>)
        ensures
            ({
                let next = InodeView { byte_len, ..old(self)@ };
                let accepted = old(self)@.kind == InodeKind::File && exact(next);
                match r {
                    Ok(_) => accepted && final(self)@ == next,
                    Err(e) => !accepted && e.kind == ErrorKind::InvalidInput && final(self)@
                        == old(self)@,
                }
            }),
    {
        if self.kind != InodeKind::File {
            return Err(refused("only regular files have byte EOF"));
        }
        match validate_inode_fields(self.id, self.kind, self.blocks.as_slice(), byte_len, false) {
            Ok(_) => {},
            Err(message) => return Err(refused(message)),
        }
        self.byte_len = byte_len;
        Ok(())
    }
}

/// The number that a record holds for a kind.
pub open spec fn kind_number(kind: InodeKind) -> u16 {
    match kind {
        InodeKind::File => KIND_FILE,
        InodeKind::Directory => KIND_DIRECTORY,
        InodeKind::Symlink => KIND_SYMLINK,
    }
}

/// The kind that a number in a record stands for.
pub open spec fn kind_of_number(n: u16) -> Option<InodeKind> {
    if n == KIND_FILE {
        Some(InodeKind::File)
    } else if n == KIND_DIRECTORY {
        Some(InodeKind::Directory)
    } else if n == KIND_SYMLINK {
        Some(InodeKind::Symlink)
    } else {
        None
    }
}

/// Block numbers one after the other, little-endian.
pub open spec fn block_bytes(blocks: Seq<u64>) -> Seq<u8>
    decreases blocks.len(),
{
    if blocks.len() == 0 {
        Seq::empty()
    } else {
        block_bytes(blocks.drop_last()) + bytes::le64(blocks.last())
    }
}

/// A record without its checksum.
pub open spec fn unsummed_record(inode: InodeView, byte_len: u64) -> Seq<u8> {
    let total = 40 + 8 * inode.blocks.len();
    bytes::patch(
        bytes::patch(
            bytes::patch(
                bytes::patch(
                    bytes::patch(
                        bytes::patch(
                            bytes::patch(
                                bytes::patch(bytes::zeros(total), 0, INODE_RECORD_MAGIC@),
                                4,
                                bytes::le16(INODE_RECORD_VERSION),
                            ),
                            6,
                            bytes::le16(kind_number(inode.kind)),
                        ),
                        8,
                        bytes::le32(total as u32),
                    ),
                    12,
                    bytes::le64(inode.id),
                ),
                20,
                bytes::le32(inode.blocks.len() as u32),
            ),
            24,
            bytes::le64(byte_len),
        ),
        40,
        block_bytes(inode.blocks),
    )
}

/// The checksum of a record: that of its bytes with the checksum field taken as zero.
pub open spec fn record_sum(record: Seq<u8>) -> u32 {
    bytes::crc32_of(bytes::patch(record, 32, bytes::zeros(4)))
}

/// The record of an inode; none where it breaks an invariant or does not fit the length field.
pub open spec fn encoded(inode: InodeView) -> Option<Seq<u8>> {
    match checked_len(inode, true) {
        Some(byte_len) => if 40 + 8 * inode.blocks.len() <= u32::MAX {
            let plain = unsummed_record(inode, byte_len);
            Some(bytes::patch(plain, 32, bytes::le32(record_sum(plain))))
        } else {
            None
        },
        None => None,
    }
}

/// The block numbers of a record.
pub open spec fn record_blocks(record: Seq<u8>, count: nat) -> Seq<u64> {
    Seq::new(count, |k: int| bytes::at64(record, 40 + 8 * k))
}

/// The inode that a record holds, or how it is refused.
pub open spec fn decoded(record: Seq<u8>) -> Result<InodeView, ErrorKind> {
    let count = bytes::at32(record, 20);
    if record.len() < 40 {
        Err(ErrorKind::UnexpectedEof)
    } else if record.subrange(0, 4) != INODE_RECORD_MAGIC@ || bytes::at16(record, 4)
        != INODE_RECORD_VERSION || !bytes::zero_run(record, 36, 40) || bytes::at32(record, 8) != 40
        + 8 * count {
        Err(ErrorKind::InvalidData)
    } else if record.len() < 40 + 8 * count {
        Err(ErrorKind::UnexpectedEof)
    } else if record.len() != 40 + 8 * count || record_sum(record) != bytes::at32(record, 32)
        || kind_of_number(bytes::at16(record, 6)) is None {
        Err(ErrorKind::InvalidData)
    } else {
        let inode = InodeView {
            id: bytes::at64(record, 12),
            kind: kind_of_number(bytes::at16(record, 6))->Some_0,
            blocks: record_blocks(record, count as nat),
            byte_len: bytes::at64(record, 24),
        };
        if checked_len(inode, false) is Some {
            Ok(inode)
        } else {
            Err(ErrorKind::InvalidData)
        }
    }
}

proof fn lemma_block_bytes(blocks: Seq<u64>, k: int)
    ensures
        block_bytes(blocks).len() == 8 * blocks.len(),
        0 <= k < blocks.len() ==> block_bytes(blocks).subrange(8 * k, 8 * k + 8) == bytes::le64(
            blocks[k],
        ),
    decreases blocks.len(),
{
    broadcast use bytes::group_bytes;

    if blocks.len() > 0 {
        let front = blocks.drop_last();
        lemma_block_bytes(front, k);
        if 0 <= k < front.len() {
            assert(block_bytes(blocks).subrange(8 * k, 8 * k + 8) =~= block_bytes(front).subrange(
                8 * k,
                8 * k + 8,
            ));
        } else if k == front.len() {
            assert(block_bytes(blocks).subrange(8 * k, 8 * k + 8) =~= bytes::le64(blocks.last()));
        }
    }
}

proof fn lemma_kind_number(kind: InodeKind)
    ensures
        kind_of_number(kind_number(kind)) == Some(kind),
{
}

/// The record of an inode decodes to that inode with its exact byte length written out, and says
/// how long it is.
pub proof fn law_inode_round_trip(inode: InodeView)
    requires
        encoded(inode) is Some,
    ensures
        decoded(encoded(inode)->Some_0) == Ok::<InodeView, ErrorKind>(canonical(inode)),
        encoded(inode)->Some_0.len() == 40 + 8 * inode.blocks.len(),
        bytes::at32(encoded(inode)->Some_0, 8) == encoded(inode)->Some_0.len(),
        exact(canonical(inode)),
{
    broadcast use bytes::group_bytes;

    let byte_len = checked_len(inode, true)->Some_0;
    let plain = unsummed_record(inode, byte_len);
    let record = encoded(inode)->Some_0;
    let count = inode.blocks.len();
    lemma_block_bytes(inode.blocks, 0);
    lemma_kind_number(inode.kind);
    assert(record.subrange(0, 4) == INODE_RECORD_MAGIC@);
    assert(bytes::zero_run(record, 36, 40));
    assert(bytes::at16(record, 6) == kind_number(inode.kind));
    assert(bytes::at32(record, 20) == count);
    assert(bytes::at32(record, 8) == 40 + 8 * count);
    assert(bytes::patch(record, 32, bytes::zeros(4)) =~= plain);
    assert(bytes::patch(plain, 32, bytes::zeros(4)) =~= plain);
    assert(bytes::at64(record, 12) == inode.id);
    assert(bytes::at64(record, 24) == byte_len);
    assert forall|k: int| 0 <= k < count implies bytes::at64(record, 40 + 8 * k)
        == inode.blocks[k] by {
        lemma_block_bytes(inode.blocks, k);
        assert(record.subrange(40, 40 + 8 * count as int) =~= block_bytes(inode.blocks));
        bytes::lemma_fields_of_window(record, 40, 40 + 8 * count as int, 8 * k);
        let part = block_bytes(inode.blocks);
        let cell = part.subrange(8 * k, 8 * k + 8);
        assert(bytes::patch(part, 8 * k, bytes::le64(inode.blocks[k])) =~= part) by {
            assert forall|i: int| 0 <= i < part.len() implies bytes::patch(
                part,
                8 * k,
                bytes::le64(inode.blocks[k]),
            )[i] == part[i] by {
                if 8 * k <= i < 8 * k + 8 {
                    assert(cell[i - 8 * k] == part[i]);
                }
            }
        }
        assert(bytes::at64(bytes::patch(part, 8 * k, bytes::le64(inode.blocks[k])), 8 * k)
            == inode.blocks[k]);
    }
    assert(record_blocks(record, count) =~= inode.blocks);
}

proof fn lemma_record_fields(record: Seq<u8>, inode: InodeView, i: int)
    requires
        decoded(record) == Ok::<InodeView, ErrorKind>(inode),
        0 <= i < record.len(),
        !(32 <= i < 36),
    ensures
        unsummed_record(inode, inode.byte_len)[i] == record[i],
{
    broadcast use bytes::group_bytes;

    let count = inode.blocks.len() as int;
    let plain = unsummed_record(inode, inode.byte_len);
    lemma_block_bytes(inode.blocks, 0);
    assert(INODE_RECORD_MAGIC@.len() == 4);
    if i < 4 {
        assert(record.subrange(0, 4)[i] == record[i]);
    } else if i < 6 {
        bytes::lemma_field_bytes(record, 4);
        assert(record.subrange(4, 6)[i - 4] == record[i]);
    } else if i < 8 {
        bytes::lemma_field_bytes(record, 6);
        assert(record.subrange(6, 8)[i - 6] == record[i]);
    } else if i < 12 {
        bytes::lemma_field_bytes(record, 8);
        assert(record.subrange(8, 12)[i - 8] == record[i]);
    } else if i < 20 {
        bytes::lemma_field_bytes(record, 12);
        assert(record.subrange(12, 20)[i - 12] == record[i]);
    } else if i < 24 {
        bytes::lemma_field_bytes(record, 20);
        assert(record.subrange(20, 24)[i - 20] == record[i]);
    } else if i < 32 {
        bytes::lemma_field_bytes(record, 24);
        assert(record.subrange(24, 32)[i - 24] == record[i]);
    } else if i >= 40 {
        let k = (i - 40) / 8;
        let at = 40 + 8 * k;
        assert(0 <= k < count);
        bytes::lemma_field_bytes(record, at);
        lemma_block_bytes(inode.blocks, k);
        assert(inode.blocks[k] == bytes::at64(record, at));
        assert(block_bytes(inode.blocks).subrange(8 * k, 8 * k + 8)[i - at] == block_bytes(
            inode.blocks,
        )[i - 40]);
        assert(record.subrange(at, at + 8)[i - at] == record[i]);
    }
}

/// A record that decodes is the encoding of its inode: there is one record for each inode.
pub proof fn law_inode_encoding(record: Seq<u8>)
    ensures
        decoded(record) matches Ok(inode) ==> encoded(inode) == Some(record) && exact(inode)
            && inode.id != 0 && distinct_blocks(inode.kind, inode.blocks),
{
    broadcast use bytes::group_bytes;

    if let Ok(inode) = decoded(record) {
        let plain = unsummed_record(inode, inode.byte_len);
        assert(exact(inode));
        assert(checked_len(inode, true) == Some(inode.byte_len));
        assert(plain.len() == record.len());
        assert forall|i: int| 0 <= i < record.len() && !(32 <= i < 36) implies plain[i]
            == record[i] by {
            lemma_record_fields(record, inode, i);
        }
        assert(bytes::patch(plain, 32, bytes::zeros(4)) =~= bytes::patch(
            record,
            32,
            bytes::zeros(4),
        ));
        bytes::lemma_field_bytes(record, 32);
        let e = bytes::patch(plain, 32, bytes::le32(record_sum(plain)));
        assert forall|i: int| 0 <= i < record.len() implies e[i] == record[i] by {
            if 32 <= i < 36 {
                assert(record.subrange(32, 36)[i - 32] == record[i]);
            }
        }
        assert(e =~= record);
    }
}

fn kind_code(kind: InodeKind) -> (n: u16)
    ensures
        n == kind_number(kind),
{
    match kind {
        InodeKind::File => KIND_FILE,
        InodeKind::Directory => KIND_DIRECTORY,
        InodeKind::Symlink => KIND_SYMLINK,
    }
}

/// The checksum of a record, with its checksum field taken as zero.
pub fn record_crc(bytes: &[u8]) -> (crc: u32)
    requires
        bytes@.len() >= 36,
    ensures
        crc == record_sum(bytes@),
{
    let mut summed: Vec<u8> = slice_to_vec(bytes);
    let blank = zero_vec(4);
    put(&mut summed, CRC_OFFSET, blank.as_slice());
    crc32(summed.as_slice())
}

fn encode_blocks(blocks: &[u64]) -> (r: Vec<u8>)
    ensures
        r@ == block_bytes(blocks@),
{
    let mut out: Vec<u8> = Vec::new();
    let mut i: usize = 0;
    while i < blocks.len()
        invariant
            i <= blocks@.len(),
            out@ == block_bytes(blocks@.subrange(0, i as int)),
        decreases blocks@.len() - i,
    {
        let mut part = vstd::bytes::u64_to_le_bytes(blocks[i]);
        out.append(&mut part);
        proof {
            let next = blocks@.subrange(0, i + 1);
            assert(next.drop_last() =~= blocks@.subrange(0, i as int));
        }
        i += 1;
    }
    assert(blocks@.subrange(0, blocks@.len() as int) =~= blocks@);
    out
}

/// Encodes one inode as a self-delimiting, checksummed record.
pub fn encode_inode(inode: &PersistedInode) -> (r: Result<Vec<u8>, Error>)
    ensures
        match r {
            Ok(v) => encoded(inode@) == Some(v@),
            Err(e) => encoded(inode@) is None && e.kind == ErrorKind::InvalidInput,
        },
{
    broadcast use bytes::group_bytes;

    let byte_len: u64 = inode.canonical_byte_len()?;
    if inode.blocks.len() > (u32::MAX as usize - INODE_RECORD_HEADER_LEN) / 8 {
        return Err(refused("inode record length exceeds codec limit"));
    }
    let total_len: usize = INODE_RECORD_HEADER_LEN + 8 * inode.blocks.len();
    proof {
        lemma_block_bytes(inode.blocks@, 0);
    }
    let mut record = zero_vec(total_len);
    put(&mut record, 0, &INODE_RECORD_MAGIC);
    put_u16(&mut record, VERSION_OFFSET, INODE_RECORD_VERSION);
    put_u16(&mut record, KIND_OFFSET, kind_code(inode.kind));
    put_u32(&mut record, TOTAL_LEN_OFFSET, total_len as u32);
    put_u64(&mut record, INODE_ID_OFFSET, inode.id);
    put_u32(&mut record, BLOCK_COUNT_OFFSET, inode.blocks.len() as u32);
    put_u64(&mut record, BYTE_LEN_OFFSET, byte_len);
    let payload = encode_blocks(inode.blocks.as_slice());
    put(&mut record, INODE_RECORD_HEADER_LEN, payload.as_slice());
    let crc: u32 = record_crc(record.as_slice());
    put_u32(&mut record, CRC_OFFSET, crc);
    Ok(record)
}

fn decode_blocks(bytes: &[u8], count: usize) -> (blocks: Vec<u64>)
    requires
        40 + 8 * count <= bytes@.len(),
    ensures
        blocks@ == record_blocks(bytes@, count as nat),
{
    assert(bytes.len() == bytes@.len());
    let mut blocks: Vec<u64> = Vec::new();
    let mut i: usize = 0;
    while i < count
        invariant
            40 + 8 * count <= bytes@.len() <= usize::MAX,
            i <= count,
            blocks@ == record_blocks(bytes@, i as nat),
        decreases count - i,
    {
        blocks.push(read_u64(bytes, INODE_RECORD_HEADER_LEN + 8 * i));
        i += 1;
        assert(blocks@ =~= record_blocks(bytes@, i as nat));
    }
    blocks
}

/// Decodes exactly one inode record.
pub fn decode_inode(bytes: &[u8]) -> (r: Result<PersistedInode, Error>)
    ensures
        match r {
            Ok(inode) => decoded(bytes@) == Ok::<InodeView, ErrorKind>(inode@),
            Err(e) => decoded(bytes@) == Err::<InodeView, ErrorKind>(e.kind),
        },
{
    if bytes.len() < INODE_RECORD_HEADER_LEN {
        return Err(Error::new(ErrorKind::UnexpectedEof, "torn inode record header"));
    }
    if !holds_at(bytes, 0, &INODE_RECORD_MAGIC) {
        return Err(corrupt("invalid inode record magic"));
    }
    if read_u16(bytes, VERSION_OFFSET) != INODE_RECORD_VERSION {
        return Err(corrupt("unsupported inode record version"));
    }
    if !is_zero_run(bytes, RESERVED_OFFSET, INODE_RECORD_HEADER_LEN) {
        return Err(corrupt("inode record reserved bytes are non-zero"));
    }
    let total_len: u32 = read_u32(bytes, TOTAL_LEN_OFFSET);
    let block_count: u32 = read_u32(bytes, BLOCK_COUNT_OFFSET);
    let expected_len: u64 = INODE_RECORD_HEADER_LEN as u64 + 8 * (block_count as u64);
    if total_len as u64 != expected_len {
        return Err(corrupt("inode record length does not match block count"));
    }
    if (bytes.len() as u64) < expected_len {
        return Err(Error::new(ErrorKind::UnexpectedEof, "torn inode record payload"));
    }
    if bytes.len() as u64 != expected_len {
        return Err(corrupt("inode decoder requires exactly one record"));
    }
    if read_u32(bytes, CRC_OFFSET) != record_crc(bytes) {
        return Err(corrupt("inode record checksum mismatch"));
    }
    let id: u64 = read_u64(bytes, INODE_ID_OFFSET);
    let kind_field: u16 = read_u16(bytes, KIND_OFFSET);
    let kind: InodeKind = if kind_field == KIND_FILE {
        InodeKind::File
    } else if kind_field == KIND_DIRECTORY {
        InodeKind::Directory
    } else if kind_field == KIND_SYMLINK {
        InodeKind::Symlink
    } else {
        return Err(corrupt("invalid inode kind"));
    };
    let byte_len: u64 = read_u64(bytes, BYTE_LEN_OFFSET);
    let blocks: Vec<u64> = decode_blocks(bytes, block_count as usize);
    match validate_inode_fields(id, kind, blocks.as_slice(), byte_len, false) {
        Ok(_) => Ok(PersistedInode { id, kind, blocks, byte_len }),
        Err(message) => Err(corrupt(message)),
    }
}

/// A range of a file that was replaced can be put back, and the inode is then as it was.
pub proof fn law_replaced_back(inode: InodeView, start: int, end: int, replacements: Seq<u64>)
    requires
        inode.kind == InodeKind::File,
        exact(inode),
        replaced_range(inode, start, end, replacements) matches Some(next) && next.blocks.len() > 0,
    ensures
        replaced_range(
            replaced_range(inode, start, end, replacements)->Some_0,
            start,
            start + replacements.len(),
            inode.blocks.subrange(start, end),
        ) == Some(inode),
{
    let next = replaced_range(inode, start, end, replacements)->Some_0;
    let moved = inode.blocks.subrange(start, end);
    let back = spliced(next.blocks, start, start + replacements.len(), moved);
    assert(back =~= inode.blocks);
}

/// A range of a mapping that is replaced holds the replacements, and what stood before and behind it
/// still does. The end of a file moves by as many blocks as it has more or fewer now; without blocks
/// it is empty. Nothing else of the inode changes.
pub proof fn law_replaced_range(inode: InodeView, start: int, end: int, replacements: Seq<u64>)
    requires
        exact(inode),
    ensures
        replaced_range(inode, start, end, replacements) matches Some(next) ==> {
            &&& 0 <= start <= end <= inode.blocks.len()
            &&& next.id == inode.id
            &&& next.kind == inode.kind
            &&& next.blocks.len() == inode.blocks.len() - (end - start) + replacements.len()
            &&& forall|i: int| 0 <= i < start ==> #[trigger] next.blocks[i] == inode.blocks[i]
            &&& forall|i: int|
                start <= i < start + replacements.len() ==> #[trigger] next.blocks[i]
                    == replacements[i - start]
            &&& forall|i: int|
                start + replacements.len() <= i < next.blocks.len() ==> #[trigger] next.blocks[i]
                    == inode.blocks[i - replacements.len() + (end - start)]
            &&& next.byte_len == if inode.kind == InodeKind::File && next.blocks.len() > 0 {
                inode.byte_len + (replacements.len() - (end - start)) * BLOCK_SIZE_U64
            } else {
                0
            }
            &&& exact(next)
        },
{
}

} // verus!
