//! The superblock: where every region of a file system lies.

use std::ops::Range;
use vstd::prelude::*;
use vstd::slice::*;
use crate::block;
use crate::block::{Block, BlockDevice, Disk, BLOCK_SIZE, BLOCK_SIZE_U64};
use crate::bytes;
use crate::bytes::{holds_at, is_zero_run, put, put_u32, put_u64, read_u32, read_u64, zero_vec};
use crate::error::{Error, ErrorKind};
use crate::region;
use crate::region::block_from;

pub use crate::format_geometry::format_device;

verus! {

/// The block that holds the superblock.
pub const SUPERBLOCK_BLOCK: u64 = 0;

pub const SUPERBLOCK_MAGIC: [u8; 8] = [0x46, 0x53, 0x4C, 0x41, 0x42, 0x46, 0x53, 0x00];

pub const FORMAT_VERSION: u32 = 6;

/// Journal blocks of a file system that asks for no other number.
pub const DEFAULT_JOURNAL_BLOCKS: u64 = 2;

/// Inode-table blocks of a file system that asks for no other number.
pub const DEFAULT_INODE_BLOCKS: u64 = 1;

/// Directory-table blocks of a file system that asks for no other number.
pub const DEFAULT_DIRECTORY_BLOCKS: u64 = 2;

const VERSION_OFFSET: usize = 8;

const BLOCK_SIZE_OFFSET: usize = 12;

const TOTAL_BLOCKS_OFFSET: usize = 16;

const JOURNAL_BLOCKS_OFFSET: usize = 24;

const INODE_BLOCKS_OFFSET: usize = 32;

const DIRECTORY_BLOCKS_OFFSET: usize = 40;

const HEADER_LEN: usize = 48;

/// The geometry of a file system. Its regions follow each other: superblock, journal, allocation
/// bitmap, inode table, directory table, data.
#[derive(Debug, Clone, Copy, PartialEq, Eq, Structural)]
pub struct Superblock {
    pub total_blocks: u64,
    pub journal_start: u64,
    pub journal_blocks: u64,
    pub allocation_start: u64,
    pub allocation_blocks: u64,
    pub inode_start: u64,
    pub inode_blocks: u64,
    pub directory_start: u64,
    pub directory_blocks: u64,
}

/// Blocks that an allocation bitmap with a bit per block takes.
pub open spec fn bitmap_blocks(total: int) -> int {
    (region::HEADER_SIZE + (total + 7) / 8 + 4095) / 4096
}

/// Blocks in front of the data.
pub open spec fn reserved(total: int, journal: int, inode: int, directory: int) -> int {
    1 + journal + bitmap_blocks(total) + inode + directory
}

/// These numbers of blocks describe a file system.
pub open spec fn sound(total: int, journal: int, inode: int, directory: int) -> bool {
    &&& 0 < journal
    &&& 0 < inode
    &&& 0 < directory
    &&& reserved(total, journal, inode, directory) <= total
    &&& total * BLOCK_SIZE_U64 <= usize::MAX
}

/// The superblock that these numbers of blocks describe.
pub open spec fn layout(total: int, journal: int, inode: int, directory: int) -> Superblock {
    Superblock {
        total_blocks: total as u64,
        journal_start: 1,
        journal_blocks: journal as u64,
        allocation_start: (1 + journal) as u64,
        allocation_blocks: bitmap_blocks(total) as u64,
        inode_start: (1 + journal + bitmap_blocks(total)) as u64,
        inode_blocks: inode as u64,
        directory_start: (1 + journal + bitmap_blocks(total) + inode) as u64,
        directory_blocks: directory as u64,
    }
}

/// The bytes of a superblock.
pub open spec fn superblock_bytes(s: Superblock) -> Seq<u8> {
    bytes::patch(
        bytes::patch(
            bytes::patch(
                bytes::patch(
                    bytes::patch(
                        bytes::patch(
                            bytes::patch(bytes::zeros(BLOCK_SIZE as nat), 0, SUPERBLOCK_MAGIC@),
                            8,
                            bytes::le32(FORMAT_VERSION),
                        ),
                        12,
                        bytes::le32(BLOCK_SIZE as u32),
                    ),
                    16,
                    bytes::le64(s.total_blocks),
                ),
                24,
                bytes::le64(s.journal_blocks),
            ),
            32,
            bytes::le64(s.inode_blocks),
        ),
        40,
        bytes::le64(s.directory_blocks),
    )
}

/// The superblock that a block holds, if it holds one.
pub open spec fn superblock_of(b: Seq<u8>) -> Option<Superblock> {
    let total = bytes::at64(b, 16) as int;
    let journal = bytes::at64(b, 24) as int;
    let inode = bytes::at64(b, 32) as int;
    let directory = bytes::at64(b, 40) as int;
    if b.subrange(0, 8) == SUPERBLOCK_MAGIC@ && bytes::at32(b, 8) == FORMAT_VERSION
        && bytes::at32(b, 12) == BLOCK_SIZE && bytes::zero_run(b, 48, BLOCK_SIZE as int) && sound(
        total,
        journal,
        inode,
        directory,
    ) {
        Some(layout(total, journal, inode, directory))
    } else {
        None
    }
}

/// The superblock of a device, if its first block holds one that describes the device.
pub open spec fn superblock_on(disk: Disk) -> Option<Superblock> {
    match superblock_of(disk[0]) {
        Some(s) => if s.total_blocks == disk.len() {
            Some(s)
        } else {
            None
        },
        None => None,
    }
}

/// A superblock that was encoded decodes to itself.
pub proof fn law_superblock_round_trip(s: Superblock)
    requires
        s.valid(),
    ensures
        superblock_of(superblock_bytes(s)) == Some(s),
        superblock_bytes(s).len() == BLOCK_SIZE,
{
    broadcast use bytes::group_bytes;

    assert(SUPERBLOCK_MAGIC@.len() == 8);
    let b = superblock_bytes(s);
    assert(b.subrange(0, 8) =~= SUPERBLOCK_MAGIC@);
}

/// A block that decodes to a superblock is the encoding of that superblock, and that superblock is
/// consistent: there is one encoding for each.
pub proof fn law_superblock_encoding(b: Seq<u8>, s: Superblock)
    requires
        b.len() == BLOCK_SIZE,
    ensures
        superblock_of(b) == Some(s) <==> s.valid() && b == superblock_bytes(s),
{
    broadcast use bytes::group_bytes;

    if superblock_of(b) == Some(s) {
        let e = superblock_bytes(s);
        assert(SUPERBLOCK_MAGIC@.len() == 8);
        bytes::lemma_field_bytes(b, 8);
        bytes::lemma_field_bytes(b, 12);
        bytes::lemma_field_bytes(b, 16);
        bytes::lemma_field_bytes(b, 24);
        bytes::lemma_field_bytes(b, 32);
        bytes::lemma_field_bytes(b, 40);
        assert(e.len() == BLOCK_SIZE);
        assert forall|i: int| 0 <= i < BLOCK_SIZE implies e[i] == b[i] by {
            if i < 8 {
                assert(b.subrange(0, 8)[i] == b[i]);
            } else if i < 12 {
                assert(b.subrange(8, 12)[i - 8] == b[i]);
            } else if i < 16 {
                assert(b.subrange(12, 16)[i - 12] == b[i]);
            } else if i < 24 {
                assert(b.subrange(16, 24)[i - 16] == b[i]);
            } else if i < 32 {
                assert(b.subrange(24, 32)[i - 24] == b[i]);
            } else if i < 40 {
                assert(b.subrange(32, 40)[i - 32] == b[i]);
            } else if i < 48 {
                assert(b.subrange(40, 48)[i - 40] == b[i]);
            }
        }
        assert(e =~= b);
    }
    if s.valid() && b == superblock_bytes(s) {
        law_superblock_round_trip(s);
    }
}

fn refused(message: &'static str) -> (e: Error)
    ensures
        e.kind == ErrorKind::InvalidInput,
        e.message == message,
{
    Error::new(ErrorKind::InvalidInput, message)
}

fn corrupt(message: &'static str) -> (e: Error)
    ensures
        e.kind == ErrorKind::InvalidData,
        e.message == message,
{
    Error::new(ErrorKind::InvalidData, message)
}

impl Superblock {
    /// The fields describe one consistent layout.
    pub open spec fn valid(&self) -> bool {
        &&& sound(
            self.total_blocks as int,
            self.journal_blocks as int,
            self.inode_blocks as int,
            self.directory_blocks as int,
        )
        &&& *self == layout(
            self.total_blocks as int,
            self.journal_blocks as int,
            self.inode_blocks as int,
            self.directory_blocks as int,
        )
    }

    /// The superblock describes a device with these contents.
    pub open spec fn fits(&self, disk: Disk) -> bool {
        self.valid() && disk.len() == self.total_blocks
    }

    /// The first data block.
    pub open spec fn data_start(&self) -> int {
        self.directory_start + self.directory_blocks
    }

    /// Lays a file system of default reservations out on `total_blocks` blocks.
    pub fn new(total_blocks: u64) -> (r: Result<Self, Error>)
        ensures
            match r {
                Ok(s) => {
                    &&& sound(
                        total_blocks as int,
                        DEFAULT_JOURNAL_BLOCKS as int,
                        DEFAULT_INODE_BLOCKS as int,
                        DEFAULT_DIRECTORY_BLOCKS as int,
                    )
                    &&& s == layout(
                        total_blocks as int,
                        DEFAULT_JOURNAL_BLOCKS as int,
                        DEFAULT_INODE_BLOCKS as int,
                        DEFAULT_DIRECTORY_BLOCKS as int,
                    )
                    &&& s.valid()
                },
                Err(e) => e.kind == ErrorKind::InvalidInput && !sound(
                    total_blocks as int,
                    DEFAULT_JOURNAL_BLOCKS as int,
                    DEFAULT_INODE_BLOCKS as int,
                    DEFAULT_DIRECTORY_BLOCKS as int,
                ),
            },
    {
        Self::with_journal_blocks(total_blocks, DEFAULT_JOURNAL_BLOCKS)
    }

    /// Lays a file system out with its own journal length.
    pub fn with_journal_blocks(total_blocks: u64, journal_blocks: u64) -> (r: Result<Self, Error>)
        ensures
            match r {
                Ok(s) => {
                    &&& sound(
                        total_blocks as int,
                        journal_blocks as int,
                        DEFAULT_INODE_BLOCKS as int,
                        DEFAULT_DIRECTORY_BLOCKS as int,
                    )
                    &&& s == layout(
                        total_blocks as int,
                        journal_blocks as int,
                        DEFAULT_INODE_BLOCKS as int,
                        DEFAULT_DIRECTORY_BLOCKS as int,
                    )
                    &&& s.valid()
                },
                Err(e) => e.kind == ErrorKind::InvalidInput && !sound(
                    total_blocks as int,
                    journal_blocks as int,
                    DEFAULT_INODE_BLOCKS as int,
                    DEFAULT_DIRECTORY_BLOCKS as int,
                ),
            },
    {
        Self::with_all_metadata_blocks(
            total_blocks,
            journal_blocks,
            DEFAULT_INODE_BLOCKS,
            DEFAULT_DIRECTORY_BLOCKS,
        )
    }

    /// Lays a file system out with its own journal, inode-table and directory-table lengths.
    /// Reservations of no blocks and layouts that do not fit are refused.
    pub fn with_all_metadata_blocks(
        total_blocks: u64,
        journal_blocks: u64,
        inode_blocks: u64,
        directory_blocks: u64,
    ) -> (r: Result<Self, Error>)
        ensures
            match r {
                Ok(s) => {
                    &&& sound(
                        total_blocks as int,
                        journal_blocks as int,
                        inode_blocks as int,
                        directory_blocks as int,
                    )
                    &&& s == layout(
                        total_blocks as int,
                        journal_blocks as int,
                        inode_blocks as int,
                        directory_blocks as int,
                    )
                    &&& s.valid()
                },
                Err(e) => e.kind == ErrorKind::InvalidInput && !sound(
                    total_blocks as int,
                    journal_blocks as int,
                    inode_blocks as int,
                    directory_blocks as int,
                ),
            },
    {
        if journal_blocks == 0 || inode_blocks == 0 || directory_blocks == 0 {
            return Err(refused("metadata reservations must be non-zero"));
        }
        if total_blocks > usize::MAX as u64 / BLOCK_SIZE_U64 {
            return Err(refused("filesystem size cannot be addressed"));
        }
        if journal_blocks > total_blocks || inode_blocks > total_blocks || directory_blocks
            > total_blocks {
            return Err(refused("metadata reservations exceed filesystem size"));
        }
        let allocation_blocks: u64 = (region::HEADER_SIZE as u64 + (total_blocks + 7) / 8 + 4095)
            / 4096;
        let allocation_start: u64 = 1 + journal_blocks;
        let inode_start: u64 = allocation_start + allocation_blocks;
        let directory_start: u64 = inode_start + inode_blocks;
        if directory_start + directory_blocks > total_blocks {
            return Err(refused("metadata reservations exceed filesystem size"));
        }
        Ok(
            Superblock {
                total_blocks,
                journal_start: SUPERBLOCK_BLOCK + 1,
                journal_blocks,
                allocation_start,
                allocation_blocks,
                inode_start,
                inode_blocks,
                directory_start,
                directory_blocks,
            },
        )
    }

    /// The journal blocks.
    pub fn journal_range(&self) -> (r: Range<u64>)
        requires
            self.journal_start + self.journal_blocks <= u64::MAX,
        ensures
            r.start == self.journal_start,
            r.end == self.journal_start + self.journal_blocks,
    {
        self.journal_start..self.journal_start + self.journal_blocks
    }

    /// The allocation-bitmap blocks.
    pub fn allocation_range(&self) -> (r: Range<u64>)
        requires
            self.allocation_start + self.allocation_blocks <= u64::MAX,
        ensures
            r.start == self.allocation_start,
            r.end == self.allocation_start + self.allocation_blocks,
    {
        self.allocation_start..self.allocation_start + self.allocation_blocks
    }

    /// The inode-table blocks.
    pub fn inode_range(&self) -> (r: Range<u64>)
        requires
            self.inode_start + self.inode_blocks <= u64::MAX,
        ensures
            r.start == self.inode_start,
            r.end == self.inode_start + self.inode_blocks,
    {
        self.inode_start..self.inode_start + self.inode_blocks
    }

    /// The directory-table blocks.
    pub fn directory_range(&self) -> (r: Range<u64>)
        requires
            self.directory_start + self.directory_blocks <= u64::MAX,
        ensures
            r.start == self.directory_start,
            r.end == self.directory_start + self.directory_blocks,
    {
        self.directory_start..self.directory_start + self.directory_blocks
    }

    /// The number of blocks in front of the data.
    pub fn reserved_blocks(&self) -> (n: u64)
        requires
            self.directory_start + self.directory_blocks <= u64::MAX,
        ensures
            n == self.data_start(),
    {
        self.directory_start + self.directory_blocks
    }

    /// Whether the fields describe one consistent layout of a device of `block_count` blocks.
    pub fn describes(&self, block_count: u64) -> (b: bool)
        ensures
            b == (self.valid() && self.total_blocks == block_count),
    {
        match Self::with_all_metadata_blocks(
            self.total_blocks,
            self.journal_blocks,
            self.inode_blocks,
            self.directory_blocks,
        ) {
            Ok(s) => s == *self && self.total_blocks == block_count,
            Err(_) => false,
        }
    }

    /// Encodes the superblock as a block.
    pub fn encode(self) -> (b: [u8; BLOCK_SIZE])
        ensures
            b@ == superblock_bytes(self),
    {
        broadcast use bytes::group_bytes;

        let mut v = zero_vec(BLOCK_SIZE);
        put(&mut v, 0, &SUPERBLOCK_MAGIC);
        put_u32(&mut v, VERSION_OFFSET, FORMAT_VERSION);
        put_u32(&mut v, BLOCK_SIZE_OFFSET, BLOCK_SIZE as u32);
        put_u64(&mut v, TOTAL_BLOCKS_OFFSET, self.total_blocks);
        put_u64(&mut v, JOURNAL_BLOCKS_OFFSET, self.journal_blocks);
        put_u64(&mut v, INODE_BLOCKS_OFFSET, self.inode_blocks);
        put_u64(&mut v, DIRECTORY_BLOCKS_OFFSET, self.directory_blocks);
        assert(v@.subrange(0, BLOCK_SIZE as int) =~= v@);
        block_from(v.as_slice(), 0)
    }

    /// Decodes and checks a superblock: magic, version, block size, padding and geometry.
    pub fn decode(block: &[u8; BLOCK_SIZE]) -> (r: Result<Self, Error>)
        ensures
            match r {
                Ok(s) => superblock_of(block@) == Some(s) && s.valid(),
                Err(e) => superblock_of(block@) is None && e.kind == ErrorKind::InvalidData,
            },
    {
        if !holds_at(block, 0, &SUPERBLOCK_MAGIC) {
            return Err(corrupt("invalid superblock magic"));
        }
        if read_u32(block, VERSION_OFFSET) != FORMAT_VERSION {
            return Err(corrupt("unsupported filesystem format version"));
        }
        if read_u32(block, BLOCK_SIZE_OFFSET) != BLOCK_SIZE as u32 {
            return Err(corrupt("unsupported logical block size"));
        }
        if !is_zero_run(block, HEADER_LEN, BLOCK_SIZE) {
            return Err(corrupt("superblock reserved bytes are non-zero"));
        }
        match Self::with_all_metadata_blocks(
            read_u64(block, TOTAL_BLOCKS_OFFSET),
            read_u64(block, JOURNAL_BLOCKS_OFFSET),
            read_u64(block, INODE_BLOCKS_OFFSET),
            read_u64(block, DIRECTORY_BLOCKS_OFFSET),
        ) {
            Ok(s) => Ok(s),
            Err(_) => Err(corrupt("superblock declares invalid geometry")),
        }
    }
}

/// Reads the superblock and holds it against the device.
pub fn read_superblock<D: BlockDevice>(device: &mut D) -> (r: Result<Superblock, Error>)
    ensures
        block::untouched(old(device), final(device)),
        match r {
            Ok(s) => superblock_on(old(device).blocks()) == Some(s) && s.fits(
                old(device).blocks(),
            ),
            Err(e) => !old(device).healthy() || old(device).blocks().len() == 0 || (
            superblock_on(old(device).blocks()) is None && e.kind == ErrorKind::InvalidData),
        },
{
    let mut block: Block = [0u8; BLOCK_SIZE];
    device.read_block(SUPERBLOCK_BLOCK, &mut block)?;
    let superblock = Superblock::decode(&block)?;
    if superblock.total_blocks != device.block_count() {
        return Err(corrupt("superblock block count does not match device"));
    }
    Ok(superblock)
}

} // verus!
