//! Formatting for a wanted capacity.

use vstd::prelude::*;
use vstd::utf8::*;
use crate::block;
use crate::block::{BlockDevice, Disk, BLOCK_SIZE};
use crate::directory_codec;
use crate::directory_codec::{DirEntryView, DIRECTORY_ENTRY_HEADER_LEN, DIRECTORY_NAME_MAX_BYTES};
use crate::directory_table;
use crate::directory_table::DIRECTORY_TABLE_HEADER_LEN;
use crate::error::{Error, ErrorKind};
use crate::file_append_batch;
use crate::file_blocks::invalid_input;
use crate::format::{Superblock, DEFAULT_DIRECTORY_BLOCKS, DEFAULT_INODE_BLOCKS};
use crate::format_geometry;
use crate::format_geometry::format_device_with_metadata_blocks;
use crate::inode_codec;
use crate::inode_codec::{InodeView, INODE_RECORD_HEADER_LEN};
use crate::inode_table;
use crate::inode_table::INODE_TABLE_HEADER_LEN;
use crate::records;
use crate::step;
use crate::step::Step;

verus! {

/// Bytes of an inode table with this many inodes without blocks.
pub open spec fn inode_table_bytes(capacity: int) -> int {
    capacity * INODE_RECORD_HEADER_LEN + INODE_TABLE_HEADER_LEN
}

/// Bytes of a directory table with this many entries whose names have this many bytes.
pub open spec fn directory_table_bytes(capacity: int, name_bytes: int) -> int {
    capacity * (DIRECTORY_ENTRY_HEADER_LEN + name_bytes) + DIRECTORY_TABLE_HEADER_LEN
}

/// Formatting for a number of inodes without blocks.
pub open spec fn format_inodes_step(disk: Disk, journal: int, capacity: int) -> Step<Superblock> {
    let bytes = inode_table_bytes(capacity);
    if capacity == 0 || bytes + BLOCK_SIZE - 1 > usize::MAX {
        step::stay(disk, Err(ErrorKind::InvalidInput))
    } else {
        format_geometry::format_step(
            disk,
            journal,
            file_append_batch::blocks_for(bytes),
            DEFAULT_DIRECTORY_BLOCKS as int,
        )
    }
}

/// Formatting for a number of directory entries with names up to a length.
pub open spec fn format_entries_step(disk: Disk, journal: int, capacity: int, name_bytes: int) -> Step<Superblock> {
    let bytes = directory_table_bytes(capacity, name_bytes);
    if capacity == 0 || name_bytes == 0 || name_bytes > DIRECTORY_NAME_MAX_BYTES || bytes
        + BLOCK_SIZE - 1 > usize::MAX {
        step::stay(disk, Err(ErrorKind::InvalidInput))
    } else {
        format_geometry::format_step(
            disk,
            journal,
            DEFAULT_INODE_BLOCKS as int,
            file_append_batch::blocks_for(bytes),
        )
    }
}

proof fn lemma_inode_bytes(inodes: Seq<InodeView>)
    requires
        forall|i: int|
            0 <= i < inodes.len() ==> inode_codec::exact(#[trigger] inodes[i])
                && inodes[i].blocks.len() == 0,
    ensures
        inode_table::inode_records(inodes) is Some,
        records::joined(inode_table::inode_records(inodes)->Some_0).len() == inodes.len()
            * INODE_RECORD_HEADER_LEN,
    decreases inodes.len(),
{
    if inodes.len() > 0 {
        let front = inodes.drop_last();
        assert(forall|i: int| 0 <= i < front.len() ==> #[trigger] front[i] == inodes[i]);
        lemma_inode_bytes(front);
        let last = inodes.last();
        assert(last == inodes[inodes.len() - 1]);
        inode_table::lemma_canonical_exact(last);
        assert(inode_codec::encoded(last) is Some);
        inode_codec::law_inode_round_trip(last);
        let list = inode_table::inode_records(inodes)->Some_0;
        assert(list.drop_last() =~= inode_table::inode_records(front)->Some_0);
        assert(inodes.len() * INODE_RECORD_HEADER_LEN == front.len() * INODE_RECORD_HEADER_LEN
            + INODE_RECORD_HEADER_LEN) by (nonlinear_arith)
            requires
                inodes.len() == front.len() + 1,
        ;
    }
}

/// An inode table of the length that is laid out for `capacity` inodes holds any list of that many
/// inodes without blocks.
pub proof fn law_inode_capacity(sb: Superblock, capacity: int, inodes: Seq<InodeView>)
    requires
        sb.valid(),
        sb.inode_blocks == file_append_batch::blocks_for(inode_table_bytes(capacity)),
        inodes.len() <= capacity,
        forall|i: int|
            0 <= i < inodes.len() ==> inode_codec::exact(#[trigger] inodes[i])
                && inodes[i].blocks.len() == 0,
    ensures
        inode_table::inode_region(sb, inodes) is Some,
{
    lemma_inode_bytes(inodes);
    assert(inodes.len() * INODE_RECORD_HEADER_LEN <= capacity * INODE_RECORD_HEADER_LEN)
        by (nonlinear_arith)
        requires
            inodes.len() <= capacity,
    ;
}

proof fn lemma_entry_bytes(entries: Seq<DirEntryView>, name_bytes: int)
    requires
        forall|i: int|
            0 <= i < entries.len() ==> directory_codec::valid_entry(#[trigger] entries[i])
                && encode_utf8(entries[i].name).len() <= name_bytes,
    ensures
        directory_table::entry_records(entries) is Some,
        records::joined(directory_table::entry_records(entries)->Some_0).len() <= entries.len() * (
        DIRECTORY_ENTRY_HEADER_LEN + name_bytes),
    decreases entries.len(),
{
    if entries.len() > 0 {
        let front = entries.drop_last();
        assert(forall|i: int| 0 <= i < front.len() ==> #[trigger] front[i] == entries[i]);
        lemma_entry_bytes(front, name_bytes);
        let last = entries.last();
        assert(last == entries[entries.len() - 1]);
        directory_codec::law_entry_round_trip(last);
        let list = directory_table::entry_records(entries)->Some_0;
        assert(list.drop_last() =~= directory_table::entry_records(front)->Some_0);
        let each = DIRECTORY_ENTRY_HEADER_LEN + name_bytes;
        assert(entries.len() * each == front.len() * each + each) by (nonlinear_arith)
            requires
                entries.len() == front.len() + 1,
        ;
    }
}

/// A directory table of the length that is laid out for `capacity` entries with names of up to
/// `name_bytes` bytes holds any list of that many such entries.
pub proof fn law_directory_capacity(sb: Superblock, capacity: int, name_bytes: int, entries: Seq<DirEntryView>)
    requires
        sb.valid(),
        0 <= name_bytes,
        sb.directory_blocks == file_append_batch::blocks_for(
            directory_table_bytes(capacity, name_bytes),
        ),
        entries.len() <= capacity,
        forall|i: int|
            0 <= i < entries.len() ==> directory_codec::valid_entry(#[trigger] entries[i])
                && encode_utf8(entries[i].name).len() <= name_bytes,
    ensures
        directory_table::directory_region(sb, entries) is Some,
{
    lemma_entry_bytes(entries, name_bytes);
    let each = DIRECTORY_ENTRY_HEADER_LEN + name_bytes;
    assert(entries.len() * each <= capacity * each) by (nonlinear_arith)
        requires
            entries.len() <= capacity,
            0 <= each,
    ;
}

fn blocks_for_bytes(bytes: usize) -> (r: Result<u64, Error>)
    ensures
        match r {
            Ok(n) => bytes + BLOCK_SIZE - 1 <= usize::MAX && n == file_append_batch::blocks_for(
                bytes as int,
            ),
            Err(e) => bytes + BLOCK_SIZE - 1 > usize::MAX && e.kind == ErrorKind::InvalidInput,
        },
{
    match bytes.checked_add(BLOCK_SIZE - 1) {
        Some(n) => Ok((n / BLOCK_SIZE) as u64),
        None => Err(invalid_input("capacity overflow")),
    }
}

/// Formats a file system whose inode table holds at least `inode_capacity` inodes without blocks.
pub fn format_device_for_blockless_inode_capacity<D: BlockDevice>(device: &mut D, journal_blocks: u64, inode_capacity: usize) -> (r: Result<Superblock, Error>)
    ensures
        step::follows(
            old(device),
            final(device),
            step::kinded(r),
            format_inodes_step(
                old(device).blocks(),
                journal_blocks as int,
                inode_capacity as int,
            ),
        ),
        format_geometry::published_last(
            old(device),
            final(device),
            format_inodes_step(
                old(device).blocks(),
                journal_blocks as int,
                inode_capacity as int,
            ).disk,
        ),
        r is Ok ==> block::settled(final(device)),
        step::turned_away(
            old(device),
            final(device),
            step::kinded(r),
            inode_capacity == 0 || inode_table_bytes(inode_capacity as int) + BLOCK_SIZE - 1
                > usize::MAX || !crate::format::sound(
                old(device).blocks().len() as int,
                journal_blocks as int,
                file_append_batch::blocks_for(inode_table_bytes(inode_capacity as int)),
                DEFAULT_DIRECTORY_BLOCKS as int,
            ),
        ),
{
    if inode_capacity == 0 {
        return Err(invalid_input("inode capacity must be non-zero"));
    }
    let records_bytes: usize = match inode_capacity.checked_mul(INODE_RECORD_HEADER_LEN) {
        Some(n) => match n.checked_add(INODE_TABLE_HEADER_LEN) {
            Some(n) => n,
            None => return Err(invalid_input("inode capacity overflow")),
        },
        None => return Err(invalid_input("inode capacity overflow")),
    };
    let inode_blocks: u64 = blocks_for_bytes(records_bytes)?;
    format_device_with_metadata_blocks(
        device,
        journal_blocks,
        inode_blocks,
        DEFAULT_DIRECTORY_BLOCKS,
    )
}

/// Formats a file system whose directory table holds at least `entry_capacity` entries with names
/// of up to `max_name_bytes` bytes.
pub fn format_device_for_directory_capacity<D: BlockDevice>(
    device: &mut D,
    journal_blocks: u64,
    entry_capacity: usize,
    max_name_bytes: usize,
) -> (r: Result<Superblock, Error>)
    ensures
        step::follows(
            old(device),
            final(device),
            step::kinded(r),
            format_entries_step(
                old(device).blocks(),
                journal_blocks as int,
                entry_capacity as int,
                max_name_bytes as int,
            ),
        ),
        format_geometry::published_last(
            old(device),
            final(device),
            format_entries_step(
                old(device).blocks(),
                journal_blocks as int,
                entry_capacity as int,
                max_name_bytes as int,
            ).disk,
        ),
        r is Ok ==> block::settled(final(device)),
        step::turned_away(
            old(device),
            final(device),
            step::kinded(r),
            entry_capacity == 0 || max_name_bytes == 0 || max_name_bytes > DIRECTORY_NAME_MAX_BYTES
                || directory_table_bytes(entry_capacity as int, max_name_bytes as int) + BLOCK_SIZE
                - 1 > usize::MAX || !crate::format::sound(
                old(device).blocks().len() as int,
                journal_blocks as int,
                DEFAULT_INODE_BLOCKS as int,
                file_append_batch::blocks_for(
                    directory_table_bytes(entry_capacity as int, max_name_bytes as int),
                ),
            ),
        ),
{
    if entry_capacity == 0 {
        return Err(invalid_input("directory entry capacity must be non-zero"));
    }
    if max_name_bytes == 0 || max_name_bytes > DIRECTORY_NAME_MAX_BYTES {
        return Err(invalid_input("directory maximum name length is invalid"));
    }
    let record_bytes: usize = DIRECTORY_ENTRY_HEADER_LEN + max_name_bytes;
    let table_bytes: usize = match entry_capacity.checked_mul(record_bytes) {
        Some(n) => match n.checked_add(DIRECTORY_TABLE_HEADER_LEN) {
            Some(n) => n,
            None => return Err(invalid_input("directory capacity overflow")),
        },
        None => return Err(invalid_input("directory capacity overflow")),
    };
    let directory_blocks: u64 = blocks_for_bytes(table_bytes)?;
    format_device_with_metadata_blocks(
        device,
        journal_blocks,
        DEFAULT_INODE_BLOCKS,
        directory_blocks,
    )
}

} // verus!
