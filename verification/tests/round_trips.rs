use fslab::allocation_disk::load_allocator;
use fslab::block::{BlockDevice, BLOCK_SIZE};
use fslab::directory_codec::{
    decode_directory_entry, encode_directory_entry, PersistedDirectoryEntry,
};
use fslab::directory_table::load_directory_table;
use fslab::directory_tx::{
    load_retained_directory_table, store_directory_table_journaled,
    update_directory_table_retained_journaled,
};
use fslab::error::{Error, ErrorKind};
use fslab::file_collapse::collapse_file_block_range_journaled;
use fslab::file_exchange::{
    exchange_file_block_ranges_journaled, exchange_same_file_block_ranges_journaled,
    exchange_variable_file_block_ranges_journaled, FileBlockExchangeRange,
};
use fslab::file_hole_punch::punch_file_hole_journaled;
use fslab::file_insert_batch::{
    insert_file_blocks_contiguous_journaled, insert_file_blocks_journaled,
};
use fslab::file_transfer::{move_file_block_range_journaled, transfer_file_block_range_journaled};
use fslab::format::Superblock;
use fslab::format_capacity::{
    format_device_for_blockless_inode_capacity, format_device_for_directory_capacity,
};
use fslab::format_geometry::{format_device_with_journal_blocks, format_device_with_metadata_blocks};
use fslab::fsck::check_device;
use fslab::fsck_repair::{
    repair_orphaned_allocations_journaled, repair_unreachable_inodes_journaled,
};
use fslab::hard_link_tx::hard_link_file_journaled;
use fslab::hard_unlink_tx::unlink_nonfinal_file_link_journaled;
use fslab::inode::InodeKind;
use fslab::inode_codec::{
    decode_inode, encode_inode, record_crc, PersistedInode, CRC_OFFSET, KIND_DIRECTORY, KIND_OFFSET,
    KIND_SYMLINK,
};
use fslab::inode_table::load_inode_table;
use fslab::journal::JournalLog;
use fslab::journal_checkpoint::checkpoint_journal;
use fslab::journal_region::{load_journal_image, store_journal_image};
use fslab::path_append::append_file_blocks_at_path_journaled;
use fslab::path_clone_replace::clone_file_to_existing_path_journaled;
use fslab::path_contiguous_defrag::{
    defragment_file_contiguous_at_path_journaled,
    defragment_file_range_contiguous_at_path_journaled,
};
use fslab::path_create::{
    create_directory_at_path_journaled, create_empty_file_at_path_journaled,
    create_file_with_blocks_at_path_journaled,
};
use fslab::path_directory::{list_directory_at_path, list_directory_page_after_name_at_path};
use fslab::path_directory_rename_overwrite::rename_overwrite_directory_journaled;
use fslab::path_file_read::read_file_blocks_at_path;
use fslab::path_file_write::write_file_blocks_at_path_journaled;
use fslab::path_grow::resize_file_at_path_to_bytes_journaled;
use fslab::path_lookup::{resolve_path_following_symlinks, ROOT_INODE_ID};
use fslab::recovery::RecoveryReport;
use fslab::recovery_projection::MemoryDevice;
use fslab::update::store_update_and_checkpoint;

type Tables = (Vec<bool>, Vec<PersistedInode>, Vec<(u64, u64, String)>);

/// A device that fails every request.
struct DeadDevice {
    requests: usize,
}

impl BlockDevice for DeadDevice {
    fn block_count(&self) -> u64 {
        64
    }

    fn read_block(&mut self, _block: u64, _buf: &mut [u8; BLOCK_SIZE]) -> Result<(), Error> {
        self.requests += 1;
        Err(Error::new(ErrorKind::Other, "no medium"))
    }

    fn write_block(&mut self, _block: u64, _buf: &[u8; BLOCK_SIZE]) -> Result<(), Error> {
        self.requests += 1;
        Err(Error::new(ErrorKind::Other, "no medium"))
    }

    fn flush(&mut self) -> Result<(), Error> {
        self.requests += 1;
        Err(Error::new(ErrorKind::Other, "no medium"))
    }
}

/// A device that stops at its `limit`th write and keeps what was written and what was flushed.
struct StoppingDevice {
    inner: MemoryDevice,
    limit: usize,
    written: Vec<u64>,
    flushed: Vec<usize>,
}

impl BlockDevice for StoppingDevice {
    fn block_count(&self) -> u64 {
        self.inner.block_count()
    }

    fn read_block(&mut self, block: u64, buf: &mut [u8; BLOCK_SIZE]) -> Result<(), Error> {
        self.inner.read_block(block, buf)
    }

    fn write_block(&mut self, block: u64, buf: &[u8; BLOCK_SIZE]) -> Result<(), Error> {
        if self.written.len() == self.limit {
            return Err(Error::new(ErrorKind::Other, "power is gone"));
        }
        self.written.push(block);
        self.inner.write_block(block, buf)
    }

    fn flush(&mut self) -> Result<(), Error> {
        self.flushed.push(self.written.len());
        self.inner.flush()
    }
}

fn filled(x: u8) -> [u8; BLOCK_SIZE] {
    [x; BLOCK_SIZE]
}

fn formatted() -> (MemoryDevice, Superblock) {
    let mut device = MemoryDevice { list: vec![[0; BLOCK_SIZE]; 96] };
    let superblock = format_device_with_journal_blocks(&mut device, 16).unwrap();
    (device, superblock)
}

fn file(device: &mut MemoryDevice, superblock: &Superblock, path: &str, marks: &[u8]) -> u64 {
    let blocks: Vec<_> = marks.iter().map(|x| filled(*x)).collect();
    create_file_with_blocks_at_path_journaled(device, superblock, path, &blocks).unwrap().0
}

fn tables(device: &mut MemoryDevice, superblock: &Superblock) -> Tables {
    let allocator = load_allocator(device, superblock).unwrap();
    let in_use = (superblock.reserved_blocks()..superblock.total_blocks)
        .map(|block| allocator.is_owned(block).unwrap())
        .collect();
    let inodes = load_inode_table(device, superblock).unwrap();
    let entries = load_directory_table(device, superblock).unwrap();
    let names = entries.into_iter().map(|entry| (entry.parent, entry.target, entry.name)).collect();
    (in_use, inodes, names)
}

fn range(inode: u64, start: usize, block_count: usize) -> FileBlockExchangeRange {
    FileBlockExchangeRange { inode, start, block_count }
}

#[test]
fn only_a_regular_file_may_repeat_the_hole_marker() {
    for kind in [InodeKind::Directory, InodeKind::Symlink] {
        assert_eq!(
            PersistedInode::new(3, kind, vec![0, 0]).unwrap_err().kind(),
            ErrorKind::InvalidInput
        );
        let broken = PersistedInode { id: 3, kind, blocks: vec![0, 0], byte_len: 0 };
        assert_eq!(broken.canonical_byte_len().unwrap_err().kind(), ErrorKind::InvalidInput);
        let mut empty = PersistedInode::new(3, kind, Vec::new()).unwrap();
        assert_eq!(
            empty.replace_block_range(0..0, &[0, 0]).unwrap_err().kind(),
            ErrorKind::InvalidInput
        );
        assert!(empty.blocks.is_empty());
    }
    let sparse = PersistedInode::new(3, InodeKind::File, vec![0, 0]).unwrap();
    let record = encode_inode(&sparse).unwrap();
    assert_eq!(decode_inode(&record).unwrap().blocks, vec![0, 0]);
    for kind in [KIND_DIRECTORY, KIND_SYMLINK] {
        let mut other = record.clone();
        other[KIND_OFFSET..KIND_OFFSET + 2].copy_from_slice(&kind.to_le_bytes());
        other[24..32].copy_from_slice(&[0; 8]);
        let crc = record_crc(&other);
        other[CRC_OFFSET..CRC_OFFSET + 4].copy_from_slice(&crc.to_le_bytes());
        assert_eq!(decode_inode(&other).unwrap_err().kind(), ErrorKind::InvalidData);
    }
}

#[test]
fn a_decoded_record_is_the_encoding_of_its_inode() {
    for inode in [
        PersistedInode::new(7, InodeKind::File, vec![11, 0, 0, 27]).unwrap(),
        PersistedInode::new_file_with_size(8, vec![5, 6], 4097).unwrap(),
        PersistedInode::new(9, InodeKind::Directory, Vec::new()).unwrap(),
    ] {
        let record = encode_inode(&inode).unwrap();
        assert_eq!(encode_inode(&decode_inode(&record).unwrap()).unwrap(), record);
    }
}

#[test]
fn a_decoded_entry_record_is_the_encoding_of_its_entry() {
    for name in ["a", "größe-日本", "..."] {
        let entry = PersistedDirectoryEntry { parent: 1, target: 7, name: name.to_owned() };
        let record = encode_directory_entry(&entry).unwrap();
        let again = encode_directory_entry(&decode_directory_entry(&record).unwrap()).unwrap();
        assert_eq!(again, record);
    }
}

#[test]
fn a_table_that_is_asked_for_again_is_left_alone() {
    let (mut device, sb) = formatted();
    let a = file(&mut device, &sb, "/a", &[1]);
    let before = device.list.clone();
    let table = load_directory_table(&mut device, &sb).unwrap();
    let report = store_directory_table_journaled(&mut device, &sb, &table).unwrap();
    assert_eq!(report, RecoveryReport::default());
    assert!(device.list == before);

    let first = update_directory_table_retained_journaled(
        &mut device,
        &sb,
        |table: &mut Vec<PersistedDirectoryEntry>| {
            table.push(PersistedDirectoryEntry { parent: 1, target: a, name: "b".to_owned() });
            Ok(())
        },
    )
    .unwrap();
    assert_eq!(first.appended_home_writes, 1);
    for block in sb.journal_range().end..sb.total_blocks {
        assert!(device.list[block as usize] == before[block as usize]);
    }
    let retained = device.list.clone();
    let same = update_directory_table_retained_journaled(
        &mut device,
        &sb,
        |table: &mut Vec<PersistedDirectoryEntry>| {
            assert_eq!(table.len(), 2);
            Ok(())
        },
    )
    .unwrap();
    assert_eq!(same.appended_home_writes, 0);
    assert_eq!(same.retained, first.retained);
    assert_eq!(load_retained_directory_table(&mut device, &sb).unwrap().len(), 2);
    assert!(device.list == retained);
}

#[test]
fn a_decoded_superblock_is_its_block() {
    let (device, sb) = formatted();
    let read = Superblock::decode(&device.list[0]).unwrap();
    assert_eq!(read, sb);
    assert_eq!(read.encode(), device.list[0]);
    let mut padded = device.list[0];
    padded[BLOCK_SIZE - 1] = 1;
    assert_eq!(Superblock::decode(&padded).unwrap_err().kind(), ErrorKind::InvalidData);
}

#[test]
fn a_hole_in_a_directory_fails_inspection() {
    let (mut device, sb) = formatted();
    create_directory_at_path_journaled(&mut device, &sb, "/d").unwrap();
    check_device(&mut device).unwrap();
    let mut inodes = load_inode_table(&mut device, &sb).unwrap();
    inodes[1].blocks.push(0);
    store_update_and_checkpoint(&mut device, &sb, None, Some(&inodes), None, &[], false).unwrap();
    assert_eq!(check_device(&mut device).unwrap_err().kind(), ErrorKind::InvalidData);
}

#[test]
fn cloning_over_a_file_copies_every_block_of_a_source_with_a_partial_tail() {
    let (mut device, sb) = formatted();
    file(&mut device, &sb, "/a", &[1, 2]);
    file(&mut device, &sb, "/b", &[7, 8, 9]);
    file(&mut device, &sb, "/c", &[5]);
    resize_file_at_path_to_bytes_journaled(&mut device, &sb, "/a", 4100).unwrap();
    clone_file_to_existing_path_journaled(&mut device, &sb, "/a", "/b").unwrap();
    let copy = read_file_blocks_at_path(&mut device, &sb, "/b").unwrap();
    assert_eq!(copy[..BLOCK_SIZE], filled(1));
    assert_eq!(copy[BLOCK_SIZE..BLOCK_SIZE + 4], [2; 4]);
    let id = resolve_path_following_symlinks(&mut device, &sb, "/b").unwrap();
    let inodes = load_inode_table(&mut device, &sb).unwrap();
    let inode = inodes.iter().find(|inode| inode.id == id).unwrap();
    assert_eq!(inode.blocks.len(), 2);
    assert_eq!(read_file_blocks_at_path(&mut device, &sb, "/a").unwrap().len(), 4100);
    check_device(&mut device).unwrap();

    create_empty_file_at_path_journaled(&mut device, &sb, "/none").unwrap();
    clone_file_to_existing_path_journaled(&mut device, &sb, "/none", "/c").unwrap();
    assert!(read_file_blocks_at_path(&mut device, &sb, "/c").unwrap().is_empty());
    create_directory_at_path_journaled(&mut device, &sb, "/d").unwrap();
    assert_eq!(
        clone_file_to_existing_path_journaled(&mut device, &sb, "/d", "/c").unwrap_err().kind(),
        ErrorKind::InvalidInput
    );
    check_device(&mut device).unwrap();
}

#[test]
fn a_range_that_is_moved_back_stands_where_it_stood() {
    let (mut device, sb) = formatted();
    let a = file(&mut device, &sb, "/a", &[1, 2, 3, 4, 5]);
    resize_file_at_path_to_bytes_journaled(&mut device, &sb, "/a", 16385).unwrap();
    let before = tables(&mut device, &sb);
    move_file_block_range_journaled(&mut device, &sb, a, 1, 2, 3).unwrap();
    assert_ne!(tables(&mut device, &sb), before);
    move_file_block_range_journaled(&mut device, &sb, a, 3, 2, 1).unwrap();
    assert_eq!(tables(&mut device, &sb), before);
}

#[test]
fn ranges_that_are_exchanged_twice_are_as_they_were() {
    let (mut device, sb) = formatted();
    let a = file(&mut device, &sb, "/a", &[1, 2, 3, 4, 5]);
    let b = file(&mut device, &sb, "/b", &[6, 7]);
    resize_file_at_path_to_bytes_journaled(&mut device, &sb, "/b", 4097).unwrap();
    let before = tables(&mut device, &sb);
    exchange_file_block_ranges_journaled(&mut device, &sb, a, 3, b, 0, 2).unwrap();
    assert_ne!(tables(&mut device, &sb), before);
    exchange_file_block_ranges_journaled(&mut device, &sb, a, 3, b, 0, 2).unwrap();
    assert_eq!(tables(&mut device, &sb), before);

    let (left, right) = (range(a, 0, 3), range(b, 1, 1));
    exchange_variable_file_block_ranges_journaled(&mut device, &sb, left, right).unwrap();
    assert_ne!(tables(&mut device, &sb), before);
    let (left, right) = (range(a, 0, 1), range(b, 1, 3));
    exchange_variable_file_block_ranges_journaled(&mut device, &sb, left, right).unwrap();
    assert_eq!(tables(&mut device, &sb), before);

    let (first, second) = (range(a, 0, 2), range(a, 4, 1));
    exchange_same_file_block_ranges_journaled(&mut device, &sb, first, second).unwrap();
    assert_ne!(tables(&mut device, &sb), before);
    let (first, second) = (range(a, 0, 1), range(a, 3, 2));
    exchange_same_file_block_ranges_journaled(&mut device, &sb, first, second).unwrap();
    assert_eq!(tables(&mut device, &sb), before);
}

#[test]
fn removing_what_was_inserted_restores_mapping_and_ownership() {
    let (mut device, sb) = formatted();
    let a = file(&mut device, &sb, "/a", &[1, 2]);
    resize_file_at_path_to_bytes_journaled(&mut device, &sb, "/a", 5000).unwrap();
    let before = tables(&mut device, &sb);
    for at in 0..3 {
        let images = [filled(8), filled(9), filled(10)];
        insert_file_blocks_journaled(&mut device, &sb, a, at, &images).unwrap();
        assert_ne!(tables(&mut device, &sb), before);
        collapse_file_block_range_journaled(&mut device, &sb, a, at, 3).unwrap();
        assert_eq!(tables(&mut device, &sb), before);
        insert_file_blocks_contiguous_journaled(&mut device, &sb, a, at, &images).unwrap();
        collapse_file_block_range_journaled(&mut device, &sb, a, at, 3).unwrap();
        assert_eq!(tables(&mut device, &sb), before);
    }
}

#[test]
fn defragmenting_again_changes_nothing() {
    let (mut device, sb) = formatted();
    file(&mut device, &sb, "/a", &[1]);
    file(&mut device, &sb, "/b", &[2]);
    append_file_blocks_at_path_journaled(&mut device, &sb, "/a", &[filled(3)]).unwrap();
    let (blocks, report) =
        defragment_file_contiguous_at_path_journaled(&mut device, &sb, "/a").unwrap();
    assert_eq!(report.committed_transactions, 1);
    let before = device.list.clone();
    assert_eq!(
        defragment_file_contiguous_at_path_journaled(&mut device, &sb, "/a").unwrap(),
        (blocks, RecoveryReport::default())
    );
    assert!(device.list == before);
}

#[test]
fn repairing_again_changes_nothing() {
    let (mut device, sb) = formatted();
    file(&mut device, &sb, "/a", &[1]);
    let mut allocator = load_allocator(&mut device, &sb).unwrap();
    allocator.allocate_many(3).unwrap();
    store_update_and_checkpoint(&mut device, &sb, Some(&allocator), None, None, &[], false)
        .unwrap();
    let report = repair_orphaned_allocations_journaled(&mut device, &sb).unwrap();
    assert_eq!(report.released_blocks.len(), 3);
    let before = device.list.clone();
    let again = repair_orphaned_allocations_journaled(&mut device, &sb).unwrap();
    assert!(again.released_blocks.is_empty());
    assert_eq!(again.prior_recovery, RecoveryReport::default());
    assert_eq!(again.repair_transaction, RecoveryReport::default());
    assert!(device.list == before);
    let names = repair_unreachable_inodes_journaled(&mut device, &sb).unwrap();
    assert!(names.reattached.is_empty());
    assert_eq!(names.repair_transaction, RecoveryReport::default());
    assert!(device.list == before);
}

#[test]
fn removing_a_name_that_was_given_restores_the_directory_table() {
    let (mut device, sb) = formatted();
    let a = file(&mut device, &sb, "/a", &[1]);
    let (dir, _) = create_directory_at_path_journaled(&mut device, &sb, "/d").unwrap();
    let before = tables(&mut device, &sb);
    hard_link_file_journaled(&mut device, &sb, dir, "again", a).unwrap();
    assert_ne!(tables(&mut device, &sb), before);
    unlink_nonfinal_file_link_journaled(&mut device, &sb, dir, "again").unwrap();
    assert_eq!(tables(&mut device, &sb), before);
}

#[test]
fn reading_page_after_page_gathers_every_entry_once() {
    let (mut device, sb) = formatted();
    for name in ["/m", "/b", "/z", "/a", "/k"] {
        create_empty_file_at_path_journaled(&mut device, &sb, name).unwrap();
    }
    let all = list_directory_at_path(&mut device, &sb, "/").unwrap();
    assert_eq!(all.len(), 5);
    for limit in 1..7 {
        let mut gathered = Vec::new();
        let mut cursor: Option<String> = None;
        loop {
            let page = list_directory_page_after_name_at_path(
                &mut device,
                &sb,
                "/",
                cursor.as_deref(),
                limit,
            )
            .unwrap();
            match page.last() {
                Some(last) => cursor = Some(last.name.clone()),
                None => break,
            }
            gathered.extend(page);
        }
        assert_eq!(gathered, all);
    }
}

#[test]
fn a_standing_log_is_neither_replaced_nor_discarded() {
    let (mut device, sb) = formatted();
    let mut log = JournalLog::new();
    let txid = log.begin().unwrap();
    log.write(txid, sb.reserved_blocks(), filled(4)).unwrap();
    log.commit(txid).unwrap();
    store_journal_image(&mut device, sb, log.entries()).unwrap();
    assert_eq!(load_journal_image(&mut device, sb).unwrap(), log.entries().to_vec());
    let before = device.list.clone();
    for entries in [log.entries(), &[]] {
        assert_eq!(
            store_journal_image(&mut device, sb, entries).unwrap_err().kind(),
            ErrorKind::WouldBlock
        );
        assert!(device.list == before);
    }
    assert!(checkpoint_journal(&mut device, sb).unwrap());
    for block in 0..device.list.len() {
        let same = device.list[block] == before[block];
        assert_eq!(same, block as u64 != sb.journal_start);
    }
    let before = device.list.clone();
    assert!(!checkpoint_journal(&mut device, sb).unwrap());
    assert!(device.list == before);
}

#[test]
fn arguments_alone_are_refused_before_the_device_is_asked() {
    let sb = Superblock::with_journal_blocks(64, 16).unwrap();
    let mut device = DeadDevice { requests: 0 };
    let kinds = [
        move_file_block_range_journaled(&mut device, &sb, 2, 0, 0, 1).unwrap_err().kind(),
        collapse_file_block_range_journaled(&mut device, &sb, 2, usize::MAX, 1)
            .unwrap_err()
            .kind(),
        exchange_file_block_ranges_journaled(&mut device, &sb, 2, 0, 2, 1, 1).unwrap_err().kind(),
        insert_file_blocks_journaled(&mut device, &sb, 2, 0, &[]).unwrap_err().kind(),
        punch_file_hole_journaled(&mut device, &sb, 2, 0, 0).unwrap_err().kind(),
    ];
    assert_eq!(kinds, [ErrorKind::InvalidInput; 5]);
    assert_eq!(device.requests, 0);
    assert_eq!(
        move_file_block_range_journaled(&mut device, &sb, 2, 0, 1, 1).unwrap_err().kind(),
        ErrorKind::Other
    );
}

#[test]
fn a_device_without_blocks_is_refused() {
    let sb = Superblock::with_journal_blocks(64, 16).unwrap();
    let mut device = MemoryDevice { list: Vec::new() };
    assert!(check_device(&mut device).is_err());
    assert!(repair_orphaned_allocations_journaled(&mut device, &sb).is_err());
    assert!(repair_unreachable_inodes_journaled(&mut device, &sb).is_err());
    assert!(rename_overwrite_directory_journaled(
        &mut device,
        &sb,
        ROOT_INODE_ID,
        "a",
        ROOT_INODE_ID,
        "b"
    )
    .is_err());
}

#[test]
fn formatting_publishes_block_zero_last() {
    let blank = || MemoryDevice { list: vec![[7; BLOCK_SIZE]; 64] };
    let mut device =
        StoppingDevice { inner: blank(), limit: usize::MAX, written: Vec::new(), flushed: Vec::new() };
    let sb = format_device_with_metadata_blocks(&mut device, 16, 3, 2).unwrap();
    let count = device.written.len();
    let tables: Vec<u64> = (sb.journal_range().end..sb.reserved_blocks()).collect();
    assert_eq!(device.written[..count - 1], tables[..]);
    assert_eq!(device.written[count - 1], 0);
    assert_eq!(device.flushed, vec![count - 1, count]);
    for limit in 0..count {
        let mut device =
            StoppingDevice { inner: blank(), limit, written: Vec::new(), flushed: Vec::new() };
        let error = format_device_with_metadata_blocks(&mut device, 16, 3, 2).unwrap_err();
        assert_eq!(error.kind(), ErrorKind::Other);
        assert_eq!(device.inner.list[0], [7; BLOCK_SIZE]);
    }
}

#[test]
fn geometry_and_capacity_are_refused_before_the_device_is_asked() {
    let mut device = DeadDevice { requests: 0 };
    let kinds = [
        format_device_with_metadata_blocks(&mut device, 60, 3, 2).unwrap_err().kind(),
        format_device_with_journal_blocks(&mut device, 0).unwrap_err().kind(),
        format_device_for_blockless_inode_capacity(&mut device, 16, 0).unwrap_err().kind(),
        format_device_for_blockless_inode_capacity(&mut device, 16, usize::MAX).unwrap_err().kind(),
        format_device_for_blockless_inode_capacity(&mut device, 16, usize::MAX / 40)
            .unwrap_err()
            .kind(),
        format_device_for_directory_capacity(&mut device, 16, usize::MAX, 1).unwrap_err().kind(),
        format_device_for_directory_capacity(&mut device, 16, usize::MAX / 33, 1)
            .unwrap_err()
            .kind(),
        format_device_for_directory_capacity(&mut device, 16, 100_000, 255).unwrap_err().kind(),
    ];
    assert_eq!(kinds, [ErrorKind::InvalidInput; 8]);
    assert_eq!(device.requests, 0);
    assert_eq!(
        format_device_for_directory_capacity(&mut device, 16, 10, 20).unwrap_err().kind(),
        ErrorKind::Other
    );
}

#[test]
fn what_is_written_at_a_path_reads_back_there_up_to_the_end() {
    let (mut device, sb) = formatted();
    file(&mut device, &sb, "/a", &[1, 2, 3]);
    resize_file_at_path_to_bytes_journaled(&mut device, &sb, "/a", 8200).unwrap();
    let data: Vec<u8> = (0..3 * BLOCK_SIZE).map(|i| (i % 251) as u8).collect();
    write_file_blocks_at_path_journaled(&mut device, &sb, "/a", &data).unwrap();
    let before = device.list.clone();
    for _ in 0..2 {
        let read = read_file_blocks_at_path(&mut device, &sb, "/a").unwrap();
        assert_eq!(read[..], data[..8200]);
        assert!(device.list == before);
    }
    create_empty_file_at_path_journaled(&mut device, &sb, "/none").unwrap();
    write_file_blocks_at_path_journaled(&mut device, &sb, "/none", &[]).unwrap();
    assert!(read_file_blocks_at_path(&mut device, &sb, "/none").unwrap().is_empty());
    create_directory_at_path_journaled(&mut device, &sb, "/d").unwrap();
    assert_eq!(
        read_file_blocks_at_path(&mut device, &sb, "/d").unwrap_err().kind(),
        ErrorKind::InvalidInput
    );
}

#[test]
fn defragmenting_a_range_again_at_a_path_changes_nothing() {
    let (mut device, sb) = formatted();
    file(&mut device, &sb, "/a", &[1]);
    file(&mut device, &sb, "/b", &[9]);
    append_file_blocks_at_path_journaled(&mut device, &sb, "/a", &[filled(2), filled(3)]).unwrap();
    let contents = read_file_blocks_at_path(&mut device, &sb, "/a").unwrap();
    let (blocks, _) =
        defragment_file_range_contiguous_at_path_journaled(&mut device, &sb, "/a", 0, 2).unwrap();
    assert_eq!(blocks[1], blocks[0] + 1);
    assert_eq!(read_file_blocks_at_path(&mut device, &sb, "/a").unwrap(), contents);
    let before = device.list.clone();
    assert_eq!(
        defragment_file_range_contiguous_at_path_journaled(&mut device, &sb, "/a", 0, 2).unwrap(),
        (blocks, RecoveryReport::default())
    );
    assert!(device.list == before);
    create_empty_file_at_path_journaled(&mut device, &sb, "/none").unwrap();
    assert_eq!(
        defragment_file_contiguous_at_path_journaled(&mut device, &sb, "/none").unwrap_err().kind(),
        ErrorKind::InvalidInput
    );
}

#[test]
fn a_range_that_is_transferred_back_stands_where_it_stood() {
    let (mut device, sb) = formatted();
    let a = file(&mut device, &sb, "/a", &[1, 2, 3]);
    let b = file(&mut device, &sb, "/b", &[4, 5]);
    resize_file_at_path_to_bytes_journaled(&mut device, &sb, "/a", 8193).unwrap();
    resize_file_at_path_to_bytes_journaled(&mut device, &sb, "/b", 4097).unwrap();
    let before = tables(&mut device, &sb);
    transfer_file_block_range_journaled(&mut device, &sb, a, 1, 2, b, 1).unwrap();
    assert_ne!(tables(&mut device, &sb), before);
    transfer_file_block_range_journaled(&mut device, &sb, b, 1, 2, a, 1).unwrap();
    assert_eq!(tables(&mut device, &sb), before);

    transfer_file_block_range_journaled(&mut device, &sb, a, 0, 3, b, 2).unwrap();
    transfer_file_block_range_journaled(&mut device, &sb, b, 2, 3, a, 0).unwrap();
    let (_, inodes, _) = tables(&mut device, &sb);
    let was = before.1.iter().find(|inode| inode.id == a).unwrap();
    let is = inodes.iter().find(|inode| inode.id == a).unwrap();
    assert_eq!(is.blocks, was.blocks);
    assert_eq!(is.byte_len, 3 * 4096);
    check_device(&mut device).unwrap();
}
