use fslab::allocation::BlockAllocator;
use fslab::allocation_disk::load_allocator;
use fslab::block::{block_offset, device_blocks, device_size, BLOCK_SIZE};
use fslab::bytes::crc32;
use fslab::directory_codec::{
    decode_directory_entry, encode_directory_entry, is_valid_name, PersistedDirectoryEntry,
};
use fslab::directory_table::load_directory_table;
use fslab::directory_tx::store_directory_table_journaled;
use fslab::error::ErrorKind;
use fslab::file_collapse::collapse_file_block_range_journaled;
use fslab::filesystem_space::{
    filesystem_free_space_extents, filesystem_free_space_extents_page, filesystem_space,
    FilesystemSpace, FreeSpaceExtent,
};
use fslab::format::Superblock;
use fslab::format_capacity::{
    format_device_for_blockless_inode_capacity, format_device_for_directory_capacity,
};
use fslab::format_geometry::{
    format_device, format_device_with_journal_blocks, format_device_with_metadata_blocks,
};
use fslab::fsck::{
    check_device, check_device_allowing_orphaned_allocations,
    check_device_allowing_unreachable_inodes, validate_namespace_snapshot,
};
use fslab::fsck_repair::{
    repair_orphaned_allocations_journaled, repair_unreachable_inodes_journaled,
    NamespaceReattachment,
};
use fslab::inode::InodeKind;
use fslab::inode_codec::PersistedInode;
use fslab::inode_table::load_inode_table;
use fslab::journal_checkpoint::recover_journal_and_checkpoint;
use fslab::names::{append_decimal, is_before, same_text};
use fslab::namespace::{is_sound_namespace, list_unreachable};
use fslab::path_create::{
    create_directory_at_path_journaled, create_empty_file_at_path_journaled,
    create_file_with_blocks_at_path_journaled,
};
use fslab::path_lookup::resolve_path_following_symlinks;
use fslab::recovery::RecoveryReport;
use fslab::recovery_projection::MemoryDevice;
use fslab::symlink::encode_symlink;
use fslab::update::store_update_and_checkpoint;

fn blank(blocks: usize) -> MemoryDevice {
    MemoryDevice { list: vec![[0; BLOCK_SIZE]; blocks] }
}

fn formatted() -> (MemoryDevice, Superblock) {
    let mut device = blank(64);
    let superblock = format_device_with_journal_blocks(&mut device, 16).unwrap();
    (device, superblock)
}

fn named(parent: u64, target: u64, name: &str) -> PersistedDirectoryEntry {
    PersistedDirectoryEntry { parent, target, name: name.to_owned() }
}

fn bare(id: u64, kind: InodeKind) -> PersistedInode {
    PersistedInode { id, kind, blocks: Vec::new(), byte_len: 0 }
}

#[test]
fn checksum_has_its_standard_check_value() {
    assert_eq!(crc32(b"123456789"), 0xCBF4_3926);
    assert_eq!(crc32(b""), 0);
}

#[test]
fn entries_with_names_beyond_ascii_survive_encoding() {
    let entry = named(1, 7, "größe-日本");
    let record = encode_directory_entry(&entry).unwrap();
    assert_eq!(decode_directory_entry(&record).unwrap(), entry);
}

#[test]
fn a_record_whose_name_is_no_text_is_refused() {
    let mut record = encode_directory_entry(&named(1, 7, "ab")).unwrap();
    record[32] = 0xFF;
    for byte in 28..32 {
        record[byte] = 0;
    }
    let sum = crc32(&record).to_le_bytes();
    record[28..32].copy_from_slice(&sum);
    assert_eq!(decode_directory_entry(&record).unwrap_err().kind(), ErrorKind::InvalidData);
    record[32] = b'a';
    assert_eq!(decode_directory_entry(&record).unwrap_err().kind(), ErrorKind::InvalidData);
}

#[test]
fn names_that_paths_cannot_hold_are_invalid() {
    for name in ["", ".", "..", "a/b", "a\0b"] {
        assert!(!is_valid_name(name));
        assert_eq!(
            encode_directory_entry(&named(1, 2, name)).unwrap_err().kind(),
            ErrorKind::InvalidInput
        );
    }
    assert!(is_valid_name("..."));
    assert!(is_valid_name(&"é".repeat(127)));
    assert!(!is_valid_name(&"é".repeat(128)));
}

#[test]
fn text_is_ordered_by_its_bytes() {
    assert!(is_before("a", "b"));
    assert!(is_before("a", "ab"));
    assert!(is_before("z", "é"));
    assert!(!is_before("b", "b"));
    assert!(same_text("é", "é"));
    assert!(!same_text("e", "é"));
    let mut text = "n".to_owned();
    append_decimal(&mut text, 18446744073709551615);
    append_decimal(&mut text, 0);
    assert_eq!(text, "n184467440737095516150");
}

#[test]
fn a_target_must_be_there_and_fit_its_block() {
    assert_eq!(encode_symlink("").unwrap_err().kind(), ErrorKind::InvalidInput);
    assert!(encode_symlink(&"t".repeat(4064)).is_ok());
    assert_eq!(encode_symlink(&"t".repeat(4065)).unwrap_err().kind(), ErrorKind::InvalidInput);
}

#[test]
fn the_lowest_free_blocks_are_taken_first() {
    let mut allocator = BlockAllocator { first: 10, owned: vec![false; 6] };
    assert_eq!(allocator.allocate_many(3).unwrap(), vec![10, 11, 12]);
    allocator.free(11).unwrap();
    assert_eq!(allocator.allocate_contiguous(2).unwrap(), 13);
    assert_eq!(allocator.allocate().unwrap(), 11);
    assert_eq!(allocator.allocated_blocks(), 5);
    assert_eq!(allocator.free_blocks(), 1);
    assert!(allocator.allocate_contiguous(2).is_err());
    assert!(allocator.free(9).is_err());
    assert!(allocator.free(15).is_err());
    assert!(allocator.is_owned(16).is_err());
    assert!(!allocator.is_owned(15).unwrap());
    assert!(allocator.allocate_many(2).is_err());
}

#[test]
fn a_formatted_device_passes_inspection() {
    let mut device = blank(64);
    let sb = format_device(&mut device).unwrap();
    assert_eq!((sb.journal_blocks, sb.inode_blocks, sb.directory_blocks), (2, 1, 2));
    let report = check_device(&mut device).unwrap();
    assert_eq!(report.reserved_blocks, 7);
    assert_eq!(report.free_blocks, 57);
    assert_eq!(report.allocated_blocks, 0);
    assert_eq!(
        format_device_with_metadata_blocks(&mut blank(8), 4, 2, 2).unwrap_err().kind(),
        ErrorKind::InvalidInput
    );
}

#[test]
fn a_table_laid_out_for_a_number_of_records_holds_that_many() {
    let mut device = blank(64);
    let sb = format_device_for_blockless_inode_capacity(&mut device, 16, 200).unwrap();
    let mut inodes = vec![bare(1, InodeKind::Directory)];
    let mut entries = Vec::new();
    for id in 2..=200 {
        inodes.push(bare(id, InodeKind::File));
        entries.push(named(1, id, "x"));
    }
    store_update_and_checkpoint(&mut device, &sb, None, Some(&inodes), None, &[], false).unwrap();
    assert_eq!(load_inode_table(&mut device, &sb).unwrap().len(), 200);

    let mut device = blank(64);
    let sb = format_device_for_directory_capacity(&mut device, 16, 100, 4).unwrap();
    let entries: Vec<_> =
        (0..100).map(|k| named(1, 2, &format!("{k:04}"))).collect();
    store_directory_table_journaled(&mut device, &sb, &entries).unwrap();
    assert_eq!(load_directory_table(&mut device, &sb).unwrap(), entries);
}

#[test]
fn space_adds_up() {
    let (mut device, sb) = formatted();
    create_file_with_blocks_at_path_journaled(&mut device, &sb, "/a", &[[1; BLOCK_SIZE]; 3])
        .unwrap();
    assert_eq!(
        filesystem_space(&mut device, &sb).unwrap(),
        FilesystemSpace {
            block_size: 4096,
            total_blocks: 64,
            reserved_blocks: 21,
            data_blocks: 43,
            allocated_data_blocks: 3,
            free_data_blocks: 40,
        }
    );
}

#[test]
fn free_runs_are_listed_and_paged_without_repeating_a_block() {
    let (mut device, sb) = formatted();
    let (a, _) =
        create_file_with_blocks_at_path_journaled(&mut device, &sb, "/a", &[[1; BLOCK_SIZE]; 5])
            .unwrap();
    collapse_file_block_range_journaled(&mut device, &sb, a, 1, 2).unwrap();
    let runs = vec![
        FreeSpaceExtent { start_block: 22, block_count: 2 },
        FreeSpaceExtent { start_block: 26, block_count: 38 },
    ];
    let space = filesystem_free_space_extents(&mut device, &sb).unwrap();
    assert_eq!(space.extents, runs);
    assert_eq!(space.total_free_blocks, 40);
    assert_eq!(space.largest_extent_blocks, 38);

    let page = filesystem_free_space_extents_page(&mut device, &sb, None, 1).unwrap();
    assert_eq!(page.extents, runs[..1].to_vec());
    assert_eq!(page.next_after, Some(23));
    let page =
        filesystem_free_space_extents_page(&mut device, &sb, page.next_after, 1).unwrap();
    assert_eq!(page.extents, runs[1..].to_vec());
    assert_eq!(page.next_after, None);

    let cut = filesystem_free_space_extents_page(&mut device, &sb, Some(22), 1).unwrap();
    assert_eq!(cut.extents, vec![FreeSpaceExtent { start_block: 23, block_count: 1 }]);
    for beyond in [63, 64, u64::MAX] {
        let page = filesystem_free_space_extents_page(&mut device, &sb, Some(beyond), 1).unwrap();
        assert!(page.extents.is_empty());
        assert_eq!(page.total_free_blocks, 40);
    }
    assert_eq!(
        filesystem_free_space_extents_page(&mut device, &sb, None, 0).unwrap_err().kind(),
        ErrorKind::InvalidInput
    );
}

#[test]
fn orphaned_blocks_are_found_and_released() {
    let (mut device, sb) = formatted();
    create_file_with_blocks_at_path_journaled(&mut device, &sb, "/a", &[[1; BLOCK_SIZE]]).unwrap();
    let mut allocator = load_allocator(&mut device, &sb).unwrap();
    assert_eq!(allocator.allocate_many(2).unwrap(), vec![22, 23]);
    store_update_and_checkpoint(&mut device, &sb, Some(&allocator), None, None, &[], false)
        .unwrap();
    assert_eq!(check_device(&mut device).unwrap_err().kind(), ErrorKind::InvalidData);
    assert_eq!(
        check_device_allowing_orphaned_allocations(&mut device).unwrap().1,
        vec![22, 23]
    );

    let report = repair_orphaned_allocations_journaled(&mut device, &sb).unwrap();
    assert_eq!(report.released_blocks, vec![22, 23]);
    assert_eq!(report.repair_transaction.committed_transactions, 1);
    assert_eq!(check_device(&mut device).unwrap().allocated_blocks, 1);

    let again = repair_orphaned_allocations_journaled(&mut device, &sb).unwrap();
    assert!(again.released_blocks.is_empty());
    assert_eq!(again.repair_transaction, RecoveryReport::default());
    let other = Superblock::with_journal_blocks(64, 8).unwrap();
    assert_eq!(
        repair_orphaned_allocations_journaled(&mut device, &other).unwrap_err().kind(),
        ErrorKind::InvalidInput
    );
}

#[test]
fn unreachable_inodes_get_a_name_again_and_keep_what_is_below_them() {
    let (mut device, sb) = formatted();
    create_directory_at_path_journaled(&mut device, &sb, "/dir").unwrap();
    create_empty_file_at_path_journaled(&mut device, &sb, "/dir/f").unwrap();
    create_empty_file_at_path_journaled(&mut device, &sb, "/.fsck-orphan-2").unwrap();
    let mut entries = load_directory_table(&mut device, &sb).unwrap();
    entries.retain(|entry| entry.name != "dir");
    store_directory_table_journaled(&mut device, &sb, &entries).unwrap();
    recover_journal_and_checkpoint(&mut device, sb).unwrap();
    assert_eq!(
        check_device_allowing_unreachable_inodes(&mut device).unwrap().1,
        vec![2, 3]
    );

    let report = repair_unreachable_inodes_journaled(&mut device, &sb).unwrap();

    assert_eq!(
        report.reattached,
        vec![NamespaceReattachment { inode_id: 2, name: ".fsck-orphan-2-1".to_owned() }]
    );
    assert_eq!(
        resolve_path_following_symlinks(&mut device, &sb, "/.fsck-orphan-2-1/f").unwrap(),
        3
    );
    check_device(&mut device).unwrap();
    assert!(repair_unreachable_inodes_journaled(&mut device, &sb).unwrap().reattached.is_empty());
}

#[test]
fn a_ring_of_directories_cannot_be_reattached() {
    let (mut device, sb) = formatted();
    create_directory_at_path_journaled(&mut device, &sb, "/a").unwrap();
    create_directory_at_path_journaled(&mut device, &sb, "/a/b").unwrap();
    let entries = [named(3, 2, "a"), named(2, 3, "b")];
    store_directory_table_journaled(&mut device, &sb, &entries).unwrap();
    recover_journal_and_checkpoint(&mut device, sb).unwrap();
    let before = device.list.clone();
    assert_eq!(
        repair_unreachable_inodes_journaled(&mut device, &sb).unwrap_err().kind(),
        ErrorKind::InvalidData
    );
    assert!(device.list == before);
}

#[test]
fn a_namespace_needs_distinct_names_existing_inodes_and_one_name_for_each_directory() {
    let inodes = [
        bare(1, InodeKind::Directory),
        bare(2, InodeKind::Directory),
        bare(3, InodeKind::File),
    ];
    let sound = [named(1, 2, "d"), named(2, 3, "f"), named(1, 3, "g")];
    assert!(is_sound_namespace(&inodes, &sound));
    validate_namespace_snapshot(&inodes, &sound).unwrap();
    assert_eq!(list_unreachable(&inodes, &sound[1..]), vec![2]);

    for broken in [
        vec![named(1, 2, "d"), named(1, 3, "d")],
        vec![named(1, 2, "d"), named(1, 2, "e"), named(1, 3, "f")],
        vec![named(1, 2, "d"), named(3, 3, "f")],
        vec![named(1, 2, "d"), named(1, 4, "f")],
        vec![named(2, 1, "root")],
    ] {
        assert!(!is_sound_namespace(&inodes, &broken));
        assert_eq!(
            validate_namespace_snapshot(&inodes, &broken).unwrap_err().kind(),
            ErrorKind::InvalidData
        );
    }
}

#[test]
fn blocks_have_their_place_on_the_medium() {
    assert_eq!(device_size(3).unwrap(), 12288);
    assert_eq!(device_size(u64::MAX / 4096 + 1).unwrap_err().kind(), ErrorKind::InvalidInput);
    assert_eq!(device_blocks(12288).unwrap(), 3);
    assert_eq!(device_blocks(12289).unwrap_err().kind(), ErrorKind::InvalidData);
    assert_eq!(block_offset(3, 2).unwrap(), 8192);
    assert_eq!(block_offset(3, 3).unwrap_err().kind(), ErrorKind::UnexpectedEof);
    assert_eq!(
        block_offset(u64::MAX, u64::MAX - 1).unwrap_err().kind(),
        ErrorKind::InvalidInput
    );
}
