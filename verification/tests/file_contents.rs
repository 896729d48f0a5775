use fslab::block::BLOCK_SIZE;
use fslab::error::ErrorKind;
use fslab::file_append_batch::{append_file_blocks_journaled, grow_file_to_bytes_journaled};
use fslab::file_append_contiguous::append_file_blocks_contiguous_journaled;
use fslab::file_clone_insert::clone_file_blocks_insert_journaled;
use fslab::file_clone_splice::{
    clone_file_blocks_replace_journaled, clone_file_blocks_splice_journaled, FileBlockRange,
};
use fslab::file_collapse::collapse_file_block_range_journaled;
use fslab::file_copy_range::{copy_file_range_journaled, FileRangeEndpoint};
use fslab::file_data::{
    append_file_block_journaled, read_file_block, write_file_block_journaled,
    write_file_block_range_journaled,
};
use fslab::file_exchange::{
    exchange_file_block_ranges_journaled, exchange_same_file_block_ranges_journaled,
    exchange_variable_file_block_ranges_journaled, FileBlockExchangeRange,
};
use fslab::file_extending_write::write_file_range_extending_journaled;
use fslab::file_hole_punch::punch_file_hole_journaled;
use fslab::file_insert_batch::{
    insert_file_blocks_contiguous_journaled, insert_file_blocks_journaled,
};
use fslab::file_range_read::{read_file_range, write_file_range_journaled};
use fslab::file_remove::remove_file_block_journaled;
use fslab::file_replace::replace_file_blocks_journaled;
use fslab::file_replace_contiguous::replace_file_blocks_contiguous_journaled;
use fslab::file_transfer::{move_file_block_range_journaled, transfer_file_block_range_journaled};
use fslab::file_whole_exchange::{
    exchange_complete_file_blocks_journaled, transfer_replace_complete_file_blocks_journaled,
};
use fslab::format::Superblock;
use fslab::format_geometry::format_device_with_journal_blocks;
use fslab::fsck::check_device;
use fslab::inode_table::load_inode_table;
use fslab::path_create::{
    create_empty_file_at_path_journaled, create_file_with_blocks_at_path_journaled,
};
use fslab::recovery_projection::MemoryDevice;
use fslab::truncate_tx::{truncate_file_to_blocks_journaled, truncate_file_to_bytes_journaled};

fn filled(x: u8) -> [u8; BLOCK_SIZE] {
    [x; BLOCK_SIZE]
}

fn formatted() -> (MemoryDevice, Superblock) {
    let mut device = MemoryDevice { list: vec![[0; BLOCK_SIZE]; 64] };
    let superblock = format_device_with_journal_blocks(&mut device, 16).unwrap();
    (device, superblock)
}

fn file(device: &mut MemoryDevice, superblock: &Superblock, path: &str, marks: &[u8]) -> u64 {
    let blocks: Vec<_> = marks.iter().map(|x| filled(*x)).collect();
    create_file_with_blocks_at_path_journaled(device, superblock, path, &blocks).unwrap().0
}

fn marks(device: &mut MemoryDevice, superblock: &Superblock, id: u64) -> Vec<u8> {
    let count = mapping(device, superblock, id).len();
    (0..count)
        .map(|k| {
            let block = read_file_block(device, superblock, id, k).unwrap();
            assert!(block.iter().all(|x| *x == block[0]));
            block[0]
        })
        .collect()
}

fn mapping(device: &mut MemoryDevice, superblock: &Superblock, id: u64) -> Vec<u64> {
    let inodes = load_inode_table(device, superblock).unwrap();
    inodes.iter().find(|inode| inode.id == id).unwrap().blocks.clone()
}

fn byte_len(device: &mut MemoryDevice, superblock: &Superblock, id: u64) -> u64 {
    let inodes = load_inode_table(device, superblock).unwrap();
    inodes.iter().find(|inode| inode.id == id).unwrap().byte_len
}

#[test]
fn first_data_block_lies_behind_the_metadata() {
    let (_, superblock) = formatted();
    assert_eq!(superblock.allocation_start, 17);
    assert_eq!(superblock.inode_start, 18);
    assert_eq!(superblock.directory_start, 19);
    assert_eq!(superblock.reserved_blocks(), 21);
}

#[test]
fn appended_blocks_stand_behind_the_old_ones() {
    let (mut device, sb) = formatted();
    let a = file(&mut device, &sb, "/a", &[1, 2]);
    let other = file(&mut device, &sb, "/b", &[9]);

    let (fresh, report) =
        append_file_blocks_journaled(&mut device, &sb, a, &[filled(3), filled(4)]).unwrap();

    assert_eq!(fresh, vec![24, 25]);
    assert_eq!(report.committed_transactions, 1);
    assert_eq!(marks(&mut device, &sb, a), vec![1, 2, 3, 4]);
    assert_eq!(marks(&mut device, &sb, other), vec![9]);
    assert_eq!(byte_len(&mut device, &sb, a), 4 * 4096);
    assert_eq!(check_device(&mut device).unwrap().allocated_blocks, 5);

    let (single, _) = append_file_block_journaled(&mut device, &sb, a, filled(5)).unwrap();
    assert_eq!(single, 26);
    assert_eq!(marks(&mut device, &sb, a), vec![1, 2, 3, 4, 5]);
}

#[test]
fn append_refuses_nothing_to_append_and_a_missing_file() {
    let (mut device, sb) = formatted();
    let a = file(&mut device, &sb, "/a", &[1]);
    let kind = |r: Result<(Vec<u64>, fslab::recovery::RecoveryReport), fslab::error::Error>| {
        r.unwrap_err().kind()
    };
    assert_eq!(
        kind(append_file_blocks_journaled(&mut device, &sb, a, &[])),
        ErrorKind::InvalidInput
    );
    assert_eq!(
        kind(append_file_blocks_journaled(&mut device, &sb, 77, &[filled(1)])),
        ErrorKind::InvalidInput
    );
    assert_eq!(
        kind(append_file_blocks_journaled(&mut device, &sb, 1, &[filled(1)])),
        ErrorKind::InvalidInput
    );
}

#[test]
fn contiguous_append_takes_the_lowest_run_that_is_long_enough() {
    let (mut device, sb) = formatted();
    let a = file(&mut device, &sb, "/a", &[1, 2, 3]);
    let b = file(&mut device, &sb, "/b", &[4]);
    collapse_file_block_range_journaled(&mut device, &sb, a, 0, 1).unwrap();

    let (fresh, _) = append_file_blocks_contiguous_journaled(
        &mut device,
        &sb,
        b,
        &[filled(5), filled(6)],
    )
    .unwrap();

    assert_eq!(fresh, vec![25, 26]);
    assert_eq!(mapping(&mut device, &sb, b), vec![24, 25, 26]);
    check_device(&mut device).unwrap();
}

#[test]
fn inserted_blocks_stand_in_front_of_their_place() {
    let (mut device, sb) = formatted();
    let a = file(&mut device, &sb, "/a", &[1, 2]);
    insert_file_blocks_journaled(&mut device, &sb, a, 1, &[filled(7), filled(8)]).unwrap();
    assert_eq!(marks(&mut device, &sb, a), vec![1, 7, 8, 2]);
    insert_file_blocks_contiguous_journaled(&mut device, &sb, a, 4, &[filled(9)]).unwrap();
    assert_eq!(marks(&mut device, &sb, a), vec![1, 7, 8, 2, 9]);
    assert_eq!(
        insert_file_blocks_journaled(&mut device, &sb, a, 6, &[filled(1)]).unwrap_err().kind(),
        ErrorKind::InvalidInput
    );
    check_device(&mut device).unwrap();
}

#[test]
fn replaced_blocks_are_fresh_and_the_displaced_ones_are_released() {
    let (mut device, sb) = formatted();
    let a = file(&mut device, &sb, "/a", &[1, 2, 3]);
    let (fresh, displaced, _) =
        replace_file_blocks_journaled(&mut device, &sb, a, 1, 1, &[filled(7), filled(8)]).unwrap();
    assert_eq!(fresh, vec![24, 25]);
    assert_eq!(displaced, vec![22]);
    assert_eq!(marks(&mut device, &sb, a), vec![1, 7, 8, 3]);
    assert_eq!(check_device(&mut device).unwrap().allocated_blocks, 4);

    let (fresh, displaced, _) =
        replace_file_blocks_contiguous_journaled(&mut device, &sb, a, 0, 4, &[filled(6)]).unwrap();
    assert_eq!(fresh, vec![22]);
    assert_eq!(displaced, vec![21, 24, 25, 23]);
    assert_eq!(marks(&mut device, &sb, a), vec![6]);
    assert_eq!(check_device(&mut device).unwrap().allocated_blocks, 1);
}

#[test]
fn collapsed_and_removed_blocks_are_gone() {
    let (mut device, sb) = formatted();
    let a = file(&mut device, &sb, "/a", &[1, 2, 3, 4]);
    let (released, _) =
        collapse_file_block_range_journaled(&mut device, &sb, a, 1, 2).unwrap();
    assert_eq!(released, vec![22, 23]);
    assert_eq!(marks(&mut device, &sb, a), vec![1, 4]);
    let (block, _) = remove_file_block_journaled(&mut device, &sb, a, 0).unwrap();
    assert_eq!(block, 21);
    assert_eq!(marks(&mut device, &sb, a), vec![4]);
    assert_eq!(
        collapse_file_block_range_journaled(&mut device, &sb, a, 1, 1).unwrap_err().kind(),
        ErrorKind::InvalidInput
    );
    check_device(&mut device).unwrap();
}

#[test]
fn written_bytes_read_back_across_a_block_boundary() {
    let (mut device, sb) = formatted();
    let a = file(&mut device, &sb, "/a", &[1, 2]);
    let b = file(&mut device, &sb, "/b", &[3]);

    write_file_range_journaled(&mut device, &sb, a, 0, 4094, b"abcd").unwrap();

    assert_eq!(read_file_range(&mut device, &sb, a, 0, 4094, 4).unwrap(), b"abcd".to_vec());
    assert_eq!(read_file_range(&mut device, &sb, a, 0, 4093, 1).unwrap(), vec![1]);
    assert_eq!(read_file_range(&mut device, &sb, a, 1, 2, 1).unwrap(), vec![2]);
    assert_eq!(marks(&mut device, &sb, b), vec![3]);

    let again = write_file_range_journaled(&mut device, &sb, a, 0, 4094, b"abcd").unwrap();
    assert_eq!(again.committed_transactions, 0);
}

#[test]
fn reads_stop_at_the_end_of_the_file() {
    let (mut device, sb) = formatted();
    let a = file(&mut device, &sb, "/a", &[1]);
    truncate_file_to_bytes_journaled(&mut device, &sb, a, 10).unwrap();
    assert_eq!(read_file_range(&mut device, &sb, a, 0, 0, 10).unwrap(), vec![1; 10]);
    for (offset, len) in [(0, 11), (10, 1), (0, 0), (4096, 1)] {
        assert_eq!(
            read_file_range(&mut device, &sb, a, 0, offset, len).unwrap_err().kind(),
            ErrorKind::InvalidInput
        );
    }
}

#[test]
fn whole_blocks_and_parts_of_blocks_are_overwritten_in_place() {
    let (mut device, sb) = formatted();
    let a = file(&mut device, &sb, "/a", &[1, 2]);
    let before = mapping(&mut device, &sb, a);
    write_file_block_journaled(&mut device, &sb, a, 1, filled(9)).unwrap();
    write_file_block_range_journaled(&mut device, &sb, a, 0, 4095, &[7]).unwrap();
    assert_eq!(mapping(&mut device, &sb, a), before);
    assert_eq!(read_file_range(&mut device, &sb, a, 0, 4094, 3).unwrap(), vec![1, 7, 9]);
    assert_eq!(
        write_file_block_range_journaled(&mut device, &sb, a, 0, 4095, &[7, 7]).unwrap_err().kind(),
        ErrorKind::InvalidInput
    );
    assert_eq!(
        write_file_block_journaled(&mut device, &sb, a, 2, filled(9)).unwrap_err().kind(),
        ErrorKind::InvalidInput
    );
}

#[test]
fn extending_write_fills_the_gap_with_zeros() {
    let (mut device, sb) = formatted();
    let a = file(&mut device, &sb, "/a", &[1]);
    truncate_file_to_bytes_journaled(&mut device, &sb, a, 3).unwrap();

    let (fresh, _) =
        write_file_range_extending_journaled(&mut device, &sb, a, 5000, b"xy").unwrap();

    assert_eq!(fresh, vec![22]);
    assert_eq!(byte_len(&mut device, &sb, a), 5002);
    let all = read_file_range(&mut device, &sb, a, 0, 0, 5002).unwrap();
    assert_eq!(&all[..3], &[1, 1, 1]);
    assert!(all[3..5000].iter().all(|x| *x == 0));
    assert_eq!(&all[5000..], b"xy");

    let (none, _) = write_file_range_extending_journaled(&mut device, &sb, a, 1, b"z").unwrap();
    assert_eq!(none, Vec::<u64>::new());
    assert_eq!(byte_len(&mut device, &sb, a), 5002);
    assert_eq!(read_file_range(&mut device, &sb, a, 0, 0, 3).unwrap(), vec![1, b'z', 1]);
    check_device(&mut device).unwrap();
}

#[test]
fn growth_zeroes_what_a_shorter_length_had_hidden() {
    let (mut device, sb) = formatted();
    let a = file(&mut device, &sb, "/a", &[1]);
    truncate_file_to_bytes_journaled(&mut device, &sb, a, 100).unwrap();

    let (fresh, _) = grow_file_to_bytes_journaled(&mut device, &sb, a, 4097).unwrap();

    assert_eq!(fresh, vec![22]);
    let all = read_file_range(&mut device, &sb, a, 0, 0, 4097).unwrap();
    assert!(all[..100].iter().all(|x| *x == 1));
    assert!(all[100..].iter().all(|x| *x == 0));
    assert_eq!(
        grow_file_to_bytes_journaled(&mut device, &sb, a, 4097).unwrap_err().kind(),
        ErrorKind::InvalidInput
    );
}

#[test]
fn truncation_releases_the_blocks_that_are_not_needed() {
    let (mut device, sb) = formatted();
    let a = file(&mut device, &sb, "/a", &[1, 2, 3]);
    let (released, _) =
        truncate_file_to_bytes_journaled(&mut device, &sb, a, 4097).unwrap();
    assert_eq!(released, vec![23]);
    assert_eq!(byte_len(&mut device, &sb, a), 4097);
    let (released, _) = truncate_file_to_blocks_journaled(&mut device, &sb, a, 0).unwrap();
    assert_eq!(released, vec![21, 22]);
    assert_eq!(byte_len(&mut device, &sb, a), 0);
    assert_eq!(check_device(&mut device).unwrap().allocated_blocks, 0);
    assert_eq!(
        truncate_file_to_blocks_journaled(&mut device, &sb, a, 0).unwrap_err().kind(),
        ErrorKind::InvalidInput
    );
}

#[test]
fn exchanged_ranges_stand_in_each_others_place() {
    let (mut device, sb) = formatted();
    let a = file(&mut device, &sb, "/a", &[1, 2, 3]);
    let b = file(&mut device, &sb, "/b", &[4, 5]);

    exchange_variable_file_block_ranges_journaled(
        &mut device,
        &sb,
        FileBlockExchangeRange { inode: a, start: 0, block_count: 2 },
        FileBlockExchangeRange { inode: b, start: 1, block_count: 1 },
    )
    .unwrap();
    assert_eq!(marks(&mut device, &sb, a), vec![5, 3]);
    assert_eq!(marks(&mut device, &sb, b), vec![4, 1, 2]);

    exchange_file_block_ranges_journaled(&mut device, &sb, a, 1, b, 0, 1).unwrap();
    assert_eq!(marks(&mut device, &sb, a), vec![5, 4]);
    assert_eq!(marks(&mut device, &sb, b), vec![3, 1, 2]);

    exchange_same_file_block_ranges_journaled(
        &mut device,
        &sb,
        FileBlockExchangeRange { inode: b, start: 1, block_count: 2 },
        FileBlockExchangeRange { inode: b, start: 0, block_count: 1 },
    )
    .unwrap();
    assert_eq!(marks(&mut device, &sb, b), vec![1, 2, 3]);
    assert_eq!(
        exchange_file_block_ranges_journaled(&mut device, &sb, a, 0, a, 1, 1).unwrap_err().kind(),
        ErrorKind::InvalidInput
    );
    check_device(&mut device).unwrap();
}

#[test]
fn exchanging_whole_files_twice_changes_nothing() {
    let (mut device, sb) = formatted();
    let a = file(&mut device, &sb, "/a", &[1, 2]);
    let b = file(&mut device, &sb, "/b", &[3]);
    truncate_file_to_bytes_journaled(&mut device, &sb, b, 7).unwrap();

    exchange_complete_file_blocks_journaled(&mut device, &sb, a, b).unwrap();
    assert_eq!(byte_len(&mut device, &sb, a), 7);
    assert_eq!(marks(&mut device, &sb, b), vec![1, 2]);
    exchange_complete_file_blocks_journaled(&mut device, &sb, a, b).unwrap();
    assert_eq!(marks(&mut device, &sb, a), vec![1, 2]);
    assert_eq!(byte_len(&mut device, &sb, b), 7);
    check_device(&mut device).unwrap();
}

#[test]
fn handing_a_file_over_releases_what_the_other_held() {
    let (mut device, sb) = formatted();
    let a = file(&mut device, &sb, "/a", &[1, 2]);
    let b = file(&mut device, &sb, "/b", &[3, 4, 5]);
    transfer_replace_complete_file_blocks_journaled(&mut device, &sb, a, b).unwrap();
    assert_eq!(marks(&mut device, &sb, a), Vec::<u8>::new());
    assert_eq!(marks(&mut device, &sb, b), vec![1, 2]);
    assert_eq!(check_device(&mut device).unwrap().allocated_blocks, 2);
}

#[test]
fn transferred_and_moved_blocks_keep_their_storage() {
    let (mut device, sb) = formatted();
    let a = file(&mut device, &sb, "/a", &[1, 2, 3]);
    let b = file(&mut device, &sb, "/b", &[4]);
    let (moved, _) =
        transfer_file_block_range_journaled(&mut device, &sb, a, 1, 2, b, 0).unwrap();
    assert_eq!(moved, vec![22, 23]);
    assert_eq!(marks(&mut device, &sb, a), vec![1]);
    assert_eq!(marks(&mut device, &sb, b), vec![2, 3, 4]);
    assert_eq!(mapping(&mut device, &sb, b), vec![22, 23, 24]);

    move_file_block_range_journaled(&mut device, &sb, b, 0, 1, 2).unwrap();
    assert_eq!(marks(&mut device, &sb, b), vec![3, 4, 2]);
    assert_eq!(
        move_file_block_range_journaled(&mut device, &sb, b, 0, 1, 0).unwrap_err().kind(),
        ErrorKind::InvalidInput
    );
    check_device(&mut device).unwrap();
}

#[test]
fn a_punch_releases_whole_blocks_and_zeroes_the_edges() {
    let (mut device, sb) = formatted();
    let a = file(&mut device, &sb, "/a", &[1, 2, 3]);

    let report = punch_file_hole_journaled(&mut device, &sb, a, 4000, 4200).unwrap();

    assert_eq!(report.released_blocks, vec![22]);
    assert_eq!(report.punched_logical_blocks, vec![1]);
    assert_eq!(report.zeroed_edge_blocks, vec![0, 2]);
    assert_eq!(mapping(&mut device, &sb, a), vec![21, 0, 23]);
    assert_eq!(byte_len(&mut device, &sb, a), 3 * 4096);
    let first = read_file_range(&mut device, &sb, a, 0, 0, 4096).unwrap();
    assert!(first[..4000].iter().all(|x| *x == 1));
    assert!(first[4000..].iter().all(|x| *x == 0));
    let last = read_file_range(&mut device, &sb, a, 2, 0, 4096).unwrap();
    assert!(last[..8].iter().all(|x| *x == 0));
    assert!(last[8..].iter().all(|x| *x == 3));
    assert_eq!(
        read_file_range(&mut device, &sb, a, 1, 0, 1).unwrap_err().kind(),
        ErrorKind::InvalidData
    );
    assert_eq!(check_device(&mut device).unwrap().allocated_blocks, 2);

    let again = punch_file_hole_journaled(&mut device, &sb, a, 4000, 4200).unwrap();
    assert_eq!(again.released_blocks, Vec::<u64>::new());
    assert_eq!(again.transaction.committed_transactions, 0);
    assert_eq!(
        punch_file_hole_journaled(&mut device, &sb, a, 0, 3 * 4096 + 1).unwrap_err().kind(),
        ErrorKind::InvalidInput
    );
}

#[test]
fn copies_hold_what_the_source_held() {
    let (mut device, sb) = formatted();
    let a = file(&mut device, &sb, "/a", &[1, 2]);
    let b = file(&mut device, &sb, "/b", &[3, 4]);

    clone_file_blocks_insert_journaled(&mut device, &sb, a, 0, 2, b, 1).unwrap();
    assert_eq!(marks(&mut device, &sb, b), vec![3, 1, 2, 4]);

    let (fresh, displaced, _) = clone_file_blocks_splice_journaled(
        &mut device,
        &sb,
        FileBlockRange { inode: b, start: 3, block_count: 1 },
        FileBlockRange { inode: a, start: 0, block_count: 2 },
    )
    .unwrap();
    assert_eq!((fresh.len(), displaced.len()), (1, 2));
    assert_eq!(marks(&mut device, &sb, a), vec![4]);

    clone_file_blocks_replace_journaled(&mut device, &sb, b, 0, 1, a, 0).unwrap();
    assert_eq!(marks(&mut device, &sb, a), vec![3]);
    assert_eq!(marks(&mut device, &sb, b), vec![3, 1, 2, 4]);
    assert_ne!(mapping(&mut device, &sb, a)[0], mapping(&mut device, &sb, b)[0]);
    check_device(&mut device).unwrap();
}

#[test]
fn overlapping_copies_read_before_they_write() {
    let (mut device, sb) = formatted();
    let a = file(&mut device, &sb, "/a", &[0]);
    write_file_range_journaled(&mut device, &sb, a, 0, 0, b"abcdef").unwrap();
    copy_file_range_journaled(
        &mut device,
        &sb,
        FileRangeEndpoint { inode: a, first_block: 0, offset: 0 },
        FileRangeEndpoint { inode: a, first_block: 0, offset: 2 },
        6,
    )
    .unwrap();
    assert_eq!(read_file_range(&mut device, &sb, a, 0, 0, 8).unwrap(), b"ababcdef".to_vec());
}

#[test]
fn running_out_of_space_changes_nothing() {
    let (mut device, sb) = formatted();
    let a = create_empty_file_at_path_journaled(&mut device, &sb, "/a").unwrap().0;
    let before = device.list.clone();
    let too_many = vec![filled(1); 44];
    assert_eq!(
        append_file_blocks_journaled(&mut device, &sb, a, &too_many).unwrap_err().kind(),
        ErrorKind::InvalidInput
    );
    assert!(device.list == before);
}
