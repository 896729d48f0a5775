use fslab::allocation_disk::load_allocator;
use fslab::block::BLOCK_SIZE;
use fslab::create_data_tx::{store_create_with_blocks_journaled, store_create_with_data_journaled};
use fslab::directory_codec::PersistedDirectoryEntry;
use fslab::directory_table::load_directory_table;
use fslab::error::ErrorKind;
use fslab::format::Superblock;
use fslab::format_geometry::format_device_with_journal_blocks;
use fslab::fsck::check_device;
use fslab::hard_link_tx::{hard_link_file_journaled, hard_link_symlink_journaled};
use fslab::hard_unlink_tx::{
    unlink_nonfinal_file_link_journaled, unlink_nonfinal_symlink_link_journaled,
};
use fslab::inode::InodeKind;
use fslab::inode_codec::PersistedInode;
use fslab::inode_table::load_inode_table;
use fslab::path_append::append_file_blocks_at_path_journaled;
use fslab::path_clone_create::{
    clone_file_blocks_to_path_journaled, clone_file_to_path_journaled,
};
use fslab::path_clone_insert::{clone_file_blocks_insert_at_path_journaled, PathCloneInsertRange};
use fslab::path_clone_replace::{
    clone_file_blocks_replace_at_path_journaled, clone_file_to_existing_path_journaled,
    PathCloneReplaceRange,
};
use fslab::path_clone_splice::{clone_file_blocks_splice_at_path_journaled, PathCloneSpliceRange};
use fslab::path_collapse::collapse_file_block_range_at_path_journaled;
use fslab::path_contiguous_append::{
    append_file_blocks_contiguous_at_path_journaled,
    append_zeroed_blocks_contiguous_at_path_journaled,
};
use fslab::path_contiguous_clone_append::{
    clone_file_blocks_contiguous_append_at_path_journaled, PathCloneAppendRange,
};
use fslab::path_contiguous_clone_create::clone_file_blocks_contiguous_to_path_journaled;
use fslab::path_contiguous_clone_replace::{
    clone_file_blocks_contiguous_replace_at_path_journaled,
    clone_file_blocks_contiguous_splice_at_path_journaled,
};
use fslab::path_contiguous_create::create_contiguous_file_with_blocks_at_path_journaled;
use fslab::path_contiguous_defrag::{
    defragment_file_contiguous_at_path_journaled,
    defragment_file_range_contiguous_at_path_journaled,
};
use fslab::path_contiguous_insert::{
    insert_file_blocks_contiguous_at_path_journaled,
    insert_zeroed_blocks_contiguous_at_path_journaled,
};
use fslab::path_contiguous_replace::{
    replace_file_blocks_contiguous_at_path_journaled,
    replace_with_zeroed_blocks_contiguous_at_path_journaled,
};
use fslab::path_copy_range::{copy_file_range_at_path_journaled, PathFileRangeEndpoint};
use fslab::path_create::{
    create_directory_at_path_journaled, create_empty_file_at_path_journaled,
    create_file_with_blocks_at_path_journaled, create_one_block_file_at_path_journaled,
};
use fslab::path_directory::{
    list_directory_at_path, list_directory_page_after_name_at_path, list_directory_page_at_path,
    PathDirectoryEntry,
};
use fslab::path_directory_plus::list_directory_with_metadata_at_path;
use fslab::path_directory_rename_overwrite::{
    rename_overwrite_directory_at_path_journaled, rename_overwrite_directory_journaled,
};
use fslab::path_exchange::{
    exchange_file_block_ranges_at_path_journaled,
    exchange_same_file_block_ranges_at_path_journaled,
    exchange_variable_file_block_ranges_at_path_journaled, PathFileBlockRange,
    PathVariableFileBlockRange,
};
use fslab::path_file_extents::{file_extents_at_path, file_extents_page_at_path, FileExtent};
use fslab::path_file_read::read_file_blocks_at_path;
use fslab::path_file_write::{replace_file_at_path_journaled, write_file_blocks_at_path_journaled};
use fslab::path_grow::{
    grow_file_at_path_to_blocks_journaled, grow_file_at_path_to_bytes_journaled,
    resize_file_at_path_to_blocks_journaled, resize_file_at_path_to_bytes_journaled,
};
use fslab::path_hard_link::{
    hard_link_at_path_journaled, hard_link_at_path_with_source_follow_journaled,
    hard_link_file_at_path_journaled, hard_link_following_source_at_path_journaled,
    hard_link_symlink_at_path_journaled, HardLinkSourceFollow,
};
use fslab::path_insert::insert_file_blocks_at_path_journaled;
use fslab::path_lookup::{
    read_file_range_at_path, read_symlink_at_path, resolve_path_following_symlinks,
    resolve_path_without_following_final_symlink, write_file_range_at_path_journaled,
};
use fslab::path_metadata::{metadata_at_path, PathMetadata};
use fslab::recovery::RecoveryReport;
use fslab::recovery_projection::MemoryDevice;
use fslab::symlink::{encode_symlink, read_symlink};

fn filled(x: u8) -> [u8; BLOCK_SIZE] {
    [x; BLOCK_SIZE]
}

fn formatted() -> (MemoryDevice, Superblock) {
    let mut device = MemoryDevice { list: vec![[0; BLOCK_SIZE]; 96] };
    let superblock = format_device_with_journal_blocks(&mut device, 16).unwrap();
    (device, superblock)
}

fn file(device: &mut MemoryDevice, superblock: &Superblock, path: &str, marks: &[u8]) -> u64 {
    let blocks: Vec<_> = marks.iter().map(|x| filled(*x)).collect();
    create_file_with_blocks_at_path_journaled(device, superblock, path, &blocks).unwrap().0
}

fn marks(device: &mut MemoryDevice, superblock: &Superblock, path: &str) -> Vec<u8> {
    let bytes = read_file_blocks_at_path(device, superblock, path).unwrap();
    bytes.chunks(BLOCK_SIZE).map(|block| block[0]).collect()
}

fn link(device: &mut MemoryDevice, sb: &Superblock, parent: u64, name: &str, target: &str) -> u64 {
    let mut allocator = load_allocator(device, sb).unwrap();
    let mut inodes = load_inode_table(device, sb).unwrap();
    let mut entries = load_directory_table(device, sb).unwrap();
    let id = inodes.iter().map(|inode| inode.id).max().unwrap() + 1;
    let block = allocator.allocate().unwrap();
    inodes.push(PersistedInode { id, kind: InodeKind::Symlink, blocks: vec![block], byte_len: 0 });
    entries.push(PersistedDirectoryEntry { parent, target: id, name: name.to_owned() });
    let image = encode_symlink(target).unwrap();
    store_create_with_data_journaled(device, sb, &allocator, &inodes, &entries, block, &image)
        .unwrap();
    id
}

fn child(name: &str, inode_id: u64, kind: InodeKind) -> PathDirectoryEntry {
    PathDirectoryEntry { name: name.to_owned(), inode_id, kind }
}

#[test]
fn what_was_created_is_found_under_its_path() {
    let (mut device, sb) = formatted();
    let (dir, _) = create_directory_at_path_journaled(&mut device, &sb, "/dir").unwrap();
    let (empty, _) = create_empty_file_at_path_journaled(&mut device, &sb, "/dir/empty").unwrap();
    let (one, _) =
        create_one_block_file_at_path_journaled(&mut device, &sb, "/dir/one", &filled(5)).unwrap();
    let many = file(&mut device, &sb, "/many", &[1, 2]);
    let (run, _) = create_contiguous_file_with_blocks_at_path_journaled(
        &mut device,
        &sb,
        "/run",
        &[filled(3), filled(4)],
    )
    .unwrap();

    assert_eq!((dir, empty, one, many, run), (2, 3, 4, 5, 6));
    for (path, id) in
        [("/", 1), ("/dir", dir), ("/dir/empty", empty), ("/dir/one", one), ("/many", many)]
    {
        assert_eq!(resolve_path_following_symlinks(&mut device, &sb, path).unwrap(), id);
    }
    assert_eq!(
        metadata_at_path(&mut device, &sb, "/run").unwrap(),
        PathMetadata { inode_id: 6, kind: InodeKind::File, logical_blocks: 2, byte_len: 8192 }
    );
    assert_eq!(marks(&mut device, &sb, "/run"), vec![3, 4]);
    assert_eq!(read_file_blocks_at_path(&mut device, &sb, "/dir/empty").unwrap(), vec![]);
    check_device(&mut device).unwrap();
}

#[test]
fn creation_refuses_bad_names_taken_names_and_bad_parents() {
    let (mut device, sb) = formatted();
    file(&mut device, &sb, "/a", &[1]);
    for path in ["/a", "/a/b", "relative", "/", "/dir/", "/.", "/.."] {
        assert_eq!(
            create_empty_file_at_path_journaled(&mut device, &sb, path).unwrap_err().kind(),
            ErrorKind::InvalidInput
        );
    }
    assert_eq!(
        create_directory_at_path_journaled(&mut device, &sb, "/none/b").unwrap_err().kind(),
        ErrorKind::NotFound
    );
    assert_eq!(
        create_file_with_blocks_at_path_journaled(&mut device, &sb, "/b", &[]).unwrap_err().kind(),
        ErrorKind::InvalidInput
    );
    let long = format!("/{}", "n".repeat(256));
    assert_eq!(
        create_empty_file_at_path_journaled(&mut device, &sb, &long).unwrap_err().kind(),
        ErrorKind::InvalidInput
    );
    create_empty_file_at_path_journaled(&mut device, &sb, &long[..256]).unwrap();
}

#[test]
fn stored_creation_checks_that_its_block_is_owned_and_referenced_once() {
    let (mut device, sb) = formatted();
    let allocator = load_allocator(&mut device, &sb).unwrap();
    let inodes = load_inode_table(&mut device, &sb).unwrap();
    let block = sb.reserved_blocks();
    assert_eq!(
        store_create_with_data_journaled(
            &mut device, &sb, &allocator, &inodes, &[], block, &filled(1),
        )
        .unwrap_err()
        .kind(),
        ErrorKind::InvalidInput
    );
    assert_eq!(
        store_create_with_blocks_journaled(&mut device, &sb, &allocator, &inodes, &[], &[])
            .unwrap(),
        RecoveryReport::default()
    );
}

#[test]
fn symbolic_links_are_followed_on_the_way_and_on_request_at_the_end() {
    let (mut device, sb) = formatted();
    let (dir, _) = create_directory_at_path_journaled(&mut device, &sb, "/dir").unwrap();
    let a = file(&mut device, &sb, "/dir/a", &[1]);
    let absolute = link(&mut device, &sb, 1, "abs", "/dir");
    let relative = link(&mut device, &sb, dir, "rel", "a");
    let own = link(&mut device, &sb, 1, "own", "own");

    assert_eq!(resolve_path_following_symlinks(&mut device, &sb, "/abs/rel").unwrap(), a);
    assert_eq!(
        resolve_path_without_following_final_symlink(&mut device, &sb, "/abs/rel").unwrap(),
        relative
    );
    assert_eq!(read_symlink_at_path(&mut device, &sb, "/abs").unwrap(), "/dir");
    assert_eq!(read_symlink(&mut device, &sb, absolute).unwrap(), "/dir");
    assert_eq!(
        resolve_path_following_symlinks(&mut device, &sb, "/own").unwrap_err().kind(),
        ErrorKind::InvalidData
    );
    assert_eq!(
        resolve_path_without_following_final_symlink(&mut device, &sb, "/own").unwrap(),
        own
    );
    assert_eq!(
        read_symlink(&mut device, &sb, a).unwrap_err().kind(),
        ErrorKind::InvalidInput
    );
    for (path, kind) in [
        ("/dir/none", ErrorKind::NotFound),
        ("dir", ErrorKind::InvalidInput),
        ("/dir//a", ErrorKind::InvalidInput),
        ("/dir/../dir", ErrorKind::InvalidInput),
        ("/dir/a/b", ErrorKind::InvalidInput),
    ] {
        assert_eq!(
            resolve_path_following_symlinks(&mut device, &sb, path).unwrap_err().kind(),
            kind
        );
    }
}

#[test]
fn links_with_targets_beyond_ascii_read_back() {
    let (mut device, sb) = formatted();
    let id = link(&mut device, &sb, 1, "λ", "/größe/日本");
    assert_eq!(read_symlink(&mut device, &sb, id).unwrap(), "/größe/日本");
    assert_eq!(read_symlink_at_path(&mut device, &sb, "/λ").unwrap(), "/größe/日本");
}

#[test]
fn listings_are_sorted_and_pages_join_up() {
    let (mut device, sb) = formatted();
    for name in ["/b", "/d", "/a", "/c"] {
        create_empty_file_at_path_journaled(&mut device, &sb, name).unwrap();
    }
    let all = list_directory_at_path(&mut device, &sb, "/").unwrap();
    let names: Vec<_> = all.iter().map(|entry| entry.name.as_str()).collect();
    assert_eq!(names, vec!["a", "b", "c", "d"]);
    assert_eq!(all[0], child("a", 4, InodeKind::File));

    let first = list_directory_page_at_path(&mut device, &sb, "/", 0, 3).unwrap();
    let rest = list_directory_page_at_path(&mut device, &sb, "/", 3, 3).unwrap();
    assert_eq!([first, rest].concat(), all);
    assert!(list_directory_page_at_path(&mut device, &sb, "/", 9, 3).unwrap().is_empty());

    let tail =
        list_directory_page_after_name_at_path(&mut device, &sb, "/", Some("b"), 9).unwrap();
    assert_eq!(tail, all[2..].to_vec());
    let absent =
        list_directory_page_after_name_at_path(&mut device, &sb, "/", Some("bb"), 1).unwrap();
    assert_eq!(absent, all[2..3].to_vec());
    assert_eq!(
        list_directory_page_after_name_at_path(&mut device, &sb, "/", None, 4).unwrap(),
        all
    );
    assert_eq!(
        list_directory_at_path(&mut device, &sb, "/a").unwrap_err().kind(),
        ErrorKind::InvalidInput
    );
}

#[test]
fn hard_links_count_and_one_of_several_can_go() {
    let (mut device, sb) = formatted();
    let a = file(&mut device, &sb, "/a", &[1]);
    hard_link_file_journaled(&mut device, &sb, 1, "b", a).unwrap();
    hard_link_at_path_journaled(&mut device, &sb, "/a", "/c").unwrap();
    hard_link_file_at_path_journaled(&mut device, &sb, "/b", "/d").unwrap();
    let listed = list_directory_with_metadata_at_path(&mut device, &sb, "/").unwrap();
    assert_eq!(listed.len(), 4);
    assert!(listed.iter().all(|entry| entry.inode_id == a && entry.namespace_references == 4));
    assert_eq!(resolve_path_following_symlinks(&mut device, &sb, "/d").unwrap(), a);

    for name in ["a", "b", "c"] {
        unlink_nonfinal_file_link_journaled(&mut device, &sb, 1, name).unwrap();
    }
    assert_eq!(
        unlink_nonfinal_file_link_journaled(&mut device, &sb, 1, "d").unwrap_err().kind(),
        ErrorKind::InvalidInput
    );
    assert_eq!(marks(&mut device, &sb, "/d"), vec![1]);
    assert_eq!(
        resolve_path_following_symlinks(&mut device, &sb, "/a").unwrap_err().kind(),
        ErrorKind::NotFound
    );
    check_device(&mut device).unwrap();
}

#[test]
fn hard_links_to_symbolic_links_follow_the_source_only_on_request() {
    let (mut device, sb) = formatted();
    let a = file(&mut device, &sb, "/a", &[1]);
    let s = link(&mut device, &sb, 1, "s", "/a");
    hard_link_symlink_journaled(&mut device, &sb, 1, "t", s).unwrap();
    hard_link_symlink_at_path_journaled(&mut device, &sb, "/s", "/u").unwrap();
    hard_link_at_path_with_source_follow_journaled(
        &mut device,
        &sb,
        "/s",
        "/v",
        HardLinkSourceFollow::NoFollowFinal,
    )
    .unwrap();
    hard_link_following_source_at_path_journaled(&mut device, &sb, "/s", "/w").unwrap();
    for (path, id) in [("/t", s), ("/u", s), ("/v", s), ("/w", a)] {
        assert_eq!(
            resolve_path_without_following_final_symlink(&mut device, &sb, path).unwrap(),
            id
        );
    }
    unlink_nonfinal_symlink_link_journaled(&mut device, &sb, 1, "t").unwrap();
    check_device(&mut device).unwrap();
}

#[test]
fn hard_links_refuse_directories_taken_names_and_relative_paths() {
    let (mut device, sb) = formatted();
    create_directory_at_path_journaled(&mut device, &sb, "/dir").unwrap();
    file(&mut device, &sb, "/a", &[1]);
    for (source, destination) in
        [("/dir", "/x"), ("/a", "/dir"), ("a", "/x"), ("/a", "x"), ("/a", "/a/x"), ("/a", "/")]
    {
        assert_eq!(
            hard_link_at_path_journaled(&mut device, &sb, source, destination).unwrap_err().kind(),
            ErrorKind::InvalidInput
        );
    }
    assert_eq!(
        hard_link_symlink_at_path_journaled(&mut device, &sb, "/a", "/x").unwrap_err().kind(),
        ErrorKind::InvalidInput
    );
    assert_eq!(
        hard_link_at_path_journaled(&mut device, &sb, "/none", "/x").unwrap_err().kind(),
        ErrorKind::NotFound
    );
}

#[test]
fn a_directory_moves_over_an_empty_one() {
    let (mut device, sb) = formatted();
    let (from, _) = create_directory_at_path_journaled(&mut device, &sb, "/from").unwrap();
    let (over, _) = create_directory_at_path_journaled(&mut device, &sb, "/over").unwrap();
    let a = file(&mut device, &sb, "/from/a", &[1]);

    rename_overwrite_directory_at_path_journaled(&mut device, &sb, "/from", "/over").unwrap();

    assert_eq!(resolve_path_following_symlinks(&mut device, &sb, "/over").unwrap(), from);
    assert_eq!(resolve_path_following_symlinks(&mut device, &sb, "/over/a").unwrap(), a);
    assert_eq!(
        resolve_path_following_symlinks(&mut device, &sb, "/from").unwrap_err().kind(),
        ErrorKind::NotFound
    );
    assert!(load_inode_table(&mut device, &sb).unwrap().iter().all(|inode| inode.id != over));
    check_device(&mut device).unwrap();
}

#[test]
fn a_directory_does_not_move_over_a_full_one_nor_into_itself() {
    let (mut device, sb) = formatted();
    for path in ["/a", "/a/b", "/c"] {
        create_directory_at_path_journaled(&mut device, &sb, path).unwrap();
    }
    for (source, destination) in
        [("/c", "/a"), ("/a", "/a/b"), ("/none", "/c"), ("/c", "/none"), ("/", "/c")]
    {
        assert_eq!(
            rename_overwrite_directory_at_path_journaled(&mut device, &sb, source, destination)
                .unwrap_err()
                .kind(),
            ErrorKind::InvalidInput
        );
    }
    assert_eq!(
        rename_overwrite_directory_journaled(&mut device, &sb, 1, "c", 1, "c").unwrap(),
        RecoveryReport::default()
    );
    check_device(&mut device).unwrap();
}

#[test]
fn extents_follow_the_mapping_and_defragmenting_joins_them() {
    let (mut device, sb) = formatted();
    file(&mut device, &sb, "/a", &[1, 2]);
    file(&mut device, &sb, "/b", &[9]);
    append_file_blocks_at_path_journaled(&mut device, &sb, "/a", &[filled(3)]).unwrap();
    let first = sb.reserved_blocks();

    let extents = file_extents_at_path(&mut device, &sb, "/a").unwrap();
    assert_eq!(
        extents,
        vec![
            FileExtent { logical_start: 0, physical_start: first, block_count: 2 },
            FileExtent { logical_start: 2, physical_start: first + 3, block_count: 1 },
        ]
    );
    let page = file_extents_page_at_path(&mut device, &sb, "/a", None, 1).unwrap();
    assert_eq!(page.extents, extents[..1].to_vec());
    assert_eq!(page.next_after_logical, Some(1));
    let page =
        file_extents_page_at_path(&mut device, &sb, "/a", page.next_after_logical, 1).unwrap();
    assert_eq!(page.extents, extents[1..].to_vec());
    let beyond = file_extents_page_at_path(&mut device, &sb, "/a", Some(usize::MAX), 1).unwrap();
    assert!(beyond.extents.is_empty());

    let (blocks, _) =
        defragment_file_contiguous_at_path_journaled(&mut device, &sb, "/a").unwrap();
    assert_eq!(blocks, vec![first + 4, first + 5, first + 6]);
    assert_eq!(marks(&mut device, &sb, "/a"), vec![1, 2, 3]);
    assert_eq!(file_extents_at_path(&mut device, &sb, "/a").unwrap().len(), 1);
    let (same, report) =
        defragment_file_range_contiguous_at_path_journaled(&mut device, &sb, "/a", 1, 2).unwrap();
    assert_eq!(same, vec![first + 5, first + 6]);
    assert_eq!(report, RecoveryReport::default());
    check_device(&mut device).unwrap();
}

#[test]
fn files_are_changed_block_by_block_at_paths() {
    let (mut device, sb) = formatted();
    file(&mut device, &sb, "/a", &[1, 2]);
    insert_file_blocks_at_path_journaled(&mut device, &sb, "/a", 0, &[filled(3)]).unwrap();
    append_file_blocks_contiguous_at_path_journaled(&mut device, &sb, "/a", &[filled(4)]).unwrap();
    append_zeroed_blocks_contiguous_at_path_journaled(&mut device, &sb, "/a", 1).unwrap();
    insert_file_blocks_contiguous_at_path_journaled(&mut device, &sb, "/a", 1, &[filled(5)])
        .unwrap();
    insert_zeroed_blocks_contiguous_at_path_journaled(&mut device, &sb, "/a", 0, 1).unwrap();
    assert_eq!(marks(&mut device, &sb, "/a"), vec![0, 3, 5, 1, 2, 4, 0]);
    replace_file_blocks_contiguous_at_path_journaled(&mut device, &sb, "/a", 0, 1, &[filled(6)])
        .unwrap();
    replace_with_zeroed_blocks_contiguous_at_path_journaled(&mut device, &sb, "/a", 2, 1).unwrap();
    collapse_file_block_range_at_path_journaled(&mut device, &sb, "/a", 5, 2).unwrap();
    assert_eq!(marks(&mut device, &sb, "/a"), vec![6, 3, 0, 1, 2]);
    check_device(&mut device).unwrap();
}

#[test]
fn files_are_read_written_and_resized_at_paths() {
    let (mut device, sb) = formatted();
    file(&mut device, &sb, "/a", &[1, 2]);
    write_file_range_at_path_journaled(&mut device, &sb, "/a", 0, 4095, b"xy").unwrap();
    assert_eq!(
        read_file_range_at_path(&mut device, &sb, "/a", 0, 4094, 4).unwrap(),
        vec![1, b'x', b'y', 2]
    );
    grow_file_at_path_to_blocks_journaled(&mut device, &sb, "/a", 3).unwrap();
    assert_eq!(metadata_at_path(&mut device, &sb, "/a").unwrap().byte_len, 12288);
    grow_file_at_path_to_bytes_journaled(&mut device, &sb, "/a", 12289).unwrap();
    assert_eq!(metadata_at_path(&mut device, &sb, "/a").unwrap().logical_blocks, 4);
    resize_file_at_path_to_bytes_journaled(&mut device, &sb, "/a", 4097).unwrap();
    assert_eq!(metadata_at_path(&mut device, &sb, "/a").unwrap().byte_len, 4097);
    resize_file_at_path_to_blocks_journaled(&mut device, &sb, "/a", 1).unwrap();
    assert_eq!(metadata_at_path(&mut device, &sb, "/a").unwrap().logical_blocks, 1);
    copy_file_range_at_path_journaled(
        &mut device,
        &sb,
        PathFileRangeEndpoint { path: "/a", first_block: 0, offset: 0 },
        PathFileRangeEndpoint { path: "/a", first_block: 0, offset: 0 },
        1,
    )
    .unwrap();
    check_device(&mut device).unwrap();
}

#[test]
fn whole_files_are_written_and_replaced_at_paths() {
    let (mut device, sb) = formatted();
    file(&mut device, &sb, "/a", &[1, 2]);
    let data = [filled(7), filled(8)].concat();
    write_file_blocks_at_path_journaled(&mut device, &sb, "/a", &data).unwrap();
    assert_eq!(read_file_blocks_at_path(&mut device, &sb, "/a").unwrap(), data);
    replace_file_at_path_journaled(&mut device, &sb, "/a", &[filled(9)]).unwrap();
    assert_eq!(marks(&mut device, &sb, "/a"), vec![9]);
    assert_eq!(
        write_file_blocks_at_path_journaled(&mut device, &sb, "/a", &data).unwrap_err().kind(),
        ErrorKind::InvalidInput
    );
    check_device(&mut device).unwrap();
}

#[test]
fn ranges_are_exchanged_at_paths() {
    let (mut device, sb) = formatted();
    file(&mut device, &sb, "/a", &[1, 2, 3]);
    file(&mut device, &sb, "/b", &[4, 5]);
    exchange_file_block_ranges_at_path_journaled(
        &mut device,
        &sb,
        PathFileBlockRange { path: "/a", start: 0 },
        PathFileBlockRange { path: "/b", start: 1 },
        1,
    )
    .unwrap();
    exchange_variable_file_block_ranges_at_path_journaled(
        &mut device,
        &sb,
        PathVariableFileBlockRange { path: "/a", start: 1, block_count: 2 },
        PathVariableFileBlockRange { path: "/b", start: 0, block_count: 1 },
    )
    .unwrap();
    assert_eq!(marks(&mut device, &sb, "/a"), vec![5, 4]);
    assert_eq!(marks(&mut device, &sb, "/b"), vec![2, 3, 1]);
    exchange_same_file_block_ranges_at_path_journaled(
        &mut device,
        &sb,
        PathVariableFileBlockRange { path: "/b", start: 0, block_count: 1 },
        PathVariableFileBlockRange { path: "/b", start: 2, block_count: 1 },
    )
    .unwrap();
    assert_eq!(marks(&mut device, &sb, "/b"), vec![1, 3, 2]);
    check_device(&mut device).unwrap();
}

#[test]
fn copies_are_made_at_paths() {
    let (mut device, sb) = formatted();
    file(&mut device, &sb, "/a", &[1, 2, 3]);
    clone_file_to_path_journaled(&mut device, &sb, "/a", "/b").unwrap();
    clone_file_blocks_to_path_journaled(&mut device, &sb, "/a", 1, 2, "/c").unwrap();
    clone_file_blocks_contiguous_to_path_journaled(&mut device, &sb, "/a", 0, 1, "/d").unwrap();
    assert_eq!(marks(&mut device, &sb, "/b"), vec![1, 2, 3]);
    assert_eq!(marks(&mut device, &sb, "/c"), vec![2, 3]);
    assert_eq!(marks(&mut device, &sb, "/d"), vec![1]);

    clone_file_blocks_insert_at_path_journaled(
        &mut device,
        &sb,
        PathCloneInsertRange { path: "/a", start: 2, block_count: 1 },
        "/d",
        0,
    )
    .unwrap();
    clone_file_blocks_contiguous_append_at_path_journaled(
        &mut device,
        &sb,
        PathCloneAppendRange { path: "/a", start: 1, block_count: 1 },
        "/d",
    )
    .unwrap();
    assert_eq!(marks(&mut device, &sb, "/d"), vec![3, 1, 2]);

    clone_file_blocks_replace_at_path_journaled(
        &mut device,
        &sb,
        PathCloneReplaceRange { path: "/a", start: 0, block_count: 1 },
        "/d",
        2,
    )
    .unwrap();
    clone_file_blocks_contiguous_replace_at_path_journaled(
        &mut device,
        &sb,
        PathCloneReplaceRange { path: "/a", start: 1, block_count: 1 },
        "/d",
        0,
    )
    .unwrap();
    assert_eq!(marks(&mut device, &sb, "/d"), vec![2, 1, 1]);
    clone_file_blocks_splice_at_path_journaled(
        &mut device,
        &sb,
        PathCloneSpliceRange { path: "/a", start: 0, block_count: 3 },
        PathCloneSpliceRange { path: "/d", start: 0, block_count: 2 },
    )
    .unwrap();
    clone_file_blocks_contiguous_splice_at_path_journaled(
        &mut device,
        &sb,
        PathCloneSpliceRange { path: "/c", start: 0, block_count: 1 },
        PathCloneSpliceRange { path: "/d", start: 1, block_count: 2 },
    )
    .unwrap();
    assert_eq!(marks(&mut device, &sb, "/d"), vec![1, 2, 1]);

    clone_file_to_existing_path_journaled(&mut device, &sb, "/c", "/d").unwrap();
    assert_eq!(marks(&mut device, &sb, "/d"), vec![2, 3]);
    assert_eq!(marks(&mut device, &sb, "/a"), vec![1, 2, 3]);
    check_device(&mut device).unwrap();
}

#[test]
fn cloning_refuses_taken_names_empty_ranges_and_directories() {
    let (mut device, sb) = formatted();
    file(&mut device, &sb, "/a", &[1]);
    create_directory_at_path_journaled(&mut device, &sb, "/dir").unwrap();
    create_empty_file_at_path_journaled(&mut device, &sb, "/empty").unwrap();
    clone_file_to_path_journaled(&mut device, &sb, "/empty", "/empty2").unwrap();
    assert_eq!(metadata_at_path(&mut device, &sb, "/empty2").unwrap().logical_blocks, 0);
    for (source, destination) in [("/dir", "/x"), ("/a", "/dir")] {
        assert_eq!(
            clone_file_to_path_journaled(&mut device, &sb, source, destination)
                .unwrap_err()
                .kind(),
            ErrorKind::InvalidInput
        );
    }
    for (start, count) in [(0, 0), (0, 2), (0, usize::MAX)] {
        assert_eq!(
            clone_file_blocks_to_path_journaled(&mut device, &sb, "/a", start, count, "/x")
                .unwrap_err()
                .kind(),
            ErrorKind::InvalidInput
        );
    }
}
