use fslab::block::BLOCK_SIZE;
use fslab::directory_codec::PersistedDirectoryEntry;
use fslab::error::ErrorKind;
use fslab::inode::InodeKind;
use fslab::inode_codec::PersistedInode;
use fslab::path_directory_plus::{enumerate_directory_with_metadata, PathDirectoryEntryMetadata};

fn inode(id: u64, kind: InodeKind, blocks: &[u64]) -> PersistedInode {
    PersistedInode {
        id,
        kind,
        blocks: blocks.to_vec(),
        byte_len: (blocks.len() * BLOCK_SIZE) as u64,
    }
}

#[test]
fn reports_sorted_metadata_and_namespace_reference_counts() {
    let inodes = vec![
        inode(1, InodeKind::Directory, &[]),
        inode(2, InodeKind::File, &[20, 21]),
        inode(3, InodeKind::Directory, &[]),
    ];
    let entries = vec![
        PersistedDirectoryEntry {
            parent: 1,
            target: 3,
            name: "z-dir".to_owned(),
        },
        PersistedDirectoryEntry {
            parent: 1,
            target: 2,
            name: "a-file".to_owned(),
        },
        PersistedDirectoryEntry {
            parent: 3,
            target: 2,
            name: "alias".to_owned(),
        },
    ];

    assert_eq!(
        enumerate_directory_with_metadata(1, &inodes, &entries).unwrap(),
        vec![
            PathDirectoryEntryMetadata {
                name: "a-file".to_owned(),
                inode_id: 2,
                kind: InodeKind::File,
                logical_blocks: 2,
                namespace_references: 2,
            },
            PathDirectoryEntryMetadata {
                name: "z-dir".to_owned(),
                inode_id: 3,
                kind: InodeKind::Directory,
                logical_blocks: 0,
                namespace_references: 1,
            },
        ]
    );
}

#[test]
fn rejects_non_directory_target() {
    let error = enumerate_directory_with_metadata(
        2,
        &[inode(2, InodeKind::File, &[])],
        &[],
    )
    .unwrap_err();
    assert_eq!(error.kind(), ErrorKind::InvalidInput);
}

#[test]
fn rejects_dangling_child_target() {
    let entries = vec![PersistedDirectoryEntry {
        parent: 1,
        target: 99,
        name: "dangling".to_owned(),
    }];
    let error = enumerate_directory_with_metadata(
        1,
        &[inode(1, InodeKind::Directory, &[])],
        &entries,
    )
    .unwrap_err();
    assert_eq!(error.kind(), ErrorKind::InvalidData);
}
