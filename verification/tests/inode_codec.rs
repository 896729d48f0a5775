use fslab::block::BLOCK_SIZE_U64;
use fslab::error::ErrorKind;
use fslab::inode::InodeKind;
use fslab::inode_codec::{
    decode_inode, encode_inode, record_crc, PersistedInode, CRC_OFFSET, INODE_RECORD_HEADER_LEN,
    RESERVED_OFFSET,
};



fn sample() -> PersistedInode {
    PersistedInode::new(7, InodeKind::File, vec![11, 19, 27]).unwrap()
}

#[test]
fn constructor_rejects_invalid_persistence_invariants() {
    let zero = PersistedInode::new(0, InodeKind::File, Vec::new()).unwrap_err();
    assert_eq!(zero.kind(), ErrorKind::InvalidInput);

    let duplicate = PersistedInode::new(3, InodeKind::Directory, vec![9, 9]).unwrap_err();
    assert_eq!(duplicate.kind(), ErrorKind::InvalidInput);
}

#[test]
fn block_range_mutation_is_atomic_and_returns_displaced_blocks() {
    let mut inode = sample();

    let displaced = inode.replace_block_range(1..2, &[41, 43]).unwrap();

    assert_eq!(displaced, vec![19]);
    assert_eq!(inode.blocks, vec![11, 41, 43, 27]);
}

#[test]
fn block_range_mutation_rejects_invalid_candidate_without_changing_inode() {
    let mut inode = sample();
    let original = inode.clone();

    let duplicate = inode.replace_block_range(1..1, &[11]).unwrap_err();
    assert_eq!(duplicate.kind(), ErrorKind::InvalidInput);
    assert_eq!(inode, original);

    let outside = inode.replace_block_range(4..4, &[31]).unwrap_err();
    assert_eq!(outside.kind(), ErrorKind::InvalidInput);
    assert_eq!(inode, original);
}

#[test]
fn round_trip_preserves_inode() {
    let inode = sample();
    let encoded = encode_inode(&inode).unwrap();
    assert_eq!(decode_inode(&encoded).unwrap(), inode);
}

#[test]
fn round_trip_preserves_symlink_kind() {
    let inode = PersistedInode {
        id: 9,
        kind: InodeKind::Symlink,
        blocks: vec![31],
        byte_len: 0,
    };
    let encoded = encode_inode(&inode).unwrap();
    assert_eq!(decode_inode(&encoded).unwrap(), inode);
}

#[test]
fn round_trip_preserves_partial_regular_file_eof() {
    let inode = PersistedInode::new_file_with_size(11, vec![41, 43], 5000).unwrap();

    let encoded = encode_inode(&inode).unwrap();
    let decoded = decode_inode(&encoded).unwrap();

    assert_eq!(decoded, inode);
    assert_eq!(decoded.byte_len, 5000);
    assert_eq!(encoded.len(), INODE_RECORD_HEADER_LEN + 16);
}

#[test]
fn rejects_impossible_regular_file_eof() {
    assert_eq!(
        PersistedInode::new_file_with_size(11, vec![41], 0)
            .unwrap_err()
            .kind(),
        ErrorKind::InvalidInput
    );
    assert_eq!(
        PersistedInode::new_file_with_size(11, vec![41], BLOCK_SIZE_U64 + 1)
            .unwrap_err()
            .kind(),
        ErrorKind::InvalidInput
    );
    assert_eq!(
        PersistedInode::new_file_with_size(11, vec![41, 43], BLOCK_SIZE_U64)
            .unwrap_err()
            .kind(),
        ErrorKind::InvalidInput
    );
}

#[test]
fn block_range_mutation_preserves_partial_tail_offset() {
    let mut inode = PersistedInode::new_file_with_size(11, vec![41, 43], 5000).unwrap();

    inode.replace_block_range(0..0, &[47]).unwrap();

    assert_eq!(inode.blocks, vec![47, 41, 43]);
    assert_eq!(inode.byte_len, 5000 + BLOCK_SIZE_U64);
}

#[test]
fn detects_torn_payload() {
    let encoded = encode_inode(&sample()).unwrap();
    let error = decode_inode(&encoded[..encoded.len() - 1]).unwrap_err();
    assert_eq!(error.kind(), ErrorKind::UnexpectedEof);
}

#[test]
fn detects_corruption() {
    let mut encoded = encode_inode(&sample()).unwrap();
    *encoded.last_mut().unwrap() ^= 0x80;
    let error = decode_inode(&encoded).unwrap_err();
    assert_eq!(error.kind(), ErrorKind::InvalidData);
}

#[test]
fn rejects_duplicate_block_references() {
    let inode = PersistedInode {
        id: 3,
        kind: InodeKind::Directory,
        blocks: vec![9, 9],
        byte_len: 0,
    };
    let error = encode_inode(&inode).unwrap_err();
    assert_eq!(error.kind(), ErrorKind::InvalidInput);
}

#[test]
fn rejects_nonzero_reserved_bytes_even_with_recomputed_crc() {
    let mut encoded = encode_inode(&sample()).unwrap();
    encoded[RESERVED_OFFSET] = 1;
    let crc = record_crc(&encoded);
    encoded[CRC_OFFSET..CRC_OFFSET + 4].copy_from_slice(&crc.to_le_bytes());
    let error = decode_inode(&encoded).unwrap_err();
    assert_eq!(error.kind(), ErrorKind::InvalidData);
}
