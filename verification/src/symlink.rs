//! Symbolic links: one block that holds the target.

use vstd::prelude::*;
use vstd::slice::*;
use vstd::string::*;
use vstd::utf8::*;
use crate::allocation_disk;
use crate::allocation_disk::load_allocator;
use crate::block;
use crate::block::{Block, BlockDevice, Disk, BLOCK_SIZE};
use crate::bytes::read_u16;
use crate::error::{Error, ErrorKind};
use crate::file_blocks;
use crate::file_blocks::{find_inode, invalid_data, invalid_input};
use crate::format::Superblock;
use crate::inode::InodeKind;
use crate::inode_codec::{InodeView, PersistedInode};
use crate::inode_table;
use crate::inode_table::load_inode_table;
use crate::names::text_from_utf8;
use crate::region;
use crate::region::{block_from, is_marked, open_payload, seal, HEADER_SIZE, STATE_OFFSET};

verus! {

pub const SYMLINK_MAGIC: [u8; 4] = [0x53, 0x59, 0x4D, 0x31];

pub const SYMLINK_VERSION: u16 = 1;

/// The block that holds a target.
pub open spec fn symlink_block(target: Seq<char>) -> Seq<u8> {
    region::sealed(BLOCK_SIZE as nat, SYMLINK_MAGIC@, SYMLINK_VERSION, 0, encode_utf8(target))
}

/// The target that a block holds; none where the block is corrupt.
#[verifier::opaque]
pub open spec fn target_of(data: Seq<u8>) -> Option<Seq<char>> {
    if region::magic_of(data) != SYMLINK_MAGIC@ || region::version_of(data) != SYMLINK_VERSION
        || region::state_of(data) != 0 {
        None
    } else {
        match region::payload_of(data) {
            Some(payload) => if payload.len() > 0 && valid_utf8(payload) {
                Some(decode_utf8(payload))
            } else {
                None
            },
            None => None,
        }
    }
}

/// The block of the symbolic link `id`, or how it is refused.
pub open spec fn link_block(inodes: Seq<InodeView>, id: u64) -> Result<u64, ErrorKind> {
    match file_blocks::index_of(inodes, id) {
        None => Err(ErrorKind::InvalidInput),
        Some(i) => if inodes[i].kind != InodeKind::Symlink {
            Err(ErrorKind::InvalidInput)
        } else if inodes[i].blocks.len() != 1 {
            Err(ErrorKind::InvalidData)
        } else {
            Ok(inodes[i].blocks[0])
        },
    }
}

/// The target of the symbolic link `id`, or how it is refused: a missing inode and one of another
/// kind as invalid input, anything but one block in use with an intact target as invalid data.
#[verifier::opaque]
pub open spec fn symlink_target(disk: Disk, sb: Superblock, id: u64) -> Result<Seq<char>, ErrorKind> {
    match inode_table::inodes_on(disk, sb) {
        Err(kind) => Err(kind),
        Ok(inodes) => match link_block(inodes, id) {
            Err(kind) => Err(kind),
            Ok(b) => match allocation_disk::allocator_on(disk, sb) {
                Err(kind) => Err(kind),
                Ok(a) => if !a.owns(b) {
                    Err(ErrorKind::InvalidData)
                } else {
                    match target_of(disk[b as int]) {
                        Some(target) => Ok(target),
                        None => Err(ErrorKind::InvalidData),
                    }
                },
            },
        },
    }
}

/// A target that was laid out reads back.
pub proof fn law_symlink_round_trip(target: Seq<char>)
    requires
        0 < encode_utf8(target).len() <= BLOCK_SIZE - HEADER_SIZE,
    ensures
        target_of(symlink_block(target)) == Some(target),
{
    reveal(target_of);
    encode_utf8_valid_utf8(target);
    encode_utf8_decode_utf8(target);
    region::lemma_sealed(
        BLOCK_SIZE as nat,
        SYMLINK_MAGIC@,
        SYMLINK_VERSION,
        0,
        encode_utf8(target),
    );
}

/// Lays a target out as a block. An empty target and one that does not fit are refused.
pub fn encode_symlink(target: &str) -> (r: Result<Block, Error>)
    ensures
        match r {
            Ok(b) => 0 < encode_utf8(target@).len() <= BLOCK_SIZE - HEADER_SIZE && b@
                == symlink_block(target@),
            Err(e) => !(0 < encode_utf8(target@).len() <= BLOCK_SIZE - HEADER_SIZE) && e.kind
                == ErrorKind::InvalidInput,
        },
{
    let bytes = target.as_bytes();
    if bytes.len() == 0 {
        return Err(invalid_input("symbolic-link target must not be empty"));
    }
    match seal(BLOCK_SIZE, &SYMLINK_MAGIC, SYMLINK_VERSION, 0, bytes) {
        Some(v) => {
            proof {
                region::lemma_sealed(
                    BLOCK_SIZE as nat,
                    SYMLINK_MAGIC@,
                    SYMLINK_VERSION,
                    0,
                    encode_utf8(target@),
                );
                assert(v@.subrange(0, BLOCK_SIZE as int) =~= v@);
            }
            Ok(block_from(v.as_slice(), 0))
        },
        None => Err(invalid_input("symbolic-link target exceeds one block")),
    }
}

fn decode_symlink(data: &[u8]) -> (r: Option<String>)
    requires
        data@.len() >= 32,
    ensures
        match r {
            Some(target) => target_of(data@) == Some(target@),
            None => target_of(data@) is None,
        },
{
    proof {
        reveal(target_of);
    }
    if !is_marked(data, &SYMLINK_MAGIC, SYMLINK_VERSION) || read_u16(data, STATE_OFFSET) != 0 {
        return None;
    }
    match open_payload(data) {
        Some(payload) => if payload.len() == 0 {
            None
        } else {
            text_from_utf8(payload)
        },
        None => None,
    }
}

fn find_link_block(inodes: &[PersistedInode], inode_id: u64) -> (r: Result<u64, Error>)
    ensures
        match r {
            Ok(b) => link_block(inode_table::inode_views(inodes@), inode_id) == Ok::<
                u64,
                ErrorKind,
            >(b),
            Err(e) => link_block(inode_table::inode_views(inodes@), inode_id) == Err::<
                u64,
                ErrorKind,
            >(e.kind),
        },
{
    let index: usize = match find_inode(inodes, inode_id) {
        Some(i) => i,
        None => return Err(invalid_input("symbolic-link inode is missing")),
    };
    if inodes[index].kind != InodeKind::Symlink {
        return Err(invalid_input("inode is not a symbolic link"));
    }
    if inodes[index].blocks.len() != 1 {
        return Err(invalid_data("symbolic link must have exactly one block"));
    }
    Ok(inodes[index].blocks[0])
}

/// Reads the target of a symbolic link.
pub fn read_symlink<D: BlockDevice>(device: &mut D, superblock: &Superblock, inode_id: u64) -> (r: Result<String, Error>)
    ensures
        block::untouched(old(device), final(device)),
        match r {
            Ok(target) => symlink_target(old(device).blocks(), *superblock, inode_id) == Ok::<
                Seq<char>,
                ErrorKind,
            >(target@),
            Err(e) => !old(device).healthy() || symlink_target(
                old(device).blocks(),
                *superblock,
                inode_id,
            ) == Err::<Seq<char>, ErrorKind>(e.kind),
        },
{
    proof {
        reveal(symlink_target);
    }
    let inodes = load_inode_table(device, superblock)?;
    let block: u64 = find_link_block(inodes.as_slice(), inode_id)?;
    let allocator = load_allocator(device, superblock)?;
    match allocator.is_owned(block) {
        Ok(owned) => if !owned {
            return Err(invalid_data("symbolic-link block is not allocator-owned"));
        },
        Err(_) => return Err(invalid_data("symbolic-link block is no data block")),
    }
    let mut data: Block = [0u8; BLOCK_SIZE];
    device.read_block(block, &mut data)?;
    match decode_symlink(&data) {
        Some(target) => Ok(target),
        None => Err(invalid_data("symbolic-link payload is corrupt")),
    }
}

} // verus!
