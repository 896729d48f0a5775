//! The allocation bitmap on the device: one bit for each data block.

use vstd::prelude::*;
use vstd::slice::*;
use crate::allocation::{AllocView, BlockAllocator};
use crate::block;
use crate::block::{BlockDevice, Disk, BLOCK_SIZE};
use crate::bytes::{read_u16, same_bytes};
use crate::error::{Error, ErrorKind};
use crate::format::Superblock;
use crate::region;
use crate::region::{is_marked, open_payload, read_region, seal, HEADER_SIZE, STATE_OFFSET};

verus! {

pub const ALLOCATION_MAGIC: [u8; 4] = [0x41, 0x4C, 0x43, 0x31];

pub const ALLOCATION_VERSION: u16 = 1;

/// The value of bit `j` of a byte.
pub open spec fn weight(j: int) -> int {
    if j == 0 {
        1
    } else if j == 1 {
        2
    } else if j == 2 {
        4
    } else if j == 3 {
        8
    } else if j == 4 {
        16
    } else if j == 5 {
        32
    } else if j == 6 {
        64
    } else {
        128
    }
}

/// What block `i` adds to its byte of the bitmap.
pub open spec fn share(owned: Seq<bool>, i: int) -> int {
    if i < owned.len() && owned[i] {
        weight(i % 8)
    } else {
        0
    }
}

/// Byte `k` of the bitmap.
pub open spec fn bitmap_byte(owned: Seq<bool>, k: int) -> u8 {
    (share(owned, 8 * k) + share(owned, 8 * k + 1) + share(owned, 8 * k + 2) + share(
        owned,
        8 * k + 3,
    ) + share(owned, 8 * k + 4) + share(owned, 8 * k + 5) + share(owned, 8 * k + 6) + share(
        owned,
        8 * k + 7,
    )) as u8
}

/// The bitmap: bit `i % 8` of byte `i / 8` stands for data block `i`, and unused bits are zero.
pub open spec fn bitmap(owned: Seq<bool>) -> Seq<u8> {
    Seq::new(((owned.len() + 7) / 8) as nat, |k: int| bitmap_byte(owned, k))
}

/// The first `count` bits of a bitmap.
pub open spec fn bits(map: Seq<u8>, count: nat) -> Seq<bool> {
    Seq::new(count, |i: int| (map[i / 8] as int / weight(i % 8)) % 2 == 1)
}

/// The allocator covers the data blocks of this file system.
pub open spec fn matches_geometry(sb: Superblock, a: AllocView) -> bool {
    a.first == sb.data_start() && a.owned.len() == sb.total_blocks - sb.data_start()
}

/// The region that holds an allocation state.
pub open spec fn allocation_region(sb: Superblock, a: AllocView) -> Seq<u8> {
    region::sealed(
        (sb.allocation_blocks * BLOCK_SIZE) as nat,
        ALLOCATION_MAGIC@,
        ALLOCATION_VERSION,
        0,
        bitmap(a.owned),
    )
}

/// The allocation state that a region holds; none where it is corrupt.
pub open spec fn allocation_of(sb: Superblock, data: Seq<u8>) -> Option<AllocView> {
    let count = (sb.total_blocks - sb.data_start()) as nat;
    if region::magic_of(data) != ALLOCATION_MAGIC@ || region::version_of(data) != ALLOCATION_VERSION
        || region::state_of(data) != 0 {
        None
    } else {
        match region::payload_of(data) {
            Some(map) => if map == bitmap(bits(map, count)) {
                Some(AllocView { first: sb.data_start() as u64, owned: bits(map, count) })
            } else {
                None
            },
            None => None,
        }
    }
}

/// The allocation state of a device, or how it is refused.
#[verifier::opaque]
pub open spec fn allocator_on(disk: Disk, sb: Superblock) -> Result<AllocView, ErrorKind> {
    if !sb.fits(disk) {
        Err(ErrorKind::InvalidInput)
    } else {
        match allocation_of(
            sb,
            region::region_of(disk, sb.allocation_start as int, sb.allocation_blocks as nat),
        ) {
            Some(a) => Ok(a),
            None => Err(ErrorKind::InvalidData),
        }
    }
}

proof fn lemma_byte_bits(a: int, b: int, c: int, d: int, e: int, f: int, g: int, h: int, x: int)
    requires
        a == 0 || a == 1,
        b == 0 || b == 2,
        c == 0 || c == 4,
        d == 0 || d == 8,
        e == 0 || e == 16,
        f == 0 || f == 32,
        g == 0 || g == 64,
        h == 0 || h == 128,
        x == a + b + c + d + e + f + g + h,
    ensures
        0 <= x < 256,
        x % 2 == a,
        2 * ((x / 2) % 2) == b,
        4 * ((x / 4) % 2) == c,
        8 * ((x / 8) % 2) == d,
        16 * ((x / 16) % 2) == e,
        32 * ((x / 32) % 2) == f,
        64 * ((x / 64) % 2) == g,
        128 * ((x / 128) % 2) == h,
{
}

/// A bitmap gives back the blocks that it was made of.
pub proof fn law_bitmap_round_trip(owned: Seq<bool>)
    ensures
        bits(bitmap(owned), owned.len()) == owned,
{
    let map = bitmap(owned);
    let back = bits(map, owned.len());
    assert forall|i: int| 0 <= i < owned.len() implies back[i] == owned[i] by {
        let k = i / 8;
        assert(map[k] == bitmap_byte(owned, k));
        lemma_byte_bits(
            share(owned, 8 * k),
            share(owned, 8 * k + 1),
            share(owned, 8 * k + 2),
            share(owned, 8 * k + 3),
            share(owned, 8 * k + 4),
            share(owned, 8 * k + 5),
            share(owned, 8 * k + 6),
            share(owned, 8 * k + 7),
            share(owned, 8 * k) + share(owned, 8 * k + 1) + share(owned, 8 * k + 2) + share(
                owned,
                8 * k + 3,
            ) + share(owned, 8 * k + 4) + share(owned, 8 * k + 5) + share(owned, 8 * k + 6)
                + share(owned, 8 * k + 7),
        );
        assert(i == 8 * k + i % 8);
    }
    assert(back =~= owned);
}

/// The bitmap of a file system fits its region.
proof fn lemma_bitmap_fits(sb: Superblock, a: AllocView)
    requires
        sb.valid(),
        matches_geometry(sb, a),
    ensures
        HEADER_SIZE + bitmap(a.owned).len() <= sb.allocation_blocks * BLOCK_SIZE,
{
    assert(bitmap(a.owned).len() == (a.owned.len() + 7) / 8);
    assert(sb.allocation_blocks == crate::format::bitmap_blocks(sb.total_blocks as int));
}

/// An allocation state that was laid out reads back.
pub proof fn law_allocation_round_trip(sb: Superblock, a: AllocView)
    requires
        sb.valid(),
        matches_geometry(sb, a),
    ensures
        allocation_of(sb, allocation_region(sb, a)) == Some(a),
        allocation_region(sb, a).len() == sb.allocation_blocks * BLOCK_SIZE,
{
    lemma_bitmap_fits(sb, a);
    law_bitmap_round_trip(a.owned);
    region::lemma_sealed(
        (sb.allocation_blocks * BLOCK_SIZE) as nat,
        ALLOCATION_MAGIC@,
        ALLOCATION_VERSION,
        0,
        bitmap(a.owned),
    );
}

fn share_at(owned: &[bool], i: usize, w: u8) -> (s: u8)
    requires
        w == weight(i as int % 8),
    ensures
        s == share(owned@, i as int),
        s == 0 || s == w,
{
    if i < owned.len() && owned[i] {
        w
    } else {
        0
    }
}

fn encode_bitmap(owned: &[bool]) -> (map: Vec<u8>)
    ensures
        map@ == bitmap(owned@),
{
    let mut map: Vec<u8> = Vec::new();
    let count: usize = owned.len() / 8 + if owned.len() % 8 == 0 {
        0
    } else {
        1
    };
    let mut k: usize = 0;
    while k < count
        invariant
            count == (owned@.len() + 7) / 8,
            owned@.len() <= usize::MAX,
            k <= count,
            map@.len() == k,
            forall|i: int| 0 <= i < k ==> #[trigger] map@[i] == bitmap_byte(owned@, i),
        decreases count - k,
    {
        let at: usize = 8 * k;
        let a: u8 = share_at(owned, at, 1);
        let b: u8 = if owned.len() - at > 1 {
            share_at(owned, at + 1, 2)
        } else {
            0
        };
        let c: u8 = if owned.len() - at > 2 {
            share_at(owned, at + 2, 4)
        } else {
            0
        };
        let d: u8 = if owned.len() - at > 3 {
            share_at(owned, at + 3, 8)
        } else {
            0
        };
        let e: u8 = if owned.len() - at > 4 {
            share_at(owned, at + 4, 16)
        } else {
            0
        };
        let f: u8 = if owned.len() - at > 5 {
            share_at(owned, at + 5, 32)
        } else {
            0
        };
        let g: u8 = if owned.len() - at > 6 {
            share_at(owned, at + 6, 64)
        } else {
            0
        };
        let h: u8 = if owned.len() - at > 7 {
            share_at(owned, at + 7, 128)
        } else {
            0
        };
        map.push(a + b + c + d + e + f + g + h);
        k += 1;
    }
    assert(map@ =~= bitmap(owned@));
    map
}

fn weight_of(j: usize) -> (w: u8)
    ensures
        w == weight(j as int),
{
    if j == 0 {
        1
    } else if j == 1 {
        2
    } else if j == 2 {
        4
    } else if j == 3 {
        8
    } else if j == 4 {
        16
    } else if j == 5 {
        32
    } else if j == 6 {
        64
    } else {
        128
    }
}

fn decode_bits(map: &[u8], count: usize) -> (owned: Vec<bool>)
    requires
        count <= 8 * map@.len(),
    ensures
        owned@ == bits(map@, count as nat),
{
    let mut owned: Vec<bool> = Vec::new();
    let mut i: usize = 0;
    while i < count
        invariant
            count <= 8 * map@.len(),
            i <= count,
            owned@ == bits(map@, i as nat),
        decreases count - i,
    {
        owned.push((map[i / 8] / weight_of(i % 8)) % 2 == 1);
        i += 1;
        assert(owned@ =~= bits(map@, i as nat));
    }
    owned
}

/// Loads the allocation state of a device.
pub fn load_allocator<D: BlockDevice>(device: &mut D, superblock: &Superblock) -> (r: Result<BlockAllocator, Error>)
    ensures
        block::untouched(old(device), final(device)),
        match r {
            Ok(a) => {
                &&& allocator_on(old(device).blocks(), *superblock) == Ok::<AllocView, ErrorKind>(a@)
                &&& superblock.fits(old(device).blocks())
                &&& a@.wf()
                &&& matches_geometry(*superblock, a@)
            },
            Err(e) => !old(device).healthy() || allocator_on(old(device).blocks(), *superblock)
                == Err::<AllocView, ErrorKind>(e.kind),
        },
{
    proof {
        reveal(allocator_on);
    }
    if !superblock.describes(device.block_count()) {
        return Err(
            Error::new(ErrorKind::InvalidInput, "superblock does not describe the device"),
        );
    }
    let data = read_region(device, superblock.allocation_start, superblock.allocation_blocks)?;
    let region = data.as_slice();
    if !is_marked(region, &ALLOCATION_MAGIC, ALLOCATION_VERSION) || read_u16(region, STATE_OFFSET)
        != 0 {
        return Err(Error::new(ErrorKind::InvalidData, "allocation region header is invalid"));
    }
    let map = match open_payload(region) {
        Some(map) => map,
        None => return Err(Error::new(ErrorKind::InvalidData, "allocation region is corrupt")),
    };
    let count: usize = (superblock.total_blocks - superblock.reserved_blocks()) as usize;
    let bytes: usize = count / 8 + if count % 8 == 0 {
        0
    } else {
        1
    };
    if map.len() != bytes {
        return Err(Error::new(ErrorKind::InvalidData, "allocation bitmap has the wrong length"));
    }
    let owned = decode_bits(map.as_slice(), count);
    let canonical = encode_bitmap(owned.as_slice());
    if !same_bytes(map.as_slice(), canonical.as_slice()) {
        return Err(Error::new(ErrorKind::InvalidData, "allocation bitmap padding is non-zero"));
    }
    Ok(BlockAllocator { first: superblock.reserved_blocks(), owned })
}

/// Lays an allocation state out as the bytes of its region.
pub fn render_allocator(superblock: &Superblock, allocator: &BlockAllocator) -> (r: Result<Vec<u8>, Error>)
    requires
        superblock.valid(),
    ensures
        match r {
            Ok(v) => matches_geometry(*superblock, allocator@) && v@ == allocation_region(
                *superblock,
                allocator@,
            ),
            Err(e) => !matches_geometry(*superblock, allocator@) && e.kind
                == ErrorKind::InvalidInput,
        },
{
    let reserved: u64 = superblock.reserved_blocks();
    if allocator.first != reserved || allocator.owned.len() as u64 != superblock.total_blocks
        - reserved {
        return Err(
            Error::new(ErrorKind::InvalidInput, "allocator does not match filesystem geometry"),
        );
    }
    let map = encode_bitmap(allocator.owned.as_slice());
    proof {
        lemma_bitmap_fits(*superblock, allocator@);
    }
    let capacity: usize = superblock.allocation_blocks as usize * BLOCK_SIZE;
    match seal(capacity, &ALLOCATION_MAGIC, ALLOCATION_VERSION, 0, map.as_slice()) {
        Some(v) => Ok(v),
        None => Err(Error::new(ErrorKind::InvalidInput, "allocation bitmap exceeds its region")),
    }
}

} // verus!
